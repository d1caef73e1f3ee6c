use eve_astar::astar::AStarError;
use eve_astar::evemap::{
    parse, EveMap, MapError, MapType, Neighbours, ParseError, SolarSystemId, SolarSystemIndex,
    StargateData, StelarItemType, StellarRecord, UnionSystemData,
};
use eve_astar::route::{jump_route, unit_steps};
use eve_astar::sde::SdeZipReader;

fn fields(
    solar_system_id: Option<u64>,
    constellation_id: Option<u64>,
    region_id: Option<u64>,
    stargates: Option<Vec<(u64, u64)>>,
) -> UnionSystemData {
    UnionSystemData { solar_system_id, constellation_id, region_id, stargates }
}

fn region_record(name: &str, id: u64) -> StellarRecord {
    let path = format!("sde/fsd/universe/eve/{}/region.staticdata", name);
    parse(&path, fields(None, None, Some(id), None)).unwrap()
}

fn constellation_record(region: &str, name: &str, id: u64) -> StellarRecord {
    let path = format!("sde/fsd/universe/eve/{}/{}/constellation.staticdata", region, name);
    parse(&path, fields(None, Some(id), None, None)).unwrap()
}

fn system_record(
    region: &str,
    constellation: &str,
    name: &str,
    id: u64,
    gates: Vec<(u64, u64)>,
) -> StellarRecord {
    let path = format!(
        "sde/fsd/universe/eve/{}/{}/{}/solarsystem.staticdata",
        region, constellation, name
    );
    parse(&path, fields(Some(id), None, None, Some(gates))).unwrap()
}

/// Three systems in a row, Jita - Perimeter - Urlen, given out of order.
fn small_universe() -> Vec<StellarRecord> {
    vec![
        system_record("Forge", "Kimotoro", "Urlen", 30000139, vec![(503, 502)]),
        region_record("Forge", 10000002),
        None,
        system_record("Forge", "Kimotoro", "Jita", 30000142, vec![(501, 500)]),
        constellation_record("Forge", "Kimotoro", 20000020),
        system_record("Forge", "Kimotoro", "Perimeter", 30000144, vec![(500, 501), (502, 503)]),
    ]
}

fn index_by_name(map: &EveMap, name: &str) -> SolarSystemIndex {
    let id = map.get_solarsystem_id_by_name(name).unwrap();
    map.get_solarsystem_idx(&id)
}

#[test]
fn systems_are_indexed_in_the_order_of_their_ids() {
    let map = EveMap::new(small_universe()).unwrap();
    assert_eq!(map.len(), 3);
    assert_eq!(usize::from(index_by_name(&map, "Urlen")), 0);
    assert_eq!(usize::from(index_by_name(&map, "Jita")), 1);
    assert_eq!(usize::from(index_by_name(&map, "Perimeter")), 2);
    let ids: Vec<u64> = map.systems().iter().map(|s| s.solar_system_id.id()).collect();
    assert_eq!(ids, vec![30000139, 30000142, 30000144]);
}

#[test]
fn extended_records_stand_under_the_same_index() {
    let map = EveMap::new(small_universe()).unwrap();
    for name in ["Urlen", "Jita", "Perimeter"] {
        let index = index_by_name(&map, name);
        let info = map.get_extended_solarsystem_info(&index);
        assert_eq!(info.name, name);
        assert_eq!(info.solar_system_id, map.get_system(&index).solar_system_id);
        assert_eq!(info.constellation_id, 20000020);
        assert_eq!(info.region_id, 10000002);
    }
}

#[test]
fn names_of_regions_and_constellations_are_known_too() {
    let map = EveMap::new(small_universe()).unwrap();
    let region = map.get_solarsystem_id_by_name("Forge").unwrap();
    assert_eq!(region.id(), 10000002);
    assert!(!map.has_solarsystem(&region));
    let constellation = map.get_solarsystem_id_by_name("Kimotoro").unwrap();
    assert_eq!(constellation.id(), 20000020);
    assert!(!map.has_solarsystem(&constellation));
    assert!(map.has_solarsystem(&SolarSystemId::new(30000142)));
    assert!(map.get_solarsystem_id_by_name("Amarr").is_none());
    assert!(map.get_solarsystem_id_by_name("").is_none());
}

#[test]
fn a_later_item_of_the_same_name_wins() {
    let mut records = small_universe();
    records.push(region_record("Kimotoro", 10000099));
    let map = EveMap::new(records).unwrap();
    assert_eq!(map.get_solarsystem_id_by_name("Kimotoro").unwrap().id(), 10000099);
    let info = map.get_extended_solarsystem_info(&index_by_name(&map, "Jita"));
    assert_eq!(info.constellation_id, 10000099);
}

#[test]
fn neighbours_follow_the_stargates_in_their_order() {
    let map = EveMap::new(small_universe()).unwrap();
    let urlen = index_by_name(&map, "Urlen");
    let jita = index_by_name(&map, "Jita");
    let perimeter = index_by_name(&map, "Perimeter");
    assert_eq!(map.get_neighbours(&jita), vec![perimeter]);
    assert_eq!(map.get_neighbours(&urlen), vec![perimeter]);
    assert_eq!(map.get_neighbours(&perimeter), vec![jita, urlen]);
    assert_eq!(map.get_system(&perimeter).get_neighbours(), vec![jita, urlen]);
    // the query can be asked again and gives the same
    assert_eq!(map.get_neighbours(&perimeter), vec![jita, urlen]);
}

#[test]
fn a_system_without_stargates_has_no_neighbours() {
    let records = vec![
        region_record("Forge", 10000002),
        constellation_record("Forge", "Kimotoro", 20000020),
        system_record("Forge", "Kimotoro", "Jita", 30000142, vec![]),
    ];
    let map = EveMap::new(records).unwrap();
    let jita = index_by_name(&map, "Jita");
    assert!(map.get_neighbours(&jita).is_empty());
    assert!(matches!(
        map.get_system(&jita).neighbours.get(),
        Some(Neighbours::InPlace([None, None, None]))
    ));
}

#[test]
fn a_system_that_was_given_no_stargates_has_none_set() {
    let path = "sde/fsd/universe/eve/Forge/Kimotoro/Jita/solarsystem.staticdata";
    let item = match parse(path, fields(Some(30000142), None, None, None)).unwrap() {
        Some((item, _)) => item,
        None => panic!("the path is that of a solar system"),
    };
    let records = vec![
        region_record("Forge", 10000002),
        constellation_record("Forge", "Kimotoro", 20000020),
        Some((item, None)),
    ];
    let map = EveMap::new(records).unwrap();
    let jita = index_by_name(&map, "Jita");
    assert!(map.get_system(&jita).neighbours.get().is_none());
    assert!(map.get_neighbours(&jita).is_empty());
}

/// A hub with `degree` neighbours, each linked back to the hub.
fn star(degree: u64) -> EveMap {
    let mut records = vec![
        region_record("Forge", 10000002),
        constellation_record("Forge", "Kimotoro", 20000020),
    ];
    let mut hub_gates = Vec::new();
    for n in 1..=degree {
        // given in falling order, so that the order of the stargates is not that of the ids
        let spoke = degree + 1 - n;
        hub_gates.push((1000 + spoke, 2000 + spoke));
        records.push(system_record(
            "Forge",
            "Kimotoro",
            &format!("Spoke{}", spoke),
            30000100 + spoke,
            vec![(2000 + spoke, 1000 + spoke)],
        ));
    }
    records.push(system_record("Forge", "Kimotoro", "Hub", 30000100, hub_gates));
    EveMap::new(records).unwrap()
}

#[test]
fn up_to_three_neighbours_are_held_in_place() {
    for degree in 0..=3u64 {
        let map = star(degree);
        let hub = index_by_name(&map, "Hub");
        let held = map.get_system(&hub).neighbours.get().unwrap();
        assert!(matches!(held, Neighbours::InPlace(_)));
        let expected: Vec<SolarSystemIndex> =
            (1..=degree).rev().map(|n| index_by_name(&map, &format!("Spoke{}", n))).collect();
        assert_eq!(map.get_neighbours(&hub), expected);
        assert_eq!(held.to_vec(), expected);
    }
}

#[test]
fn more_than_three_neighbours_are_held_on_the_heap_in_insertion_order() {
    for degree in [4u64, 5, 9] {
        let map = star(degree);
        let hub = index_by_name(&map, "Hub");
        let held = map.get_system(&hub).neighbours.get().unwrap();
        assert!(matches!(held, Neighbours::Vec(_)));
        let expected: Vec<SolarSystemIndex> =
            (1..=degree).rev().map(|n| index_by_name(&map, &format!("Spoke{}", n))).collect();
        assert_eq!(map.get_neighbours(&hub), expected);
        assert_eq!(expected.len() as u64, degree);
    }
}

#[test]
fn neighbours_can_be_walked_by_position() {
    for degree in [0u64, 2, 3, 4, 7] {
        let map = star(degree);
        let hub = map.get_system(&index_by_name(&map, "Hub"));
        assert_eq!(hub.neighbour_count() as u64, degree);
        let expected = hub.get_neighbours();
        for round in 0..2 {
            let walked: Vec<SolarSystemIndex> =
                (0..hub.neighbour_count()).map(|k| hub.neighbour_at(k)).collect();
            assert_eq!(walked, expected, "round {}", round);
        }
    }
}

#[test]
fn slots_in_place_count_only_when_filled() {
    let map = star(3);
    let a = index_by_name(&map, "Spoke1");
    let b = index_by_name(&map, "Spoke2");
    let held = Neighbours::InPlace([None, Some(a), Some(b)]);
    assert_eq!(held.len(), 2);
    assert_eq!(held.get(0), a);
    assert_eq!(held.get(1), b);
    assert_eq!(held.to_vec(), vec![a, b]);
    let empty = Neighbours::InPlace([None, None, None]);
    assert_eq!(empty.len(), 0);
    assert!(empty.to_vec().is_empty());
    let heap = Neighbours::Vec(vec![b, a, b, a]);
    assert_eq!(heap.len(), 4);
    assert_eq!(heap.get(2), b);
    assert_eq!(heap.get(3), a);
}

#[test]
fn from_iter_picks_the_storage_by_the_number_of_neighbours() {
    let map = star(5);
    let all: Vec<SolarSystemIndex> =
        (1..=5).map(|n| index_by_name(&map, &format!("Spoke{}", n))).collect();
    let three = Neighbours::from_iter(all[0..3].to_vec());
    match &three {
        Neighbours::InPlace(slots) => {
            assert_eq!(*slots, [Some(all[0]), Some(all[1]), Some(all[2])]);
        },
        Neighbours::Vec(_) => panic!("three neighbours fit in place"),
    }
    assert_eq!(three.to_vec(), all[0..3].to_vec());
    let two = Neighbours::from_iter(vec![all[3], all[1]]);
    match &two {
        Neighbours::InPlace(slots) => assert_eq!(*slots, [Some(all[3]), Some(all[1]), None]),
        Neighbours::Vec(_) => panic!("two neighbours fit in place"),
    }
    let none = Neighbours::from_iter(Vec::new());
    match &none {
        Neighbours::InPlace(slots) => assert_eq!(*slots, [None, None, None]),
        Neighbours::Vec(_) => panic!("no neighbours fit in place"),
    }
    let one = Neighbours::from_iter(vec![all[4]]);
    match &one {
        Neighbours::InPlace(slots) => assert_eq!(*slots, [Some(all[4]), None, None]),
        Neighbours::Vec(_) => panic!("one neighbour fits in place"),
    }
    let four = Neighbours::from_iter(all[0..4].to_vec());
    match &four {
        Neighbours::Vec(list) => assert_eq!(*list, all[0..4].to_vec()),
        Neighbours::InPlace(_) => panic!("four neighbours do not fit in place"),
    }
    assert_eq!(four.to_vec(), all[0..4].to_vec());
}

#[test]
fn unknown_constellation_fails_construction() {
    let records = vec![
        region_record("Forge", 10000002),
        system_record("Forge", "Kimotoro", "Jita", 30000142, vec![]),
    ];
    let expected = MapError::ConstellationNotFound {
        constellation: "Kimotoro".to_string(),
        system: "Jita".to_string(),
    };
    assert_eq!(EveMap::new(records).err(), Some(expected));
}

#[test]
fn unknown_region_fails_construction() {
    let records = vec![
        constellation_record("Forge", "Kimotoro", 20000020),
        system_record("Forge", "Kimotoro", "Jita", 30000142, vec![]),
    ];
    let expected =
        MapError::RegionNotFound { region: "Forge".to_string(), system: "Jita".to_string() };
    assert_eq!(EveMap::new(records).err(), Some(expected));
}

#[test]
fn stargate_into_nowhere_fails_construction() {
    let records = vec![
        region_record("Forge", 10000002),
        constellation_record("Forge", "Kimotoro", 20000020),
        system_record("Forge", "Kimotoro", "Jita", 30000142, vec![(501, 777)]),
    ];
    assert_eq!(EveMap::new(records).err(), Some(MapError::UnresolvedStargate(777)));
}

#[test]
fn stargates_given_twice_for_a_system_fail_construction() {
    let mut records = small_universe();
    records.push(system_record("Forge", "Kimotoro", "Jita", 30000142, vec![(501, 500)]));
    assert_eq!(
        EveMap::new(records).err(),
        Some(MapError::NeighboursAlreadySet(SolarSystemId::new(30000142)))
    );
}

#[test]
fn stargates_of_an_unknown_system_fail_construction() {
    let mut records = small_universe();
    let gates = vec![StargateData {
        stargate_id: 900,
        solar_system_id: SolarSystemId::new(30009999),
        destination_stargate_id: 500,
    }];
    let region = match region_record("Domain", 10000043) {
        Some((item, _)) => item,
        None => panic!("the path is that of a region"),
    };
    records.push(Some((region, Some((SolarSystemId::new(30009999), gates)))));
    assert_eq!(
        EveMap::new(records).err(),
        Some(MapError::UnknownSystem(SolarSystemId::new(30009999)))
    );
}

#[test]
fn more_systems_than_indices_fail_construction() {
    let mut records: Vec<StellarRecord> = Vec::new();
    for n in 0..65537u64 {
        let item = (30000000 + n, format!("S{}", n), MapType::SolarSystem {
            region: "Forge".to_string(),
            constellation: "Kimotoro".to_string(),
        });
        records.push(Some((item, None)));
    }
    records.push(constellation_record("Forge", "Kimotoro", 20000020));
    records.push(region_record("Forge", 10000002));
    assert_eq!(EveMap::new(records).err(), Some(MapError::TooManySystems));
}

#[test]
fn as_many_systems_as_indices_are_accepted() {
    let mut records: Vec<StellarRecord> = Vec::new();
    for n in 0..65536u64 {
        let item = (30000000 + n, format!("S{}", n), MapType::SolarSystem {
            region: "Forge".to_string(),
            constellation: "Kimotoro".to_string(),
        });
        records.push(Some((item, None)));
    }
    records.push(constellation_record("Forge", "Kimotoro", 20000020));
    records.push(region_record("Forge", 10000002));
    let map = EveMap::new(records).unwrap();
    assert_eq!(map.len(), 65536);
    assert_eq!(usize::from(map.get_solarsystem_idx(&SolarSystemId::new(30065535))), 65535);
    assert_eq!(usize::from(map.get_solarsystem_idx(&SolarSystemId::new(30000000))), 0);
}

#[test]
fn parse_reads_a_region() {
    let parsed = parse(
        "sde/fsd/universe/eve/TheForge/region.staticdata",
        fields(None, None, Some(10000002), None),
    );
    match parsed {
        Ok(Some(((id, name, MapType::Region), None))) => {
            assert_eq!(id, 10000002);
            assert_eq!(name, "TheForge");
        },
        _ => panic!("a region was expected"),
    }
}

#[test]
fn parse_reads_a_constellation_with_its_region() {
    let parsed = parse(
        "sde/fsd/universe/eve/TheForge/Kimotoro/constellation.staticdata",
        fields(None, Some(20000020), None, None),
    );
    match parsed {
        Ok(Some(((id, name, MapType::Constellation { region }), None))) => {
            assert_eq!(id, 20000020);
            assert_eq!(name, "Kimotoro");
            assert_eq!(region, "TheForge");
        },
        _ => panic!("a constellation was expected"),
    }
}

#[test]
fn parse_reads_a_solar_system_with_its_stargates() {
    let parsed = parse(
        "sde/fsd/universe/eve/TheForge/Kimotoro/Jita/solarsystem.staticdata",
        fields(Some(30000142), Some(1), Some(2), Some(vec![(50001248, 50001249), (7, 8)])),
    );
    match parsed {
        Ok(Some(((id, name, kind), Some((ssid, gates))))) => {
            assert_eq!(id, 30000142);
            assert_eq!(name, "Jita");
            assert!(kind.is_solarsystem());
            match kind {
                MapType::SolarSystem { region, constellation } => {
                    assert_eq!(region, "TheForge");
                    assert_eq!(constellation, "Kimotoro");
                },
                _ => panic!("a solar system was expected"),
            }
            assert_eq!(ssid, SolarSystemId::new(30000142));
            assert_eq!(gates.len(), 2);
            assert_eq!(gates[0].stargate_id, 50001248);
            assert_eq!(gates[0].destination_stargate_id, 50001249);
            assert_eq!(gates[0].solar_system_id, ssid);
            assert_eq!(gates[1].stargate_id, 7);
            assert_eq!(gates[1].destination_stargate_id, 8);
        },
        _ => panic!("a solar system was expected"),
    }
}

#[test]
fn parse_gives_a_solar_system_without_stargate_field_an_empty_list() {
    let parsed = parse("a/b/c/d/solarsystem.staticdata", fields(Some(5), None, None, None));
    match parsed {
        Ok(Some(((5, name, _), Some((ssid, gates))))) => {
            assert_eq!(name, "d");
            assert_eq!(ssid.id(), 5);
            assert!(gates.is_empty());
        },
        _ => panic!("a solar system was expected"),
    }
}

#[test]
fn parse_passes_over_other_files() {
    for path in [
        "sde/fsd/universe/eve/TheForge/Kimotoro/Jita/star.staticdata",
        "sde/fsd/universe/eve/TheForge/region.yaml",
        "region.staticdata.bak",
        "",
        "sde/fsd/universe/eve/TheForge/",
        "solarsystem.staticdata/x",
    ] {
        let parsed = parse(path, fields(Some(1), Some(2), Some(3), None));
        assert!(matches!(parsed, Ok(None)));
    }
}

#[test]
fn parse_needs_the_id_of_the_kind() {
    let system = "r/c/s/solarsystem.staticdata";
    let constellation = "r/c/constellation.staticdata";
    let region = "r/region.staticdata";
    assert_eq!(
        parse(system, fields(None, Some(2), Some(3), None)).err(),
        Some(ParseError::MissingSolarSystemId)
    );
    assert_eq!(
        parse(constellation, fields(Some(1), None, Some(3), None)).err(),
        Some(ParseError::MissingConstellationId)
    );
    assert_eq!(
        parse(region, fields(Some(1), Some(2), None, None)).err(),
        Some(ParseError::MissingRegionId)
    );
    // the id is asked for before the path is looked at
    assert_eq!(
        parse("solarsystem.staticdata", fields(None, None, None, None)).err(),
        Some(ParseError::MissingSolarSystemId)
    );
}

#[test]
fn parse_needs_the_names_in_the_path() {
    let all = || fields(Some(1), Some(2), Some(3), None);
    assert_eq!(parse("region.staticdata", all()).err(), Some(ParseError::MissingPathItem(1)));
    assert_eq!(
        parse("constellation.staticdata", all()).err(),
        Some(ParseError::MissingPathItem(1))
    );
    assert_eq!(
        parse("c/constellation.staticdata", all()).err(),
        Some(ParseError::MissingPathItem(2))
    );
    assert_eq!(
        parse("solarsystem.staticdata", all()).err(),
        Some(ParseError::MissingPathItem(1))
    );
    assert_eq!(
        parse("s/solarsystem.staticdata", all()).err(),
        Some(ParseError::MissingPathItem(2))
    );
    assert_eq!(
        parse("c/s/solarsystem.staticdata", all()).err(),
        Some(ParseError::MissingPathItem(3))
    );
    assert!(parse("r/c/s/solarsystem.staticdata", all()).is_ok());
}

#[test]
fn parse_takes_the_names_from_the_right_end_of_the_path() {
    let parsed = parse("a/b/c/d/e/f/solarsystem.staticdata", fields(Some(9), None, None, None));
    match parsed {
        Ok(Some(((9, name, MapType::SolarSystem { region, constellation }), _))) => {
            assert_eq!(name, "f");
            assert_eq!(constellation, "e");
            assert_eq!(region, "d");
        },
        _ => panic!("a solar system was expected"),
    }
    let parsed = parse("/r//region.staticdata", fields(None, None, Some(4), None));
    match parsed {
        Ok(Some(((4, name, MapType::Region), None))) => assert_eq!(name, ""),
        _ => panic!("a region was expected"),
    }
    let parsed = parse("Région/Ünïcode/constellation.staticdata", fields(None, Some(4), None, None));
    match parsed {
        Ok(Some(((4, name, MapType::Constellation { region }), None))) => {
            assert_eq!(name, "Ünïcode");
            assert_eq!(region, "Région");
        },
        _ => panic!("a constellation was expected"),
    }
}

#[test]
fn kinds_compare_by_variant() {
    assert_eq!(StelarItemType::SolarSystem, StelarItemType::SolarSystem);
    assert_ne!(StelarItemType::SolarSystem, StelarItemType::Region);
    assert!(!MapType::Region.is_solarsystem());
    assert!(!MapType::Constellation { region: "r".to_string() }.is_solarsystem());
    assert!(MapType::SolarSystem { region: "r".to_string(), constellation: "c".to_string() }
        .is_solarsystem());
}

#[test]
fn reader_wants_universe_files_only() {
    let wants = SdeZipReader::<&[u8]>::wants;
    assert!(wants("sde/fsd/universe/eve/TheForge/Kimotoro/Jita/solarsystem.staticdata", false));
    assert!(wants("sde/fsd/universe/eve/TheForge/region.staticdata", false));
    assert!(wants("sde/fsd/universe/eve.staticdata", false));
    assert!(wants("sde/fsd/universe/eve/Région/region.staticdata", false));
    // a directory is never read
    assert!(!wants("sde/fsd/universe/eve/TheForge/region.staticdata", true));
    assert!(!wants("sde/fsd/universe/eve/TheForge/", true));
    // other parts of the export
    assert!(!wants("sde/fsd/universe/wormhole/A-R00001/region.staticdata", false));
    assert!(!wants("sde/bsd/staStations.yaml", false));
    assert!(!wants("sde/fsd/universe/eve/TheForge/region.yaml", false));
    assert!(!wants("xsde/fsd/universe/eve/TheForge/region.staticdata", false));
    assert!(!wants("sde/fsd/universe/eve/TheForge/region.staticdata.bak", false));
    assert!(!wants("sde/fsd/universe/eve", false));
    assert!(!wants(".staticdata", false));
    assert!(!wants("", false));
}

#[test]
fn reader_hands_out_what_it_was_made_with() {
    let data: &[u8] = &[1, 2, 3];
    let mut reader = SdeZipReader::new(data);
    assert_eq!(*reader.reader_mut(), &[1u8, 2, 3][..]);
    *reader.reader_mut() = &data[1..];
    assert_eq!(*reader.reader_mut(), &[2u8, 3][..]);
}

#[test]
fn route_takes_the_fewest_jumps() {
    let map = EveMap::new(small_universe()).unwrap();
    let urlen = index_by_name(&map, "Urlen");
    let jita = index_by_name(&map, "Jita");
    let perimeter = index_by_name(&map, "Perimeter");
    assert_eq!(jump_route(&map, jita, urlen), Ok(vec![jita, perimeter, urlen]));
    assert_eq!(jump_route(&map, urlen, perimeter), Ok(vec![urlen, perimeter]));
    assert_eq!(jump_route(&map, jita, jita), Ok(vec![jita]));
    assert_eq!(unit_steps(&map, &perimeter), vec![(1, jita), (1, urlen)]);
}

#[test]
fn route_through_a_hub_has_two_jumps() {
    let map = star(6);
    let hub = index_by_name(&map, "Hub");
    let from = index_by_name(&map, "Spoke2");
    let to = index_by_name(&map, "Spoke5");
    assert_eq!(jump_route(&map, from, to), Ok(vec![from, hub, to]));
}

#[test]
fn route_between_unconnected_systems_is_not_found() {
    let records = vec![
        region_record("Forge", 10000002),
        constellation_record("Forge", "Kimotoro", 20000020),
        system_record("Forge", "Kimotoro", "Jita", 30000142, vec![(1, 2)]),
        system_record("Forge", "Kimotoro", "Perimeter", 30000144, vec![(2, 1)]),
        system_record("Forge", "Kimotoro", "Polaris", 30000380, vec![]),
    ];
    let map = EveMap::new(records).unwrap();
    let jita = index_by_name(&map, "Jita");
    let polaris = index_by_name(&map, "Polaris");
    assert_eq!(jump_route(&map, jita, polaris), Err(AStarError::PathNotFound));
    assert_eq!(jump_route(&map, polaris, jita), Err(AStarError::PathNotFound));
}

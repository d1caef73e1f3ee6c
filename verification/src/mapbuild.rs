//! Building the map: from the records of all items to the packed vectors
//! and lookups, stage by stage.
//!
//! The names are collected and the parents of every solar system resolved;
//! the systems are put in the order of their ids and given indices; every
//! stargate is assigned to the system that has it; and every system is given
//! the neighbours its stargates lead to. What each stage needs and yields is
//! said over the records themselves, so that the whole says which map, or
//! which error, a set of records gives.

use vstd::prelude::*;
use vstd::seq_lib::to_multiset_insert;
use std::collections::HashMap;
use crate::cell::{cell_value, new_cell, set_cell};
use crate::evemap::{
    IdNameType, MapType, Neighbours, SolarSystemEx, SolarSystemId,
    SolarSystemIndex, SolarSystemMapItem, StargateData, StellarRecord, SystemView,
    NUM_IN_PLACE_JUMPS,
};

verus! {

/// The names of all items with their ids, in the order of the records.
pub open spec fn named(records: Seq<StellarRecord>) -> Seq<(Seq<char>, u64)>
    decreases records.len(),
{
    if records.len() == 0 {
        Seq::empty()
    } else if let Some((item, _)) = records.last() {
        named(records.drop_last()).push((item.1@, item.0))
    } else {
        named(records.drop_last())
    }
}

/// The id a name stands for: that of the last item of that name.
pub open spec fn name_id(names: Seq<(Seq<char>, u64)>, name: Seq<char>) -> Option<u64>
    decreases names.len(),
{
    if names.len() == 0 {
        None
    } else if names.last().0 == name {
        Some(names.last().1)
    } else {
        name_id(names.drop_last(), name)
    }
}

/// The names as a sequence of plain values.
pub open spec fn names_view(names: Seq<(String, u64)>) -> Seq<(Seq<char>, u64)> {
    names.map_values(|e: (String, u64)| (e.0@, e.1))
}

/// Collects the name and id of every item.
pub(crate) fn collect_names(records: &Vec<StellarRecord>) -> (names: Vec<(String, u64)>)
    ensures
        names_view(names@) == named(records@),
{
    let mut names: Vec<(String, u64)> = Vec::new();
    let mut k: usize = 0;
    assert(names_view(names@) =~= named(records@.take(0)));
    while k < records.len()
        invariant
            k <= records@.len(),
            names_view(names@) == named(records@.take(k as int)),
        decreases records@.len() - k,
    {
        proof {
            assert(records@.take(k + 1).drop_last() =~= records@.take(k as int));
            assert(records@.take(k + 1).last() == records@[k as int]);
        }
        let ghost before = names@;
        match &records[k] {
            Some((item, _)) => {
                names.push((item.1.clone(), item.0));
                assert(names_view(names@) =~= names_view(before).push((item.1@, item.0)));
            },
            None => {},
        }
        k = k + 1;
    }
    assert(records@.take(records@.len() as int) =~= records@);
    names
}

/// Looks a name up among the collected ones.
pub(crate) fn find_id(names: &Vec<(String, u64)>, name: &String) -> (id: Option<u64>)
    ensures
        id == name_id(names_view(names@), name@),
{
    let mut k: usize = names.len();
    assert(names_view(names@).take(k as int) =~= names_view(names@));
    while k > 0
        invariant
            k <= names@.len(),
            name_id(names_view(names@), name@) == name_id(
                names_view(names@).take(k as int),
                name@,
            ),
        decreases k,
    {
        k = k - 1;
        proof {
            let upto = names_view(names@).take(k + 1);
            assert(upto.drop_last() =~= names_view(names@).take(k as int));
            assert(upto.last() == (names@[k as int].0@, names@[k as int].1));
        }
        if names[k].0 == *name {
            return Some(names[k].1);
        }
    }
    None
}

/// Why a map cannot be built from a set of records.
#[derive(Debug, Clone, PartialEq, Eq)]
pub enum MapError {
    /// No item bears the name of the constellation a system lies in.
    ConstellationNotFound { constellation: String, system: String },
    /// No item bears the name of the region a system lies in.
    RegionNotFound { region: String, system: String },
    /// There are more systems than indices.
    TooManySystems,
    /// Stargates are given for an id that no system has.
    UnknownSystem(SolarSystemId),
    /// A stargate leads to a stargate that no system has.
    UnresolvedStargate(u64),
    /// Stargates are given twice for one system.
    NeighboursAlreadySet(SolarSystemId),
}

/// The extended record of a solar system: its own id and name, and the ids
/// its constellation and region are known by. None for an item of another
/// kind, or where one of the two names is not known.
pub open spec fn system_row(names: Seq<(Seq<char>, u64)>, item: IdNameType) -> Option<SystemView> {
    match item.2 {
        MapType::SolarSystem { region, constellation } => match (
            name_id(names, constellation@),
            name_id(names, region@),
        ) {
            (Some(c), Some(r)) => Some(
                SystemView { id: item.0, name: item.1@, constellation_id: c, region_id: r },
            ),
            _ => None,
        },
        _ => None,
    }
}

/// Whether a record describes a solar system whose constellation or region
/// is not known by name.
pub open spec fn is_orphan(names: Seq<(Seq<char>, u64)>, record: StellarRecord) -> bool {
    record matches Some((item, _)) && item.2 is SolarSystem && system_row(names, item) is None
}

/// Whether record `k` is the first of a solar system whose constellation or
/// region is not known by name.
pub open spec fn first_orphan(
    names: Seq<(Seq<char>, u64)>,
    records: Seq<StellarRecord>,
    k: int,
) -> bool {
    &&& 0 <= k < records.len()
    &&& is_orphan(names, records[k])
    &&& forall|i: int| 0 <= i < k ==> !is_orphan(names, #[trigger] records[i])
}

/// Whether an error names what a solar system's record lacks: the
/// constellation where that is not known, else the region.
pub open spec fn names_the_orphan(
    names: Seq<(Seq<char>, u64)>,
    record: StellarRecord,
    e: MapError,
) -> bool {
    record matches Some((item, _)) && match item.2 {
        MapType::SolarSystem { region, constellation } => if name_id(names, constellation@)
            is None {
            e matches MapError::ConstellationNotFound { constellation: c, system: s } && c@
                == constellation@ && s@ == item.1@
        } else {
            e matches MapError::RegionNotFound { region: r, system: s } && r@ == region@ && s@
                == item.1@
        },
        _ => false,
    }
}

/// The extended records of the solar systems, in the order of the records.
pub open spec fn system_rows(names: Seq<(Seq<char>, u64)>, records: Seq<StellarRecord>) -> Seq<
    SystemView,
>
    decreases records.len(),
{
    if records.len() == 0 {
        Seq::empty()
    } else if let Some((item, _)) = records.last() {
        if let Some(row) = system_row(names, item) {
            system_rows(names, records.drop_last()).push(row)
        } else {
            system_rows(names, records.drop_last())
        }
    } else {
        system_rows(names, records.drop_last())
    }
}

/// The extended records as a sequence of plain values.
pub open spec fn rows_view(rows: Seq<SolarSystemEx>) -> Seq<SystemView> {
    rows.map_values(|r: SolarSystemEx| r@)
}

/// Whether the ids never decrease along the sequence.
pub open spec fn ascending(rows: Seq<SystemView>) -> bool {
    forall|i: int, j: int| 0 <= i < j < rows.len() ==> rows[i].id <= rows[j].id
}

/// Puts a row where its id belongs, behind the rows of the same id.
fn insert_row(rows: &mut Vec<SolarSystemEx>, row: SolarSystemEx)
    requires
        ascending(rows_view(old(rows)@)),
    ensures
        ascending(rows_view(final(rows)@)),
        rows_view(final(rows)@).to_multiset() == rows_view(old(rows)@).to_multiset().insert(row@),
{
    let id = row.solar_system_id.id();
    let mut at: usize = rows.len();
    while at > 0 && rows[at - 1].solar_system_id.id() > id
        invariant
            at <= rows@.len(),
            rows@ == old(rows)@,
            id == row@.id,
            forall|j: int| at <= j < rows@.len() ==> rows_view(rows@)[j].id > id,
        decreases at,
    {
        at = at - 1;
    }
    let ghost before = rows_view(rows@);
    let ghost view = row@;
    rows.insert(at, row);
    proof {
        assert(rows_view(rows@) =~= before.insert(at as int, view));
        to_multiset_insert(before, at as int, view);
        assert(at > 0 ==> before[at - 1].id <= id);
        assert forall|i: int, j: int| 0 <= i < j < rows@.len() implies rows_view(rows@)[i].id
            <= rows_view(rows@)[j].id by {
            let a = if i < at { i } else { i - 1 };
            let b = if j < at { j } else { j - 1 };
            if i != at && j != at {
                assert(before[a].id <= before[b].id);
            } else if i == at {
                assert(before[b].id > id);
            } else {
                if at > 0 {
                    assert(a <= at - 1);
                    assert(before[a].id <= before[at - 1].id);
                }
            }
        }
    }
}

/// The extended records of all solar systems, in the order of their ids.
pub(crate) fn sorted_rows(records: &Vec<StellarRecord>, names: &Vec<(String, u64)>) -> (built: Result<
    Vec<SolarSystemEx>,
    MapError,
>)
    ensures
        match built {
            Ok(rows) => {
                &&& forall|k: int|
                    0 <= k < records@.len() ==> !is_orphan(
                        names_view(names@),
                        #[trigger] records@[k],
                    )
                &&& ascending(rows_view(rows@))
                &&& rows_view(rows@).to_multiset() == system_rows(
                    names_view(names@),
                    records@,
                ).to_multiset()
            },
            Err(e) => exists|k: int| #[trigger]
                first_orphan(names_view(names@), records@, k) && names_the_orphan(
                    names_view(names@),
                    records@[k],
                    e,
                ),
        },
{
    let ghost known = names_view(names@);
    let mut rows: Vec<SolarSystemEx> = Vec::new();
    let mut k: usize = 0;
    assert(rows_view(rows@) =~= system_rows(known, records@.take(0)));
    while k < records.len()
        invariant
            k <= records@.len(),
            known == names_view(names@),
            forall|i: int| 0 <= i < k ==> !is_orphan(known, #[trigger] records@[i]),
            ascending(rows_view(rows@)),
            rows_view(rows@).to_multiset() == system_rows(
                known,
                records@.take(k as int),
            ).to_multiset(),
        decreases records@.len() - k,
    {
        proof {
            assert(records@.take(k + 1).drop_last() =~= records@.take(k as int));
            assert(records@.take(k + 1).last() == records@[k as int]);
        }
        match &records[k] {
            Some((item, _)) => {
                match &item.2 {
                    MapType::SolarSystem { region, constellation } => {
                        let constellation_id = match find_id(names, constellation) {
                            Some(id) => id,
                            None => {
                                let e = MapError::ConstellationNotFound {
                                    constellation: constellation.clone(),
                                    system: item.1.clone(),
                                };
                                assert(first_orphan(known, records@, k as int));
                                assert(names_the_orphan(known, records@[k as int], e));
                                return Err(e);
                            },
                        };
                        let region_id = match find_id(names, region) {
                            Some(id) => id,
                            None => {
                                let e = MapError::RegionNotFound {
                                    region: region.clone(),
                                    system: item.1.clone(),
                                };
                                assert(first_orphan(known, records@, k as int));
                                assert(names_the_orphan(known, records@[k as int], e));
                                return Err(e);
                            },
                        };
                        let row = SolarSystemEx {
                            name: item.1.clone(),
                            solar_system_id: SolarSystemId::new(item.0),
                            constellation_id,
                            region_id,
                        };
                        assert(system_row(known, *item) == Some(row@));
                        insert_row(&mut rows, row);
                        proof {
                            vstd::seq_lib::to_multiset_build(
                                system_rows(known, records@.take(k as int)),
                                row@,
                            );
                        }
                    },
                    _ => {},
                }
            },
            None => {},
        }
        k = k + 1;
    }
    assert(records@.take(records@.len() as int) =~= records@);
    Ok(rows)
}

/// Whether `lookup` leads from every id in `ids`, and from no other, to a
/// position of that id: the last one.
pub open spec fn indexes(lookup: Map<u64, SolarSystemIndex>, ids: Seq<u64>) -> bool {
    &&& forall|id: u64| #[trigger] lookup.contains_key(id) <==> ids.contains(id)
    &&& forall|id: u64| #[trigger]
        lookup.contains_key(id) ==> {
            &&& lookup[id].offset() < ids.len()
            &&& ids[lookup[id].offset() as int] == id
            &&& forall|j: int| lookup[id].offset() < j < ids.len() ==> ids[j] != id
        }
}

/// The ids of the rows, in their order.
pub open spec fn row_ids(rows: Seq<SolarSystemEx>) -> Seq<u64> {
    rows.map_values(|r: SolarSystemEx| r.solar_system_id.number())
}

/// Gives every row its index: the compact items in the order of the rows,
/// without neighbours yet, and the lookup from id to index.
pub(crate) fn index_systems(rows: &Vec<SolarSystemEx>) -> (built: Result<
    (Vec<SolarSystemMapItem>, HashMap<u64, SolarSystemIndex>),
    MapError,
>)
    ensures
        match built {
            Ok((systems, lookup)) => {
                &&& rows@.len() <= 0x1_0000
                &&& systems@.len() == rows@.len()
                &&& forall|i: int|
                    0 <= i < systems@.len() ==> (#[trigger] systems@[i]).solar_system_id
                        == rows@[i].solar_system_id && cell_value(systems@[i].neighbours) is None
                &&& indexes(lookup@, row_ids(rows@))
            },
            Err(e) => e == MapError::TooManySystems && rows@.len() > 0x1_0000,
        },
{
    broadcast use vstd::std_specs::hash::group_hash_axioms;

    if rows.len() > 0x1_0000 {
        return Err(MapError::TooManySystems);
    }
    let mut systems: Vec<SolarSystemMapItem> = Vec::new();
    let mut lookup: HashMap<u64, SolarSystemIndex> = HashMap::new();
    let mut i: usize = 0;
    let ghost ids = row_ids(rows@);
    assert(ids.take(0) =~= Seq::<u64>::empty());
    while i < rows.len()
        invariant
            i <= rows@.len() <= 0x1_0000,
            ids == row_ids(rows@),
            systems@.len() == i,
            forall|j: int|
                0 <= j < i ==> (#[trigger] systems@[j]).solar_system_id == rows@[j].solar_system_id
                    && cell_value(systems@[j].neighbours) is None,
            indexes(lookup@, ids.take(i as int)),
        decreases rows@.len() - i,
    {
        let id = rows[i].solar_system_id;
        let index = SolarSystemIndex::from_position(i);
        let ghost earlier = lookup@;
        systems.push(SolarSystemMapItem { solar_system_id: id, neighbours: new_cell() });
        lookup.insert(id.id(), index);
        proof {
            let now = ids.take(i + 1);
            let then = ids.take(i as int);
            assert(now =~= then.push(id.number()));
            assert forall|x: u64| #[trigger] lookup@.contains_key(x) <==> now.contains(x) by {
                if x != id.number() {
                    assert(earlier.contains_key(x) <==> then.contains(x));
                    if then.contains(x) {
                        let j = choose|j: int| 0 <= j < then.len() && then[j] == x;
                        assert(now[j] == x);
                    }
                    if now.contains(x) {
                        let j = choose|j: int| 0 <= j < now.len() && now[j] == x;
                        assert(then[j] == x);
                    }
                } else {
                    assert(now[i as int] == x);
                }
            }
            assert forall|x: u64| #[trigger] lookup@.contains_key(x) implies {
                &&& lookup@[x].offset() < now.len()
                &&& now[lookup@[x].offset() as int] == x
                &&& forall|j: int| lookup@[x].offset() < j < now.len() ==> now[j] != x
            } by {
                if x != id.number() {
                    assert(earlier.contains_key(x));
                    assert(lookup@[x] == earlier[x]);
                    assert(then[earlier[x].offset() as int] == x);
                }
            }
        }
        i = i + 1;
    }
    assert(ids.take(rows@.len() as int) =~= ids);
    Ok((systems, lookup))
}

/// The stargates a record gives, with the id of their system.
pub open spec fn stargates_of(record: StellarRecord) -> Option<(SolarSystemId, Seq<StargateData>)> {
    match record {
        Some((_, Some((ssid, gates)))) => Some((ssid, gates@)),
        _ => None,
    }
}

/// Whether a record gives stargates for an id that no system has.
pub open spec fn is_stray(lookup: Map<u64, SolarSystemIndex>, record: StellarRecord) -> bool {
    stargates_of(record) matches Some((ssid, _)) && !lookup.contains_key(ssid.number())
}

/// Whether record `k` is the first to give stargates for an id that no
/// system has.
pub open spec fn first_stray(
    lookup: Map<u64, SolarSystemIndex>,
    records: Seq<StellarRecord>,
    k: int,
) -> bool {
    &&& 0 <= k < records.len()
    &&& is_stray(lookup, records[k])
    &&& forall|i: int| 0 <= i < k ==> !is_stray(lookup, #[trigger] records[i])
}

/// `owners`, with every one of `gates` entered under its id as belonging to
/// `owner`, a later entry replacing an earlier one.
pub open spec fn with_gates(
    owners: Map<u64, SolarSystemIndex>,
    gates: Seq<StargateData>,
    owner: SolarSystemIndex,
) -> Map<u64, SolarSystemIndex>
    decreases gates.len(),
{
    if gates.len() == 0 {
        owners
    } else {
        with_gates(owners, gates.drop_last(), owner).insert(gates.last().stargate_id, owner)
    }
}

/// The system each stargate belongs to: the stargates of all records,
/// entered in the order of the records.
pub open spec fn gate_owners(
    records: Seq<StellarRecord>,
    lookup: Map<u64, SolarSystemIndex>,
) -> Map<u64, SolarSystemIndex>
    decreases records.len(),
{
    if records.len() == 0 {
        Map::empty()
    } else if let Some((ssid, gates)) = stargates_of(records.last()) {
        with_gates(gate_owners(records.drop_last(), lookup), gates, lookup[ssid.number()])
    } else {
        gate_owners(records.drop_last(), lookup)
    }
}

/// Finds for every stargate the index of the system it belongs to.
pub(crate) fn index_gates(
    records: &Vec<StellarRecord>,
    lookup: &HashMap<u64, SolarSystemIndex>,
    Ghost(count): Ghost<nat>,
) -> (built: Result<HashMap<u64, SolarSystemIndex>, MapError>)
    requires
        forall|id: u64| #[trigger] lookup@.contains_key(id) ==> lookup@[id].offset() < count,
    ensures
        match built {
            Ok(owners) => {
                &&& forall|k: int|
                    0 <= k < records@.len() ==> !is_stray(lookup@, #[trigger] records@[k])
                &&& owners@ == gate_owners(records@, lookup@)
                &&& forall|g: u64| #[trigger]
                    owners@.contains_key(g) ==> owners@[g].offset() < count
            },
            Err(e) => exists|k: int| #[trigger]
                first_stray(lookup@, records@, k) && e == MapError::UnknownSystem(
                    stargates_of(records@[k]).unwrap().0,
                ),
        },
{
    broadcast use vstd::std_specs::hash::group_hash_axioms;

    let mut owners: HashMap<u64, SolarSystemIndex> = HashMap::new();
    let mut k: usize = 0;
    assert(owners@ =~= gate_owners(records@.take(0), lookup@));
    while k < records.len()
        invariant
            k <= records@.len(),
            forall|id: u64| #[trigger] lookup@.contains_key(id) ==> lookup@[id].offset() < count,
            forall|i: int| 0 <= i < k ==> !is_stray(lookup@, #[trigger] records@[i]),
            owners@ == gate_owners(records@.take(k as int), lookup@),
            forall|g: u64| #[trigger] owners@.contains_key(g) ==> owners@[g].offset() < count,
        decreases records@.len() - k,
    {
        proof {
            assert(records@.take(k + 1).drop_last() =~= records@.take(k as int));
            assert(records@.take(k + 1).last() == records@[k as int]);
        }
        match &records[k] {
            Some((_, Some((ssid, gates)))) => {
                let owner = match lookup.get(&ssid.id()) {
                    Some(index) => *index,
                    None => {
                        assert(stargates_of(records@[k as int]) == Some((*ssid, gates@)));
                        assert(first_stray(lookup@, records@, k as int));
                        return Err(MapError::UnknownSystem(*ssid));
                    },
                };
                let ghost earlier = owners@;
                let mut j: usize = 0;
                assert(gates@.take(0) =~= Seq::<StargateData>::empty());
                while j < gates.len()
                    invariant
                        j <= gates@.len(),
                        owner.offset() < count,
                        owners@ == with_gates(earlier, gates@.take(j as int), owner),
                        forall|g: u64| #[trigger]
                            owners@.contains_key(g) ==> owners@[g].offset() < count,
                    decreases gates@.len() - j,
                {
                    proof {
                        assert(gates@.take(j + 1).drop_last() =~= gates@.take(j as int));
                        assert(gates@.take(j + 1).last() == gates@[j as int]);
                    }
                    owners.insert(gates[j].stargate_id, owner);
                    j = j + 1;
                }
                assert(gates@.take(gates@.len() as int) =~= gates@);
            },
            _ => {},
        }
        k = k + 1;
    }
    assert(records@.take(records@.len() as int) =~= records@);
    Ok(owners)
}

/// The systems a list of stargates leads to, one per stargate.
pub open spec fn jumps_of(gates: Seq<StargateData>, owners: Map<u64, SolarSystemIndex>) -> Seq<
    SolarSystemIndex,
> {
    gates.map_values(|g: StargateData| owners[g.destination_stargate_id])
}

/// The stargates record `k` gives; none where it gives none.
pub open spec fn gates_at(records: Seq<StellarRecord>, k: int) -> Seq<StargateData> {
    match stargates_of(records[k]) {
        Some((_, gates)) => gates,
        None => Seq::empty(),
    }
}

/// Whether `g` is the id of a stargate of the records.
pub open spec fn is_gate(records: Seq<StellarRecord>, g: u64) -> bool {
    exists|k: int, j: int|
        0 <= k < records.len() && 0 <= j < gates_at(records, k).len() && (#[trigger] gates_at(
            records,
            k,
        )[j]).stargate_id == g
}

/// Entering stargates adds exactly their ids.
pub proof fn lemma_with_gates_dom(
    owners: Map<u64, SolarSystemIndex>,
    gates: Seq<StargateData>,
    owner: SolarSystemIndex,
    g: u64,
)
    ensures
        with_gates(owners, gates, owner).contains_key(g) <==> owners.contains_key(g) || exists|
            j: int,
        | 0 <= j < gates.len() && (#[trigger] gates[j]).stargate_id == g,
    decreases gates.len(),
{
    if gates.len() > 0 {
        lemma_with_gates_dom(owners, gates.drop_last(), owner, g);
        let shorter = gates.drop_last();
        if exists|j: int| 0 <= j < shorter.len() && (#[trigger] shorter[j]).stargate_id == g {
            let j = choose|j: int| 0 <= j < shorter.len() && (#[trigger] shorter[j]).stargate_id == g;
            assert(gates[j].stargate_id == g);
        }
        if exists|j: int| 0 <= j < gates.len() && (#[trigger] gates[j]).stargate_id == g {
            let j = choose|j: int| 0 <= j < gates.len() && (#[trigger] gates[j]).stargate_id == g;
            if j < shorter.len() {
                assert(shorter[j].stargate_id == g);
            }
        }
    }
}

/// The stargates that have an owner are exactly those of the records.
pub proof fn lemma_gate_owners_dom(
    records: Seq<StellarRecord>,
    lookup: Map<u64, SolarSystemIndex>,
    g: u64,
)
    ensures
        gate_owners(records, lookup).contains_key(g) <==> is_gate(records, g),
    decreases records.len(),
{
    if records.len() > 0 {
        let shorter = records.drop_last();
        let last = records.len() - 1;
        lemma_gate_owners_dom(shorter, lookup, g);
        if is_gate(shorter, g) {
            let (k, j) = choose|k: int, j: int|
                0 <= k < shorter.len() && 0 <= j < gates_at(shorter, k).len() && (
                #[trigger] gates_at(shorter, k)[j]).stargate_id == g;
            assert(records[k] == shorter[k]);
            assert(gates_at(records, k)[j].stargate_id == g);
        }
        if let Some((ssid, gates)) = stargates_of(records.last()) {
            lemma_with_gates_dom(gate_owners(shorter, lookup), gates, lookup[ssid.number()], g);
            if exists|j: int| 0 <= j < gates.len() && (#[trigger] gates[j]).stargate_id == g {
                let j = choose|j: int| 0 <= j < gates.len() && (#[trigger] gates[j]).stargate_id == g;
                assert(gates_at(records, last)[j].stargate_id == g);
            }
        }
        if is_gate(records, g) {
            let (k, j) = choose|k: int, j: int|
                0 <= k < records.len() && 0 <= j < gates_at(records, k).len() && (
                #[trigger] gates_at(records, k)[j]).stargate_id == g;
            if k < shorter.len() {
                assert(shorter[k] == records[k]);
                assert(gates_at(shorter, k)[j].stargate_id == g);
            } else {
                let given = stargates_of(records.last()).unwrap();
                assert(given.1[j].stargate_id == g);
            }
        }
    }
}

/// Whether stargate `j` of record `k` leads to a stargate that no record
/// gives.
pub open spec fn leads_nowhere(records: Seq<StellarRecord>, k: int, j: int) -> bool {
    0 <= j < gates_at(records, k).len() && !is_gate(
        records,
        gates_at(records, k)[j].destination_stargate_id,
    )
}

/// Whether record `k` has a stargate that leads nowhere.
pub open spec fn is_broken(records: Seq<StellarRecord>, k: int) -> bool {
    exists|j: int| #[trigger] leads_nowhere(records, k, j)
}

/// Whether record `k` gives stargates for a system that an earlier record
/// gave stargates for.
pub open spec fn is_repeat(records: Seq<StellarRecord>, k: int) -> bool {
    stargates_of(records[k]) matches Some((ssid, _)) && exists|e: int|
        0 <= e < k && (stargates_of(#[trigger] records[e]) matches Some((other, _)) && other
            == ssid)
}

/// Whether an error says why the stargates of record `k` cannot be set: the
/// first of them to lead nowhere, or else that the system was given
/// stargates before.
pub open spec fn fails_linking(records: Seq<StellarRecord>, k: int, e: MapError) -> bool {
    match e {
        MapError::UnresolvedStargate(g) => exists|j: int|
            {
                &&& #[trigger] leads_nowhere(records, k, j)
                &&& gates_at(records, k)[j].destination_stargate_id == g
                &&& forall|i: int| 0 <= i < j ==> !#[trigger] leads_nowhere(records, k, i)
            },
        MapError::NeighboursAlreadySet(id) => {
            &&& !is_broken(records, k)
            &&& is_repeat(records, k)
            &&& stargates_of(records[k]) matches Some((ssid, _)) && ssid == id
        },
        _ => false,
    }
}

/// The systems a list of stargates leads to; or the first stargate that
/// leads to a stargate without owner.
fn resolve_jumps(gates: &Vec<StargateData>, owners: &HashMap<u64, SolarSystemIndex>) -> (found:
    Result<Vec<SolarSystemIndex>, u64>)
    ensures
        match found {
            Ok(list) => {
                &&& forall|j: int|
                    0 <= j < gates@.len() ==> owners@.contains_key(
                        (#[trigger] gates@[j]).destination_stargate_id,
                    )
                &&& list@ == jumps_of(gates@, owners@)
            },
            Err(g) => exists|j: int|
                {
                    &&& 0 <= j < gates@.len()
                    &&& (#[trigger] gates@[j]).destination_stargate_id == g
                    &&& !owners@.contains_key(g)
                    &&& forall|i: int|
                        0 <= i < j ==> owners@.contains_key(
                            (#[trigger] gates@[i]).destination_stargate_id,
                        )
                },
        },
{
    broadcast use vstd::std_specs::hash::group_hash_axioms;

    let mut list: Vec<SolarSystemIndex> = Vec::new();
    let mut j: usize = 0;
    while j < gates.len()
        invariant
            j <= gates@.len(),
            forall|i: int|
                0 <= i < j ==> owners@.contains_key((#[trigger] gates@[i]).destination_stargate_id),
            list@ == jumps_of(gates@, owners@).take(j as int),
        decreases gates@.len() - j,
    {
        let destination = gates[j].destination_stargate_id;
        match owners.get(&destination) {
            Some(index) => {
                list.push(*index);
                assert(list@ =~= jumps_of(gates@, owners@).take(j + 1));
            },
            None => {
                return Err(destination);
            },
        }
        j = j + 1;
    }
    assert(list@ =~= jumps_of(gates@, owners@));
    Ok(list)
}

/// A stargate has an owner exactly where it does not lead nowhere.
proof fn lemma_owned_or_nowhere(
    records: Seq<StellarRecord>,
    lookup: Map<u64, SolarSystemIndex>,
    k: int,
    j: int,
)
    requires
        0 <= j < gates_at(records, k).len(),
    ensures
        gate_owners(records, lookup).contains_key(
            gates_at(records, k)[j].destination_stargate_id,
        ) <==> !leads_nowhere(records, k, j),
{
    lemma_gate_owners_dom(records, lookup, gates_at(records, k)[j].destination_stargate_id);
}

/// Whether the compact items hold what the records give: a system has the
/// jumps of its record, in place and from the front of the array where they
/// are three at most; a system
/// without record has none set; and every jump leads to a system of the map.
pub open spec fn linked(
    systems: Seq<SolarSystemMapItem>,
    records: Seq<StellarRecord>,
    lookup: Map<u64, SolarSystemIndex>,
    owners: Map<u64, SolarSystemIndex>,
) -> bool {
    &&& forall|k: int|
        0 <= k < records.len() ==> (stargates_of(#[trigger] records[k]) matches Some((ssid, gates))
            ==> (cell_value(systems[lookup[ssid.number()].offset() as int].neighbours) matches Some(
            n,
        ) && n@ == jumps_of(gates, owners) && (n is InPlace <==> gates.len()
            <= NUM_IN_PLACE_JUMPS) && n.filled_from_front()))
    &&& forall|i: int|
        0 <= i < systems.len() && (forall|k: int|
            0 <= k < records.len() ==> !(stargates_of(#[trigger] records[k]) matches Some(
                (ssid, _),
            ) && lookup[ssid.number()].offset() == i)) ==> cell_value(
            (#[trigger] systems[i]).neighbours,
        ) is None
    &&& in_bounds(systems)
}

/// Whether every jump leads to a system of the sequence.
pub open spec fn in_bounds(systems: Seq<SolarSystemMapItem>) -> bool {
    forall|i: int, j: int|
        0 <= i < systems.len() && 0 <= j < systems[i].jumps().len() ==> (#[trigger] systems[i].jumps()[j]).offset()
            < systems.len()
}

/// Gives every system the neighbours its stargates lead to.
pub(crate) fn link(
    records: &Vec<StellarRecord>,
    lookup: &HashMap<u64, SolarSystemIndex>,
    owners: &HashMap<u64, SolarSystemIndex>,
    systems: &mut Vec<SolarSystemMapItem>,
    Ghost(ids): Ghost<Seq<u64>>,
) -> (done: Result<(), MapError>)
    requires
        indexes(lookup@, ids),
        owners@ == gate_owners(records@, lookup@),
        forall|k: int| 0 <= k < records@.len() ==> !is_stray(lookup@, #[trigger] records@[k]),
        old(systems)@.len() == ids.len(),
        forall|i: int|
            0 <= i < ids.len() ==> (#[trigger] old(systems)@[i]).solar_system_id.number() == ids[i]
                && cell_value(old(systems)@[i].neighbours) is None,
        forall|g: u64| #[trigger] owners@.contains_key(g) ==> owners@[g].offset() < ids.len(),
    ensures
        final(systems)@.len() == ids.len(),
        forall|i: int|
            0 <= i < ids.len() ==> (#[trigger] final(systems)@[i]).solar_system_id.number()
                == ids[i],
        match done {
            Ok(_) => {
                &&& forall|k: int| 0 <= k < records@.len() ==> !#[trigger] is_broken(records@, k)
                &&& forall|k: int| 0 <= k < records@.len() ==> !#[trigger] is_repeat(records@, k)
                &&& linked(final(systems)@, records@, lookup@, owners@)
            },
            Err(e) => exists|k: int|
                {
                    &&& 0 <= k < records@.len()
                    &&& #[trigger] fails_linking(records@, k, e)
                    &&& forall|i: int|
                        0 <= i < k ==> !#[trigger] is_broken(records@, i) && !is_repeat(
                            records@,
                            i,
                        )
                },
        },
{
    broadcast use vstd::std_specs::hash::group_hash_axioms;

    let mut k: usize = 0;
    while k < records.len()
        invariant
            k <= records@.len(),
            indexes(lookup@, ids),
            owners@ == gate_owners(records@, lookup@),
            forall|i: int| 0 <= i < records@.len() ==> !is_stray(lookup@, #[trigger] records@[i]),
            forall|g: u64| #[trigger] owners@.contains_key(g) ==> owners@[g].offset() < ids.len(),
            systems@.len() == ids.len(),
            forall|i: int|
                0 <= i < ids.len() ==> (#[trigger] systems@[i]).solar_system_id.number() == ids[i],
            forall|i: int| 0 <= i < k ==> !#[trigger] is_broken(records@, i),
            forall|i: int| 0 <= i < k ==> !#[trigger] is_repeat(records@, i),
            linked(systems@, records@.take(k as int), lookup@, owners@),
        decreases records@.len() - k,
    {
        let ghost seen = records@.take(k as int);
        let ghost held = systems@;
        match &records[k] {
            Some((_, Some((ssid, gates)))) => {
                assert(!is_stray(lookup@, records@[k as int]));
                assert(stargates_of(records@[k as int]) == Some((*ssid, gates@)));
                assert(gates_at(records@, k as int) == gates@);
                let index = match lookup.get(&ssid.id()) {
                    Some(index) => *index,
                    None => {
                        return Err(MapError::UnknownSystem(*ssid));
                    },
                };
                let list = match resolve_jumps(gates, owners) {
                    Ok(list) => list,
                    Err(g) => {
                        proof {
                            let j = choose|j: int|
                                {
                                    &&& 0 <= j < gates@.len()
                                    &&& (#[trigger] gates@[j]).destination_stargate_id == g
                                    &&& !owners@.contains_key(g)
                                    &&& forall|i: int|
                                        0 <= i < j ==> owners@.contains_key(
                                            (#[trigger] gates@[i]).destination_stargate_id,
                                        )
                                };
                            lemma_owned_or_nowhere(records@, lookup@, k as int, j);
                            assert forall|i: int| 0 <= i < j implies !#[trigger] leads_nowhere(
                                records@,
                                k as int,
                                i,
                            ) by {
                                assert(owners@.contains_key(gates@[i].destination_stargate_id));
                                lemma_owned_or_nowhere(records@, lookup@, k as int, i);
                            }
                            assert(leads_nowhere(records@, k as int, j));
                            assert(fails_linking(
                                records@,
                                k as int,
                                MapError::UnresolvedStargate(g),
                            ));
                        }
                        return Err(MapError::UnresolvedStargate(g));
                    },
                };
                proof {
                    assert(!is_broken(records@, k as int)) by {
                        if is_broken(records@, k as int) {
                            let j = choose|j: int| #[trigger] leads_nowhere(records@, k as int, j);
                            assert(owners@.contains_key(gates@[j].destination_stargate_id));
                            lemma_owned_or_nowhere(records@, lookup@, k as int, j);
                        }
                    }
                }
                let neighbours = Neighbours::from_iter(list);
                let at = index.position();
                let ghost jumps = neighbours@;
                let set = set_cell(&mut systems[at].neighbours, neighbours);
                if set.is_err() {
                    proof {
                        assert(cell_value(held[at as int].neighbours) is Some);
                        let e = choose|e: int|
                            0 <= e < seen.len() && (stargates_of(#[trigger] seen[e]) matches Some(
                                (other, _),
                            ) && lookup@[other.number()].offset() == at);
                        assert(seen[e] == records@[e]);
                        let pair = stargates_of(records@[e]).unwrap();
                        let other = pair.0;
                        assert(!is_stray(lookup@, records@[e]));
                        assert(ids[lookup@[other.number()].offset() as int] == other.number());
                        assert(ids[lookup@[ssid.number()].offset() as int] == ssid.number());
                        SolarSystemId::number_is_injective(other, *ssid);
                        assert(is_repeat(records@, k as int));
                        assert(fails_linking(
                            records@,
                            k as int,
                            MapError::NeighboursAlreadySet(*ssid),
                        ));
                    }
                    return Err(MapError::NeighboursAlreadySet(*ssid));
                }
                proof {
                    let now = records@.take(k + 1);
                    assert(now.drop_last() =~= seen);
                    assert(now.last() == records@[k as int]);
                    assert forall|i: int|
                        0 <= i < systems@.len() && i != at implies systems@[i] == held[i] by {}
                    assert(!is_repeat(records@, k as int)) by {
                        if is_repeat(records@, k as int) {
                            let e = choose|e: int|
                                0 <= e < k && (stargates_of(
                                    #[trigger] records@[e],
                                ) matches Some((other, _)) && other == *ssid);
                            assert(seen[e] == records@[e]);
                        }
                    }
                    assert forall|e: int| 0 <= e < now.len() implies (stargates_of(
                        #[trigger] now[e],
                    ) matches Some((id, gs)) ==> (cell_value(
                        systems@[lookup@[id.number()].offset() as int].neighbours,
                    ) matches Some(n) && n@ == jumps_of(gs, owners@) && (n is InPlace
                        <==> gs.len() <= NUM_IN_PLACE_JUMPS) && n.filled_from_front())) by {
                        if e < k {
                            assert(seen[e] == now[e]);
                            if let Some((id, gs)) = stargates_of(now[e]) {
                                assert(cell_value(
                                    held[lookup@[id.number()].offset() as int].neighbours,
                                ) is Some);
                            }
                        }
                    }
                    assert forall|i: int|
                        0 <= i < systems@.len() && (forall|e: int|
                            0 <= e < now.len() ==> !(stargates_of(#[trigger] now[e]) matches Some(
                                (id, _),
                            ) && lookup@[id.number()].offset() == i)) implies cell_value(
                        (#[trigger] systems@[i]).neighbours,
                    ) is None by {
                        assert(stargates_of(now[k as int]) is Some);
                        assert(i != at);
                        assert forall|e: int| 0 <= e < seen.len() implies !(stargates_of(
                            #[trigger] seen[e],
                        ) matches Some((id, _)) && lookup@[id.number()].offset() == i) by {
                            assert(seen[e] == now[e]);
                        }
                        assert(cell_value(held[i].neighbours) is None);
                    }
                    assert forall|i: int, j: int|
                        0 <= i < systems@.len() && 0 <= j < systems@[i].jumps().len() implies (
                    #[trigger] systems@[i].jumps()[j]).offset() < systems@.len() by {
                        if i == at {
                            assert(systems@[i].jumps() == jumps);
                            assert(owners@.contains_key(gates@[j].destination_stargate_id));
                        } else {
                            assert(held[i].jumps()[j].offset() < held.len());
                        }
                    }
                }
            },
            _ => {
                proof {
                    let now = records@.take(k + 1);
                    assert(now.drop_last() =~= seen);
                    assert(now.last() == records@[k as int]);
                    assert(stargates_of(records@[k as int]) is None);
                    assert(!is_broken(records@, k as int));
                    assert(!is_repeat(records@, k as int));
                    assert forall|e: int| 0 <= e < now.len() implies (stargates_of(
                        #[trigger] now[e],
                    ) matches Some((id, gs)) ==> (cell_value(
                        systems@[lookup@[id.number()].offset() as int].neighbours,
                    ) matches Some(n) && n@ == jumps_of(gs, owners@) && (n is InPlace
                        <==> gs.len() <= NUM_IN_PLACE_JUMPS) && n.filled_from_front())) by {
                        if e < k {
                            assert(seen[e] == now[e]);
                        }
                    }
                    assert forall|i: int|
                        0 <= i < systems@.len() && (forall|e: int|
                            0 <= e < now.len() ==> !(stargates_of(#[trigger] now[e]) matches Some(
                                (id, _),
                            ) && lookup@[id.number()].offset() == i)) implies cell_value(
                        (#[trigger] systems@[i]).neighbours,
                    ) is None by {
                        assert forall|e: int| 0 <= e < seen.len() implies !(stargates_of(
                            #[trigger] seen[e],
                        ) matches Some((id, _)) && lookup@[id.number()].offset() == i) by {
                            assert(seen[e] == now[e]);
                        }
                    }
                }
            },
        }
        k = k + 1;
    }
    assert(records@.take(records@.len() as int) =~= records@);
    Ok(())
}

/// Two sequences of records with the same members hold the same ids.
pub proof fn lemma_same_ids(a: Seq<SystemView>, b: Seq<SystemView>, id: u64)
    requires
        a.to_multiset() == b.to_multiset(),
        ids_of(a).contains(id),
    ensures
        ids_of(b).contains(id),
{
    let at = choose|at: int| 0 <= at < ids_of(a).len() && ids_of(a)[at] == id;
    vstd::seq_lib::to_multiset_contains(a, a[at]);
    vstd::seq_lib::to_multiset_contains(b, a[at]);
    assert(a.contains(a[at]));
    let here = choose|here: int| 0 <= here < b.len() && b[here] == a[at];
    assert(ids_of(b)[here] == id);
}

/// Whether a record gives stargates for an id that is none of `ids`.
pub open spec fn is_homeless(ids: Seq<u64>, record: StellarRecord) -> bool {
    stargates_of(record) matches Some((ssid, _)) && !ids.contains(ssid.number())
}

/// The ids of the solar systems that the records describe, in the order of
/// the records.
pub open spec fn system_ids(records: Seq<StellarRecord>) -> Seq<u64> {
    ids_of(system_rows(named(records), records))
}

/// Whether a map can be built from the records: every solar system has a
/// known constellation and region, there are no more systems than indices,
/// stargates are given for systems only and once per system, and every
/// stargate leads to a stargate that some record gives.
pub open spec fn buildable(records: Seq<StellarRecord>) -> bool {
    &&& forall|k: int| 0 <= k < records.len() ==> !is_orphan(named(records), #[trigger] records[k])
    &&& system_ids(records).len() <= 0x1_0000
    &&& forall|k: int|
        0 <= k < records.len() ==> !is_homeless(system_ids(records), #[trigger] records[k])
    &&& forall|k: int| 0 <= k < records.len() ==> !#[trigger] is_broken(records, k)
    &&& forall|k: int| 0 <= k < records.len() ==> !#[trigger] is_repeat(records, k)
}

/// Whether an error is the one that building the map from the records ends
/// in. The names are resolved first, in the order of the records; then the
/// systems are counted; then the stargates are assigned to systems; and last
/// the neighbours are set, record by record. The first failure is the error.
pub open spec fn building_fails(records: Seq<StellarRecord>, e: MapError) -> bool {
    let names = named(records);
    let ids = system_ids(records);
    match e {
        MapError::ConstellationNotFound { .. } | MapError::RegionNotFound { .. } => exists|
            k: int,
        | #[trigger] first_orphan(names, records, k) && names_the_orphan(names, records[k], e),
        MapError::TooManySystems => {
            &&& forall|k: int| 0 <= k < records.len() ==> !is_orphan(names, #[trigger] records[k])
            &&& ids.len() > 0x1_0000
        },
        MapError::UnknownSystem(id) => {
            &&& forall|k: int| 0 <= k < records.len() ==> !is_orphan(names, #[trigger] records[k])
            &&& ids.len() <= 0x1_0000
            &&& exists|k: int|
                {
                    &&& 0 <= k < records.len()
                    &&& is_homeless(ids, #[trigger] records[k])
                    &&& stargates_of(records[k]).unwrap().0 == id
                    &&& forall|i: int| 0 <= i < k ==> !is_homeless(ids, #[trigger] records[i])
                }
        },
        MapError::UnresolvedStargate(_) | MapError::NeighboursAlreadySet(_) => {
            &&& forall|k: int| 0 <= k < records.len() ==> !is_orphan(names, #[trigger] records[k])
            &&& ids.len() <= 0x1_0000
            &&& forall|k: int| 0 <= k < records.len() ==> !is_homeless(ids, #[trigger] records[k])
            &&& exists|k: int|
                {
                    &&& 0 <= k < records.len()
                    &&& #[trigger] fails_linking(records, k, e)
                    &&& forall|i: int|
                        0 <= i < k ==> !#[trigger] is_broken(records, i) && !is_repeat(records, i)
                }
        },
    }
}

/// The ids of a sequence of extended records.
pub open spec fn ids_of(rows: Seq<SystemView>) -> Seq<u64> {
    rows.map_values(|r: SystemView| r.id)
}

} // verus!

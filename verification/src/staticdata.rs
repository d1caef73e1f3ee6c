//! Reading one item of the static data: what a file's path and decoded
//! fields say about a region, a constellation or a solar system.
//!
//! The path gives membership: a file lies in the directory of its item,
//! which lies in that of the item it belongs to, and the directory names are
//! the names of the items.

use vstd::prelude::*;
use vstd::string::StrSliceExecFns;
use crate::evemap::{
    IdNameType, MapType, SolarSystemId, StargateData, StelarItemType, StellarRecord,
};

verus! {

/// The position of the last `c` in `s`.
pub open spec fn last_index_of(s: Seq<char>, c: char) -> Option<int>
    decreases s.len(),
{
    if s.len() == 0 {
        None
    } else if s.last() == c {
        Some(s.len() - 1)
    } else {
        last_index_of(s.drop_last(), c)
    }
}

/// The part of a path between two slashes, counted from the right: part 0
/// is the file name, part 1 the directory the file lies in, and so on.
pub open spec fn segment(path: Seq<char>, i: nat) -> Option<Seq<char>>
    decreases i,
{
    match last_index_of(path, '/') {
        Some(at) => if i == 0 {
            Some(path.skip(at + 1))
        } else {
            segment(path.take(at), (i - 1) as nat)
        },
        None => if i == 0 {
            Some(path)
        } else {
            None
        },
    }
}

/// Finds the last `c` in `s`.
fn find_last(s: &str, c: char) -> (found: Option<usize>)
    ensures
        match found {
            Some(at) => last_index_of(s@, c) == Some(at as int) && at < s@.len(),
            None => last_index_of(s@, c) is None,
        },
{
    let mut k: usize = s.unicode_len();
    assert(s@.take(k as int) =~= s@);
    while k > 0
        invariant
            k <= s@.len(),
            last_index_of(s@, c) == last_index_of(s@.take(k as int), c),
        decreases k,
    {
        k = k - 1;
        proof {
            let upto = s@.take(k + 1);
            assert(upto.drop_last() =~= s@.take(k as int));
            assert(upto.last() == s@[k as int]);
        }
        if s.get_char(k) == c {
            return Some(k);
        }
    }
    None
}

/// Part `i` of a path, counted from the right.
fn segment_of(path: &str, i: usize) -> (part: Option<String>)
    ensures
        match part {
            Some(text) => segment(path@, i as nat) == Some(text@),
            None => segment(path@, i as nat) is None,
        },
{
    let mut rest: &str = path;
    let mut left: usize = i;
    loop
        invariant
            segment(path@, i as nat) == segment(rest@, left as nat),
        decreases left,
    {
        let length = rest.unicode_len();
        match find_last(rest, '/') {
            Some(at) => {
                if left == 0 {
                    return Some(rest.substring_char(at + 1, length).to_owned());
                }
                rest = rest.substring_char(0, at);
                left = left - 1;
            },
            None => {
                if left == 0 {
                    return Some(rest.to_owned());
                }
                return None;
            },
        }
    }
}

/// Whether two texts are the same.
fn same_text(a: &str, b: &str) -> (same: bool)
    ensures
        same == (a@ == b@),
{
    a.to_owned() == b.to_owned()
}

/// The fields of interest from all the different files, each present or
/// not as the file has it; stargates as pairs of their id and the id of the
/// stargate they lead to.
pub struct UnionSystemData {
    pub solar_system_id: Option<u64>,
    pub constellation_id: Option<u64>,
    pub region_id: Option<u64>,
    pub stargates: Option<Vec<(u64, u64)>>,
}

/// Why a file does not describe its item.
#[derive(Debug, Clone, Copy, PartialEq, Eq)]
pub enum ParseError {
    /// A solar system's file lacks the id of the solar system.
    MissingSolarSystemId,
    /// A constellation's file lacks the id of the constellation.
    MissingConstellationId,
    /// A region's file lacks the id of the region.
    MissingRegionId,
    /// The path is too short to have this part, counted from the right.
    MissingPathItem(usize),
}

/// The kind of item a path stands for, by its file name.
pub open spec fn kind_of(path: Seq<char>) -> Option<StelarItemType> {
    let file = segment(path, 0).unwrap();
    if file == "solarsystem.staticdata"@ {
        Some(StelarItemType::SolarSystem)
    } else if file == "constellation.staticdata"@ {
        Some(StelarItemType::Constellation)
    } else if file == "region.staticdata"@ {
        Some(StelarItemType::Region)
    } else {
        None
    }
}

/// The field that holds the id of an item of a kind.
pub open spec fn id_field(kind: StelarItemType, data: UnionSystemData) -> Option<u64> {
    match kind {
        StelarItemType::SolarSystem => data.solar_system_id,
        StelarItemType::Constellation => data.constellation_id,
        StelarItemType::Region => data.region_id,
    }
}

/// How many parts of the path an item of a kind needs besides the file
/// name: its own name, and the names of what it belongs to.
pub open spec fn parts_needed(kind: StelarItemType) -> nat {
    match kind {
        StelarItemType::SolarSystem => 3,
        StelarItemType::Constellation => 2,
        StelarItemType::Region => 1,
    }
}

/// Whether an item is what a path of a kind says: it bears the name of its
/// directory, and belongs to what the directories above are named after.
pub open spec fn item_matches(path: Seq<char>, kind: StelarItemType, item: IdNameType) -> bool {
    &&& segment(path, 1) == Some(item.1@)
    &&& match kind {
        StelarItemType::SolarSystem => item.2 matches MapType::SolarSystem {
            region,
            constellation,
        } && segment(path, 2) == Some(constellation@) && segment(path, 3) == Some(region@),
        StelarItemType::Constellation => item.2 matches MapType::Constellation { region }
            && segment(path, 2) == Some(region@),
        StelarItemType::Region => item.2 is Region,
    }
}

/// The stargates of a solar system, from the pairs a file gives.
pub open spec fn stargates_from(ssid: SolarSystemId, pairs: Seq<(u64, u64)>) -> Seq<StargateData> {
    pairs.map_values(
        |pair: (u64, u64)|
            StargateData {
                stargate_id: pair.0,
                solar_system_id: ssid,
                destination_stargate_id: pair.1,
            },
    )
}

/// The stargates a file gives, none where it has no such field.
pub open spec fn pairs_of(data: UnionSystemData) -> Seq<(u64, u64)> {
    match data.stargates {
        Some(pairs) => pairs@,
        None => Seq::empty(),
    }
}

/// parse reads all kinds of universe files: regions, constellations and
/// solar systems. The path defines membership, and the names in the path are
/// the names of the items. Of a region only name and id matter; of a
/// constellation also its region; of a solar system its region, its
/// constellation and its stargates, each of which names the stargate it
/// leads to.
///
/// A path with another file name gives no item. Otherwise the id must be
/// present, and the path must hold the names that the kind needs; the first
/// that is missing is the error.
pub fn parse(name: &str, yaml_value: UnionSystemData) -> (parsed: Result<StellarRecord, ParseError>)
    ensures
        match kind_of(name@) {
            None => parsed == Ok::<StellarRecord, ParseError>(None),
            Some(kind) => match parsed {
                Ok(None) => false,
                Ok(Some((item, gates))) => {
                    &&& id_field(kind, yaml_value) == Some(item.0)
                    &&& item_matches(name@, kind, item)
                    &&& match gates {
                        Some((ssid, list)) => kind == StelarItemType::SolarSystem && ssid.number()
                            == item.0 && list@ == stargates_from(ssid, pairs_of(yaml_value)),
                        None => kind != StelarItemType::SolarSystem,
                    }
                },
                Err(ParseError::MissingSolarSystemId) => kind == StelarItemType::SolarSystem
                    && yaml_value.solar_system_id is None,
                Err(ParseError::MissingConstellationId) => kind == StelarItemType::Constellation
                    && yaml_value.constellation_id is None,
                Err(ParseError::MissingRegionId) => kind == StelarItemType::Region
                    && yaml_value.region_id is None,
                Err(ParseError::MissingPathItem(i)) => {
                    &&& id_field(kind, yaml_value) is Some
                    &&& 1 <= i <= parts_needed(kind)
                    &&& segment(name@, i as nat) is None
                    &&& forall|j: nat| 1 <= j < i ==> segment(name@, j) is Some
                },
            },
        },
{
    // The attribute representing the ID of the different types is different in each case
    let file = match segment_of(name, 0) {
        Some(file) => file,
        None => {
            return Ok(None);
        },
    };
    let t = if same_text(file.as_str(), "solarsystem.staticdata") {
        StelarItemType::SolarSystem
    } else if same_text(file.as_str(), "constellation.staticdata") {
        StelarItemType::Constellation
    } else if same_text(file.as_str(), "region.staticdata") {
        StelarItemType::Region
    } else {
        return Ok(None);
    };
    let id = match t {
        StelarItemType::SolarSystem => match yaml_value.solar_system_id {
            Some(id) => id,
            None => {
                return Err(ParseError::MissingSolarSystemId);
            },
        },
        StelarItemType::Constellation => match yaml_value.constellation_id {
            Some(id) => id,
            None => {
                return Err(ParseError::MissingConstellationId);
            },
        },
        StelarItemType::Region => match yaml_value.region_id {
            Some(id) => id,
            None => {
                return Err(ParseError::MissingRegionId);
            },
        },
    };
    let item_name = match segment_of(name, 1) {
        Some(text) => text,
        None => {
            return Err(ParseError::MissingPathItem(1));
        },
    };
    let kind = match t {
        StelarItemType::SolarSystem => {
            let constellation = match segment_of(name, 2) {
                Some(text) => text,
                None => {
                    return Err(ParseError::MissingPathItem(2));
                },
            };
            let region = match segment_of(name, 3) {
                Some(text) => text,
                None => {
                    return Err(ParseError::MissingPathItem(3));
                },
            };
            MapType::SolarSystem { constellation, region }
        },
        StelarItemType::Constellation => {
            let region = match segment_of(name, 2) {
                Some(text) => text,
                None => {
                    return Err(ParseError::MissingPathItem(2));
                },
            };
            MapType::Constellation { region }
        },
        StelarItemType::Region => MapType::Region,
    };
    let stellar_item: IdNameType = (id, item_name, kind);

    if t != StelarItemType::SolarSystem {
        return Ok(Some((stellar_item, None)));
    }
    let ssid = SolarSystemId::new(id);

    let mut stargates: Vec<StargateData> = Vec::new();
    if let Some(gates) = &yaml_value.stargates {
        let mut j: usize = 0;
        while j < gates.len()
            invariant
                j <= gates@.len(),
                stargates@ == stargates_from(ssid, gates@).take(j as int),
            decreases gates@.len() - j,
        {
            stargates.push(
                StargateData {
                    stargate_id: gates[j].0,
                    solar_system_id: ssid,
                    destination_stargate_id: gates[j].1,
                },
            );
            assert(stargates@ =~= stargates_from(ssid, gates@).take(j + 1));
            j = j + 1;
        }
        assert(stargates@ =~= stargates_from(ssid, gates@));
    } else {
        assert(stargates@ =~= stargates_from(ssid, pairs_of(yaml_value)));
    }

    Ok(Some((stellar_item, Some((ssid, stargates)))))
}

} // verus!

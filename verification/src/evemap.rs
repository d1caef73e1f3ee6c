//! The jump graph: solar systems under dense indices, each with the systems
//! its stargates lead to.

use vstd::prelude::*;
use vstd::std_specs::convert::FromSpecImpl;
use once_cell::unsync::OnceCell;
use crate::cell::{cell_value, get_cell};
use std::collections::HashMap;
pub use crate::mapbuild::MapError;
use crate::mapbuild::{
    ascending, buildable, building_fails, collect_names, find_id, first_stray, gate_owners,
    ids_of, in_bounds, index_gates, index_systems, indexes, is_homeless, is_stray, lemma_same_ids,
    link, linked, name_id, named, names_view, row_ids, rows_view, sorted_rows, stargates_of,
    system_ids, system_rows,
};
pub use crate::staticdata::{parse, ParseError, UnionSystemData};

verus! {

/// The position of a solar system in the map's packed vectors. An index is
/// only ever handed out by the map it belongs to.
#[derive(Debug, Clone, Copy, PartialEq, Eq, PartialOrd, Ord, Structural)]
pub struct SolarSystemIndex(u16);

impl SolarSystemIndex {
    /// The position the index stands for.
    pub closed spec fn offset(self) -> usize {
        self.0 as usize
    }

    /// Two indices of one position are the same index.
    pub proof fn offset_is_injective(a: Self, b: Self)
        requires
            a.offset() == b.offset(),
        ensures
            a == b,
    {
    }

    /// The index of a position.
    pub(crate) fn from_position(p: usize) -> (index: Self)
        requires
            p < 0x1_0000,
        ensures
            index.offset() == p,
    {
        SolarSystemIndex(p as u16)
    }

    /// The position as a machine integer, for indexing.
    #[inline]
    pub fn position(self) -> (p: usize)
        ensures
            p == self.offset(),
    {
        self.0 as usize
    }

    /// There are as many indices below a bound as the bound says, where it
    /// does not exceed the number of indices there are.
    pub proof fn count_below(bound: nat)
        requires
            bound <= 0x1_0000,
        ensures
            Set::new(|n: SolarSystemIndex| n.offset() < bound).finite(),
            Set::new(|n: SolarSystemIndex| n.offset() < bound).len() == bound,
    {
        let below = Set::new(|n: SolarSystemIndex| n.offset() < bound);
        let range = Set::new(|i: int| 0 <= i < bound);
        assert(range =~= vstd::set_lib::set_int_range(0, bound as int));
        vstd::set_lib::lemma_int_range(0, bound as int);
        let wrap = |i: int| SolarSystemIndex(i as u16);
        assert(range.map(wrap) =~= below) by {
            assert forall|n: SolarSystemIndex| below.contains(n) implies range.map(wrap).contains(
                n,
            ) by {
                assert(range.contains(n.0 as int));
                assert(wrap(n.0 as int) == n);
            }
        }
        assert(vstd::relations::injective_on(wrap, range));
        vstd::set_lib::lemma_map_size(range, below, wrap);
    }

    /// There are finitely many indices below any bound.
    pub proof fn finitely_many_below(bound: nat)
        ensures
            Set::new(|n: SolarSystemIndex| n.offset() < bound).finite(),
    {
        let all = Set::new(|i: int| 0 <= i < 0x1_0000);
        assert(all =~= vstd::set_lib::set_int_range(0, 0x1_0000));
        vstd::set_lib::lemma_int_range(0, 0x1_0000);
        let wrap = |i: int| SolarSystemIndex(i as u16);
        all.lemma_map_finite(wrap);
        let below = Set::new(|n: SolarSystemIndex| n.offset() < bound);
        assert forall|n: SolarSystemIndex| below.contains(n) implies all.map(wrap).contains(n) by {
            assert(all.contains(n.0 as int));
            assert(wrap(n.0 as int) == n);
        }
        vstd::set_lib::lemma_set_subset_finite(all.map(wrap), below);
    }
}

impl From<SolarSystemIndex> for usize {
    #[inline]
    fn from(value: SolarSystemIndex) -> (p: usize) {
        value.position()
    }
}

/// The conversion is `SolarSystemIndex::position`; contracts speak of that
/// method, and nothing is claimed through the conversion trait.
impl FromSpecImpl<SolarSystemIndex> for usize {
    open spec fn obeys_from_spec() -> bool {
        false
    }

    open spec fn from_spec(value: SolarSystemIndex) -> usize {
        value.offset()
    }
}

/// The number of neighbours a system can hold in place, without a separate
/// heap allocation. Most systems have no more.
pub const NUM_IN_PLACE_JUMPS: usize = 3;

/// SolarSystemId is the solar system's id in the static data. It is not
/// compact and not zero based: it serves reading, writing and talking to
/// users, not as a node of the search.
#[derive(Debug, Clone, Copy, PartialEq, Eq, PartialOrd, Ord, Hash, Structural)]
pub struct SolarSystemId(u64);

impl SolarSystemId {
    /// The id as a number.
    pub closed spec fn number(self) -> u64 {
        self.0
    }

    /// Two ids of one number are the same id.
    pub proof fn number_is_injective(a: Self, b: Self)
        requires
            a.number() == b.number(),
        ensures
            a == b,
    {
    }

    pub fn new(id: u64) -> (ssid: Self)
        ensures
            ssid.number() == id,
    {
        SolarSystemId(id)
    }

    pub fn id(self) -> (n: u64)
        ensures
            n == self.number(),
    {
        self.0
    }
}

#[derive(Debug, Clone, Copy)]
pub struct StargateData {
    pub stargate_id: u64,
    pub solar_system_id: SolarSystemId,
    pub destination_stargate_id: u64,
}

/// The systems one jump away: either a fixed-size array that lives in place,
/// or a separately allocated vector.
#[derive(Debug)]
pub enum Neighbours {
    /// A fixed size array, filled from the front
    InPlace([Option<SolarSystemIndex>; 3]),
    /// A separately allocated heap vec
    Vec(Vec<SolarSystemIndex>),
}

/// The entries of an in-place array that are present, in their order.
pub open spec fn present(slots: Seq<Option<SolarSystemIndex>>) -> Seq<SolarSystemIndex>
    decreases slots.len(),
{
    if slots.len() == 0 {
        Seq::empty()
    } else if let Some(n) = slots.last() {
        present(slots.drop_last()).push(n)
    } else {
        present(slots.drop_last())
    }
}

impl Neighbours {
    /// Whether the neighbours that are held in place fill the array from the
    /// front, with nothing behind an empty slot.
    pub open spec fn filled_from_front(&self) -> bool {
        self matches Neighbours::InPlace(a) ==> forall|i: int|
            0 <= i < 3 ==> #[trigger] a@[i] == (if i < self@.len() {
                Some(self@[i])
            } else {
                None
            })
    }

    /// The neighbours, in the order in which they were given.
    pub open spec fn view(&self) -> Seq<SolarSystemIndex> {
        match self {
            Neighbours::InPlace(a) => present(a@),
            Neighbours::Vec(v) => v@,
        }
    }

    /// Stores the neighbours in place where there are three at most, and on
    /// the heap otherwise. In place they fill the array from the front, in
    /// their order, and the slots behind them stay empty.
    pub fn from_iter(values: Vec<SolarSystemIndex>) -> (neighbours: Neighbours)
        ensures
            neighbours@ == values@,
            neighbours is InPlace <==> values@.len() <= NUM_IN_PLACE_JUMPS,
            neighbours matches Neighbours::InPlace(a) ==> forall|i: int|
                0 <= i < 3 ==> a@[i] == (if i < values@.len() {
                    Some(values@[i])
                } else {
                    None
                }),
            neighbours matches Neighbours::Vec(v) ==> v@ == values@,
            neighbours.filled_from_front(),
    {
        if values.len() > NUM_IN_PLACE_JUMPS {
            return Neighbours::Vec(values);
        }
        let mut na: [Option<SolarSystemIndex>; 3] = [None, None, None];
        let mut i: usize = 0;
        while i < values.len()
            invariant
                i <= values@.len() <= 3,
                forall|j: int| 0 <= j < i ==> na@[j] == Some(values@[j]),
                forall|j: int| i <= j < 3 ==> na@[j] is None,
            decreases values@.len() - i,
        {
            na[i] = Some(values[i]);
            i = i + 1;
        }
        proof {
            lemma_present_prefix(na@, values@);
        }
        Neighbours::InPlace(na)
    }

    /// The number of neighbours.
    pub fn len(&self) -> (n: usize)
        ensures
            n == self@.len(),
    {
        match self {
            Neighbours::Vec(v) => v.len(),
            Neighbours::InPlace(a) => {
                let mut n: usize = 0;
                let mut i: usize = 0;
                while i < 3
                    invariant
                        i <= 3,
                        n <= i,
                        n == present(a@.take(i as int)).len(),
                    decreases 3 - i,
                {
                    proof {
                        assert(a@.take(i + 1).drop_last() =~= a@.take(i as int));
                        assert(a@.take(i + 1).last() == a@[i as int]);
                    }
                    if a[i].is_some() {
                        n = n + 1;
                    }
                    i = i + 1;
                }
                assert(a@.take(3) =~= a@);
                n
            },
        }
    }

    /// The neighbour at position `k`, without copying the others.
    pub fn get(&self, k: usize) -> (n: SolarSystemIndex)
        requires
            k < self@.len(),
        ensures
            n == self@[k as int],
    {
        match self {
            Neighbours::Vec(v) => v[k],
            Neighbours::InPlace(a) => {
                let mut seen: usize = 0;
                let mut i: usize = 0;
                while i < 3
                    invariant
                        i <= 3,
                        seen <= i,
                        seen <= k,
                        seen == present(a@.take(i as int)).len(),
                        k < present(a@).len(),
                        self@ == present(a@),
                    decreases 3 - i,
                {
                    proof {
                        assert(a@.take(i + 1).drop_last() =~= a@.take(i as int));
                        assert(a@.take(i + 1).last() == a@[i as int]);
                        lemma_present_grows(a@, i + 1);
                    }
                    if let Some(n) = a[i] {
                        if seen == k {
                            proof {
                                let upto = present(a@.take(i + 1));
                                assert(upto == present(a@.take(i as int)).push(n));
                                assert(upto[k as int] == n);
                            }
                            return n;
                        }
                        seen = seen + 1;
                    }
                    i = i + 1;
                }
                proof {
                    assert(a@.take(3) =~= a@);
                }
                // not reached: position `k` lies among the slots
                SolarSystemIndex(0)
            },
        }
    }

    /// The neighbours as a vector.
    pub fn to_vec(&self) -> (list: Vec<SolarSystemIndex>)
        ensures
            list@ == self@,
    {
        match self {
            Neighbours::Vec(v) => {
                let mut list: Vec<SolarSystemIndex> = Vec::new();
                let mut i: usize = 0;
                while i < v.len()
                    invariant
                        i <= v@.len(),
                        list@ == v@.take(i as int),
                    decreases v@.len() - i,
                {
                    list.push(v[i]);
                    assert(v@.take(i + 1) =~= v@.take(i as int).push(v@[i as int]));
                    i = i + 1;
                }
                assert(v@.take(v@.len() as int) =~= v@);
                list
            },
            Neighbours::InPlace(a) => {
                let mut list: Vec<SolarSystemIndex> = Vec::new();
                let mut i: usize = 0;
                while i < 3
                    invariant
                        i <= 3,
                        list@ == present(a@.take(i as int)),
                    decreases 3 - i,
                {
                    proof {
                        assert(a@.take(i + 1).drop_last() =~= a@.take(i as int));
                        assert(a@.take(i + 1).last() == a@[i as int]);
                    }
                    if let Some(n) = a[i] {
                        list.push(n);
                    }
                    i = i + 1;
                }
                assert(a@.take(3) =~= a@);
                list
            },
        }
    }
}

/// What is present in the first `n` slots stands at the front of what is
/// present in all.
proof fn lemma_present_grows(slots: Seq<Option<SolarSystemIndex>>, n: int)
    requires
        0 <= n <= slots.len(),
    ensures
        present(slots.take(n)).len() <= present(slots).len(),
        forall|k: int|
            0 <= k < present(slots.take(n)).len() ==> present(slots.take(n))[k] == present(
                slots,
            )[k],
    decreases slots.len(),
{
    if n == slots.len() {
        assert(slots.take(n) =~= slots);
    } else {
        lemma_present_grows(slots.drop_last(), n);
        assert(slots.drop_last().take(n) =~= slots.take(n));
    }
}

/// An array that holds a sequence at its front, and nothing behind it, has
/// that sequence present.
proof fn lemma_present_prefix(slots: Seq<Option<SolarSystemIndex>>, values: Seq<SolarSystemIndex>)
    requires
        values.len() <= slots.len(),
        forall|j: int| 0 <= j < values.len() ==> slots[j] == Some(values[j]),
        forall|j: int| values.len() <= j < slots.len() ==> slots[j] is None,
    ensures
        present(slots) == values,
    decreases slots.len(),
{
    if slots.len() == 0 {
        assert(values =~= Seq::empty());
    } else if values.len() == slots.len() {
        lemma_present_prefix(slots.drop_last(), values.drop_last());
        assert(values =~= values.drop_last().push(values.last()));
    } else {
        lemma_present_prefix(slots.drop_last(), values);
    }
}

/// What the search needs of a solar system: its id and, set once when the
/// map is built, the systems its stargates lead to.
pub struct SolarSystemMapItem {
    pub solar_system_id: SolarSystemId,
    pub neighbours: OnceCell<Neighbours>,
}

impl SolarSystemMapItem {
    /// The neighbours the item was given; none where it was given none.
    pub open spec fn jumps(&self) -> Seq<SolarSystemIndex> {
        match cell_value(self.neighbours) {
            Some(n) => n@,
            None => Seq::empty(),
        }
    }

    pub fn get_neighbours(&self) -> (list: Vec<SolarSystemIndex>)
        ensures
            list@ == self.jumps(),
    {
        match get_cell(&self.neighbours) {
            Some(n) => n.to_vec(),
            None => Vec::new(),
        }
    }

    /// The number of neighbours.
    pub fn neighbour_count(&self) -> (n: usize)
        ensures
            n == self.jumps().len(),
    {
        match get_cell(&self.neighbours) {
            Some(n) => n.len(),
            None => 0,
        }
    }

    /// The neighbour at position `k`. With `neighbour_count` this walks the
    /// neighbours, as often as wanted, without allocating.
    pub fn neighbour_at(&self, k: usize) -> (n: SolarSystemIndex)
        requires
            k < self.jumps().len(),
        ensures
            n == self.jumps()[k as int],
    {
        match get_cell(&self.neighbours) {
            Some(n) => n.get(k),
            None => SolarSystemIndex(0),
        }
    }
}

/// SolarSystemEx is the larger record of a solar system, with what is not
/// needed to explore neighbours.
pub struct SolarSystemEx {
    /// solar system name, eg. Yulai
    pub name: String,
    pub solar_system_id: SolarSystemId,
    pub constellation_id: u64,
    pub region_id: u64,
}

/// A solar system's extended record in mathematical terms.
pub struct SystemView {
    pub id: u64,
    pub name: Seq<char>,
    pub constellation_id: u64,
    pub region_id: u64,
}

impl View for SolarSystemEx {
    type V = SystemView;

    open spec fn view(&self) -> SystemView {
        SystemView {
            id: self.solar_system_id.number(),
            name: self.name@,
            constellation_id: self.constellation_id,
            region_id: self.region_id,
        }
    }
}

#[derive(Debug, Clone, Copy, PartialEq, Eq, Structural)]
pub enum StelarItemType {
    SolarSystem,
    Constellation,
    Region,
}

/// What kind of item a record describes, with the names of the items it
/// belongs to.
#[derive(Debug, Clone)]
pub enum MapType {
    Region,
    Constellation { region: String },
    SolarSystem { region: String, constellation: String },
}

impl MapType {
    pub fn is_solarsystem(&self) -> (b: bool)
        ensures
            b == (self is SolarSystem),
    {
        match self {
            MapType::SolarSystem { .. } => true,
            _ => false,
        }
    }
}

/// An item's id, its name and its kind.
pub type IdNameType = (u64, String, MapType);

/// A solar system's id with its stargates.
pub type SolarSystemStargates = Option<(SolarSystemId, Vec<StargateData>)>;

/// What one source file gives: nothing, or an item and, for a solar system,
/// its stargates.
pub type StellarRecord = Option<(IdNameType, SolarSystemStargates)>;

/// EveMap holds the structures that let one work with the jump graph: the
/// compact items the search runs on, the extended records beside them under
/// the same indices, and the lookups by name and by id.
pub struct EveMap {
    /// systems is a packed vector of the minimal items: the id and the
    /// neighbours. It is indexed by a SolarSystemIndex
    systems: Vec<SolarSystemMapItem>,
    /// extended_systems pairs with systems, and holds what is not needed to
    /// explore neighbours
    extended_systems: Vec<SolarSystemEx>,
    /// names with their ids. Not limited to systems: a name may yield the id
    /// of a region or a constellation
    name_to_id: Vec<(String, u64)>,
    /// lookup from a system's id to its index
    system_id_to_index: HashMap<u64, SolarSystemIndex>,
}

impl EveMap {
    /// The compact items, in the order of their indices.
    pub closed spec fn items(&self) -> Seq<SolarSystemMapItem> {
        self.systems@
    }

    /// The extended records, in the order of their indices.
    pub closed spec fn rows(&self) -> Seq<SystemView> {
        rows_view(self.extended_systems@)
    }

    /// The names with their ids, in the order in which they were given.
    pub closed spec fn names(&self) -> Seq<(Seq<char>, u64)> {
        names_view(self.name_to_id@)
    }

    /// The lookup from id to index.
    pub closed spec fn lookup(&self) -> Map<u64, SolarSystemIndex> {
        self.system_id_to_index@
    }

    /// What holds of every map: the two vectors are aligned, no longer than
    /// there are indices, and in the order of the ids; the lookup leads from
    /// exactly the ids of the systems to their indices; every jump leads to
    /// a system of the map.
    pub open spec fn wf(&self) -> bool {
        &&& self.items().len() == self.rows().len() <= 0x1_0000
        &&& forall|i: int|
            0 <= i < self.items().len() ==> (#[trigger] self.items()[i]).solar_system_id.number()
                == self.rows()[i].id
        &&& ascending(self.rows())
        &&& indexes(self.lookup(), ids_of(self.rows()))
        &&& in_bounds(self.items())
    }

    /// Builds the map from the records of all items.
    ///
    /// Every solar system gets an index, in the order of the ids. The names
    /// of its constellation and region are resolved to ids, and its
    /// stargates to the indices of the systems they lead to. Where that
    /// cannot be done the error is the first failure.
    pub fn new(records: Vec<StellarRecord>) -> (built: Result<EveMap, MapError>)
        ensures
            match built {
                Ok(map) => {
                    &&& buildable(records@)
                    &&& map.wf()
                    &&& map.names() == named(records@)
                    &&& map.rows().to_multiset() == system_rows(
                        named(records@),
                        records@,
                    ).to_multiset()
                    &&& linked(
                        map.items(),
                        records@,
                        map.lookup(),
                        gate_owners(records@, map.lookup()),
                    )
                },
                Err(e) => building_fails(records@, e),
            },
    {
        let names = collect_names(&records);
        let rows = match sorted_rows(&records, &names) {
            Ok(rows) => rows,
            Err(e) => {
                return Err(e);
            },
        };
        let ghost wanted = system_rows(named(records@), records@);
        let ghost ids = row_ids(rows@);
        proof {
            vstd::seq_lib::to_multiset_len(rows_view(rows@));
            vstd::seq_lib::to_multiset_len(wanted);
            assert(ids_of(rows_view(rows@)) =~= ids);
        }
        let (mut systems, lookup) = match index_systems(&rows) {
            Ok(parts) => parts,
            Err(e) => {
                return Err(e);
            },
        };
        proof {
            assert forall|k: int| 0 <= k < records@.len() implies (is_stray(
                lookup@,
                #[trigger] records@[k],
            ) <==> is_homeless(system_ids(records@), records@[k])) by {
                if let Some((ssid, _)) = stargates_of(records@[k]) {
                    if ids.contains(ssid.number()) {
                        lemma_same_ids(rows_view(rows@), wanted, ssid.number());
                    }
                    if ids_of(wanted).contains(ssid.number()) {
                        lemma_same_ids(wanted, rows_view(rows@), ssid.number());
                    }
                }
            }
        }
        let owners = match index_gates(&records, &lookup, Ghost(ids.len())) {
            Ok(owners) => owners,
            Err(e) => {
                proof {
                    let k = choose|k: int| #[trigger]
                        first_stray(lookup@, records@, k) && e == MapError::UnknownSystem(
                            stargates_of(records@[k]).unwrap().0,
                        );
                    assert(is_homeless(system_ids(records@), records@[k]));
                    assert forall|i: int| 0 <= i < k implies !is_homeless(
                        system_ids(records@),
                        #[trigger] records@[i],
                    ) by {
                        assert(!is_stray(lookup@, records@[i]));
                    }
                }
                return Err(e);
            },
        };
        assert forall|i: int| 0 <= i < ids.len() implies (
        #[trigger] systems@[i]).solar_system_id.number() == ids[i] && cell_value(
            systems@[i].neighbours,
        ) is None by {}
        proof {
            assert forall|k: int| 0 <= k < records@.len() implies !is_homeless(
                system_ids(records@),
                #[trigger] records@[k],
            ) by {
                assert(!is_stray(lookup@, records@[k]));
            }
        }
        match link(&records, &lookup, &owners, &mut systems, Ghost(ids)) {
            Ok(_) => {},
            Err(e) => {
                return Err(e);
            },
        }
        let map = EveMap {
            systems,
            extended_systems: rows,
            name_to_id: names,
            system_id_to_index: lookup,
        };
        Ok(map)
    }

    /// The number of solar systems, which is one more than the largest
    /// index.
    pub fn len(&self) -> (n: usize)
        ensures
            n == self.items().len(),
    {
        self.systems.len()
    }

    /// The compact items, in the order of their indices.
    pub fn systems(&self) -> (all: &Vec<SolarSystemMapItem>)
        ensures
            all@ == self.items(),
    {
        &self.systems
    }

    /// The id that a name stands for. The name may be that of a region or a
    /// constellation, whose id is no system's.
    #[inline]
    pub fn get_solarsystem_id_by_name(&self, name: &str) -> (found: Option<SolarSystemId>)
        ensures
            match found {
                Some(id) => name_id(self.names(), name@) == Some(id.number()),
                None => name_id(self.names(), name@) is None,
            },
    {
        let wanted = name.to_owned();
        match find_id(&self.name_to_id, &wanted) {
            Some(id) => Some(SolarSystemId(id)),
            None => None,
        }
    }

    /// Whether the id is that of a solar system of the map.
    #[inline]
    pub fn has_solarsystem(&self, i: &SolarSystemId) -> (known: bool)
        ensures
            known == self.lookup().contains_key(i.number()),
    {
        broadcast use vstd::std_specs::hash::group_hash_axioms;

        self.system_id_to_index.contains_key(&i.0)
    }

    /// The index of the solar system of a known id.
    #[inline]
    pub fn get_solarsystem_idx(&self, i: &SolarSystemId) -> (index: SolarSystemIndex)
        requires
            self.lookup().contains_key(i.number()),
        ensures
            index == self.lookup()[i.number()],
    {
        broadcast use vstd::std_specs::hash::group_hash_axioms;

        match self.system_id_to_index.get(&i.0) {
            Some(index) => *index,
            None => SolarSystemIndex(0),
        }
    }

    #[inline]
    pub fn get_system(&self, i: &SolarSystemIndex) -> (item: &SolarSystemMapItem)
        requires
            i.offset() < self.items().len(),
        ensures
            *item == self.items()[i.offset() as int],
    {
        &self.systems[i.position()]
    }

    /// The systems one jump away from a system, in the order of its
    /// stargates; every one is a system of the map.
    #[inline]
    pub fn get_neighbours(&self, i: &SolarSystemIndex) -> (list: Vec<SolarSystemIndex>)
        requires
            self.wf(),
            i.offset() < self.items().len(),
        ensures
            list@ == self.items()[i.offset() as int].jumps(),
            forall|j: int| 0 <= j < list@.len() ==> (#[trigger] list@[j]).offset() < self.items().len(),
    {
        let list = self.get_system(i).get_neighbours();
        assert forall|j: int| 0 <= j < list@.len() implies (#[trigger] list@[j]).offset()
            < self.items().len() by {
            assert(self.items()[i.offset() as int].jumps()[j].offset() < self.items().len());
        }
        list
    }

    #[inline]
    pub fn get_extended_solarsystem_info(&self, system_index: &SolarSystemIndex) -> (info:
        &SolarSystemEx)
        requires
            system_index.offset() < self.rows().len(),
        ensures
            info@ == self.rows()[system_index.offset() as int],
    {
        &self.extended_systems[system_index.position()]
    }
}

} // verus!

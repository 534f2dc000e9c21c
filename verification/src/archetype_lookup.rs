//! The index that finds archetypes: by their exact schema, and by filters
//! over the components that a schema holds.
use vstd::prelude::*;
use std::collections::HashMap;
use crate::matching::{
    all_matches, column_in, filter_admits, filter_column, is_matched_from, is_schema,
    lemma_matches_bounded, lemma_matches_members, lemma_matches_skip, lemma_schema_position,
    matched_columns, matches_from, matches_view, schema_matches,
};
use crate::sparse_set::SparseSet;
use crate::ComponentId;

verus! {

broadcast use vstd::std_specs::hash::group_hash_axioms;

/// What a query asks of one component.
#[derive(Copy, Clone, PartialEq, Eq, Structural, Debug)]
pub enum FilterType {
    /// The archetype must hold the component; its column is reported.
    With,
    /// The archetype must lack the component.
    Without,
    /// The archetype may hold the component; its column is reported if so.
    Optional,
}

/// What a query asks of the component id `component_id`.
#[derive(Copy, Clone, PartialEq, Eq, Structural, Debug)]
pub struct Filter {
    pub component_id: ComponentId,
    pub filter_type: FilterType,
}

/// The sparse set of the component id `c` lists the archetype `a`.
pub open spec fn lists(per_component: Map<u64, SparseSet<usize>>, c: u64, a: usize) -> bool {
    per_component.contains_key(c) && per_component[c]@.contains_key(a)
}

/// The sparse sets list, for each component id, the archetypes whose schema
/// holds it, each with the id's column in that archetype.
pub open spec fn indexes(
    per_component: Map<u64, SparseSet<usize>>,
    schemas: Seq<Seq<ComponentId>>,
) -> bool {
    &&& forall|c: u64| #[trigger] per_component.contains_key(c) ==> per_component[c].wf()
    &&& forall|c: u64, a: usize| #[trigger]
        lists(per_component, c, a) <==> (a < schemas.len() && schemas[a as int].contains(
            ComponentId { id: c },
        ))
    &&& forall|c: u64, a: usize| #[trigger]
        lists(per_component, c, a) ==> Some(per_component[c]@[a]) == column_in(
            schemas[a as int],
            ComponentId { id: c },
        )
}

/// Finds archetypes by schema and by filter.
///
/// The map for the exact lookup is keyed by a hash of the schema rather than
/// by the schema itself: of a map with integer keys it is known what `insert`
/// and `get` do, of one keyed by a vector it is not. Schemas of one hash
/// share a list, and the lookup compares them with the schema asked for.
pub struct ArchetypeLookup {
    /// For each hash of a schema, the archetypes whose schema has that hash.
    exact_component_ids_to_archetype: HashMap<u64, Vec<usize>>,
    /// The schema of each archetype, at the archetype's index.
    archetype_component_ids: Vec<Vec<ComponentId>>,
    /// For each component id, the archetypes that hold it and its column there.
    component_id_to_archetypes: HashMap<u64, SparseSet<usize>>,
    total_archetype_count: usize,
}

impl ArchetypeLookup {
    /// The schema of each archetype registered so far, by archetype index.
    pub closed spec fn schemas(&self) -> Seq<Seq<ComponentId>> {
        Seq::new(
            self.archetype_component_ids@.len(),
            |a: int| self.archetype_component_ids@[a]@,
        )
    }

    /// For each hash that the schema of some archetype has, the archetypes
    /// whose schemas have it.
    pub closed spec fn by_hash(&self) -> Map<u64, Vec<usize>> {
        self.exact_component_ids_to_archetype@
    }

    /// For each component id that some archetype holds, its sparse set, under
    /// the number of the id.
    pub closed spec fn per_component(&self) -> Map<u64, SparseSet<usize>> {
        self.component_id_to_archetypes@
    }

    /// The schemas are sorted and differ from each other, and the sparse sets
    /// list each archetype under the ids of its schema.
    pub closed spec fn wf(&self) -> bool {
        &&& self.total_archetype_count == self.schemas().len()
        &&& forall|a: int| 0 <= a < self.schemas().len() ==> is_schema(#[trigger] self.schemas()[a])
        &&& forall|a: int, b: int|
            0 <= a < b < self.schemas().len() ==> self.schemas()[a] != self.schemas()[b]
        &&& indexes(self.per_component(), self.schemas())
        &&& hashes(self.by_hash(), self.schemas())
    }

    /// The archetype whose schema is exactly `ids`, if there is one.
    pub open spec fn exact_spec(&self, ids: Seq<ComponentId>) -> Option<usize> {
        if exists|a: int| 0 <= a < self.schemas().len() && self.schemas()[a] == ids {
            Some(
                (choose|a: int| 0 <= a < self.schemas().len() && self.schemas()[a] == ids) as usize,
            )
        } else {
            None
        }
    }

    /// The sparse sets of a well-formed index list, for each component id,
    /// the archetypes that hold it and its column in each.
    pub proof fn lemma_indexes(&self)
        requires
            self.wf(),
        ensures
            indexes(self.per_component(), self.schemas()),
    {
    }

    /// Well-formed schemas are sorted and no two archetypes share one. The
    /// schemas, and the ids of each, fit in memory.
    pub proof fn lemma_schemas(&self)
        requires
            self.wf(),
        ensures
            forall|a: int| 0 <= a < self.schemas().len() ==> is_schema(#[trigger] self.schemas()[a]),
            forall|a: int, b: int|
                0 <= a < self.schemas().len() && 0 <= b < self.schemas().len() && self.schemas()[a]
                    == self.schemas()[b] ==> a == b,
            self.schemas().len() <= usize::MAX,
            forall|a: int|
                0 <= a < self.schemas().len() ==> (#[trigger] self.schemas()[a]).len() <= usize::MAX,
    {
        assert(self.archetype_component_ids.len() == self.schemas().len());
        assert forall|a: int| 0 <= a < self.schemas().len() implies (#[trigger] self.schemas()[a]).len()
            <= usize::MAX by {
            assert(self.archetype_component_ids@[a].len() == self.schemas()[a].len());
        }
        assert forall|a: int, b: int|
            0 <= a < self.schemas().len() && 0 <= b < self.schemas().len() && self.schemas()[a]
                == self.schemas()[b] implies a == b by {
            if a < b {
                assert(self.schemas()[a] != self.schemas()[b]);
            }
            if b < a {
                assert(self.schemas()[b] != self.schemas()[a]);
            }
        }
    }

    /// An index without archetypes.
    pub fn new() -> (lookup: Self)
        ensures
            lookup.wf(),
            lookup.schemas() == Seq::<Seq<ComponentId>>::empty(),
    {
        let lookup = Self {
            component_id_to_archetypes: HashMap::new(),
            exact_component_ids_to_archetype: HashMap::new(),
            archetype_component_ids: Vec::new(),
            total_archetype_count: 0,
        };
        assert(lookup.schemas() =~= Seq::<Seq<ComponentId>>::empty());
        lookup
    }

    /// Number of archetypes registered so far.
    pub fn archetype_count(&self) -> (n: usize)
        requires
            self.wf(),
        ensures
            n == self.schemas().len(),
    {
        self.total_archetype_count
    }

    /// Registers an archetype of the schema `component_ids` under the next
    /// archetype index. The ids must be sorted, and no archetype of the same
    /// schema may have been registered before.
    pub fn new_archetype(&mut self, component_ids: &[ComponentId])
        requires
            old(self).wf(),
            is_schema(component_ids@),
            old(self).exact_spec(component_ids@) is None,
        ensures
            final(self).wf(),
            final(self).schemas() == old(self).schemas().push(component_ids@),
    {
        let archetype_index = self.total_archetype_count;
        let ids = copy_ids(component_ids);
        self.archetype_component_ids.push(ids);
        assert(archetype_index < self.archetype_component_ids.len());
        self.total_archetype_count += 1;
        assert(self.schemas() =~= old(self).schemas().push(component_ids@));
        proof {
            assert(component_ids@.subrange(0, 0) =~= Seq::<ComponentId>::empty());
            lemma_indexes_extend(old(self).per_component(), old(self).schemas());
        }
        let mut position: usize = 0;
        while position < component_ids.len()
            invariant
                position <= component_ids@.len(),
                is_schema(component_ids@),
                archetype_index == old(self).schemas().len(),
                archetype_index < usize::MAX,
                self.total_archetype_count == archetype_index + 1,
                self.schemas() == old(self).schemas().push(component_ids@),
                self.by_hash() == old(self).by_hash(),
                indexes(
                    self.per_component(),
                    old(self).schemas().push(component_ids@.subrange(0, position as int)),
                ),
            decreases component_ids@.len() - position,
        {
            let component_id = component_ids[position];
            let ghost before = self.per_component();
            let mut archetypes = match self.component_id_to_archetypes.remove(&component_id.id) {
                Some(archetypes) => archetypes,
                None => SparseSet::new(),
            };
            let ghost prior = archetypes;
            archetypes.insert(archetype_index, position);
            self.component_id_to_archetypes.insert(component_id.id, archetypes);
            proof {
                lemma_indexes_step(
                    before,
                    self.per_component(),
                    old(self).schemas(),
                    component_ids@,
                    position as int,
                    prior,
                    archetypes,
                );
            }
            position += 1;
        }
        let hash = hash_ids(component_ids);
        let ghost listed = self.by_hash();
        let mut same_hash = match self.exact_component_ids_to_archetype.remove(&hash) {
            Some(same_hash) => same_hash,
            None => Vec::new(),
        };
        let ghost prior = same_hash@;
        same_hash.push(archetype_index);
        self.exact_component_ids_to_archetype.insert(hash, same_hash);
        proof {
            lemma_hashes_step(listed, self.by_hash(), old(self).schemas(), component_ids@, prior, same_hash);
            assert(component_ids@.subrange(0, component_ids@.len() as int) =~= component_ids@);
            assert forall|a: int, b: int| 0 <= a < b < self.schemas().len() implies self.schemas()[a]
                != self.schemas()[b] by {
                if b == archetype_index {
                    assert(old(self).schemas()[a] != component_ids@);
                } else {
                    assert(old(self).schemas()[a] != old(self).schemas()[b]);
                }
            }
            assert forall|a: int| 0 <= a < self.schemas().len() implies is_schema(
                #[trigger] self.schemas()[a],
            ) by {
                if a < archetype_index {
                    assert(is_schema(old(self).schemas()[a]));
                }
            }
        }
    }

    /// The index of the archetype whose schema is exactly `component_ids`, if
    /// there is one.
    pub fn get_exact_archetype(&self, component_ids: &[ComponentId]) -> (found: Option<usize>)
        requires
            self.wf(),
        ensures
            found == self.exact_spec(component_ids@),
            match found {
                Some(a) => a < self.schemas().len() && self.schemas()[a as int] == component_ids@,
                None => forall|a: int|
                    0 <= a < self.schemas().len() ==> self.schemas()[a] != component_ids@,
            },
    {
        let hash = hash_ids(component_ids);
        match self.exact_component_ids_to_archetype.get(&hash) {
            Some(same_hash) => {
                let mut k: usize = 0;
                while k < same_hash.len()
                    invariant
                        self.wf(),
                        k <= same_hash@.len(),
                        self.by_hash().contains_key(hash),
                        self.by_hash()[hash] == *same_hash,
                        forall|l: int|
                            0 <= l < k ==> self.schemas()[(#[trigger] same_hash@[l]) as int]
                                != component_ids@,
                    decreases same_hash@.len() - k,
                {
                    let a = same_hash[k];
                    assert(follows(self.by_hash(), hash, k as int));
                    if same_ids(&self.archetype_component_ids[a], component_ids) {
                        proof {
                            self.lemma_schemas();
                            assert(self.schemas()[a as int] == component_ids@);
                        }
                        return Some(a);
                    }
                    k += 1;
                }
                proof {
                    assert forall|a: int| 0 <= a < self.schemas().len() implies self.schemas()[a]
                        != component_ids@ by {
                        if self.schemas()[a] == component_ids@ {
                            assert(schema_hash(self.schemas()[a]) == hash);
                            assert(same_hash@.contains(a as usize));
                            let l = same_hash@.index_of(a as usize);
                            assert(same_hash@[l] == a);
                        }
                    }
                }
                None
            },
            None => {
                proof {
                    assert forall|a: int| 0 <= a < self.schemas().len() implies self.schemas()[a]
                        != component_ids@ by {
                        if self.schemas()[a] == component_ids@ {
                            assert(schema_hash(self.schemas()[a]) == hash);
                        }
                    }
                }
                None
            },
        }
    }
}

/// The hash of a schema: that of the schema without its last id, combined
/// with the last id.
pub open spec fn schema_hash(ids: Seq<ComponentId>) -> u64
    decreases ids.len(),
{
    if ids.len() == 0 {
        0xcbf2_9ce4_8422_2325
    } else {
        vstd::wrapping::u64_specs::wrapping_mul(
            schema_hash(ids.drop_last()) ^ ids.last().id,
            0x0000_0100_0000_01b3,
        )
    }
}

/// The hash of the ids `ids`.
pub fn hash_ids(ids: &[ComponentId]) -> (hash: u64)
    ensures
        hash == schema_hash(ids@),
{
    let mut hash: u64 = 0xcbf2_9ce4_8422_2325;
    let mut i: usize = 0;
    while i < ids.len()
        invariant
            i <= ids@.len(),
            hash == schema_hash(ids@.subrange(0, i as int)),
        decreases ids@.len() - i,
    {
        assert(ids@.subrange(0, i + 1).drop_last() =~= ids@.subrange(0, i as int));
        hash = (hash ^ ids[i].id).wrapping_mul(0x0000_0100_0000_01b3);
        i += 1;
    }
    assert(ids@.subrange(0, ids@.len() as int) =~= ids@);
    hash
}

/// The entry `k` of the list of the hash `hash` is there.
pub open spec fn follows(by_hash: Map<u64, Vec<usize>>, hash: u64, k: int) -> bool {
    by_hash.contains_key(hash) && 0 <= k < by_hash[hash]@.len()
}

/// Each archetype is listed under the hash of its schema, and every list
/// holds archetypes only.
pub open spec fn hashes(by_hash: Map<u64, Vec<usize>>, schemas: Seq<Seq<ComponentId>>) -> bool {
    &&& forall|hash: u64, k: int| #[trigger]
        follows(by_hash, hash, k) ==> by_hash[hash]@[k] < schemas.len()
    &&& forall|a: int|
        0 <= a < schemas.len() ==> by_hash.contains_key(schema_hash(#[trigger] schemas[a]))
            && by_hash[schema_hash(schemas[a])]@.contains(a as usize)
}

/// Listing the newest archetype under the hash of its schema keeps every
/// archetype listed.
proof fn lemma_hashes_step(
    before: Map<u64, Vec<usize>>,
    after: Map<u64, Vec<usize>>,
    schemas: Seq<Seq<ComponentId>>,
    ids: Seq<ComponentId>,
    prior: Seq<usize>,
    entered: Vec<usize>,
)
    requires
        schemas.len() < usize::MAX,
        hashes(before, schemas),
        before.contains_key(schema_hash(ids)) ==> prior == before[schema_hash(ids)]@,
        !before.contains_key(schema_hash(ids)) ==> prior == Seq::<usize>::empty(),
        entered@ == prior.push(schemas.len() as usize),
        after == before.remove(schema_hash(ids)).insert(schema_hash(ids), entered),
    ensures
        hashes(after, schemas.push(ids)),
{
    let hash = schema_hash(ids);
    let newest = schemas.len() as usize;
    let extended = schemas.push(ids);
    assert forall|other: u64, k: int| #[trigger] follows(after, other, k) implies after[other]@[k]
        < extended.len() by {
        if other == hash {
            if k < prior.len() {
                assert(follows(before, hash, k));
            }
        } else {
            assert(after[other] == before[other]);
            assert(follows(before, other, k));
        }
    }
    assert forall|a: int| 0 <= a < extended.len() implies after.contains_key(
        schema_hash(#[trigger] extended[a]),
    ) && after[schema_hash(extended[a])]@.contains(a as usize) by {
        if a < schemas.len() {
            assert(extended[a] == schemas[a]);
            let other = schema_hash(schemas[a]);
            assert(before.contains_key(other) && before[other]@.contains(a as usize));
            if other == hash {
                let l = prior.index_of(a as usize);
                assert(0 <= l < prior.len() && prior[l] == a);
                assert(entered@[l] == a);
            } else {
                assert(after[other] == before[other]);
            }
        } else {
            assert(extended[a] == ids);
            assert(entered@[prior.len() as int] == newest);
        }
    }
}

/// An archetype without components is held by no sparse set.
proof fn lemma_indexes_extend(per_component: Map<u64, SparseSet<usize>>, schemas: Seq<Seq<ComponentId>>)
    requires
        indexes(per_component, schemas),
    ensures
        indexes(per_component, schemas.push(Seq::<ComponentId>::empty())),
{
    let extended = schemas.push(Seq::<ComponentId>::empty());
    assert forall|c: u64, a: usize| #[trigger]
        lists(per_component, c, a) <==> (a < extended.len() && extended[a as int].contains(
            ComponentId { id: c },
        )) by {
        if a < schemas.len() {
            assert(extended[a as int] == schemas[a as int]);
        }
    }
    assert forall|c: u64, a: usize| #[trigger] lists(per_component, c, a) implies Some(
        per_component[c]@[a],
    ) == column_in(extended[a as int], ComponentId { id: c }) by {
        assert(extended[a as int] == schemas[a as int]);
    }
}

/// Entering the newest archetype under the id at `position` of its schema
/// brings the sparse sets one id further.
proof fn lemma_indexes_step(
    before: Map<u64, SparseSet<usize>>,
    after: Map<u64, SparseSet<usize>>,
    schemas: Seq<Seq<ComponentId>>,
    ids: Seq<ComponentId>,
    position: int,
    prior: SparseSet<usize>,
    entered: SparseSet<usize>,
)
    requires
        is_schema(ids),
        0 <= position < ids.len(),
        position <= usize::MAX,
        schemas.len() < usize::MAX,
        indexes(before, schemas.push(ids.subrange(0, position))),
        before.contains_key(ids[position].id) ==> prior == before[ids[position].id],
        !before.contains_key(ids[position].id) ==> prior@ == Map::<usize, usize>::empty(),
        entered.wf(),
        entered@ == prior@.insert(schemas.len() as usize, position as usize),
        after == before.remove(ids[position].id).insert(ids[position].id, entered),
    ensures
        indexes(after, schemas.push(ids.subrange(0, position + 1))),
{
    let newest = schemas.len() as usize;
    let id = ids[position];
    let shorter = ids.subrange(0, position);
    let longer = ids.subrange(0, position + 1);
    let old_schemas = schemas.push(shorter);
    let new_schemas = schemas.push(longer);
    assert(is_schema(longer));
    assert(is_schema(shorter));
    lemma_schema_position(longer, position);
    assert(longer[position] == id);
    assert(id == ComponentId { id: id.id });
    assert forall|other: ComponentId| other != id implies (longer.contains(other)
        <==> shorter.contains(other)) && (shorter.contains(other) ==> longer.index_of(other)
        == shorter.index_of(other)) by {
        if longer.contains(other) {
            let i = longer.index_of(other);
            assert(0 <= i < longer.len() && longer[i] == other);
            assert(shorter[i] == other);
        }
        if shorter.contains(other) {
            let i = shorter.index_of(other);
            assert(0 <= i < shorter.len() && shorter[i] == other);
            assert(longer[i] == other);
            lemma_schema_position(longer, i);
        }
    }
    assert(!shorter.contains(id)) by {
        if shorter.contains(id) {
            let i = shorter.index_of(id);
            assert(0 <= i < shorter.len() && shorter[i] == id);
            assert(ids[i].id < ids[position].id);
        }
    }
    assert forall|c: u64, a: usize| #[trigger]
        lists(after, c, a) <==> (a < new_schemas.len() && new_schemas[a as int].contains(
            ComponentId { id: c },
        )) by {
        let other = ComponentId { id: c };
        if a < schemas.len() {
            assert(new_schemas[a as int] == old_schemas[a as int]);
        }
        assert(lists(before, c, a) <==> (a < old_schemas.len() && old_schemas[a as int].contains(
            other,
        )));
        if c == id.id {
            assert(other == id);
            assert(after[c] == entered);
        } else {
            assert(other != id);
            assert(after.contains_key(c) <==> before.contains_key(c));
            if after.contains_key(c) {
                assert(after[c] == before[c]);
            }
        }
    }
    assert forall|c: u64, a: usize| #[trigger] lists(after, c, a) implies Some(after[c]@[a])
        == column_in(new_schemas[a as int], ComponentId { id: c }) by {
        let other = ComponentId { id: c };
        if a < schemas.len() {
            assert(new_schemas[a as int] == old_schemas[a as int]);
        }
        if c == id.id {
            assert(other == id);
            assert(after[c] == entered);
            if a != newest {
                assert(lists(before, c, a));
                assert(Some(before[c]@[a]) == column_in(old_schemas[a as int], other));
            }
        } else {
            assert(other != id);
            assert(after[c] == before[c]);
            assert(lists(before, c, a));
            assert(Some(before[c]@[a]) == column_in(old_schemas[a as int], other));
        }
    }
    assert forall|c: u64| #[trigger] after.contains_key(c) implies after[c].wf() by {
        if c != id.id {
            assert(before.contains_key(c));
            assert(after[c] == before[c]);
        }
    }
}

/// A copy of `ids`.
pub fn copy_ids(ids: &[ComponentId]) -> (copy: Vec<ComponentId>)
    ensures
        copy@ == ids@,
{
    let mut copy: Vec<ComponentId> = Vec::new();
    let mut i: usize = 0;
    while i < ids.len()
        invariant
            i <= ids@.len(),
            copy@ == ids@.subrange(0, i as int),
        decreases ids@.len() - i,
    {
        copy.push(ids[i]);
        assert(ids@.subrange(0, i + 1) =~= ids@.subrange(0, i as int).push(ids@[i as int]));
        i += 1;
    }
    assert(ids@.subrange(0, ids@.len() as int) =~= ids@);
    copy
}

/// Whether two lists hold the same ids in the same order.
pub fn same_ids(left: &Vec<ComponentId>, right: &[ComponentId]) -> (same: bool)
    ensures
        same == (left@ == right@),
{
    if left.len() != right.len() {
        return false;
    }
    let mut i: usize = 0;
    while i < left.len()
        invariant
            i <= left@.len(),
            left@.len() == right@.len(),
            forall|j: int| 0 <= j < i ==> left@[j] == right@[j],
        decreases left@.len() - i,
    {
        if left[i].id != right[i].id {
            return false;
        }
        i += 1;
    }
    assert(left@ =~= right@);
    true
}

/// How many archetypes the sparse sets list for `id`.
pub open spec fn holder_count(per_component: Map<u64, SparseSet<usize>>, id: ComponentId) -> int {
    if per_component.contains_key(id.id) {
        per_component[id.id].keys().len() as int
    } else {
        0
    }
}

/// How many of `total` archetypes a filter is expected to let through: the
/// count of archetypes that hold the id for `With`, the count of the others
/// for `Without`, and all of them for `Optional`.
pub open spec fn estimate_of(
    per_component: Map<u64, SparseSet<usize>>,
    total: int,
    filter: Filter,
) -> int {
    match filter.filter_type {
        FilterType::With => holder_count(per_component, filter.component_id),
        FilterType::Without => total - holder_count(per_component, filter.component_id),
        FilterType::Optional => total,
    }
}

/// `order` lists every position of `estimates`, those with smaller
/// estimates first.
pub open spec fn is_selectivity_order(order: Seq<usize>, estimates: Seq<int>) -> bool {
    &&& order.len() == estimates.len()
    &&& forall|k: int| 0 <= k < order.len() ==> (#[trigger] order[k]) < estimates.len()
    &&& forall|j: usize| j < estimates.len() ==> #[trigger] order.contains(j)
    &&& forall|k: int, l: int|
        0 <= k < l < order.len() ==> estimates[order[k] as int] <= estimates[order[l] as int]
}

/// A filter together with the sparse set of its component id, if any
/// archetype holds that id.
#[derive(Copy, Clone)]
pub struct FilterInfo<'a> {
    filter: Filter,
    component_id_to_archetypes: Option<&'a SparseSet<usize>>,
}

/// The sparse set of `info` lists the archetypes that hold its component id.
pub closed spec fn info_reflects(info: FilterInfo, schemas: Seq<Seq<ComponentId>>) -> bool {
    match info.component_id_to_archetypes {
        Some(archetypes) => {
            &&& archetypes.wf()
            &&& forall|a: usize| #[trigger]
                archetypes@.contains_key(a) <==> (a < schemas.len() && schemas[a as int].contains(
                    info.filter.component_id,
                ))
            &&& forall|a: usize| #[trigger]
                archetypes@.contains_key(a) ==> Some(archetypes@[a]) == column_in(
                    schemas[a as int],
                    info.filter.component_id,
                )
        },
        None => forall|a: int|
            0 <= a < schemas.len() ==> !(#[trigger] schemas[a]).contains(info.filter.component_id),
    }
}

/// The estimate of the filter of `info` among `total` archetypes.
pub closed spec fn estimate_spec(info: FilterInfo, total: usize) -> int {
    let holders: int = match info.component_id_to_archetypes {
        Some(archetypes) => archetypes.keys().len() as int,
        None => 0,
    };
    match info.filter.filter_type {
        FilterType::With => holders,
        FilterType::Without => total - holders,
        FilterType::Optional => total as int,
    }
}

/// The estimate of the filter of `info` among `total` archetypes.
fn estimate(info: &FilterInfo, total: usize, Ghost(schemas): Ghost<Seq<Seq<ComponentId>>>) -> (count: usize)
    requires
        info_reflects(*info, schemas),
        total == schemas.len(),
    ensures
        count == estimate_spec(*info, total),
{
    let holders: usize = match info.component_id_to_archetypes {
        Some(archetypes) => {
            proof {
                archetypes.lemma_dense_order();
                assert forall|i: int| 0 <= i < archetypes.keys().len() implies (
                #[trigger] archetypes.keys()[i]) < total by {
                    assert(archetypes@.contains_key(archetypes.keys()[i]));
                }
                crate::sparse_set::lemma_ascending_count(archetypes.keys(), total as int);
            }
            archetypes.len()
        },
        None => 0,
    };
    match info.filter.filter_type {
        FilterType::With => holders,
        FilterType::Without => total - holders,
        FilterType::Optional => total,
    }
}

/// The estimates as integers.
spec fn as_ints(estimates: Seq<usize>) -> Seq<int> {
    Seq::new(estimates.len(), |j: int| estimates[j] as int)
}

/// The positions of `estimates`, sorted by estimate; positions with equal
/// estimates keep their order.
fn selectivity_order(estimates: &Vec<usize>) -> (order: Vec<usize>)
    ensures
        is_selectivity_order(order@, as_ints(estimates@)),
{
    let mut order: Vec<usize> = Vec::new();
    let mut i: usize = 0;
    while i < estimates.len()
        invariant
            i <= estimates@.len(),
            order@.len() == i,
            forall|k: int| 0 <= k < order@.len() ==> (#[trigger] order@[k]) < i,
            forall|j: usize| j < i ==> #[trigger] order@.contains(j),
            forall|k: int, l: int|
                0 <= k < l < order@.len() ==> estimates@[order@[k] as int] <= estimates@[order@[l] as int],
        decreases estimates@.len() - i,
    {
        let mut slot: usize = order.len();
        while slot > 0 && estimates[order[slot - 1]] > estimates[i]
            invariant
                slot <= order@.len(),
                i < estimates@.len(),
                forall|k: int| 0 <= k < order@.len() ==> (#[trigger] order@[k]) < i,
                forall|k: int| slot <= k < order@.len()
                    ==> estimates@[order@[k] as int] > estimates@[i as int],
            decreases slot,
        {
            slot -= 1;
        }
        let ghost before = order@;
        order.insert(slot, i);
        proof {
            assert forall|j: usize| j < i + 1 implies #[trigger] order@.contains(j) by {
                if j < i {
                    assert(before.contains(j));
                    let k = before.index_of(j);
                    assert(0 <= k < before.len() && before[k] == j);
                    if k < slot {
                        assert(order@[k] == j);
                    } else {
                        assert(order@[k + 1] == j);
                    }
                } else {
                    assert(order@[slot as int] == j);
                }
            }
            assert forall|k: int| 0 <= k < order@.len() implies (#[trigger] order@[k]) < i + 1 by {
                if k < slot {
                    assert(order@[k] == before[k]);
                } else if k > slot {
                    assert(order@[k] == before[k - 1]);
                }
            }
            assert forall|k: int, l: int| 0 <= k < l < order@.len() implies estimates@[order@[k] as int]
                <= estimates@[order@[l] as int] by {
                let ek = if k < slot { k } else { k - 1 };
                let el = if l < slot { l } else { l - 1 };
                if k != slot {
                    assert(order@[k] == before[ek]);
                }
                if l != slot {
                    assert(order@[l] == before[el]);
                }
                if l == slot {
                    if slot > 0 {
                        assert(estimates@[before[slot - 1] as int] <= estimates@[i as int]);
                        if k < slot - 1 {
                            assert(estimates@[before[k] as int] <= estimates@[before[slot - 1] as int]);
                        }
                    }
                } else if k == slot {
                    assert(estimates@[before[el] as int] > estimates@[i as int]);
                } else {
                    assert(estimates@[before[ek] as int] <= estimates@[before[el] as int]);
                }
            }
        }
        i += 1;
    }
    order
}

/// A vector of `n` absent columns.
fn absent_columns(n: usize) -> (columns: Vec<Option<usize>>)
    ensures
        columns@.len() == n,
        forall|j: int| 0 <= j < n ==> columns@[j] == None::<usize>,
{
    let mut columns: Vec<Option<usize>> = Vec::new();
    let mut j: usize = 0;
    while j < n
        invariant
            j <= n,
            columns@.len() == j,
            forall|k: int| 0 <= k < j ==> columns@[k] == None::<usize>,
        decreases n - j,
    {
        columns.push(None);
        j += 1;
    }
    columns
}

/// Tests one filter on the archetype `archetype_index` by a lookup in the
/// filter's sparse set: `None` when the archetype does not pass, and the
/// column that the filter reports when it does.
fn evaluate(info: &FilterInfo, archetype_index: usize, Ghost(schemas): Ghost<Seq<Seq<ComponentId>>>) -> (outcome:
    Option<Option<usize>>)
    requires
        info_reflects(*info, schemas),
        archetype_index < schemas.len(),
    ensures
        outcome == if filter_admits(schemas[archetype_index as int], info.filter) {
            Some(filter_column(schemas[archetype_index as int], info.filter))
        } else {
            None
        },
{
    let column: Option<usize> = match info.component_id_to_archetypes {
        Some(archetypes) => match archetypes.get(archetype_index) {
            Some(column) => Some(*column),
            None => None,
        },
        None => None,
    };
    assert(column == column_in(schemas[archetype_index as int], info.filter.component_id));
    match info.filter.filter_type {
        FilterType::With => match column {
            Some(column) => Some(Some(column)),
            None => None,
        },
        FilterType::Without => match column {
            Some(_) => None,
            None => Some(None),
        },
        FilterType::Optional => Some(column),
    }
}

/// Whether `filter` asks for archetypes that hold its component.
fn is_with(filter: &Filter) -> (with: bool)
    ensures
        with == (filter.filter_type == FilterType::With),
{
    match filter.filter_type {
        FilterType::With => true,
        _ => false,
    }
}

impl ArchetypeLookup {
    /// The filter `filter` with the sparse set of its component id.
    fn filter_info<'a>(&'a self, filter: Filter) -> (info: FilterInfo<'a>)
        requires
            self.wf(),
        ensures
            info.filter == filter,
            info_reflects(info, self.schemas()),
            estimate_spec(info, self.total_archetype_count) == estimate_of(
                self.per_component(),
                self.schemas().len() as int,
                filter,
            ),
    {
        let archetypes = self.component_id_to_archetypes.get(&filter.component_id.id);
        let info = FilterInfo { filter, component_id_to_archetypes: archetypes };
        proof {
            let c = filter.component_id.id;
            let per_component = self.per_component();
            let schemas = self.schemas();
            assert(filter.component_id == ComponentId { id: c });
            match archetypes {
                Some(set) => {
                    assert(per_component.contains_key(c) && per_component[c] == *set);
                    assert forall|a: usize| #[trigger]
                        set@.contains_key(a) <==> (a < schemas.len() && schemas[a as int].contains(
                            filter.component_id,
                        )) by {
                        assert(lists(per_component, c, a) <==> set@.contains_key(a));
                    }
                    assert forall|a: usize| #[trigger] set@.contains_key(a) implies Some(set@[a])
                        == column_in(schemas[a as int], filter.component_id) by {
                        assert(lists(per_component, c, a));
                    }
                },
                None => {
                    assert forall|a: int| 0 <= a < schemas.len() implies !(#[trigger] schemas[a]).contains(
                        filter.component_id,
                    ) by {
                        assert(!lists(per_component, c, a as usize));
                    }
                },
            }
        }
        info
    }

    /// An iterator over the archetypes that pass every filter of `filters`.
    /// It yields them in ascending order of their index, each with one
    /// column per filter, in the order of `filters`.
    pub fn matching_archetype_iter<'a>(&'a self, filters: &[Filter]) -> (iter:
        MatchingArchetypeIterator<'a>)
        requires
            self.wf(),
        ensures
            iter.wf(),
            iter.filters() == filters@,
            iter.schemas() == self.schemas(),
            iter.remaining() == all_matches(self.schemas(), filters@),
            iter.estimates() == Seq::new(
                filters@.len(),
                |j: int| estimate_of(self.per_component(), self.schemas().len() as int, filters@[j]),
            ),
            is_selectivity_order(iter.order(), iter.estimates()),
    {
        let mut filter_info: Vec<FilterInfo<'a>> = Vec::new();
        let mut estimates: Vec<usize> = Vec::new();
        let mut i: usize = 0;
        while i < filters.len()
            invariant
                self.wf(),
                i <= filters@.len(),
                filter_info@.len() == i,
                estimates@.len() == i,
                forall|j: int|
                    0 <= j < i ==> {
                        &&& (#[trigger] filter_info@[j]).filter == filters@[j]
                        &&& info_reflects(filter_info@[j], self.schemas())
                        &&& estimates@[j] == estimate_spec(filter_info@[j], self.total_archetype_count)
                        &&& estimates@[j] == estimate_of(
                            self.per_component(),
                            self.schemas().len() as int,
                            filters@[j],
                        )
                    },
            decreases filters@.len() - i,
        {
            let info = self.filter_info(filters[i]);
            estimates.push(estimate(&info, self.total_archetype_count, Ghost(self.schemas())));
            filter_info.push(info);
            i += 1;
        }
        let order = selectivity_order(&estimates);
        let iter = MatchingArchetypeIterator {
            offset: 0,
            filter_info,
            order,
            total_archetypes_count: self.total_archetype_count,
            schemas: Ghost(self.schemas()),
        };
        proof {
            assert(iter.filters() =~= filters@);
            assert(iter.estimates() =~= as_ints(estimates@));
            assert(iter.estimates() =~= Seq::new(
                filters@.len(),
                |j: int| estimate_of(self.per_component(), self.schemas().len() as int, filters@[j]),
            ));
            self.lemma_schemas();
            assert(iter.wf_fixed());
            if iter.walks_set() {
                let lead = iter.order@[0] as int;
                assert(iter.order@[0] < iter.filter_info@.len());
                lemma_walk_start(self.schemas(), filters@, iter.filter_info@[lead], lead);
            }
        }
        iter
    }

    /// The archetypes that pass every filter of `filters`, in ascending
    /// order of their index, each with one column per filter.
    pub fn matching_archetypes(&self, filters: &[Filter]) -> (found: Vec<(usize, Vec<Option<usize>>)>)
        requires
            self.wf(),
        ensures
            matches_view(found@) == all_matches(self.schemas(), filters@),
            forall|k: int, l: int| 0 <= k < l < found@.len() ==> found@[k].0 < found@[l].0,
            forall|k: int|
                0 <= k < found@.len() ==> {
                    let a = (#[trigger] found@[k]).0;
                    &&& a < self.schemas().len()
                    &&& schema_matches(self.schemas()[a as int], filters@)
                    &&& found@[k].1@ == matched_columns(self.schemas()[a as int], filters@)
                },
    {
        let mut iter = self.matching_archetype_iter(filters);
        let mut found: Vec<(usize, Vec<Option<usize>>)> = Vec::new();
        let ghost all = all_matches(self.schemas(), filters@);
        assert(all =~= matches_view(found@) + iter.remaining());
        loop
            invariant
                self.wf(),
                iter.wf(),
                all == all_matches(self.schemas(), filters@),
                all == matches_view(found@) + iter.remaining(),
            decreases iter.remaining().len(),
        {
            let ghost before = matches_view(found@);
            let ghost rest = iter.remaining();
            match iter.next() {
                Some(item) => {
                    found.push(item);
                    assert(matches_view(found@) =~= before.push(rest[0]));
                    assert(before.push(rest[0]) + rest.drop_first() =~= before + rest);
                },
                None => {
                    assert(matches_view(found@) + iter.remaining() =~= matches_view(found@));
                    proof {
                        lemma_matches_bounded(self.schemas(), filters@, 0);
                        lemma_matches_members(self.schemas(), filters@, 0);
                        assert forall|k: int| 0 <= k < found@.len() implies {
                            let a = (#[trigger] found@[k]).0;
                            &&& a < self.schemas().len()
                            &&& schema_matches(self.schemas()[a as int], filters@)
                            &&& found@[k].1@ == matched_columns(self.schemas()[a as int], filters@)
                        } by {
                            assert(all[k] == (found@[k].0, found@[k].1@));
                            assert(is_matched_from(self.schemas(), filters@, 0, found@[k].0));
                        }
                        assert forall|k: int, l: int| 0 <= k < l < found@.len() implies found@[k].0
                            < found@[l].0 by {
                            assert(all[k].0 == found@[k].0);
                            assert(all[l].0 == found@[l].0);
                        }
                    }
                    return found;
                },
            }
        }
    }
}

/// Walks the archetypes that match a list of filters, in ascending order of
/// their index.
pub struct MatchingArchetypeIterator<'a> {
    /// With a leading `With` filter, a position in its sparse set; otherwise
    /// the next archetype index to test.
    offset: usize,
    /// One entry per filter, in the order of the filters as given.
    filter_info: Vec<FilterInfo<'a>>,
    /// The positions of the filters, the most selective first.
    order: Vec<usize>,
    total_archetypes_count: usize,
    schemas: Ghost<Seq<Seq<ComponentId>>>,
}

impl<'a> MatchingArchetypeIterator<'a> {
    /// The filters, in the order in which they were given.
    pub closed spec fn filters(&self) -> Seq<Filter> {
        Seq::new(self.filter_info@.len(), |j: int| self.filter_info@[j].filter)
    }

    /// The schemas of the archetypes that the iterator walks.
    pub closed spec fn schemas(&self) -> Seq<Seq<ComponentId>> {
        self.schemas@
    }

    /// The estimate of each filter.
    pub closed spec fn estimates(&self) -> Seq<int> {
        Seq::new(
            self.filter_info@.len(),
            |j: int| estimate_spec(self.filter_info@[j], self.total_archetypes_count),
        )
    }

    /// The most selective filter is a `With`, so its sparse set is walked.
    closed spec fn walks_set(&self) -> bool {
        self.order@.len() > 0 && self.filter_info@[self.order@[0] as int].filter.filter_type
            == FilterType::With
    }

    /// What does not change while the iterator advances.
    closed spec fn wf_fixed(&self) -> bool {
        &&& self.total_archetypes_count == self.schemas@.len()
        &&& forall|a: int| 0 <= a < self.schemas@.len() ==> (#[trigger] self.schemas@[a]).len() <= usize::MAX
        &&& forall|j: int|
            0 <= j < self.filter_info@.len() ==> info_reflects(
                #[trigger] self.filter_info@[j],
                self.schemas@,
            )
        &&& is_selectivity_order(self.order@, self.estimates())
    }

    /// The iterator reflects the index that it was made from and has not
    /// gone past the end of what it walks.
    pub closed spec fn wf(&self) -> bool {
        &&& self.wf_fixed()
        &&& if self.walks_set() {
            match self.filter_info@[self.order@[0] as int].component_id_to_archetypes {
                Some(archetypes) => self.offset <= archetypes.keys().len(),
                None => true,
            }
        } else {
            self.offset <= self.total_archetypes_count
        }
    }

    /// The archetype index from which the iterator still has to look.
    pub closed spec fn cursor(&self) -> int {
        if self.walks_set() {
            match self.filter_info@[self.order@[0] as int].component_id_to_archetypes {
                Some(archetypes) => if self.offset < archetypes.keys().len() {
                    archetypes.keys()[self.offset as int] as int
                } else {
                    self.schemas@.len() as int
                },
                None => self.schemas@.len() as int,
            }
        } else {
            self.offset as int
        }
    }

    /// The matches that the iterator has yet to yield.
    pub open spec fn remaining(&self) -> Seq<(usize, Seq<Option<usize>>)> {
        matches_from(self.schemas(), self.filters(), self.cursor())
    }

    /// The schemas that the iterator walks, and the ids of each, fit in
    /// memory.
    pub proof fn lemma_bounded(&self)
        requires
            self.wf(),
        ensures
            self.schemas().len() <= usize::MAX,
            forall|a: int|
                0 <= a < self.schemas().len() ==> (#[trigger] self.schemas()[a]).len() <= usize::MAX,
    {
    }

    /// The positions of the filters in the order in which they are tried.
    pub closed spec fn order(&self) -> Seq<usize> {
        self.order@
    }

    /// Tests the filters from position `skip` of the order on, entering the
    /// column of each into `columns`.
    fn match_filters(&self, archetype_index: usize, skip: usize, columns: Vec<Option<usize>>) -> (matched:
        Option<Vec<Option<usize>>>)
        requires
            self.wf_fixed(),
            archetype_index < self.schemas().len(),
            skip <= self.filters().len(),
            columns@.len() == self.filters().len(),
            forall|k: int|
                0 <= k < skip ==> {
                    let j = #[trigger] self.order@[k] as int;
                    &&& filter_admits(self.schemas()[archetype_index as int], self.filters()[j])
                    &&& columns@[j] == filter_column(
                        self.schemas()[archetype_index as int],
                        self.filters()[j],
                    )
                },
        ensures
            match matched {
                Some(columns) => schema_matches(
                    self.schemas()[archetype_index as int],
                    self.filters(),
                ) && columns@ == matched_columns(
                    self.schemas()[archetype_index as int],
                    self.filters(),
                ),
                None => !schema_matches(self.schemas()[archetype_index as int], self.filters()),
            },
    {
        let ghost schema = self.schemas()[archetype_index as int];
        let mut columns = columns;
        let mut k: usize = skip;
        while k < self.order.len()
            invariant
                self.wf_fixed(),
                archetype_index < self.schemas().len(),
                schema == self.schemas()[archetype_index as int],
                k <= self.order@.len(),
                columns@.len() == self.filters().len(),
                forall|l: int|
                    0 <= l < k ==> {
                        let j = #[trigger] self.order@[l] as int;
                        &&& filter_admits(schema, self.filters()[j])
                        &&& columns@[j] == filter_column(schema, self.filters()[j])
                    },
            decreases self.order@.len() - k,
        {
            let j = self.order[k];
            assert(self.order@[k as int] < self.filter_info@.len());
            assert(info_reflects(self.filter_info@[j as int], self.schemas@));
            match evaluate(&self.filter_info[j], archetype_index, Ghost(self.schemas@)) {
                Some(column) => {
                    let ghost before = columns@;
                    columns[j] = column;
                    assert forall|l: int| 0 <= l < k + 1 implies {
                        let j2 = #[trigger] self.order@[l] as int;
                        &&& filter_admits(schema, self.filters()[j2])
                        &&& columns@[j2] == filter_column(schema, self.filters()[j2])
                    } by {
                        let j2 = self.order@[l] as int;
                        if l < k {
                            assert(before[j2] == filter_column(schema, self.filters()[j2]));
                        }
                    }
                },
                None => {
                    assert(!filter_admits(schema, self.filters()[j as int]));
                    return None;
                },
            }
            k += 1;
        }
        proof {
            assert forall|j: int| 0 <= j < self.filters().len() implies filter_admits(
                schema,
                #[trigger] self.filters()[j],
            ) && columns@[j] == filter_column(schema, self.filters()[j]) by {
                assert(self.order@.contains(j as usize));
                let l = self.order@.index_of(j as usize);
                assert(0 <= l < self.order@.len() && self.order@[l] == j);
            }
            assert(columns@ =~= matched_columns(schema, self.filters()));
        }
        Some(columns)
    }

    /// The next match: the archetype's index and, for each filter, the column
    /// that the filter reports. `None` once no archetype is left.
    pub fn next(&mut self) -> (item: Option<(usize, Vec<Option<usize>>)>)
        requires
            old(self).wf(),
        ensures
            final(self).wf(),
            final(self).filters() == old(self).filters(),
            final(self).schemas() == old(self).schemas(),
            match item {
                Some((archetype_index, columns)) => {
                    &&& old(self).remaining().len() > 0
                    &&& (archetype_index, columns@) == old(self).remaining()[0]
                    &&& final(self).remaining() == old(self).remaining().drop_first()
                },
                None => old(self).remaining().len() == 0 && final(self).remaining().len() == 0,
            },
    {
        let count = self.filter_info.len();
        let ghost schemas = self.schemas();
        let ghost filters = self.filters();
        if count > 0 && is_with(&self.filter_info[self.order[0]].filter) {
            let lead = self.order[0];
            assert(self.order@[0] < self.filter_info@.len());
            assert(info_reflects(self.filter_info@[lead as int], self.schemas@));
            match self.filter_info[lead].component_id_to_archetypes {
                Some(matching_archetypes) => {
                    proof {
                        matching_archetypes.lemma_dense_order();
                    }
                    while self.offset < matching_archetypes.len()
                        invariant
                            self.wf(),
                            self.walks_set(),
                            self.filter_info == old(self).filter_info,
                            self.order == old(self).order,
                            self.schemas == old(self).schemas,
                            self.total_archetypes_count == old(self).total_archetypes_count,
                            schemas == self.schemas(),
                            filters == self.filters(),
                            count == self.filter_info@.len(),
                            lead == self.order@[0],
                            lead < count,
                            self.filter_info@[lead as int].component_id_to_archetypes == Some(
                                matching_archetypes,
                            ),
                            info_reflects(self.filter_info@[lead as int], schemas),
                            matching_archetypes.wf(),
                            self.remaining() == old(self).remaining(),
                        decreases matching_archetypes.keys().len() - self.offset,
                    {
                        let archetype_index = matching_archetypes.key_at(self.offset);
                        let column = *matching_archetypes.value_at(self.offset);
                        let ghost position = self.offset as int;
                        proof {
                            assert(matching_archetypes@.contains_key(archetype_index));
                            assert(archetype_index < schemas.len());
                            assert(filters[lead as int] == self.filter_info@[lead as int].filter);
                        }
                        self.offset += 1;
                        let mut columns = absent_columns(count);
                        columns[lead] = Some(column);
                        proof {
                            lemma_walk_step(
                                schemas,
                                filters,
                                self.filter_info@[lead as int],
                                lead as int,
                                matching_archetypes,
                                position,
                            );
                        }
                        match self.match_filters(archetype_index, 1, columns) {
                            Some(columns) => {
                                return Some((archetype_index, columns));
                            },
                            None => {},
                        }
                    }
                    None
                },
                None => None,
            }
        } else {
            while self.offset < self.total_archetypes_count
                invariant
                    self.wf(),
                    !self.walks_set(),
                    self.filter_info == old(self).filter_info,
                    self.order == old(self).order,
                    self.schemas == old(self).schemas,
                    self.total_archetypes_count == old(self).total_archetypes_count,
                    schemas == self.schemas(),
                    filters == self.filters(),
                    count == self.filter_info@.len(),
                    self.remaining() == old(self).remaining(),
                decreases self.total_archetypes_count - self.offset,
            {
                let archetype_index = self.offset;
                self.offset += 1;
                let columns = absent_columns(count);
                match self.match_filters(archetype_index, 0, columns) {
                    Some(columns) => {
                        assert(old(self).remaining() == seq![
                            (archetype_index, matched_columns(schemas[archetype_index as int], filters)),
                        ] + self.remaining());
                        assert(self.remaining() =~= old(self).remaining().drop_first());
                        return Some((archetype_index, columns));
                    },
                    None => {},
                }
            }
            None
        }
    }
}

/// Between two neighbouring keys of the sparse set of a `With` filter, and
/// after the last one, no archetype matches.
proof fn lemma_walk_step(
    schemas: Seq<Seq<ComponentId>>,
    filters: Seq<Filter>,
    info: FilterInfo,
    lead: int,
    archetypes: &SparseSet<usize>,
    position: int,
)
    requires
        schemas.len() <= usize::MAX,
        0 <= lead < filters.len(),
        filters[lead] == info.filter,
        info.filter.filter_type == FilterType::With,
        info.component_id_to_archetypes == Some(archetypes),
        info_reflects(info, schemas),
        0 <= position < archetypes.keys().len(),
    ensures
        archetypes.keys()[position] < schemas.len(),
        filter_admits(schemas[archetypes.keys()[position] as int], filters[lead]),
        filter_column(schemas[archetypes.keys()[position] as int], filters[lead]) == Some(
            archetypes.values()[position],
        ),
        matches_from(schemas, filters, archetypes.keys()[position] + 1) == matches_from(
            schemas,
            filters,
            if position + 1 < archetypes.keys().len() {
                archetypes.keys()[position + 1] as int
            } else {
                schemas.len() as int
            },
        ),
{
    archetypes.lemma_dense_order();
    let keys = archetypes.keys();
    let here = keys[position];
    assert(archetypes@.contains_key(here));
    let next: int = if position + 1 < keys.len() {
        keys[position + 1] as int
    } else {
        schemas.len() as int
    };
    if position + 1 < keys.len() {
        assert(archetypes@.contains_key(keys[position + 1]));
    }
    assert forall|a: int| here + 1 <= a < next implies !schema_matches(
        #[trigger] schemas[a],
        filters,
    ) by {
        if archetypes@.contains_key(a as usize) {
            assert(keys.contains(a as usize));
            let i = keys.index_of(a as usize);
            assert(0 <= i < keys.len() && keys[i] == a);
            if i <= position {
                if i < position {
                    assert(keys[i] < keys[position]);
                }
            } else {
                if position + 1 < i {
                    assert(keys[position + 1] < keys[i]);
                }
            }
        }
        assert(!filter_admits(schemas[a], filters[lead]));
    }
    lemma_matches_skip(schemas, filters, here + 1, next);
}

/// Before the first key of the sparse set of a `With` filter no archetype
/// matches, and none at all where no archetype holds its id.
proof fn lemma_walk_start(
    schemas: Seq<Seq<ComponentId>>,
    filters: Seq<Filter>,
    info: FilterInfo,
    lead: int,
)
    requires
        schemas.len() <= usize::MAX,
        0 <= lead < filters.len(),
        filters[lead] == info.filter,
        info.filter.filter_type == FilterType::With,
        info_reflects(info, schemas),
    ensures
        matches_from(schemas, filters, 0) == matches_from(
            schemas,
            filters,
            match info.component_id_to_archetypes {
                Some(archetypes) => if archetypes.keys().len() > 0 {
                    archetypes.keys()[0] as int
                } else {
                    schemas.len() as int
                },
                None => schemas.len() as int,
            },
        ),
{
    match info.component_id_to_archetypes {
        Some(archetypes) => {
            archetypes.lemma_dense_order();
            let keys = archetypes.keys();
            let first: int = if keys.len() > 0 {
                keys[0] as int
            } else {
                schemas.len() as int
            };
            if keys.len() > 0 {
                assert(archetypes@.contains_key(keys[0]));
            }
            assert forall|a: int| 0 <= a < first implies !schema_matches(
                #[trigger] schemas[a],
                filters,
            ) by {
                if archetypes@.contains_key(a as usize) {
                    assert(keys.contains(a as usize));
                    let i = keys.index_of(a as usize);
                    assert(0 <= i < keys.len() && keys[i] == a);
                    if 0 < i {
                        assert(keys[0] < keys[i]);
                    }
                }
                assert(!filter_admits(schemas[a], filters[lead]));
            }
            lemma_matches_skip(schemas, filters, 0, first);
        },
        None => {
            assert forall|a: int| 0 <= a < schemas.len() implies !schema_matches(
                #[trigger] schemas[a],
                filters,
            ) by {
                assert(!filter_admits(schemas[a], filters[lead]));
            }
            lemma_matches_skip(schemas, filters, 0, schemas.len() as int);
        },
    }
}

} // verus!

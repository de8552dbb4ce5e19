use crate::entity::{ids_of, Document, Entity, EntityView};
use std::collections::HashMap;
use vstd::prelude::*;
use vstd::relations::{sorted_by, total_ordering};
use vstd::seq_lib::lemma_sorted_unique;

verus! {

/// Every identifier is smaller than the ones after it.
pub open spec fn strictly_ascending(ids: Seq<u64>) -> bool {
    forall|i: int, j: int| 0 <= i < j < ids.len() ==> ids[i] < ids[j]
}

/// No two entities of the document share an identifier.
pub open spec fn unique_ids(entities: Seq<EntityView>) -> bool {
    ids_of(entities).no_duplicates()
}

/// The document's identifiers in ascending order.
pub open spec fn sorted_ids(entities: Seq<EntityView>) -> Seq<u64> {
    ids_of(entities).sort_by(|a: u64, b: u64| a <= b)
}

/// The entity that carries `id`; arbitrary where the document has none.
pub open spec fn entity_with_id(entities: Seq<EntityView>, id: u64) -> EntityView {
    entities[ids_of(entities).index_of(id)]
}

/// `position` is the first place in `ids` that repeats an earlier
/// identifier.
pub open spec fn first_repeat(ids: Seq<u64>, position: int) -> bool {
    &&& 0 <= position < ids.len()
    &&& ids.take(position).no_duplicates()
    &&& ids.take(position).contains(ids[position])
}

/// A strictly ascending sequence with the elements of a duplicate-free
/// sequence is that sequence sorted.
pub proof fn lemma_ascending_is_sorted(ascending: Seq<u64>, all: Seq<u64>)
    requires
        strictly_ascending(ascending),
        all.no_duplicates(),
        ascending.to_set() == all.to_set(),
    ensures
        ascending == all.sort_by(|a: u64, b: u64| a <= b),
{
    broadcast use vstd::seq_lib::group_to_multiset_ensures;

    let leq = |a: u64, b: u64| a <= b;
    assert(total_ordering(leq));
    all.lemma_sort_by_ensures(leq);
    assert(ascending.no_duplicates());
    ascending.lemma_multiset_has_no_duplicates();
    all.lemma_multiset_has_no_duplicates();
    assert forall|x: u64| ascending.to_multiset().count(x) == all.to_multiset().count(x) by {
        assert(ascending.contains(x) == ascending.to_set().contains(x));
        assert(all.contains(x) == all.to_set().contains(x));
    }
    assert(ascending.to_multiset() =~= all.to_multiset());
    assert(sorted_by(ascending, leq));
    lemma_sorted_unique(ascending, all.sort_by(leq), leq);
}

/// The identifiers in ascending order are the identifiers of the document:
/// none is lost and none is made up.
pub proof fn lemma_sorted_ids_members(entities: Seq<EntityView>)
    ensures
        forall|id: u64| sorted_ids(entities).contains(id) <==> ids_of(entities).contains(id),
{
    broadcast use vstd::seq_lib::group_to_multiset_ensures;

    let leq = |a: u64, b: u64| a <= b;
    let all = ids_of(entities);
    let sorted = sorted_ids(entities);
    assert(total_ordering(leq));
    all.lemma_sort_by_ensures(leq);
    assert forall|id: u64| sorted.contains(id) <==> all.contains(id) by {
        assert(sorted.contains(id) <==> sorted.to_multiset().count(id) > 0);
        assert(all.contains(id) <==> all.to_multiset().count(id) > 0);
    }
}

/// What holds of a duplicate-free document's identifiers in ascending
/// order: they ascend strictly, and they are the document's identifiers,
/// each once.
pub proof fn lemma_sorted_ids(entities: Seq<EntityView>)
    requires
        unique_ids(entities),
    ensures
        strictly_ascending(sorted_ids(entities)),
        sorted_ids(entities).no_duplicates(),
        sorted_ids(entities).len() == entities.len(),
        forall|id: u64| sorted_ids(entities).contains(id) <==> ids_of(entities).contains(id),
{
    broadcast use vstd::seq_lib::group_to_multiset_ensures;

    let leq = |a: u64, b: u64| a <= b;
    let all = ids_of(entities);
    let sorted = sorted_ids(entities);
    assert(total_ordering(leq));
    all.lemma_sort_by_ensures(leq);
    all.lemma_multiset_has_no_duplicates();
    sorted.lemma_multiset_has_no_duplicates_conv();
    assert forall|i: int, j: int| 0 <= i < j < sorted.len() implies sorted[i] < sorted[j] by {
        assert(leq(sorted[i], sorted[j]));
    }
    assert(sorted.to_multiset().len() == all.to_multiset().len());
    lemma_sorted_ids_members(entities);
}

/// Puts `id` into an ascending vector at the place that keeps it
/// ascending.
fn insert_ascending(ids: &mut Vec<u64>, id: u64)
    requires
        strictly_ascending(old(ids)@),
        !old(ids)@.contains(id),
    ensures
        strictly_ascending(final(ids)@),
        final(ids)@.to_set() == old(ids)@.to_set().insert(id),
        final(ids)@.len() == old(ids)@.len() + 1,
{
    // Documents list their entities by growing identifier as a rule, so
    // the place is looked for from the end.
    let mut at: usize = ids.len();
    while at > 0 && ids[at - 1] > id
        invariant
            at <= ids.len(),
            *ids == *old(ids),
            forall|k: int| at <= k < ids.len() ==> id < ids[k],
        decreases at,
    {
        at -= 1;
    }
    ids.insert(at, id);
    proof {
        let before = old(ids)@;
        let after = ids@;
        assert forall|i: int, j: int| 0 <= i < j < after.len() implies after[i] < after[j] by {
            if at > 0 {
                assert(before[at - 1] != id) by {
                    assert(before.contains(before[at - 1]));
                }
            }
        }
        assert forall|x: u64| after.to_set().contains(x) == before.to_set().insert(id).contains(
            x,
        ) by {
            if after.contains(x) {
                let k = choose|k: int| 0 <= k < after.len() && after[k] == x;
                if k < at {
                    assert(before[k] == x);
                } else if k > at {
                    assert(before[k - 1] == x);
                }
            }
            if before.contains(x) {
                let k = choose|k: int| 0 <= k < before.len() && before[k] == x;
                if k < at {
                    assert(after[k] == x);
                } else {
                    assert(after[k + 1] == x);
                }
            }
            if x == id {
                assert(after[at as int] == x);
            }
        }
        assert(after.to_set() =~= before.to_set().insert(id));
    }
}

/// Two entities of one document carry the same identifier.
#[derive(Clone, Copy, Debug, PartialEq, Eq)]
pub struct DuplicateId {
    /// The identifier that occurs twice.
    pub id: u64,
    /// The place in the document, counted from zero, of the first entity
    /// that repeats an identifier.
    pub position: usize,
}

/// One document with its identifiers in ascending order and the place of
/// each, so that an entity is found by its identifier.
#[derive(Debug)]
pub struct EntityIndex {
    document: Document,
    ids: Vec<u64>,
    positions: HashMap<u64, usize>,
}

impl View for EntityIndex {
    type V = Seq<EntityView>;

    closed spec fn view(&self) -> Seq<EntityView> {
        self.document@
    }
}

impl EntityIndex {
    #[verifier::type_invariant]
    closed spec fn inv(&self) -> bool {
        &&& unique_ids(self.document@)
        &&& self.ids@ == sorted_ids(self.document@)
        &&& forall|id: u64| self.positions@.contains_key(id) <==> ids_of(self.document@).contains(id)
        &&& forall|id: u64| #[trigger]
            self.positions@.contains_key(id) ==> self.positions@[id] < self.document@.len()
                && self.document@[self.positions@[id] as int].id == id
    }

    /// Indexes a document. Fails where two of its entities share an
    /// identifier, and names the first entity that repeats one.
    pub fn new(document: Document) -> (result: Result<EntityIndex, DuplicateId>)
        ensures
            result is Ok <==> unique_ids(document@),
            match result {
                Ok(index) => index@ == document@,
                Err(duplicate) => first_repeat(ids_of(document@), duplicate.position as int)
                    && duplicate.id == ids_of(document@)[duplicate.position as int],
            },
    {
        broadcast use vstd::std_specs::hash::group_hash_axioms;

        let ghost all = ids_of(document@);
        let mut ids: Vec<u64> = Vec::new();
        let mut positions: HashMap<u64, usize> = HashMap::new();
        let mut i: usize = 0;
        let count = document.entities.len();
        while i < count
            invariant
                i <= count == document.entities.len(),
                all == ids_of(document@),
                all.take(i as int).no_duplicates(),
                strictly_ascending(ids@),
                ids@.to_set() == all.take(i as int).to_set(),
                forall|id: u64| positions@.contains_key(id) <==> all.take(i as int).contains(id),
                forall|id: u64| #[trigger]
                    positions@.contains_key(id) ==> positions@[id] < i && all[positions@[id] as int]
                        == id,
            decreases count - i,
        {
            let id = document.entities[i].id();
            assert(all[i as int] == id);
            let ghost seen = all.take(i as int);
            if positions.contains_key(&id) {
                proof {
                    assert(all.no_duplicates() ==> false) by {
                        if all.no_duplicates() {
                            let k = choose|k: int| 0 <= k < seen.len() && seen[k] == id;
                            assert(all[k] == all[i as int]);
                        }
                    }
                }
                return Err(DuplicateId { id, position: i });
            }
            proof {
                assert(!ids@.contains(id)) by {
                    assert(ids@.contains(id) == ids@.to_set().contains(id));
                }
            }
            insert_ascending(&mut ids, id);
            positions.insert(id, i);
            proof {
                let next = all.take(i + 1);
                assert(next =~= seen.push(id));
                assert(next.to_set() =~= seen.to_set().insert(id)) by {
                    seen.lemma_push_to_set_commute(id);
                }
                assert(next.no_duplicates());
                assert forall|x: u64| positions@.contains_key(x) <==> next.contains(x) by {
                    if x == id {
                        assert(next[i as int] == x);
                    } else {
                        assert(next.contains(x) == next.to_set().contains(x));
                        assert(seen.contains(x) == seen.to_set().contains(x));
                    }
                }
            }
            i += 1;
        }
        proof {
            assert(all.take(i as int) =~= all);
            lemma_ascending_is_sorted(ids@, all);
        }
        Ok(EntityIndex { document, ids, positions })
    }

    /// The indexed document.
    pub fn document(&self) -> (document: &Document)
        ensures
            document@ == self@,
            unique_ids(self@),
    {
        proof {
            use_type_invariant(self);
        }
        &self.document
    }

    /// The identifiers of the document in ascending order, each once.
    pub fn ids(&self) -> (ids: &Vec<u64>)
        ensures
            ids@ == sorted_ids(self@),
            unique_ids(self@),
    {
        proof {
            use_type_invariant(self);
        }
        &self.ids
    }

    /// Whether the document has an entity with this identifier.
    pub fn contains(&self, id: u64) -> (present: bool)
        ensures
            present == ids_of(self@).contains(id),
    {
        broadcast use vstd::std_specs::hash::group_hash_axioms;

        proof {
            use_type_invariant(self);
        }
        self.positions.contains_key(&id)
    }

    /// The entity that carries `id`, where the document has one.
    pub fn find_entity_by_id(&self, id: &u64) -> (found: Option<&Entity>)
        ensures
            found is Some <==> ids_of(self@).contains(*id),
            found matches Some(entity) ==> entity@ == entity_with_id(self@, *id),
    {
        broadcast use vstd::std_specs::hash::group_hash_axioms;

        proof {
            use_type_invariant(self);
        }
        match self.positions.get(id) {
            Some(position) => {
                proof {
                    let all = ids_of(self@);
                    let p = *position as int;
                    assert(all[p] == *id);
                    let q = all.index_of(*id);
                    assert(0 <= q < all.len() && all[q] == *id);
                }
                Some(&self.document.entities[*position])
            },
            None => None,
        }
    }
}

} // verus!

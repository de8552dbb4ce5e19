use crate::delta::{
    delta_of, field_delta, lemma_unchanged_iff_same_mapping, str_pairs_view, strs_view, DeltaView,
};
use crate::entity::{field_map, ids_of, Entity, EntityView};
use crate::index::{
    entity_with_id, lemma_sorted_ids, lemma_sorted_ids_members, sorted_ids, strictly_ascending,
    unique_ids, EntityIndex,
};
use vstd::prelude::*;

verus! {

/// What the comparison found of one entity. The entities and strings are
/// borrowed from the two indexes that were compared.
#[derive(Debug)]
pub enum DiffOutcome<'a> {
    /// The entity is in the new document only.
    Added(&'a Entity),
    /// The entity is in the old document only.
    Removed(&'a Entity),
    /// The entity is in both documents with different mappings: the entity
    /// as the old document has it, and what changed.
    Modified {
        entity: &'a Entity,
        added_fields: Vec<(&'a str, &'a str)>,
        removed_fields: Vec<&'a str>,
        modified_fields: Vec<(&'a str, &'a str)>,
    },
}

/// An outcome as the contracts see it.
pub enum OutcomeView {
    Added(EntityView),
    Removed(EntityView),
    Modified { entity: EntityView, delta: DeltaView },
}

impl<'a> View for DiffOutcome<'a> {
    type V = OutcomeView;

    open spec fn view(&self) -> OutcomeView {
        match *self {
            DiffOutcome::Added(entity) => OutcomeView::Added(entity@),
            DiffOutcome::Removed(entity) => OutcomeView::Removed(entity@),
            DiffOutcome::Modified { entity, added_fields, removed_fields, modified_fields } =>
                OutcomeView::Modified {
                entity: entity@,
                delta: DeltaView {
                    added: str_pairs_view(added_fields@),
                    removed: strs_view(removed_fields@),
                    modified: str_pairs_view(modified_fields@),
                },
            },
        }
    }
}

/// The outcomes of a vector, each taken by its view.
pub open spec fn outcomes_view(outcomes: Seq<DiffOutcome>) -> Seq<OutcomeView> {
    outcomes.map_values(|o: DiffOutcome| o@)
}

/// The identifiers that only the new document has, ascending.
pub open spec fn added_ids(old: Seq<EntityView>, new: Seq<EntityView>) -> Seq<u64> {
    sorted_ids(new).filter(|id: u64| !ids_of(old).contains(id))
}

/// The identifiers that only the old document has, ascending.
pub open spec fn removed_ids(old: Seq<EntityView>, new: Seq<EntityView>) -> Seq<u64> {
    sorted_ids(old).filter(|id: u64| !ids_of(new).contains(id))
}

/// The identifiers that both documents have, ascending.
pub open spec fn common_ids(old: Seq<EntityView>, new: Seq<EntityView>) -> Seq<u64> {
    sorted_ids(old).filter(|id: u64| ids_of(new).contains(id))
}

/// Whether the two documents give the entity `id` different mappings,
/// whatever the order of the fields.
pub open spec fn is_changed(old: Seq<EntityView>, new: Seq<EntityView>, id: u64) -> bool {
    field_map(entity_with_id(old, id).fields) != field_map(entity_with_id(new, id).fields)
}

/// The common identifiers whose entity changed, ascending.
pub open spec fn changed_ids(old: Seq<EntityView>, new: Seq<EntityView>) -> Seq<u64> {
    common_ids(old, new).filter(|id: u64| is_changed(old, new, id))
}

/// One outcome for each added entity, as the new document has it.
pub open spec fn added_outcomes(old: Seq<EntityView>, new: Seq<EntityView>) -> Seq<OutcomeView> {
    added_ids(old, new).map_values(|id: u64| OutcomeView::Added(entity_with_id(new, id)))
}

/// One outcome for each removed entity, as the old document has it.
pub open spec fn removed_outcomes(old: Seq<EntityView>, new: Seq<EntityView>) -> Seq<
    OutcomeView,
> {
    removed_ids(old, new).map_values(|id: u64| OutcomeView::Removed(entity_with_id(old, id)))
}

/// The outcome for a changed entity: the entity as the old document has
/// it, and what changed on the way to the new one.
pub open spec fn modified_outcome(old: EntityView, new: EntityView) -> OutcomeView {
    OutcomeView::Modified { entity: old, delta: delta_of(old.fields, new.fields) }
}

/// One outcome for each changed entity.
pub open spec fn modified_outcomes(old: Seq<EntityView>, new: Seq<EntityView>) -> Seq<
    OutcomeView,
> {
    changed_ids(old, new).map_values(
        |id: u64| modified_outcome(entity_with_id(old, id), entity_with_id(new, id)),
    )
}

/// What the comparison of two documents finds: the added entities, then
/// the removed ones, then the changed ones, each group by ascending
/// identifier.
pub open spec fn diff_outcomes(old: Seq<EntityView>, new: Seq<EntityView>) -> Seq<OutcomeView> {
    added_outcomes(old, new) + removed_outcomes(old, new) + modified_outcomes(old, new)
}

/// A filter keeps exactly the members that pass it.
proof fn lemma_filter_members(ids: Seq<u64>, keep: spec_fn(u64) -> bool, id: u64)
    ensures
        ids.filter(keep).contains(id) <==> ids.contains(id) && keep(id),
{
    let kept = ids.filter(keep);
    if kept.contains(id) {
        let k = choose|k: int| 0 <= k < kept.len() && kept[k] == id;
        ids.lemma_filter_pred(keep, k);
        ids.lemma_filter_contains_rev(keep, id);
    }
    if ids.contains(id) && keep(id) {
        let i = choose|i: int| 0 <= i < ids.len() && ids[i] == id;
        ids.lemma_filter_contains(keep, i);
    }
}

/// Which identifiers are added, removed and common: an added one is in the
/// new document only, a removed one in the old document only, a common one
/// in both.
pub proof fn lemma_id_groups(old: Seq<EntityView>, new: Seq<EntityView>)
    ensures
        forall|id: u64| #[trigger]
            added_ids(old, new).contains(id) <==> ids_of(new).contains(id) && !ids_of(
                old,
            ).contains(id),
        forall|id: u64| #[trigger]
            removed_ids(old, new).contains(id) <==> ids_of(old).contains(id) && !ids_of(
                new,
            ).contains(id),
        forall|id: u64| #[trigger]
            common_ids(old, new).contains(id) <==> ids_of(old).contains(id) && ids_of(
                new,
            ).contains(id),
        forall|id: u64| #[trigger]
            changed_ids(old, new).contains(id) <==> ids_of(old).contains(id) && ids_of(
                new,
            ).contains(id) && is_changed(old, new, id),
{
    lemma_sorted_ids_members(old);
    lemma_sorted_ids_members(new);
    assert forall|id: u64| #[trigger]
        added_ids(old, new).contains(id) <==> ids_of(new).contains(id) && !ids_of(old).contains(
            id,
        ) by {
        lemma_filter_members(sorted_ids(new), |id: u64| !ids_of(old).contains(id), id);
    }
    assert forall|id: u64| #[trigger]
        removed_ids(old, new).contains(id) <==> ids_of(old).contains(id) && !ids_of(new).contains(
            id,
        ) by {
        lemma_filter_members(sorted_ids(old), |id: u64| !ids_of(new).contains(id), id);
    }
    assert forall|id: u64| #[trigger]
        common_ids(old, new).contains(id) <==> ids_of(old).contains(id) && ids_of(new).contains(
            id,
        ) by {
        lemma_filter_members(sorted_ids(old), |id: u64| ids_of(new).contains(id), id);
    }
    assert forall|id: u64| #[trigger]
        changed_ids(old, new).contains(id) <==> ids_of(old).contains(id) && ids_of(new).contains(
            id,
        ) && is_changed(old, new, id) by {
        lemma_filter_members(sorted_ids(old), |id: u64| ids_of(new).contains(id), id);
        lemma_filter_members(common_ids(old, new), |id: u64| is_changed(old, new, id), id);
    }
}

/// No identifier is both added and removed, and the added, the removed and
/// the common identifiers together are the identifiers of both documents.
pub proof fn lemma_ids_partition(old: Seq<EntityView>, new: Seq<EntityView>)
    ensures
        added_ids(old, new).to_set().disjoint(removed_ids(old, new).to_set()),
        added_ids(old, new).to_set().disjoint(common_ids(old, new).to_set()),
        removed_ids(old, new).to_set().disjoint(common_ids(old, new).to_set()),
        added_ids(old, new).to_set().union(removed_ids(old, new).to_set()).union(
            common_ids(old, new).to_set(),
        ) == ids_of(old).to_set().union(ids_of(new).to_set()),
{
    lemma_id_groups(old, new);
    let added = added_ids(old, new).to_set();
    let removed = removed_ids(old, new).to_set();
    let common = common_ids(old, new).to_set();
    assert forall|id: u64|
        added.union(removed).union(common).contains(id) == ids_of(old).to_set().union(
            ids_of(new).to_set(),
        ).contains(id) by {
        assert(added.contains(id) == added_ids(old, new).contains(id));
        assert(removed.contains(id) == removed_ids(old, new).contains(id));
        assert(common.contains(id) == common_ids(old, new).contains(id));
    }
    assert(added.union(removed).union(common) =~= ids_of(old).to_set().union(
        ids_of(new).to_set(),
    ));
}

/// With unique identifiers in both documents, no identifier comes twice
/// among the outcomes: each group ascends strictly.
pub proof fn lemma_groups_ascend(old: Seq<EntityView>, new: Seq<EntityView>)
    requires
        unique_ids(old),
        unique_ids(new),
    ensures
        strictly_ascending(added_ids(old, new)),
        strictly_ascending(removed_ids(old, new)),
        strictly_ascending(common_ids(old, new)),
        strictly_ascending(changed_ids(old, new)),
{
    lemma_sorted_ids(old);
    lemma_sorted_ids(new);
    lemma_filter_ascends(sorted_ids(new), |id: u64| !ids_of(old).contains(id));
    lemma_filter_ascends(sorted_ids(old), |id: u64| !ids_of(new).contains(id));
    lemma_filter_ascends(sorted_ids(old), |id: u64| ids_of(new).contains(id));
    lemma_filter_ascends(common_ids(old, new), |id: u64| is_changed(old, new, id));
}

/// What a filter keeps of an ascending sequence ascends.
proof fn lemma_filter_ascends(ids: Seq<u64>, keep: spec_fn(u64) -> bool)
    requires
        strictly_ascending(ids),
    ensures
        strictly_ascending(ids.filter(keep)),
        forall|k: int|
            0 <= k < ids.filter(keep).len() ==> ids.contains(#[trigger] ids.filter(keep)[k]),
    decreases ids.len(),
{
    reveal(Seq::filter);
    if ids.len() > 0 {
        let shorter = ids.drop_last();
        lemma_filter_ascends(shorter, keep);
        let kept = shorter.filter(keep);
        assert forall|k: int| 0 <= k < kept.len() implies kept[k] < ids.last() by {
            assert(shorter.contains(kept[k]));
            let i = choose|i: int| 0 <= i < shorter.len() && shorter[i] == kept[k];
            assert(ids[i] < ids[ids.len() - 1]);
        }
        assert forall|k: int| 0 <= k < ids.filter(keep).len() implies ids.contains(
            #[trigger] ids.filter(keep)[k],
        ) by {
            if k < kept.len() {
                let i = choose|i: int| 0 <= i < shorter.len() && shorter[i] == kept[k];
                assert(ids[i] == kept[k]);
            } else {
                assert(ids[ids.len() - 1] == ids.filter(keep)[k]);
            }
        }
    }
}

/// An entity whose mapping is the same in both documents, in whatever
/// order its fields stand, is not among the changed ones, and so gets no
/// modify record.
pub proof fn lemma_same_mapping_is_unchanged(
    old: Seq<EntityView>,
    new: Seq<EntityView>,
    id: u64,
)
    requires
        field_map(entity_with_id(old, id).fields) == field_map(entity_with_id(new, id).fields),
    ensures
        !changed_ids(old, new).contains(id),
{
    lemma_id_groups(old, new);
}

/// A document compared with itself has nothing added, removed or changed.
pub proof fn lemma_self_diff_is_empty(document: Seq<EntityView>)
    ensures
        added_ids(document, document).len() == 0,
        removed_ids(document, document).len() == 0,
        changed_ids(document, document).len() == 0,
        diff_outcomes(document, document) == Seq::<OutcomeView>::empty(),
{
    lemma_id_groups(document, document);
    let added = added_ids(document, document);
    let removed = removed_ids(document, document);
    let changed = changed_ids(document, document);
    if added.len() > 0 {
        assert(added.contains(added[0]));
    }
    if removed.len() > 0 {
        assert(removed.contains(removed[0]));
    }
    if changed.len() > 0 {
        assert(changed.contains(changed[0]));
    }
    assert(diff_outcomes(document, document) =~= Seq::<OutcomeView>::empty());
}

/// Lists the entities of `from` that `other` lacks, by ascending
/// identifier.
fn only_in<'a>(from: &'a EntityIndex, other: &EntityIndex) -> (found: Vec<&'a Entity>)
    ensures
        found@.map_values(|e: &Entity| e@) == sorted_ids(from@).filter(
            |id: u64| !ids_of(other@).contains(id),
        ).map_values(|id: u64| entity_with_id(from@, id)),
{
    let ids = from.ids();
    let ghost absent = |id: u64| !ids_of(other@).contains(id);
    let ghost fetch = |id: u64| entity_with_id(from@, id);
    let ghost look = |e: &Entity| e@;
    let mut found: Vec<&'a Entity> = Vec::new();
    proof {
        lemma_sorted_ids(from@);
        assert(ids@.take(0).filter(absent) =~= Seq::empty()) by {
            reveal(Seq::filter);
        }
    }
    let mut i: usize = 0;
    while i < ids.len()
        invariant
            i <= ids.len(),
            ids@ == sorted_ids(from@),
            forall|id: u64| sorted_ids(from@).contains(id) <==> ids_of(from@).contains(id),
            absent == |id: u64| !ids_of(other@).contains(id),
            fetch == |id: u64| entity_with_id(from@, id),
            look == |e: &Entity| e@,
            found@.map_values(look) == ids@.take(i as int).filter(absent).map_values(fetch),
        decreases ids.len() - i,
    {
        let id = ids[i];
        let ghost seen = ids@.take(i as int);
        proof {
            assert(ids@.take(i + 1) =~= seen.push(id));
            seen.lemma_filter_push(id, absent);
            assert(ids@.contains(id));
        }
        if !other.contains(id) {
            match from.find_entity_by_id(&id) {
                Some(entity) => {
                    let ghost before = found@;
                    found.push(entity);
                    proof {
                        assert(found@.map_values(look) =~= before.map_values(look).push(
                            fetch(id),
                        ));
                        seen.filter(absent).lemma_push_map_commute(fetch, id);
                    }
                },
                None => {
                    assert(false);
                },
            }
        }
        i += 1;
    }
    assert(ids@.take(i as int) =~= ids@);
    found
}

/// Compares two indexed documents.
pub fn diff<'a>(old: &'a EntityIndex, new: &'a EntityIndex) -> (outcomes: Vec<DiffOutcome<'a>>)
    ensures
        outcomes_view(outcomes@) == diff_outcomes(old@, new@),
{
    let mut outcomes: Vec<DiffOutcome<'a>> = Vec::new();
    let ghost look = |e: &Entity| e@;

    let added = only_in(new, old);
    let mut a: usize = 0;
    while a < added.len()
        invariant
            a <= added.len(),
            look == |e: &Entity| e@,
            added@.map_values(look).map_values(|e: EntityView| OutcomeView::Added(e))
                == added_outcomes(old@, new@),
            outcomes_view(outcomes@) == added_outcomes(old@, new@).take(a as int),
        decreases added.len() - a,
    {
        let ghost before = outcomes@;
        outcomes.push(DiffOutcome::Added(added[a]));
        assert(outcomes_view(outcomes@) =~= outcomes_view(before).push(
            OutcomeView::Added(added[a as int]@),
        ));
        assert(added_outcomes(old@, new@).take(a + 1) =~= added_outcomes(old@, new@).take(
            a as int,
        ).push(OutcomeView::Added(added[a as int]@)));
        a += 1;
    }
    assert(outcomes_view(outcomes@) =~= added_outcomes(old@, new@));

    let removed = only_in(old, new);
    let mut r: usize = 0;
    while r < removed.len()
        invariant
            r <= removed.len(),
            look == |e: &Entity| e@,
            removed@.map_values(look).map_values(|e: EntityView| OutcomeView::Removed(e))
                == removed_outcomes(old@, new@),
            outcomes_view(outcomes@) == added_outcomes(old@, new@) + removed_outcomes(
                old@,
                new@,
            ).take(r as int),
        decreases removed.len() - r,
    {
        let ghost before = outcomes@;
        outcomes.push(DiffOutcome::Removed(removed[r]));
        assert(outcomes_view(outcomes@) =~= outcomes_view(before).push(
            OutcomeView::Removed(removed[r as int]@),
        ));
        assert(removed_outcomes(old@, new@).take(r + 1) =~= removed_outcomes(old@, new@).take(
            r as int,
        ).push(OutcomeView::Removed(removed[r as int]@)));
        r += 1;
    }
    assert(outcomes_view(outcomes@) =~= added_outcomes(old@, new@) + removed_outcomes(
        old@,
        new@,
    ));

    let ids = old.ids();
    let ghost shared = |id: u64| ids_of(new@).contains(id);
    let ghost differs = |id: u64| is_changed(old@, new@, id);
    let ghost judge = |id: u64| modified_outcome(entity_with_id(old@, id), entity_with_id(new@, id));
    let ghost first = added_outcomes(old@, new@) + removed_outcomes(old@, new@);
    proof {
        lemma_sorted_ids(old@);
        assert(ids@.take(0).filter(shared).filter(differs) =~= Seq::empty()) by {
            reveal(Seq::filter);
        }
    }
    let mut i: usize = 0;
    while i < ids.len()
        invariant
            i <= ids.len(),
            ids@ == sorted_ids(old@),
            forall|id: u64| sorted_ids(old@).contains(id) <==> ids_of(old@).contains(id),
            shared == |id: u64| ids_of(new@).contains(id),
            differs == |id: u64| is_changed(old@, new@, id),
            judge == |id: u64|
                modified_outcome(entity_with_id(old@, id), entity_with_id(new@, id)),
            first == added_outcomes(old@, new@) + removed_outcomes(old@, new@),
            outcomes_view(outcomes@) == first + ids@.take(i as int).filter(shared).filter(
                differs,
            ).map_values(judge),
        decreases ids.len() - i,
    {
        let id = ids[i];
        let ghost seen = ids@.take(i as int);
        proof {
            assert(ids@.take(i + 1) =~= seen.push(id));
            seen.lemma_filter_push(id, shared);
            seen.filter(shared).lemma_filter_push(id, differs);
            assert(ids@.contains(id));
        }
        if new.contains(id) {
            match (old.find_entity_by_id(&id), new.find_entity_by_id(&id)) {
                (Some(before), Some(after)) => {
                    let delta = field_delta(before, after);
                    proof {
                        use_type_invariant(before);
                        lemma_unchanged_iff_same_mapping(before@.fields, after@.fields);
                    }
                    if !delta.is_empty() {
                        let ghost so_far = outcomes@;
                        outcomes.push(
                            DiffOutcome::Modified {
                                entity: before,
                                added_fields: delta.added,
                                removed_fields: delta.removed,
                                modified_fields: delta.modified,
                            },
                        );
                        proof {
                            assert(outcomes_view(outcomes@) =~= outcomes_view(so_far).push(
                                judge(id),
                            ));
                            seen.filter(shared).filter(differs).lemma_push_map_commute(judge, id);
                        }
                    }
                },
                _ => {
                    assert(false);
                },
            }
        }
        i += 1;
    }
    assert(ids@.take(i as int) =~= ids@);
    outcomes
}

} // verus!

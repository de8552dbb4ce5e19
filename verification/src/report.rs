use crate::diff::{
    added_outcomes, diff, diff_outcomes, lemma_self_diff_is_empty, modified_outcomes,
    outcomes_view, removed_outcomes, DiffOutcome, OutcomeView,
};
use crate::emit::{emit_record, record_of, MissingField, MissingFieldView};
use crate::entity::{ids_of, Document, EntityView, Text};
use crate::index::{first_repeat, unique_ids, DuplicateId, EntityIndex};
use vstd::prelude::*;

verus! {

/// What a comparison puts out: the records, one after another, and the
/// entities that were passed over because a record could not name them.
#[derive(Debug, PartialEq, Eq)]
pub struct DiffReport {
    /// The text of all records that were written.
    pub output: String,
    /// One entry for each outcome that was left without a record, in the
    /// order of the outcomes.
    pub skipped: Vec<MissingField>,
}

/// A report as the contracts see it.
pub struct ReportView {
    pub output: Text,
    pub skipped: Seq<MissingFieldView>,
}

impl View for DiffReport {
    type V = ReportView;

    open spec fn view(&self) -> ReportView {
        ReportView {
            output: self.output@,
            skipped: self.skipped@.map_values(|m: MissingField| m@),
        }
    }
}

impl DiffReport {
    /// Whether every outcome got its record.
    pub fn is_complete(&self) -> (complete: bool)
        ensures
            complete == (self@.skipped.len() == 0),
    {
        self.skipped.len() == 0
    }
}

/// A document cannot be compared because two of its entities share an
/// identifier.
#[derive(Clone, Copy, Debug, PartialEq, Eq)]
pub enum DiffError {
    /// The old document repeats an identifier.
    DuplicateInOld(DuplicateId),
    /// The new document repeats an identifier.
    DuplicateInNew(DuplicateId),
}

/// The report for a sequence of outcomes: each outcome adds its record to
/// the output, or, where it has none, an entry to the list of those passed
/// over.
pub open spec fn render(outcomes: Seq<OutcomeView>) -> ReportView
    decreases outcomes.len(),
{
    if outcomes.len() == 0 {
        ReportView { output: Seq::empty(), skipped: Seq::empty() }
    } else {
        let before = render(outcomes.drop_last());
        match record_of(outcomes.last()) {
            Ok(text) => ReportView { output: before.output + text, skipped: before.skipped },
            Err(missing) => ReportView {
                output: before.output,
                skipped: before.skipped.push(missing),
            },
        }
    }
}

/// The report for one list of outcomes after another is the first report
/// with the second one behind it.
pub proof fn lemma_render_concat(first: Seq<OutcomeView>, second: Seq<OutcomeView>)
    ensures
        render(first + second).output == render(first).output + render(second).output,
        render(first + second).skipped == render(first).skipped + render(second).skipped,
    decreases second.len(),
{
    if second.len() == 0 {
        assert(first + second =~= first);
        assert(render(first + second).output =~= render(first).output + render(second).output);
        assert(render(first + second).skipped =~= render(first).skipped + render(second).skipped);
    } else {
        let shorter = second.drop_last();
        lemma_render_concat(first, shorter);
        assert((first + second).drop_last() =~= first + shorter);
        assert((first + second).last() == second.last());
        assert(render(first + second).output =~= render(first).output + render(second).output);
        assert(render(first + second).skipped =~= render(first).skipped + render(second).skipped);
    }
}

/// In the output of a comparison all add records come before all filter
/// records, and these before all modify records.
pub proof fn lemma_records_in_groups(old: Seq<EntityView>, new: Seq<EntityView>)
    ensures
        render(diff_outcomes(old, new)).output == render(added_outcomes(old, new)).output + render(
            removed_outcomes(old, new),
        ).output + render(modified_outcomes(old, new)).output,
        render(diff_outcomes(old, new)).skipped == render(added_outcomes(old, new)).skipped
            + render(removed_outcomes(old, new)).skipped + render(
            modified_outcomes(old, new),
        ).skipped,
{
    lemma_render_concat(added_outcomes(old, new), removed_outcomes(old, new));
    lemma_render_concat(
        added_outcomes(old, new) + removed_outcomes(old, new),
        modified_outcomes(old, new),
    );
}

/// A document compared with itself gives an empty report.
pub proof fn lemma_self_diff_reports_nothing(document: Seq<EntityView>)
    ensures
        render(diff_outcomes(document, document)).output == Seq::<char>::empty(),
        render(diff_outcomes(document, document)).skipped == Seq::<MissingFieldView>::empty(),
{
    lemma_self_diff_is_empty(document);
}

/// Writes the records for a list of outcomes. An outcome whose entity lacks
/// a field that its record needs is noted and passed over; the others are
/// written all the same.
pub fn render_outcomes(outcomes: &Vec<DiffOutcome>) -> (report: DiffReport)
    ensures
        report@ == render(outcomes_view(outcomes@)),
{
    let ghost all = outcomes_view(outcomes@);
    let mut output = String::new();
    let mut skipped: Vec<MissingField> = Vec::new();
    let mut i: usize = 0;
    while i < outcomes.len()
        invariant
            i <= outcomes.len(),
            all == outcomes_view(outcomes@),
            output@ == render(all.take(i as int)).output,
            skipped@.map_values(|m: MissingField| m@) == render(all.take(i as int)).skipped,
        decreases outcomes.len() - i,
    {
        assert(all.take(i + 1).drop_last() =~= all.take(i as int));
        assert(all.take(i + 1).last() == outcomes[i as int]@);
        match emit_record(&outcomes[i]) {
            Ok(text) => {
                output.append(text.as_str());
            },
            Err(missing) => {
                let ghost before = skipped@;
                skipped.push(missing);
                assert(skipped@.map_values(|m: MissingField| m@) =~= before.map_values(
                    |m: MissingField| m@,
                ).push(missing@));
            },
        }
        i += 1;
    }
    assert(all.take(i as int) =~= all);
    DiffReport { output, skipped }
}

/// Compares two documents and writes the records that turn the old one
/// into the new one: the added entities, then the removed ones, then the
/// changed ones, each group by ascending identifier. Fails where a document
/// repeats an identifier; the old document is looked at first.
pub fn diff_documents(old: Document, new: Document) -> (result: Result<DiffReport, DiffError>)
    ensures
        result is Ok <==> unique_ids(old@) && unique_ids(new@),
        match result {
            Ok(report) => report@ == render(diff_outcomes(old@, new@)),
            Err(DiffError::DuplicateInOld(duplicate)) => {
                &&& first_repeat(ids_of(old@), duplicate.position as int)
                &&& duplicate.id == ids_of(old@)[duplicate.position as int]
            },
            Err(DiffError::DuplicateInNew(duplicate)) => {
                &&& unique_ids(old@)
                &&& first_repeat(ids_of(new@), duplicate.position as int)
                &&& duplicate.id == ids_of(new@)[duplicate.position as int]
            },
        },
{
    let old_index = match EntityIndex::new(old) {
        Ok(index) => index,
        Err(duplicate) => {
            return Err(DiffError::DuplicateInOld(duplicate));
        },
    };
    let new_index = match EntityIndex::new(new) {
        Ok(index) => index,
        Err(duplicate) => {
            return Err(DiffError::DuplicateInNew(duplicate));
        },
    };
    let outcomes = diff(&old_index, &new_index);
    Ok(render_outcomes(&outcomes))
}

} // verus!

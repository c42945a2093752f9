//! The whole rewrite of a codebase: the order of its steps, and what is computed in between.

use vstd::prelude::*;

use crate::collections::StringSet;
use crate::moodle::components::ComponentDiscovery;
use crate::moodle::entrypoints::ClassificationView;
use crate::moodle::entrypoints::FileClassification;
use crate::moodle::entrypoints::ScannedFiles;
use crate::moodle::entrypoints::classification_views;
use crate::moodle::entrypoints::classified;
use crate::moodle::entrypoints::classify;
use crate::moodle::scan::CategorisedReference;
use crate::moodle::scan::Codebase;
use crate::moodle::scan::ReferenceView;
use crate::moodle::scan::Scan;
use crate::moodle::scan::categorise_all;
use crate::moodle::scan::categorised_files;
use crate::moodle::scan::codebase;
use crate::moodle::scan::reference_views;
use crate::progress::Progress;
use crate::progress::stepped;
use crate::report::document::csv_document;
use crate::report::paths::path_header;
use crate::rewrite::decide::is_static;
use crate::rewrite::output::after_row;
use crate::rewrite::output::audit_rows;
use crate::rewrite::output::write_audit;
use crate::rewrite::output::write_csv;
use crate::rewrite::splice::Plan;
use crate::rewrite::splice::can_plan;
use crate::rewrite::splice::placed;
use crate::rewrite::splice::plan;
use crate::rewrite::splice::plannable;
use crate::text::concat;
use crate::text::concat3;
use crate::text::copy;
use crate::text::decimal;
use crate::text::decimal_of;
use crate::text::texts;

verus! {

// ---------------------------------------------------------------------------------------------
// The order of the steps.

/// One step of the rewrite of a codebase.
#[derive(Debug, Clone, Copy, PartialEq, Eq, Structural)]
pub enum RewriteStep {
    /// The root of the codebase must be a directory.
    CheckRoot,
    /// The patches are read from their archive.
    ReadPatches,
    /// The patches are applied, in order, up to the first that fails.
    ApplyPatches,
    /// The patched codebase is scanned.
    Scan,
    /// The audit trail is opened; only where the path scans are asked for.
    OpenAudit,
    /// The eligible references are rewritten on disk.
    RewriteFiles,
    /// The audit trail is completed; only where the path scans are asked for.
    FinishAudit,
    /// The rewritten codebase is scanned.
    Rescan,
    /// The path scan after the rewrite is written; only where the path scans are asked for.
    WriteAfter,
}

/// The steps of a rewrite, in order.
pub open spec fn rewrite_steps(with_output: bool) -> Seq<RewriteStep> {
    if with_output {
        seq![
            RewriteStep::CheckRoot,
            RewriteStep::ReadPatches,
            RewriteStep::ApplyPatches,
            RewriteStep::Scan,
            RewriteStep::OpenAudit,
            RewriteStep::RewriteFiles,
            RewriteStep::FinishAudit,
            RewriteStep::Rescan,
            RewriteStep::WriteAfter,
        ]
    } else {
        seq![
            RewriteStep::CheckRoot,
            RewriteStep::ReadPatches,
            RewriteStep::ApplyPatches,
            RewriteStep::Scan,
            RewriteStep::RewriteFiles,
            RewriteStep::Rescan,
        ]
    }
}

/// Where a rewrite begins.
pub fn first_rewrite_step() -> (r: RewriteStep)
    ensures
        forall|with_output: bool| r == (#[trigger] rewrite_steps(with_output))[0],
{
    RewriteStep::CheckRoot
}

/// How far a rewrite has come after `step`, given whether that succeeded and whether the path scans
/// before and after the rewrite are asked for. A step is one of the rewrite's.
pub fn next_rewrite_step(step: RewriteStep, ok: bool, with_output: bool) -> (r: Progress<RewriteStep>)
    requires
        rewrite_steps(with_output).contains(step),
    ensures
        r == stepped(rewrite_steps(with_output), step, ok),
{
    proof {
        rewrite_steps_differ(with_output);
        let at = rewrite_steps(with_output).index_of(step);
        assert(rewrite_steps(with_output)[at] == step);
    }
    if !ok {
        return Progress::Failed;
    }
    match step {
        RewriteStep::CheckRoot => Progress::Next(RewriteStep::ReadPatches),
        RewriteStep::ReadPatches => Progress::Next(RewriteStep::ApplyPatches),
        RewriteStep::ApplyPatches => Progress::Next(RewriteStep::Scan),
        RewriteStep::Scan => if with_output {
            Progress::Next(RewriteStep::OpenAudit)
        } else {
            Progress::Next(RewriteStep::RewriteFiles)
        },
        RewriteStep::OpenAudit => Progress::Next(RewriteStep::RewriteFiles),
        RewriteStep::RewriteFiles => if with_output {
            Progress::Next(RewriteStep::FinishAudit)
        } else {
            Progress::Next(RewriteStep::Rescan)
        },
        RewriteStep::FinishAudit => Progress::Next(RewriteStep::Rescan),
        RewriteStep::Rescan => if with_output {
            Progress::Next(RewriteStep::WriteAfter)
        } else {
            Progress::Succeeded
        },
        RewriteStep::WriteAfter => Progress::Succeeded,
    }
}

/// A rewrite takes no step twice, so that [`crate::progress::steps_are_taken_in_order`] speaks of it.
pub proof fn rewrite_steps_differ(with_output: bool)
    ensures
        rewrite_steps(with_output).no_duplicates(),
{
}

// ---------------------------------------------------------------------------------------------
// What is computed.

/// What running the whole rewrite process produced, for a caller that wants to build on the result.
#[derive(Debug)]
pub struct RewriteOutcome {
    pub discovered: ComponentDiscovery,
    pub rewritten: usize,
    /// Every bootstrap-relevant file, classified before the rewrite: a rewritten require is one that
    /// the scan cannot see.
    pub entry_points: Vec<FileClassification>,
}

/// What is decided of a scanned codebase before anything in it is rewritten.
#[derive(Debug)]
pub struct Preparation {
    /// Every path reference.
    pub references: Vec<CategorisedReference>,
    /// Every bootstrap-relevant file.
    pub entry_points: Vec<FileClassification>,
    /// The names of the bootstrap-relevant files.
    pub entry_point_files: StringSet,
    /// What is to be done with the references.
    pub plan: Plan,
}

/// The names of classified files.
pub open spec fn file_names(list: Seq<ClassificationView>) -> Seq<Seq<char>> {
    Seq::new(list.len(), |i: int| list[i].file)
}

/// The bootstrap-relevant files of a scanned codebase.
pub open spec fn entry_point_names(scan: &Scan) -> Set<Seq<char>> {
    Set::new(
        |file: Seq<char>| file_names(classified(scan.files@, scan.notation.segment())).contains(file),
    )
}

/// Whether the place of each reference that is replaced is known.
pub open spec fn all_placed(references: Seq<ReferenceView>, entry_points: Set<Seq<char>>) -> bool {
    forall|i: int| 0 <= i < references.len() ==> placed(#[trigger] references[i], entry_points)
}

impl Preparation {
    /// Whether this is what is decided of the codebase of `scan`.
    pub open spec fn of(&self, scan: &Scan, dirroot: Seq<char>) -> bool {
        let references = categorised_files(codebase(scan, dirroot), scan.files@);
        &&& reference_views(self.references@) == references
        &&& classification_views(self.entry_points@) == classified(scan.files@, scan.notation.segment())
        &&& self.entry_point_files@ == entry_point_names(scan)
        &&& self.plan.of(references, entry_point_names(scan))
    }
}

/// A reference that is categorised by its component has a target.
proof fn categorised_references_have_targets(base: Codebase, files: ScannedFiles, i: int)
    requires
        0 <= i < categorised_files(base, files).len(),
        is_static(categorised_files(base, files)[i].category),
    ensures
        categorised_files(base, files)[i].target is Some,
    decreases files.len(),
{
    let before = categorised_files(base, files.drop_last());
    if i < before.len() {
        assert(categorised_files(base, files)[i] == before[i]);
        categorised_references_have_targets(base, files.drop_last(), i);
    } else {
        let reference = categorised_files(base, files)[i];
        let file = files.last();
        let k = i - before.len();
        assert(reference == crate::moodle::scan::categorised(base, file.0@, file.1@[k]@));
    }
}

/// The names of the bootstrap-relevant files.
fn names_of(entry_points: &Vec<FileClassification>) -> (names: StringSet)
    ensures
        forall|file: Seq<char>| #[trigger]
            names@.contains(file) == file_names(classification_views(entry_points@)).contains(file),
{
    let ghost all = file_names(classification_views(entry_points@));
    let mut names = StringSet::new();
    let mut i: usize = 0;
    while i < entry_points.len()
        invariant
            i <= entry_points.len(),
            all == file_names(classification_views(entry_points@)),
            all.len() == entry_points.len(),
            forall|file: Seq<char>| #[trigger] names@.contains(file) == all.take(i as int).contains(file),
        decreases entry_points.len() - i,
    {
        let ghost had = names@;
        let ghost name = all[i as int];
        names.insert(copy(&entry_points[i].file));
        assert forall|file: Seq<char>| #[trigger] names@.contains(file) == all.take(i + 1).contains(file) by {
            assert(had.contains(file) == all.take(i as int).contains(file));
            assert(all.take(i + 1) =~= all.take(i as int).push(name));
            crate::collections::contains_push(all.take(i as int), name, file);
        }
        i += 1;
    }
    assert(all.take(i as int) =~= all);
    names
}

/// Decides what is to be rewritten in the codebase of `scan`; `dirroot` is dirroot's own path relative
/// to the repository root, with no leading or trailing slash. `None` exactly if the place of some
/// reference that is to be replaced is not known.
///
/// The bootstrap-relevant files are classified here, before other files' requires are turned into
/// `\core\component::component_path(...)` calls that the scan cannot see.
pub fn prepare(scan: &Scan, dirroot: &str) -> (r: Option<Preparation>)
    ensures
        r is Some == all_placed(categorised_files(codebase(scan, dirroot@), scan.files@), entry_point_names(scan)),
        r matches Some(preparation) ==> preparation.of(scan, dirroot@),
{
    let references = categorise_all(scan, dirroot);
    let entry_points = classify(&scan.files, &scan.notation);
    let entry_point_files = names_of(&entry_points);
    let ghost base = codebase(scan, dirroot@);
    let ghost all = categorised_files(base, scan.files@);
    proof {
        assert(entry_point_files@ =~= entry_point_names(scan));
        assert forall|i: int| 0 <= i < all.len() implies plannable(#[trigger] all[i], entry_point_files@) == placed(
            all[i],
            entry_point_files@,
        ) by {
            if is_static(all[i].category) {
                categorised_references_have_targets(base, scan.files@, i);
            }
        }
    }
    if !can_plan(&references, &entry_point_files) {
        return None;
    }
    let plan = plan(&references, &entry_point_files);
    assert(all_placed(all, entry_point_files@)) by {
        assert forall|i: int| 0 <= i < all.len() implies placed(#[trigger] all[i], entry_point_files@) by {
            assert(plannable(all[i], entry_point_files@));
        }
    }
    Some(Preparation { references, entry_points, entry_point_files, plan })
}

/// The audit trail of a rewrite: every reference as it was before, with what it was rewritten to.
pub fn audit_report(preparation: &Preparation) -> (r: String)
    requires
        preparation.references@.len() == preparation.plan.rewritten_to@.len(),
    ensures
        r@ == csv_document(
            seq![path_header(true, true).push("rewritten_to"@)] + audit_rows(
                reference_views(preparation.references@),
                texts(preparation.plan.rewritten_to@),
            ),
        ),
{
    write_audit(&preparation.references, &preparation.plan.rewritten_to)
}

/// A preparation says of every reference what it is rewritten to, so that an audit trail can be made
/// of it.
pub proof fn every_reference_is_accounted_for(preparation: &Preparation, scan: &Scan, dirroot: Seq<char>)
    requires
        preparation.of(scan, dirroot),
    ensures
        preparation.references@.len() == preparation.plan.rewritten_to@.len(),
{
    assert(reference_views(preparation.references@).len() == preparation.references@.len());
    assert(texts(preparation.plan.rewritten_to@).len() == preparation.plan.rewritten_to@.len());
}

/// The path scan of a rewritten codebase, which says of each reference whether it still needs to be
/// rewritten, given the bootstrap-relevant files from before the rewrite.
pub fn after_report(scan: &Scan, dirroot: &str, entry_point_files: &StringSet) -> (r: String)
    ensures
        r@ == csv_document(
            seq![path_header(true, true).push("still_needs_rewrite"@)] + Seq::new(
                categorised_files(codebase(scan, dirroot@), scan.files@).len(),
                |i: int|
                    after_row(
                        categorised_files(codebase(scan, dirroot@), scan.files@)[i],
                        entry_point_files@,
                    ),
            ),
        ),
{
    let references = categorise_all(scan, dirroot);
    let ghost base = codebase(scan, dirroot@);
    let ghost all = categorised_files(base, scan.files@);
    proof {
        assert(reference_views(references@).len() == references@.len());
        assert forall|i: int| 0 <= i < references@.len() implies (is_static((#[trigger] references@[i]).category)
            ==> references@[i].target is Some) by {
            assert(reference_views(references@)[i] == references@[i]@);
            if is_static(references@[i].category) {
                categorised_references_have_targets(base, scan.files@, i);
            }
        }
        assert(Seq::new(references@.len(), |i: int| after_row(references@[i]@, entry_point_files@)) =~= Seq::new(
            all.len(),
            |i: int| after_row(all[i], entry_point_files@),
        )) by {
            assert forall|i: int| 0 <= i < references@.len() implies references@[i]@ == all[i] by {
                assert(reference_views(references@)[i] == references@[i]@);
            }
        }
    }
    write_csv(&references, entry_point_files)
}

/// What is said once `rewritten` references have been rewritten.
pub fn rewrote_message(rewritten: usize) -> (r: String)
    ensures
        r@ == "Rewrote "@ + decimal(rewritten as nat) + " path reference"@ + if rewritten == 1 {
            ""@
        } else {
            "s"@
        },
{
    let start = concat3("Rewrote ", &decimal_of(rewritten as u64), " path reference");
    concat(
        &start,
        if rewritten == 1 {
            ""
        } else {
            "s"
        },
    )
}

} // verus!

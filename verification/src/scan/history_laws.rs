//! What holds of a scan whatever is done with it, from its start on.
use crate::clock::Timestamp;
use crate::order::sorted;
use crate::scan::cache::{CacheKey, CachedModel};
use crate::scan::data::{
    EntryMetadata, MetadataFingerprint, ScanOptions, ScannedModel, TreeIndex, MAX_SCAN_JOBS,
};
use crate::scan::estimate_laws::{
    estimates_are_bounded, law_a_fresh_scan_is_in_order,
    law_background_work_per_directory_stays_bounded, law_canceling_adds_no_background_work,
    law_listing_ahead_adds_no_background_work, law_requests_add_no_background_work,
    law_warming_adds_no_background_work,
};
use crate::scan::job_laws::{
    are_expected, has_one_summary, has_room_for_all, jobs_are_accounted_for,
    law_background_work_leaves_room, law_listing_ahead_keeps_jobs_accounted_for,
    law_requests_keep_jobs_accounted_for, law_running_jobs_stay_accounted_for,
    law_warming_keeps_jobs_accounted_for, lemma_integrate_all_keeps,
};
use crate::scan::keeps::{
    lemma_cancel_keeps, lemma_ensure_scanned_keeps, lemma_fresh_scan_is_well_formed,
    lemma_same_marks, lemma_same_tree, lemma_settle_keeps, lemma_start_waiting_keeps,
};
use crate::scan::listing::shown_node;
use crate::scan::model::{
    fresh_scan, lists_children_of, sized_children, some_job_summarizes, DrainModel, ReportModel,
    ScanModel, SizedChild,
};
use crate::scan::once_laws::{
    law_a_fresh_scan_lets_no_summary_wait, law_known_directories_are_left_alone,
    law_listing_ahead_keeps_listings_for_summaries, law_reports_keep_listings_for_summaries,
    law_requests_keep_listings_for_summaries, law_warming_keeps_listings_for_summaries,
    listings_stand_for_summaries,
};
use crate::scan::request_laws::{
    law_asked_children_come_before_summaries, law_prefetching_respects_the_worker_limit,
    law_warming_respects_the_limits,
};
use crate::scan::view_laws::{
    brings_directory, brought_node, is_about, is_as_found,
    law_directories_are_shown_before_their_summaries, law_summaries_complete_what_is_shown,
    lemma_drain_keeps_found, lemma_integrate_all_elsewhere, stays_unremembered,
};
use vstd::prelude::*;

verus! {

/// One thing that can be done with a scan.
#[verifier::ext_equal]
pub enum Step {
    EnsureScanned(TreeIndex, ScanOptions),
    PrefetchChildren(TreeIndex, ScanOptions),
    WarmVisibleChildren(Seq<TreeIndex>, ScanOptions, usize),
    DrainEvents {
        reports: Seq<ReportModel>,
        probes: Map<TreeIndex, MetadataFingerprint>,
        cache: Map<CacheKey, CachedModel>,
        now: Timestamp,
    },
    Cancel,
    TakeStartedJobs,
}

/// A scan after one step.
pub open spec fn after_step(m: ScanModel, step: Step) -> ScanModel {
    match step {
        Step::EnsureScanned(index, options) => m.ensure_scanned(index, options),
        Step::PrefetchChildren(index, options) => if m.has(index) {
            m.prefetch(m.nodes[index as int].children, options)
        } else {
            m
        },
        Step::WarmVisibleChildren(parents, options, limit) => m.warm_visible(
            parents,
            options,
            limit as int,
        ).0,
        Step::DrainEvents { reports, probes, cache, now } => DrainModel {
            scan: m,
            cache,
            probes,
        }.drain(reports, now).scan,
        Step::Cancel => m.cancel(),
        Step::TakeStartedJobs => ScanModel { started: Seq::empty(), ..m },
    }
}

/// A scan after steps in their order.
pub open spec fn after_steps(m: ScanModel, steps: Seq<Step>) -> ScanModel
    decreases steps.len(),
{
    if steps.len() == 0 {
        m
    } else {
        after_step(after_steps(m, steps.drop_last()), steps.last())
    }
}

/// Whether the nodes of a scan can still be numbered after a step.
pub open spec fn is_possible(m: ScanModel, step: Step) -> bool {
    match step {
        Step::DrainEvents { reports, probes, cache, now } => m.canceled || has_room_for_all(
            DrainModel { scan: m, cache, probes },
            reports,
            now,
        ),
        _ => true,
    }
}

/// Whether the nodes of a scan can be numbered after each of the steps.
pub open spec fn are_possible(m: ScanModel, steps: Seq<Step>) -> bool
    decreases steps.len(),
{
    steps.len() > 0 ==> {
        &&& are_possible(m, steps.drop_last())
        &&& is_possible(after_steps(m, steps.drop_last()), steps.last())
    }
}

/// Whether what is reported in a step comes from jobs that run, unless the scan is
/// canceled.
pub open spec fn is_regular(m: ScanModel, step: Step) -> bool {
    match step {
        Step::DrainEvents { reports, probes, cache, now } => m.canceled || are_expected(
            DrainModel { scan: m, cache, probes },
            reports,
            now,
        ),
        _ => true,
    }
}

/// Whether what is reported in the steps comes from jobs that run.
pub open spec fn are_regular(m: ScanModel, steps: Seq<Step>) -> bool
    decreases steps.len(),
{
    steps.len() > 0 ==> {
        &&& are_regular(m, steps.drop_last())
        &&& is_regular(after_steps(m, steps.drop_last()), steps.last())
    }
}

/// A canceled scan takes in the reports as if there were none.
proof fn lemma_canceled_drain(d: DrainModel, reports: Seq<ReportModel>, now: Timestamp)
    requires
        d.scan.canceled,
    ensures
        d.drain(reports, now) == d.drain(Seq::empty(), now),
{
}

proof fn lemma_step_keeps(m: ScanModel, step: Step)
    requires
        m.wf(),
        is_possible(m, step),
    ensures
        after_step(m, step).wf(),
        estimates_are_bounded(m) ==> estimates_are_bounded(after_step(m, step)),
{
    match step {
        Step::EnsureScanned(index, options) => {
            lemma_ensure_scanned_keeps(m, index, options);
            if estimates_are_bounded(m) {
                law_requests_add_no_background_work(m, index, options);
            }
        },
        Step::PrefetchChildren(index, options) => {
            if m.has(index) {
                let children = m.nodes[index as int].children;
                law_prefetching_respects_the_worker_limit(m, children, options);
                if estimates_are_bounded(m) {
                    law_listing_ahead_adds_no_background_work(m, children, options);
                }
            }
        },
        Step::WarmVisibleChildren(parents, options, limit) => {
            law_warming_respects_the_limits(m, parents, options, limit as int);
            if estimates_are_bounded(m) {
                law_warming_adds_no_background_work(m, parents, options, limit as int);
            }
        },
        Step::DrainEvents { reports, probes, cache, now } => {
            let d = DrainModel { scan: m, cache, probes };
            if m.canceled {
                let n = d.drain(reports, now).scan;
                lemma_same_tree(m, n);
                lemma_same_marks(m, n);
                lemma_canceled_drain(d, reports, now);
                if estimates_are_bounded(m) {
                    law_background_work_per_directory_stays_bounded(d, Seq::empty(), now);
                }
            } else {
                lemma_integrate_all_keeps(d, reports, now);
                let next = d.integrate_all(reports, now);
                lemma_start_waiting_keeps(next.scan, next.probes, next.cache, now);
                lemma_settle_keeps(next.scan.start_waiting(next.probes, next.cache, now));
                if estimates_are_bounded(m) {
                    law_background_work_per_directory_stays_bounded(d, reports, now);
                }
            }
        },
        Step::Cancel => {
            lemma_cancel_keeps(m);
            if estimates_are_bounded(m) {
                law_canceling_adds_no_background_work(m);
            }
        },
        Step::TakeStartedJobs => {
            let n = ScanModel { started: Seq::empty(), ..m };
            lemma_same_tree(m, n);
            lemma_same_marks(m, n);
            if estimates_are_bounded(m) {
                law_canceling_adds_no_background_work(m);
            }
        },
    }
}

proof fn lemma_steps_keep(m: ScanModel, steps: Seq<Step>)
    requires
        m.wf(),
        are_possible(m, steps),
    ensures
        after_steps(m, steps).wf(),
        estimates_are_bounded(m) ==> estimates_are_bounded(after_steps(m, steps)),
    decreases steps.len(),
{
    if steps.len() > 0 {
        lemma_steps_keep(m, steps.drop_last());
        lemma_step_keeps(after_steps(m, steps.drop_last()), steps.last());
    }
}

/// Whatever is done with a scan, and whatever is reported to it in however many
/// batches: its parts fit together, and of the children of one directory no more
/// are summarized in the background, or wait for it, than the limit allows.
pub proof fn law_background_work_is_always_bounded(
    root: Seq<u8>,
    name: Seq<char>,
    metadata: EntryMetadata,
    options: ScanOptions,
    steps: Seq<Step>,
)
    requires
        are_possible(fresh_scan(root, name, metadata, options), steps),
    ensures
        after_steps(fresh_scan(root, name, metadata, options), steps).wf(),
        estimates_are_bounded(after_steps(fresh_scan(root, name, metadata, options), steps)),
{
    lemma_fresh_scan_is_well_formed(root, name, metadata, options);
    law_a_fresh_scan_is_in_order(root, name, metadata, options);
    lemma_steps_keep(fresh_scan(root, name, metadata, options), steps);
}

/// What holds of a scan to which only jobs that run report.
pub open spec fn is_in_order(m: ScanModel) -> bool {
    &&& m.wf()
    &&& estimates_are_bounded(m)
    &&& jobs_are_accounted_for(m)
    &&& has_one_summary(m)
    &&& listings_stand_for_summaries(m)
}

proof fn lemma_step_keeps_order(m: ScanModel, step: Step)
    requires
        is_in_order(m),
        is_possible(m, step),
        is_regular(m, step),
    ensures
        is_in_order(after_step(m, step)),
{
    lemma_step_keeps(m, step);
    match step {
        Step::EnsureScanned(index, options) => {
            law_requests_keep_jobs_accounted_for(m, index, options);
            law_requests_keep_listings_for_summaries(m, index, options);
        },
        Step::PrefetchChildren(index, options) => {
            if m.has(index) {
                let children = m.nodes[index as int].children;
                law_listing_ahead_keeps_jobs_accounted_for(m, children, options);
                law_listing_ahead_keeps_listings_for_summaries(m, children, options);
            }
        },
        Step::WarmVisibleChildren(parents, options, limit) => {
            law_warming_keeps_jobs_accounted_for(m, parents, options, limit as int);
            law_warming_keeps_listings_for_summaries(m, parents, options, limit as int);
        },
        Step::DrainEvents { reports, probes, cache, now } => {
            let d = DrainModel { scan: m, cache, probes };
            let taken = if m.canceled {
                Seq::empty()
            } else {
                reports
            };
            if m.canceled {
                lemma_canceled_drain(d, reports, now);
            }
            law_running_jobs_stay_accounted_for(d, taken, now);
            law_background_work_leaves_room(d, taken, now);
            law_reports_keep_listings_for_summaries(d, taken, now);
        },
        Step::Cancel => {
            let options = ScanOptions { apparent_size: false, cross_filesystems: false };
            law_requests_keep_jobs_accounted_for(m, 0, options);
            law_requests_keep_listings_for_summaries(m, 0, options);
        },
        Step::TakeStartedJobs => {
            let options = ScanOptions { apparent_size: false, cross_filesystems: false };
            law_requests_keep_listings_for_summaries(m, 0, options);
        },
    }
}

proof fn lemma_steps_keep_order(m: ScanModel, steps: Seq<Step>)
    requires
        is_in_order(m),
        are_possible(m, steps),
        are_regular(m, steps),
    ensures
        is_in_order(after_steps(m, steps)),
    decreases steps.len(),
{
    if steps.len() > 0 {
        lemma_steps_keep_order(m, steps.drop_last());
        lemma_step_keeps_order(after_steps(m, steps.drop_last()), steps.last());
    }
}

/// Whatever is done with a scan, as long as only jobs that run report to it: no job
/// is lost or counted twice, at most one node is summarized at a time, background
/// work is bounded, and no summary waits for a directory whose children are listed
/// or will be.
pub proof fn law_scans_stay_in_order(
    root: Seq<u8>,
    name: Seq<char>,
    metadata: EntryMetadata,
    options: ScanOptions,
    steps: Seq<Step>,
)
    requires
        are_possible(fresh_scan(root, name, metadata, options), steps),
        are_regular(fresh_scan(root, name, metadata, options), steps),
    ensures
        is_in_order(after_steps(fresh_scan(root, name, metadata, options), steps)),
{
    lemma_fresh_scan_is_well_formed(root, name, metadata, options);
    law_a_fresh_scan_is_in_order(root, name, metadata, options);
    law_a_fresh_scan_lets_no_summary_wait(root, name, metadata, options);
    lemma_steps_keep_order(fresh_scan(root, name, metadata, options), steps);
}

/// Whatever was done with a scan before: once the children of a directory are asked
/// for, no summary of it waits any more, and its children are listed, are being
/// listed, or wait for it, once. To ask again changes nothing, right then or
/// whatever is done in between, as long as its children are listed or will be.
pub proof fn law_children_are_asked_for_once(
    root: Seq<u8>,
    name: Seq<char>,
    metadata: EntryMetadata,
    options: ScanOptions,
    before: Seq<Step>,
    index: TreeIndex,
    wanted: ScanOptions,
    later: Seq<Step>,
    again: ScanOptions,
)
    requires
        ({
            let first = fresh_scan(root, name, metadata, options);
            let m = after_steps(first, before);
            &&& are_possible(first, before)
            &&& are_regular(first, before)
            &&& m.has(index)
            &&& m.nodes[index as int].is_dir
            &&& are_possible(m.ensure_scanned(index, wanted), later)
            &&& are_regular(m.ensure_scanned(index, wanted), later)
        }),
    ensures
        ({
            let m = after_steps(fresh_scan(root, name, metadata, options), before);
            let asked = m.ensure_scanned(index, wanted);
            let then = after_steps(asked, later);
            &&& !some_job_summarizes(asked.background, index)
            &&& asked.is_known_or_pending(index)
            &&& forall|i: int, j: int|
                #![trigger asked.queued[i], asked.queued[j]]
                0 <= i < j < asked.queued.len() ==> !(lists_children_of(asked.queued[i], index)
                    && lists_children_of(asked.queued[j], index))
            &&& asked.ensure_scanned(index, again) == asked
            &&& then.is_known_or_pending(index) ==> then.ensure_scanned(index, again) == then
        }),
{
    let first = fresh_scan(root, name, metadata, options);
    let m = after_steps(first, before);
    law_scans_stay_in_order(root, name, metadata, options, before);
    law_asked_children_come_before_summaries(m, index, wanted);
    let asked = m.ensure_scanned(index, wanted);
    lemma_step_keeps_order(m, Step::EnsureScanned(index, wanted));
    law_known_directories_are_left_alone(asked, index, again);
    lemma_steps_keep_order(asked, later);
    let then = after_steps(asked, later);
    if then.is_known_or_pending(index) {
        law_known_directories_are_left_alone(then, index, again);
    }
}

/// Whether a step is not about a directory, and nothing is remembered of its path
/// when reports are taken in.
pub open spec fn is_quiet(m: ScanModel, step: Step, index: TreeIndex, path: Seq<u8>) -> bool {
    match step {
        Step::DrainEvents { reports, probes, cache, now } => m.canceled || {
            &&& stays_unremembered(DrainModel { scan: m, cache, probes }, reports, now, path)
            &&& forall|i: int|
                0 <= i < reports.len() ==> !is_about((#[trigger] reports[i]).event, index)
        },
        _ => true,
    }
}

/// Whether none of the steps is about a directory.
pub open spec fn are_quiet(
    m: ScanModel,
    steps: Seq<Step>,
    index: TreeIndex,
    path: Seq<u8>,
) -> bool
    decreases steps.len(),
{
    steps.len() > 0 ==> {
        &&& are_quiet(m, steps.drop_last(), index, path)
        &&& is_quiet(after_steps(m, steps.drop_last()), steps.last(), index, path)
    }
}

/// A request leaves a directory as it was found.
proof fn lemma_request_keeps_found(
    m: ScanModel,
    asked: TreeIndex,
    options: ScanOptions,
    index: TreeIndex,
    entry: ScannedModel,
)
    requires
        m.has(index),
        is_as_found(m.nodes[index as int], entry),
    ensures
        m.ensure_scanned(asked, options).has(index),
        is_as_found(m.ensure_scanned(asked, options).nodes[index as int], entry),
{
}

proof fn lemma_prefetch_keeps_found(
    m: ScanModel,
    children: Seq<TreeIndex>,
    options: ScanOptions,
    index: TreeIndex,
    entry: ScannedModel,
)
    requires
        m.has(index),
        is_as_found(m.nodes[index as int], entry),
    ensures
        m.prefetch(children, options).has(index),
        is_as_found(m.prefetch(children, options).nodes[index as int], entry),
    decreases children.len(),
{
    if children.len() > 0 && m.pressing_jobs() < MAX_SCAN_JOBS {
        lemma_request_keeps_found(m, children[0], options, index, entry);
        lemma_prefetch_keeps_found(
            m.ensure_scanned(children[0], options),
            children.skip(1),
            options,
            index,
            entry,
        );
    }
}

proof fn lemma_warm_children_keeps_found(
    m: ScanModel,
    children: Seq<SizedChild>,
    options: ScanOptions,
    limit: int,
    index: TreeIndex,
    entry: ScannedModel,
)
    requires
        m.has(index),
        is_as_found(m.nodes[index as int], entry),
    ensures
        m.warm_children(children, options, limit).0.has(index),
        is_as_found(m.warm_children(children, options, limit).0.nodes[index as int], entry),
    decreases children.len(),
{
    if children.len() > 0 && limit > 0 && m.pressing_jobs() < MAX_SCAN_JOBS {
        if m.is_known_or_pending(children[0].index) {
            lemma_warm_children_keeps_found(
                m,
                children.skip(1),
                options,
                limit,
                index,
                entry,
            );
        } else {
            lemma_request_keeps_found(m, children[0].index, options, index, entry);
            let next = m.ensure_scanned(children[0].index, options);
            let added = if next.pressing_jobs() > m.pressing_jobs() {
                1int
            } else {
                0
            };
            lemma_warm_children_keeps_found(
                next,
                children.skip(1),
                options,
                limit - added,
                index,
                entry,
            );
        }
    }
}

proof fn lemma_warming_keeps_found(
    m: ScanModel,
    parents: Seq<TreeIndex>,
    options: ScanOptions,
    limit: int,
    index: TreeIndex,
    entry: ScannedModel,
)
    requires
        m.has(index),
        is_as_found(m.nodes[index as int], entry),
    ensures
        m.warm_visible(parents, options, limit).0.has(index),
        is_as_found(m.warm_visible(parents, options, limit).0.nodes[index as int], entry),
    decreases parents.len(),
{
    if parents.len() > 0 && m.pressing_jobs() < MAX_SCAN_JOBS {
        if m.has(parents[0]) {
            lemma_warm_children_keeps_found(
                m,
                sorted(sized_children(m.nodes, m.nodes[parents[0] as int].children)),
                options,
                limit,
                index,
                entry,
            );
        }
        lemma_warming_keeps_found(
            m.warm_parent(parents[0], options, limit).0,
            parents.skip(1),
            options,
            limit,
            index,
            entry,
        );
    }
}

proof fn lemma_steps_keep_found(
    m: ScanModel,
    steps: Seq<Step>,
    index: TreeIndex,
    entry: ScannedModel,
)
    requires
        m.wf(),
        m.has(index),
        is_as_found(m.nodes[index as int], entry),
        are_possible(m, steps),
        are_quiet(m, steps, index, entry.path),
    ensures
        after_steps(m, steps).wf(),
        after_steps(m, steps).has(index),
        is_as_found(after_steps(m, steps).nodes[index as int], entry),
    decreases steps.len(),
{
    if steps.len() > 0 {
        lemma_steps_keep_found(m, steps.drop_last(), index, entry);
        let before = after_steps(m, steps.drop_last());
        lemma_step_keeps(before, steps.last());
        match steps.last() {
            Step::EnsureScanned(asked, options) => {
                lemma_request_keeps_found(before, asked, options, index, entry);
            },
            Step::PrefetchChildren(parent, options) => {
                if before.has(parent) {
                    lemma_prefetch_keeps_found(
                        before,
                        before.nodes[parent as int].children,
                        options,
                        index,
                        entry,
                    );
                }
            },
            Step::WarmVisibleChildren(parents, options, limit) => {
                lemma_warming_keeps_found(before, parents, options, limit as int, index, entry);
            },
            Step::DrainEvents { reports, probes, cache, now } => {
                let d = DrainModel { scan: before, cache, probes };
                let taken = if before.canceled {
                    Seq::empty()
                } else {
                    reports
                };
                if before.canceled {
                    lemma_canceled_drain(d, reports, now);
                }
                lemma_drain_keeps_found(d, taken, now, index, entry);
            },
            Step::Cancel => {},
            Step::TakeStartedJobs => {},
        }
    }
}

/// A directory of which nothing is remembered is shown as soon as it is listed, as
/// one whose size is pending, with the size and the count of its own entry. So it
/// stays, whatever is done with the scan, until something is reported of it. When
/// that is its summary, it is shown with the size and the count of the summary, and
/// nothing is pending any more.
pub proof fn law_directories_are_pending_until_summed_up(
    first: DrainModel,
    reports: Seq<ReportModel>,
    at: int,
    place: int,
    now: Timestamp,
    between: Seq<Step>,
    last: DrainModel,
    summed: Seq<ReportModel>,
    later: Timestamp,
)
    requires
        first.scan.wf(),
        !first.scan.canceled,
        has_room_for_all(first, reports, now),
        brings_directory(first, reports, at, place, now),
        ({
            let listed = first.drain(reports, now).scan;
            let index = brought_node(first, reports, at, place, now);
            let path = reports[at].event->ChildrenBatch_children[place].path;
            &&& are_possible(listed, between)
            &&& are_quiet(listed, between, index, path)
            &&& last.scan == after_steps(listed, between)
            &&& !last.scan.canceled
            &&& has_room_for_all(last, summed, later)
            &&& summed.len() > 0
            &&& summed.last().event is Summary
            &&& summed.last().event->Summary_index == index
            &&& stays_unremembered(last, summed.drop_last(), later, path)
            &&& forall|i: int|
                0 <= i < summed.len() - 1 ==> !is_about((#[trigger] summed[i]).event, index)
        }),
    ensures
        ({
            let entry = reports[at].event->ChildrenBatch_children[place];
            let index = brought_node(first, reports, at, place, now);
            let summary = summed.last().event->Summary_summary;
            let listed = shown_node(first.drain(reports, now).scan, index);
            let before = shown_node(last.scan, index);
            let after = shown_node(last.drain(summed, later).scan, index);
            &&& listed is Some && before is Some && after is Some
            &&& listed->0.is_dir && before->0.is_dir && after->0.is_dir
            &&& listed->0.size_pending && before->0.size_pending && !after->0.size_pending
            &&& listed->0.size == entry.size && before->0.size == entry.size && after->0.size
                == summary.size
            &&& listed->0.entry_count == entry.entry_count && before->0.entry_count
                == entry.entry_count && after->0.entry_count == Some(summary.entry_count)
        }),
{
    let entry = reports[at].event->ChildrenBatch_children[place];
    let index = brought_node(first, reports, at, place, now);
    law_directories_are_shown_before_their_summaries(first, reports, at, place, now);
    let listed = first.drain(reports, now).scan;
    lemma_step_keeps(
        first.scan,
        Step::DrainEvents { reports, probes: first.probes, cache: first.cache, now },
    );
    lemma_steps_keep_found(listed, between, index, entry);
    let rest = summed.drop_last();
    assert forall|i: int| 0 <= i < rest.len() implies !is_about(
        (#[trigger] rest[i]).event,
        index,
    ) by {
        assert(rest[i] == summed[i]);
    }
    lemma_integrate_all_elsewhere(last, rest, later, index, entry);
    law_summaries_complete_what_is_shown(last, summed, later);
}

} // verus!

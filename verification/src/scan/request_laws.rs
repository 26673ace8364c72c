//! What asking for children, listing ahead of need and canceling do to a scan.
use crate::clock::Timestamp;
use crate::order::sorted;
use crate::scan::cache::{remembered, CacheKey, CachedModel};
use crate::scan::data::{
    JobPriority, MetadataFingerprint, NodeModel, ScanJob, ScanOptions, ScannedModel, TreeIndex,
    MAX_SCAN_JOBS,
};
use crate::scan::keeps::{
    lemma_ensure_scanned_keeps, lemma_remove_background_keeps, lemma_some_job_push,
    lemma_without_summary,
};
use crate::scan::model::{
    lists_children_of, sized_children, some_job_lists, some_job_summarizes, summarizes,
    without_summary_of, BatchModel, DrainModel, ReportModel, ScanModel, SizedChild,
};
use vstd::prelude::*;

verus! {

/// A canceled scan has no work left, and nothing that is reported to it later
/// changes it.
pub proof fn law_a_canceled_scan_stays_as_it_is(
    d: DrainModel,
    reports: Seq<ReportModel>,
    now: Timestamp,
)
    ensures
        ({
            let canceled = d.scan.cancel();
            &&& canceled.is_idle()
            &&& canceled.finished
            &&& canceled.started.len() == 0
            &&& forall|i: int|
                0 <= i < canceled.nodes.len() ==> !(#[trigger] canceled.nodes[i]).scanning
                    && !canceled.nodes[i].summarizing && !canceled.nodes[i].summary_queued
            &&& DrainModel { scan: canceled, ..d }.drain(reports, now) == (DrainModel {
                scan: canceled,
                ..d
            })
        }),
{
}

/// A directory whose children are listed, or are being listed, is not listed
/// again.
pub proof fn law_a_directory_is_listed_once(m: ScanModel, index: TreeIndex, options: ScanOptions)
    requires
        m.has(index),
        m.nodes[index as int].scanned || m.nodes[index as int].scanning,
    ensures
        m.ensure_scanned(index, options).started == m.started,
        m.ensure_scanned(index, options).queued == m.queued,
        m.ensure_scanned(index, options).stats == m.stats,
{
}

/// To ask a second time for the children of a directory changes nothing.
pub proof fn law_asking_twice_is_asking_once(m: ScanModel, index: TreeIndex, options: ScanOptions)
    requires
        m.wf(),
    ensures
        m.ensure_scanned(index, options).ensure_scanned(index, options) == m.ensure_scanned(
            index,
            options,
        ),
{
    let cleared = m.remove_background_summary(index);
    let once = m.ensure_scanned(index, options);
    let twice = once.ensure_scanned(index, options);
    lemma_remove_background_keeps(m, index);
    lemma_without_summary(once.background, index);
    reveal(Seq::filter);
    assert(once.background == cleared.background);
    lemma_nothing_to_remove(once.background, index);
    assert(once.remove_background_summary(index) =~= once);
    if cleared.has(index) && cleared.nodes[index as int].is_dir && !cleared.nodes[index as int].scanned
        && !cleared.nodes[index as int].scanning && !cleared.job_is_redundant(
        ScanJob::Children(index, options),
    ) && !cleared.can_start(JobPriority::Interactive) {
        assert(once.queued[once.queued.len() - 1] == ScanJob::Children(index, options));
        assert(lists_children_of(once.queued[once.queued.len() - 1], index));
        assert(some_job_lists(once.queued, index));
    }
}

pub proof fn lemma_nothing_to_remove(jobs: Seq<ScanJob>, index: TreeIndex)
    requires
        !some_job_summarizes(jobs, index),
    ensures
        without_summary_of(jobs, index) == jobs,
    decreases jobs.len(),
{
    reveal(Seq::filter);
    if jobs.len() > 0 {
        let rest = jobs.drop_last();
        assert(!summarizes(jobs[jobs.len() - 1], index));
        assert forall|i: int| 0 <= i < rest.len() implies !summarizes(
            #[trigger] rest[i],
            index,
        ) by {
            assert(rest[i] == jobs[i]);
        }
        lemma_nothing_to_remove(rest, index);
        assert(rest.push(jobs.last()) =~= jobs);
    } else {
        assert(without_summary_of(jobs, index) =~= jobs);
    }
}

/// After children have been asked for, no summary of the directory waits in the
/// background, and its children are listed, are being listed, or wait for it,
/// once.
pub proof fn law_asked_children_come_before_summaries(
    m: ScanModel,
    index: TreeIndex,
    options: ScanOptions,
)
    requires
        m.wf(),
        m.has(index),
        m.nodes[index as int].is_dir,
    ensures
        ({
            let n = m.ensure_scanned(index, options);
            &&& !some_job_summarizes(n.background, index)
            &&& n.is_known_or_pending(index)
            &&& forall|i: int, j: int|
                #![trigger n.queued[i], n.queued[j]]
                0 <= i < j < n.queued.len() ==> !(lists_children_of(n.queued[i], index)
                    && lists_children_of(n.queued[j], index))
        }),
{
    lemma_ensure_scanned_keeps(m, index, options);
    let cleared = m.remove_background_summary(index);
    let job = ScanJob::Children(index, options);
    lemma_remove_background_keeps(m, index);
    let n = m.ensure_scanned(index, options);
    if !cleared.nodes[index as int].scanned && !cleared.nodes[index as int].scanning {
        if cleared.job_is_redundant(job) {
            if some_job_lists(cleared.background, index) {
                let i = choose|i: int|
                    0 <= i < cleared.background.len() && lists_children_of(
                        #[trigger] cleared.background[i],
                        index,
                    );
                assert(cleared.background[i] is Summary);
            }
        } else if !cleared.can_start(JobPriority::Interactive) {
            assert(n.queued[n.queued.len() - 1] == job);
            assert(lists_children_of(n.queued[n.queued.len() - 1], index));
        }
    }
}

/// Listing ahead of need never asks for more jobs than there is room for.
pub proof fn law_prefetching_respects_the_worker_limit(
    m: ScanModel,
    children: Seq<TreeIndex>,
    options: ScanOptions,
)
    requires
        m.wf(),
    ensures
        m.prefetch(children, options).wf(),
        m.pressing_jobs() <= m.prefetch(children, options).pressing_jobs(),
        m.prefetch(children, options).pressing_jobs() <= MAX_SCAN_JOBS || m.prefetch(
            children,
            options,
        ) == m,
    decreases children.len(),
{
    if children.len() > 0 && m.pressing_jobs() < MAX_SCAN_JOBS {
        lemma_ensure_scanned_keeps(m, children[0], options);
        let next = m.ensure_scanned(children[0], options);
        law_prefetching_respects_the_worker_limit(next, children.skip(1), options);
    }
}

/// Warming never asks for more jobs than there is room for, for no directory more
/// than its limit, and says truly how many it has added.
pub proof fn law_warming_respects_the_limits(
    m: ScanModel,
    parents: Seq<TreeIndex>,
    options: ScanOptions,
    limit: int,
)
    requires
        m.wf(),
        limit >= 0,
    ensures
        ({
            let (n, added) = m.warm_visible(parents, options, limit);
            &&& n.wf()
            &&& n.pressing_jobs() == m.pressing_jobs() + added
            &&& 0 <= added <= limit * parents.len()
            &&& n.pressing_jobs() <= MAX_SCAN_JOBS || added == 0
        }),
    decreases parents.len(),
{
    if parents.len() > 0 && m.pressing_jobs() < MAX_SCAN_JOBS {
        let (next, added) = m.warm_parent(parents[0], options, limit);
        if m.has(parents[0]) {
            lemma_warm_children_limits(
                m,
                sorted(sized_children(m.nodes, m.nodes[parents[0] as int].children)),
                options,
                limit,
            );
        }
        law_warming_respects_the_limits(next, parents.skip(1), options, limit);
        assert(limit + limit * (parents.len() - 1) == limit * parents.len()) by (nonlinear_arith);
    } else {
        assert(limit * parents.len() >= 0) by (nonlinear_arith)
            requires
                limit >= 0,
        ;
    }
}

pub proof fn lemma_warm_children_limits(
    m: ScanModel,
    children: Seq<SizedChild>,
    options: ScanOptions,
    limit: int,
)
    requires
        m.wf(),
        limit >= 0,
    ensures
        ({
            let (n, added) = m.warm_children(children, options, limit);
            &&& n.wf()
            &&& n.pressing_jobs() == m.pressing_jobs() + added
            &&& 0 <= added <= limit
            &&& n.pressing_jobs() <= MAX_SCAN_JOBS || added == 0
        }),
    decreases children.len(),
{
    if children.len() > 0 && limit > 0 && m.pressing_jobs() < MAX_SCAN_JOBS {
        if m.is_known_or_pending(children[0].index) {
            lemma_warm_children_limits(m, children.skip(1), options, limit);
        } else {
            lemma_ensure_scanned_keeps(m, children[0].index, options);
            let next = m.ensure_scanned(children[0].index, options);
            let added = if next.pressing_jobs() > m.pressing_jobs() {
                1int
            } else {
                0
            };
            lemma_warm_children_limits(next, children.skip(1), options, limit - added);
        }
    }
}

/// A directory of which a fresh summary is remembered needs no work: its node is
/// complete at once, with what is remembered, and nothing is enqueued for it.
pub proof fn law_a_fresh_summary_needs_no_work(
    b: BatchModel,
    parent: TreeIndex,
    entry: ScannedModel,
    probe: Option<MetadataFingerprint>,
    options: ScanOptions,
    cache: Map<CacheKey, CachedModel>,
    now: Timestamp,
)
    requires
        entry.is_dir,
        remembered(cache, entry.path, options, probe) is Some,
        remembered(cache, entry.path, options, probe)->0.is_fresh(now),
    ensures
        ({
            let r = b.with_child(parent, entry, probe, options, cache, now);
            let known = remembered(cache, entry.path, options, probe)->0.summary;
            let node = r.scan.nodes.last();
            &&& node.summarized
            &&& node.size == known.size
            &&& node.entry_count == Some(known.entry_count)
            &&& r.scan.background == b.scan.background
            &&& r.scan.started == b.scan.started
        }),
{
}

/// Reports leave a scan that is not canceled finished if and only if nothing runs
/// or waits.
pub proof fn law_finished_means_idle(d: DrainModel, reports: Seq<ReportModel>, now: Timestamp)
    requires
        !d.scan.canceled,
    ensures
        d.drain(reports, now).scan.finished <==> d.drain(reports, now).scan.is_idle(),
{
}

/// A request takes back no listing that runs or waits, of whatever directory, lets
/// no further summary wait, and changes nothing of any node but that it is being
/// listed or waits for a summary.
pub proof fn law_requests_take_nothing_back(
    m: ScanModel,
    asked: TreeIndex,
    options: ScanOptions,
    index: TreeIndex,
)
    requires
        m.wf(),
        m.has(index),
    ensures
        ({
            let n = m.ensure_scanned(asked, options);
            let (before, after) = (m.nodes[index as int], n.nodes[index as int]);
            &&& n.nodes.len() == m.nodes.len()
            &&& after == (NodeModel {
                scanning: after.scanning,
                summary_queued: after.summary_queued,
                ..before
            })
            &&& index != asked ==> after == before
            &&& before.scanning ==> after.scanning
            &&& m.is_known_or_pending(index) ==> n.is_known_or_pending(index)
            &&& some_job_summarizes(n.background, index) <==> some_job_summarizes(
                m.background,
                index,
            ) && index != asked
        }),
{
    let cleared = m.remove_background_summary(asked);
    let job = ScanJob::Children(asked, options);
    let n = m.ensure_scanned(asked, options);
    lemma_without_summary(m.background, asked);
    lemma_remove_background_keeps(m, asked);
    lemma_some_job_push(cleared.queued, job, index);
    assert(n.background == cleared.background);
    let (a, b) = (m.background, cleared.background);
    if some_job_summarizes(a, index) && index != asked {
        let i = choose|i: int| 0 <= i < a.len() && summarizes(#[trigger] a[i], index);
        assert(a.contains(a[i]));
        assert(b.contains(a[i]));
        let j = choose|j: int| 0 <= j < b.len() && b[j] == a[i];
        assert(summarizes(b[j], index));
    }
    if some_job_summarizes(b, index) {
        let j = choose|j: int| 0 <= j < b.len() && summarizes(#[trigger] b[j], index);
        assert(b.contains(b[j]));
        assert(a.contains(b[j]));
        let i = choose|i: int| 0 <= i < a.len() && a[i] == b[j];
        assert(summarizes(a[i], index));
    }
}

} // verus!

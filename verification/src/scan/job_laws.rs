//! How many jobs run: none is lost, none is counted twice, and background work
//! leaves room for what somebody waits for.
use crate::clock::Timestamp;
use crate::order::sorted;
use crate::scan::cache::{remembered, CacheKey, CachedModel};
use crate::scan::data::{
    EventModel, JobPriority, MetadataFingerprint, NodeModel, ScanJob, ScanOptions, ScannedModel,
    TreeIndex, MAX_SCAN_JOBS,
};
use crate::scan::keeps::{
    lemma_integrate_children_keeps, lemma_integrate_progress_keeps, lemma_integrate_summary_keeps,
    lemma_pop_queued, lemma_resized, lemma_start_interactive_keeps, lemma_start_job_keeps,
    lemma_start_waiting_keeps, lemma_with_completed,
};
use crate::scan::model::{
    count_estimating, found_node, is_fresh_hit, job_target, recalled, sized_children, with_counts,
    with_resized, BatchModel, DrainModel, HitModel, ReportModel, ScanModel, SizedChild,
};
use vstd::prelude::*;

verus! {

/// The jobs that run on a node.
pub open spec fn jobs_on(node: NodeModel) -> int {
    (if node.scanning {
        1int
    } else {
        0
    }) + if node.summarizing {
        1int
    } else {
        0
    }
}

/// The jobs that run on nodes.
pub open spec fn jobs_on_nodes(nodes: Seq<NodeModel>) -> int
    decreases nodes.len(),
{
    if nodes.len() == 0 {
        0
    } else {
        jobs_on_nodes(nodes.drop_last()) + jobs_on(nodes.last())
    }
}

/// Every job that is counted as running runs on a node.
pub open spec fn jobs_are_accounted_for(m: ScanModel) -> bool {
    m.stats.active_jobs == jobs_on_nodes(m.nodes)
}

/// Two lists of nodes on which the same jobs run.
pub open spec fn same_jobs(a: Seq<NodeModel>, b: Seq<NodeModel>) -> bool {
    &&& a.len() == b.len()
    &&& forall|i: int|
        #![trigger a[i]]
        #![trigger b[i]]
        0 <= i < a.len() ==> a[i].scanning == b[i].scanning && a[i].summarizing
            == b[i].summarizing
}

proof fn lemma_same_jobs(a: Seq<NodeModel>, b: Seq<NodeModel>)
    requires
        same_jobs(a, b),
    ensures
        jobs_on_nodes(a) == jobs_on_nodes(b),
    decreases a.len(),
{
    if a.len() > 0 {
        let (a_rest, b_rest) = (a.drop_last(), b.drop_last());
        assert forall|i: int|
            #![trigger a_rest[i]]
            0 <= i < a_rest.len() implies a_rest[i].scanning == b_rest[i].scanning
            && a_rest[i].summarizing == b_rest[i].summarizing by {
            assert(a_rest[i] == a[i] && b_rest[i] == b[i]);
        }
        lemma_same_jobs(a_rest, b_rest);
        assert(a[a.len() - 1] == a.last() && b[b.len() - 1] == b.last());
    }
}

proof fn lemma_jobs_after_update(nodes: Seq<NodeModel>, index: int, node: NodeModel)
    requires
        0 <= index < nodes.len(),
    ensures
        jobs_on_nodes(nodes.update(index, node)) == jobs_on_nodes(nodes) - jobs_on(nodes[index])
            + jobs_on(node),
        jobs_on_nodes(nodes) >= jobs_on(nodes[index]),
    decreases nodes.len(),
{
    let changed = nodes.update(index, node);
    lemma_jobs_not_negative(nodes.drop_last());
    if index == nodes.len() - 1 {
        assert(changed.drop_last() =~= nodes.drop_last());
    } else {
        assert(changed.drop_last() =~= nodes.drop_last().update(index, node));
        lemma_jobs_after_update(nodes.drop_last(), index, node);
    }
}

proof fn lemma_jobs_not_negative(nodes: Seq<NodeModel>)
    ensures
        jobs_on_nodes(nodes) >= 0,
    decreases nodes.len(),
{
    if nodes.len() > 0 {
        lemma_jobs_not_negative(nodes.drop_last());
    }
}

proof fn lemma_jobs_after_resize(nodes: Seq<NodeModel>, index: int, node: NodeModel)
    requires
        0 <= index < nodes.len(),
        node.parent == nodes[index].parent,
        node.children == nodes[index].children,
    ensures
        jobs_on_nodes(with_resized(nodes, index, node)) == jobs_on_nodes(nodes) - jobs_on(
            nodes[index],
        ) + jobs_on(node),
{
    lemma_resized(nodes, index, node);
    lemma_jobs_after_update(nodes, index, node);
    lemma_same_jobs(nodes.update(index, node), with_resized(nodes, index, node));
}

proof fn lemma_apply_cached_jobs(m: ScanModel, index: TreeIndex, hit: HitModel)
    requires
        m.has(index),
        !m.nodes[index as int].summarizing,
    ensures
        same_jobs(m.nodes, m.apply_cached(index, hit.summary, hit.fresh).nodes),
        m.apply_cached(index, hit.summary, hit.fresh).stats.active_jobs == m.stats.active_jobs,
{
    let node = m.nodes[index as int];
    let changed = NodeModel {
        summarized: node.summarized || hit.fresh,
        summary_queued: node.summary_queued && !hit.fresh,
        summarizing: node.summarizing && !hit.fresh,
        ..with_counts(node, hit.summary)
    };
    lemma_resized(m.nodes, index as int, changed);
}

/// Only the node of a job is touched by its start, but for sizes.
proof fn lemma_start_job_jobs(m: ScanModel, job: ScanJob, hit: Option<HitModel>)
    requires
        jobs_are_accounted_for(m),
    ensures
        jobs_are_accounted_for(m.start_job(job, hit)),
        m.start_job(job, hit).nodes.len() == m.nodes.len(),
        forall|k: int|
            #![trigger m.start_job(job, hit).nodes[k]]
            0 <= k < m.nodes.len() && k != job_target(job) ==> m.start_job(
                job,
                hit,
            ).nodes[k].scanning == m.nodes[k].scanning && m.start_job(
                job,
                hit,
            ).nodes[k].summarizing == m.nodes[k].summarizing,
{
    let n = m.start_job(job, hit);
    match job {
        ScanJob::Children(index, options) => {
            let node = m.nodes[index as int];
            if m.has(index) && node.is_dir && !node.scanned && !node.scanning {
                lemma_jobs_after_update(
                    m.nodes,
                    index as int,
                    NodeModel { scanning: true, ..node },
                );
            }
        },
        ScanJob::Summary(index, options) => {
            if m.has(index) {
                let node = m.nodes[index as int];
                let unmarked = m.with_node(index, NodeModel { summary_queued: false, ..node });
                lemma_same_jobs(m.nodes, unmarked.nodes);
                if !node.summarized && !node.summarizing {
                    let known = match hit {
                        Some(hit) => unmarked.apply_cached(index, hit.summary, hit.fresh),
                        None => unmarked,
                    };
                    if let Some(hit) = hit {
                        lemma_apply_cached_jobs(unmarked, index, hit);
                    }
                    lemma_same_jobs(unmarked.nodes, known.nodes);
                    if !is_fresh_hit(hit) {
                        lemma_jobs_after_update(
                            known.nodes,
                            index as int,
                            NodeModel {
                                summarizing: true,
                                summary_entries_seen: 0,
                                ..known.nodes[index as int]
                            },
                        );
                    }
                }
            }
        },
    }
}

proof fn lemma_enqueue_jobs(
    m: ScanModel,
    job: ScanJob,
    priority: JobPriority,
    hit: Option<HitModel>,
)
    requires
        jobs_are_accounted_for(m),
    ensures
        jobs_are_accounted_for(m.enqueue(job, priority, hit)),
        m.enqueue(job, priority, hit).nodes.len() == m.nodes.len(),
        forall|k: int|
            #![trigger m.enqueue(job, priority, hit).nodes[k]]
            0 <= k < m.nodes.len() && k != job_target(job) ==> m.enqueue(
                job,
                priority,
                hit,
            ).nodes[k].scanning == m.nodes[k].scanning && m.enqueue(
                job,
                priority,
                hit,
            ).nodes[k].summarizing == m.nodes[k].summarizing,
{
    lemma_start_job_jobs(m, job, hit);
    let n = m.enqueue(job, priority, hit);
    if !m.job_is_redundant(job) && !m.can_start(priority) {
        lemma_same_jobs(m.nodes, n.nodes);
    }
}

proof fn lemma_ensure_scanned_jobs(m: ScanModel, index: TreeIndex, options: ScanOptions)
    requires
        jobs_are_accounted_for(m),
    ensures
        jobs_are_accounted_for(m.ensure_scanned(index, options)),
{
    let cleared = m.remove_background_summary(index);
    lemma_same_jobs(m.nodes, cleared.nodes);
    lemma_enqueue_jobs(
        cleared,
        ScanJob::Children(index, options),
        JobPriority::Interactive,
        None,
    );
}

proof fn lemma_start_interactive_jobs(m: ScanModel)
    requires
        jobs_are_accounted_for(m),
    ensures
        jobs_are_accounted_for(m.start_interactive()),
    decreases m.queued.len(),
{
    if m.stats.active_jobs < MAX_SCAN_JOBS && m.queued.len() > 0 {
        let popped = ScanModel { queued: m.queued.skip(1), ..m };
        lemma_start_job_jobs(popped, m.queued[0], None);
        lemma_start_interactive_jobs(popped.start_job(m.queued[0], None));
    }
}

proof fn lemma_start_waiting_jobs(
    m: ScanModel,
    probes: Map<TreeIndex, MetadataFingerprint>,
    cache: Map<CacheKey, CachedModel>,
    now: Timestamp,
)
    requires
        jobs_are_accounted_for(m),
    ensures
        jobs_are_accounted_for(m.start_waiting(probes, cache, now)),
{
    lemma_start_interactive_jobs(m);
    let next = m.start_interactive();
    if next.stats.active_jobs == 0 && next.background.len() > 0 {
        lemma_start_job_jobs(
            ScanModel { background: next.background.skip(1), ..next },
            next.background[0],
            next.recalled_for(next.background[0], probes, cache, now),
        );
    }
}

proof fn lemma_with_children_jobs(
    b: BatchModel,
    parent: TreeIndex,
    entries: Seq<ScannedModel>,
    probes: Seq<Option<MetadataFingerprint>>,
    options: ScanOptions,
    cache: Map<CacheKey, CachedModel>,
    now: Timestamp,
)
    requires
        jobs_are_accounted_for(b.scan),
        b.scan.nodes.len() + entries.len() <= usize::MAX,
    ensures
        ({
            let r = b.with_children(parent, entries, probes, options, cache, now);
            &&& jobs_are_accounted_for(r.scan)
            &&& r.scan.nodes.len() == b.scan.nodes.len() + entries.len()
            &&& forall|k: int|
                #![trigger r.scan.nodes[k]]
                0 <= k < b.scan.nodes.len() ==> r.scan.nodes[k].scanning
                    == b.scan.nodes[k].scanning && r.scan.nodes[k].summarizing
                    == b.scan.nodes[k].summarizing
        }),
    decreases entries.len(),
{
    if entries.len() > 0 {
        let last = entries.len() - 1;
        lemma_with_children_jobs(b, parent, entries.drop_last(), probes, options, cache, now);
        let before = b.with_children(parent, entries.drop_last(), probes, options, cache, now);
        let probe = if last < probes.len() {
            probes[last]
        } else {
            None
        };
        let r = b.with_children(parent, entries, probes, options, cache, now);
        assert(r == before.with_child(parent, entries[last], probe, options, cache, now));
        let index = before.scan.nodes.len() as usize;
        let hit = if entries[last].is_dir {
            recalled(remembered(cache, entries[last].path, options, probe), now)
        } else {
            None
        };
        let node = found_node(parent, entries[last], hit);
        let grown = ScanModel { nodes: before.scan.nodes.push(node), ..before.scan };
        assert(grown.nodes.drop_last() =~= before.scan.nodes);
        assert(jobs_on_nodes(grown.nodes) == jobs_on_nodes(before.scan.nodes));
        lemma_enqueue_jobs(
            grown,
            ScanJob::Summary(index, options),
            JobPriority::Background,
            hit,
        );
        assert forall|k: int|
            #![trigger r.scan.nodes[k]]
            0 <= k < b.scan.nodes.len() implies r.scan.nodes[k].scanning
            == b.scan.nodes[k].scanning && r.scan.nodes[k].summarizing
            == b.scan.nodes[k].summarizing by {
            assert(grown.nodes[k] == before.scan.nodes[k]);
        }
    }
}

/// Whether a report comes from a job that runs.
pub open spec fn is_expected(m: ScanModel, event: EventModel) -> bool {
    match event {
        EventModel::ChildrenBatch { parent, .. } => m.has(parent)
            && m.nodes[parent as int].scanning,
        EventModel::Summary { index, .. } => m.has(index) && m.nodes[index as int].summarizing,
        EventModel::SummaryProgress { .. } => true,
    }
}

/// Whether each report, when it is taken in, comes from a job that runs.
pub open spec fn are_expected(d: DrainModel, reports: Seq<ReportModel>, now: Timestamp) -> bool
    decreases reports.len(),
{
    reports.len() > 0 ==> {
        &&& are_expected(d, reports.drop_last(), now)
        &&& is_expected(
            d.integrate_all(reports.drop_last(), now).scan,
            reports.last().event,
        )
    }
}

/// Whether the nodes of a scan can still be numbered after a report.
pub open spec fn has_room_for(m: ScanModel, event: EventModel) -> bool {
    event is ChildrenBatch && m.has(event->ChildrenBatch_parent) ==> m.nodes.len()
        + event->ChildrenBatch_children.len() <= usize::MAX
}

/// Whether the nodes of a scan can be numbered whatever of the reports has been
/// taken in.
pub open spec fn has_room_for_all(d: DrainModel, reports: Seq<ReportModel>, now: Timestamp) -> bool
    decreases reports.len(),
{
    reports.len() > 0 ==> {
        &&& has_room_for_all(d, reports.drop_last(), now)
        &&& has_room_for(d.integrate_all(reports.drop_last(), now).scan, reports.last().event)
    }
}

proof fn lemma_absorb_jobs(d: DrainModel, report: ReportModel, now: Timestamp)
    requires
        jobs_are_accounted_for(d.scan),
        is_expected(d.scan, report.event),
        has_room_for(d.scan, report.event),
    ensures
        jobs_are_accounted_for(d.absorb(report, now).scan),
{
    let m = d.scan;
    let n = d.absorb(report, now).scan;
    match report.event {
        EventModel::ChildrenBatch { parent, children, options, stats, done } => {
            let first = BatchModel {
                scan: m,
                probes: d.probes,
                background: count_estimating(m.nodes, m.nodes[parent as int].children),
                size: 0,
            };
            let batch = first.with_children(
                parent,
                children,
                report.child_probes,
                options,
                d.cache,
                now,
            );
            lemma_with_children_jobs(
                first,
                parent,
                children,
                report.child_probes,
                options,
                d.cache,
                now,
            );
            let at = parent as int;
            let node = batch.scan.nodes[at];
            assert(node.scanning);
            lemma_jobs_after_update(batch.scan.nodes, at, NodeModel { scanning: !done, ..node });
            assert(same_jobs(
                batch.scan.nodes.update(at, NodeModel { scanning: !done, ..node }),
                n.nodes,
            ));
            lemma_same_jobs(
                batch.scan.nodes.update(at, NodeModel { scanning: !done, ..node }),
                n.nodes,
            );
        },
        EventModel::Summary { index, options, summary } => {
            let node = m.nodes[index as int];
            let changed = NodeModel {
                summarized: true,
                summarizing: false,
                ..with_counts(node, summary)
            };
            lemma_jobs_after_resize(m.nodes, index as int, changed);
            lemma_jobs_after_update(m.nodes, index as int, changed);
        },
        EventModel::SummaryProgress { index, progress } => {
            if m.has(index) && !m.nodes[index as int].summarized {
                assert(same_jobs(m.nodes, n.nodes));
                lemma_same_jobs(m.nodes, n.nodes);
            }
        },
    }
}

proof fn lemma_integrate_all_jobs(d: DrainModel, reports: Seq<ReportModel>, now: Timestamp)
    requires
        jobs_are_accounted_for(d.scan),
        are_expected(d, reports, now),
        has_room_for_all(d, reports, now),
    ensures
        jobs_are_accounted_for(d.integrate_all(reports, now).scan),
    decreases reports.len(),
{
    if reports.len() > 0 {
        lemma_integrate_all_jobs(d, reports.drop_last(), now);
        let before = d.integrate_all(reports.drop_last(), now);
        lemma_absorb_jobs(before, reports.last(), now);
        let next = before.absorb(reports.last(), now);
        lemma_start_waiting_jobs(next.scan, next.probes, next.cache, now);
    }
}

/// As long as every report comes from a job that runs, the number of running
/// jobs is the number of nodes that are being listed plus the number of nodes
/// that are being summarized: no job is lost, and none is counted twice.
pub proof fn law_running_jobs_stay_accounted_for(
    d: DrainModel,
    reports: Seq<ReportModel>,
    now: Timestamp,
)
    requires
        jobs_are_accounted_for(d.scan),
        are_expected(d, reports, now),
        has_room_for_all(d, reports, now),
    ensures
        jobs_are_accounted_for(d.drain(reports, now).scan),
{
    if d.scan.canceled {
        lemma_same_jobs(d.scan.nodes, d.drain(reports, now).scan.nodes);
    } else {
        lemma_integrate_all_jobs(d, reports, now);
        let next = d.integrate_all(reports, now);
        lemma_start_waiting_jobs(next.scan, next.probes, next.cache, now);
        let waiting = next.scan.start_waiting(next.probes, next.cache, now);
        lemma_with_completed(waiting.nodes, waiting.nodes.len());
        lemma_same_jobs(waiting.nodes, waiting.settle().nodes);
    }
}

/// Asking for children and canceling keep the running jobs accounted for too.
pub proof fn law_requests_keep_jobs_accounted_for(
    m: ScanModel,
    index: TreeIndex,
    options: ScanOptions,
)
    requires
        jobs_are_accounted_for(m),
    ensures
        jobs_are_accounted_for(m.ensure_scanned(index, options)),
        jobs_are_accounted_for(m.cancel()),
        has_one_summary(m) ==> has_one_summary(m.ensure_scanned(index, options)),
        has_one_summary(m.cancel()),
{
    lemma_ensure_scanned_jobs(m, index, options);
    lemma_no_jobs(m.cancel().nodes);
    if has_one_summary(m) {
        let cleared = m.remove_background_summary(index);
        let n = m.ensure_scanned(index, options);
        lemma_same_jobs(m.nodes, cleared.nodes);
        lemma_enqueue_jobs(
            cleared,
            ScanJob::Children(index, options),
            JobPriority::Interactive,
            None,
        );
        lemma_fewer_summaries(m, n);
    }
}

/// Listing ahead of need keeps the running jobs accounted for, and starts no
/// summary.
pub proof fn law_listing_ahead_keeps_jobs_accounted_for(
    m: ScanModel,
    children: Seq<TreeIndex>,
    options: ScanOptions,
)
    requires
        jobs_are_accounted_for(m),
        has_one_summary(m),
    ensures
        jobs_are_accounted_for(m.prefetch(children, options)),
        has_one_summary(m.prefetch(children, options)),
    decreases children.len(),
{
    if children.len() > 0 && m.pressing_jobs() < MAX_SCAN_JOBS {
        law_requests_keep_jobs_accounted_for(m, children[0], options);
        law_listing_ahead_keeps_jobs_accounted_for(
            m.ensure_scanned(children[0], options),
            children.skip(1),
            options,
        );
    }
}

/// Warming the children of directories keeps the running jobs accounted for, and
/// starts no summary.
pub proof fn law_warming_keeps_jobs_accounted_for(
    m: ScanModel,
    parents: Seq<TreeIndex>,
    options: ScanOptions,
    limit: int,
)
    requires
        jobs_are_accounted_for(m),
        has_one_summary(m),
    ensures
        jobs_are_accounted_for(m.warm_visible(parents, options, limit).0),
        has_one_summary(m.warm_visible(parents, options, limit).0),
    decreases parents.len(),
{
    if parents.len() > 0 && m.pressing_jobs() < MAX_SCAN_JOBS {
        if m.has(parents[0]) {
            lemma_warm_children_jobs(
                m,
                sorted(sized_children(m.nodes, m.nodes[parents[0] as int].children)),
                options,
                limit,
            );
        }
        law_warming_keeps_jobs_accounted_for(
            m.warm_parent(parents[0], options, limit).0,
            parents.skip(1),
            options,
            limit,
        );
    }
}

proof fn lemma_warm_children_jobs(
    m: ScanModel,
    children: Seq<SizedChild>,
    options: ScanOptions,
    limit: int,
)
    requires
        jobs_are_accounted_for(m),
        has_one_summary(m),
    ensures
        jobs_are_accounted_for(m.warm_children(children, options, limit).0),
        has_one_summary(m.warm_children(children, options, limit).0),
    decreases children.len(),
{
    if children.len() > 0 && limit > 0 && m.pressing_jobs() < MAX_SCAN_JOBS {
        if m.is_known_or_pending(children[0].index) {
            lemma_warm_children_jobs(m, children.skip(1), options, limit);
        } else {
            law_requests_keep_jobs_accounted_for(m, children[0].index, options);
            let next = m.ensure_scanned(children[0].index, options);
            let added = if next.pressing_jobs() > m.pressing_jobs() {
                1int
            } else {
                0
            };
            lemma_warm_children_jobs(next, children.skip(1), options, limit - added);
        }
    }
}

proof fn lemma_no_jobs(nodes: Seq<NodeModel>)
    requires
        forall|i: int|
            0 <= i < nodes.len() ==> !(#[trigger] nodes[i]).scanning && !nodes[i].summarizing,
    ensures
        jobs_on_nodes(nodes) == 0,
    decreases nodes.len(),
{
    if nodes.len() > 0 {
        assert(nodes.last() == nodes[nodes.len() - 1]);
        lemma_no_jobs(nodes.drop_last());
    }
}

/// A finished scan whose jobs are accounted for works on no node.
pub proof fn law_a_finished_scan_works_on_nothing(m: ScanModel, index: int)
    requires
        jobs_are_accounted_for(m),
        m.is_idle(),
        0 <= index < m.nodes.len(),
    ensures
        !m.nodes[index].scanning,
        !m.nodes[index].summarizing,
{
    lemma_jobs_after_update(m.nodes, index, m.nodes[index]);
}

/// No two nodes are summarized at the same time.
pub open spec fn has_one_summary(m: ScanModel) -> bool {
    forall|i: int, j: int|
        0 <= i < j < m.nodes.len() ==> !((#[trigger] m.nodes[i]).summarizing && (
        #[trigger] m.nodes[j]).summarizing)
}

proof fn lemma_nothing_runs(m: ScanModel)
    requires
        jobs_are_accounted_for(m),
        m.stats.active_jobs == 0,
    ensures
        forall|i: int| 0 <= i < m.nodes.len() ==> !(#[trigger] m.nodes[i]).summarizing,
{
    assert forall|i: int| 0 <= i < m.nodes.len() implies !(#[trigger] m.nodes[i]).summarizing by {
        lemma_jobs_after_update(m.nodes, i, m.nodes[i]);
    }
}

proof fn lemma_start_job_one_summary(m: ScanModel, job: ScanJob, hit: Option<HitModel>)
    requires
        jobs_are_accounted_for(m),
        has_one_summary(m),
        job is Summary ==> m.stats.active_jobs == 0,
    ensures
        has_one_summary(m.start_job(job, hit)),
{
    let n = m.start_job(job, hit);
    lemma_start_job_jobs(m, job, hit);
    if job is Summary {
        lemma_nothing_runs(m);
        assert forall|i: int, j: int| 0 <= i < j < n.nodes.len() implies !((
        #[trigger] n.nodes[i]).summarizing && (#[trigger] n.nodes[j]).summarizing) by {
            if i != job_target(job) {
                assert(!m.nodes[i].summarizing);
            } else {
                assert(!m.nodes[j].summarizing);
            }
        }
    } else {
        assert forall|i: int| 0 <= i < n.nodes.len() implies (#[trigger] n.nodes[i]).summarizing
            == m.nodes[i].summarizing by {}
    }
}

proof fn lemma_start_interactive_one_summary(m: ScanModel)
    requires
        m.is_sound(),
        jobs_are_accounted_for(m),
        has_one_summary(m),
    ensures
        has_one_summary(m.start_interactive()),
    decreases m.queued.len(),
{
    if m.stats.active_jobs < MAX_SCAN_JOBS && m.queued.len() > 0 {
        let popped = ScanModel { queued: m.queued.skip(1), ..m };
        assert(m.queued[0] is Children);
        lemma_pop_queued(m);
        lemma_start_job_keeps(popped, m.queued[0], None);
        lemma_start_job_jobs(popped, m.queued[0], None);
        lemma_start_job_one_summary(popped, m.queued[0], None);
        lemma_start_interactive_one_summary(popped.start_job(m.queued[0], None));
    }
}

proof fn lemma_start_waiting_one_summary(
    m: ScanModel,
    probes: Map<TreeIndex, MetadataFingerprint>,
    cache: Map<CacheKey, CachedModel>,
    now: Timestamp,
)
    requires
        m.is_sound(),
        jobs_are_accounted_for(m),
        has_one_summary(m),
    ensures
        has_one_summary(m.start_waiting(probes, cache, now)),
{
    lemma_start_interactive_keeps(m);
    lemma_start_interactive_jobs(m);
    lemma_start_interactive_one_summary(m);
    let next = m.start_interactive();
    if next.stats.active_jobs == 0 && next.background.len() > 0 {
        lemma_start_job_one_summary(
            ScanModel { background: next.background.skip(1), ..next },
            next.background[0],
            next.recalled_for(next.background[0], probes, cache, now),
        );
    }
}

proof fn lemma_with_children_one_summary(
    b: BatchModel,
    parent: TreeIndex,
    entries: Seq<ScannedModel>,
    probes: Seq<Option<MetadataFingerprint>>,
    options: ScanOptions,
    cache: Map<CacheKey, CachedModel>,
    now: Timestamp,
)
    requires
        jobs_are_accounted_for(b.scan),
        has_one_summary(b.scan),
        b.scan.nodes.len() + entries.len() <= usize::MAX,
    ensures
        has_one_summary(b.with_children(parent, entries, probes, options, cache, now).scan),
    decreases entries.len(),
{
    if entries.len() > 0 {
        let last = entries.len() - 1;
        let shorter = entries.drop_last();
        lemma_with_children_one_summary(b, parent, shorter, probes, options, cache, now);
        lemma_with_children_jobs(b, parent, shorter, probes, options, cache, now);
        let before = b.with_children(parent, shorter, probes, options, cache, now);
        let probe = if last < probes.len() {
            probes[last]
        } else {
            None
        };
        let hit = if entries[last].is_dir {
            recalled(remembered(cache, entries[last].path, options, probe), now)
        } else {
            None
        };
        let job = ScanJob::Summary(before.scan.nodes.len() as usize, options);
        let node = found_node(parent, entries[last], hit);
        let grown = ScanModel { nodes: before.scan.nodes.push(node), ..before.scan };
        assert(grown.nodes.drop_last() =~= before.scan.nodes);
        assert(jobs_on_nodes(grown.nodes) == jobs_on_nodes(before.scan.nodes));
        assert(has_one_summary(grown)) by {
            assert forall|i: int, j: int| 0 <= i < j < grown.nodes.len() implies !((
            #[trigger] grown.nodes[i]).summarizing && (#[trigger] grown.nodes[j]).summarizing) by {
                if j < before.scan.nodes.len() {
                    assert(grown.nodes[i] == before.scan.nodes[i]);
                    assert(grown.nodes[j] == before.scan.nodes[j]);
                }
            }
        }
        let n = grown.enqueue(job, JobPriority::Background, hit);
        if !grown.job_is_redundant(job) {
            if grown.can_start(JobPriority::Background) {
                lemma_start_job_one_summary(grown, job, hit);
            } else {
                assert forall|i: int|
                    0 <= i < n.nodes.len() implies (#[trigger] n.nodes[i]).summarizing
                    == grown.nodes[i].summarizing by {}
            }
        }
        assert(has_one_summary(n));
    }
}

/// No node is summarized that was not so before.
proof fn lemma_fewer_summaries(m: ScanModel, n: ScanModel)
    requires
        has_one_summary(m),
        n.nodes.len() == m.nodes.len(),
        forall|i: int|
            0 <= i < n.nodes.len() ==> ((#[trigger] n.nodes[i]).summarizing
                ==> m.nodes[i].summarizing),
    ensures
        has_one_summary(n),
{
    assert forall|i: int, j: int| 0 <= i < j < n.nodes.len() implies !((
    #[trigger] n.nodes[i]).summarizing && (#[trigger] n.nodes[j]).summarizing) by {
        assert(!(m.nodes[i].summarizing && m.nodes[j].summarizing));
    }
}

proof fn lemma_absorb_one_summary(d: DrainModel, report: ReportModel, now: Timestamp)
    requires
        jobs_are_accounted_for(d.scan),
        has_one_summary(d.scan),
        has_room_for(d.scan, report.event),
    ensures
        has_one_summary(d.absorb(report, now).scan),
{
    let m = d.scan;
    let n = d.absorb(report, now).scan;
    match report.event {
        EventModel::ChildrenBatch { parent, children, options, stats, done } => {
            if m.has(parent) {
                let first = BatchModel {
                    scan: m,
                    probes: d.probes,
                    background: count_estimating(m.nodes, m.nodes[parent as int].children),
                    size: 0,
                };
                lemma_with_children_one_summary(
                    first,
                    parent,
                    children,
                    report.child_probes,
                    options,
                    d.cache,
                    now,
                );
                lemma_with_children_jobs(
                    first,
                    parent,
                    children,
                    report.child_probes,
                    options,
                    d.cache,
                    now,
                );
                let batch = first.with_children(
                    parent,
                    children,
                    report.child_probes,
                    options,
                    d.cache,
                    now,
                );
                lemma_fewer_summaries(batch.scan, n);
            } else {
                lemma_fewer_summaries(m, n);
            }
        },
        EventModel::Summary { index, options, summary } => {
            if m.has(index) {
                let changed = NodeModel {
                    summarized: true,
                    summarizing: false,
                    ..with_counts(m.nodes[index as int], summary)
                };
                lemma_resized(m.nodes, index as int, changed);
            }
            lemma_fewer_summaries(m, n);
        },
        EventModel::SummaryProgress { index, progress } => {
            lemma_fewer_summaries(m, n);
        },
    }
}

proof fn lemma_integrate_all_one_summary(d: DrainModel, reports: Seq<ReportModel>, now: Timestamp)
    requires
        d.scan.wf(),
        jobs_are_accounted_for(d.scan),
        has_one_summary(d.scan),
        are_expected(d, reports, now),
        has_room_for_all(d, reports, now),
    ensures
        d.integrate_all(reports, now).scan.wf(),
        has_one_summary(d.integrate_all(reports, now).scan),
    decreases reports.len(),
{
    if reports.len() > 0 {
        let report = reports.last();
        lemma_integrate_all_one_summary(d, reports.drop_last(), now);
        lemma_integrate_all_jobs(d, reports.drop_last(), now);
        let before = d.integrate_all(reports.drop_last(), now);
        lemma_absorb_jobs(before, report, now);
        lemma_absorb_one_summary(before, report, now);
        lemma_absorb_keeps(before, report, now);
        let next = before.absorb(report, now);
        lemma_start_waiting_keeps(next.scan, next.probes, next.cache, now);
        lemma_start_waiting_one_summary(next.scan, next.probes, next.cache, now);
    }
}

pub proof fn lemma_absorb_keeps(d: DrainModel, report: ReportModel, now: Timestamp)
    requires
        d.scan.wf(),
        has_room_for(d.scan, report.event),
    ensures
        d.absorb(report, now).scan.wf(),
{
    match report.event {
        EventModel::ChildrenBatch { parent, children, options, stats, done } => {
            lemma_integrate_children_keeps(
                d.scan,
                parent,
                children,
                report.child_probes,
                options,
                stats,
                done,
                d.probes,
                d.cache,
                now,
            );
        },
        EventModel::Summary { index, options, summary } => {
            lemma_integrate_summary_keeps(d.scan, index, summary);
        },
        EventModel::SummaryProgress { index, progress } => {
            lemma_integrate_progress_keeps(d.scan, index, progress);
        },
    }
}

pub proof fn lemma_integrate_all_keeps(d: DrainModel, reports: Seq<ReportModel>, now: Timestamp)
    requires
        d.scan.wf(),
        has_room_for_all(d, reports, now),
    ensures
        d.integrate_all(reports, now).scan.wf(),
    decreases reports.len(),
{
    if reports.len() > 0 {
        lemma_integrate_all_keeps(d, reports.drop_last(), now);
        let before = d.integrate_all(reports.drop_last(), now);
        lemma_absorb_keeps(before, reports.last(), now);
        let next = before.absorb(reports.last(), now);
        lemma_start_waiting_keeps(next.scan, next.probes, next.cache, now);
    }
}

/// Background work leaves room for what somebody waits for: at most one node is
/// summarized at a time, as long as every report comes from a job that runs.
pub proof fn law_background_work_leaves_room(
    d: DrainModel,
    reports: Seq<ReportModel>,
    now: Timestamp,
)
    requires
        d.scan.wf(),
        jobs_are_accounted_for(d.scan),
        has_one_summary(d.scan),
        are_expected(d, reports, now),
        has_room_for_all(d, reports, now),
    ensures
        has_one_summary(d.drain(reports, now).scan),
{
    if d.scan.canceled {
        lemma_fewer_summaries(d.scan, d.drain(reports, now).scan);
    } else {
        lemma_integrate_all_one_summary(d, reports, now);
        lemma_integrate_all_jobs(d, reports, now);
        let next = d.integrate_all(reports, now);
        lemma_start_waiting_keeps(next.scan, next.probes, next.cache, now);
        lemma_start_waiting_one_summary(next.scan, next.probes, next.cache, now);
        let waiting = next.scan.start_waiting(next.probes, next.cache, now);
        lemma_with_completed(waiting.nodes, waiting.nodes.len());
        lemma_fewer_summaries(waiting, waiting.settle());
    }
}

} // verus!

//! How much background work there is for one directory.
use crate::clock::Timestamp;
use crate::order::sorted;
use crate::scan::cache::{remembered, CacheKey, CachedModel};
use crate::scan::data::{
    EntryMetadata, EventModel, JobPriority, MetadataFingerprint, NodeModel, ScanJob, ScanOptions,
    ScannedModel, TreeIndex, BACKGROUND_SUMMARIES_PER_LEVEL, MAX_SCAN_JOBS,
};
use crate::scan::job_laws::{
    has_one_summary, has_room_for, has_room_for_all, jobs_are_accounted_for, jobs_on,
    jobs_on_nodes,
};
use crate::scan::keeps::{
    lemma_enqueue_keeps, lemma_ensure_scanned_keeps, lemma_integrate_children_keeps,
    lemma_integrate_progress_keeps,
    lemma_integrate_summary_keeps, lemma_pop_background, lemma_pop_queued,
    lemma_remove_background_keeps, lemma_resized, lemma_start_interactive_keeps,
    lemma_start_job_keeps, lemma_start_waiting_keeps, lemma_with_children_keeps,
    lemma_with_completed, same_tree,
};
use crate::scan::model::{
    count_estimating, found_node, fresh_scan, job_target, recalled, sized_children,
    some_job_summarizes, summarizes, with_counts, BatchModel, DrainModel, HitModel, ReportModel,
    ScanModel, SizedChild,
};
use vstd::prelude::*;

verus! {

/// Whether a directory is being summarized or waits for it.
pub open spec fn is_estimating(node: NodeModel) -> bool {
    node.is_dir && (node.summarizing || node.summary_queued)
}

/// Of the children of one directory, at most so many are summarized or wait for
/// it as the limit allows.
pub open spec fn estimates_are_bounded(m: ScanModel) -> bool {
    forall|i: int|
        0 <= i < m.nodes.len() ==> #[trigger] count_estimating(m.nodes, m.nodes[i].children)
            <= BACKGROUND_SUMMARIES_PER_LEVEL
}

/// No node is estimating that was not so before.
spec fn estimates_shrink(a: Seq<NodeModel>, b: Seq<NodeModel>) -> bool {
    &&& a.len() <= b.len()
    &&& forall|i: int|
        #![trigger a[i]]
        #![trigger b[i]]
        0 <= i < a.len() ==> (is_estimating(b[i]) ==> is_estimating(a[i]))
}

proof fn lemma_count_shrinks(a: Seq<NodeModel>, b: Seq<NodeModel>, children: Seq<TreeIndex>)
    requires
        estimates_shrink(a, b),
        forall|k: int| 0 <= k < children.len() ==> #[trigger] children[k] < a.len(),
    ensures
        count_estimating(b, children) <= count_estimating(a, children),
    decreases children.len(),
{
    if children.len() > 0 {
        let rest = children.drop_last();
        assert forall|k: int| 0 <= k < rest.len() implies #[trigger] rest[k] < a.len() by {
            assert(rest[k] == children[k]);
        }
        lemma_count_shrinks(a, b, rest);
        assert(children.last() == children[children.len() - 1]);
        assert(is_estimating(b[children.last() as int]) ==> is_estimating(
            a[children.last() as int],
        ));
    }
}

proof fn lemma_shrinking_keeps_bound(m: ScanModel, n: ScanModel)
    requires
        m.is_tree(),
        same_tree(m.nodes, n.nodes),
        estimates_shrink(m.nodes, n.nodes),
        estimates_are_bounded(m),
    ensures
        estimates_are_bounded(n),
{
    assert forall|i: int| 0 <= i < n.nodes.len() implies #[trigger] count_estimating(
        n.nodes,
        n.nodes[i].children,
    ) <= BACKGROUND_SUMMARIES_PER_LEVEL by {
        let children = m.nodes[i].children;
        assert(n.nodes[i].children == children);
        assert forall|k: int| 0 <= k < children.len() implies #[trigger] children[k]
            < m.nodes.len() by {
            assert(m.nodes[i].children[k] < m.nodes.len());
        }
        lemma_count_shrinks(m.nodes, n.nodes, children);
    }
}

/// The start of a job makes no other node estimating than that of a summary.
proof fn lemma_start_job_estimates(m: ScanModel, job: ScanJob, hit: Option<HitModel>)
    ensures
        ({
            let n = m.start_job(job, hit);
            &&& n.nodes.len() == m.nodes.len()
            &&& forall|i: int|
                #![trigger n.nodes[i]]
                0 <= i < m.nodes.len() && (is_estimating(n.nodes[i]) ==> is_estimating(m.nodes[i]))
                    || !(0 <= i < m.nodes.len()) || (job is Summary && i == job_target(job))
        }),
{
    if let ScanJob::Summary(index, options) = job {
        if m.has(index) {
            let node = m.nodes[index as int];
            let unmarked = m.with_node(index, NodeModel { summary_queued: false, ..node });
            if let Some(known) = hit {
                let changed = NodeModel {
                    summarized: node.summarized || known.fresh,
                    summary_queued: false,
                    summarizing: node.summarizing && !known.fresh,
                    ..with_counts(unmarked.nodes[index as int], known.summary)
                };
                lemma_resized(unmarked.nodes, index as int, changed);
            }
        }
    }
}

proof fn lemma_start_interactive_estimates(m: ScanModel)
    requires
        m.is_sound(),
    ensures
        estimates_shrink(m.nodes, m.start_interactive().nodes),
        m.start_interactive().nodes.len() == m.nodes.len(),
    decreases m.queued.len(),
{
    if m.stats.active_jobs < MAX_SCAN_JOBS && m.queued.len() > 0 {
        let popped = ScanModel { queued: m.queued.skip(1), ..m };
        assert(m.queued[0] is Children);
        lemma_pop_queued(m);
        lemma_start_job_keeps(popped, m.queued[0], None);
        lemma_start_job_estimates(popped, m.queued[0], None);
        let next = popped.start_job(m.queued[0], None);
        lemma_start_interactive_estimates(next);
        assert forall|i: int|
            0 <= i < m.nodes.len() && is_estimating(
                #[trigger] m.start_interactive().nodes[i],
            ) implies is_estimating(m.nodes[i]) by {
            assert(is_estimating(next.nodes[i]) ==> is_estimating(m.nodes[i]));
        }
    }
}

proof fn lemma_start_waiting_estimates(
    m: ScanModel,
    probes: Map<TreeIndex, MetadataFingerprint>,
    cache: Map<CacheKey, CachedModel>,
    now: Timestamp,
)
    requires
        m.is_sound(),
        estimates_are_bounded(m),
    ensures
        estimates_are_bounded(m.start_waiting(probes, cache, now)),
{
    let next = m.start_interactive();
    let n = m.start_waiting(probes, cache, now);
    lemma_start_interactive_keeps(m);
    lemma_start_interactive_estimates(m);
    lemma_start_waiting_keeps(m, probes, cache, now);
    lemma_shrinking_keeps_bound(m, next);
    if next.stats.active_jobs == 0 && next.background.len() > 0 {
        let popped = ScanModel { background: next.background.skip(1), ..next };
        let job = next.background[0];
        let hit = next.recalled_for(job, probes, cache, now);
        lemma_start_job_estimates(popped, job, hit);
        lemma_pop_background(next);
        lemma_start_job_keeps(popped, job, hit);
        let target = job_target(job) as int;
        assert(summarizes(job, job_target(job)));
        assert(some_job_summarizes(next.background, job_target(job)));
        assert(next.nodes[target].summary_queued);
        lemma_start_job_keeps_kind(popped, job, hit);
        assert(estimates_shrink(next.nodes, n.nodes));
        lemma_shrinking_keeps_bound(next, n);
    }
}

proof fn lemma_start_job_keeps_kind(m: ScanModel, job: ScanJob, hit: Option<HitModel>)
    ensures
        forall|i: int|
            #![trigger m.start_job(job, hit).nodes[i]]
            0 <= i < m.nodes.len() ==> m.start_job(job, hit).nodes[i].is_dir == m.nodes[i].is_dir,
{
    if let ScanJob::Summary(index, options) = job {
        if m.has(index) {
            let node = m.nodes[index as int];
            let unmarked = m.with_node(index, NodeModel { summary_queued: false, ..node });
            if let Some(known) = hit {
                let changed = NodeModel {
                    summarized: node.summarized || known.fresh,
                    summary_queued: false,
                    summarizing: node.summarizing && !known.fresh,
                    ..with_counts(unmarked.nodes[index as int], known.summary)
                };
                lemma_resized(unmarked.nodes, index as int, changed);
            }
        }
    }
}

/// An enqueued summary makes no other node estimating than its own.
proof fn lemma_enqueue_estimates(
    m: ScanModel,
    job: ScanJob,
    priority: JobPriority,
    hit: Option<HitModel>,
)
    ensures
        ({
            let n = m.enqueue(job, priority, hit);
            &&& n.nodes.len() == m.nodes.len()
            &&& forall|i: int|
                #![trigger n.nodes[i]]
                0 <= i < m.nodes.len() && (is_estimating(n.nodes[i]) ==> is_estimating(m.nodes[i]))
                    || !(0 <= i < m.nodes.len()) || (job is Summary && i == job_target(job))
        }),
{
    lemma_start_job_estimates(m, job, hit);
}

/// The numbers from one on.
spec fn numbers_from(first: int, count: int) -> Seq<TreeIndex> {
    Seq::new(count as nat, |i: int| (first + i) as usize)
}

proof fn lemma_with_children_estimates(
    b: BatchModel,
    parent: TreeIndex,
    entries: Seq<ScannedModel>,
    probes: Seq<Option<MetadataFingerprint>>,
    options: ScanOptions,
    cache: Map<CacheKey, CachedModel>,
    now: Timestamp,
)
    requires
        b.scan.nodes.len() + entries.len() <= usize::MAX,
        b.background <= BACKGROUND_SUMMARIES_PER_LEVEL,
    ensures
        ({
            let r = b.with_children(parent, entries, probes, options, cache, now);
            let base = b.scan.nodes.len() as int;
            let count = entries.len() as int;
            &&& r.scan.nodes.len() == base + count
            &&& estimates_shrink(b.scan.nodes, r.scan.nodes)
            &&& r.background <= BACKGROUND_SUMMARIES_PER_LEVEL
            &&& count_estimating(r.scan.nodes, numbers_from(base, count)) <= r.background
                - b.background
        }),
    decreases entries.len(),
{
    let base = b.scan.nodes.len() as int;
    let count = entries.len() as int;
    let r = b.with_children(parent, entries, probes, options, cache, now);
    if entries.len() > 0 {
        let last = entries.len() - 1;
        lemma_with_children_estimates(b, parent, entries.drop_last(), probes, options, cache, now);
        let before = b.with_children(parent, entries.drop_last(), probes, options, cache, now);
        let probe = if last < probes.len() {
            probes[last]
        } else {
            None
        };
        assert(r == before.with_child(parent, entries[last], probe, options, cache, now));
        let index = before.scan.nodes.len() as usize;
        let hit = if entries[last].is_dir {
            recalled(remembered(cache, entries[last].path, options, probe), now)
        } else {
            None
        };
        let node = found_node(parent, entries[last], hit);
        let grown = ScanModel { nodes: before.scan.nodes.push(node), ..before.scan };
        lemma_enqueue_estimates(
            grown,
            ScanJob::Summary(index, options),
            JobPriority::Background,
            hit,
        );
        assert forall|i: int|
            0 <= i < before.scan.nodes.len() && is_estimating(
                #[trigger] r.scan.nodes[i],
            ) implies is_estimating(before.scan.nodes[i]) by {
            assert(grown.nodes[i] == before.scan.nodes[i]);
        }
        assert forall|i: int|
            0 <= i < base && is_estimating(#[trigger] r.scan.nodes[i]) implies is_estimating(
            b.scan.nodes[i],
        ) by {
            assert(is_estimating(before.scan.nodes[i]) ==> is_estimating(b.scan.nodes[i]));
        }
        let all = numbers_from(base, count);
        let earlier = numbers_from(base, count - 1);
        assert(all.drop_last() =~= earlier);
        assert(all.last() == index);
        assert forall|k: int| 0 <= k < earlier.len() implies #[trigger] earlier[k]
            < before.scan.nodes.len() by {}
        lemma_count_shrinks(before.scan.nodes, r.scan.nodes, earlier);
    }
}

proof fn lemma_count_concat(nodes: Seq<NodeModel>, a: Seq<TreeIndex>, b: Seq<TreeIndex>)
    ensures
        count_estimating(nodes, a + b) == count_estimating(nodes, a) + count_estimating(nodes, b),
    decreases b.len(),
{
    if b.len() == 0 {
        assert(a + b =~= a);
    } else {
        assert((a + b).drop_last() =~= a + b.drop_last());
        lemma_count_concat(nodes, a, b.drop_last());
    }
}

proof fn lemma_batch_estimates(d: DrainModel, report: ReportModel, now: Timestamp)
    requires
        d.scan.wf(),
        estimates_are_bounded(d.scan),
        has_room_for(d.scan, report.event),
        report.event is ChildrenBatch,
    ensures
        estimates_are_bounded(d.absorb(report, now).scan),
{
    let m = d.scan;
    let n = d.absorb(report, now).scan;
    if let EventModel::ChildrenBatch { parent, children, options, stats, done } = report.event {
        if m.has(parent) {
            let at = parent as int;
            let first = BatchModel {
                scan: m,
                probes: d.probes,
                background: count_estimating(m.nodes, m.nodes[at].children),
                size: 0,
            };
            assert(m.nodes[at] == m.nodes[at]);
            let r = first.with_children(
                parent,
                children,
                report.child_probes,
                options,
                d.cache,
                now,
            );
            lemma_with_children_estimates(
                first,
                parent,
                children,
                report.child_probes,
                options,
                d.cache,
                now,
            );
            lemma_with_children_keeps(
                first,
                parent,
                children,
                report.child_probes,
                options,
                d.cache,
                now,
            );
            let added = numbers_from(m.nodes.len() as int, children.len() as int);
            assert forall|i: int| 0 <= i < n.nodes.len() implies #[trigger] count_estimating(
                n.nodes,
                n.nodes[i].children,
            ) <= BACKGROUND_SUMMARIES_PER_LEVEL by {
                assert(estimates_shrink(r.scan.nodes, n.nodes));
                let links = n.nodes[i].children;
                if i < m.nodes.len() {
                    let old_links = m.nodes[i].children;
                    assert(r.scan.nodes[i].children == old_links);
                    assert forall|k: int| 0 <= k < old_links.len() implies #[trigger] old_links[k]
                        < m.nodes.len() by {
                        assert(m.nodes[i].children[k] < m.nodes.len());
                    }
                    lemma_count_shrinks(m.nodes, r.scan.nodes, old_links);
                    lemma_count_shrinks(r.scan.nodes, n.nodes, old_links);
                    if i == at {
                        assert(links =~= old_links + added);
                        lemma_count_concat(n.nodes, old_links, added);
                        assert forall|k: int| 0 <= k < added.len() implies #[trigger] added[k]
                            < r.scan.nodes.len() by {}
                        lemma_count_shrinks(r.scan.nodes, n.nodes, added);
                    }
                } else {
                    assert(r.scan.nodes[i].children.len() == 0);
                    assert(links.len() == 0);
                }
            }
        } else {
            lemma_shrinking_keeps_bound(m, n);
        }
    }
}

pub proof fn lemma_integrate_estimates(d: DrainModel, report: ReportModel, now: Timestamp)
    requires
        d.scan.wf(),
        estimates_are_bounded(d.scan),
        has_room_for(d.scan, report.event),
    ensures
        d.integrate(report, now).scan.wf(),
        estimates_are_bounded(d.integrate(report, now).scan),
{
    let m = d.scan;
    let next = d.absorb(report, now);
    match report.event {
        EventModel::ChildrenBatch { parent, children, options, stats, done } => {
            lemma_batch_estimates(d, report, now);
            lemma_integrate_children_keeps(
                m,
                parent,
                children,
                report.child_probes,
                options,
                stats,
                done,
                d.probes,
                d.cache,
                now,
            );
        },
        EventModel::Summary { index, options, summary } => {
            lemma_integrate_summary_keeps(m, index, summary);
            if m.has(index) {
                let changed = NodeModel {
                    summarized: true,
                    summarizing: false,
                    ..with_counts(m.nodes[index as int], summary)
                };
                lemma_resized(m.nodes, index as int, changed);
            }
            lemma_shrinking_keeps_bound(m, next.scan);
        },
        EventModel::SummaryProgress { index, progress } => {
            lemma_integrate_progress_keeps(m, index, progress);
            lemma_shrinking_keeps_bound(m, next.scan);
        },
    }
    lemma_start_waiting_keeps(next.scan, next.probes, next.cache, now);
    lemma_start_waiting_estimates(next.scan, next.probes, next.cache, now);
}

proof fn lemma_integrate_all_estimates(d: DrainModel, reports: Seq<ReportModel>, now: Timestamp)
    requires
        d.scan.wf(),
        estimates_are_bounded(d.scan),
        has_room_for_all(d, reports, now),
    ensures
        d.integrate_all(reports, now).scan.wf(),
        estimates_are_bounded(d.integrate_all(reports, now).scan),
    decreases reports.len(),
{
    if reports.len() > 0 {
        lemma_integrate_all_estimates(d, reports.drop_last(), now);
        lemma_integrate_estimates(
            d.integrate_all(reports.drop_last(), now),
            reports.last(),
            now,
        );
    }
}

/// Whatever is reported, of the children of one directory at most so many are
/// summarized in the background, or wait for it, as the limit allows.
pub proof fn law_background_work_per_directory_stays_bounded(
    d: DrainModel,
    reports: Seq<ReportModel>,
    now: Timestamp,
)
    requires
        d.scan.wf(),
        estimates_are_bounded(d.scan),
        has_room_for_all(d, reports, now),
    ensures
        estimates_are_bounded(d.drain(reports, now).scan),
{
    if d.scan.canceled {
        lemma_shrinking_keeps_bound(d.scan, d.drain(reports, now).scan);
    } else {
        lemma_integrate_all_estimates(d, reports, now);
        let next = d.integrate_all(reports, now);
        lemma_start_waiting_keeps(next.scan, next.probes, next.cache, now);
        lemma_start_waiting_estimates(next.scan, next.probes, next.cache, now);
        let waiting = next.scan.start_waiting(next.probes, next.cache, now);
        lemma_with_completed(waiting.nodes, waiting.nodes.len());
        lemma_shrinking_keeps_bound(waiting, waiting.settle());
    }
}

/// Asking for children adds no background work.
pub proof fn law_requests_add_no_background_work(
    m: ScanModel,
    index: TreeIndex,
    options: ScanOptions,
)
    requires
        m.wf(),
        estimates_are_bounded(m),
    ensures
        estimates_are_bounded(m.ensure_scanned(index, options)),
{
    let cleared = m.remove_background_summary(index);
    lemma_remove_background_keeps(m, index);
    lemma_shrinking_keeps_bound(m, cleared);
    lemma_enqueue_keeps(
        cleared,
        ScanJob::Children(index, options),
        JobPriority::Interactive,
        None,
    );
    lemma_enqueue_estimates(
        cleared,
        ScanJob::Children(index, options),
        JobPriority::Interactive,
        None,
    );
    lemma_shrinking_keeps_bound(cleared, m.ensure_scanned(index, options));
}

/// Canceling adds no background work, and neither does taking out the jobs that
/// were started.
pub proof fn law_canceling_adds_no_background_work(m: ScanModel)
    requires
        m.wf(),
        estimates_are_bounded(m),
    ensures
        estimates_are_bounded(m.cancel()),
        estimates_are_bounded(ScanModel { started: Seq::empty(), ..m }),
{
    lemma_shrinking_keeps_bound(m, m.cancel());
    lemma_shrinking_keeps_bound(m, ScanModel { started: Seq::empty(), ..m });
}

/// Listing ahead of need adds no background work.
pub proof fn law_listing_ahead_adds_no_background_work(
    m: ScanModel,
    children: Seq<TreeIndex>,
    options: ScanOptions,
)
    requires
        m.wf(),
        estimates_are_bounded(m),
    ensures
        estimates_are_bounded(m.prefetch(children, options)),
    decreases children.len(),
{
    if children.len() > 0 && m.pressing_jobs() < MAX_SCAN_JOBS {
        lemma_ensure_scanned_keeps(m, children[0], options);
        law_requests_add_no_background_work(m, children[0], options);
        law_listing_ahead_adds_no_background_work(
            m.ensure_scanned(children[0], options),
            children.skip(1),
            options,
        );
    }
}

/// Warming adds no background work.
pub proof fn law_warming_adds_no_background_work(
    m: ScanModel,
    parents: Seq<TreeIndex>,
    options: ScanOptions,
    limit: int,
)
    requires
        m.wf(),
        estimates_are_bounded(m),
    ensures
        estimates_are_bounded(m.warm_visible(parents, options, limit).0),
    decreases parents.len(),
{
    if parents.len() > 0 && m.pressing_jobs() < MAX_SCAN_JOBS {
        if m.has(parents[0]) {
            lemma_warm_children_estimates(
                m,
                sorted(sized_children(m.nodes, m.nodes[parents[0] as int].children)),
                options,
                limit,
            );
        }
        law_warming_adds_no_background_work(
            m.warm_parent(parents[0], options, limit).0,
            parents.skip(1),
            options,
            limit,
        );
    }
}

proof fn lemma_warm_children_estimates(
    m: ScanModel,
    children: Seq<SizedChild>,
    options: ScanOptions,
    limit: int,
)
    requires
        m.wf(),
        estimates_are_bounded(m),
    ensures
        m.warm_children(children, options, limit).0.wf(),
        estimates_are_bounded(m.warm_children(children, options, limit).0),
    decreases children.len(),
{
    if children.len() > 0 && limit > 0 && m.pressing_jobs() < MAX_SCAN_JOBS {
        if m.is_known_or_pending(children[0].index) {
            lemma_warm_children_estimates(m, children.skip(1), options, limit);
        } else {
            lemma_ensure_scanned_keeps(m, children[0].index, options);
            law_requests_add_no_background_work(m, children[0].index, options);
            let next = m.ensure_scanned(children[0].index, options);
            let added = if next.pressing_jobs() > m.pressing_jobs() {
                1int
            } else {
                0
            };
            lemma_warm_children_estimates(next, children.skip(1), options, limit - added);
        }
    }
}

/// What the laws on jobs start from holds of a scan that has just begun.
pub proof fn law_a_fresh_scan_is_in_order(
    root: Seq<u8>,
    name: Seq<char>,
    metadata: EntryMetadata,
    options: ScanOptions,
)
    ensures
        jobs_are_accounted_for(fresh_scan(root, name, metadata, options)),
        has_one_summary(fresh_scan(root, name, metadata, options)),
        estimates_are_bounded(fresh_scan(root, name, metadata, options)),
{
    let m = fresh_scan(root, name, metadata, options);
    assert(m.nodes.len() == 1);
    assert(m.nodes.drop_last() =~= Seq::empty());
    assert(jobs_on_nodes(Seq::<NodeModel>::empty()) == 0);
    assert(jobs_on_nodes(m.nodes) == jobs_on(m.nodes[0]));
    assert(m.nodes[0].children.len() == 0);
}

} // verus!

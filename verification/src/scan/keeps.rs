//! Every operation on a scan keeps what holds of scans.
use crate::clock::Timestamp;
use crate::scan::cache::{remembered, CacheKey, CachedModel};
use crate::scan::data::{
    EntryMetadata, JobPriority, MetadataFingerprint, NodeModel, ScanJob, ScanOptions, ScannedModel,
    StatsModel, SummaryModel, SummaryProgress, TreeIndex, MAX_SCAN_JOBS,
};
use crate::scan::model::{
    completes, count_estimating, first_size, found_node, fresh_scan, is_above, job_target,
    lists_children_of, recalled, some_job_lists, some_job_summarizes, summarizes, with_completed,
    with_counts, with_resized, without_summary_of, BatchModel, HitModel, ScanModel,
};
use vstd::prelude::*;

verus! {

/// Two lists of nodes with the same parents and children.
pub open spec fn same_tree(a: Seq<NodeModel>, b: Seq<NodeModel>) -> bool {
    &&& a.len() == b.len()
    &&& forall|i: int|
        #![trigger a[i]]
        #![trigger b[i]]
        0 <= i < a.len() ==> a[i].parent == b[i].parent && a[i].children == b[i].children
}

/// Two lists of nodes of which the same wait for their summaries.
pub open spec fn same_marks(a: Seq<NodeModel>, b: Seq<NodeModel>) -> bool {
    &&& a.len() == b.len()
    &&& forall|i: int|
        #![trigger a[i]]
        #![trigger b[i]]
        0 <= i < a.len() ==> a[i].summary_queued == b[i].summary_queued
}

pub proof fn lemma_same_tree(m: ScanModel, n: ScanModel)
    requires
        same_tree(m.nodes, n.nodes),
    ensures
        m.is_tree() ==> n.is_tree(),
        m.is_tree() && m.is_linked() ==> n.is_linked(),
{
    if m.is_tree() {
        assert forall|i: int, k: int|
            #![trigger n.nodes[i].children[k]]
            0 <= i < n.nodes.len() && 0 <= k < n.nodes[i].children.len() implies n.nodes[i].children[k]
            < n.nodes.len() && n.nodes[n.nodes[i].children[k] as int].parent == Some(
            i as usize,
        ) by {
            assert(m.nodes[i].children[k] == n.nodes[i].children[k]);
            assert(m.nodes[m.nodes[i].children[k] as int].parent == Some(i as usize));
        }
        assert forall|i: int, j: int, k: int|
            #![trigger n.nodes[i].children[j], n.nodes[i].children[k]]
            0 <= i < n.nodes.len() && 0 <= j < k
                < n.nodes[i].children.len() implies n.nodes[i].children[j]
            < n.nodes[i].children[k] by {
            assert(m.nodes[i].children[j] < m.nodes[i].children[k]);
        }
        if m.is_linked() {
            assert forall|i: int|
                #![trigger n.nodes[i]]
                0 < i
                    < n.nodes.len() implies n.nodes[n.nodes[i].parent->0 as int].children.contains(
                i as usize,
            ) by {
                assert(m.nodes[i].parent is Some && m.nodes[i].parent->0 < i);
                assert(m.nodes[m.nodes[i].parent->0 as int].children.contains(i as usize));
            }
        }
    }
}

pub proof fn lemma_same_marks(m: ScanModel, n: ScanModel)
    requires
        same_marks(m.nodes, n.nodes),
        m.queued == n.queued,
        m.background == n.background,
        m.has_orderly_queues(),
    ensures
        n.has_orderly_queues(),
{
    assert forall|i: int|
        #![trigger n.nodes[i]]
        0 <= i < n.nodes.len() implies (n.nodes[i].summary_queued <==> some_job_summarizes(
        n.background,
        i as usize,
    )) by {
        assert(m.nodes[i].summary_queued == n.nodes[i].summary_queued);
    }
}

pub proof fn lemma_resized(nodes: Seq<NodeModel>, index: int, node: NodeModel)
    requires
        0 <= index < nodes.len(),
        node.parent == nodes[index].parent,
        node.children == nodes[index].children,
    ensures
        same_tree(nodes, with_resized(nodes, index, node)),
        same_marks(nodes.update(index, node), with_resized(nodes, index, node)),
        with_resized(nodes, index, node).len() == nodes.len(),
        with_resized(nodes, index, node)[index] == node,
        forall|k: int|
            #![trigger with_resized(nodes, index, node)[k]]
            0 <= k < nodes.len() && k != index ==> with_resized(nodes, index, node)[k]
                == (NodeModel { size: with_resized(nodes, index, node)[k].size, ..nodes[k] }),
{
    lemma_above_is_smaller(nodes.update(index, node), index, index);
}

/// A node lies above another only if it comes before it.
pub proof fn lemma_above_is_smaller(nodes: Seq<NodeModel>, above: int, index: int)
    ensures
        is_above(nodes, above, index) ==> 0 <= above < index,
    decreases index,
{
    match nodes[index].parent {
        Some(parent) => {
            if 0 <= parent < index {
                lemma_above_is_smaller(nodes, above, parent as int);
            }
        },
        None => {},
    }
}

pub proof fn lemma_scan_children_keeps(m: ScanModel, index: TreeIndex, options: ScanOptions)
    requires
        m.is_sound(),
        m.stats.active_jobs < MAX_SCAN_JOBS,
    ensures
        m.scan_children(index, options).is_sound(),
        same_tree(m.nodes, m.scan_children(index, options).nodes),
        m.wf() ==> m.scan_children(index, options).wf(),
{
    let n = m.scan_children(index, options);
    lemma_same_tree(m, n);
    lemma_same_marks(m, n);
}

pub proof fn lemma_apply_cached_keeps(
    m: ScanModel,
    index: TreeIndex,
    summary: SummaryModel,
    complete: bool,
)
    requires
        m.is_sound(),
        m.has(index) ==> !m.nodes[index as int].summary_queued,
    ensures
        m.apply_cached(index, summary, complete).is_sound(),
        same_tree(m.nodes, m.apply_cached(index, summary, complete).nodes),
        m.wf() ==> m.apply_cached(index, summary, complete).wf(),
        m.has(index) && !complete ==> m.apply_cached(
            index,
            summary,
            complete,
        ).nodes[index as int].summarized == m.nodes[index as int].summarized,
        m.has(index) ==> !m.apply_cached(
            index,
            summary,
            complete,
        ).nodes[index as int].summary_queued,
{
    let n = m.apply_cached(index, summary, complete);
    if m.has(index) {
        let node = m.nodes[index as int];
        let changed = NodeModel {
            summarized: node.summarized || complete,
            summary_queued: node.summary_queued && !complete,
            summarizing: node.summarizing && !complete,
            ..with_counts(node, summary)
        };
        lemma_resized(m.nodes, index as int, changed);
        assert(same_marks(m.nodes, m.nodes.update(index as int, changed)));
        lemma_same_tree(m, n);
        lemma_same_marks(m, n);
    }
}

pub proof fn lemma_summarize_keeps(
    m: ScanModel,
    index: TreeIndex,
    options: ScanOptions,
    hit: Option<HitModel>,
)
    requires
        m.is_sound(),
        m.stats.active_jobs < MAX_SCAN_JOBS,
        m.has(index) ==> !m.nodes[index as int].summary_queued,
    ensures
        m.summarize(index, options, hit).is_sound(),
        same_tree(m.nodes, m.summarize(index, options, hit).nodes),
        m.wf() ==> m.summarize(index, options, hit).wf(),
{
    let n = m.summarize(index, options, hit);
    if m.has(index) {
        if let Some(hit) = hit {
            let known = m.apply_cached(index, hit.summary, hit.fresh);
            lemma_apply_cached_keeps(m, index, hit.summary, hit.fresh);
            if !(n == known) && !(n == m) {
                lemma_same_tree(known, n);
                lemma_same_marks(known, n);
            }
        } else {
            lemma_same_tree(m, n);
            lemma_same_marks(m, n);
        }
    }
}

/// The queues are orderly, but for one node that may be marked wrongly.
pub open spec fn orderly_but(m: ScanModel, index: TreeIndex) -> bool {
    let marked = m.with_node(
        index,
        NodeModel {
            summary_queued: some_job_summarizes(m.background, index),
            ..m.nodes[index as int]
        },
    );
    m.has(index) && marked.has_orderly_queues()
}

proof fn lemma_unmark(m: ScanModel, index: TreeIndex)
    requires
        m.is_tree(),
        orderly_but(m, index),
        !some_job_summarizes(m.background, index),
    ensures
        ({
            let n = m.with_node(
                index,
                NodeModel { summary_queued: false, ..m.nodes[index as int] },
            );
            n.is_tree() && n.has_orderly_queues() && same_tree(m.nodes, n.nodes) && (m.is_linked()
                ==> n.is_linked())
        }),
{
    let n = m.with_node(index, NodeModel { summary_queued: false, ..m.nodes[index as int] });
    lemma_same_tree(m, n);
}

pub proof fn lemma_start_job_keeps(
    m: ScanModel,
    job: ScanJob,
    hit: Option<HitModel>,
)
    requires
        m.is_tree(),
        m.has_bounded_jobs(),
        job is Children ==> m.has_orderly_queues(),
        job is Summary ==> orderly_but(m, job_target(job)) && !some_job_summarizes(
            m.background,
            job_target(job),
        ),
        m.stats.active_jobs < MAX_SCAN_JOBS,
    ensures
        m.start_job(job, hit).is_sound(),
        same_tree(m.nodes, m.start_job(job, hit).nodes),
        m.is_linked() && m.has_true_total() ==> m.start_job(job, hit).wf(),
{
    match job {
        ScanJob::Children(index, options) => {
            lemma_scan_children_keeps(m, index, options);
        },
        ScanJob::Summary(index, options) => {
            lemma_unmark(m, index);
            let n = m.with_node(
                index,
                NodeModel { summary_queued: false, ..m.nodes[index as int] },
            );
            assert(n.stats == m.stats);
            assert(first_size(n.nodes) == first_size(m.nodes));
            lemma_summarize_keeps(n, index, options, hit);
        },
    }
}

pub proof fn lemma_some_job_push(jobs: Seq<ScanJob>, job: ScanJob, index: TreeIndex)
    ensures
        some_job_summarizes(jobs.push(job), index) == (some_job_summarizes(jobs, index)
            || summarizes(job, index)),
        some_job_lists(jobs.push(job), index) == (some_job_lists(jobs, index)
            || lists_children_of(job, index)),
{
    let longer = jobs.push(job);
    assert(longer[jobs.len() as int] == job);
    if some_job_summarizes(jobs, index) {
        let i = choose|i: int| 0 <= i < jobs.len() && summarizes(#[trigger] jobs[i], index);
        assert(longer[i] == jobs[i]);
    }
    if some_job_lists(jobs, index) {
        let i = choose|i: int| 0 <= i < jobs.len() && lists_children_of(#[trigger] jobs[i], index);
        assert(longer[i] == jobs[i]);
    }
    if some_job_summarizes(longer, index) && !summarizes(job, index) {
        let i = choose|i: int| 0 <= i < longer.len() && summarizes(#[trigger] longer[i], index);
        assert(jobs[i] == longer[i]);
    }
    if some_job_lists(longer, index) && !lists_children_of(job, index) {
        let i = choose|i: int|
            0 <= i < longer.len() && lists_children_of(#[trigger] longer[i], index);
        assert(jobs[i] == longer[i]);
    }
}

/// Listings are enqueued for somebody, summaries in the background.
pub open spec fn priority_fits(job: ScanJob, priority: JobPriority) -> bool {
    (job is Children) == (priority == JobPriority::Interactive)
}

pub proof fn lemma_enqueue_keeps(
    m: ScanModel,
    job: ScanJob,
    priority: JobPriority,
    hit: Option<HitModel>,
)
    requires
        m.is_sound(),
        priority_fits(job, priority),
    ensures
        m.enqueue(job, priority, hit).is_sound(),
        same_tree(m.nodes, m.enqueue(job, priority, hit).nodes),
        m.wf() ==> m.enqueue(job, priority, hit).wf(),
{
    let n = m.enqueue(job, priority, hit);
    let index = job_target(job);
    if m.job_is_redundant(job) {
    } else if m.can_start(priority) {
        if job is Summary {
            let same = m.with_node(
                index,
                NodeModel {
                    summary_queued: some_job_summarizes(m.background, index),
                    ..m.nodes[index as int]
                },
            );
            assert(same.nodes =~= m.nodes);
            assert(orderly_but(m, index));
        }
        lemma_start_job_keeps(m, job, hit);
    } else if priority == JobPriority::Interactive {
        lemma_same_tree(m, n);
        assert forall|i: int, j: int|
            0 <= i < j < n.queued.len() implies job_target(#[trigger] n.queued[i]) != job_target(
            #[trigger] n.queued[j],
        ) by {
            if j == m.queued.len() {
                assert(n.queued[i] == m.queued[i]);
                assert(!lists_children_of(m.queued[i], index));
            }
        }
    } else {
        lemma_same_tree(m, n);
        assert(m.nodes[index as int].summary_queued == some_job_summarizes(m.background, index));
        assert forall|i: int, j: int|
            0 <= i < j < n.background.len() implies job_target(#[trigger] n.background[i])
            != job_target(#[trigger] n.background[j]) by {
            if j == m.background.len() {
                assert(n.background[i] == m.background[i]);
                assert(!summarizes(m.background[i], index));
            }
        }
        assert forall|i: int|
            #![trigger n.nodes[i]]
            0 <= i < n.nodes.len() implies (n.nodes[i].summary_queued <==> some_job_summarizes(
            n.background,
            i as usize,
        )) by {
            lemma_some_job_push(m.background, job, i as usize);
            assert(m.nodes[i].summary_queued == some_job_summarizes(m.background, i as usize));
        }
    }
}

pub proof fn lemma_without_summary(jobs: Seq<ScanJob>, index: TreeIndex)
    ensures
        without_summary_of(jobs, index).len() <= jobs.len(),
        without_summary_of(jobs, index).len() == jobs.len() <==> !some_job_summarizes(jobs, index),
        forall|job: ScanJob| #[trigger]
            without_summary_of(jobs, index).contains(job) <==> jobs.contains(job) && !summarizes(
                job,
                index,
            ),
        (forall|i: int, j: int|
            0 <= i < j < jobs.len() ==> job_target(#[trigger] jobs[i]) != job_target(
                #[trigger] jobs[j],
            )) ==> (forall|i: int, j: int|
            0 <= i < j < without_summary_of(jobs, index).len() ==> job_target(
                #[trigger] without_summary_of(jobs, index)[i],
            ) != job_target(#[trigger] without_summary_of(jobs, index)[j])),
    decreases jobs.len(),
{
    reveal(Seq::filter);
    let kept = without_summary_of(jobs, index);
    if jobs.len() > 0 {
        let rest = jobs.drop_last();
        let last = jobs.last();
        let kept_rest = without_summary_of(rest, index);
        lemma_without_summary(rest, index);
        assert(jobs =~= rest.push(last));
        lemma_some_job_push(rest, last, index);
        assert(kept == if summarizes(last, index) {
            kept_rest
        } else {
            kept_rest.push(last)
        });
        assert forall|job: ScanJob| #[trigger]
            kept.contains(job) <==> jobs.contains(job) && !summarizes(job, index) by {
            assert(kept_rest.contains(job) <==> rest.contains(job) && !summarizes(job, index));
            if rest.contains(job) {
                let i = choose|i: int| 0 <= i < rest.len() && rest[i] == job;
                assert(jobs[i] == job);
            }
            if kept_rest.contains(job) {
                let i = choose|i: int| 0 <= i < kept_rest.len() && kept_rest[i] == job;
                assert(kept[i] == job);
            }
            if job == last && !summarizes(last, index) {
                assert(kept[kept_rest.len() as int] == job);
            }
            if job == last {
                assert(jobs[jobs.len() - 1] == job);
            }
        }
        if forall|i: int, j: int|
            0 <= i < j < jobs.len() ==> job_target(#[trigger] jobs[i]) != job_target(
                #[trigger] jobs[j],
            ) {
            assert forall|i: int, j: int| 0 <= i < j < rest.len() implies job_target(
                #[trigger] rest[i],
            ) != job_target(#[trigger] rest[j]) by {
                assert(rest[i] == jobs[i] && rest[j] == jobs[j]);
            }
            assert forall|i: int, j: int| 0 <= i < j < kept.len() implies job_target(
                #[trigger] kept[i],
            ) != job_target(#[trigger] kept[j]) by {
                if j == kept_rest.len() {
                    assert(kept[i] == kept_rest[i]);
                    assert(kept_rest.contains(kept_rest[i]));
                    let p = choose|p: int| 0 <= p < rest.len() && rest[p] == kept_rest[i];
                    assert(jobs[p] == kept_rest[i]);
                    assert(jobs[jobs.len() - 1] == last);
                } else {
                    assert(kept[i] == kept_rest[i] && kept[j] == kept_rest[j]);
                }
            }
        }
    } else {
        assert(kept =~= Seq::empty());
    }
}

proof fn lemma_some_job_summarizes_contains(jobs: Seq<ScanJob>, index: TreeIndex)
    ensures
        some_job_summarizes(jobs, index) <==> exists|job: ScanJob| #[trigger]
            jobs.contains(job) && summarizes(job, index),
{
    if some_job_summarizes(jobs, index) {
        let i = choose|i: int| 0 <= i < jobs.len() && summarizes(#[trigger] jobs[i], index);
        assert(jobs.contains(jobs[i]));
    }
}

pub proof fn lemma_remove_background_keeps(m: ScanModel, index: TreeIndex)
    requires
        m.is_sound(),
    ensures
        m.remove_background_summary(index).is_sound(),
        same_tree(m.nodes, m.remove_background_summary(index).nodes),
        m.wf() ==> m.remove_background_summary(index).wf(),
        m.has(index) ==> !m.remove_background_summary(index).nodes[index as int].summary_queued,
        !some_job_summarizes(m.remove_background_summary(index).background, index),
{
    let n = m.remove_background_summary(index);
    lemma_without_summary(m.background, index);
    lemma_some_job_summarizes_contains(n.background, index);
    lemma_same_tree(m, n);
    assert forall|i: int| 0 <= i < n.background.len() implies (#[trigger] n.background[i]) is Summary
        && n.has(job_target(n.background[i])) by {
        assert(n.background.contains(n.background[i]));
        let p = choose|p: int| 0 <= p < m.background.len() && m.background[p] == n.background[i];
        assert(m.background[p] is Summary);
    }
    assert forall|i: int|
        #![trigger n.nodes[i]]
        0 <= i < n.nodes.len() implies (n.nodes[i].summary_queued <==> some_job_summarizes(
        n.background,
        i as usize,
    )) by {
        let target = i as usize;
        lemma_some_job_summarizes_contains(n.background, target);
        lemma_some_job_summarizes_contains(m.background, target);
        assert(m.nodes[i].summary_queued == some_job_summarizes(m.background, target));
        if target != index && some_job_summarizes(m.background, target) {
            let job = choose|job: ScanJob| #[trigger]
                m.background.contains(job) && summarizes(job, target);
            assert(n.background.contains(job));
        }
        if some_job_summarizes(n.background, target) {
            let job = choose|job: ScanJob| #[trigger]
                n.background.contains(job) && summarizes(job, target);
            assert(m.background.contains(job));
        }
    }
}

pub proof fn lemma_ensure_scanned_keeps(m: ScanModel, index: TreeIndex, options: ScanOptions)
    requires
        m.is_sound(),
    ensures
        m.ensure_scanned(index, options).is_sound(),
        same_tree(m.nodes, m.ensure_scanned(index, options).nodes),
        m.wf() ==> m.ensure_scanned(index, options).wf(),
        m.pressing_jobs() <= m.ensure_scanned(index, options).pressing_jobs()
            <= m.pressing_jobs() + 1,
{
    lemma_remove_background_keeps(m, index);
    let cleared = m.remove_background_summary(index);
    lemma_enqueue_keeps(
        cleared,
        ScanJob::Children(index, options),
        JobPriority::Interactive,
        None,
    );
}

pub proof fn lemma_start_interactive_keeps(m: ScanModel)
    requires
        m.is_sound(),
    ensures
        m.start_interactive().is_sound(),
        same_tree(m.nodes, m.start_interactive().nodes),
        m.wf() ==> m.start_interactive().wf(),
    decreases m.queued.len(),
{
    if m.stats.active_jobs < MAX_SCAN_JOBS && m.queued.len() > 0 {
        let popped = ScanModel { queued: m.queued.skip(1), ..m };
        assert(m.queued[0] is Children);
        lemma_pop_queued(m);
        lemma_start_job_keeps(popped, m.queued[0], None);
        lemma_start_interactive_keeps(popped.start_job(m.queued[0], None));
    }
}

pub proof fn lemma_pop_queued(m: ScanModel)
    requires
        m.is_sound(),
        m.queued.len() > 0,
    ensures
        (ScanModel { queued: m.queued.skip(1), ..m }).is_sound(),
        m.wf() ==> (ScanModel { queued: m.queued.skip(1), ..m }).wf(),
{
    let n = ScanModel { queued: m.queued.skip(1), ..m };
    lemma_same_tree(m, n);
    assert forall|i: int| 0 <= i < n.queued.len() implies (#[trigger] n.queued[i]) is Children
        && n.has(job_target(n.queued[i])) by {
        assert(n.queued[i] == m.queued[i + 1]);
    }
    assert forall|i: int, j: int| 0 <= i < j < n.queued.len() implies job_target(
        #[trigger] n.queued[i],
    ) != job_target(#[trigger] n.queued[j]) by {
        assert(n.queued[i] == m.queued[i + 1] && n.queued[j] == m.queued[j + 1]);
    }
}

pub proof fn lemma_pop_background(m: ScanModel)
    requires
        m.is_sound(),
        m.background.len() > 0,
    ensures
        ({
            let n = ScanModel { background: m.background.skip(1), ..m };
            let index = job_target(m.background[0]);
            n.is_tree() && orderly_but(n, index) && !some_job_summarizes(n.background, index) && (
            m.is_linked() ==> n.is_linked())
        }),
{
    let n = ScanModel { background: m.background.skip(1), ..m };
    let index = job_target(m.background[0]);
    assert(m.background[0] is Summary);
    lemma_same_tree(m, n);
    assert forall|i: int| 0 <= i < n.background.len() implies (#[trigger] n.background[i]) is Summary
        && n.has(job_target(n.background[i])) && job_target(n.background[i]) != index by {
        assert(n.background[i] == m.background[i + 1]);
    }
    assert forall|i: int, j: int| 0 <= i < j < n.background.len() implies job_target(
        #[trigger] n.background[i],
    ) != job_target(#[trigger] n.background[j]) by {
        assert(n.background[i] == m.background[i + 1] && n.background[j] == m.background[j + 1]);
    }
    let marked = n.with_node(
        index,
        NodeModel {
            summary_queued: some_job_summarizes(n.background, index),
            ..n.nodes[index as int]
        },
    );
    assert forall|i: int|
        #![trigger marked.nodes[i]]
        0 <= i < marked.nodes.len() implies (marked.nodes[i].summary_queued <==> some_job_summarizes(
        marked.background,
        i as usize,
    )) by {
        let target = i as usize;
        assert(m.nodes[i].summary_queued == some_job_summarizes(m.background, target));
        if some_job_summarizes(m.background, target) && target != index {
            let p = choose|p: int|
                0 <= p < m.background.len() && summarizes(#[trigger] m.background[p], target);
            assert(n.background[p - 1] == m.background[p]);
        }
        if some_job_summarizes(n.background, target) {
            let p = choose|p: int|
                0 <= p < n.background.len() && summarizes(#[trigger] n.background[p], target);
            assert(m.background[p + 1] == n.background[p]);
        }
    }
}

pub proof fn lemma_start_waiting_keeps(
    m: ScanModel,
    probes: Map<TreeIndex, MetadataFingerprint>,
    cache: Map<CacheKey, CachedModel>,
    now: Timestamp,
)
    requires
        m.is_sound(),
    ensures
        m.start_waiting(probes, cache, now).is_sound(),
        same_tree(m.nodes, m.start_waiting(probes, cache, now).nodes),
        m.wf() ==> m.start_waiting(probes, cache, now).wf(),
{
    lemma_start_interactive_keeps(m);
    let next = m.start_interactive();
    if next.stats.active_jobs == 0 && next.background.len() > 0 {
        lemma_pop_background(next);
        lemma_start_job_keeps(
            ScanModel { background: next.background.skip(1), ..next },
            next.background[0],
            next.recalled_for(next.background[0], probes, cache, now),
        );
    }
}

/// A list of nodes continues another: parents and children are the same as far
/// as the other goes, and the rest are children of one node, without children
/// of their own.
pub open spec fn continues(a: Seq<NodeModel>, b: Seq<NodeModel>, parent: TreeIndex) -> bool {
    &&& a.len() <= b.len()
    &&& forall|i: int|
        #![trigger b[i]]
        0 <= i < a.len() ==> a[i].parent == b[i].parent && a[i].children == b[i].children
    &&& forall|i: int|
        #![trigger b[i]]
        a.len() <= i < b.len() ==> b[i].parent == Some(parent) && b[i].children.len() == 0
}

pub proof fn lemma_grown_keeps(
    m: ScanModel,
    parent: TreeIndex,
    entry: ScannedModel,
    hit: Option<HitModel>,
)
    requires
        m.is_sound(),
        m.has(parent),
        m.nodes.len() < usize::MAX,
    ensures
        (ScanModel { nodes: m.nodes.push(found_node(parent, entry, hit)), ..m }).is_sound(),
{
    let index = m.nodes.len() as usize;
    let node = found_node(parent, entry, hit);
    let grown = ScanModel { nodes: m.nodes.push(node), ..m };
    assert forall|i: int, k: int|
        #![trigger grown.nodes[i].children[k]]
        0 <= i < grown.nodes.len() && 0 <= k
            < grown.nodes[i].children.len() implies grown.nodes[i].children[k] < grown.nodes.len()
        && grown.nodes[grown.nodes[i].children[k] as int].parent == Some(i as usize) by {
        assert(m.nodes[i].children[k] < m.nodes.len());
    }
    assert forall|i: int, j: int, k: int|
        #![trigger grown.nodes[i].children[j], grown.nodes[i].children[k]]
        0 <= i < grown.nodes.len() && 0 <= j < k
            < grown.nodes[i].children.len() implies grown.nodes[i].children[j]
        < grown.nodes[i].children[k] by {
        assert(m.nodes[i].children[j] < m.nodes[i].children[k]);
    }
    assert(grown.is_tree());
    assert forall|i: int|
        #![trigger grown.nodes[i]]
        0 <= i < grown.nodes.len() implies (grown.nodes[i].summary_queued <==> some_job_summarizes(
        grown.background,
        i as usize,
    )) by {
        if i < m.nodes.len() {
            assert(m.nodes[i].summary_queued == some_job_summarizes(m.background, i as usize));
        } else if some_job_summarizes(m.background, index) {
            let p = choose|p: int|
                0 <= p < m.background.len() && summarizes(#[trigger] m.background[p], index);
            assert(m.has(job_target(m.background[p])));
        }
    }
}

pub proof fn lemma_with_child_keeps(
    b: BatchModel,
    parent: TreeIndex,
    entry: ScannedModel,
    probe: Option<MetadataFingerprint>,
    options: ScanOptions,
    cache: Map<CacheKey, CachedModel>,
    now: Timestamp,
)
    requires
        b.scan.is_sound(),
        b.scan.has(parent),
        b.scan.nodes.len() < usize::MAX,
    ensures
        ({
            let r = b.with_child(parent, entry, probe, options, cache, now);
            &&& r.scan.is_sound()
            &&& r.scan.nodes.len() == b.scan.nodes.len() + 1
            &&& continues(b.scan.nodes, r.scan.nodes, parent)
            &&& r.background >= b.background
        }),
{
    let index = b.scan.nodes.len() as usize;
    let hit = if entry.is_dir {
        recalled(remembered(cache, entry.path, options, probe), now)
    } else {
        None
    };
    let node = found_node(parent, entry, hit);
    let grown = ScanModel { nodes: b.scan.nodes.push(node), ..b.scan };
    lemma_grown_keeps(b.scan, parent, entry, hit);
    lemma_enqueue_keeps(
        grown,
        ScanJob::Summary(index, options),
        JobPriority::Background,
        hit,
    );
}

pub proof fn lemma_with_children_keeps(
    b: BatchModel,
    parent: TreeIndex,
    entries: Seq<ScannedModel>,
    probes: Seq<Option<MetadataFingerprint>>,
    options: ScanOptions,
    cache: Map<CacheKey, CachedModel>,
    now: Timestamp,
)
    requires
        b.scan.is_sound(),
        b.scan.has(parent),
        b.scan.nodes.len() + entries.len() <= usize::MAX,
    ensures
        ({
            let r = b.with_children(parent, entries, probes, options, cache, now);
            &&& r.scan.is_sound()
            &&& r.scan.nodes.len() == b.scan.nodes.len() + entries.len()
            &&& continues(b.scan.nodes, r.scan.nodes, parent)
            &&& r.background >= b.background
        }),
    decreases entries.len(),
{
    if entries.len() > 0 {
        let last = entries.len() - 1;
        lemma_with_children_keeps(b, parent, entries.drop_last(), probes, options, cache, now);
        let before = b.with_children(parent, entries.drop_last(), probes, options, cache, now);
        let probe = if last < probes.len() {
            probes[last]
        } else {
            None
        };
        lemma_with_child_keeps(before, parent, entries[last], probe, options, cache, now);
        let r = b.with_children(parent, entries, probes, options, cache, now);
        assert(r == before.with_child(parent, entries[last], probe, options, cache, now));
        assert forall|i: int|
            #![trigger r.scan.nodes[i]]
            0 <= i < b.scan.nodes.len() implies b.scan.nodes[i].parent == r.scan.nodes[i].parent
            && b.scan.nodes[i].children == r.scan.nodes[i].children by {
            assert(before.scan.nodes[i].parent == b.scan.nodes[i].parent);
        }
        assert forall|i: int|
            #![trigger r.scan.nodes[i]]
            b.scan.nodes.len() <= i < r.scan.nodes.len() implies r.scan.nodes[i].parent == Some(
            parent,
        ) && r.scan.nodes[i].children.len() == 0 by {
            if i < before.scan.nodes.len() {
                assert(before.scan.nodes[i].parent == Some(parent));
            }
        }
    }
}

pub proof fn lemma_count_estimating(nodes: Seq<NodeModel>, children: Seq<TreeIndex>)
    ensures
        0 <= count_estimating(nodes, children) <= children.len(),
    decreases children.len(),
{
    if children.len() > 0 {
        lemma_count_estimating(nodes, children.drop_last());
    }
}

/// The nodes of a scan after a batch of children of one node has been added and
/// linked to it.
pub proof fn lemma_with_batch_keeps(
    m: ScanModel,
    b: ScanModel,
    n: ScanModel,
    parent: TreeIndex,
    count: int,
    size: u128,
    done: bool,
)
    requires
        m.is_tree(),
        m.is_linked(),
        m.has(parent),
        b.is_sound(),
        continues(m.nodes, b.nodes, parent),
        b.nodes.len() == m.nodes.len() + count,
        n.nodes == b.with_batch(parent, m.nodes.len() as int, count, size, done),
        n.queued == b.queued,
        n.background == b.background,
    ensures
        n.is_tree(),
        n.is_linked(),
        n.has_orderly_queues(),
{
    let base = m.nodes.len() as int;
    let at = parent as int;
    let added = Seq::new(count as nat, |i: int| (base + i) as usize);
    let links = b.nodes[at].children + added;
    assert(b.nodes[at].children == m.nodes[at].children);
    assert(n.nodes.len() == b.nodes.len());
    assert forall|i: int|
        #![trigger n.nodes[i]]
        0 <= i < n.nodes.len() implies n.nodes[i].parent == b.nodes[i].parent
        && n.nodes[i].summary_queued == b.nodes[i].summary_queued && n.nodes[i].children == if i
        == at {
        links
    } else {
        b.nodes[i].children
    } by {}
    lemma_same_marks(b, n);
    assert forall|i: int, k: int|
        #![trigger n.nodes[i].children[k]]
        0 <= i < n.nodes.len() && 0 <= k < n.nodes[i].children.len() implies n.nodes[i].children[k]
        < n.nodes.len() && n.nodes[n.nodes[i].children[k] as int].parent == Some(i as usize) by {
        if i == at && k >= b.nodes[at].children.len() {
            let child = n.nodes[i].children[k];
            assert(child == base + (k - b.nodes[at].children.len()));
            assert(b.nodes[child as int].parent == Some(parent));
        } else {
            assert(n.nodes[i].children[k] == b.nodes[i].children[k]);
            assert(b.nodes[b.nodes[i].children[k] as int].parent == Some(i as usize));
        }
    }
    assert forall|i: int, j: int, k: int|
        #![trigger n.nodes[i].children[j], n.nodes[i].children[k]]
        0 <= i < n.nodes.len() && 0 <= j < k < n.nodes[i].children.len() implies n.nodes[i].children[j]
        < n.nodes[i].children[k] by {
        let old_len = b.nodes[i].children.len();
        if i != at {
            assert(b.nodes[i].children[j] < b.nodes[i].children[k]);
        } else if k < old_len {
            assert(b.nodes[i].children[j] < b.nodes[i].children[k]);
        } else if j < old_len {
            assert(m.nodes[i].children[j] < m.nodes.len());
            assert(b.nodes[i].children[j] == n.nodes[i].children[j]);
        }
    }
    assert forall|i: int|
        #![trigger n.nodes[i]]
        0 < i < n.nodes.len() implies n.nodes[i].parent is Some && n.nodes[i].parent->0 < i by {
        assert(b.nodes[i].parent is Some);
    }
    assert(n.nodes[0].parent == b.nodes[0].parent);
    assert(n.is_tree());
    assert forall|i: int|
        #![trigger n.nodes[i]]
        0 < i < n.nodes.len() implies n.nodes[n.nodes[i].parent->0 as int].children.contains(
        i as usize,
    ) by {
        let p = n.nodes[i].parent->0 as int;
        assert(b.nodes[i].parent == n.nodes[i].parent);
        if i < base {
            assert(m.nodes[i].parent == b.nodes[i].parent);
            assert(m.nodes[p].children.contains(i as usize));
            let k = choose|k: int|
                0 <= k < m.nodes[p].children.len() && m.nodes[p].children[k] == i as usize;
            assert(b.nodes[p].children == m.nodes[p].children);
            assert(n.nodes[p].children[k] == i as usize);
        } else {
            assert(p == at);
            let k = b.nodes[at].children.len() + (i - base);
            assert(n.nodes[at].children[k] == i as usize);
        }
    }
}

pub proof fn lemma_integrate_children_keeps(
    m: ScanModel,
    parent: TreeIndex,
    children: Seq<ScannedModel>,
    child_probes: Seq<Option<MetadataFingerprint>>,
    options: ScanOptions,
    stats: StatsModel,
    done: bool,
    probes: Map<TreeIndex, MetadataFingerprint>,
    cache: Map<CacheKey, CachedModel>,
    now: Timestamp,
)
    requires
        m.wf(),
        m.has(parent) ==> m.nodes.len() + children.len() <= usize::MAX,
    ensures
        m.integrate_children(
            parent,
            children,
            child_probes,
            options,
            stats,
            done,
            probes,
            cache,
            now,
        ).0.wf(),
{
    let n = m.integrate_children(
        parent,
        children,
        child_probes,
        options,
        stats,
        done,
        probes,
        cache,
        now,
    ).0;
    if m.has(parent) {
        let first = BatchModel {
            scan: m,
            probes,
            background: count_estimating(m.nodes, m.nodes[parent as int].children),
            size: 0,
        };
        let batch = first.with_children(parent, children, child_probes, options, cache, now);
        lemma_with_children_keeps(
            first,
            parent,
            children,
            child_probes,
            options,
            cache,
            now,
        );
        lemma_with_batch_keeps(
            m,
            batch.scan,
            n,
            parent,
            children.len() as int,
            batch.size,
            done,
        );
    } else {
        lemma_same_tree(m, n);
        lemma_same_marks(m, n);
    }
}

pub proof fn lemma_integrate_summary_keeps(m: ScanModel, index: TreeIndex, summary: SummaryModel)
    requires
        m.wf(),
    ensures
        m.integrate_summary(index, summary).wf(),
        same_tree(m.nodes, m.integrate_summary(index, summary).nodes),
{
    let n = m.integrate_summary(index, summary);
    if m.has(index) {
        let node = m.nodes[index as int];
        let changed = NodeModel {
            summarized: true,
            summarizing: false,
            ..with_counts(node, summary)
        };
        lemma_resized(m.nodes, index as int, changed);
        assert(same_marks(m.nodes, m.nodes.update(index as int, changed)));
    }
    lemma_same_tree(m, n);
    lemma_same_marks(m, n);
}

pub proof fn lemma_integrate_progress_keeps(
    m: ScanModel,
    index: TreeIndex,
    progress: SummaryProgress,
)
    requires
        m.wf(),
    ensures
        m.integrate_progress(index, progress).wf(),
        same_tree(m.nodes, m.integrate_progress(index, progress).nodes),
{
    let n = m.integrate_progress(index, progress);
    if m.has(index) && !m.nodes[index as int].summarized {
        let node = m.nodes[index as int];
        let changed = NodeModel {
            size: if progress.size > node.size {
                progress.size
            } else {
                node.size
            },
            entry_count: if node.is_dir {
                Some(progress.entry_count)
            } else {
                None
            },
            summary_entries_seen: progress.entries_seen,
            ..node
        };
        lemma_resized(m.nodes, index as int, changed);
        assert(same_marks(m.nodes, m.nodes.update(index as int, changed)));
        lemma_same_tree(m, n);
        lemma_same_marks(m, n);
    }
}

pub proof fn lemma_with_completed(nodes: Seq<NodeModel>, count: nat)
    requires
        count <= nodes.len(),
    ensures
        with_completed(nodes, count).len() == nodes.len(),
        forall|i: int|
            #![trigger with_completed(nodes, count)[i]]
            0 <= i < nodes.len() ==> with_completed(nodes, count)[i] == (NodeModel {
                summarized: with_completed(nodes, count)[i].summarized,
                ..nodes[i]
            }) && (nodes[i].summarized ==> with_completed(nodes, count)[i].summarized) && (i
                >= count ==> with_completed(nodes, count)[i] == nodes[i]),
    decreases count,
{
    if count > 0 {
        let last = count - 1;
        let next = if completes(nodes, last) {
            nodes.update(last, NodeModel { summarized: true, ..nodes[last] })
        } else {
            nodes
        };
        lemma_with_completed(next, last as nat);
    }
}

pub proof fn lemma_settle_keeps(m: ScanModel)
    requires
        m.wf(),
    ensures
        m.settle().wf(),
        same_tree(m.nodes, m.settle().nodes),
{
    lemma_with_completed(m.nodes, m.nodes.len());
    lemma_same_tree(m, m.settle());
    lemma_same_marks(m, m.settle());
}

pub proof fn lemma_cancel_keeps(m: ScanModel)
    requires
        m.wf(),
    ensures
        m.cancel().wf(),
        same_tree(m.nodes, m.cancel().nodes),
{
    lemma_same_tree(m, m.cancel());
}

pub proof fn lemma_fresh_scan_is_well_formed(
    root: Seq<u8>,
    name: Seq<char>,
    metadata: EntryMetadata,
    options: ScanOptions,
)
    ensures
        fresh_scan(root, name, metadata, options).wf(),
{
    let n = fresh_scan(root, name, metadata, options);
    assert(n.nodes.len() == 1);
    assert(n.nodes[0].children.len() == 0);
}

} // verus!

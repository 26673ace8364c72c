//! No summary waits for a directory whose children are listed, or will be, and so
//! asking for them again changes nothing.
use crate::clock::Timestamp;
use crate::order::sorted;
use crate::scan::cache::{remembered, CacheKey, CachedModel};
use crate::scan::data::{
    EntryMetadata, EventModel, MetadataFingerprint, NodeModel, ScanJob, ScanOptions,
    ScannedModel, TreeIndex, MAX_SCAN_JOBS,
};
use crate::scan::job_laws::{
    are_expected, has_room_for, has_room_for_all, is_expected, lemma_absorb_keeps,
};
use crate::scan::keeps::{
    lemma_ensure_scanned_keeps, lemma_pop_queued, lemma_remove_background_keeps,
    lemma_resized, lemma_some_job_push, lemma_start_interactive_keeps, lemma_start_job_keeps,
    lemma_start_waiting_keeps, lemma_with_children_keeps, lemma_with_completed,
};
use crate::scan::model::{
    count_estimating, found_node, fresh_scan, job_target, lists_children_of, recalled,
    sized_children, some_job_lists, summarizes, with_counts, BatchModel, DrainModel, HitModel,
    ReportModel, ScanModel, SizedChild,
};
use crate::scan::request_laws::lemma_nothing_to_remove;
use vstd::prelude::*;

verus! {

/// No summary waits for a directory whose children are listed, are being listed,
/// or wait for it.
pub open spec fn listings_stand_for_summaries(m: ScanModel) -> bool {
    forall|i: int|
        #![trigger m.nodes[i]]
        0 <= i < m.nodes.len() && m.nodes[i].summary_queued ==> !m.is_known_or_pending(i as usize)
}

/// A directory whose children are listed, are being listed, or wait for it, is
/// left alone: to ask for its children starts no job and changes no queue.
pub proof fn law_known_directories_are_left_alone(
    m: ScanModel,
    index: TreeIndex,
    options: ScanOptions,
)
    requires
        m.wf(),
        listings_stand_for_summaries(m),
        m.is_known_or_pending(index),
    ensures
        m.ensure_scanned(index, options) == m,
{
    if m.has(index) {
        assert(!m.nodes[index as int].summary_queued);
    } else if exists|i: int|
        0 <= i < m.background.len() && summarizes(
            #[trigger] m.background[i],
            index,
        ) {
        let i = choose|i: int|
            0 <= i < m.background.len() && summarizes(
                #[trigger] m.background[i],
                index,
            );
        assert(m.has(job_target(m.background[i])));
    }
    lemma_nothing_to_remove(m.background, index);
    assert(m.remove_background_summary(index) =~= m);
}

/// The start of a job lets no further node wait for a summary, and only the
/// start of a listing makes a node one that is being listed.
proof fn lemma_start_job_marks(m: ScanModel, job: ScanJob, hit: Option<HitModel>)
    ensures
        ({
            let n = m.start_job(job, hit);
            &&& n.nodes.len() == m.nodes.len()
            &&& n.queued == m.queued
            &&& forall|i: int|
                #![trigger n.nodes[i]]
                0 <= i < m.nodes.len() ==> {
                    &&& n.nodes[i].summary_queued ==> m.nodes[i].summary_queued
                    &&& n.nodes[i].scanned == m.nodes[i].scanned
                    &&& n.nodes[i].scanning == m.nodes[i].scanning || (job is Children && i
                        == job_target(job))
                }
        }),
{
    if let ScanJob::Summary(index, options) = job {
        if m.has(index) {
            let node = m.nodes[index as int];
            let unmarked = m.with_node(index, NodeModel { summary_queued: false, ..node });
            if let Some(known) = hit {
                let changed = NodeModel {
                    summarized: node.summarized || known.fresh,
                    summary_queued: false,
                    summarizing: node.summarizing && !known.fresh,
                    ..with_counts(unmarked.nodes[index as int], known.summary)
                };
                lemma_resized(unmarked.nodes, index as int, changed);
            }
        }
    }
}

/// Fewer nodes wait for summaries, and no further node is listed or will be.
proof fn lemma_fewer_marks(m: ScanModel, n: ScanModel)
    requires
        listings_stand_for_summaries(m),
        n.nodes.len() == m.nodes.len() <= usize::MAX,
        n.queued == m.queued,
        forall|i: int|
            #![trigger n.nodes[i]]
            0 <= i < n.nodes.len() && n.nodes[i].summary_queued ==> m.nodes[i].summary_queued
                && n.nodes[i].scanned == m.nodes[i].scanned && n.nodes[i].scanning
                == m.nodes[i].scanning,
    ensures
        listings_stand_for_summaries(n),
{
    assert forall|i: int|
        #![trigger n.nodes[i]]
        0 <= i < n.nodes.len() && n.nodes[i].summary_queued implies !n.is_known_or_pending(
        i as usize,
    ) by {
        assert(m.nodes[i].summary_queued);
        assert(!m.is_known_or_pending(i as usize));
    }
}

proof fn lemma_start_interactive_marks(m: ScanModel)
    requires
        m.is_sound(),
        listings_stand_for_summaries(m),
    ensures
        listings_stand_for_summaries(m.start_interactive()),
    decreases m.queued.len(),
{
    if m.stats.active_jobs < MAX_SCAN_JOBS && m.queued.len() > 0 {
        let popped = ScanModel { queued: m.queued.skip(1), ..m };
        let job = m.queued[0];
        assert(job is Children);
        lemma_pop_queued(m);
        lemma_start_job_keeps(popped, job, None);
        lemma_start_job_marks(popped, job, None);
        let next = popped.start_job(job, None);
        assert(lists_children_of(m.queued[0], job_target(job)));
        assert(some_job_lists(m.queued, job_target(job)));
        assert forall|i: int|
            #![trigger next.nodes[i]]
            0 <= i < next.nodes.len() && next.nodes[i].summary_queued implies
            !next.is_known_or_pending(i as usize) by {
            assert(m.nodes[i].summary_queued);
            assert(!m.is_known_or_pending(i as usize));
            if some_job_lists(next.queued, i as usize) {
                let k = choose|k: int|
                    0 <= k < next.queued.len() && lists_children_of(
                        #[trigger] next.queued[k],
                        i as usize,
                    );
                assert(m.queued[k + 1] == next.queued[k]);
            }
        }
        lemma_start_interactive_marks(next);
    }
}

proof fn lemma_start_waiting_marks(
    m: ScanModel,
    probes: Map<TreeIndex, MetadataFingerprint>,
    cache: Map<CacheKey, CachedModel>,
    now: Timestamp,
)
    requires
        m.is_sound(),
        listings_stand_for_summaries(m),
    ensures
        listings_stand_for_summaries(m.start_waiting(probes, cache, now)),
{
    lemma_start_interactive_keeps(m);
    lemma_start_interactive_marks(m);
    let next = m.start_interactive();
    if next.stats.active_jobs == 0 && next.background.len() > 0 {
        let popped = ScanModel { background: next.background.skip(1), ..next };
        let job = next.background[0];
        assert(job is Summary);
        let hit = next.recalled_for(job, probes, cache, now);
        lemma_start_job_marks(popped, job, hit);
        lemma_fewer_marks(next, popped.start_job(job, hit));
    }
}

proof fn lemma_with_child_marks(
    b: BatchModel,
    parent: TreeIndex,
    entry: ScannedModel,
    probe: Option<MetadataFingerprint>,
    options: ScanOptions,
    cache: Map<CacheKey, CachedModel>,
    now: Timestamp,
)
    requires
        b.scan.is_sound(),
        b.scan.has(parent),
        b.scan.nodes.len() < usize::MAX,
        listings_stand_for_summaries(b.scan),
    ensures
        ({
            let r = b.with_child(parent, entry, probe, options, cache, now);
            &&& listings_stand_for_summaries(r.scan)
            &&& r.scan.nodes.len() == b.scan.nodes.len() + 1
            &&& forall|k: int|
                #![trigger r.scan.nodes[k]]
                0 <= k < b.scan.nodes.len() ==> r.scan.nodes[k].scanning
                    == b.scan.nodes[k].scanning
        }),
{
    let index = b.scan.nodes.len() as usize;
    let hit = if entry.is_dir {
        recalled(remembered(cache, entry.path, options, probe), now)
    } else {
        None
    };
    let node = found_node(parent, entry, hit);
    let grown = ScanModel { nodes: b.scan.nodes.push(node), ..b.scan };
    let job = ScanJob::Summary(index, options);
    assert(!some_job_lists(grown.queued, index)) by {
        if some_job_lists(grown.queued, index) {
            let k = choose|k: int|
                0 <= k < grown.queued.len() && lists_children_of(#[trigger] grown.queued[k], index);
            assert(b.scan.has(job_target(b.scan.queued[k])));
        }
    }
    assert forall|i: int|
        #![trigger grown.nodes[i]]
        0 <= i < grown.nodes.len() && grown.nodes[i].summary_queued implies
        !grown.is_known_or_pending(i as usize) by {
        assert(grown.nodes[i] == b.scan.nodes[i]);
        assert(!b.scan.is_known_or_pending(i as usize));
    }
    let r = b.with_child(parent, entry, probe, options, cache, now);
    lemma_start_job_marks(grown, job, hit);
    lemma_fewer_marks(grown, grown.start_job(job, hit));
    assert forall|i: int|
        #![trigger r.scan.nodes[i]]
        0 <= i < r.scan.nodes.len() && r.scan.nodes[i].summary_queued implies
        !r.scan.is_known_or_pending(i as usize) by {
        assert(grown.nodes[i].scanned == r.scan.nodes[i].scanned);
        assert(!grown.is_known_or_pending(i as usize));
    }
}

proof fn lemma_with_children_marks(
    b: BatchModel,
    parent: TreeIndex,
    entries: Seq<ScannedModel>,
    probes: Seq<Option<MetadataFingerprint>>,
    options: ScanOptions,
    cache: Map<CacheKey, CachedModel>,
    now: Timestamp,
)
    requires
        b.scan.is_sound(),
        b.scan.has(parent),
        b.scan.nodes.len() + entries.len() <= usize::MAX,
        listings_stand_for_summaries(b.scan),
    ensures
        ({
            let r = b.with_children(parent, entries, probes, options, cache, now);
            &&& listings_stand_for_summaries(r.scan)
            &&& r.scan.nodes.len() == b.scan.nodes.len() + entries.len()
            &&& forall|k: int|
                #![trigger r.scan.nodes[k]]
                0 <= k < b.scan.nodes.len() ==> r.scan.nodes[k].scanning
                    == b.scan.nodes[k].scanning
        }),
    decreases entries.len(),
{
    if entries.len() > 0 {
        let last = entries.len() - 1;
        let rest = entries.drop_last();
        lemma_with_children_marks(b, parent, rest, probes, options, cache, now);
        lemma_with_children_keeps(b, parent, rest, probes, options, cache, now);
        let before = b.with_children(parent, rest, probes, options, cache, now);
        let probe = if last < probes.len() {
            probes[last]
        } else {
            None
        };
        lemma_with_child_marks(before, parent, entries[last], probe, options, cache, now);
        let r = b.with_children(parent, entries, probes, options, cache, now);
        assert(r == before.with_child(parent, entries[last], probe, options, cache, now));
        assert forall|k: int|
            #![trigger r.scan.nodes[k]]
            0 <= k < b.scan.nodes.len() implies r.scan.nodes[k].scanning
            == b.scan.nodes[k].scanning by {
            assert(r.scan.nodes[k].scanning == before.scan.nodes[k].scanning);
        }
    }
}

proof fn lemma_absorb_marks(d: DrainModel, report: ReportModel, now: Timestamp)
    requires
        d.scan.wf(),
        listings_stand_for_summaries(d.scan),
        is_expected(d.scan, report.event),
        has_room_for(d.scan, report.event),
    ensures
        listings_stand_for_summaries(d.absorb(report, now).scan),
{
    let m = d.scan;
    let n = d.absorb(report, now).scan;
    match report.event {
        EventModel::ChildrenBatch { parent, children, options, stats, done } => {
            let at = parent as int;
            let first = BatchModel {
                scan: m,
                probes: d.probes,
                background: count_estimating(m.nodes, m.nodes[at].children),
                size: 0,
            };
            let batch = first.with_children(
                parent,
                children,
                report.child_probes,
                options,
                d.cache,
                now,
            );
            lemma_with_children_marks(
                first,
                parent,
                children,
                report.child_probes,
                options,
                d.cache,
                now,
            );
            assert(batch.scan.nodes[at].scanning);
            assert(batch.scan.is_known_or_pending(parent));
            assert(!batch.scan.nodes[at].summary_queued);
            lemma_fewer_marks(batch.scan, n);
        },
        EventModel::Summary { index, options, summary } => {
            let changed = NodeModel {
                summarized: true,
                summarizing: false,
                ..with_counts(m.nodes[index as int], summary)
            };
            lemma_resized(m.nodes, index as int, changed);
            lemma_fewer_marks(m, n);
        },
        EventModel::SummaryProgress { index, progress } => {
            lemma_fewer_marks(m, n);
        },
    }
}

proof fn lemma_integrate_all_marks(d: DrainModel, reports: Seq<ReportModel>, now: Timestamp)
    requires
        d.scan.wf(),
        listings_stand_for_summaries(d.scan),
        are_expected(d, reports, now),
        has_room_for_all(d, reports, now),
    ensures
        d.integrate_all(reports, now).scan.wf(),
        listings_stand_for_summaries(d.integrate_all(reports, now).scan),
    decreases reports.len(),
{
    if reports.len() > 0 {
        lemma_integrate_all_marks(d, reports.drop_last(), now);
        let before = d.integrate_all(reports.drop_last(), now);
        lemma_absorb_keeps(before, reports.last(), now);
        lemma_absorb_marks(before, reports.last(), now);
        let next = before.absorb(reports.last(), now);
        lemma_start_waiting_keeps(next.scan, next.probes, next.cache, now);
        lemma_start_waiting_marks(next.scan, next.probes, next.cache, now);
    }
}

/// As long as every report comes from a job that runs, no report lets a summary
/// wait for a directory whose children are listed or will be.
pub proof fn law_reports_keep_listings_for_summaries(
    d: DrainModel,
    reports: Seq<ReportModel>,
    now: Timestamp,
)
    requires
        d.scan.wf(),
        listings_stand_for_summaries(d.scan),
        are_expected(d, reports, now),
        has_room_for_all(d, reports, now),
    ensures
        listings_stand_for_summaries(d.drain(reports, now).scan),
{
    if d.scan.canceled {
        lemma_fewer_marks(d.scan, d.drain(reports, now).scan);
    } else {
        lemma_integrate_all_marks(d, reports, now);
        let next = d.integrate_all(reports, now);
        lemma_start_waiting_keeps(next.scan, next.probes, next.cache, now);
        lemma_start_waiting_marks(next.scan, next.probes, next.cache, now);
        let waiting = next.scan.start_waiting(next.probes, next.cache, now);
        lemma_with_completed(waiting.nodes, waiting.nodes.len());
        lemma_fewer_marks(waiting, waiting.settle());
    }
}

/// Nor does a request, a cancellation or the handing over of the jobs that were
/// started.
pub proof fn law_requests_keep_listings_for_summaries(
    m: ScanModel,
    index: TreeIndex,
    options: ScanOptions,
)
    requires
        m.wf(),
        listings_stand_for_summaries(m),
    ensures
        listings_stand_for_summaries(m.ensure_scanned(index, options)),
        listings_stand_for_summaries(m.cancel()),
        listings_stand_for_summaries(ScanModel { started: Seq::empty(), ..m }),
{
    let cleared = m.remove_background_summary(index);
    let job = ScanJob::Children(index, options);
    let n = m.ensure_scanned(index, options);
    lemma_remove_background_keeps(m, index);
    lemma_fewer_marks(m, cleared);
    lemma_start_job_marks(cleared, job, None);
    assert forall|i: int|
        #![trigger n.nodes[i]]
        0 <= i < n.nodes.len() && n.nodes[i].summary_queued implies !n.is_known_or_pending(
        i as usize,
    ) by {
        assert(cleared.nodes[i].summary_queued);
        assert(!cleared.is_known_or_pending(i as usize));
        lemma_some_job_push(cleared.queued, job, i as usize);
    }
    lemma_fewer_marks(m, ScanModel { started: Seq::empty(), ..m });
}

/// Nor does listing ahead of need.
pub proof fn law_listing_ahead_keeps_listings_for_summaries(
    m: ScanModel,
    children: Seq<TreeIndex>,
    options: ScanOptions,
)
    requires
        m.wf(),
        listings_stand_for_summaries(m),
    ensures
        listings_stand_for_summaries(m.prefetch(children, options)),
    decreases children.len(),
{
    if children.len() > 0 && m.pressing_jobs() < MAX_SCAN_JOBS {
        lemma_ensure_scanned_keeps(m, children[0], options);
        law_requests_keep_listings_for_summaries(m, children[0], options);
        law_listing_ahead_keeps_listings_for_summaries(
            m.ensure_scanned(children[0], options),
            children.skip(1),
            options,
        );
    }
}

/// Nor does warming.
pub proof fn law_warming_keeps_listings_for_summaries(
    m: ScanModel,
    parents: Seq<TreeIndex>,
    options: ScanOptions,
    limit: int,
)
    requires
        m.wf(),
        listings_stand_for_summaries(m),
    ensures
        listings_stand_for_summaries(m.warm_visible(parents, options, limit).0),
    decreases parents.len(),
{
    if parents.len() > 0 && m.pressing_jobs() < MAX_SCAN_JOBS {
        if m.has(parents[0]) {
            lemma_warm_children_marks(
                m,
                sorted(sized_children(m.nodes, m.nodes[parents[0] as int].children)),
                options,
                limit,
            );
        }
        law_warming_keeps_listings_for_summaries(
            m.warm_parent(parents[0], options, limit).0,
            parents.skip(1),
            options,
            limit,
        );
    }
}

proof fn lemma_warm_children_marks(
    m: ScanModel,
    children: Seq<SizedChild>,
    options: ScanOptions,
    limit: int,
)
    requires
        m.wf(),
        listings_stand_for_summaries(m),
    ensures
        m.warm_children(children, options, limit).0.wf(),
        listings_stand_for_summaries(m.warm_children(children, options, limit).0),
    decreases children.len(),
{
    if children.len() > 0 && limit > 0 && m.pressing_jobs() < MAX_SCAN_JOBS {
        if m.is_known_or_pending(children[0].index) {
            lemma_warm_children_marks(m, children.skip(1), options, limit);
        } else {
            lemma_ensure_scanned_keeps(m, children[0].index, options);
            law_requests_keep_listings_for_summaries(m, children[0].index, options);
            let next = m.ensure_scanned(children[0].index, options);
            let added = if next.pressing_jobs() > m.pressing_jobs() {
                1int
            } else {
                0
            };
            lemma_warm_children_marks(next, children.skip(1), options, limit - added);
        }
    }
}

/// A scan that has just begun lets no summary wait.
pub proof fn law_a_fresh_scan_lets_no_summary_wait(
    root: Seq<u8>,
    name: Seq<char>,
    metadata: EntryMetadata,
    options: ScanOptions,
)
    ensures
        listings_stand_for_summaries(fresh_scan(root, name, metadata, options)),
{
}

} // verus!

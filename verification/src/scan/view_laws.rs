//! What is shown of a directory before its summary is there, and after.
use crate::clock::Timestamp;
use crate::paths::path_parts;
use crate::scan::cache::{cache_key, remembered, CacheKey, CachedModel};
use crate::scan::data::{
    EventModel, JobPriority, MetadataFingerprint, NodeModel, ScanJob, ScanOptions, ScannedModel,
    TreeIndex, MAX_SCAN_JOBS,
};
use crate::scan::job_laws::{
    has_room_for, has_room_for_all, lemma_absorb_keeps, lemma_integrate_all_keeps,
};
use crate::scan::keeps::{
    lemma_above_is_smaller, lemma_pop_queued, lemma_resized, lemma_start_interactive_keeps,
    lemma_start_job_keeps, lemma_start_waiting_keeps, lemma_with_children_keeps,
    lemma_with_completed,
};
use crate::scan::listing::shown_node;
use crate::scan::model::{
    count_estimating, found_node, is_above, job_target, recalled, some_job_summarizes, summarizes,
    with_counts, BatchModel, DrainModel, HitModel, ReportModel, ScanModel,
};
use crate::scan::size_laws::{
    law_completed_directories_have_completed_children, lemma_same_parents_same_above,
    lemma_some_child_on_the_way,
};
use vstd::prelude::*;

verus! {

/// Whether nothing is remembered of a path, whatever its metadata is now.
pub open spec fn is_unremembered(cache: Map<CacheKey, CachedModel>, path: Seq<u8>) -> bool {
    forall|options: ScanOptions, fingerprint: MetadataFingerprint|
        !(#[trigger] cache.contains_key(cache_key(path, options, fingerprint)))
}

/// Whether nothing is remembered of what is below a node and waits for a summary.
pub open spec fn waits_unremembered_below(
    m: ScanModel,
    cache: Map<CacheKey, CachedModel>,
    index: TreeIndex,
) -> bool {
    forall|k: int|
        #![trigger m.nodes[k]]
        0 <= k < m.nodes.len() && is_above(m.nodes, index as int, k) && m.nodes[k].summary_queued
            ==> is_unremembered(cache, m.nodes[k].path)
}

/// Whether no path of what is below a node and waits for a summary is that of the
/// node itself.
pub open spec fn waits_elsewhere_below(m: ScanModel, index: TreeIndex) -> bool {
    forall|k: int|
        #![trigger m.nodes[k]]
        0 <= k < m.nodes.len() && is_above(m.nodes, index as int, k) && m.nodes[k].summary_queued
            ==> path_parts(m.nodes[k].path) != path_parts(m.nodes[index as int].path)
}

/// Whether a node is a directory as it was found: neither listed nor summed up.
pub open spec fn is_as_found(node: NodeModel, entry: ScannedModel) -> bool {
    &&& node.is_dir
    &&& !node.summarized
    &&& !node.scanned
    &&& node.children.len() == 0
    &&& node.entry_count == entry.entry_count
    &&& node.size == entry.size
    &&& node.path == entry.path
}

/// The start of a job changes no other node but for sizes, and those only above
/// the node of the job.
proof fn lemma_start_job_elsewhere(m: ScanModel, job: ScanJob, hit: Option<HitModel>, index: int)
    requires
        0 <= index < m.nodes.len(),
        index != job_target(job),
    ensures
        ({
            let n = m.start_job(job, hit);
            &&& n.nodes.len() == m.nodes.len()
            &&& n.nodes[index] == (NodeModel { size: n.nodes[index].size, ..m.nodes[index] })
            &&& m.has(job_target(job)) && !is_above(m.nodes, index, job_target(job) as int)
                ==> n.nodes[index] == m.nodes[index]
            &&& hit is None ==> n.nodes[index] == m.nodes[index]
        }),
{
    if let ScanJob::Summary(target, options) = job {
        if m.has(target) {
            let node = m.nodes[target as int];
            let unmarked = m.with_node(target, NodeModel { summary_queued: false, ..node });
            if let Some(known) = hit {
                let changed = NodeModel {
                    summarized: node.summarized || known.fresh,
                    summary_queued: false,
                    summarizing: node.summarizing && !known.fresh,
                    ..with_counts(unmarked.nodes[target as int], known.summary)
                };
                lemma_resized(unmarked.nodes, target as int, changed);
                lemma_same_parents_same_above(
                    m.nodes,
                    unmarked.nodes.update(target as int, changed),
                    index,
                    target as int,
                );
            }
        }
    }
}

/// A node does not wait for its summary once that has been started.
proof fn lemma_start_summary_at(m: ScanModel, job: ScanJob, hit: Option<HitModel>)
    requires
        job is Summary,
        m.has(job_target(job)),
    ensures
        !m.start_job(job, hit).nodes[job_target(job) as int].summary_queued,
{
    if let ScanJob::Summary(target, options) = job {
        let node = m.nodes[target as int];
        let unmarked = m.with_node(target, NodeModel { summary_queued: false, ..node });
        if let Some(known) = hit {
            let changed = NodeModel {
                summarized: node.summarized || known.fresh,
                summary_queued: false,
                summarizing: node.summarizing && !known.fresh,
                ..with_counts(unmarked.nodes[target as int], known.summary)
            };
            lemma_resized(unmarked.nodes, target as int, changed);
        }
    }
}

/// The start of listings changes no node but that it is being listed.
proof fn lemma_start_interactive_elsewhere(m: ScanModel)
    requires
        m.is_sound(),
    ensures
        ({
            let n = m.start_interactive();
            &&& n.nodes.len() == m.nodes.len()
            &&& n.background == m.background
            &&& forall|i: int|
                #![trigger n.nodes[i]]
                0 <= i < m.nodes.len() ==> n.nodes[i] == (NodeModel {
                    scanning: n.nodes[i].scanning,
                    ..m.nodes[i]
                })
        }),
    decreases m.queued.len(),
{
    if m.stats.active_jobs < MAX_SCAN_JOBS && m.queued.len() > 0 {
        let popped = ScanModel { queued: m.queued.skip(1), ..m };
        assert(m.queued[0] is Children);
        lemma_pop_queued(m);
        lemma_start_job_keeps(popped, m.queued[0], None);
        let next = popped.start_job(m.queued[0], None);
        lemma_start_interactive_elsewhere(next);
        let n = m.start_interactive();
        assert forall|i: int|
            #![trigger n.nodes[i]]
            0 <= i < m.nodes.len() implies n.nodes[i] == (NodeModel {
            scanning: n.nodes[i].scanning,
            ..m.nodes[i]
        }) by {
            assert(next.nodes[i] == (NodeModel { scanning: next.nodes[i].scanning, ..m.nodes[i] }));
        }
    }
}

/// What has been summed up stays so while jobs are started.
proof fn lemma_start_waiting_keeps_summary(
    m: ScanModel,
    index: TreeIndex,
    probes: Map<TreeIndex, MetadataFingerprint>,
    cache: Map<CacheKey, CachedModel>,
    now: Timestamp,
)
    requires
        m.wf(),
        m.has(index),
        m.nodes[index as int].summarized,
    ensures
        ({
            let n = m.start_waiting(probes, cache, now);
            let (before, after) = (m.nodes[index as int], n.nodes[index as int]);
            &&& n.nodes.len() == m.nodes.len()
            &&& after.summarized
            &&& after.is_dir == before.is_dir
            &&& after.entry_count == before.entry_count
            &&& waits_unremembered_below(m, cache, index) ==> waits_unremembered_below(
                n,
                cache,
                index,
            ) && after.size == before.size
        }),
{
    let next = m.start_interactive();
    let n = m.start_waiting(probes, cache, now);
    lemma_start_interactive_keeps(m);
    lemma_start_interactive_elsewhere(m);
    lemma_start_waiting_keeps(m, probes, cache, now);
    let at = index as int;
    assert(next.nodes[at] == (NodeModel { scanning: next.nodes[at].scanning, ..m.nodes[at] }));
    assert forall|k: int|
        #![trigger n.nodes[k]]
        0 <= k < n.nodes.len() && is_above(n.nodes, at, k) && n.nodes[k].summary_queued
            && waits_unremembered_below(m, cache, index) implies is_unremembered(
        cache,
        n.nodes[k].path,
    ) by {
        lemma_same_parents_same_above(m.nodes, n.nodes, at, k);
        assert(next.nodes[k] == (NodeModel { scanning: next.nodes[k].scanning, ..m.nodes[k] }));
        if next.stats.active_jobs == 0 && next.background.len() > 0 {
            let popped = ScanModel { background: next.background.skip(1), ..next };
            let job = next.background[0];
            let hit = next.recalled_for(job, probes, cache, now);
            if k != job_target(job) {
                lemma_start_job_elsewhere(popped, job, hit, k);
            } else {
                lemma_start_summary_at(popped, job, hit);
            }
        }
        assert(m.nodes[k].summary_queued);
    }
    if next.stats.active_jobs == 0 && next.background.len() > 0 {
        let popped = ScanModel { background: next.background.skip(1), ..next };
        let job = next.background[0];
        let target = job_target(job);
        let hit = next.recalled_for(job, probes, cache, now);
        assert(job is Summary && next.has(target));
        assert(summarizes(job, target));
        assert(some_job_summarizes(next.background, target));
        assert(next.nodes[target as int].summary_queued);
        if at != target {
            lemma_start_job_elsewhere(popped, job, hit, at);
            lemma_same_parents_same_above(m.nodes, next.nodes, at, target as int);
            assert(m.nodes[target as int].summary_queued);
            if waits_unremembered_below(m, cache, index) && is_above(m.nodes, at, target as int) {
                assert(is_unremembered(cache, m.nodes[target as int].path));
                assert(hit is None);
            }
        }
    }
}

/// A directory as it was found stays so while jobs are started, if nothing is
/// remembered of it.
proof fn lemma_start_waiting_keeps_found(
    m: ScanModel,
    index: TreeIndex,
    entry: ScannedModel,
    probes: Map<TreeIndex, MetadataFingerprint>,
    cache: Map<CacheKey, CachedModel>,
    now: Timestamp,
)
    requires
        m.wf(),
        m.has(index),
        is_as_found(m.nodes[index as int], entry),
        is_unremembered(cache, entry.path),
    ensures
        m.start_waiting(probes, cache, now).nodes.len() == m.nodes.len(),
        is_as_found(m.start_waiting(probes, cache, now).nodes[index as int], entry),
{
    let next = m.start_interactive();
    lemma_start_interactive_keeps(m);
    lemma_start_interactive_elsewhere(m);
    let at = index as int;
    assert(next.nodes[at] == (NodeModel { scanning: next.nodes[at].scanning, ..m.nodes[at] }));
    if next.stats.active_jobs == 0 && next.background.len() > 0 {
        let popped = ScanModel { background: next.background.skip(1), ..next };
        let job = next.background[0];
        let target = job_target(job);
        let hit = next.recalled_for(job, probes, cache, now);
        assert(job is Summary && next.has(target));
        if at != target {
            lemma_start_job_elsewhere(popped, job, hit, at);
            lemma_no_children_nothing_below(next, at, target as int);
        } else {
            assert(hit is None);
        }
    }
}

proof fn lemma_no_children_nothing_below(m: ScanModel, top: int, index: int)
    requires
        m.is_tree(),
        m.is_linked(),
        0 <= top < m.nodes.len(),
        0 <= index < m.nodes.len(),
        m.nodes[top].children.len() == 0,
    ensures
        !is_above(m.nodes, top, index),
{
    if is_above(m.nodes, top, index) {
        let _ = lemma_some_child_on_the_way(m, top, index);
    }
}

/// A directory that a batch adds is there as it was found.
proof fn lemma_with_children_found(
    b: BatchModel,
    parent: TreeIndex,
    entries: Seq<ScannedModel>,
    place: int,
    probes: Seq<Option<MetadataFingerprint>>,
    options: ScanOptions,
    cache: Map<CacheKey, CachedModel>,
    now: Timestamp,
)
    requires
        b.scan.has(parent),
        b.scan.nodes.len() + entries.len() <= usize::MAX,
        0 <= place < entries.len() ==> entries[place].is_dir && is_unremembered(
            cache,
            entries[place].path,
        ),
    ensures
        ({
            let r = b.with_children(parent, entries, probes, options, cache, now);
            &&& r.scan.nodes.len() == b.scan.nodes.len() + entries.len()
            &&& 0 <= place < entries.len() ==> is_as_found(
                r.scan.nodes[b.scan.nodes.len() + place],
                entries[place],
            )
        }),
    decreases entries.len(),
{
    if entries.len() > 0 {
        let last = entries.len() - 1;
        let rest = entries.drop_last();
        if 0 <= place < rest.len() {
            assert(rest[place] == entries[place]);
        }
        lemma_with_children_found(b, parent, rest, place, probes, options, cache, now);
        let before = b.with_children(parent, rest, probes, options, cache, now);
        let entry = entries[last];
        let probe = if last < probes.len() {
            probes[last]
        } else {
            None
        };
        let r = b.with_children(parent, entries, probes, options, cache, now);
        assert(r == before.with_child(parent, entry, probe, options, cache, now));
        let index = before.scan.nodes.len() as usize;
        let hit = if entry.is_dir {
            recalled(remembered(cache, entry.path, options, probe), now)
        } else {
            None
        };
        let node = found_node(parent, entry, hit);
        let grown = ScanModel { nodes: before.scan.nodes.push(node), ..before.scan };
        let job = ScanJob::Summary(index, options);
        let at = b.scan.nodes.len() + place;
        lemma_enqueue_elsewhere(grown, job, hit, 0);
        if 0 <= place < last {
            assert(grown.nodes[at] == before.scan.nodes[at]);
            lemma_enqueue_elsewhere(grown, job, hit, at);
            lemma_above_is_smaller(grown.nodes, at, parent as int);
            assert(!is_above(grown.nodes, at, index as int));
        } else if place == last {
            assert(hit is None);
        }
    }
}

proof fn lemma_enqueue_elsewhere(m: ScanModel, job: ScanJob, hit: Option<HitModel>, index: int)
    requires
        job is Summary,
        m.has(job_target(job)),
        0 <= index < m.nodes.len(),
    ensures
        ({
            let n = m.enqueue(job, JobPriority::Background, hit);
            &&& n.nodes.len() == m.nodes.len()
            &&& index != job_target(job) && !is_above(m.nodes, index, job_target(job) as int)
                ==> n.nodes[index] == m.nodes[index]
        }),
{
    if index != job_target(job) {
        lemma_start_job_elsewhere(m, job, hit, index);
    } else if let ScanJob::Summary(target, _) = job {
        let node = m.nodes[target as int];
        let unmarked = m.with_node(target, NodeModel { summary_queued: false, ..node });
        if let Some(known) = hit {
            let changed = NodeModel {
                summarized: node.summarized || known.fresh,
                summary_queued: false,
                summarizing: node.summarizing && !known.fresh,
                ..with_counts(unmarked.nodes[target as int], known.summary)
            };
            lemma_resized(unmarked.nodes, target as int, changed);
        }
    }
}

/// A directory that a batch brings is there as it was found, once the batch has
/// been taken in.
proof fn lemma_integrate_found(d: DrainModel, report: ReportModel, place: int, now: Timestamp)
    requires
        d.scan.wf(),
        report.event is ChildrenBatch,
        d.scan.has(report.event->ChildrenBatch_parent),
        has_room_for(d.scan, report.event),
        0 <= place < report.event->ChildrenBatch_children.len(),
        report.event->ChildrenBatch_children[place].is_dir,
        is_unremembered(d.cache, report.event->ChildrenBatch_children[place].path),
    ensures
        ({
            let n = d.integrate(report, now).scan;
            let index = d.scan.nodes.len() + place;
            &&& index < n.nodes.len()
            &&& is_as_found(n.nodes[index], report.event->ChildrenBatch_children[place])
        }),
{
    if let EventModel::ChildrenBatch { parent, children, options, stats, done } = report.event {
        let entry = children[place];
        let index = (d.scan.nodes.len() + place) as usize;
        let first = BatchModel {
            scan: d.scan,
            probes: d.probes,
            background: count_estimating(d.scan.nodes, d.scan.nodes[parent as int].children),
            size: 0,
        };
        let probes = report.child_probes;
        let batch = first.with_children(parent, children, probes, options, d.cache, now);
        lemma_with_children_found(
            first,
            parent,
            children,
            place,
            probes,
            options,
            d.cache,
            now,
        );
        let next = d.absorb(report, now);
        lemma_above_is_smaller(batch.scan.nodes, index as int, parent as int);
        lemma_batch_elsewhere(
            batch.scan,
            parent,
            d.scan.nodes.len() as int,
            children.len() as int,
            batch.size,
            done,
            index as int,
        );
        assert(next.scan.nodes[index as int] == batch.scan.nodes[index as int]);
        lemma_absorb_keeps(d, report, now);
        lemma_start_waiting_keeps_found(
            next.scan,
            index,
            entry,
            next.probes,
            next.cache,
            now,
        );
    }
}

/// Whether the report at a place among others is a batch with a directory in it,
/// of which nothing is remembered, and no later one of them is about that directory.
pub open spec fn brings_directory(
    d: DrainModel,
    reports: Seq<ReportModel>,
    at: int,
    place: int,
    now: Timestamp,
) -> bool {
    let scan = d.integrate_all(reports.take(at), now).scan;
    let event = reports[at].event;
    &&& 0 <= at < reports.len()
    &&& event is ChildrenBatch
    &&& scan.has(event->ChildrenBatch_parent)
    &&& 0 <= place < event->ChildrenBatch_children.len()
    &&& event->ChildrenBatch_children[place].is_dir
    &&& stays_unremembered(d, reports, now, event->ChildrenBatch_children[place].path)
    &&& forall|i: int|
        at < i < reports.len() ==> !is_about(
            (#[trigger] reports[i]).event,
            (scan.nodes.len() + place) as usize,
        )
}

/// The number of the node for a directory that a batch brings.
pub open spec fn brought_node(
    d: DrainModel,
    reports: Seq<ReportModel>,
    at: int,
    place: int,
    now: Timestamp,
) -> TreeIndex {
    (d.integrate_all(reports.take(at), now).scan.nodes.len() + place) as usize
}

/// A directory that was brought is there as it was found until a report is about it.
proof fn lemma_brought_as_found(
    d: DrainModel,
    reports: Seq<ReportModel>,
    at: int,
    place: int,
    now: Timestamp,
)
    requires
        d.scan.wf(),
        has_room_for_all(d, reports, now),
        brings_directory(d, reports, at, place, now),
    ensures
        ({
            let n = d.integrate_all(reports, now).scan;
            let index = brought_node(d, reports, at, place, now);
            &&& n.wf()
            &&& n.has(index)
            &&& is_as_found(
                n.nodes[index as int],
                reports[at].event->ChildrenBatch_children[place],
            )
        }),
    decreases reports.len(),
{
    let rest = reports.drop_last();
    let before = d.integrate_all(rest, now);
    let report = reports.last();
    let entry = reports[at].event->ChildrenBatch_children[place];
    let index = brought_node(d, reports, at, place, now);
    lemma_integrate_all_keeps(d, rest, now);
    lemma_integrate_all_keeps(d, reports, now);
    assert(stays_unremembered(d, rest, now, entry.path));
    assert(is_unremembered(before.cache, entry.path)) by {
        reveal_with_fuel(stays_unremembered, 2);
    }
    if at == rest.len() {
        assert(reports.take(at) =~= rest);
        lemma_integrate_found(before, report, place, now);
    } else {
        assert(rest.take(at) =~= reports.take(at));
        assert(rest[at] == reports[at]);
        assert forall|i: int| at < i < rest.len() implies !is_about(
            (#[trigger] rest[i]).event,
            index,
        ) by {
            assert(rest[i] == reports[i]);
        }
        lemma_brought_as_found(d, rest, at, place, now);
        assert(report == reports[reports.len() - 1]);
        lemma_absorb_keeps(before, report, now);
        lemma_absorb_elsewhere(before, report, now, index);
        let next = before.absorb(report, now);
        lemma_start_waiting_keeps_found(next.scan, index, entry, next.probes, next.cache, now);
    }
}

/// A directory of which nothing is remembered is shown as soon as it is listed,
/// before anything below it is added up: with the size of its own entry, and as
/// one whose size is pending.
pub proof fn law_directories_are_shown_before_their_summaries(
    d: DrainModel,
    reports: Seq<ReportModel>,
    at: int,
    place: int,
    now: Timestamp,
)
    requires
        d.scan.wf(),
        !d.scan.canceled,
        has_room_for_all(d, reports, now),
        brings_directory(d, reports, at, place, now),
    ensures
        ({
            let entry = reports[at].event->ChildrenBatch_children[place];
            let index = brought_node(d, reports, at, place, now);
            let after = d.drain(reports, now).scan;
            let shown = shown_node(after, index);
            &&& shown is Some
            &&& shown->0.is_dir
            &&& shown->0.size_pending
            &&& shown->0.size == entry.size
            &&& shown->0.entry_count == entry.entry_count
            &&& is_as_found(after.nodes[index as int], entry)
        }),
{
    let entry = reports[at].event->ChildrenBatch_children[place];
    let index = brought_node(d, reports, at, place, now);
    let taken = d.integrate_all(reports, now);
    lemma_brought_as_found(d, reports, at, place, now);
    lemma_start_waiting_keeps_found(taken.scan, index, entry, taken.probes, taken.cache, now);
    lemma_settled_as_found(taken, index, entry, now);
}

/// A batch changes no node that is neither its directory nor above it.
proof fn lemma_batch_elsewhere(
    m: ScanModel,
    parent: TreeIndex,
    first: int,
    count: int,
    size: u128,
    done: bool,
    index: int,
)
    requires
        m.has(parent),
        0 <= index < m.nodes.len(),
        index != parent,
        !is_above(m.nodes, index, parent as int),
    ensures
        m.with_batch(parent, first, count, size, done).len() == m.nodes.len(),
        m.with_batch(parent, first, count, size, done)[index] == m.nodes[index],
{
    let at = parent as int;
    assert forall|node: NodeModel| node.parent == m.nodes[at].parent implies !is_above(
        #[trigger] m.nodes.update(at, node),
        index,
        at,
    ) by {
        lemma_same_parents_same_above(m.nodes, m.nodes.update(at, node), index, at);
    }
}

/// Whether a report is about a node.
pub open spec fn is_about(event: EventModel, index: TreeIndex) -> bool {
    match event {
        EventModel::ChildrenBatch { parent, .. } => parent == index,
        EventModel::Summary { index: target, .. } => target == index,
        EventModel::SummaryProgress { index: target, .. } => target == index,
    }
}

/// Whether nothing is remembered of a path, whatever of the reports has been taken
/// in.
pub open spec fn stays_unremembered(
    d: DrainModel,
    reports: Seq<ReportModel>,
    now: Timestamp,
    path: Seq<u8>,
) -> bool
    decreases reports.len(),
{
    &&& is_unremembered(d.integrate_all(reports, now).cache, path)
    &&& reports.len() > 0 ==> stays_unremembered(d, reports.drop_last(), now, path)
}

/// The entry that a node as it was found comes from, as far as it matters here.
spec fn entry_of(node: NodeModel) -> ScannedModel {
    ScannedModel {
        name: node.name,
        path: node.path,
        size: node.size,
        modified: node.modified,
        is_dir: node.is_dir,
        entry_count: node.entry_count,
        metadata_error: node.metadata_error,
        boundary_dev: node.boundary_dev,
    }
}

/// Children change no node that is neither their parent nor above it.
proof fn lemma_with_children_elsewhere(
    b: BatchModel,
    parent: TreeIndex,
    entries: Seq<ScannedModel>,
    index: int,
    probes: Seq<Option<MetadataFingerprint>>,
    options: ScanOptions,
    cache: Map<CacheKey, CachedModel>,
    now: Timestamp,
)
    requires
        b.scan.is_sound(),
        b.scan.has(parent),
        b.scan.nodes.len() + entries.len() <= usize::MAX,
        0 <= index < b.scan.nodes.len(),
        index != parent,
        !is_above(b.scan.nodes, index, parent as int),
    ensures
        ({
            let r = b.with_children(parent, entries, probes, options, cache, now);
            r.scan.nodes[index] == b.scan.nodes[index]
        }),
    decreases entries.len(),
{
    if entries.len() > 0 {
        let last = entries.len() - 1;
        let rest = entries.drop_last();
        lemma_with_children_elsewhere(b, parent, rest, index, probes, options, cache, now);
        lemma_with_children_keeps(b, parent, rest, probes, options, cache, now);
        let before = b.with_children(parent, rest, probes, options, cache, now);
        let entry = entries[last];
        let probe = if last < probes.len() {
            probes[last]
        } else {
            None
        };
        let r = b.with_children(parent, entries, probes, options, cache, now);
        assert(r == before.with_child(parent, entry, probe, options, cache, now));
        let new = before.scan.nodes.len() as usize;
        let hit = if entry.is_dir {
            recalled(remembered(cache, entry.path, options, probe), now)
        } else {
            None
        };
        let node = found_node(parent, entry, hit);
        let grown = ScanModel { nodes: before.scan.nodes.push(node), ..before.scan };
        lemma_same_parents_same_above(b.scan.nodes, grown.nodes, index, parent as int);
        assert(!is_above(grown.nodes, index, new as int));
        lemma_enqueue_elsewhere(grown, ScanJob::Summary(new, options), hit, index);
    }
}

/// A report changes no directory as it was found that it is not about.
proof fn lemma_absorb_elsewhere(
    d: DrainModel,
    report: ReportModel,
    now: Timestamp,
    index: TreeIndex,
)
    requires
        d.scan.wf(),
        has_room_for(d.scan, report.event),
        d.scan.has(index),
        d.scan.nodes[index as int].children.len() == 0,
        !is_about(report.event, index),
    ensures
        d.absorb(report, now).scan.has(index),
        d.absorb(report, now).scan.nodes[index as int] == d.scan.nodes[index as int],
{
    let m = d.scan;
    let at = index as int;
    match report.event {
        EventModel::ChildrenBatch { parent, children, options, stats, done } => {
            if m.has(parent) {
                let first = BatchModel {
                    scan: m,
                    probes: d.probes,
                    background: count_estimating(m.nodes, m.nodes[parent as int].children),
                    size: 0,
                };
                let probes = report.child_probes;
                let b = first.with_children(parent, children, probes, options, d.cache, now);
                lemma_no_children_nothing_below(m, at, parent as int);
                lemma_with_children_elsewhere(
                    first,
                    parent,
                    children,
                    at,
                    probes,
                    options,
                    d.cache,
                    now,
                );
                lemma_with_children_keeps(first, parent, children, probes, options, d.cache, now);
                lemma_same_parents_same_above(m.nodes, b.scan.nodes, at, parent as int);
                lemma_batch_elsewhere(
                    b.scan,
                    parent,
                    m.nodes.len() as int,
                    children.len() as int,
                    b.size,
                    done,
                    at,
                );
            }
        },
        EventModel::Summary { index: target, options, summary } => {
            if m.has(target) {
                let changed = NodeModel {
                    summarized: true,
                    summarizing: false,
                    ..with_counts(m.nodes[target as int], summary)
                };
                lemma_no_children_nothing_below(m, at, target as int);
                lemma_same_parents_same_above(
                    m.nodes,
                    m.nodes.update(target as int, changed),
                    at,
                    target as int,
                );
            }
        },
        EventModel::SummaryProgress { index: target, progress } => {
            if m.has(target) && !m.nodes[target as int].summarized {
                let node = m.nodes[target as int];
                let changed = NodeModel {
                    size: if progress.size > node.size {
                        progress.size
                    } else {
                        node.size
                    },
                    entry_count: if node.is_dir {
                        Some(progress.entry_count)
                    } else {
                        None
                    },
                    summary_entries_seen: progress.entries_seen,
                    ..node
                };
                lemma_no_children_nothing_below(m, at, target as int);
                lemma_same_parents_same_above(
                    m.nodes,
                    m.nodes.update(target as int, changed),
                    at,
                    target as int,
                );
            }
        },
    }
}

pub proof fn lemma_integrate_all_elsewhere(
    d: DrainModel,
    reports: Seq<ReportModel>,
    now: Timestamp,
    index: TreeIndex,
    entry: ScannedModel,
)
    requires
        d.scan.wf(),
        has_room_for_all(d, reports, now),
        d.scan.has(index),
        is_as_found(d.scan.nodes[index as int], entry),
        stays_unremembered(d, reports, now, entry.path),
        forall|i: int| 0 <= i < reports.len() ==> !is_about((#[trigger] reports[i]).event, index),
    ensures
        d.integrate_all(reports, now).scan.wf(),
        d.integrate_all(reports, now).scan.has(index),
        is_as_found(d.integrate_all(reports, now).scan.nodes[index as int], entry),
    decreases reports.len(),
{
    if reports.len() > 0 {
        let rest = reports.drop_last();
        assert forall|i: int| 0 <= i < rest.len() implies !is_about(
            (#[trigger] rest[i]).event,
            index,
        ) by {
            assert(rest[i] == reports[i]);
        }
        lemma_integrate_all_elsewhere(d, rest, now, index, entry);
        let before = d.integrate_all(rest, now);
        let report = reports.last();
        assert(report == reports[reports.len() - 1]);
        lemma_absorb_keeps(before, report, now);
        lemma_absorb_elsewhere(before, report, now, index);
        let next = before.absorb(report, now);
        lemma_start_waiting_keeps(next.scan, next.probes, next.cache, now);
        lemma_start_waiting_keeps_found(next.scan, index, entry, next.probes, next.cache, now);
    }
}

/// A directory that is shown as pending stays as it is shown, with its size and
/// its count, until something is reported of it, as long as nothing is remembered
/// of its path.
pub proof fn law_directories_stay_pending(
    d: DrainModel,
    reports: Seq<ReportModel>,
    index: TreeIndex,
    now: Timestamp,
)
    requires
        d.scan.wf(),
        has_room_for_all(d, reports, now),
        d.scan.has(index),
        d.scan.nodes[index as int].is_dir,
        !d.scan.nodes[index as int].summarized,
        !d.scan.nodes[index as int].scanned,
        d.scan.nodes[index as int].children.len() == 0,
        stays_unremembered(d, reports, now, d.scan.nodes[index as int].path),
        forall|i: int| 0 <= i < reports.len() ==> !is_about((#[trigger] reports[i]).event, index),
    ensures
        ({
            let before = shown_node(d.scan, index);
            let after = shown_node(d.drain(reports, now).scan, index);
            &&& before is Some && after is Some
            &&& before->0.size_pending && after->0.size_pending
            &&& after->0.is_dir
            &&& after->0.size == before->0.size
            &&& after->0.entry_count == before->0.entry_count
        }),
{
    lemma_drain_keeps_found(d, reports, now, index, entry_of(d.scan.nodes[index as int]));
}

/// A directory stays as it was found while no report is about it.
pub proof fn lemma_drain_keeps_found(
    d: DrainModel,
    reports: Seq<ReportModel>,
    now: Timestamp,
    index: TreeIndex,
    entry: ScannedModel,
)
    requires
        d.scan.wf(),
        d.scan.canceled || has_room_for_all(d, reports, now),
        d.scan.has(index),
        is_as_found(d.scan.nodes[index as int], entry),
        d.scan.canceled || stays_unremembered(d, reports, now, entry.path),
        forall|i: int| 0 <= i < reports.len() ==> !is_about((#[trigger] reports[i]).event, index),
    ensures
        d.drain(reports, now).scan.has(index),
        is_as_found(d.drain(reports, now).scan.nodes[index as int], entry),
{
    if !d.scan.canceled {
        lemma_integrate_all_elsewhere(d, reports, now, index, entry);
        let taken = d.integrate_all(reports, now);
        lemma_start_waiting_keeps_found(taken.scan, index, entry, taken.probes, taken.cache, now);
        lemma_settled_as_found(taken, index, entry, now);
    }
}

/// A directory as it was found does not become complete with its children.
proof fn lemma_settled_as_found(
    d: DrainModel,
    index: TreeIndex,
    entry: ScannedModel,
    now: Timestamp,
)
    requires
        d.scan.wf(),
        d.scan.has(index),
        d.scan.start_waiting(d.probes, d.cache, now).nodes.len() == d.scan.nodes.len(),
        is_as_found(
            d.scan.start_waiting(d.probes, d.cache, now).nodes[index as int],
            entry,
        ),
    ensures
        ({
            let settled = d.scan.start_waiting(d.probes, d.cache, now).settle();
            settled.has(index) && is_as_found(settled.nodes[index as int], entry)
        }),
{
    let waiting = d.scan.start_waiting(d.probes, d.cache, now);
    lemma_start_waiting_keeps(d.scan, d.probes, d.cache, now);
    lemma_with_completed(waiting.nodes, waiting.nodes.len());
    law_completed_directories_have_completed_children(waiting, index as int);
    assert(waiting.settle().nodes[index as int].summarized
        == waiting.nodes[index as int].summarized);
}

/// Once its summary is there, a directory is shown with it: its size and the
/// number of entries are those of the summary, and nothing is pending. The size is
/// that of the summary too while something below the directory waits to be summed
/// up, as long as nothing is remembered of it.
pub proof fn law_summaries_complete_what_is_shown(
    d: DrainModel,
    reports: Seq<ReportModel>,
    now: Timestamp,
)
    requires
        d.scan.wf(),
        !d.scan.canceled,
        has_room_for_all(d, reports, now),
        reports.len() > 0,
        reports.last().event is Summary,
        ({
            let before = d.integrate_all(reports.drop_last(), now).scan;
            let index = reports.last().event->Summary_index;
            before.has(index) && before.nodes[index as int].is_dir
        }),
    ensures
        ({
            let before = d.integrate_all(reports.drop_last(), now);
            let index = reports.last().event->Summary_index;
            let summary = reports.last().event->Summary_summary;
            let shown = shown_node(d.drain(reports, now).scan, index);
            &&& shown is Some
            &&& shown->0.is_dir
            &&& !shown->0.size_pending
            &&& shown->0.entry_count == Some(summary.entry_count)
            &&& waits_unremembered_below(before.scan, before.cache, index)
                && waits_elsewhere_below(before.scan, index) ==> shown->0.size == summary.size
            &&& before.scan.nodes[index as int].children.len() == 0 ==> shown->0.size
                == summary.size
        }),
{
    let before = d.integrate_all(reports.drop_last(), now);
    let report = reports.last();
    lemma_integrate_all_keeps(d, reports.drop_last(), now);
    if let EventModel::Summary { index, options, summary } = report.event {
        let m = before.scan;
        let at = index as int;
        let quiet = waits_unremembered_below(m, before.cache, index) && waits_elsewhere_below(
            m,
            index,
        );
        if m.nodes[at].children.len() == 0 {
            assert forall|k: int| 0 <= k < m.nodes.len() implies !(#[trigger] is_above(
                m.nodes,
                at,
                k,
            )) by {
                lemma_no_children_nothing_below(m, at, k);
            }
            assert(quiet);
        }
        let next = before.absorb(report, now);
        let changed = NodeModel {
            summarized: true,
            summarizing: false,
            ..with_counts(m.nodes[at], summary)
        };
        lemma_resized(m.nodes, at, changed);
        assert forall|k: int|
            #![trigger next.scan.nodes[k]]
            0 <= k < next.scan.nodes.len() && is_above(next.scan.nodes, at, k)
                && next.scan.nodes[k].summary_queued && quiet implies is_unremembered(
            next.cache,
            next.scan.nodes[k].path,
        ) by {
            lemma_same_parents_same_above(m.nodes, next.scan.nodes, at, k);
            lemma_above_is_smaller(m.nodes, at, k);
            assert(m.nodes[k].summary_queued && m.nodes[k].path == next.scan.nodes[k].path);
            assert(is_unremembered(before.cache, m.nodes[k].path));
        }
        lemma_absorb_keeps(before, report, now);
        lemma_start_waiting_keeps(next.scan, next.probes, next.cache, now);
        lemma_start_waiting_keeps_summary(next.scan, index, next.probes, next.cache, now);
        let taken = before.integrate(report, now);
        assert(d.integrate_all(reports, now) == taken);
        lemma_start_waiting_keeps_summary(taken.scan, index, taken.probes, taken.cache, now);
        let waiting = taken.scan.start_waiting(taken.probes, taken.cache, now);
        lemma_with_completed(waiting.nodes, waiting.nodes.len());
        assert(waiting.settle().nodes[at].summarized);
    }
}

} // verus!

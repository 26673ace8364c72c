//! What each report changes in a scan, and what it leaves as it is.
use crate::clock::Timestamp;
use crate::scan::cache::{cache_key, remembered, CacheKey, CachedModel};
use crate::scan::data::{
    kept_samples, sample_models, scanned_models, EntryMetadata, EventModel, IoErrorSample,
    MetadataFingerprint, Node, NodeModel, ScanEvent, ScanJob, ScanOptions, ScanStats,
    ScannedEntry, ScannedModel, StatsModel, Summary, SummaryModel, SummaryProgress, TreeIndex,
};
use crate::scan::keeps::{lemma_above_is_smaller, lemma_resized};
use crate::scan::model::{
    capped_size, capped_sum, count_estimating, found_node, fresh_scan, is_above, moved_size,
    recalled, size_delta, with_counts, with_resized, BatchModel, DrainModel, ReportModel,
    ScanModel,
};
use crate::scan::size_laws::{
    counted_sizes, lemma_same_parents_same_above, lemma_with_children_sizes,
};
use vstd::prelude::*;

verus! {

/// The probe for a child of a batch, if there is one.
pub open spec fn probe_at(
    probes: Seq<Option<MetadataFingerprint>>,
    place: int,
) -> Option<MetadataFingerprint> {
    if 0 <= place < probes.len() {
        probes[place]
    } else {
        None
    }
}

/// Whether a node is that of a child that was found.
pub open spec fn is_node_of(
    node: NodeModel,
    parent: TreeIndex,
    entry: ScannedModel,
    cached: Option<CachedModel>,
    now: Timestamp,
) -> bool {
    &&& node.name == entry.name
    &&& node.path == entry.path
    &&& node.modified == entry.modified
    &&& node.is_dir == entry.is_dir
    &&& node.boundary_dev == entry.boundary_dev
    &&& node.parent == Some(parent)
    &&& node.children.len() == 0
    &&& !node.scanned && !node.scanning
    &&& !entry.is_dir || cached is None ==> {
        &&& node.size == entry.size
        &&& node.entry_count == entry.entry_count
        &&& node.metadata_error == entry.metadata_error
        &&& node.summarized == !entry.is_dir
    }
    &&& entry.is_dir && cached is Some ==> {
        &&& node.size == cached->0.summary.size
        &&& node.entry_count == Some(cached->0.summary.entry_count)
        &&& node.metadata_error == (entry.metadata_error || cached->0.summary.metadata_error)
        &&& node.summarized == (0 <= now.total() - cached->0.cached_at.total() <= 5_000_000_000)
    }
}

proof fn lemma_with_child_effect(
    b: BatchModel,
    parent: TreeIndex,
    entry: ScannedModel,
    probe: Option<MetadataFingerprint>,
    options: ScanOptions,
    cache: Map<CacheKey, CachedModel>,
    now: Timestamp,
)
    requires
        b.scan.nodes.len() < usize::MAX,
    ensures
        ({
            let r = b.with_child(parent, entry, probe, options, cache, now).scan;
            let base = b.scan.nodes.len() as int;
            &&& r.nodes.len() == base + 1
            &&& forall|k: int|
                #![trigger r.nodes[k]]
                0 <= k < base ==> r.nodes[k] == b.scan.nodes[k]
            &&& is_node_of(
                r.nodes[base],
                parent,
                entry,
                remembered(cache, entry.path, options, probe),
                now,
            )
            &&& r.queued == b.scan.queued
            &&& r.stats.entries_traversed == b.scan.stats.entries_traversed
            &&& r.stats.io_errors == b.scan.stats.io_errors
            &&& r.stats.error_samples == b.scan.stats.error_samples
            &&& r.root == b.scan.root
            &&& r.canceled == b.scan.canceled
        }),
{
    let base = b.scan.nodes.len() as int;
    let index = base as usize;
    let hit = if entry.is_dir {
        recalled(remembered(cache, entry.path, options, probe), now)
    } else {
        None
    };
    let node = found_node(parent, entry, hit);
    let grown = ScanModel { nodes: b.scan.nodes.push(node), ..b.scan };
    let job = ScanJob::Summary(index, options);
    let unmarked = grown.with_node(
        index,
        NodeModel { summary_queued: false, ..grown.nodes[base] },
    );
    assert(unmarked.nodes =~= grown.nodes);
    if let Some(known) = hit {
        let changed = NodeModel {
            summarized: node.summarized || known.fresh,
            summary_queued: false,
            summarizing: false,
            ..with_counts(node, known.summary)
        };
        lemma_resized(unmarked.nodes, base, changed);
        assert(size_delta(node.size, changed.size) == 0);
        let moved = with_resized(unmarked.nodes, base, changed);
        assert forall|k: int| 0 <= k < base implies #[trigger] moved[k] == b.scan.nodes[k] by {
            assert(unmarked.nodes[k] == b.scan.nodes[k]);
        }
    }
}

proof fn lemma_with_children_effect(
    b: BatchModel,
    parent: TreeIndex,
    entries: Seq<ScannedModel>,
    probes: Seq<Option<MetadataFingerprint>>,
    options: ScanOptions,
    cache: Map<CacheKey, CachedModel>,
    now: Timestamp,
)
    requires
        b.scan.nodes.len() + entries.len() <= usize::MAX,
    ensures
        ({
            let r = b.with_children(parent, entries, probes, options, cache, now).scan;
            let base = b.scan.nodes.len() as int;
            &&& r.nodes.len() == base + entries.len()
            &&& forall|k: int|
                #![trigger r.nodes[k]]
                0 <= k < base ==> r.nodes[k] == b.scan.nodes[k]
            &&& forall|i: int|
                #![trigger r.nodes[base + i]]
                0 <= i < entries.len() ==> is_node_of(
                    r.nodes[base + i],
                    parent,
                    entries[i],
                    remembered(cache, entries[i].path, options, probe_at(probes, i)),
                    now,
                )
            &&& r.queued == b.scan.queued
            &&& r.stats.entries_traversed == b.scan.stats.entries_traversed
            &&& r.stats.io_errors == b.scan.stats.io_errors
            &&& r.stats.error_samples == b.scan.stats.error_samples
            &&& r.root == b.scan.root
            &&& r.canceled == b.scan.canceled
        }),
    decreases entries.len(),
{
    if entries.len() > 0 {
        let last = entries.len() - 1;
        let rest = entries.drop_last();
        lemma_with_children_effect(b, parent, rest, probes, options, cache, now);
        let before = b.with_children(parent, rest, probes, options, cache, now);
        lemma_with_child_effect(
            before,
            parent,
            entries[last],
            probe_at(probes, last),
            options,
            cache,
            now,
        );
        let r = b.with_children(parent, entries, probes, options, cache, now).scan;
        let base = b.scan.nodes.len() as int;
        assert(r == before.with_child(
            parent,
            entries[last],
            probe_at(probes, last),
            options,
            cache,
            now,
        ).scan);
        assert forall|k: int| #![trigger r.nodes[k]] 0 <= k < base implies r.nodes[k]
            == b.scan.nodes[k] by {
            assert(r.nodes[k] == before.scan.nodes[k]);
        }
        assert forall|i: int|
            #![trigger r.nodes[base + i]]
            0 <= i < entries.len() implies is_node_of(
            r.nodes[base + i],
            parent,
            entries[i],
            remembered(cache, entries[i].path, options, probe_at(probes, i)),
            now,
        ) by {
            if i < last {
                assert(rest[i] == entries[i]);
                assert(r.nodes[base + i] == before.scan.nodes[base + i]);
            }
        }
    }
}

/// A batch adds one node for each child that it brings, which is as it was found or as
/// it is remembered, and puts them behind the children of their directory in their
/// order. The directory is being listed until the last batch, and listed from then on.
/// What has been counted is added to what was counted before.
pub proof fn law_a_batch_links_its_children(
    m: ScanModel,
    parent: TreeIndex,
    children: Seq<ScannedModel>,
    child_probes: Seq<Option<MetadataFingerprint>>,
    options: ScanOptions,
    stats: StatsModel,
    done: bool,
    probes: Map<TreeIndex, MetadataFingerprint>,
    cache: Map<CacheKey, CachedModel>,
    now: Timestamp,
)
    requires
        m.wf(),
        m.has(parent),
        m.nodes.len() + children.len() <= usize::MAX,
    ensures
        ({
            let n = m.integrate_children(
                parent,
                children,
                child_probes,
                options,
                stats,
                done,
                probes,
                cache,
                now,
            ).0;
            let base = m.nodes.len() as int;
            let (before, after) = (m.nodes[parent as int], n.nodes[parent as int]);
            &&& n.nodes.len() == base + children.len()
            &&& forall|i: int|
                #![trigger n.nodes[base + i]]
                0 <= i < children.len() ==> is_node_of(
                    n.nodes[base + i],
                    parent,
                    children[i],
                    remembered(cache, children[i].path, options, probe_at(child_probes, i)),
                    now,
                )
            &&& after.children.len() == before.children.len() + children.len()
            &&& forall|i: int|
                0 <= i < before.children.len() ==> #[trigger] after.children[i]
                    == before.children[i]
            &&& forall|i: int|
                before.children.len() <= i < after.children.len() ==> #[trigger] after.children[i]
                    == base + i - before.children.len()
            &&& after == (NodeModel {
                children: after.children,
                scanned: done,
                scanning: !done,
                size: after.size,
                entry_count: after.entry_count,
                ..before
            })
            &&& forall|k: int|
                #![trigger n.nodes[k]]
                0 <= k < base && k != parent ==> n.nodes[k] == (NodeModel {
                    size: n.nodes[k].size,
                    ..m.nodes[k]
                }) && (!is_above(m.nodes, k, parent as int) ==> n.nodes[k] == m.nodes[k])
            &&& n.stats.entries_traversed == m.stats.entries_traversed.wrapping_add(
                stats.entries_traversed,
            )
            &&& n.stats.io_errors == m.stats.io_errors.wrapping_add(stats.io_errors)
            &&& n.stats.error_samples == kept_samples(
                m.stats.error_samples,
                stats.error_samples,
            )
            &&& n.stats.total_bytes == Some(n.nodes[0].size)
            &&& n.queued == m.queued
            &&& n.root == m.root
            &&& n.canceled == m.canceled
        }),
{
    let at = parent as int;
    let base = m.nodes.len() as int;
    let first = BatchModel {
        scan: m,
        probes,
        background: count_estimating(m.nodes, m.nodes[at].children),
        size: 0,
    };
    let batch = first.with_children(parent, children, child_probes, options, cache, now);
    lemma_with_children_effect(first, parent, children, child_probes, options, cache, now);
    let b = batch.scan;
    let n = m.integrate_children(
        parent,
        children,
        child_probes,
        options,
        stats,
        done,
        probes,
        cache,
        now,
    ).0;
    lemma_batch_nodes(m, b, parent, children.len() as int, batch.size, done);
    assert forall|i: int| #![trigger n.nodes[base + i]] 0 <= i < children.len() implies is_node_of(
        n.nodes[base + i],
        parent,
        children[i],
        remembered(cache, children[i].path, options, probe_at(child_probes, i)),
        now,
    ) by {
        assert(n.nodes[base + i] == b.nodes[base + i]);
    }
}

/// What linking children changes, and what it does not.
proof fn lemma_batch_nodes(
    m: ScanModel,
    b: ScanModel,
    parent: TreeIndex,
    count: int,
    size: u128,
    done: bool,
)
    requires
        m.is_tree(),
        m.has(parent),
        count >= 0,
        b.nodes.len() == m.nodes.len() + count,
        b.nodes.len() <= usize::MAX,
        forall|k: int| #![trigger b.nodes[k]] 0 <= k < m.nodes.len() ==> b.nodes[k] == m.nodes[k],
    ensures
        ({
            let nodes = b.with_batch(parent, m.nodes.len() as int, count, size, done);
            let base = m.nodes.len() as int;
            let (before, after) = (m.nodes[parent as int], nodes[parent as int]);
            &&& nodes.len() == b.nodes.len()
            &&& forall|k: int| #![trigger nodes[k]] base <= k < nodes.len() ==> nodes[k]
                == b.nodes[k]
            &&& after.children.len() == before.children.len() + count
            &&& forall|i: int|
                0 <= i < before.children.len() ==> #[trigger] after.children[i]
                    == before.children[i]
            &&& forall|i: int|
                before.children.len() <= i < after.children.len() ==> #[trigger] after.children[i]
                    == base + i - before.children.len()
            &&& after == (NodeModel {
                children: after.children,
                scanned: done,
                scanning: !done,
                size: after.size,
                entry_count: after.entry_count,
                ..before
            })
            &&& forall|k: int|
                #![trigger nodes[k]]
                0 <= k < base && k != parent ==> nodes[k] == (NodeModel {
                    size: nodes[k].size,
                    ..m.nodes[k]
                }) && (!is_above(m.nodes, k, parent as int) ==> nodes[k] == m.nodes[k])
            &&& before.summarized ==> {
                &&& after.size == before.size
                &&& after.entry_count == before.entry_count
                &&& forall|k: int|
                    #![trigger nodes[k]]
                    0 <= k < base ==> nodes[k].size == m.nodes[k].size
            }
            &&& !before.summarized ==> {
                &&& after.size == if before.children.len() == 0 {
                    size as int
                } else if before.size + size <= u128::MAX {
                    before.size + size
                } else {
                    u128::MAX as int
                }
                &&& after.entry_count is Some
                &&& after.entry_count->0 == ({
                    let total = count + if before.entry_count is Some {
                        before.entry_count->0 as int
                    } else {
                        0
                    };
                    if total <= u64::MAX {
                        total
                    } else {
                        u64::MAX as int
                    }
                })
                &&& forall|k: int|
                    #![trigger nodes[k]]
                    0 <= k < base && is_above(m.nodes, k, parent as int) && before.size
                        < 0x8000_0000_0000_0000_0000_0000_0000_0000 && after.size
                        < 0x8000_0000_0000_0000_0000_0000_0000_0000 && 0 <= m.nodes[k].size
                        + after.size - before.size <= u128::MAX ==> nodes[k].size
                        == m.nodes[k].size + after.size - before.size
            }
        }),
{
    let at = parent as int;
    let base = m.nodes.len() as int;
    let nodes = b.with_batch(parent, base, count, size, done);
    let before = m.nodes[at];
    assert(b.nodes[at] == before);
    lemma_above_is_smaller(m.nodes, at, at);
    assert forall|changed: NodeModel, k: int|
        changed.parent == before.parent && 0 <= k < b.nodes.len() implies #[trigger] is_above(
        b.nodes.update(at, changed),
        k,
        at,
    ) == is_above(m.nodes, k, at) by {
        lemma_same_parents_same_above(m.nodes, b.nodes.update(at, changed), k, at);
    }
    assert forall|k: int| base <= k < b.nodes.len() implies !(#[trigger] is_above(
        m.nodes,
        k,
        at,
    )) by {
        lemma_above_is_smaller(m.nodes, k, at);
    }
}

/// A batch of children of a directory whose size is known from a summary takes nothing
/// away and adds nothing: the directory keeps its size and its count, and so does
/// everything that was there before.
pub proof fn law_opening_keeps_measured_sizes(
    m: ScanModel,
    parent: TreeIndex,
    children: Seq<ScannedModel>,
    child_probes: Seq<Option<MetadataFingerprint>>,
    options: ScanOptions,
    stats: StatsModel,
    done: bool,
    probes: Map<TreeIndex, MetadataFingerprint>,
    cache: Map<CacheKey, CachedModel>,
    now: Timestamp,
)
    requires
        m.wf(),
        m.has(parent),
        m.nodes[parent as int].summarized,
        m.nodes.len() + children.len() <= usize::MAX,
    ensures
        ({
            let n = m.integrate_children(
                parent,
                children,
                child_probes,
                options,
                stats,
                done,
                probes,
                cache,
                now,
            ).0;
            &&& n.nodes[parent as int].size == m.nodes[parent as int].size
            &&& n.nodes[parent as int].entry_count == m.nodes[parent as int].entry_count
            &&& n.nodes[parent as int].summarized
            &&& forall|k: int|
                #![trigger n.nodes[k]]
                0 <= k < m.nodes.len() ==> n.nodes[k].size == m.nodes[k].size
                    && n.nodes[k].entry_count == m.nodes[k].entry_count
            &&& n.stats.total_bytes == Some(m.nodes[0].size)
        }),
{
    let at = parent as int;
    let first = BatchModel {
        scan: m,
        probes,
        background: count_estimating(m.nodes, m.nodes[at].children),
        size: 0,
    };
    let batch = first.with_children(parent, children, child_probes, options, cache, now);
    lemma_with_children_effect(first, parent, children, child_probes, options, cache, now);
    lemma_batch_nodes(m, batch.scan, parent, children.len() as int, batch.size, done);
}

/// A batch of children of a directory whose size is not known from a summary adds the
/// children to its count, and their sizes to its own; the first children take the place
/// of what was known of its size before. Every directory above it changes by as much.
/// This holds as long as the numbers can hold the sizes.
pub proof fn law_a_batch_counts_its_children(
    m: ScanModel,
    parent: TreeIndex,
    children: Seq<ScannedModel>,
    child_probes: Seq<Option<MetadataFingerprint>>,
    options: ScanOptions,
    stats: StatsModel,
    done: bool,
    probes: Map<TreeIndex, MetadataFingerprint>,
    cache: Map<CacheKey, CachedModel>,
    now: Timestamp,
)
    requires
        m.wf(),
        m.has(parent),
        !m.nodes[parent as int].summarized,
        m.nodes.len() + children.len() <= usize::MAX,
        m.nodes[parent as int].size + counted_sizes(children, child_probes, options, cache)
            < 0x8000_0000_0000_0000_0000_0000_0000_0000,
        m.nodes[parent as int].entry_count is Some ==> m.nodes[parent as int].entry_count->0
            + children.len() <= u64::MAX,
        children.len() <= u64::MAX,
    ensures
        ({
            let n = m.integrate_children(
                parent,
                children,
                child_probes,
                options,
                stats,
                done,
                probes,
                cache,
                now,
            ).0;
            let (before, after) = (m.nodes[parent as int], n.nodes[parent as int]);
            let brought = counted_sizes(children, child_probes, options, cache);
            &&& after.size == brought + if before.children.len() == 0 {
                0
            } else {
                before.size as int
            }
            &&& after.entry_count is Some
            &&& after.entry_count->0 == children.len() + if before.entry_count is Some {
                before.entry_count->0 as int
            } else {
                0
            }
            &&& forall|k: int|
                #![trigger n.nodes[k]]
                0 <= k < m.nodes.len() && is_above(m.nodes, k, parent as int) && 0
                    <= m.nodes[k].size + after.size - before.size <= u128::MAX ==> n.nodes[k].size
                    == m.nodes[k].size + after.size - before.size
        }),
{
    let at = parent as int;
    let first = BatchModel {
        scan: m,
        probes,
        background: count_estimating(m.nodes, m.nodes[at].children),
        size: 0,
    };
    let batch = first.with_children(parent, children, child_probes, options, cache, now);
    lemma_with_children_effect(first, parent, children, child_probes, options, cache, now);
    lemma_with_children_sizes(first, parent, children, child_probes, options, cache, now);
    lemma_batch_nodes(m, batch.scan, parent, children.len() as int, batch.size, done);
}

/// What changes when the size of one node does: the node itself, the sizes of the
/// directories above it, each by the difference, and nothing else.
proof fn lemma_resized_effect(nodes: Seq<NodeModel>, index: int, node: NodeModel)
    requires
        0 <= index < nodes.len(),
        node.parent == nodes[index].parent,
        node.children == nodes[index].children,
    ensures
        ({
            let after = with_resized(nodes, index, node);
            &&& after.len() == nodes.len()
            &&& after[index] == node
            &&& forall|k: int|
                #![trigger after[k]]
                0 <= k < nodes.len() && k != index ==> {
                    &&& after[k] == (NodeModel { size: after[k].size, ..nodes[k] })
                    &&& !is_above(nodes, k, index) ==> after[k] == nodes[k]
                    &&& is_above(nodes, k, index) && nodes[index].size
                        < 0x8000_0000_0000_0000_0000_0000_0000_0000 && node.size
                        < 0x8000_0000_0000_0000_0000_0000_0000_0000 && 0 <= nodes[k].size
                        + node.size - nodes[index].size <= u128::MAX ==> after[k].size
                        == nodes[k].size + node.size - nodes[index].size
                }
        }),
{
    lemma_resized(nodes, index, node);
    assert forall|k: int| 0 <= k < nodes.len() implies #[trigger] is_above(
        nodes.update(index, node),
        k,
        index,
    ) == is_above(nodes, k, index) by {
        lemma_same_parents_same_above(nodes, nodes.update(index, node), k, index);
    }
}

/// A summary gives a node its size and, where it is a directory, its count, and the
/// node is summed up from then on. Every directory above it changes by the difference,
/// as long as the numbers can hold the sizes; nothing else changes. What the summary
/// counted is added to what was counted before, and one job less runs.
pub proof fn law_a_summary_sets_the_size(m: ScanModel, index: TreeIndex, summary: SummaryModel)
    requires
        m.wf(),
        m.has(index),
    ensures
        ({
            let n = m.integrate_summary(index, summary);
            let (before, after) = (m.nodes[index as int], n.nodes[index as int]);
            &&& n.nodes.len() == m.nodes.len()
            &&& after.size == summary.size
            &&& before.is_dir ==> after.entry_count == Some(summary.entry_count)
            &&& !before.is_dir ==> after.entry_count is None
            &&& after.summarized
            &&& !after.summarizing
            &&& after.metadata_error == (before.metadata_error || summary.metadata_error)
            &&& after.summary_entries_seen == summary.entries_seen
            &&& after == (NodeModel {
                size: after.size,
                entry_count: after.entry_count,
                summarized: true,
                summarizing: false,
                metadata_error: after.metadata_error,
                summary_entries_seen: after.summary_entries_seen,
                ..before
            })
            &&& forall|k: int|
                #![trigger n.nodes[k]]
                0 <= k < m.nodes.len() && k != index ==> {
                    &&& n.nodes[k] == (NodeModel { size: n.nodes[k].size, ..m.nodes[k] })
                    &&& !is_above(m.nodes, k, index as int) ==> n.nodes[k] == m.nodes[k]
                    &&& is_above(m.nodes, k, index as int) && before.size
                        < 0x8000_0000_0000_0000_0000_0000_0000_0000 && summary.size
                        < 0x8000_0000_0000_0000_0000_0000_0000_0000 && 0 <= m.nodes[k].size
                        + summary.size - before.size <= u128::MAX ==> n.nodes[k].size
                        == m.nodes[k].size + summary.size - before.size
                }
            &&& n.stats.entries_traversed == m.stats.entries_traversed.wrapping_add(
                summary.entries_seen,
            )
            &&& n.stats.io_errors == m.stats.io_errors.wrapping_add(summary.io_errors)
            &&& n.stats.error_samples == kept_samples(
                m.stats.error_samples,
                summary.error_samples,
            )
            &&& n.stats.total_bytes == Some(n.nodes[0].size)
            &&& n.stats.active_jobs == if m.stats.active_jobs > 0 {
                m.stats.active_jobs - 1
            } else {
                0
            }
            &&& n.queued == m.queued && n.background == m.background && n.started == m.started
        }),
{
    let changed = NodeModel {
        summarized: true,
        summarizing: false,
        ..with_counts(m.nodes[index as int], summary)
    };
    lemma_resized_effect(m.nodes, index as int, changed);
}

/// What a running summary has added up so far lets the size of a node grow, never
/// shrink, and sets its count where it is a directory. Once a node is summed up,
/// progress changes nothing.
pub proof fn law_progress_lets_sizes_grow(
    m: ScanModel,
    index: TreeIndex,
    progress: SummaryProgress,
)
    requires
        m.wf(),
        m.has(index),
    ensures
        ({
            let n = m.integrate_progress(index, progress);
            let (before, after) = (m.nodes[index as int], n.nodes[index as int]);
            &&& before.summarized ==> n == m
            &&& !before.summarized ==> {
                &&& after.size >= before.size && after.size >= progress.size
                &&& after.size == before.size || after.size == progress.size
                &&& before.is_dir ==> after.entry_count == Some(progress.entry_count)
                &&& !after.summarized
                &&& after.summary_entries_seen == progress.entries_seen
                &&& forall|k: int|
                    #![trigger n.nodes[k]]
                    0 <= k < m.nodes.len() && k != index ==> {
                        &&& n.nodes[k] == (NodeModel { size: n.nodes[k].size, ..m.nodes[k] })
                        &&& !is_above(m.nodes, k, index as int) ==> n.nodes[k] == m.nodes[k]
                        &&& is_above(m.nodes, k, index as int) && after.size
                            < 0x8000_0000_0000_0000_0000_0000_0000_0000 && m.nodes[k].size
                            + after.size - before.size <= u128::MAX ==> n.nodes[k].size
                            == m.nodes[k].size + after.size - before.size
                    }
                &&& n.stats == (StatsModel {
                    total_bytes: Some(n.nodes[0].size),
                    ..m.stats
                })
                &&& n.queued == m.queued && n.background == m.background && n.started == m.started
            }
        }),
{
    let node = m.nodes[index as int];
    let changed = NodeModel {
        size: if progress.size > node.size {
            progress.size
        } else {
            node.size
        },
        entry_count: if node.is_dir {
            Some(progress.entry_count)
        } else {
            None
        },
        summary_entries_seen: progress.entries_seen,
        ..node
    };
    lemma_resized_effect(m.nodes, index as int, changed);
}

/// A summary is remembered for the path of its node, if its fingerprint is known, as of
/// the time at which it is taken in; nothing else that is remembered changes. No other
/// report is remembered.
pub proof fn law_summaries_are_remembered_with_their_fingerprints(
    d: DrainModel,
    report: ReportModel,
    now: Timestamp,
    path: Seq<u8>,
    options: ScanOptions,
    fingerprint: MetadataFingerprint,
)
    ensures
        ({
            let after = d.absorb(report, now).cache;
            let found = remembered(after, path, options, Some(fingerprint));
            let known = remembered(d.cache, path, options, Some(fingerprint));
            match report.event {
                EventModel::Summary { index, options: used, summary } => {
                    let key = d.scan.has(index) && d.probes.contains_key(index) && cache_key(
                        d.scan.nodes[index as int].path,
                        used,
                        d.probes[index],
                    ) == cache_key(path, options, fingerprint);
                    &&& key ==> found == Some(CachedModel { summary, cached_at: now })
                    &&& !key ==> found == known
                },
                _ => after == d.cache,
            }
        }),
{
}

/// A scan begins with its root: as large as its own entry, being listed if it is a
/// directory, with one job for that, and nothing counted yet.
pub proof fn law_a_scan_begins_with_its_root(
    root: Seq<u8>,
    name: Seq<char>,
    metadata: EntryMetadata,
    options: ScanOptions,
)
    ensures
        ({
            let m = fresh_scan(root, name, metadata, options);
            let node = m.nodes[0];
            &&& m.nodes.len() == 1
            &&& m.root == root
            &&& node.name == name
            &&& node.path == root
            &&& node.size == if options.apparent_size {
                metadata.len as int
            } else {
                metadata.blocks * 512
            }
            &&& node.modified == metadata.modified
            &&& node.is_dir == metadata.is_dir
            &&& node.entry_count == Some(0u64)
            &&& !node.metadata_error
            &&& node.parent is None
            &&& node.children.len() == 0
            &&& node.boundary_dev == Some(metadata.dev)
            &&& !node.scanned
            &&& node.scanning == metadata.is_dir
            &&& node.summarized == !metadata.is_dir
            &&& !node.summary_queued && !node.summarizing
            &&& m.queued.len() == 0 && m.background.len() == 0
            &&& metadata.is_dir ==> m.started == seq![ScanJob::Children(0, options)]
                && m.stats.active_jobs == 1
            &&& !metadata.is_dir ==> m.started.len() == 0 && m.stats.active_jobs == 0
            &&& !m.canceled && !m.finished
            &&& m.stats.entries_traversed == 0 && m.stats.io_errors == 0
            &&& m.stats.total_bytes is None
            &&& m.stats.error_samples.len() == 0
        }),
{
    let m = fresh_scan(root, name, metadata, options);
    if metadata.is_dir {
        assert(m.started =~= seq![ScanJob::Children(0, options)]);
    }
}

/// To cancel a scan keeps everything that is known of its nodes but that work on them
/// is under way, and everything that was counted but the jobs that run.
pub proof fn law_canceling_keeps_what_is_known(m: ScanModel)
    ensures
        ({
            let n = m.cancel();
            &&& n.canceled && n.finished
            &&& n.nodes.len() == m.nodes.len()
            &&& forall|k: int|
                #![trigger n.nodes[k]]
                0 <= k < m.nodes.len() ==> n.nodes[k] == (NodeModel {
                    scanning: false,
                    summarizing: false,
                    summary_queued: false,
                    ..m.nodes[k]
                })
            &&& n.queued.len() == 0 && n.background.len() == 0 && n.started.len() == 0
            &&& n.stats == (StatsModel { active_jobs: 0, ..m.stats })
            &&& n.root == m.root
        }),
{
}

/// Reports about nodes that are not there change nothing of any node; a summary and a
/// last batch end a job all the same.
pub proof fn law_reports_about_unknown_nodes_end_their_jobs(
    d: DrainModel,
    report: ReportModel,
    now: Timestamp,
)
    ensures
        ({
            let n = d.absorb(report, now).scan;
            let less = if d.scan.stats.active_jobs > 0 {
                d.scan.stats.active_jobs - 1
            } else {
                0
            };
            match report.event {
                EventModel::ChildrenBatch { parent, done, .. } => !d.scan.has(parent) ==> n == (
                ScanModel {
                    stats: StatsModel {
                        active_jobs: if done {
                            less
                        } else {
                            d.scan.stats.active_jobs
                        },
                        ..d.scan.stats
                    },
                    ..d.scan
                }),
                EventModel::Summary { index, .. } => !d.scan.has(index) ==> n == (ScanModel {
                    stats: StatsModel { active_jobs: less, ..d.scan.stats },
                    ..d.scan
                }),
                EventModel::SummaryProgress { index, .. } => !d.scan.has(index) ==> n == d.scan,
            }
        }),
{
}

/// Above a node are its parent and whatever is above that, and nothing else.
pub proof fn law_above_a_node_is_its_parent(m: ScanModel, above: int, index: int)
    requires
        m.is_tree(),
        0 <= index < m.nodes.len(),
    ensures
        m.nodes[index].parent is None ==> !is_above(m.nodes, above, index),
        m.nodes[index].parent is Some ==> {
            let parent = m.nodes[index].parent->0 as int;
            is_above(m.nodes, above, index) <==> above == parent || is_above(
                m.nodes,
                above,
                parent,
            )
        },
        !is_above(m.nodes, index, index),
{
    lemma_above_is_smaller(m.nodes, index, index);
    if index > 0 {
        assert(m.nodes[index].parent is Some && m.nodes[index].parent->0 < index);
    }
}

/// Reports are taken in one after the other: those that come first are taken in first,
/// and none is lost in between.
pub proof fn law_reports_are_taken_in_one_by_one(
    d: DrainModel,
    first: Seq<ReportModel>,
    then: Seq<ReportModel>,
    now: Timestamp,
)
    ensures
        d.integrate_all(first + then, now) == d.integrate_all(first, now).integrate_all(then, now),
        d.integrate_all(Seq::empty(), now) == d,
    decreases then.len(),
{
    if then.len() == 0 {
        assert(first + then =~= first);
    } else {
        assert((first + then).drop_last() =~= first + then.drop_last());
        law_reports_are_taken_in_one_by_one(d, first, then.drop_last(), now);
    }
}

/// A remembered summary that is taken over gives a node its size and, where it is a
/// directory, its count; a fresh one ends the work on the node, and one that is not
/// leaves that as it is. Every directory above changes by the difference, as long as the
/// numbers can hold the sizes; nothing else changes.
pub proof fn law_a_remembered_summary_is_taken_over(
    m: ScanModel,
    index: TreeIndex,
    summary: SummaryModel,
    complete: bool,
)
    requires
        m.has(index),
    ensures
        ({
            let n = m.apply_cached(index, summary, complete);
            let (before, after) = (m.nodes[index as int], n.nodes[index as int]);
            &&& after.size == summary.size
            &&& before.is_dir ==> after.entry_count == Some(summary.entry_count)
            &&& after.metadata_error == (before.metadata_error || summary.metadata_error)
            &&& complete ==> after.summarized && !after.summarizing && !after.summary_queued
            &&& !complete ==> after.summarized == before.summarized && after.summarizing
                == before.summarizing && after.summary_queued == before.summary_queued
            &&& after.scanned == before.scanned && after.scanning == before.scanning
            &&& after.children == before.children && after.parent == before.parent
            &&& forall|k: int|
                #![trigger n.nodes[k]]
                0 <= k < m.nodes.len() && k != index ==> {
                    &&& n.nodes[k] == (NodeModel { size: n.nodes[k].size, ..m.nodes[k] })
                    &&& !is_above(m.nodes, k, index as int) ==> n.nodes[k] == m.nodes[k]
                    &&& is_above(m.nodes, k, index as int) && before.size
                        < 0x8000_0000_0000_0000_0000_0000_0000_0000 && summary.size
                        < 0x8000_0000_0000_0000_0000_0000_0000_0000 && 0 <= m.nodes[k].size
                        + summary.size - before.size <= u128::MAX ==> n.nodes[k].size
                        == m.nodes[k].size + summary.size - before.size
                }
            &&& n.stats == (StatsModel { total_bytes: Some(n.nodes[0].size), ..m.stats })
            &&& n.queued == m.queued && n.background == m.background && n.started == m.started
        }),
{
    let node = m.nodes[index as int];
    let changed = NodeModel {
        summarized: node.summarized || complete,
        summary_queued: node.summary_queued && !complete,
        summarizing: node.summarizing && !complete,
        ..with_counts(node, summary)
    };
    lemma_resized_effect(m.nodes, index as int, changed);
}

/// A size never leaves what 128 bits can hold: it stops at zero and at the largest.
pub proof fn law_sizes_stop_at_their_bounds(
    size: u128,
    delta: int,
    other: u128,
    count: u64,
    more: int,
)
    requires
        more >= 0,
    ensures
        0 <= size + delta <= u128::MAX ==> moved_size(size, delta) == size + delta,
        size + delta < 0 ==> moved_size(size, delta) == 0,
        size + delta > u128::MAX ==> moved_size(size, delta) == u128::MAX,
        size + other <= u128::MAX ==> capped_size(size, other) == size + other,
        size + other > u128::MAX ==> capped_size(size, other) == u128::MAX,
        count + more <= u64::MAX ==> capped_sum(count, more) == count + more,
        count + more > u64::MAX ==> capped_sum(count, more) == u64::MAX,
{
}

/// Of the children of a directory those are counted as estimated that are directories
/// and are summed up or wait for it, each of them once.
pub proof fn law_estimated_children_are_counted(
    nodes: Seq<NodeModel>,
    some: Seq<TreeIndex>,
    rest: Seq<TreeIndex>,
    child: TreeIndex,
)
    ensures
        count_estimating(nodes, some + rest) == count_estimating(nodes, some) + count_estimating(
            nodes,
            rest,
        ),
        child < nodes.len() ==> count_estimating(nodes, seq![child]) == if nodes[child as int].is_dir
            && (nodes[child as int].summarizing || nodes[child as int].summary_queued) {
            1int
        } else {
            0
        },
        count_estimating(nodes, Seq::empty()) == 0,
    decreases rest.len(),
{
    assert(seq![child].drop_last() =~= Seq::empty());
    assert(count_estimating(nodes, Seq::empty()) == 0);
    if rest.len() == 0 {
        assert(some + rest =~= some);
    } else {
        assert((some + rest).drop_last() =~= some + rest.drop_last());
        law_estimated_children_are_counted(nodes, some, rest.drop_last(), child);
    }
}

/// A report is taken in, and then what waits is started; so it is with each of several
/// reports, and once more behind them all, before the scan settles.
pub proof fn law_what_waits_is_started_after_each_report(
    d: DrainModel,
    report: ReportModel,
    reports: Seq<ReportModel>,
    now: Timestamp,
)
    requires
        !d.scan.canceled,
    ensures
        ({
            let taken = d.absorb(report, now);
            let all = d.integrate_all(reports, now);
            &&& d.integrate(report, now).scan == taken.scan.start_waiting(
                taken.probes,
                taken.cache,
                now,
            )
            &&& d.integrate(report, now).cache == taken.cache
            &&& d.integrate(report, now).probes == taken.probes
            &&& d.drain(reports, now).scan == all.scan.start_waiting(
                all.probes,
                all.cache,
                now,
            ).settle()
            &&& d.drain(reports, now).cache == all.cache
            &&& d.drain(reports, now).probes == all.probes
        }),
{
}

/// The nodes of a scan, and the values that are reported, hold what was put into them.
pub proof fn law_models_hold_what_was_read(
    node: Node,
    entry: ScannedEntry,
    summary: Summary,
    sample: IoErrorSample,
    stats: ScanStats,
)
    ensures
        node@.name == node.name@ && node@.path == node.path@ && node@.size == node.size,
        node@.modified == node.modified && node@.is_dir == node.is_dir,
        node@.entry_count == node.entry_count && node@.metadata_error == node.metadata_error,
        node@.parent == node.parent && node@.children == node.children@,
        node@.boundary_dev == node.boundary_dev,
        node@.scanned == node.scanned && node@.scanning == node.scanning,
        node@.summarized == node.summarized && node@.summarizing == node.summarizing,
        node@.summary_queued == node.summary_queued,
        node@.summary_entries_seen == node.summary_entries_seen,
        entry@.name == entry.name@ && entry@.path == entry.path@ && entry@.size == entry.size,
        entry@.modified == entry.modified && entry@.is_dir == entry.is_dir,
        entry@.entry_count == entry.entry_count,
        entry@.metadata_error == entry.metadata_error,
        entry@.boundary_dev == entry.boundary_dev,
        summary@.size == summary.size && summary@.entry_count == summary.entry_count,
        summary@.entries_seen == summary.entries_seen && summary@.io_errors == summary.io_errors,
        summary@.metadata_error == summary.metadata_error,
        summary@.error_samples == sample_models(summary.error_samples@),
        sample@.path == sample.path@ && sample@.message == sample.message@,
        stats@.entries_traversed == stats.entries_traversed && stats@.io_errors == stats.io_errors,
        stats@.total_bytes == stats.total_bytes && stats@.active_jobs == stats.active_jobs,
        stats@.error_samples == sample_models(stats.error_samples@),
{
}

/// A report holds what is reported.
pub proof fn law_models_hold_what_is_reported(event: ScanEvent)
    ensures
        match event {
            ScanEvent::ChildrenBatch { parent, children, options, stats, done } => event@
                == (EventModel::ChildrenBatch {
                parent,
                children: scanned_models(children@),
                options,
                stats: stats@,
                done,
            }),
            ScanEvent::Summary { index, options, summary } => event@ == (EventModel::Summary {
                index,
                options,
                summary: summary@,
            }),
            ScanEvent::SummaryProgress { index, progress } => event@
                == (EventModel::SummaryProgress { index, progress }),
        },
{
}

/// A batch adds the fingerprints of the directories in it to those that are known, each
/// for the node of its directory, and changes no other. It ends the job of its directory
/// if it is the last; while jobs run, it starts no other.
pub proof fn law_a_batch_brings_fingerprints(
    m: ScanModel,
    parent: TreeIndex,
    children: Seq<ScannedModel>,
    child_probes: Seq<Option<MetadataFingerprint>>,
    options: ScanOptions,
    stats: StatsModel,
    done: bool,
    probes: Map<TreeIndex, MetadataFingerprint>,
    cache: Map<CacheKey, CachedModel>,
    now: Timestamp,
    index: TreeIndex,
)
    requires
        m.wf(),
        m.has(parent),
        m.nodes.len() + children.len() <= usize::MAX,
    ensures
        ({
            let (n, known) = m.integrate_children(
                parent,
                children,
                child_probes,
                options,
                stats,
                done,
                probes,
                cache,
                now,
            );
            let place = index - m.nodes.len();
            let brought = 0 <= place < children.len() && children[place].is_dir && probe_at(
                child_probes,
                place,
            ) is Some;
            &&& brought ==> known.contains_key(index) && known[index] == probe_at(
                child_probes,
                place,
            )->0
            &&& !brought ==> (known.contains_key(index) <==> probes.contains_key(index)) && (
            probes.contains_key(index) ==> known[index] == probes[index])
            &&& m.stats.active_jobs > 0 ==> n.stats.active_jobs == m.stats.active_jobs - (if done {
                1int
            } else {
                0
            })
        }),
{
    let first = BatchModel {
        scan: m,
        probes,
        background: count_estimating(m.nodes, m.nodes[parent as int].children),
        size: 0,
    };
    lemma_with_children_probes(
        first,
        parent,
        children,
        child_probes,
        options,
        cache,
        now,
        index,
    );
}

proof fn lemma_with_children_probes(
    b: BatchModel,
    parent: TreeIndex,
    entries: Seq<ScannedModel>,
    probes: Seq<Option<MetadataFingerprint>>,
    options: ScanOptions,
    cache: Map<CacheKey, CachedModel>,
    now: Timestamp,
    index: TreeIndex,
)
    requires
        b.scan.nodes.len() + entries.len() <= usize::MAX,
    ensures
        ({
            let r = b.with_children(parent, entries, probes, options, cache, now);
            let place = index - b.scan.nodes.len();
            let brought = 0 <= place < entries.len() && entries[place].is_dir && probe_at(
                probes,
                place,
            ) is Some;
            &&& brought ==> r.probes.contains_key(index) && r.probes[index] == probe_at(
                probes,
                place,
            )->0
            &&& !brought ==> (r.probes.contains_key(index) <==> b.probes.contains_key(index)) && (
            b.probes.contains_key(index) ==> r.probes[index] == b.probes[index])
            &&& r.scan.nodes.len() == b.scan.nodes.len() + entries.len()
            &&& b.scan.stats.active_jobs > 0 ==> r.scan.stats.active_jobs
                == b.scan.stats.active_jobs
        }),
    decreases entries.len(),
{
    if entries.len() > 0 {
        let last = entries.len() - 1;
        let rest = entries.drop_last();
        lemma_with_children_probes(b, parent, rest, probes, options, cache, now, index);
        let before = b.with_children(parent, rest, probes, options, cache, now);
        lemma_with_child_effect(
            before,
            parent,
            entries[last],
            probe_at(probes, last),
            options,
            cache,
            now,
        );
        let r = b.with_children(parent, entries, probes, options, cache, now);
        assert(r == before.with_child(
            parent,
            entries[last],
            probe_at(probes, last),
            options,
            cache,
            now,
        ));
    }
}

} // verus!

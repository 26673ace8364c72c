//! How sizes add up, and when directories are complete.
use crate::scan::data::{
    JobPriority, MetadataFingerprint, NodeModel, ScanJob, ScanOptions, ScannedModel, StatsModel,
    TreeIndex,
};
use crate::scan::keeps::{
    continues, lemma_above_is_smaller, lemma_resized, lemma_same_tree, lemma_with_batch_keeps,
    lemma_with_children_keeps,
};
use crate::scan::model::{
    capped_size, capped_sum, completes, count_estimating, found_node, is_above, job_target,
    recalled, signed_limit, size_delta, with_completed, with_counts, with_resized, BatchModel,
    HitModel, ScanModel,
};
use crate::scan::cache::{remembered, CacheKey, CachedModel};
use crate::clock::Timestamp;
use vstd::prelude::*;

verus! {

/// Whether a node lies on the way from another node up to the root.
pub open spec fn is_on_the_way(nodes: Seq<NodeModel>, place: int, index: int) -> bool {
    place == index || is_above(nodes, place, index)
}

/// The sizes of nodes, added up.
pub open spec fn sum_of_sizes(nodes: Seq<NodeModel>, places: Seq<TreeIndex>) -> int
    decreases places.len(),
{
    if places.len() == 0 {
        0
    } else {
        sum_of_sizes(nodes, places.drop_last()) + nodes[places.last() as int].size
    }
}

/// What a directory takes beside its children.
pub open spec fn own_share(nodes: Seq<NodeModel>, index: int) -> int {
    nodes[index].size - sum_of_sizes(nodes, nodes[index].children)
}

/// The difference of two sizes is exact as long as a signed number of 128 bits
/// can hold both.
pub proof fn law_size_differences_are_exact(old_size: u128, new_size: u128)
    requires
        old_size < signed_limit(),
        new_size < signed_limit(),
    ensures
        size_delta(old_size, new_size) == new_size - old_size,
{
}

pub proof fn lemma_same_parents_same_above(
    a: Seq<NodeModel>,
    b: Seq<NodeModel>,
    above: int,
    index: int,
)
    requires
        a.len() <= b.len(),
        forall|i: int| #![trigger a[i]] #![trigger b[i]] 0 <= i < a.len() ==> a[i].parent == b[i].parent,
        0 <= index < a.len(),
    ensures
        is_above(a, above, index) == is_above(b, above, index),
    decreases index,
{
    match a[index].parent {
        Some(parent) => {
            if parent < index {
                lemma_same_parents_same_above(a, b, above, parent as int);
            }
        },
        None => {},
    }
}

proof fn lemma_above_above(nodes: Seq<NodeModel>, top: int, middle: int, index: int)
    requires
        is_above(nodes, top, middle),
        is_above(nodes, middle, index),
    ensures
        is_above(nodes, top, index),
    decreases index,
{
    let parent = nodes[index].parent->0 as int;
    if parent != middle {
        lemma_above_above(nodes, top, middle, parent);
    }
}

/// Two children of one node do not both lie on the way to the root.
proof fn lemma_one_child_on_the_way(m: ScanModel, one: int, two: int, index: int)
    requires
        m.is_tree(),
        0 <= index < m.nodes.len(),
        0 <= one < m.nodes.len(),
        0 <= two < m.nodes.len(),
        m.nodes[one].parent is Some,
        m.nodes[one].parent == m.nodes[two].parent,
        is_on_the_way(m.nodes, one, index),
        is_on_the_way(m.nodes, two, index),
    ensures
        one == two,
    decreases index,
{
    let parent = m.nodes[one].parent->0 as int;
    lemma_above_is_smaller(m.nodes, one, parent);
    lemma_above_is_smaller(m.nodes, two, parent);
    if one != index && two != index {
        let up = m.nodes[index].parent->0 as int;
        lemma_one_child_on_the_way(m, one, two, up);
    }
}

/// Below a node that lies above another, one child leads to it.
pub proof fn lemma_some_child_on_the_way(m: ScanModel, top: int, index: int) -> (k: int)
    requires
        m.is_tree(),
        m.is_linked(),
        0 <= index < m.nodes.len(),
        is_above(m.nodes, top, index),
    ensures
        0 <= top < m.nodes.len(),
        0 <= k < m.nodes[top].children.len(),
        is_on_the_way(m.nodes, m.nodes[top].children[k] as int, index),
    decreases index,
{
    lemma_above_is_smaller(m.nodes, top, index);
    let parent = m.nodes[index].parent->0 as int;
    if parent == top {
        assert(m.nodes[parent].children.contains(index as usize));
        choose|k: int|
            0 <= k < m.nodes[top].children.len() && m.nodes[top].children[k] == index as usize
    } else {
        let k = lemma_some_child_on_the_way(m, top, parent);
        let child = m.nodes[top].children[k] as int;
        assert(is_above(m.nodes, parent, index));
        if child != parent {
            lemma_above_above(m.nodes, child, parent, index);
        }
        k
    }
}

proof fn lemma_sum_after_change(
    a: Seq<NodeModel>,
    b: Seq<NodeModel>,
    places: Seq<TreeIndex>,
    changed: int,
    delta: int,
)
    requires
        forall|k: int|
            0 <= k < places.len() ==> #[trigger] places[k] < a.len() && b[places[k] as int].size
                == a[places[k] as int].size + if k == changed {
                delta
            } else {
                0
            },
    ensures
        sum_of_sizes(b, places) == sum_of_sizes(a, places) + if 0 <= changed < places.len() {
            delta
        } else {
            0
        },
    decreases places.len(),
{
    if places.len() > 0 {
        let rest = places.drop_last();
        assert forall|k: int| 0 <= k < rest.len() implies #[trigger] rest[k] < a.len()
            && b[rest[k] as int].size == a[rest[k] as int].size + if k == changed {
            delta
        } else {
            0
        } by {
            assert(rest[k] == places[k]);
        }
        lemma_sum_after_change(a, b, rest, changed, delta);
        assert(places[places.len() - 1] == places.last());
    }
}

/// When the size of a node changes, every directory above it changes with it,
/// so that what each directory takes beside its children stays the same; only
/// the node itself may differ. This holds as long as the numbers can hold the
/// sizes.
pub proof fn law_a_size_change_reaches_every_directory_above(
    m: ScanModel,
    index: int,
    node: NodeModel,
    directory: int,
)
    requires
        m.is_tree(),
        m.is_linked(),
        0 <= index < m.nodes.len(),
        0 <= directory < m.nodes.len(),
        directory != index,
        node.parent == m.nodes[index].parent,
        node.children == m.nodes[index].children,
        node.size < signed_limit(),
        m.nodes[index].size < signed_limit(),
        forall|k: int|
            #[trigger] is_above(m.nodes, k, index) ==> 0 <= m.nodes[k].size + node.size
                - m.nodes[index].size <= u128::MAX,
    ensures
        own_share(with_resized(m.nodes, index, node), directory) == own_share(
            m.nodes,
            directory,
        ),
{
    let after = with_resized(m.nodes, index, node);
    let updated = m.nodes.update(index, node);
    let delta = node.size - m.nodes[index].size;
    law_size_differences_are_exact(m.nodes[index].size, node.size);
    lemma_resized(m.nodes, index, node);
    lemma_above_is_smaller(m.nodes, index, index);
    assert forall|k: int| 0 <= k < m.nodes.len() implies #[trigger] after[k].size
        == m.nodes[k].size + if is_on_the_way(m.nodes, k, index) {
        delta
    } else {
        0
    } by {
        lemma_same_parents_same_above(m.nodes, updated, k, index);
    }
    let children = m.nodes[directory].children;
    assert(after[directory].children == children);
    if is_above(m.nodes, directory, index) {
        let changed = lemma_some_child_on_the_way(m, directory, index);
        assert forall|k: int| 0 <= k < children.len() implies #[trigger] children[k]
            < m.nodes.len() && after[children[k] as int].size == m.nodes[children[k] as int].size
            + if k == changed {
            delta
        } else {
            0
        } by {
            assert(m.nodes[directory].children[k] < m.nodes.len());
            assert(m.nodes[directory].children[changed] < m.nodes.len());
            if is_on_the_way(m.nodes, children[k] as int, index) {
                lemma_one_child_on_the_way(
                    m,
                    children[k] as int,
                    children[changed] as int,
                    index,
                );
                if k < changed {
                    assert(m.nodes[directory].children[k] < m.nodes[directory].children[changed]);
                }
                if changed < k {
                    assert(m.nodes[directory].children[changed] < m.nodes[directory].children[k]);
                }
            }
        }
        lemma_sum_after_change(m.nodes, after, children, changed, delta);
    } else {
        assert forall|k: int| 0 <= k < children.len() implies #[trigger] children[k]
            < m.nodes.len() && after[children[k] as int].size == m.nodes[children[k] as int].size
            + if k == -1 {
            delta
        } else {
            0
        } by {
            let child = m.nodes[directory].children[k] as int;
            assert(m.nodes[child].parent == Some(directory as usize));
            assert(m.nodes[child].parent->0 < child) by {
                assert(child != 0);
            }
            assert(is_above(m.nodes, directory, child));
            if is_on_the_way(m.nodes, child, index) {
                if child != index {
                    lemma_above_above(m.nodes, directory, child, index);
                }
            }
        }
        lemma_sum_after_change(m.nodes, after, children, -1, delta);
    }
}

/// A finished scan marks exactly those directories as complete that were so
/// before, or that are listed, not being summarized, and have only complete
/// children.
pub proof fn law_completed_directories_have_completed_children(m: ScanModel, index: int)
    requires
        m.is_tree(),
        0 <= index < m.nodes.len(),
    ensures
        ({
            let nodes = with_completed(m.nodes, m.nodes.len());
            let node = m.nodes[index];
            nodes[index].summarized <==> node.summarized || (node.is_dir && node.scanned
                && !node.summarizing && forall|k: int|
                0 <= k < node.children.len() ==> nodes[#[trigger] node.children[k] as int].summarized)
        }),
{
    lemma_completed_from(m, m.nodes, m.nodes.len(), index);
}

proof fn lemma_completed_from(m: ScanModel, nodes: Seq<NodeModel>, count: nat, index: int)
    requires
        m.is_tree(),
        0 <= index < m.nodes.len(),
        count <= m.nodes.len(),
        nodes.len() == m.nodes.len(),
        forall|i: int|
            #![trigger nodes[i]]
            0 <= i < nodes.len() ==> nodes[i] == (NodeModel {
                summarized: nodes[i].summarized,
                ..m.nodes[i]
            }),
        forall|i: int| 0 <= i < count ==> #[trigger] nodes[i] == m.nodes[i],
        forall|i: int|
            #![trigger nodes[i]]
            count <= i < nodes.len() ==> (nodes[i].summarized <==> m.nodes[i].summarized || (
            m.nodes[i].is_dir && m.nodes[i].scanned && !m.nodes[i].summarizing && forall|k: int|
                0 <= k < m.nodes[i].children.len()
                    ==> nodes[#[trigger] m.nodes[i].children[k] as int].summarized)),
    ensures
        ({
            let done = with_completed(nodes, count);
            let node = m.nodes[index];
            done[index].summarized <==> node.summarized || (node.is_dir && node.scanned
                && !node.summarizing && forall|k: int|
                0 <= k < node.children.len() ==> done[#[trigger] node.children[k] as int].summarized)
        }),
    decreases count,
{
    if count > 0 {
        let last = count - 1;
        let next = if completes(nodes, last) {
            nodes.update(last, NodeModel { summarized: true, ..nodes[last] })
        } else {
            nodes
        };
        assert(nodes[last] == m.nodes[last]);
        assert forall|i: int, k: int|
            0 <= i < m.nodes.len() && 0 <= k < m.nodes[i].children.len() implies i
            < #[trigger] m.nodes[i].children[k] < m.nodes.len() by {
            let child = m.nodes[i].children[k] as int;
            assert(m.nodes[child].parent == Some(i as usize));
            assert(child != 0);
        }
        assert forall|i: int|
            #![trigger next[i]]
            last <= i < next.len() implies (next[i].summarized <==> m.nodes[i].summarized || (
        m.nodes[i].is_dir && m.nodes[i].scanned && !m.nodes[i].summarizing && forall|k: int|
            0 <= k < m.nodes[i].children.len()
                ==> next[#[trigger] m.nodes[i].children[k] as int].summarized)) by {
            assert(nodes[i].summarized == nodes[i].summarized);
            assert forall|k: int| 0 <= k < m.nodes[i].children.len() implies next[
                #[trigger] m.nodes[i].children[k] as int].summarized == nodes[
                m.nodes[i].children[k] as int].summarized by {
                assert(m.nodes[i].children[k] > i);
            }
        }
        lemma_completed_from(m, next, last as nat, index);
    }
}

/// The size that a found entry counts with: what is remembered of it, or its own.
pub open spec fn counted_size(
    entry: ScannedModel,
    probe: Option<MetadataFingerprint>,
    options: ScanOptions,
    cache: Map<CacheKey, CachedModel>,
) -> u128 {
    if entry.is_dir && remembered(cache, entry.path, options, probe) is Some {
        remembered(cache, entry.path, options, probe)->0.summary.size
    } else {
        entry.size
    }
}

/// The sizes that found entries count with, added up.
pub open spec fn counted_sizes(
    entries: Seq<ScannedModel>,
    probes: Seq<Option<MetadataFingerprint>>,
    options: ScanOptions,
    cache: Map<CacheKey, CachedModel>,
) -> int
    decreases entries.len(),
{
    if entries.len() == 0 {
        0
    } else {
        let last = entries.len() - 1;
        counted_sizes(entries.drop_last(), probes, options, cache) + counted_size(
            entries[last],
            if last < probes.len() {
                probes[last]
            } else {
                None
            },
            options,
            cache,
        )
    }
}

/// Taking over a summary with the size that a node has already changes no size.
proof fn lemma_same_size_moves_nothing(nodes: Seq<NodeModel>, index: int, node: NodeModel)
    requires
        0 <= index < nodes.len(),
        node.size == nodes[index].size,
    ensures
        with_resized(nodes, index, node).len() == nodes.len(),
        forall|k: int|
            #![trigger with_resized(nodes, index, node)[k]]
            0 <= k < nodes.len() ==> with_resized(nodes, index, node)[k].size == nodes[k].size,
{
    assert(size_delta(node.size, node.size) == 0);
}

/// A summary that is enqueued with what is remembered of its node changes no size
/// where the node has that size already.
proof fn lemma_enqueue_sizes(m: ScanModel, job: ScanJob, hit: Option<HitModel>)
    requires
        job is Summary,
        m.has(job_target(job)),
        hit is Some ==> hit->0.summary.size == m.nodes[job_target(job) as int].size,
    ensures
        ({
            let n = m.enqueue(job, JobPriority::Background, hit);
            &&& n.nodes.len() == m.nodes.len()
            &&& forall|k: int|
                #![trigger n.nodes[k]]
                0 <= k < m.nodes.len() ==> n.nodes[k].size == m.nodes[k].size
        }),
{
    if let ScanJob::Summary(index, options) = job {
        let at = index as int;
        let unmarked = m.with_node(index, NodeModel { summary_queued: false, ..m.nodes[at] });
        if let Some(known) = hit {
            let node = unmarked.nodes[at];
            let changed = NodeModel {
                summarized: node.summarized || known.fresh,
                summary_queued: node.summary_queued && !known.fresh,
                summarizing: node.summarizing && !known.fresh,
                ..with_counts(node, known.summary)
            };
            lemma_same_size_moves_nothing(unmarked.nodes, at, changed);
        }
    }
}

pub proof fn lemma_with_children_sizes(
    b: BatchModel,
    parent: TreeIndex,
    entries: Seq<ScannedModel>,
    probes: Seq<Option<MetadataFingerprint>>,
    options: ScanOptions,
    cache: Map<CacheKey, CachedModel>,
    now: Timestamp,
)
    requires
        b.scan.nodes.len() + entries.len() <= usize::MAX,
        b.size + counted_sizes(entries, probes, options, cache) <= u128::MAX,
    ensures
        ({
            let r = b.with_children(parent, entries, probes, options, cache, now);
            let base = b.scan.nodes.len() as int;
            &&& counted_sizes(entries, probes, options, cache) >= 0
            &&& r.scan.nodes.len() == base + entries.len()
            &&& r.size == b.size + counted_sizes(entries, probes, options, cache)
            &&& forall|k: int|
                #![trigger r.scan.nodes[k]]
                0 <= k < base ==> r.scan.nodes[k].size == b.scan.nodes[k].size && (
                r.scan.nodes[k].summarized == b.scan.nodes[k].summarized)
            &&& sum_of_sizes(r.scan.nodes, numbers(base, entries.len() as int)) == counted_sizes(
                entries,
                probes,
                options,
                cache,
            )
        }),
    decreases entries.len(),
{
    let base = b.scan.nodes.len() as int;
    if entries.len() > 0 {
        let last = entries.len() - 1;
        let shorter = entries.drop_last();
        let probe = if last < probes.len() {
            probes[last]
        } else {
            None
        };
        lemma_with_children_sizes(b, parent, shorter, probes, options, cache, now);
        let before = b.with_children(parent, shorter, probes, options, cache, now);
        let r = b.with_children(parent, entries, probes, options, cache, now);
        assert(r == before.with_child(parent, entries[last], probe, options, cache, now));
        let hit = if entries[last].is_dir {
            recalled(remembered(cache, entries[last].path, options, probe), now)
        } else {
            None
        };
        let node = found_node(parent, entries[last], hit);
        let grown = ScanModel { nodes: before.scan.nodes.push(node), ..before.scan };
        let index = before.scan.nodes.len() as usize;
        lemma_enqueue_sizes(grown, ScanJob::Summary(index, options), hit);
        lemma_enqueue_summarized(grown, ScanJob::Summary(index, options), hit);
        assert forall|k: int|
            #![trigger r.scan.nodes[k]]
            0 <= k < base implies r.scan.nodes[k].size == b.scan.nodes[k].size
            && r.scan.nodes[k].summarized == b.scan.nodes[k].summarized by {
            assert(grown.nodes[k] == before.scan.nodes[k]);
        }
        let all = numbers(base, entries.len() as int);
        let earlier = numbers(base, last as int);
        assert(all.drop_last() =~= earlier);
        assert(all.last() == index);
        assert forall|k: int| 0 <= k < earlier.len() implies #[trigger] earlier[k]
            < before.scan.nodes.len() && r.scan.nodes[earlier[k] as int].size
            == before.scan.nodes[earlier[k] as int].size + if k == -1 {
            0int
        } else {
            0
        } by {
            assert(grown.nodes[earlier[k] as int] == before.scan.nodes[earlier[k] as int]);
        }
        lemma_sum_after_change(before.scan.nodes, r.scan.nodes, earlier, -1, 0);
        assert(r.scan.nodes[index as int].size == node.size);
    }
}

proof fn lemma_enqueue_summarized(m: ScanModel, job: ScanJob, hit: Option<HitModel>)
    requires
        job is Summary,
        m.has(job_target(job)),
    ensures
        ({
            let n = m.enqueue(job, JobPriority::Background, hit);
            forall|k: int|
                #![trigger n.nodes[k]]
                0 <= k < m.nodes.len() && k != job_target(job) ==> n.nodes[k].summarized
                    == m.nodes[k].summarized
        }),
{
    if let ScanJob::Summary(index, options) = job {
        let at = index as int;
        let unmarked = m.with_node(index, NodeModel { summary_queued: false, ..m.nodes[at] });
        if let Some(known) = hit {
            let node = unmarked.nodes[at];
            let changed = NodeModel {
                summarized: node.summarized || known.fresh,
                summary_queued: node.summary_queued && !known.fresh,
                summarizing: node.summarizing && !known.fresh,
                ..with_counts(node, known.summary)
            };
            lemma_resized(unmarked.nodes, at, changed);
        }
    }
}

/// The numbers from one on.
pub open spec fn numbers(first: int, count: int) -> Seq<TreeIndex> {
    Seq::new(count as nat, |i: int| (first + i) as usize)
}

proof fn lemma_sum_concat(nodes: Seq<NodeModel>, a: Seq<TreeIndex>, b: Seq<TreeIndex>)
    ensures
        sum_of_sizes(nodes, a + b) == sum_of_sizes(nodes, a) + sum_of_sizes(nodes, b),
    decreases b.len(),
{
    if b.len() == 0 {
        assert(a + b =~= a);
    } else {
        assert((a + b).drop_last() =~= a + b.drop_last());
        lemma_sum_concat(nodes, a, b.drop_last());
    }
}

/// A batch of children adds what it brings and nothing else. A directory whose
/// size is not known from a summary is as large as its children once the first
/// of them are found, and what it takes beside them stays the same from then on;
/// what every other directory takes beside its children stays the same too. This
/// holds as long as the numbers can hold the sizes.
pub proof fn law_a_batch_adds_what_it_brings(
    m: ScanModel,
    parent: TreeIndex,
    children: Seq<ScannedModel>,
    child_probes: Seq<Option<MetadataFingerprint>>,
    options: ScanOptions,
    stats: StatsModel,
    done: bool,
    probes: Map<TreeIndex, MetadataFingerprint>,
    cache: Map<CacheKey, CachedModel>,
    now: Timestamp,
    directory: int,
)
    requires
        m.wf(),
        m.has(parent),
        !m.nodes[parent as int].summarized,
        m.nodes.len() + children.len() <= usize::MAX,
        0 <= directory < m.nodes.len(),
        m.nodes[parent as int].size < signed_limit(),
        ({
            let size = m.nodes[parent as int].size;
            let brought = counted_sizes(children, child_probes, options, cache);
            let next = if m.nodes[parent as int].children.len() == 0 {
                brought
            } else {
                size + brought
            };
            &&& next < signed_limit()
            &&& forall|k: int|
                #[trigger] is_above(m.nodes, k, parent as int) ==> 0 <= m.nodes[k].size + next
                    - size <= u128::MAX
        }),
    ensures
        ({
            let n = m.integrate_children(
                parent,
                children,
                child_probes,
                options,
                stats,
                done,
                probes,
                cache,
                now,
            ).0;
            own_share(n.nodes, directory) == if directory == parent
                && m.nodes[parent as int].children.len() == 0 {
                0
            } else {
                own_share(m.nodes, directory)
            }
        }),
{
    let at = parent as int;
    let base = m.nodes.len() as int;
    let count = children.len() as int;
    let first = BatchModel {
        scan: m,
        probes,
        background: count_estimating(m.nodes, m.nodes[at].children),
        size: 0,
    };
    let batch = first.with_children(parent, children, child_probes, options, cache, now);
    lemma_counted_sizes_not_negative(children, child_probes, options, cache);
    lemma_with_children_sizes(first, parent, children, child_probes, options, cache, now);
    lemma_with_children_keeps(first, parent, children, child_probes, options, cache, now);
    lemma_batch_shares(m, batch.scan, parent, count, batch.size, done, directory);
}

/// A directory after children have been linked to it, before its size changes.
spec fn linked_node(node: NodeModel, first: int, count: int, done: bool) -> NodeModel {
    NodeModel {
        children: node.children + numbers(first, count),
        scanned: done,
        scanning: !done,
        ..node
    }
}

/// A directory after the children that were linked to it have been counted.
spec fn grown_node(node: NodeModel, linked: NodeModel, count: int, size: u128) -> NodeModel {
    NodeModel {
        size: if node.children.len() == 0 {
            size
        } else {
            capped_size(node.size, size)
        },
        entry_count: Some(
            capped_sum(
                match node.entry_count {
                    Some(known) => known,
                    None => 0,
                },
                count,
            ),
        ),
        ..linked
    }
}

/// First the links of a directory change, then its size.
proof fn lemma_batch_in_two_steps(
    b: ScanModel,
    parent: TreeIndex,
    first: int,
    count: int,
    size: u128,
    done: bool,
)
    requires
        b.has(parent),
        !b.nodes[parent as int].summarized,
    ensures
        ({
            let at = parent as int;
            let linked = linked_node(b.nodes[at], first, count, done);
            b.with_batch(parent, first, count, size, done) == with_resized(
                b.nodes.update(at, linked),
                at,
                grown_node(b.nodes[at], linked, count, size),
            )
        }),
{
    let at = parent as int;
    let node = b.nodes[at];
    let linked = linked_node(node, first, count, done);
    let grown = grown_node(node, linked, count, size);
    assert(b.nodes.update(at, linked).update(at, grown) =~= b.nodes.update(at, grown));
    assert(numbers(first, count) =~= Seq::new(count as nat, |i: int| (first + i) as usize));
}

/// What directories take beside their children, before and after a batch.
proof fn lemma_batch_shares(
    m: ScanModel,
    b: ScanModel,
    parent: TreeIndex,
    count: int,
    size: u128,
    done: bool,
    directory: int,
)
    requires
        m.is_tree(),
        m.is_linked(),
        m.has(parent),
        b.is_sound(),
        continues(m.nodes, b.nodes, parent),
        count >= 0,
        b.nodes.len() == m.nodes.len() + count,
        !m.nodes[parent as int].summarized,
        0 <= directory < m.nodes.len(),
        forall|k: int|
            #![trigger b.nodes[k]]
            0 <= k < m.nodes.len() ==> b.nodes[k].size == m.nodes[k].size && b.nodes[k].summarized
                == m.nodes[k].summarized,
        sum_of_sizes(b.nodes, numbers(m.nodes.len() as int, count)) == size,
        m.nodes[parent as int].size < signed_limit(),
        ({
            let old_size = m.nodes[parent as int].size;
            let next = if m.nodes[parent as int].children.len() == 0 {
                size as int
            } else {
                old_size + size
            };
            &&& next < signed_limit()
            &&& forall|k: int|
                #[trigger] is_above(m.nodes, k, parent as int) ==> 0 <= m.nodes[k].size + next
                    - old_size <= u128::MAX
        }),
    ensures
        own_share(
            b.with_batch(parent, m.nodes.len() as int, count, size, done),
            directory,
        ) == if directory == parent && m.nodes[parent as int].children.len() == 0 {
            0
        } else {
            own_share(m.nodes, directory)
        },
{
    let at = parent as int;
    let base = m.nodes.len() as int;
    let node = b.nodes[at];
    let link = linked_node(node, base, count, done);
    let grown = grown_node(node, link, count, size);
    let linked = ScanModel { nodes: b.nodes.update(at, link), ..b };
    assert(node.children == m.nodes[at].children);
    assert(node.size == m.nodes[at].size && !node.summarized);
    lemma_batch_in_two_steps(b, parent, base, count, size, done);
    lemma_linked(m, b, linked, parent, count);
    let after = with_resized(linked.nodes, at, grown);
    if directory != at {
        assert forall|k: int| #[trigger] is_above(linked.nodes, k, at) implies 0
            <= linked.nodes[k].size + grown.size - linked.nodes[at].size <= u128::MAX by {
            lemma_above_is_smaller(linked.nodes, k, at);
            lemma_same_parents_below(m.nodes, linked.nodes, k, at);
            assert(b.nodes[k].size == m.nodes[k].size);
        }
        law_a_size_change_reaches_every_directory_above(linked, at, grown, directory);
        lemma_share_stays(m, b, linked.nodes, directory);
    } else {
        lemma_share_of_parent(m, b, linked, parent, count, size, grown);
    }
}

/// Where no size changes, the share of a directory stays.
proof fn lemma_share_stays(m: ScanModel, b: ScanModel, linked: Seq<NodeModel>, directory: int)
    requires
        m.is_tree(),
        0 <= directory < m.nodes.len(),
        m.nodes.len() <= b.nodes.len(),
        linked.len() == b.nodes.len(),
        linked[directory].children == m.nodes[directory].children,
        forall|k: int|
            #![trigger b.nodes[k]]
            0 <= k < m.nodes.len() ==> b.nodes[k].size == m.nodes[k].size,
        forall|k: int|
            #![trigger linked[k]]
            0 <= k < b.nodes.len() ==> linked[k].size == b.nodes[k].size,
    ensures
        own_share(linked, directory) == own_share(m.nodes, directory),
{
    let kept = m.nodes[directory].children;
    assert forall|k: int| 0 <= k < kept.len() implies #[trigger] kept[k] < m.nodes.len()
        && linked[kept[k] as int].size == m.nodes[kept[k] as int].size + if k == -1 {
        0int
    } else {
        0
    } by {
        assert(m.nodes[directory].children[k] < m.nodes.len());
        assert(b.nodes[kept[k] as int].size == m.nodes[kept[k] as int].size);
    }
    lemma_sum_after_change(m.nodes, linked, kept, -1, 0);
    assert(linked[directory].size == b.nodes[directory].size);
}

/// The share of the directory that a batch belongs to.
proof fn lemma_share_of_parent(
    m: ScanModel,
    b: ScanModel,
    linked: ScanModel,
    parent: TreeIndex,
    count: int,
    size: u128,
    grown: NodeModel,
)
    requires
        m.is_tree(),
        m.has(parent),
        linked.is_tree(),
        count >= 0,
        b.nodes.len() == m.nodes.len() + count,
        linked.nodes.len() == b.nodes.len(),
        linked.nodes[parent as int].children == m.nodes[parent as int].children + numbers(
            m.nodes.len() as int,
            count,
        ),
        grown.parent == linked.nodes[parent as int].parent,
        grown.children == linked.nodes[parent as int].children,
        grown.size == if m.nodes[parent as int].children.len() == 0 {
            size as int
        } else {
            m.nodes[parent as int].size + size
        },
        forall|k: int|
            #![trigger linked.nodes[k]]
            0 <= k < b.nodes.len() ==> linked.nodes[k].size == b.nodes[k].size,
        forall|k: int|
            #![trigger b.nodes[k]]
            0 <= k < m.nodes.len() ==> b.nodes[k].size == m.nodes[k].size,
        sum_of_sizes(b.nodes, numbers(m.nodes.len() as int, count)) == size,
    ensures
        own_share(with_resized(linked.nodes, parent as int, grown), parent as int)
            == if m.nodes[parent as int].children.len() == 0 {
            0
        } else {
            own_share(m.nodes, parent as int)
        },
{
    let at = parent as int;
    let after = with_resized(linked.nodes, at, grown);
    let kept = m.nodes[at].children;
    let added = numbers(m.nodes.len() as int, count);
    let links = linked.nodes[at].children;
    lemma_resized(linked.nodes, at, grown);
    // No child lies above its parent, so none of them changes.
    assert forall|k: int| 0 <= k < links.len() implies #[trigger] links[k] < b.nodes.len()
        && after[links[k] as int].size == b.nodes[links[k] as int].size + if k == -1 {
        0int
    } else {
        0
    } by {
        let child = linked.nodes[at].children[k] as int;
        assert(linked.nodes[child].parent == Some(at as usize));
        assert(child > at) by {
            assert(child != 0);
        }
        lemma_above_is_smaller(linked.nodes.update(at, grown), child, at);
        assert(linked.nodes[child].size == b.nodes[child].size);
    }
    lemma_sum_after_change(b.nodes, after, links, -1, 0);
    lemma_sum_concat(b.nodes, kept, added);
    assert forall|k: int| 0 <= k < kept.len() implies #[trigger] kept[k] < m.nodes.len()
        && b.nodes[kept[k] as int].size == m.nodes[kept[k] as int].size + if k == -1 {
        0int
    } else {
        0
    } by {
        assert(m.nodes[at].children[k] < m.nodes.len());
    }
    lemma_sum_after_change(m.nodes, b.nodes, kept, -1, 0);
    if kept.len() == 0 {
        assert(sum_of_sizes(b.nodes, kept) == 0);
    }
}

proof fn lemma_counted_sizes_not_negative(
    entries: Seq<ScannedModel>,
    probes: Seq<Option<MetadataFingerprint>>,
    options: ScanOptions,
    cache: Map<CacheKey, CachedModel>,
)
    ensures
        counted_sizes(entries, probes, options, cache) >= 0,
    decreases entries.len(),
{
    if entries.len() > 0 {
        lemma_counted_sizes_not_negative(entries.drop_last(), probes, options, cache);
    }
}

/// Above a node that both lists hold, the same nodes lie.
proof fn lemma_same_parents_below(a: Seq<NodeModel>, b: Seq<NodeModel>, above: int, index: int)
    requires
        a.len() <= b.len(),
        forall|i: int| #![trigger b[i]] 0 <= i < a.len() ==> a[i].parent == b[i].parent,
        0 <= index < a.len(),
    ensures
        is_above(a, above, index) == is_above(b, above, index),
    decreases index,
{
    assert(a[index].parent == b[index].parent);
    match a[index].parent {
        Some(parent) => {
            if parent < index {
                lemma_same_parents_below(a, b, above, parent as int);
            }
        },
        None => {},
    }
}

/// Once its children are linked to a node, the nodes form a tree again.
proof fn lemma_linked(m: ScanModel, b: ScanModel, n: ScanModel, parent: TreeIndex, count: int)
    requires
        m.is_tree(),
        m.is_linked(),
        m.has(parent),
        b.is_sound(),
        continues(m.nodes, b.nodes, parent),
        count >= 0,
        b.nodes.len() == m.nodes.len() + count,
        n.nodes.len() == b.nodes.len(),
        n.nodes[parent as int].parent == b.nodes[parent as int].parent,
        n.nodes[parent as int].children == b.nodes[parent as int].children + Seq::new(
            count as nat,
            |i: int| (m.nodes.len() + i) as usize,
        ),
        forall|i: int|
            #![trigger n.nodes[i]]
            0 <= i < n.nodes.len() && i != parent ==> n.nodes[i] == b.nodes[i],
    ensures
        n.is_tree(),
        n.is_linked(),
{
    let done = n.nodes[parent as int].scanned;
    let whole = ScanModel {
        nodes: b.with_batch(parent, m.nodes.len() as int, count, 0, done),
        queued: b.queued,
        background: b.background,
        ..b
    };
    lemma_with_batch_keeps(m, b, whole, parent, count, 0, done);
    assert forall|i: int|
        #![trigger whole.nodes[i]]
        #![trigger n.nodes[i]]
        0 <= i < n.nodes.len() implies whole.nodes[i].parent == n.nodes[i].parent
        && whole.nodes[i].children == n.nodes[i].children by {}
    lemma_same_tree(whole, n);
}

} // verus!

//! Which jobs start, in which order, and which wait.
use crate::clock::Timestamp;
use crate::order::{law_sorted_is_a_sorted_rearrangement, sorted, Ranked};
use crate::scan::cache::{remembered, CacheKey, CachedModel};
use crate::scan::data::{
    MetadataFingerprint, NodeModel, ScanJob, ScanOptions, ScannedModel, TreeIndex,
    MAX_SCAN_JOBS,
};
use crate::scan::job_laws::{has_room_for_all, lemma_integrate_all_keeps};
use crate::scan::keeps::{
    lemma_ensure_scanned_keeps, lemma_pop_queued, lemma_remove_background_keeps, lemma_resized,
    lemma_some_job_push, lemma_start_interactive_keeps, lemma_start_job_keeps,
    lemma_with_completed,
};
use crate::scan::model::{
    found_node, job_target, lists_children_of, recalled, sized_children, some_job_lists,
    some_job_summarizes, summarizes, with_counts, BatchModel, DrainModel, ReportModel, ScanModel,
    SizedChild,
};
use crate::scan::request_laws::{
    law_asked_children_come_before_summaries, law_requests_take_nothing_back,
    lemma_warm_children_limits,
};
use crate::scan::size_laws::law_completed_directories_have_completed_children;
use vstd::prelude::*;

verus! {

/// When children are asked for that are not listed yet and will not be, their listing
/// starts at once if fewer than two jobs run, and else waits behind all others that
/// wait. Nothing is started or waits for a file.
pub proof fn law_asked_children_are_listed_in_turn(
    m: ScanModel,
    index: TreeIndex,
    options: ScanOptions,
)
    requires
        m.wf(),
        m.has(index),
    ensures
        ({
            let n = m.ensure_scanned(index, options);
            let job = ScanJob::Children(index, options);
            let wanted = m.nodes[index as int].is_dir && !m.is_known_or_pending(index);
            &&& wanted && m.stats.active_jobs < 2 ==> {
                &&& n.started == m.started.push(job)
                &&& n.queued == m.queued
                &&& n.stats.active_jobs == m.stats.active_jobs + 1
                &&& n.nodes[index as int].scanning
                &&& !n.finished
            }
            &&& wanted && m.stats.active_jobs >= 2 ==> {
                &&& n.started == m.started
                &&& n.queued == m.queued.push(job)
                &&& n.stats.active_jobs == m.stats.active_jobs
                &&& n.nodes[index as int].scanning == m.nodes[index as int].scanning
            }
            &&& !wanted ==> n.started == m.started && n.queued == m.queued && n.stats == m.stats
        }),
{
    let cleared = m.remove_background_summary(index);
    lemma_remove_background_keeps(m, index);
    if some_job_lists(cleared.background, index) {
        let i = choose|i: int|
            0 <= i < cleared.background.len() && lists_children_of(
                #[trigger] cleared.background[i],
                index,
            );
        assert(cleared.background[i] is Summary);
    }
}

/// One listing leaves the queue.
proof fn lemma_first_listing(m: ScanModel)
    requires
        m.wf(),
        m.stats.active_jobs < MAX_SCAN_JOBS,
        m.queued.len() > 0,
    ensures
        ({
            let job = m.queued[0];
            let target = job_target(job) as int;
            let next = ScanModel { queued: m.queued.skip(1), ..m }.start_job(job, None);
            let node = next.nodes[target];
            &&& m.start_interactive() == next.start_interactive()
            &&& next.wf()
            &&& next.queued == m.queued.skip(1)
            &&& next.background == m.background
            &&& next.nodes.len() == m.nodes.len()
            &&& lists_children_of(job, job_target(job)) && m.has(job_target(job))
            &&& node.scanning || node.scanned || !node.is_dir
            &&& node == m.nodes[target] || node == (NodeModel {
                scanning: true,
                ..m.nodes[target]
            })
            &&& forall|k: int|
                #![trigger next.nodes[k]]
                0 <= k < m.nodes.len() && k != target ==> next.nodes[k] == m.nodes[k]
            &&& (next.started == m.started && next.stats == m.stats) || (next.started
                == m.started.push(job) && next.stats.active_jobs == m.stats.active_jobs + 1)
        }),
{
    let job = m.queued[0];
    let popped = ScanModel { queued: m.queued.skip(1), ..m };
    assert(job is Children && m.has(job_target(job)));
    lemma_pop_queued(m);
    lemma_start_job_keeps(popped, job, None);
}

/// The jobs that somebody waits for start in turn while fewer than two run: none is
/// passed over, and none starts that did not wait.
pub proof fn law_waiting_listings_start_in_turn(m: ScanModel)
    requires
        m.wf(),
    ensures
        ({
            let n = m.start_interactive();
            let gone = m.queued.len() - n.queued.len();
            &&& 0 <= gone
            &&& n.queued == m.queued.skip(gone)
            &&& n.queued.len() == 0 || n.stats.active_jobs == 2
            &&& m.stats.active_jobs <= n.stats.active_jobs <= 2
            &&& n.started.len() - m.started.len() == n.stats.active_jobs - m.stats.active_jobs
            &&& forall|i: int| 0 <= i < m.started.len() ==> #[trigger] n.started[i] == m.started[i]
            &&& forall|i: int|
                m.started.len() <= i < n.started.len() ==> m.queued.take(gone).contains(
                    #[trigger] n.started[i],
                )
            &&& n.background == m.background
        }),
    decreases m.queued.len(),
{
    let n = m.start_interactive();
    if m.stats.active_jobs < MAX_SCAN_JOBS && m.queued.len() > 0 {
        let job = m.queued[0];
        let next = ScanModel { queued: m.queued.skip(1), ..m }.start_job(job, None);
        lemma_first_listing(m);
        law_waiting_listings_start_in_turn(next);
        let later = next.queued.len() - n.queued.len();
        assert(next.queued.skip(later) =~= m.queued.skip(later + 1));
        assert forall|i: int| 0 <= i < m.started.len() implies #[trigger] n.started[i]
            == m.started[i] by {
            assert(next.started[i] == m.started[i]);
            assert(n.started[i] == next.started[i]);
        }
        assert forall|i: int| m.started.len() <= i < n.started.len() implies m.queued.take(
            later + 1,
        ).contains(#[trigger] n.started[i]) by {
            if i < next.started.len() {
                assert(n.started[i] == next.started[i]);
                assert(n.started[i] == job);
                assert(m.queued.take(later + 1)[0] == job);
            } else {
                assert(next.queued.take(later).contains(n.started[i]));
                let k = choose|k: int|
                    0 <= k < later && next.queued.take(later)[k] == n.started[i];
                assert(m.queued.take(later + 1)[k + 1] == n.started[i]);
            }
        }
    } else {
        assert(m.queued.skip(0) =~= m.queued);
    }
}

/// The node of each job that leaves the queue is being listed, or needs no listing any
/// more; nothing changes for those that still wait, nor for any other node.
pub proof fn law_started_listings_are_under_way(m: ScanModel)
    requires
        m.wf(),
    ensures
        ({
            let n = m.start_interactive();
            let gone = m.queued.len() - n.queued.len();
            &&& 0 <= gone
            &&& n.nodes.len() == m.nodes.len()
            &&& forall|i: int|
                0 <= i < gone ==> {
                    let node = n.nodes[job_target(#[trigger] m.queued[i]) as int];
                    node.scanning || node.scanned || !node.is_dir
                }
            &&& forall|k: int|
                #![trigger n.nodes[k]]
                0 <= k < m.nodes.len() ==> n.nodes[k] == m.nodes[k] || (n.nodes[k] == (NodeModel {
                    scanning: true,
                    ..m.nodes[k]
                }) && some_job_lists(m.queued, k as usize))
        }),
    decreases m.queued.len(),
{
    let n = m.start_interactive();
    if m.stats.active_jobs < MAX_SCAN_JOBS && m.queued.len() > 0 {
        let job = m.queued[0];
        let target = job_target(job);
        let next = ScanModel { queued: m.queued.skip(1), ..m }.start_job(job, None);
        lemma_first_listing(m);
        law_started_listings_are_under_way(next);
        let later = next.queued.len() - n.queued.len();
        assert(n.nodes[target as int] == next.nodes[target as int] || n.nodes[target as int]
            == (NodeModel { scanning: true, ..next.nodes[target as int] }));
        assert forall|i: int| 0 <= i < later + 1 implies {
            let node = n.nodes[job_target(#[trigger] m.queued[i]) as int];
            node.scanning || node.scanned || !node.is_dir
        } by {
            if i > 0 {
                assert(next.queued[i - 1] == m.queued[i]);
            }
        }
        assert(lists_children_of(m.queued[0], target));
        assert(some_job_lists(m.queued, target));
        assert forall|k: int| #![trigger n.nodes[k]] 0 <= k < m.nodes.len() implies n.nodes[k]
            == m.nodes[k] || (n.nodes[k] == (NodeModel { scanning: true, ..m.nodes[k] })
            && some_job_lists(m.queued, k as usize)) by {
            if k != target && some_job_lists(next.queued, k as usize) {
                let i = choose|i: int|
                    0 <= i < next.queued.len() && lists_children_of(
                        #[trigger] next.queued[i],
                        k as usize,
                    );
                assert(m.queued[i + 1] == next.queued[i]);
            }
        }
    }
}

/// Background work starts only when nothing else runs, and then with the job that has
/// waited longest: it is being summed up then, unless it is already, or a summary of it
/// is remembered that is fresh. Otherwise all background work waits on.
pub proof fn law_background_work_starts_when_nothing_runs(
    m: ScanModel,
    probes: Map<TreeIndex, MetadataFingerprint>,
    cache: Map<CacheKey, CachedModel>,
    now: Timestamp,
)
    requires
        m.wf(),
    ensures
        ({
            let next = m.start_interactive();
            let n = m.start_waiting(probes, cache, now);
            &&& next.stats.active_jobs > 0 || m.background.len() == 0 ==> n == next
            &&& next.stats.active_jobs == 0 && m.background.len() > 0 ==> {
                let index = job_target(m.background[0]);
                &&& n.background == m.background.skip(1)
                &&& n.queued.len() == 0
                &&& !n.nodes[index as int].summary_queued
                &&& n.nodes[index as int].summarizing || n.nodes[index as int].summarized
                &&& n.stats.active_jobs <= 1
                &&& ({
                    let node = next.nodes[index as int];
                    let options = m.background[0]->Summary_1;
                    let known = if probes.contains_key(index) {
                        remembered(cache, node.path, options, Some(probes[index]))
                    } else {
                        None
                    };
                    let fresh = known is Some && 0 <= now.total() - known->0.cached_at.total()
                        <= 5_000_000_000;
                    &&& n.stats.active_jobs == 1 <==> !node.summarized && !node.summarizing
                        && !fresh
                    &&& !node.summarized && !node.summarizing && fresh
                        ==> n.nodes[index as int].summarized
                    &&& !node.summarized && !node.summarizing && known is Some
                        ==> n.nodes[index as int].size == known->0.summary.size
                        && n.nodes[index as int].entry_count == (if node.is_dir {
                        Some(known->0.summary.entry_count)
                    } else {
                        None
                    })
                    &&& node.summarized || node.summarizing || known is None
                        ==> n.nodes[index as int].size == node.size
                        && n.nodes[index as int].entry_count == node.entry_count
                })
                &&& n.stats.active_jobs == 1 ==> n.started == next.started.push(m.background[0])
                    && n.nodes[index as int].summarizing
                    && n.nodes[index as int].summary_entries_seen == 0 && !n.finished
                &&& n.stats.active_jobs == 0 ==> n.started == next.started
            }
        }),
{
    lemma_start_interactive_keeps(m);
    law_waiting_listings_start_in_turn(m);
    let next = m.start_interactive();
    if next.stats.active_jobs == 0 && m.background.len() > 0 {
        let job = next.background[0];
        assert(job is Summary && next.has(job_target(job)));
        let index = job_target(job);
        let popped = ScanModel { background: next.background.skip(1), ..next };
        let hit = next.recalled_for(job, probes, cache, now);
        let node = next.nodes[index as int];
        let unmarked = popped.with_node(index, NodeModel { summary_queued: false, ..node });
        if let Some(known) = hit {
            let changed = NodeModel {
                summarized: node.summarized || known.fresh,
                summary_queued: false,
                summarizing: node.summarizing && !known.fresh,
                ..with_counts(unmarked.nodes[index as int], known.summary)
            };
            lemma_resized(unmarked.nodes, index as int, changed);
        }
    }
}

/// A directory that is found is summed up in the background, at once where nothing runs
/// or waits, and else behind all other background work. That is so unless a summary of
/// it is remembered that is fresh, or twelve children of its directory are being summed
/// up already or wait for it. A file is never summed up.
pub proof fn law_found_directories_are_summed_up(
    b: BatchModel,
    parent: TreeIndex,
    entry: ScannedModel,
    probe: Option<MetadataFingerprint>,
    options: ScanOptions,
    cache: Map<CacheKey, CachedModel>,
    now: Timestamp,
)
    requires
        b.scan.is_sound(),
        b.scan.has(parent),
        b.scan.nodes.len() < usize::MAX,
    ensures
        ({
            let r = b.with_child(parent, entry, probe, options, cache, now);
            let index = b.scan.nodes.len() as usize;
            let known = remembered(cache, entry.path, options, probe);
            let job = ScanJob::Summary(index, options);
            let fresh = known is Some && 0 <= now.total() - known->0.cached_at.total()
                <= 5_000_000_000;
            let node = r.scan.nodes[index as int];
            let wanted = entry.is_dir && !fresh && b.background < 12;
            &&& wanted && b.scan.stats.active_jobs == 0 && b.scan.queued.len() == 0 ==> {
                &&& node.summarizing && !node.summary_queued
                &&& r.scan.started == b.scan.started.push(job)
                &&& r.scan.background == b.scan.background
                &&& r.scan.stats.active_jobs == 1
                &&& node.summary_entries_seen == 0
                &&& !r.scan.finished
            }
            &&& !(node.summarizing) ==> node.summary_entries_seen == if entry.is_dir && known
                is Some {
                known->0.summary.entries_seen
            } else {
                0
            }
            &&& wanted && (b.scan.stats.active_jobs > 0 || b.scan.queued.len() > 0) ==> {
                &&& node.summary_queued && !node.summarizing
                &&& r.scan.started == b.scan.started
                &&& r.scan.background == b.scan.background.push(job)
                &&& r.scan.stats.active_jobs == b.scan.stats.active_jobs
            }
            &&& !wanted ==> {
                &&& !node.summarizing && !node.summary_queued
                &&& r.scan.started == b.scan.started
                &&& r.scan.background == b.scan.background
                &&& r.scan.stats == b.scan.stats
            }
            &&& r.background == b.background + if wanted {
                1int
            } else {
                0
            }
            &&& entry.is_dir && probe is Some ==> r.probes == b.probes.insert(index, probe->0)
            &&& !entry.is_dir || probe is None ==> r.probes == b.probes
        }),
{
    let index = b.scan.nodes.len() as usize;
    let hit = if entry.is_dir {
        recalled(remembered(cache, entry.path, options, probe), now)
    } else {
        None
    };
    let node = found_node(parent, entry, hit);
    let grown = ScanModel { nodes: b.scan.nodes.push(node), ..b.scan };
    assert(!some_job_summarizes(grown.queued, index)) by {
        if some_job_summarizes(grown.queued, index) {
            let k = choose|k: int|
                0 <= k < grown.queued.len() && summarizes(#[trigger] grown.queued[k], index);
            assert(b.scan.queued[k] is Children);
        }
    }
    let unmarked = grown.with_node(
        index,
        NodeModel { summary_queued: false, ..grown.nodes[index as int] },
    );
    if let Some(known) = hit {
        let changed = NodeModel {
            summarized: node.summarized || known.fresh,
            summary_queued: false,
            summarizing: node.summarizing && !known.fresh,
            ..with_counts(unmarked.nodes[index as int], known.summary)
        };
        lemma_resized(unmarked.nodes, index as int, changed);
    }
}

/// Listing ahead of need stops only where there is no more room or nothing more to list:
/// either two jobs or more run or wait, or every directory among the children is listed
/// or will be.
pub proof fn law_listing_ahead_stops_for_want_of_room(
    m: ScanModel,
    children: Seq<TreeIndex>,
    options: ScanOptions,
    place: int,
)
    requires
        m.wf(),
        0 <= place < children.len(),
        m.has(children[place]),
        m.nodes[children[place] as int].is_dir,
    ensures
        m.prefetch(children, options).stats.active_jobs + m.prefetch(
            children,
            options,
        ).queued.len() >= 2 || m.prefetch(children, options).is_known_or_pending(children[place]),
    decreases children.len(),
{
    if m.pressing_jobs() < MAX_SCAN_JOBS {
        let next = m.ensure_scanned(children[0], options);
        lemma_ensure_scanned_keeps(m, children[0], options);
        if place == 0 {
            law_asked_children_come_before_summaries(m, children[0], options);
            lemma_prefetch_keeps_known(next, children.skip(1), options, children[0]);
        } else {
            law_requests_take_nothing_back(m, children[0], options, children[place]);
            assert(children.skip(1)[place - 1] == children[place]);
            law_listing_ahead_stops_for_want_of_room(
                next,
                children.skip(1),
                options,
                place - 1,
            );
        }
    }
}

proof fn lemma_prefetch_keeps_known(
    m: ScanModel,
    children: Seq<TreeIndex>,
    options: ScanOptions,
    index: TreeIndex,
)
    requires
        m.wf(),
        m.has(index),
        m.is_known_or_pending(index),
    ensures
        m.prefetch(children, options).is_known_or_pending(index),
    decreases children.len(),
{
    if children.len() > 0 && m.pressing_jobs() < MAX_SCAN_JOBS {
        lemma_ensure_scanned_keeps(m, children[0], options);
        law_requests_take_nothing_back(m, children[0], options, index);
        lemma_prefetch_keeps_known(
            m.ensure_scanned(children[0], options),
            children.skip(1),
            options,
            index,
        );
    }
}

/// Warming takes the children of a directory by their sizes: where one of them is listed
/// ahead of need, so is every larger directory among them that was not listed yet.
pub proof fn law_warming_takes_the_largest_first(
    m: ScanModel,
    parent: TreeIndex,
    options: ScanOptions,
    limit: int,
    large: TreeIndex,
    small: TreeIndex,
)
    requires
        m.wf(),
        m.has(parent),
        m.nodes[parent as int].children.contains(large),
        m.nodes[parent as int].children.contains(small),
        m.nodes[large as int].is_dir,
        m.nodes[large as int].size > m.nodes[small as int].size,
        !m.is_known_or_pending(small),
    ensures
        ({
            let n = m.warm_parent(parent, options, limit).0;
            n.is_known_or_pending(small) ==> n.is_known_or_pending(large)
        }),
{
    let children = m.nodes[parent as int].children;
    let sized = sized_children(m.nodes, children);
    let list = sorted(sized);
    law_sorted_is_a_sorted_rearrangement(sized);
    let a = lemma_sized_child(m, children, large);
    let b = lemma_sized_child(m, children, small);
    assert(list.contains(sized[a]) && list.contains(sized[b]));
    let p = choose|p: int| 0 <= p < list.len() && list[p] == sized[a];
    let q = choose|q: int| 0 <= q < list.len() && list[q] == sized[b];
    if q < p {
        assert(!list[p].before(list[q]));
    }
    assert forall|i: int| 0 <= i < p implies (#[trigger] list[i]).index != small by {
        assert(sized.contains(list[i]));
        let k = choose|k: int| 0 <= k < sized.len() && sized[k] == list[i];
        lemma_sized_sizes(m.nodes, children);
        assert(sized[k].size == m.nodes[sized[k].index as int].size);
        assert(!list[p].before(list[i]));
    }
    let k = choose|k: int| 0 <= k < children.len() && children[k] == large;
    assert(m.nodes[parent as int].children[k] < m.nodes.len());
    let j = choose|j: int| 0 <= j < children.len() && children[j] == small;
    assert(m.nodes[parent as int].children[j] < m.nodes.len());
    lemma_warm_reaches(m, list, options, limit, p, small);
}

proof fn lemma_sized_sizes(nodes: Seq<NodeModel>, children: Seq<TreeIndex>)
    ensures
        forall|k: int|
            0 <= k < sized_children(nodes, children).len() ==> (#[trigger] sized_children(
                nodes,
                children,
            )[k]).size == nodes[sized_children(nodes, children)[k].index as int].size,
    decreases children.len(),
{
    if children.len() > 0 {
        lemma_sized_sizes(nodes, children.drop_last());
    }
}

proof fn lemma_sized_child(m: ScanModel, children: Seq<TreeIndex>, child: TreeIndex) -> (k: int)
    requires
        children.contains(child),
        child < m.nodes.len(),
    ensures
        0 <= k < sized_children(m.nodes, children).len(),
        sized_children(m.nodes, children)[k] == (SizedChild {
            index: child,
            size: m.nodes[child as int].size,
        }),
    decreases children.len(),
{
    let all = sized_children(m.nodes, children);
    let i = choose|i: int| 0 <= i < children.len() && children[i] == child;
    if children.last() == child {
        all.len() - 1
    } else {
        assert(children.drop_last()[i] == child);
        lemma_sized_child(m, children.drop_last(), child)
    }
}

/// What is not known and stands behind another in the list is not listed before it.
proof fn lemma_warm_reaches(
    m: ScanModel,
    list: Seq<SizedChild>,
    options: ScanOptions,
    limit: int,
    place: int,
    small: TreeIndex,
)
    requires
        m.wf(),
        0 <= place < list.len(),
        m.has(list[place].index),
        m.nodes[list[place].index as int].is_dir,
        m.has(small),
        !m.is_known_or_pending(small),
        forall|i: int| 0 <= i < place ==> (#[trigger] list[i]).index != small,
        list[place].index != small,
    ensures
        ({
            let n = m.warm_children(list, options, limit).0;
            n.is_known_or_pending(small) ==> n.is_known_or_pending(list[place].index)
        }),
    decreases list.len(),
{
    if limit > 0 && m.pressing_jobs() < MAX_SCAN_JOBS {
        let first = list[0].index;
        if place == 0 {
            if m.is_known_or_pending(first) {
                lemma_warm_keeps_known(m, list.skip(1), options, limit, first);
            } else {
                let next = m.ensure_scanned(first, options);
                let added = if next.pressing_jobs() > m.pressing_jobs() {
                    1int
                } else {
                    0
                };
                lemma_ensure_scanned_keeps(m, first, options);
                law_asked_children_come_before_summaries(m, first, options);
                lemma_warm_keeps_known(next, list.skip(1), options, limit - added, first);
            }
        } else {
            assert(list.skip(1)[place - 1] == list[place]);
            assert forall|i: int| 0 <= i < place - 1 implies (#[trigger] list.skip(1)[i]).index
                != small by {
                assert(list.skip(1)[i] == list[i + 1]);
            }
            assert(list[0].index != small);
            if m.is_known_or_pending(first) {
                lemma_warm_reaches(m, list.skip(1), options, limit, place - 1, small);
            } else {
                let next = m.ensure_scanned(first, options);
                let added = if next.pressing_jobs() > m.pressing_jobs() {
                    1int
                } else {
                    0
                };
                lemma_ensure_scanned_keeps(m, first, options);
                law_requests_take_nothing_back(m, first, options, small);
                law_requests_take_nothing_back(m, first, options, list[place].index);
                lemma_request_lists_only(m, first, options, small);
                lemma_warm_reaches(
                    next,
                    list.skip(1),
                    options,
                    limit - added,
                    place - 1,
                    small,
                );
            }
        }
    }
}

/// A request for one directory lists no other.
proof fn lemma_request_lists_only(
    m: ScanModel,
    asked: TreeIndex,
    options: ScanOptions,
    other: TreeIndex,
)
    requires
        m.wf(),
        m.has(other),
        asked != other,
        !m.is_known_or_pending(other),
    ensures
        !m.ensure_scanned(asked, options).is_known_or_pending(other),
{
    let cleared = m.remove_background_summary(asked);
    let job = ScanJob::Children(asked, options);
    law_requests_take_nothing_back(m, asked, options, other);
    lemma_some_job_push(cleared.queued, job, other);
}

proof fn lemma_warm_keeps_known(
    m: ScanModel,
    list: Seq<SizedChild>,
    options: ScanOptions,
    limit: int,
    index: TreeIndex,
)
    requires
        m.wf(),
        m.has(index),
        m.is_known_or_pending(index),
    ensures
        m.warm_children(list, options, limit).0.is_known_or_pending(index),
    decreases list.len(),
{
    if list.len() > 0 && limit > 0 && m.pressing_jobs() < MAX_SCAN_JOBS {
        let first = list[0].index;
        if m.is_known_or_pending(first) {
            lemma_warm_keeps_known(m, list.skip(1), options, limit, index);
        } else {
            let next = m.ensure_scanned(first, options);
            let added = if next.pressing_jobs() > m.pressing_jobs() {
                1int
            } else {
                0
            };
            lemma_ensure_scanned_keeps(m, first, options);
            law_requests_take_nothing_back(m, first, options, index);
            lemma_warm_keeps_known(next, list.skip(1), options, limit - added, index);
        }
    }
}

/// After reports have been taken in, no listing waits while there is room for it: none
/// waits, or two jobs run. Nothing is left to do if and only if the scan is finished.
pub proof fn law_no_room_is_left_unused(
    d: DrainModel,
    reports: Seq<ReportModel>,
    now: Timestamp,
)
    requires
        d.scan.wf(),
        !d.scan.canceled,
        has_room_for_all(d, reports, now),
    ensures
        ({
            let n = d.drain(reports, now).scan;
            &&& n.queued.len() == 0 || n.stats.active_jobs == 2
            &&& n.finished <==> n.stats.active_jobs == 0 && n.queued.len() == 0
                && n.background.len() == 0
        }),
{
    lemma_integrate_all_keeps(d, reports, now);
    let all = d.integrate_all(reports, now);
    law_waiting_listings_start_in_turn(all.scan);
    law_background_work_starts_when_nothing_runs(all.scan, all.probes, all.cache, now);
}

/// When nothing is left to do, a directory becomes complete once it is listed and all of
/// its children are complete; until then none does. Nothing else of any node changes.
pub proof fn law_settled_directories_are_complete(m: ScanModel, index: int)
    requires
        m.wf(),
        0 <= index < m.nodes.len(),
    ensures
        ({
            let n = m.settle();
            let idle = m.stats.active_jobs == 0 && m.queued.len() == 0 && m.background.len() == 0;
            let (before, after) = (m.nodes[index], n.nodes[index]);
            &&& n.nodes.len() == m.nodes.len()
            &&& after == (NodeModel { summarized: after.summarized, ..before })
            &&& n.finished == idle
            &&& !idle ==> after.summarized == before.summarized
            &&& idle ==> (after.summarized <==> before.summarized || (before.is_dir
                && before.scanned && !before.summarizing && forall|k: int|
                0 <= k < before.children.len()
                    ==> n.nodes[#[trigger] before.children[k] as int].summarized))
            &&& n.queued == m.queued && n.background == m.background && n.started == m.started
                && n.stats == m.stats
        }),
{
    lemma_with_completed(m.nodes, m.nodes.len());
    law_completed_directories_have_completed_children(m, index);
}

/// Warming stops only at its limit, for want of room, or where nothing is left to list:
/// so many listings are added as the limit allows, or two jobs or more run or wait, or
/// every directory among the children is listed or will be.
pub proof fn law_warming_stops_for_a_reason(
    m: ScanModel,
    parent: TreeIndex,
    options: ScanOptions,
    limit: int,
    child: TreeIndex,
)
    requires
        m.wf(),
        m.has(parent),
        m.nodes[parent as int].children.contains(child),
        m.nodes[child as int].is_dir,
        limit >= 0,
    ensures
        ({
            let (n, added) = m.warm_parent(parent, options, limit);
            &&& added == limit || n.stats.active_jobs + n.queued.len() >= 2
                || n.is_known_or_pending(child)
            &&& added <= limit
            &&& n.stats.active_jobs + n.queued.len() == m.stats.active_jobs + m.queued.len() + added
        }),
{
    let children = m.nodes[parent as int].children;
    let sized = sized_children(m.nodes, children);
    let list = sorted(sized);
    law_sorted_is_a_sorted_rearrangement(sized);
    let k = choose|k: int| 0 <= k < children.len() && children[k] == child;
    assert(m.nodes[parent as int].children[k] < m.nodes.len());
    let a = lemma_sized_child(m, children, child);
    assert(list.contains(sized[a]));
    let p = choose|p: int| 0 <= p < list.len() && list[p] == sized[a];
    lemma_warm_stops(m, list, options, limit, p);
    lemma_warm_children_limits(m, list, options, limit);
}

proof fn lemma_warm_stops(
    m: ScanModel,
    list: Seq<SizedChild>,
    options: ScanOptions,
    limit: int,
    place: int,
)
    requires
        m.wf(),
        0 <= place < list.len(),
        m.has(list[place].index),
        m.nodes[list[place].index as int].is_dir,
        limit >= 0,
    ensures
        ({
            let (n, added) = m.warm_children(list, options, limit);
            added == limit || n.pressing_jobs() >= 2 || n.is_known_or_pending(list[place].index)
        }),
    decreases list.len(),
{
    if limit > 0 && m.pressing_jobs() < MAX_SCAN_JOBS {
        let first = list[0].index;
        let rest = list.skip(1);
        if m.is_known_or_pending(first) {
            if place == 0 {
                lemma_warm_keeps_known(m, rest, options, limit, first);
            } else {
                assert(rest[place - 1] == list[place]);
                lemma_warm_stops(m, rest, options, limit, place - 1);
            }
        } else {
            let next = m.ensure_scanned(first, options);
            let added = if next.pressing_jobs() > m.pressing_jobs() {
                1int
            } else {
                0
            };
            lemma_ensure_scanned_keeps(m, first, options);
            if place == 0 {
                law_asked_children_come_before_summaries(m, first, options);
                lemma_warm_keeps_known(next, rest, options, limit - added, first);
            } else {
                assert(rest[place - 1] == list[place]);
                law_requests_take_nothing_back(m, first, options, list[place].index);
                lemma_warm_stops(next, rest, options, limit - added, place - 1);
            }
        }
    }
}

/// Directories are warmed one after the other while there is room.
pub proof fn law_directories_are_warmed_in_turn(
    m: ScanModel,
    first: TreeIndex,
    rest: Seq<TreeIndex>,
    options: ScanOptions,
    limit: int,
)
    ensures
        ({
            let (next, added) = m.warm_parent(first, options, limit);
            let (n, more) = next.warm_visible(rest, options, limit);
            let all = m.warm_visible(seq![first] + rest, options, limit);
            &&& m.stats.active_jobs + m.queued.len() < 2 ==> all == (n, added + more)
            &&& m.stats.active_jobs + m.queued.len() >= 2 ==> all == (m, 0int)
            &&& m.warm_visible(Seq::empty(), options, limit) == (m, 0int)
            &&& first >= m.nodes.len() ==> next == m && added == 0
        }),
{
    assert((seq![first] + rest)[0] == first);
    assert((seq![first] + rest).skip(1) =~= rest);
}

/// Of two children the larger comes first, and of two that are as large the one that was
/// found first.
pub proof fn law_larger_children_come_first(one: SizedChild, two: SizedChild)
    ensures
        one.size > two.size ==> one.before(two) && !two.before(one),
        one.size == two.size ==> (one.before(two) <==> one.index < two.index),
{
}

} // verus!

//! The state of a scan as a mathematical value, and what each operation makes
//! of it.
use crate::clock::Timestamp;
use crate::order::{sorted, Ranked};
use crate::scan::cache::{cache_key, remembered, CacheKey, CachedModel};
use crate::scan::data::{
    blank_stats, entry_size, kept_samples, EntryMetadata, EventModel, JobPriority,
    MetadataFingerprint, NodeModel, ScanJob, ScanOptions, ScannedModel, StatsModel, SummaryModel,
    SummaryProgress, TreeIndex, BACKGROUND_SUMMARIES_PER_LEVEL, MAX_SCAN_JOBS,
};
use vstd::prelude::*;

verus! {

/// A scan: the tree as far as it is known, the jobs that wait, the jobs that
/// have been started and not been handed out yet, and what has been counted.
#[verifier::ext_equal]
pub struct ScanModel {
    pub nodes: Seq<NodeModel>,
    pub queued: Seq<ScanJob>,
    pub background: Seq<ScanJob>,
    pub started: Seq<ScanJob>,
    pub root: Seq<u8>,
    pub finished: bool,
    pub canceled: bool,
    pub stats: StatsModel,
}

/// The node that a job is about.
pub open spec fn job_target(job: ScanJob) -> TreeIndex {
    match job {
        ScanJob::Children(index, _) => index,
        ScanJob::Summary(index, _) => index,
    }
}

/// Whether a job lists the children of the node.
pub open spec fn lists_children_of(job: ScanJob, index: TreeIndex) -> bool {
    job is Children && job_target(job) == index
}

/// Whether a job adds up everything below the node.
pub open spec fn summarizes(job: ScanJob, index: TreeIndex) -> bool {
    job is Summary && job_target(job) == index
}

/// Whether one of the jobs lists the children of the node.
pub open spec fn some_job_lists(jobs: Seq<ScanJob>, index: TreeIndex) -> bool {
    exists|i: int| 0 <= i < jobs.len() && lists_children_of(#[trigger] jobs[i], index)
}

/// Whether one of the jobs adds up everything below the node.
pub open spec fn some_job_summarizes(jobs: Seq<ScanJob>, index: TreeIndex) -> bool {
    exists|i: int| 0 <= i < jobs.len() && summarizes(#[trigger] jobs[i], index)
}

/// The jobs that do not add up what is below the node, in their order.
pub open spec fn without_summary_of(jobs: Seq<ScanJob>, index: TreeIndex) -> Seq<ScanJob> {
    jobs.filter(|job: ScanJob| !summarizes(job, index))
}

/// The first power of two that a signed number of 128 bits cannot hold.
pub open spec fn signed_limit() -> int {
    0x8000_0000_0000_0000_0000_0000_0000_0000int
}

/// A number of 128 bits, read in two's complement.
pub open spec fn read_as_signed(value: int) -> int {
    if value < signed_limit() {
        value
    } else {
        value - 2 * signed_limit()
    }
}

/// By how much a size has changed, as a signed number of 128 bits. Exact for
/// sizes that such a number can hold; beyond them the difference wraps around.
pub open spec fn size_delta(old_size: u128, new_size: u128) -> int {
    let difference = new_size - old_size;
    read_as_signed(
        if difference < 0 {
            difference + 2 * signed_limit()
        } else {
            difference
        },
    )
}

/// A size changed by a difference, kept within what 128 bits can hold.
pub open spec fn moved_size(size: u128, delta: int) -> u128 {
    if size + delta < 0 {
        0
    } else if size + delta > u128::MAX {
        u128::MAX
    } else {
        (size + delta) as u128
    }
}

/// Whether one node lies above another: it is its parent, the parent of its
/// parent, and so on.
pub open spec fn is_above(nodes: Seq<NodeModel>, above: int, index: int) -> bool
    decreases index,
{
    match nodes[index].parent {
        Some(parent) => 0 <= parent < index && (parent == above || is_above(
            nodes,
            above,
            parent as int,
        )),
        None => false,
    }
}

/// The nodes after the size of one of them has changed: every node above it
/// changes by the same difference.
pub open spec fn with_moved_ancestors(nodes: Seq<NodeModel>, index: int, delta: int) -> Seq<
    NodeModel,
> {
    Seq::new(
        nodes.len(),
        |k: int|
            if is_above(nodes, k, index) {
                NodeModel { size: moved_size(nodes[k].size, delta), ..nodes[k] }
            } else {
                nodes[k]
            },
    )
}

/// The nodes after one of them is replaced by one with another size, with the
/// difference carried to every node above it.
pub open spec fn with_resized(nodes: Seq<NodeModel>, index: int, node: NodeModel) -> Seq<
    NodeModel,
> {
    with_moved_ancestors(
        nodes.update(index, node),
        index,
        size_delta(nodes[index].size, node.size),
    )
}

/// A node with what a summary has counted.
pub open spec fn with_counts(node: NodeModel, summary: SummaryModel) -> NodeModel {
    NodeModel {
        size: summary.size,
        entry_count: if node.is_dir {
            Some(summary.entry_count)
        } else {
            None
        },
        metadata_error: node.metadata_error || summary.metadata_error,
        summary_entries_seen: summary.entries_seen,
        ..node
    }
}

/// The size of the first node.
pub open spec fn first_size(nodes: Seq<NodeModel>) -> Option<u128> {
    if nodes.len() > 0 {
        Some(nodes[0].size)
    } else {
        None
    }
}

/// One running job less.
pub open spec fn one_job_less(active_jobs: int) -> int {
    if active_jobs > 0 {
        active_jobs - 1
    } else {
        0
    }
}

/// Sum that stops at the largest number of 64 bits.
pub open spec fn capped_sum(left: u64, right: int) -> u64 {
    if left + right > u64::MAX {
        u64::MAX
    } else {
        (left + right) as u64
    }
}

/// Sum that stops at the largest number of 128 bits.
pub open spec fn capped_size(left: u128, right: u128) -> u128 {
    if left + right > u128::MAX {
        u128::MAX
    } else {
        (left + right) as u128
    }
}

/// A child and its size, as background work looks at it: the larger first, and
/// the one that was found first among equals.
#[derive(Debug, Clone, Copy)]
pub struct SizedChild {
    pub index: TreeIndex,
    pub size: u128,
}

impl Ranked for SizedChild {
    open spec fn before(self, other: SizedChild) -> bool {
        self.size > other.size || (self.size == other.size && self.index < other.index)
    }

    proof fn before_is_asymmetric(a: SizedChild, b: SizedChild) {
    }

    proof fn before_is_consistent(a: SizedChild, b: SizedChild, c: SizedChild) {
    }

    fn stands_before(&self, other: &SizedChild) -> (r: bool) {
        self.size > other.size || (self.size == other.size && self.index < other.index)
    }
}

/// Whether a directory has its sizes only because all of its children have.
pub open spec fn completes(nodes: Seq<NodeModel>, index: int) -> bool {
    let node = nodes[index];
    &&& node.is_dir
    &&& !node.summarized
    &&& !node.summarizing
    &&& node.scanned
    &&& forall|k: int|
        0 <= k < node.children.len() ==> (#[trigger] node.children[k]) < nodes.len()
            && nodes[node.children[k] as int].summarized
}

/// The nodes after those below `count` that have become complete are marked,
/// from the last to the first.
pub open spec fn with_completed(nodes: Seq<NodeModel>, count: nat) -> Seq<NodeModel>
    decreases count,
{
    if count == 0 {
        nodes
    } else {
        let last = count - 1;
        with_completed(
            if completes(nodes, last) {
                nodes.update(last, NodeModel { summarized: true, ..nodes[last] })
            } else {
                nodes
            },
            last as nat,
        )
    }
}

/// The node of a scanned entry, with what is remembered of it.
pub open spec fn found_node(
    parent: TreeIndex,
    entry: ScannedModel,
    hit: Option<HitModel>,
) -> NodeModel {
    NodeModel {
        name: entry.name,
        path: entry.path,
        size: match hit {
            Some(known) => known.summary.size,
            None => entry.size,
        },
        modified: entry.modified,
        is_dir: entry.is_dir,
        entry_count: match hit {
            Some(known) => Some(known.summary.entry_count),
            None => entry.entry_count,
        },
        metadata_error: entry.metadata_error || (hit is Some && hit->0.summary.metadata_error),
        parent: Some(parent),
        children: Seq::empty(),
        boundary_dev: entry.boundary_dev,
        scanned: false,
        scanning: false,
        summarized: !entry.is_dir || is_fresh_hit(hit),
        summary_queued: false,
        summarizing: false,
        summary_entries_seen: match hit {
            Some(known) => known.summary.entries_seen,
            None => 0,
        },
    }
}

/// A summary that is remembered, and whether it is fresh.
#[verifier::ext_equal]
pub struct HitModel {
    pub summary: SummaryModel,
    pub fresh: bool,
}

/// What is remembered, seen at a given time.
pub open spec fn recalled(cached: Option<CachedModel>, now: Timestamp) -> Option<HitModel> {
    match cached {
        Some(known) => Some(HitModel { summary: known.summary, fresh: known.is_fresh(now) }),
        None => None,
    }
}

/// Whether something is remembered, and fresh.
pub open spec fn is_fresh_hit(hit: Option<HitModel>) -> bool {
    hit is Some && hit->0.fresh
}

/// A table of fingerprints, asked for a node.
pub open spec fn probe_of(
    probes: Map<TreeIndex, MetadataFingerprint>,
    index: TreeIndex,
) -> Option<MetadataFingerprint> {
    if probes.contains_key(index) {
        Some(probes[index])
    } else {
        None
    }
}

/// A scan while a batch of children is added to it.
#[verifier::ext_equal]
pub struct BatchModel {
    pub scan: ScanModel,
    pub probes: Map<TreeIndex, MetadataFingerprint>,
    /// How many children of the directory are summarized in the background.
    pub background: int,
    /// The sizes of the children of the batch, added up.
    pub size: u128,
}

impl BatchModel {
    /// Adds one child.
    pub open spec fn with_child(
        self,
        parent: TreeIndex,
        entry: ScannedModel,
        probe: Option<MetadataFingerprint>,
        options: ScanOptions,
        cache: Map<CacheKey, CachedModel>,
        now: Timestamp,
    ) -> BatchModel {
        let index = self.scan.nodes.len() as usize;
        let hit = if entry.is_dir {
            recalled(remembered(cache, entry.path, options, probe), now)
        } else {
            None
        };
        let node = found_node(parent, entry, hit);
        let grown = ScanModel { nodes: self.scan.nodes.push(node), ..self.scan };
        let wanted = entry.is_dir && !is_fresh_hit(hit) && self.background
            < BACKGROUND_SUMMARIES_PER_LEVEL;
        BatchModel {
            scan: if wanted {
                grown.enqueue(ScanJob::Summary(index, options), JobPriority::Background, hit)
            } else {
                grown
            },
            probes: if entry.is_dir && probe is Some {
                self.probes.insert(index, probe->0)
            } else {
                self.probes
            },
            background: if wanted {
                self.background + 1
            } else {
                self.background
            },
            size: self.size.wrapping_add(node.size),
        }
    }

    /// Adds the children one after the other.
    pub open spec fn with_children(
        self,
        parent: TreeIndex,
        entries: Seq<ScannedModel>,
        probes: Seq<Option<MetadataFingerprint>>,
        options: ScanOptions,
        cache: Map<CacheKey, CachedModel>,
        now: Timestamp,
    ) -> BatchModel
        decreases entries.len(),
    {
        if entries.len() == 0 {
            self
        } else {
            let last = entries.len() - 1;
            self.with_children(parent, entries.drop_last(), probes, options, cache, now).with_child(
                parent,
                entries[last],
                if last < probes.len() {
                    probes[last]
                } else {
                    None
                },
                options,
                cache,
                now,
            )
        }
    }
}

/// How many of the children are directories that are being summarized or wait
/// for it.
pub open spec fn count_estimating(nodes: Seq<NodeModel>, children: Seq<TreeIndex>) -> int
    decreases children.len(),
{
    if children.len() == 0 {
        0
    } else {
        let child = children.last();
        count_estimating(nodes, children.drop_last()) + if child < nodes.len()
            && nodes[child as int].is_dir && (nodes[child as int].summarizing
            || nodes[child as int].summary_queued) {
            1int
        } else {
            0
        }
    }
}

/// The children that are known, each with its size.
pub open spec fn sized_children(nodes: Seq<NodeModel>, children: Seq<TreeIndex>) -> Seq<SizedChild>
    decreases children.len(),
{
    if children.len() == 0 {
        Seq::empty()
    } else {
        let child = children.last();
        let before = sized_children(nodes, children.drop_last());
        if child < nodes.len() {
            before.push(SizedChild { index: child, size: nodes[child as int].size })
        } else {
            before
        }
    }
}

impl ScanModel {
    /// Whether there is a node with that number.
    pub open spec fn has(self, index: TreeIndex) -> bool {
        index < self.nodes.len()
    }

    /// A node is replaced.
    pub open spec fn with_node(self, index: TreeIndex, node: NodeModel) -> ScanModel {
        ScanModel { nodes: self.nodes.update(index as int, node), ..self }
    }

    /// A job has been started.
    pub open spec fn with_started(self, job: ScanJob) -> ScanModel {
        ScanModel {
            finished: false,
            started: self.started.push(job),
            stats: StatsModel { active_jobs: self.stats.active_jobs + 1, ..self.stats },
            ..self
        }
    }

    /// The jobs that run and those that somebody waits for.
    pub open spec fn pressing_jobs(self) -> int {
        self.stats.active_jobs + self.queued.len()
    }

    /// Starts to list the children of a directory that is not scanned yet.
    pub open spec fn scan_children(self, index: TreeIndex, options: ScanOptions) -> ScanModel {
        let node = self.nodes[index as int];
        if self.has(index) && node.is_dir && !node.scanned && !node.scanning {
            self.with_node(index, NodeModel { scanning: true, ..node }).with_started(
                ScanJob::Children(index, options),
            )
        } else {
            self
        }
    }

    /// Takes over a remembered summary; a complete one ends the work on the node.
    pub open spec fn apply_cached(
        self,
        index: TreeIndex,
        summary: SummaryModel,
        complete: bool,
    ) -> ScanModel {
        if self.has(index) {
            let node = self.nodes[index as int];
            let changed = NodeModel {
                summarized: node.summarized || complete,
                summary_queued: node.summary_queued && !complete,
                summarizing: node.summarizing && !complete,
                ..with_counts(node, summary)
            };
            let nodes = with_resized(self.nodes, index as int, changed);
            ScanModel {
                nodes,
                stats: StatsModel { total_bytes: first_size(nodes), ..self.stats },
                ..self
            }
        } else {
            self
        }
    }

    /// Adds up what is below a node, unless a fresh summary is remembered.
    pub open spec fn summarize(
        self,
        index: TreeIndex,
        options: ScanOptions,
        hit: Option<HitModel>,
    ) -> ScanModel {
        if !self.has(index) || self.nodes[index as int].summarized
            || self.nodes[index as int].summarizing {
            self
        } else {
            let known = match hit {
                Some(hit) => self.apply_cached(index, hit.summary, hit.fresh),
                None => self,
            };
            if is_fresh_hit(hit) {
                known
            } else {
                let node = known.nodes[index as int];
                known.with_node(
                    index,
                    NodeModel { summarizing: true, summary_entries_seen: 0, ..node },
                ).with_started(ScanJob::Summary(index, options))
            }
        }
    }

    /// Starts a job. `hit` is what is remembered for the node of a summary.
    pub open spec fn start_job(
        self,
        job: ScanJob,
        hit: Option<HitModel>,
    ) -> ScanModel {
        match job {
            ScanJob::Children(index, options) => self.scan_children(index, options),
            ScanJob::Summary(index, options) => {
                if self.has(index) {
                    self.with_node(
                        index,
                        NodeModel { summary_queued: false, ..self.nodes[index as int] },
                    ).summarize(index, options, hit)
                } else {
                    self
                }
            },
        }
    }

    /// Whether nothing is gained by the job: its node does not exist, the work is
    /// done or under way, or the same job waits already.
    pub open spec fn job_is_redundant(self, job: ScanJob) -> bool {
        match job {
            ScanJob::Children(index, _) => {
                let node = self.nodes[index as int];
                !self.has(index) || node.scanned || node.scanning || some_job_lists(
                    self.queued,
                    index,
                ) || some_job_lists(self.background, index)
            },
            ScanJob::Summary(index, _) => {
                let node = self.nodes[index as int];
                !self.has(index) || node.summarized || node.summarizing || node.summary_queued
                    || some_job_summarizes(self.queued, index)
            },
        }
    }

    /// Whether there is room for another job. Background work starts only when
    /// nothing else runs or waits.
    pub open spec fn can_start(self, priority: JobPriority) -> bool {
        match priority {
            JobPriority::Interactive => self.stats.active_jobs < MAX_SCAN_JOBS,
            JobPriority::Background => self.stats.active_jobs == 0 && self.queued.len() == 0,
        }
    }

    /// Starts a job or lets it wait.
    pub open spec fn enqueue(
        self,
        job: ScanJob,
        priority: JobPriority,
        hit: Option<HitModel>,
    ) -> ScanModel {
        if self.job_is_redundant(job) {
            self
        } else if self.can_start(priority) {
            self.start_job(job, hit)
        } else {
            match priority {
                JobPriority::Interactive => ScanModel { queued: self.queued.push(job), ..self },
                JobPriority::Background => {
                    let marked = if job is Summary && self.has(job_target(job)) {
                        self.with_node(
                            job_target(job),
                            NodeModel {
                                summary_queued: true,
                                ..self.nodes[job_target(job) as int]
                            },
                        )
                    } else {
                        self
                    };
                    ScanModel { background: self.background.push(job), ..marked }
                },
            }
        }
    }

    /// Takes the summary of a node out of the background work.
    pub open spec fn remove_background_summary(self, index: TreeIndex) -> ScanModel {
        let background = without_summary_of(self.background, index);
        let removed = ScanModel { background, ..self };
        if background.len() != self.background.len() && self.has(index) {
            removed.with_node(
                index,
                NodeModel { summary_queued: false, ..self.nodes[index as int] },
            )
        } else {
            removed
        }
    }

    /// Makes sure that the children of a directory are listed, now or soon.
    pub open spec fn ensure_scanned(
        self,
        index: TreeIndex,
        options: ScanOptions,
    ) -> ScanModel {
        let cleared = self.remove_background_summary(index);
        let node = cleared.nodes[index as int];
        if cleared.has(index) && node.is_dir && !node.scanned && !node.scanning {
            cleared.enqueue(
                ScanJob::Children(index, options),
                JobPriority::Interactive,
                None,
            )
        } else {
            cleared
        }
    }

    /// Lists children ahead of need, one after the other while there is room.
    pub open spec fn prefetch(
        self,
        children: Seq<TreeIndex>,
        options: ScanOptions,
    ) -> ScanModel
        decreases children.len(),
    {
        if children.len() == 0 || self.pressing_jobs() >= MAX_SCAN_JOBS {
            self
        } else {
            self.ensure_scanned(children[0], options).prefetch(children.skip(1), options)
        }
    }

    /// Whether the children of a node are listed, or will be.
    pub open spec fn is_known_or_pending(self, index: TreeIndex) -> bool {
        !self.has(index) || self.nodes[index as int].scanned || self.nodes[index as int].scanning
            || some_job_lists(self.queued, index)
    }

    /// Lists the given children while there is room and the limit allows it.
    /// The second part of the result is the number of jobs that this has added.
    pub open spec fn warm_children(
        self,
        children: Seq<SizedChild>,
        options: ScanOptions,
        limit: int,
    ) -> (ScanModel, int)
        decreases children.len(),
    {
        if children.len() == 0 || limit <= 0 || self.pressing_jobs() >= MAX_SCAN_JOBS {
            (self, 0)
        } else if self.is_known_or_pending(children[0].index) {
            self.warm_children(children.skip(1), options, limit)
        } else {
            let next = self.ensure_scanned(children[0].index, options);
            let added = if next.pressing_jobs() > self.pressing_jobs() {
                1int
            } else {
                0
            };
            let (done, more) = next.warm_children(children.skip(1), options, limit - added);
            (done, added + more)
        }
    }

    /// Lists the largest children of a directory.
    pub open spec fn warm_parent(
        self,
        parent: TreeIndex,
        options: ScanOptions,
        limit: int,
    ) -> (ScanModel, int) {
        if self.has(parent) {
            self.warm_children(
                sorted(sized_children(self.nodes, self.nodes[parent as int].children)),
                options,
                limit,
            )
        } else {
            (self, 0)
        }
    }

    /// Lists the largest children of each of the given directories.
    pub open spec fn warm_visible(
        self,
        parents: Seq<TreeIndex>,
        options: ScanOptions,
        limit: int,
    ) -> (ScanModel, int)
        decreases parents.len(),
    {
        if parents.len() == 0 || self.pressing_jobs() >= MAX_SCAN_JOBS {
            (self, 0)
        } else {
            let (next, added) = self.warm_parent(parents[0], options, limit);
            let (done, more) = next.warm_visible(parents.skip(1), options, limit);
            (done, added + more)
        }
    }

    /// Starts jobs that somebody waits for while there is room.
    pub open spec fn start_interactive(self) -> ScanModel
        decreases self.queued.len(),
    {
        if self.stats.active_jobs < MAX_SCAN_JOBS && self.queued.len() > 0 {
            ScanModel { queued: self.queued.skip(1), ..self }.start_job(
                self.queued[0],
                None,
            ).start_interactive()
        } else {
            self
        }
    }

    /// Starts jobs that wait: first those that somebody waits for, and one in
    /// the background when nothing runs.
    pub open spec fn start_waiting(
        self,
        probes: Map<TreeIndex, MetadataFingerprint>,
        cache: Map<CacheKey, CachedModel>,
        now: Timestamp,
    ) -> ScanModel {
        let next = self.start_interactive();
        if next.stats.active_jobs == 0 && next.background.len() > 0 {
            ScanModel { background: next.background.skip(1), ..next }.start_job(
                next.background[0],
                next.recalled_for(next.background[0], probes, cache, now),
            )
        } else {
            next
        }
    }

    /// What is remembered for the node of a job.
    pub open spec fn recalled_for(
        self,
        job: ScanJob,
        probes: Map<TreeIndex, MetadataFingerprint>,
        cache: Map<CacheKey, CachedModel>,
        now: Timestamp,
    ) -> Option<HitModel> {
        match job {
            ScanJob::Children(_, _) => None,
            ScanJob::Summary(index, options) => if self.has(index) {
                recalled(
                    remembered(
                        cache,
                        self.nodes[index as int].path,
                        options,
                        probe_of(probes, index),
                    ),
                    now,
                )
            } else {
                None
            },
        }
    }

    /// A directory after a batch of its children has been found.
    pub open spec fn with_batch(
        self,
        parent: TreeIndex,
        first: int,
        count: int,
        size: u128,
        done: bool,
    ) -> Seq<NodeModel> {
        let node = self.nodes[parent as int];
        let update_size = !node.summarized;
        let changed = NodeModel {
            children: node.children + Seq::new(count as nat, |i: int| (first + i) as usize),
            scanned: done,
            scanning: !done,
            size: if !update_size {
                node.size
            } else if node.children.len() == 0 {
                size
            } else {
                capped_size(node.size, size)
            },
            entry_count: if update_size {
                Some(
                    capped_sum(
                        match node.entry_count {
                            Some(known) => known,
                            None => 0,
                        },
                        count,
                    ),
                )
            } else {
                node.entry_count
            },
            ..node
        };
        with_resized(self.nodes, parent as int, changed)
    }

    /// Takes in a batch of children of a directory.
    pub open spec fn integrate_children(
        self,
        parent: TreeIndex,
        children: Seq<ScannedModel>,
        child_probes: Seq<Option<MetadataFingerprint>>,
        options: ScanOptions,
        stats: StatsModel,
        done: bool,
        probes: Map<TreeIndex, MetadataFingerprint>,
        cache: Map<CacheKey, CachedModel>,
        now: Timestamp,
    ) -> (ScanModel, Map<TreeIndex, MetadataFingerprint>) {
        let active_jobs = |scan: ScanModel|
            if done {
                one_job_less(scan.stats.active_jobs)
            } else {
                scan.stats.active_jobs
            };
        if !self.has(parent) {
            (
                ScanModel {
                    stats: StatsModel { active_jobs: active_jobs(self), ..self.stats },
                    ..self
                },
                probes,
            )
        } else {
            let batch = BatchModel {
                scan: self,
                probes,
                background: count_estimating(self.nodes, self.nodes[parent as int].children),
                size: 0,
            }.with_children(parent, children, child_probes, options, cache, now);
            let nodes = batch.scan.with_batch(
                parent,
                self.nodes.len() as int,
                children.len() as int,
                batch.size,
                done,
            );
            (
                ScanModel {
                    nodes,
                    stats: StatsModel {
                        entries_traversed: batch.scan.stats.entries_traversed.wrapping_add(
                            stats.entries_traversed,
                        ),
                        io_errors: batch.scan.stats.io_errors.wrapping_add(stats.io_errors),
                        error_samples: kept_samples(
                            batch.scan.stats.error_samples,
                            stats.error_samples,
                        ),
                        total_bytes: first_size(nodes),
                        active_jobs: active_jobs(batch.scan),
                    },
                    ..batch.scan
                },
                batch.probes,
            )
        }
    }

    /// Takes in the summary of a node.
    pub open spec fn integrate_summary(self, index: TreeIndex, summary: SummaryModel) -> ScanModel {
        let active_jobs = one_job_less(self.stats.active_jobs);
        if !self.has(index) {
            ScanModel { stats: StatsModel { active_jobs, ..self.stats }, ..self }
        } else {
            let node = self.nodes[index as int];
            let changed = NodeModel {
                summarized: true,
                summarizing: false,
                ..with_counts(node, summary)
            };
            let nodes = with_resized(self.nodes, index as int, changed);
            ScanModel {
                nodes,
                stats: StatsModel {
                    entries_traversed: self.stats.entries_traversed.wrapping_add(
                        summary.entries_seen,
                    ),
                    io_errors: self.stats.io_errors.wrapping_add(summary.io_errors),
                    error_samples: kept_samples(self.stats.error_samples, summary.error_samples),
                    total_bytes: first_size(nodes),
                    active_jobs,
                },
                ..self
            }
        }
    }

    /// Takes in what a running summary has added up so far: the size of a node
    /// can only grow by it.
    pub open spec fn integrate_progress(
        self,
        index: TreeIndex,
        progress: SummaryProgress,
    ) -> ScanModel {
        if !self.has(index) || self.nodes[index as int].summarized {
            self
        } else {
            let node = self.nodes[index as int];
            let changed = NodeModel {
                size: if progress.size > node.size {
                    progress.size
                } else {
                    node.size
                },
                entry_count: if node.is_dir {
                    Some(progress.entry_count)
                } else {
                    None
                },
                summary_entries_seen: progress.entries_seen,
                ..node
            };
            let nodes = with_resized(self.nodes, index as int, changed);
            ScanModel {
                nodes,
                stats: StatsModel { total_bytes: first_size(nodes), ..self.stats },
                ..self
            }
        }
    }

    /// Stops all work.
    pub open spec fn cancel(self) -> ScanModel {
        ScanModel {
            nodes: self.nodes.map_values(
                |node: NodeModel|
                    NodeModel {
                        scanning: false,
                        summary_queued: false,
                        summarizing: false,
                        ..node
                    },
            ),
            queued: Seq::empty(),
            background: Seq::empty(),
            started: Seq::empty(),
            finished: true,
            canceled: true,
            stats: StatsModel { active_jobs: 0, ..self.stats },
            ..self
        }
    }

    /// Whether no job runs or waits.
    pub open spec fn is_idle(self) -> bool {
        self.stats.active_jobs == 0 && self.queued.len() == 0 && self.background.len() == 0
    }

    /// Notes whether the scan is finished; the directories of a finished scan
    /// are complete once all of their children are.
    pub open spec fn settle(self) -> ScanModel {
        ScanModel {
            finished: self.is_idle(),
            nodes: if self.is_idle() {
                with_completed(self.nodes, self.nodes.len())
            } else {
                self.nodes
            },
            ..self
        }
    }
}

/// A report of a scanner, together with the fingerprints of the children in it.
#[verifier::ext_equal]
pub struct ReportModel {
    pub event: EventModel,
    pub child_probes: Seq<Option<MetadataFingerprint>>,
}

/// A scan, what is remembered, and the fingerprints that are known.
#[verifier::ext_equal]
pub struct DrainModel {
    pub scan: ScanModel,
    pub cache: Map<CacheKey, CachedModel>,
    pub probes: Map<TreeIndex, MetadataFingerprint>,
}

impl DrainModel {
    /// Takes in one report, without starting anything that waits.
    pub open spec fn absorb(self, report: ReportModel, now: Timestamp) -> DrainModel {
        match report.event {
            EventModel::ChildrenBatch { parent, children, options, stats, done } => {
                let (scan, probes) = self.scan.integrate_children(
                    parent,
                    children,
                    report.child_probes,
                    options,
                    stats,
                    done,
                    self.probes,
                    self.cache,
                    now,
                );
                DrainModel { scan, probes, ..self }
            },
            EventModel::Summary { index, options, summary } => DrainModel {
                scan: self.scan.integrate_summary(index, summary),
                cache: if self.scan.has(index) && self.probes.contains_key(index) {
                    self.cache.insert(
                        cache_key(
                            self.scan.nodes[index as int].path,
                            options,
                            self.probes[index],
                        ),
                        CachedModel { summary, cached_at: now },
                    )
                } else {
                    self.cache
                },
                ..self
            },
            EventModel::SummaryProgress { index, progress } => DrainModel {
                scan: self.scan.integrate_progress(index, progress),
                ..self
            },
        }
    }

    /// Takes in one report and starts what waits and has room then.
    pub open spec fn integrate(self, report: ReportModel, now: Timestamp) -> DrainModel {
        let next = self.absorb(report, now);
        DrainModel { scan: next.scan.start_waiting(next.probes, next.cache, now), ..next }
    }

    /// Takes in the reports in their order.
    pub open spec fn integrate_all(self, reports: Seq<ReportModel>, now: Timestamp) -> DrainModel
        decreases reports.len(),
    {
        if reports.len() == 0 {
            self
        } else {
            self.integrate_all(reports.drop_last(), now).integrate(reports.last(), now)
        }
    }

    /// Takes in the reports; a canceled scan takes in none.
    pub open spec fn drain(self, reports: Seq<ReportModel>, now: Timestamp) -> DrainModel {
        if self.scan.canceled {
            DrainModel { scan: ScanModel { finished: true, ..self.scan }, ..self }
        } else {
            let next = self.integrate_all(reports, now);
            DrainModel {
                scan: next.scan.start_waiting(next.probes, next.cache, now).settle(),
                ..next
            }
        }
    }
}

/// The scan of a root that has just been started.
pub open spec fn fresh_scan(
    root: Seq<u8>,
    name: Seq<char>,
    metadata: EntryMetadata,
    options: ScanOptions,
) -> ScanModel {
    ScanModel {
        nodes: seq![
            NodeModel {
                name,
                path: root,
                size: entry_size(metadata, options.apparent_size) as u128,
                modified: metadata.modified,
                is_dir: metadata.is_dir,
                entry_count: Some(0),
                metadata_error: false,
                parent: None,
                children: Seq::empty(),
                boundary_dev: Some(metadata.dev),
                scanned: false,
                scanning: false,
                summarized: !metadata.is_dir,
                summary_queued: false,
                summarizing: false,
                summary_entries_seen: 0,
            },
        ],
        queued: Seq::empty(),
        background: Seq::empty(),
        started: Seq::empty(),
        root,
        finished: false,
        canceled: false,
        stats: blank_stats(0),
    }.scan_children(0, options)
}

impl ScanModel {
    /// The nodes form a tree: a parent comes before its children, and the
    /// children that a node names are there, in the order in which they were
    /// found, and name it as their parent.
    pub open spec fn is_tree(self) -> bool {
        &&& 0 < self.nodes.len() <= usize::MAX
        &&& self.nodes[0].parent is None
        &&& forall|i: int|
            #![trigger self.nodes[i]]
            0 < i < self.nodes.len() ==> self.nodes[i].parent is Some && self.nodes[i].parent->0 < i
        &&& forall|i: int, k: int|
            #![trigger self.nodes[i].children[k]]
            0 <= i < self.nodes.len() && 0 <= k < self.nodes[i].children.len()
                ==> self.nodes[i].children[k] < self.nodes.len()
                && self.nodes[self.nodes[i].children[k] as int].parent == Some(i as usize)
        &&& forall|i: int, j: int, k: int|
            #![trigger self.nodes[i].children[j], self.nodes[i].children[k]]
            0 <= i < self.nodes.len() && 0 <= j < k < self.nodes[i].children.len()
                ==> self.nodes[i].children[j] < self.nodes[i].children[k]
    }

    /// Every node but the first is among the children of its parent.
    pub open spec fn is_linked(self) -> bool {
        forall|i: int|
            #![trigger self.nodes[i]]
            0 < i < self.nodes.len() ==> self.nodes[self.nodes[i].parent->0 as int].children.contains(
                i as usize,
            )
    }

    /// The jobs that wait: somebody waits for listings only, only summaries are
    /// made in the background, each is about a node of its own, and a node
    /// knows whether its summary waits.
    pub open spec fn has_orderly_queues(self) -> bool {
        &&& forall|i: int|
            0 <= i < self.queued.len() ==> (#[trigger] self.queued[i]) is Children && self.has(
                job_target(self.queued[i]),
            )
        &&& forall|i: int|
            0 <= i < self.background.len() ==> (#[trigger] self.background[i]) is Summary
                && self.has(job_target(self.background[i]))
        &&& forall|i: int, j: int|
            0 <= i < j < self.queued.len() ==> job_target(#[trigger] self.queued[i]) != job_target(
                #[trigger] self.queued[j],
            )
        &&& forall|i: int, j: int|
            0 <= i < j < self.background.len() ==> job_target(#[trigger] self.background[i])
                != job_target(#[trigger] self.background[j])
        &&& forall|i: int|
            #![trigger self.nodes[i]]
            0 <= i < self.nodes.len() ==> (self.nodes[i].summary_queued <==> some_job_summarizes(
                self.background,
                i as usize,
            ))
    }

    /// At most so many jobs run as there is room for.
    pub open spec fn has_bounded_jobs(self) -> bool {
        0 <= self.stats.active_jobs <= MAX_SCAN_JOBS
    }

    /// The total is the size of the root.
    pub open spec fn has_true_total(self) -> bool {
        self.stats.total_bytes is Some ==> self.stats.total_bytes == first_size(self.nodes)
    }

    /// What holds of a scan at every moment.
    pub open spec fn is_sound(self) -> bool {
        &&& self.is_tree()
        &&& self.has_orderly_queues()
        &&& self.has_bounded_jobs()
    }

    /// What holds of a scan between two operations.
    pub open spec fn wf(self) -> bool {
        &&& self.is_sound()
        &&& self.is_linked()
        &&& self.has_true_total()
    }
}

} // verus!

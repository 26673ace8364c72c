//! A scan in progress.
use crate::clock::Timestamp;
use crate::order::stable_sort;
use crate::paths::OsPath;
use crate::scan::cache::{cache_key, remembered, CachedModel, SummaryCache};
use crate::scan::data::{
    append_error_samples, disk_size, kept_samples, node_models, sample_models, scanned_models,
    EntryMetadata, EventModel, IoErrorSample, JobPriority, MetadataFingerprint, Node, NodeModel,
    ScanEvent, ScanJob, ScanOptions, ScanProgress, ScanStats, ScannedEntry, StatsModel, Summary,
    SummaryProgress, TreeIndex, BACKGROUND_SUMMARIES_PER_LEVEL, MAX_SCAN_JOBS,
};
use crate::scan::estimate_laws::{
    estimates_are_bounded, law_a_fresh_scan_is_in_order,
    law_background_work_per_directory_stays_bounded, law_canceling_adds_no_background_work,
    law_requests_add_no_background_work, lemma_integrate_estimates,
};
use crate::scan::job_laws::{has_room_for, has_room_for_all};
use crate::scan::keeps::{
    lemma_above_is_smaller, lemma_cancel_keeps, lemma_enqueue_keeps, lemma_ensure_scanned_keeps,
    lemma_fresh_scan_is_well_formed, lemma_integrate_children_keeps,
    lemma_integrate_progress_keeps, lemma_integrate_summary_keeps, lemma_pop_background,
    lemma_pop_queued, lemma_remove_background_keeps, lemma_grown_keeps, lemma_same_marks,
    lemma_same_tree, lemma_settle_keeps, lemma_start_job_keeps, lemma_start_waiting_keeps,
    lemma_with_child_keeps, continues, priority_fits, same_tree,
};
use crate::scan::model::{
    completes, count_estimating, first_size, found_node, fresh_scan, is_above, job_target,
    lists_children_of, moved_size, one_job_less, recalled, size_delta, sized_children,
    some_job_lists, some_job_summarizes, summarizes, with_completed, with_counts,
    with_moved_ancestors, with_resized, without_summary_of, BatchModel, DrainModel, HitModel,
    ReportModel, ScanModel, SizedChild,
};
use crate::text::{lossy_text, text_of_bytes};
use std::collections::{HashMap, VecDeque};
use vstd::prelude::*;

verus! {

/// A scan of a directory tree. Nodes are added as directories are listed, and
/// sizes grow as summaries come in. The scan decides which jobs are started;
/// whoever runs them takes them out with `take_started_jobs` and hands the
/// reports back to `drain_events`.
#[derive(Debug)]
pub struct ActiveScan {
    nodes: Vec<Node>,
    queued: VecDeque<ScanJob>,
    background_queued: VecDeque<ScanJob>,
    started: Vec<ScanJob>,
    root: OsPath,
    finished: bool,
    canceled: bool,
    stats: ScanStats,
}

impl View for ActiveScan {
    type V = ScanModel;

    closed spec fn view(&self) -> ScanModel {
        ScanModel {
            nodes: node_models(self.nodes@),
            queued: self.queued@,
            background: self.background_queued@,
            started: self.started@,
            root: self.root@,
            finished: self.finished,
            canceled: self.canceled,
            stats: self.stats@,
        }
    }
}

/// A summary that is remembered, and whether it is fresh.
#[derive(Debug)]
pub struct CacheHit {
    pub summary: Summary,
    pub fresh: bool,
}

impl View for CacheHit {
    type V = HitModel;

    open spec fn view(&self) -> HitModel {
        HitModel { summary: self.summary@, fresh: self.fresh }
    }
}

/// The model of what may be remembered.
pub open spec fn hit_model(hit: Option<CacheHit>) -> Option<HitModel> {
    match hit {
        Some(known) => Some(known@),
        None => None,
    }
}

/// What is remembered for a path whose fingerprint may not be known.
fn recall(
    cache: &SummaryCache,
    path: &OsPath,
    options: ScanOptions,
    fingerprint: Option<MetadataFingerprint>,
    now: Timestamp,
) -> (r: Option<CacheHit>)
    ensures
        hit_model(r) == recalled(remembered(cache@, path@, options, fingerprint), now),
{
    match fingerprint {
        Some(known) => match cache.get(path, options, known) {
            Some(cached) => {
                let fresh = cached.is_fresh(now);
                Some(CacheHit { summary: cached.summary, fresh })
            },
            None => None,
        },
        None => None,
    }
}

/// A report of a scanner, together with the fingerprints of the children in it
/// as far as they are known.
#[derive(Debug)]
pub struct ScanReport {
    pub event: ScanEvent,
    pub child_probes: Vec<Option<MetadataFingerprint>>,
}

impl View for ScanReport {
    type V = ReportModel;

    open spec fn view(&self) -> ReportModel {
        ReportModel { event: self.event@, child_probes: self.child_probes@ }
    }
}

/// The models of a list of reports.
pub open spec fn report_models(reports: Seq<ScanReport>) -> Seq<ReportModel> {
    reports.map_values(|report: ScanReport| report@)
}

fn lists(jobs: &VecDeque<ScanJob>, index: TreeIndex) -> (r: bool)
    ensures
        r == some_job_lists(jobs@, index),
{
    let mut i: usize = 0;
    while i < jobs.len()
        invariant
            i <= jobs@.len(),
            forall|k: int| 0 <= k < i ==> !lists_children_of(#[trigger] jobs@[k], index),
        decreases jobs@.len() - i,
    {
        if let ScanJob::Children(target, _) = jobs[i] {
            if target == index {
                assert(lists_children_of(jobs@[i as int], index));
                return true;
            }
        }
        i = i + 1;
    }
    false
}

fn has_summary(jobs: &VecDeque<ScanJob>, index: TreeIndex) -> (r: bool)
    ensures
        r == some_job_summarizes(jobs@, index),
{
    let mut i: usize = 0;
    while i < jobs.len()
        invariant
            i <= jobs@.len(),
            forall|k: int| 0 <= k < i ==> !summarizes(#[trigger] jobs@[k], index),
        decreases jobs@.len() - i,
    {
        if let ScanJob::Summary(target, _) = jobs[i] {
            if target == index {
                assert(summarizes(jobs@[i as int], index));
                return true;
            }
        }
        i = i + 1;
    }
    false
}

impl ActiveScan {
    /// What holds of a scan between two operations: its parts fit together, and of
    /// the children of one directory no more are summarized in the background, or
    /// wait for it, than the limit allows.
    pub open spec fn wf(&self) -> bool {
        &&& self@.wf()
        &&& estimates_are_bounded(self@)
    }

    /// Starts the scan of a root with the given metadata.
    pub fn start(root: OsPath, metadata: &EntryMetadata, options: ScanOptions) -> (r: ActiveScan)
        ensures
            r@ == fresh_scan(root@, lossy_text(root@), *metadata, options),
            r.wf(),
    {
        let root_node = Node {
            name: text_of_bytes(&root.bytes),
            path: root.duplicate(),
            size: disk_size(metadata, options.apparent_size),
            modified: metadata.modified,
            is_dir: metadata.is_dir,
            entry_count: Some(0),
            metadata_error: false,
            parent: None,
            children: Vec::new(),
            boundary_dev: Some(metadata.dev),
            scanned: false,
            scanning: false,
            summarized: !metadata.is_dir,
            summary_queued: false,
            summarizing: false,
            summary_entries_seen: 0,
        };
        let ghost node = root_node@;
        let mut nodes: Vec<Node> = Vec::new();
        nodes.push(root_node);
        proof {
            assert(node_models(nodes@) =~= seq![node]);
        }
        let mut scan = ActiveScan {
            nodes,
            queued: VecDeque::new(),
            background_queued: VecDeque::new(),
            started: Vec::new(),
            root,
            finished: false,
            canceled: false,
            stats: ScanStats::default(),
        };
        scan.scan_children(0, options);
        proof {
            lemma_fresh_scan_is_well_formed(root@, lossy_text(root@), *metadata, options);
            law_a_fresh_scan_is_in_order(root@, lossy_text(root@), *metadata, options);
        }
        scan
    }

    fn scan_children(&mut self, index: TreeIndex, options: ScanOptions)
        requires
            0 <= old(self)@.stats.active_jobs < MAX_SCAN_JOBS,
        ensures
            final(self)@ == old(self)@.scan_children(index, options),
    {
        if index >= self.nodes.len() {
            return;
        }
        if !self.nodes[index].is_dir || self.nodes[index].scanned || self.nodes[index].scanning {
            return;
        }
        let ghost before = self@;
        self.nodes[index].scanning = true;
        self.finished = false;
        self.stats.active_jobs = self.stats.active_jobs + 1;
        self.started.push(ScanJob::Children(index, options));
        proof {
            assert(self@ =~= before.scan_children(index, options));
        }
    }

    fn propagate_size_delta(&mut self, index: TreeIndex, old_size: u128, new_size: u128)
        requires
            old(self)@.has(index),
            forall|i: int|
                #![trigger old(self)@.nodes[i]]
                0 <= i < old(self)@.nodes.len() && old(self)@.nodes[i].parent is Some
                    ==> old(self)@.nodes[i].parent->0 < i,
        ensures
            final(self)@ == (ScanModel {
                nodes: with_moved_ancestors(
                    old(self)@.nodes,
                    index as int,
                    size_delta(old_size, new_size),
                ),
                ..old(self)@
            }),
    {
        let ghost start = self@;
        let ghost at = index as int;
        let ghost delta = size_delta(old_size, new_size);
        let difference: u128 = new_size.wrapping_sub(old_size);
        if difference == 0 {
            proof {
                assert(self@.nodes =~= with_moved_ancestors(start.nodes, at, delta));
            }
            return;
        }
        let grows = difference < 0x8000_0000_0000_0000_0000_0000_0000_0000;
        let amount: u128 = if grows {
            difference
        } else {
            (u128::MAX - difference) + 1
        };
        let mut current: Option<TreeIndex> = self.nodes[index].parent;
        proof {
            assert(delta == if grows {
                amount as int
            } else {
                -(amount as int)
            });
            assert(start.nodes[at].parent == current);
        }
        while current.is_some()
            invariant
                self@ == (ScanModel { nodes: self@.nodes, ..start }),
                self@.nodes.len() == start.nodes.len(),
                0 <= at < start.nodes.len(),
                current matches Some(c) ==> c < start.nodes.len(),
                forall|i: int|
                    #![trigger start.nodes[i]]
                    0 <= i < start.nodes.len() && start.nodes[i].parent is Some
                        ==> start.nodes[i].parent->0 < i,
                delta == if grows {
                    amount as int
                } else {
                    -(amount as int)
                },
                forall|k: int|
                    #![trigger self@.nodes[k]]
                    0 <= k < start.nodes.len() ==> self@.nodes[k] == if is_above(
                        start.nodes,
                        k,
                        at,
                    ) && !(current is Some && (k == current->0 || is_above(
                        start.nodes,
                        k,
                        current->0 as int,
                    ))) {
                        NodeModel {
                            size: moved_size(start.nodes[k].size, delta),
                            ..start.nodes[k]
                        }
                    } else {
                        start.nodes[k]
                    },
                current is Some ==> is_above(start.nodes, current->0 as int, at),
                forall|k: int|
                    current is Some && #[trigger] is_above(start.nodes, k, current->0 as int)
                        ==> is_above(start.nodes, k, at),
            decreases
                    (if current is Some {
                        current->0 + 1
                    } else {
                        0
                    }),
        {
            let parent: TreeIndex = current.unwrap();
            let size: u128 = self.nodes[parent].size;
            let ghost before = self@.nodes;
            proof {
                lemma_above_is_smaller(start.nodes, parent as int, parent as int);
                assert(before[parent as int] == start.nodes[parent as int]);
            }
            self.nodes[parent].size = if grows {
                size.saturating_add(amount)
            } else {
                size.saturating_sub(amount)
            };
            current = self.nodes[parent].parent;
            proof {
                assert(self@.nodes =~= before.update(
                    parent as int,
                    NodeModel {
                        size: moved_size(size, delta),
                        ..start.nodes[parent as int]
                    },
                ));
                assert(start.nodes[parent as int].parent == current);
                if current is Some {
                    let next = current->0 as int;
                    assert(is_above(start.nodes, next, parent as int));
                    assert forall|k: int| #[trigger] is_above(start.nodes, k, next) implies is_above(
                        start.nodes,
                        k,
                        at,
                    ) by {
                        assert(is_above(start.nodes, k, parent as int));
                    }
                }
            }
        }
        proof {
            assert(self@.nodes =~= with_moved_ancestors(start.nodes, at, delta));
        }
    }

    fn refresh_total(&mut self)
        ensures
            final(self)@ == (ScanModel {
                stats: StatsModel { total_bytes: first_size(old(self)@.nodes), ..old(self)@.stats },
                ..old(self)@
            }),
    {
        let ghost before = self@;
        self.stats.total_bytes = if self.nodes.len() > 0 {
            Some(self.nodes[0].size)
        } else {
            None
        };
        proof {
            assert(self@.stats =~= StatsModel {
                total_bytes: first_size(before.nodes),
                ..before.stats
            });
        }
    }

    /// Takes over what a summary has counted, and carries the change of the size
    /// to the nodes above.
    fn store_counts(&mut self, index: TreeIndex, summary: &Summary)
        requires
            old(self)@.is_tree(),
            old(self)@.has(index),
        ensures
            final(self)@ == (ScanModel {
                nodes: with_resized(
                    old(self)@.nodes,
                    index as int,
                    with_counts(old(self)@.nodes[index as int], summary@),
                ),
                ..old(self)@
            }),
    {
        let ghost before = self@;
        let old_size: u128 = self.nodes[index].size;
        let is_dir: bool = self.nodes[index].is_dir;
        self.nodes[index].size = summary.size;
        self.nodes[index].entry_count = if is_dir {
            Some(summary.entry_count)
        } else {
            None
        };
        self.nodes[index].metadata_error = self.nodes[index].metadata_error
            || summary.metadata_error;
        self.nodes[index].summary_entries_seen = summary.entries_seen;
        proof {
            assert(self@ =~= before.with_node(
                index,
                with_counts(before.nodes[index as int], summary@),
            ));
        }
        self.propagate_size_delta(index, old_size, summary.size);
    }

    fn apply_cached_summary(&mut self, index: TreeIndex, summary: &Summary, complete: bool)
        requires
            old(self)@.is_tree(),
        ensures
            final(self)@ == old(self)@.apply_cached(index, summary@, complete),
    {
        if index >= self.nodes.len() {
            return;
        }
        let ghost before = self@;
        if complete {
            self.nodes[index].summarized = true;
            self.nodes[index].summary_queued = false;
            self.nodes[index].summarizing = false;
        }
        let ghost marked = self@;
        proof {
            assert(marked =~= before.with_node(index, marked.nodes[index as int]));
            lemma_same_tree(before, marked);
        }
        self.store_counts(index, summary);
        self.refresh_total();
        proof {
            let changed = with_counts(marked.nodes[index as int], summary@);
            assert(marked.nodes.update(index as int, changed) =~= before.nodes.update(
                index as int,
                changed,
            ));
        }
    }

    fn summarize_node(&mut self, index: TreeIndex, options: ScanOptions, hit: Option<CacheHit>)
        requires
            old(self)@.is_tree(),
            0 <= old(self)@.stats.active_jobs < MAX_SCAN_JOBS,
        ensures
            final(self)@ == old(self)@.summarize(index, options, hit_model(hit)),
    {
        if index >= self.nodes.len() {
            return;
        }
        if self.nodes[index].summarized || self.nodes[index].summarizing {
            return;
        }
        if let Some(known) = &hit {
            self.apply_cached_summary(index, &known.summary, known.fresh);
            if known.fresh {
                return;
            }
        }
        let ghost before = self@;
        self.nodes[index].summarizing = true;
        self.nodes[index].summary_entries_seen = 0;
        self.finished = false;
        self.stats.active_jobs = self.stats.active_jobs + 1;
        self.started.push(ScanJob::Summary(index, options));
        proof {
            assert(self@ =~= before.with_node(
                index,
                NodeModel {
                    summarizing: true,
                    summary_entries_seen: 0,
                    ..before.nodes[index as int]
                },
            ).with_started(ScanJob::Summary(index, options)));
        }
    }

    fn start_job(&mut self, job: ScanJob, hit: Option<CacheHit>)
        requires
            old(self)@.is_tree(),
            0 <= old(self)@.stats.active_jobs < MAX_SCAN_JOBS,
        ensures
            final(self)@ == old(self)@.start_job(job, hit_model(hit)),
    {
        match job {
            ScanJob::Children(index, options) => self.scan_children(index, options),
            ScanJob::Summary(index, options) => {
                if index < self.nodes.len() {
                    let ghost before = self@;
                    self.nodes[index].summary_queued = false;
                    proof {
                        let cleared = before.with_node(
                            index,
                            NodeModel { summary_queued: false, ..before.nodes[index as int] },
                        );
                        assert(self@ =~= cleared);
                        lemma_same_tree(before, cleared);
                    }
                    self.summarize_node(index, options, hit);
                }
            },
        }
    }

    fn job_is_redundant(&self, job: ScanJob) -> (r: bool)
        ensures
            r == self@.job_is_redundant(job),
    {
        match job {
            ScanJob::Children(index, _) => {
                if index >= self.nodes.len() {
                    return true;
                }
                self.nodes[index].scanned || self.nodes[index].scanning || lists(
                    &self.queued,
                    index,
                ) || lists(&self.background_queued, index)
            },
            ScanJob::Summary(index, _) => {
                if index >= self.nodes.len() {
                    return true;
                }
                self.nodes[index].summarized || self.nodes[index].summarizing
                    || self.nodes[index].summary_queued || has_summary(&self.queued, index)
            },
        }
    }

    fn can_start_job(&self, priority: JobPriority) -> (r: bool)
        ensures
            r == self@.can_start(priority),
    {
        match priority {
            JobPriority::Interactive => self.stats.active_jobs < MAX_SCAN_JOBS,
            JobPriority::Background => self.stats.active_jobs == 0 && self.queued.len() == 0,
        }
    }

    fn enqueue_job(&mut self, job: ScanJob, priority: JobPriority, hit: Option<CacheHit>)
        requires
            old(self)@.is_sound(),
            priority_fits(job, priority),
        ensures
            final(self)@ == old(self)@.enqueue(job, priority, hit_model(hit)),
            final(self)@.is_sound(),
            same_tree(old(self)@.nodes, final(self)@.nodes),
            old(self)@.wf() ==> final(self)@.wf(),
    {
        proof {
            lemma_enqueue_keeps(self@, job, priority, hit_model(hit));
        }
        if self.job_is_redundant(job) {
            return;
        }
        if self.can_start_job(priority) {
            self.start_job(job, hit);
            return;
        }
        let ghost before = self@;
        match priority {
            JobPriority::Interactive => {
                self.queued.push_back(job);
            },
            JobPriority::Background => {
                if let ScanJob::Summary(index, _) = job {
                    if index < self.nodes.len() {
                        self.nodes[index].summary_queued = true;
                    }
                }
                self.background_queued.push_back(job);
            },
        }
        proof {
            assert(self@ =~= before.enqueue(job, priority, hit_model(hit)));
        }
    }

    fn remove_background_summary(&mut self, index: TreeIndex)
        ensures
            final(self)@ == old(self)@.remove_background_summary(index),
    {
        let ghost before = self@;
        let ghost jobs = self.background_queued@;
        let mut kept: VecDeque<ScanJob> = VecDeque::new();
        let mut i: usize = 0;
        proof {
            reveal(Seq::filter);
            assert(jobs.take(0) =~= Seq::empty());
        }
        while i < self.background_queued.len()
            invariant
                self@ == before,
                self.background_queued@ == jobs,
                i <= jobs.len(),
                kept@ == without_summary_of(jobs.take(i as int), index),
            decreases jobs.len() - i,
        {
            let job = self.background_queued[i];
            proof {
                reveal(Seq::filter);
                assert(jobs.take(i as int + 1).drop_last() =~= jobs.take(i as int));
                assert(jobs.take(i as int + 1).last() == job);
            }
            let matches = match job {
                ScanJob::Summary(target, _) => target == index,
                ScanJob::Children(_, _) => false,
            };
            if !matches {
                kept.push_back(job);
            }
            i = i + 1;
        }
        proof {
            assert(jobs.take(jobs.len() as int) =~= jobs);
        }
        let removed = kept.len() != self.background_queued.len();
        self.background_queued = kept;
        if removed && index < self.nodes.len() {
            self.nodes[index].summary_queued = false;
        }
        proof {
            assert(self@ =~= before.remove_background_summary(index));
        }
    }

    /// Makes sure that the children of a directory are listed, now or soon. A
    /// summary of it that waits in the background is dropped.
    pub fn ensure_scanned(&mut self, index: TreeIndex, options: ScanOptions)
        requires
            old(self).wf(),
        ensures
            final(self)@ == old(self)@.ensure_scanned(index, options),
            final(self).wf(),
    {
        proof {
            lemma_ensure_scanned_keeps(self@, index, options);
            lemma_remove_background_keeps(self@, index);
            law_requests_add_no_background_work(self@, index, options);
        }
        self.remove_background_summary(index);
        if index < self.nodes.len() {
            if self.nodes[index].is_dir && !self.nodes[index].scanned
                && !self.nodes[index].scanning {
                self.enqueue_job(
                    ScanJob::Children(index, options),
                    JobPriority::Interactive,
                    None,
                );
            }
        }
    }

    fn pressing_jobs(&self) -> (r: usize)
        requires
            self@.has_bounded_jobs(),
        ensures
            self@.pressing_jobs() <= usize::MAX ==> r == self@.pressing_jobs(),
            self@.pressing_jobs() > usize::MAX ==> r == usize::MAX,
    {
        self.stats.active_jobs.saturating_add(self.queued.len())
    }

    /// Lists the children of a directory ahead of need, while there is room.
    pub fn prefetch_children(&mut self, index: TreeIndex, options: ScanOptions)
        requires
            old(self).wf(),
        ensures
            final(self)@ == if old(self)@.has(index) {
                old(self)@.prefetch(old(self)@.nodes[index as int].children, options)
            } else {
                old(self)@
            },
            final(self).wf(),
    {
        if index >= self.nodes.len() {
            return;
        }
        let children: Vec<TreeIndex> = self.nodes[index].children.clone();
        let ghost all = self@.nodes[index as int].children;
        let ghost expected = self@.prefetch(all, options);
        let mut i: usize = 0;
        proof {
            assert(children@ =~= all);
            assert(all.skip(0) =~= all);
        }
        while i < children.len() && self.pressing_jobs() < MAX_SCAN_JOBS
            invariant
                self.wf(),
                children@ == all,
                i <= all.len(),
                expected == self@.prefetch(all.skip(i as int), options),
            decreases all.len() - i,
        {
            proof {
                assert(all.skip(i as int).skip(1) =~= all.skip(i as int + 1));
                assert(all.skip(i as int)[0] == children@[i as int]);
            }
            self.ensure_scanned(children[i], options);
            i = i + 1;
        }
    }

    fn child_scan_is_known_or_pending(&self, index: TreeIndex) -> (r: bool)
        ensures
            r == self@.is_known_or_pending(index),
    {
        if index >= self.nodes.len() {
            return true;
        }
        self.nodes[index].scanned || self.nodes[index].scanning || lists(&self.queued, index)
    }

    fn sized_children_of(&self, index: TreeIndex) -> (r: Vec<SizedChild>)
        requires
            self@.has(index),
        ensures
            r@ == sized_children(self@.nodes, self@.nodes[index as int].children),
    {
        let ghost all = self@.nodes[index as int].children;
        let mut found: Vec<SizedChild> = Vec::new();
        let mut i: usize = 0;
        while i < self.nodes[index as usize].children.len()
            invariant
                index < self.nodes@.len(),
                all == self.nodes@[index as int].children@,
                i <= all.len(),
                found@ == sized_children(self@.nodes, all.take(i as int)),
            decreases all.len() - i,
        {
            let child: TreeIndex = self.nodes[index].children[i];
            proof {
                assert(all.take(i as int + 1).drop_last() =~= all.take(i as int));
                assert(all.take(i as int + 1).last() == child);
            }
            if child < self.nodes.len() {
                found.push(SizedChild { index: child, size: self.nodes[child].size });
            }
            i = i + 1;
        }
        proof {
            assert(all.take(all.len() as int) =~= all);
        }
        found
    }

    fn warm_children(
        &mut self,
        children: &Vec<SizedChild>,
        options: ScanOptions,
        limit: usize,
    ) -> (scheduled: usize)
        requires
            old(self).wf(),
        ensures
            (final(self)@, scheduled as int) == old(self)@.warm_children(
                children@,
                options,
                limit as int,
            ),
            final(self).wf(),
            scheduled == final(self)@.pressing_jobs() - old(self)@.pressing_jobs(),
            scheduled > 0 ==> final(self)@.pressing_jobs() <= MAX_SCAN_JOBS,
    {
        let ghost start = self@;
        let ghost all = children@;
        let ghost expected = self@.warm_children(all, options, limit as int);
        let mut scheduled: usize = 0;
        let mut i: usize = 0;
        proof {
            assert(all.skip(0) =~= all);
        }
        while i < children.len() && scheduled < limit && self.pressing_jobs() < MAX_SCAN_JOBS
            invariant
                self.wf(),
                children@ == all,
                i <= all.len(),
                scheduled <= limit,
                scheduled == self@.pressing_jobs() - start.pressing_jobs(),
                scheduled > 0 ==> self@.pressing_jobs() <= MAX_SCAN_JOBS,
                ({
                    let rest = self@.warm_children(
                        all.skip(i as int),
                        options,
                        limit - scheduled,
                    );
                    expected == (rest.0, scheduled + rest.1)
                }),
            decreases all.len() - i,
        {
            let child: TreeIndex = children[i].index;
            proof {
                assert(all.skip(i as int).skip(1) =~= all.skip(i as int + 1));
                assert(all.skip(i as int)[0] == children@[i as int]);
            }
            i = i + 1;
            if !self.child_scan_is_known_or_pending(child) {
                let before: usize = self.pressing_jobs();
                proof {
                    lemma_ensure_scanned_keeps(self@, child, options);
                }
                self.ensure_scanned(child, options);
                let after: usize = self.pressing_jobs();
                if after > before {
                    scheduled = scheduled + 1;
                }
            }
        }
        scheduled
    }

    fn warm_parent(
        &mut self,
        parent: TreeIndex,
        options: ScanOptions,
        limit: usize,
    ) -> (scheduled: usize)
        requires
            old(self).wf(),
        ensures
            (final(self)@, scheduled as int) == old(self)@.warm_parent(
                parent,
                options,
                limit as int,
            ),
            final(self).wf(),
            scheduled == final(self)@.pressing_jobs() - old(self)@.pressing_jobs(),
            scheduled > 0 ==> final(self)@.pressing_jobs() <= MAX_SCAN_JOBS,
    {
        if parent < self.nodes.len() {
            let children: Vec<SizedChild> = stable_sort(self.sized_children_of(parent));
            self.warm_children(&children, options, limit)
        } else {
            0
        }
    }

    /// Lists the largest children of the given directories ahead of need, at
    /// most so many for each of them, while there is room. Returns how many
    /// jobs this has added.
    pub fn warm_visible_children(
        &mut self,
        parents: &[TreeIndex],
        options: ScanOptions,
        per_parent_limit: usize,
    ) -> (scheduled: usize)
        requires
            old(self).wf(),
        ensures
            (final(self)@, scheduled as int) == old(self)@.warm_visible(
                parents@,
                options,
                per_parent_limit as int,
            ),
            final(self).wf(),
    {
        let ghost start = self@;
        let ghost all = parents@;
        let ghost expected = self@.warm_visible(all, options, per_parent_limit as int);
        if per_parent_limit == 0 {
            proof {
                lemma_warm_nothing(start, all, options);
            }
            return 0;
        }
        let mut scheduled: usize = 0;
        let mut i: usize = 0;
        proof {
            assert(all.skip(0) =~= all);
        }
        while i < parents.len() && self.pressing_jobs() < MAX_SCAN_JOBS
            invariant
                self.wf(),
                parents@ == all,
                i <= all.len(),
                scheduled == self@.pressing_jobs() - start.pressing_jobs(),
                scheduled > 0 ==> self@.pressing_jobs() <= MAX_SCAN_JOBS,
                start.pressing_jobs() >= 0,
                ({
                    let rest = self@.warm_visible(
                        all.skip(i as int),
                        options,
                        per_parent_limit as int,
                    );
                    expected == (rest.0, scheduled + rest.1)
                }),
            decreases all.len() - i,
        {
            let parent: TreeIndex = parents[i];
            proof {
                assert(all.skip(i as int).skip(1) =~= all.skip(i as int + 1));
                assert(all.skip(i as int)[0] == parents@[i as int]);
            }
            i = i + 1;
            let added: usize = self.warm_parent(parent, options, per_parent_limit);
            scheduled = scheduled + added;
        }
        scheduled
    }

    fn start_queued_jobs(
        &mut self,
        probes: &HashMap<TreeIndex, MetadataFingerprint>,
        cache: &SummaryCache,
        now: Timestamp,
    )
        requires
            old(self)@.is_sound(),
        ensures
            final(self)@ == old(self)@.start_waiting(probes@, cache@, now),
            final(self)@.is_sound(),
            same_tree(old(self)@.nodes, final(self)@.nodes),
            old(self)@.wf() ==> final(self)@.wf(),
    {
        broadcast use vstd::std_specs::hash::group_hash_axioms;

        let ghost start = self@;
        let ghost expected = self@.start_interactive();
        proof {
            lemma_start_waiting_keeps(start, probes@, cache@, now);
        }
        while self.stats.active_jobs < MAX_SCAN_JOBS && self.queued.len() > 0
            invariant
                self@.is_sound(),
                expected == self@.start_interactive(),
            decreases self.queued@.len(),
        {
            let ghost before = self@;
            proof {
                lemma_pop_queued(before);
                assert(before.queued[0] is Children);
                lemma_start_job_keeps(
                    ScanModel { queued: before.queued.skip(1), ..before },
                    before.queued[0],
                    None,
                );
            }
            let job: ScanJob = self.queued.pop_front().unwrap();
            proof {
                assert(self@ =~= ScanModel { queued: before.queued.skip(1), ..before });
            }
            self.start_job(job, None);
        }
        if self.stats.active_jobs == 0 && self.background_queued.len() > 0 {
            let ghost before = self@;
            let job: ScanJob = self.background_queued.pop_front().unwrap();
            proof {
                assert(self@ =~= ScanModel { background: before.background.skip(1), ..before });
                lemma_pop_background(before);
            }
            let hit: Option<CacheHit> = self.recall_for(job, probes, cache, now);
            self.start_job(job, hit);
        }
    }

    fn recall_for(
        &self,
        job: ScanJob,
        probes: &HashMap<TreeIndex, MetadataFingerprint>,
        cache: &SummaryCache,
        now: Timestamp,
    ) -> (r: Option<CacheHit>)
        ensures
            hit_model(r) == self@.recalled_for(job, probes@, cache@, now),
    {
        broadcast use vstd::std_specs::hash::group_hash_axioms;

        match job {
            ScanJob::Children(_, _) => None,
            ScanJob::Summary(index, options) => {
                if index >= self.nodes.len() {
                    return None;
                }
                let fingerprint: Option<MetadataFingerprint> = match probes.get(&index) {
                    Some(known) => Some(*known),
                    None => None,
                };
                recall(cache, &self.nodes[index].path, options, fingerprint, now)
            },
        }
    }

    fn background_summaries_for_parent(&self, parent: TreeIndex) -> (r: usize)
        requires
            self@.has(parent),
        ensures
            r == count_estimating(self@.nodes, self@.nodes[parent as int].children),
            estimates_are_bounded(self@) ==> r <= BACKGROUND_SUMMARIES_PER_LEVEL,
    {
        let ghost all = self@.nodes[parent as int].children;
        let mut count: usize = 0;
        let mut i: usize = 0;
        while i < self.nodes[parent].children.len()
            invariant
                parent < self.nodes@.len(),
                all == self.nodes@[parent as int].children@,
                i <= all.len(),
                count <= i,
                count == count_estimating(self@.nodes, all.take(i as int)),
            decreases all.len() - i,
        {
            let child: TreeIndex = self.nodes[parent].children[i];
            proof {
                assert(all.take(i as int + 1).drop_last() =~= all.take(i as int));
                assert(all.take(i as int + 1).last() == child);
            }
            i = i + 1;
            if child < self.nodes.len() {
                if self.nodes[child].is_dir && (self.nodes[child].summarizing
                    || self.nodes[child].summary_queued) {
                    count = count + 1;
                }
            }
        }
        proof {
            assert(all.take(all.len() as int) =~= all);
        }
        count
    }

    fn finish_one_job(&mut self)
        requires
            old(self)@.has_bounded_jobs(),
        ensures
            final(self)@ == (ScanModel {
                stats: StatsModel {
                    active_jobs: one_job_less(old(self)@.stats.active_jobs),
                    ..old(self)@.stats
                },
                ..old(self)@
            }),
    {
        let ghost before = self@;
        self.stats.active_jobs = self.stats.active_jobs.saturating_sub(1);
        proof {
            assert(self@ =~= ScanModel {
                stats: StatsModel {
                    active_jobs: one_job_less(before.stats.active_jobs),
                    ..before.stats
                },
                ..before
            });
        }
    }

    fn count_work(&mut self, entries_traversed: u64, io_errors: u64, samples: Vec<IoErrorSample>)
        ensures
            final(self)@ == (ScanModel {
                stats: StatsModel {
                    entries_traversed: old(self)@.stats.entries_traversed.wrapping_add(
                        entries_traversed,
                    ),
                    io_errors: old(self)@.stats.io_errors.wrapping_add(io_errors),
                    error_samples: kept_samples(
                        old(self)@.stats.error_samples,
                        sample_models(samples@),
                    ),
                    ..old(self)@.stats
                },
                ..old(self)@
            }),
    {
        let ghost before = self@;
        self.stats.entries_traversed = self.stats.entries_traversed.wrapping_add(
            entries_traversed,
        );
        self.stats.io_errors = self.stats.io_errors.wrapping_add(io_errors);
        append_error_samples(&mut self.stats.error_samples, samples);
    }

    /// Adds the children of a batch as nodes, and returns their sizes, added up.
    fn add_children(
        &mut self,
        parent: TreeIndex,
        children: Vec<ScannedEntry>,
        child_probes: &Vec<Option<MetadataFingerprint>>,
        options: ScanOptions,
        probes: &mut HashMap<TreeIndex, MetadataFingerprint>,
        cache: &SummaryCache,
        now: Timestamp,
    ) -> (batch_size: u128)
        requires
            old(self)@.is_sound(),
            old(self)@.has(parent),
        ensures
            ({
                let batch = (BatchModel {
                    scan: old(self)@,
                    probes: old(probes)@,
                    background: count_estimating(
                        old(self)@.nodes,
                        old(self)@.nodes[parent as int].children,
                    ),
                    size: 0,
                }).with_children(
                    parent,
                    scanned_models(children@),
                    child_probes@,
                    options,
                    cache@,
                    now,
                );
                &&& batch.scan == final(self)@
                &&& batch.probes == final(probes)@
                &&& batch.size == batch_size
            }),
            final(self)@.is_sound(),
            final(self)@.nodes.len() == old(self)@.nodes.len() + children@.len(),
            continues(old(self)@.nodes, final(self)@.nodes, parent),
    {
        broadcast use vstd::std_specs::hash::group_hash_axioms;

        let ghost start = self@;
        let ghost found = scanned_models(children@);
        let base: usize = self.nodes.len();
        let mut background: usize = self.background_summaries_for_parent(parent);
        let mut batch_size: u128 = 0;
        let ghost first = BatchModel {
            scan: start,
            probes: probes@,
            background: background as int,
            size: 0,
        };
        let mut i: usize = 0;
        proof {
            assert(found.take(0) =~= Seq::empty());
        }
        for child in iter: children
            invariant
                i == iter.index(),
                i <= found.len(),
                found == scanned_models(iter.seq()),
                start.has(parent),
                first.scan == start,
                base == start.nodes.len(),
                self@.is_sound(),
                continues(start.nodes, self@.nodes, parent),
                self@.nodes.len() == base + i,
                (BatchModel {
                    scan: self@,
                    probes: probes@,
                    background: background as int,
                    size: batch_size,
                }) == first.with_children(
                    parent,
                    found.take(i as int),
                    child_probes@,
                    options,
                    cache@,
                    now,
                ),
        {
            let ghost before = BatchModel {
                scan: self@,
                probes: probes@,
                background: background as int,
                size: batch_size,
            };
            let ghost entry = child@;
            let index: TreeIndex = self.nodes.len();
            let is_dir: bool = child.is_dir;
            let probe: Option<MetadataFingerprint> = if i < child_probes.len() {
                child_probes[i]
            } else {
                None
            };
            let hit: Option<CacheHit> = if is_dir {
                recall(cache, &child.path, options, probe, now)
            } else {
                None
            };
            let (size, entry_count, metadata_error, entries_seen, fresh): (
                u128,
                Option<u64>,
                bool,
                u64,
                bool,
            ) = match &hit {
                Some(known) => (
                    known.summary.size,
                    Some(known.summary.entry_count),
                    known.summary.metadata_error,
                    known.summary.entries_seen,
                    known.fresh,
                ),
                None => (child.size, child.entry_count, false, 0, false),
            };
            batch_size = batch_size.wrapping_add(size);
            self.nodes.push(
                Node {
                    name: child.name,
                    path: child.path,
                    size,
                    modified: child.modified,
                    is_dir,
                    entry_count,
                    metadata_error: child.metadata_error || metadata_error,
                    parent: Some(parent),
                    children: Vec::new(),
                    boundary_dev: child.boundary_dev,
                    scanned: false,
                    scanning: false,
                    summarized: !is_dir || fresh,
                    summary_queued: false,
                    summarizing: false,
                    summary_entries_seen: entries_seen,
                },
            );
            proof {
                assert(self.nodes.len() <= usize::MAX);
                assert(entry == found[i as int]);
                assert(found.take(i as int + 1).drop_last() =~= found.take(i as int));
                assert(found.take(i as int + 1).last() == entry);
                assert(self@ =~= ScanModel {
                    nodes: before.scan.nodes.push(found_node(parent, entry, hit_model(hit))),
                    ..before.scan
                });
                lemma_with_child_keeps(before, parent, entry, probe, options, cache@, now);
                lemma_grown_keeps(before.scan, parent, entry, hit_model(hit));
            }
            if is_dir && !fresh && background < BACKGROUND_SUMMARIES_PER_LEVEL {
                self.enqueue_job(ScanJob::Summary(index, options), JobPriority::Background, hit);
                background = background + 1;
            }
            if is_dir {
                if let Some(known) = probe {
                    probes.insert(index, known);
                }
            }
            i = i + 1;
            proof {
                let after = BatchModel {
                    scan: self@,
                    probes: probes@,
                    background: background as int,
                    size: batch_size,
                };
                assert(after =~= before.with_child(
                    parent,
                    entry,
                    probe,
                    options,
                    cache@,
                    now,
                ));
                assert(continues(start.nodes, self@.nodes, parent)) by {
                    assert forall|k: int|
                        #![trigger self@.nodes[k]]
                        0 <= k < start.nodes.len() implies start.nodes[k].parent
                        == self@.nodes[k].parent && start.nodes[k].children
                        == self@.nodes[k].children by {
                        assert(before.scan.nodes[k].parent == start.nodes[k].parent);
                    }
                    assert forall|k: int|
                        #![trigger self@.nodes[k]]
                        start.nodes.len() <= k < self@.nodes.len() implies self@.nodes[k].parent
                        == Some(parent) && self@.nodes[k].children.len() == 0 by {
                        if k < before.scan.nodes.len() {
                            assert(before.scan.nodes[k].parent == Some(parent));
                        }
                    }
                }
            }
        }
        proof {
            assert(found.take(found.len() as int) =~= found);
        }
        batch_size
    }

    /// Makes the nodes from `first` on children of a node, whose size they change.
    fn link_children(
        &mut self,
        parent: TreeIndex,
        first: usize,
        batch_size: u128,
        done: bool,
    )
        requires
            old(self)@.is_tree(),
            old(self)@.has(parent),
            first <= old(self)@.nodes.len(),
        ensures
            final(self)@ == (ScanModel {
                nodes: old(self)@.with_batch(
                    parent,
                    first as int,
                    old(self)@.nodes.len() - first,
                    batch_size,
                    done,
                ),
                ..old(self)@
            }),
    {
        let ghost batch = self@;
        let ghost at = parent as int;
        let count: usize = self.nodes.len() - first;
        let mut child_indices: Vec<TreeIndex> = Vec::new();
        let mut index: usize = first;
        while index < self.nodes.len()
            invariant
                first <= index <= self.nodes@.len(),
                child_indices@ == Seq::new((index - first) as nat, |k: int| (first + k) as usize),
            decreases self.nodes@.len() - index,
        {
            child_indices.push(index);
            index = index + 1;
            proof {
                assert(child_indices@ =~= Seq::new(
                    (index - first) as nat,
                    |k: int| (first + k) as usize,
                ));
            }
        }
        let ghost added = child_indices@;
        let update_size: bool = !self.nodes[parent].summarized;
        let old_size: u128 = self.nodes[parent].size;
        let first_batch: bool = self.nodes[parent].children.len() == 0;
        self.nodes[parent].children.append(&mut child_indices);
        self.nodes[parent].scanned = done;
        self.nodes[parent].scanning = !done;
        if update_size {
            self.nodes[parent].size = if first_batch {
                batch_size
            } else {
                old_size.saturating_add(batch_size)
            };
            let known: u64 = match self.nodes[parent].entry_count {
                Some(known) => known,
                None => 0,
            };
            self.nodes[parent].entry_count = Some(known.saturating_add(count as u64));
        }
        let new_size: u128 = self.nodes[parent].size;
        let ghost changed = self@.nodes[at];
        proof {
            assert(changed.children =~= batch.nodes[at].children + added);
            assert(self@ =~= batch.with_node(parent, changed));
        }
        self.propagate_size_delta(parent, old_size, new_size);
    }

    fn integrate_children_batch(
        &mut self,
        parent: TreeIndex,
        children: Vec<ScannedEntry>,
        child_probes: &Vec<Option<MetadataFingerprint>>,
        options: ScanOptions,
        stats: ScanStats,
        done: bool,
        probes: &mut HashMap<TreeIndex, MetadataFingerprint>,
        cache: &SummaryCache,
        now: Timestamp,
    )
        requires
            old(self)@.wf(),
        ensures
            (final(self)@, final(probes)@) == old(self)@.integrate_children(
                parent,
                scanned_models(children@),
                child_probes@,
                options,
                stats@,
                done,
                old(probes)@,
                cache@,
                now,
            ),
            final(self)@.wf(),
            old(self)@.has(parent) ==> old(self)@.nodes.len() + children@.len() <= usize::MAX,
    {
        let ghost start = self@;
        let ghost known = probes@;
        let ghost found = scanned_models(children@);
        if parent >= self.nodes.len() {
            if done {
                self.finish_one_job();
            }
            proof {
                lemma_same_tree(start, self@);
                lemma_same_marks(start, self@);
            }
            return;
        }
        let first: usize = self.nodes.len();
        let batch_size: u128 = self.add_children(
            parent,
            children,
            child_probes,
            options,
            probes,
            cache,
            now,
        );
        self.link_children(parent, first, batch_size, done);
        self.count_work(stats.entries_traversed, stats.io_errors, stats.error_samples);
        self.refresh_total();
        if done {
            self.finish_one_job();
        }
        proof {
            lemma_integrate_children_keeps(
                start,
                parent,
                found,
                child_probes@,
                options,
                stats@,
                done,
                known,
                cache@,
                now,
            );
        }
    }

    fn integrate_summary(
        &mut self,
        index: TreeIndex,
        options: ScanOptions,
        summary: Summary,
        probes: &HashMap<TreeIndex, MetadataFingerprint>,
        cache: &mut SummaryCache,
        now: Timestamp,
    )
        requires
            old(self)@.wf(),
        ensures
            (DrainModel { scan: final(self)@, cache: final(cache)@, probes: probes@ })
                == (DrainModel { scan: old(self)@, cache: old(cache)@, probes: probes@ }).absorb(
                (ReportModel {
                    event: EventModel::Summary { index, options, summary: summary@ },
                    child_probes: Seq::empty(),
                }),
                now,
            ),
            final(self)@.wf(),
    {
        let ghost start = self@;
        proof {
            lemma_integrate_summary_keeps(start, index, summary@);
        }
        if index >= self.nodes.len() {
            self.finish_one_job();
            return;
        }
        self.store_summary_cache(index, options, &summary, probes, cache, now);
        self.nodes[index].summarized = true;
        self.nodes[index].summarizing = false;
        let ghost marked = self@;
        proof {
            assert(marked =~= start.with_node(index, marked.nodes[index as int]));
            lemma_same_tree(start, marked);
        }
        self.store_counts(index, &summary);
        proof {
            let changed = with_counts(marked.nodes[index as int], summary@);
            assert(marked.nodes.update(index as int, changed) =~= start.nodes.update(
                index as int,
                changed,
            ));
        }
        self.count_work(summary.entries_seen, summary.io_errors, summary.error_samples);
        self.refresh_total();
        self.finish_one_job();
    }

    fn store_summary_cache(
        &self,
        index: TreeIndex,
        options: ScanOptions,
        summary: &Summary,
        probes: &HashMap<TreeIndex, MetadataFingerprint>,
        cache: &mut SummaryCache,
        now: Timestamp,
    )
        requires
            self@.has(index),
        ensures
            final(cache)@ == if probes@.contains_key(index) {
                old(cache)@.insert(
                    cache_key(self@.nodes[index as int].path, options, probes@[index]),
                    (CachedModel { summary: summary@, cached_at: now }),
                )
            } else {
                old(cache)@
            },
    {
        broadcast use vstd::std_specs::hash::group_hash_axioms;

        if let Some(fingerprint) = probes.get(&index) {
            cache.insert(&self.nodes[index].path, options, *fingerprint, summary, now);
        }
    }

    fn integrate_summary_progress(&mut self, index: TreeIndex, progress: SummaryProgress)
        requires
            old(self)@.wf(),
        ensures
            final(self)@ == old(self)@.integrate_progress(index, progress),
            final(self)@.wf(),
    {
        let ghost start = self@;
        proof {
            lemma_integrate_progress_keeps(start, index, progress);
        }
        if index >= self.nodes.len() {
            return;
        }
        if self.nodes[index].summarized {
            return;
        }
        let old_size: u128 = self.nodes[index].size;
        let is_dir: bool = self.nodes[index].is_dir;
        let new_size: u128 = if progress.size > old_size {
            progress.size
        } else {
            old_size
        };
        self.nodes[index].size = new_size;
        self.nodes[index].entry_count = if is_dir {
            Some(progress.entry_count)
        } else {
            None
        };
        self.nodes[index].summary_entries_seen = progress.entries_seen;
        let ghost changed = self@.nodes[index as int];
        proof {
            assert(self@ =~= start.with_node(index, changed));
        }
        self.propagate_size_delta(index, old_size, new_size);
        self.refresh_total();
    }

    fn is_complete(&self, index: TreeIndex) -> (r: bool)
        requires
            self@.has(index),
        ensures
            r == completes(self@.nodes, index as int),
    {
        if !self.nodes[index].is_dir || self.nodes[index].summarized
            || self.nodes[index].summarizing || !self.nodes[index].scanned {
            return false;
        }
        let ghost node = self@.nodes[index as int];
        let mut i: usize = 0;
        while i < self.nodes[index].children.len()
            invariant
                index < self.nodes@.len(),
                node == self@.nodes[index as int],
                i <= node.children.len(),
                forall|k: int|
                    0 <= k < i ==> (#[trigger] node.children[k]) < self@.nodes.len()
                        && self@.nodes[node.children[k] as int].summarized,
            decreases node.children.len() - i,
        {
            let child: TreeIndex = self.nodes[index].children[i];
            proof {
                assert(child == node.children[i as int]);
            }
            if child >= self.nodes.len() {
                return false;
            }
            if !self.nodes[child].summarized {
                return false;
            }
            i = i + 1;
        }
        true
    }

    fn mark_completed_summary_flags(&mut self)
        ensures
            final(self)@ == (ScanModel {
                nodes: with_completed(old(self)@.nodes, old(self)@.nodes.len()),
                ..old(self)@
            }),
    {
        let ghost start = self@;
        let ghost expected = with_completed(start.nodes, start.nodes.len());
        let mut index: usize = self.nodes.len();
        while index > 0
            invariant
                index <= self@.nodes.len(),
                self@ == (ScanModel { nodes: self@.nodes, ..start }),
                expected == with_completed(self@.nodes, index as nat),
            decreases index,
        {
            index = index - 1;
            let ghost before = self@;
            if self.is_complete(index) {
                self.nodes[index].summarized = true;
                proof {
                    assert(self@ =~= before.with_node(
                        index,
                        NodeModel { summarized: true, ..before.nodes[index as int] },
                    ));
                }
            }
        }
    }

    fn integrate_event(
        &mut self,
        report: ScanReport,
        probes: &mut HashMap<TreeIndex, MetadataFingerprint>,
        cache: &mut SummaryCache,
        now: Timestamp,
    )
        requires
            old(self).wf(),
        ensures
            (DrainModel { scan: final(self)@, cache: final(cache)@, probes: final(probes)@ })
                == (DrainModel {
                scan: old(self)@,
                cache: old(cache)@,
                probes: old(probes)@,
            }).integrate(report@, now),
            has_room_for(old(self)@, report@.event),
            final(self).wf(),
    {
        let ghost first = DrainModel { scan: self@, cache: cache@, probes: probes@ };
        let ghost taken = report@;
        let child_probes: Vec<Option<MetadataFingerprint>> = report.child_probes;
        match report.event {
            ScanEvent::ChildrenBatch { parent, children, options, stats, done } => {
                self.integrate_children_batch(
                    parent,
                    children,
                    &child_probes,
                    options,
                    stats,
                    done,
                    probes,
                    cache,
                    now,
                );
            },
            ScanEvent::Summary { index, options, summary } => {
                self.integrate_summary(index, options, summary, probes, cache, now);
            },
            ScanEvent::SummaryProgress { index, progress } => {
                self.integrate_summary_progress(index, progress);
            },
        }
        proof {
            lemma_integrate_estimates(first, taken, now);
        }
        self.start_queued_jobs(probes, cache, now);
    }

    /// Takes in reports of scanners, in their order, and starts what waits and
    /// has room then. `probes` holds the fingerprints of nodes as far as they
    /// are known, and those of the children in the reports are added to it.
    /// Returns whether anything was taken in; a canceled scan takes in nothing.
    pub fn drain_events(
        &mut self,
        reports: Vec<ScanReport>,
        probes: &mut HashMap<TreeIndex, MetadataFingerprint>,
        cache: &mut SummaryCache,
        now: Timestamp,
    ) -> (changed: bool)
        requires
            old(self).wf(),
        ensures
            (DrainModel { scan: final(self)@, cache: final(cache)@, probes: final(probes)@ })
                == (DrainModel {
                scan: old(self)@,
                cache: old(cache)@,
                probes: old(probes)@,
            }).drain(report_models(reports@), now),
            !old(self)@.canceled ==> has_room_for_all(
                (DrainModel { scan: old(self)@, cache: old(cache)@, probes: old(probes)@ }),
                report_models(reports@),
                now,
            ),
            changed == (!old(self)@.canceled && reports@.len() > 0),
            final(self).wf(),
    {
        let ghost start = self@;
        if self.canceled {
            self.finished = true;
            proof {
                lemma_same_tree(start, self@);
                lemma_same_marks(start, self@);
            }
            return false;
        }
        let changed = reports.len() > 0;
        let ghost all = report_models(reports@);
        let ghost first = DrainModel { scan: start, cache: cache@, probes: probes@ };
        proof {
            assert(all.take(0) =~= Seq::empty());
        }
        for report in iter: reports
            invariant
                all == report_models(iter.seq()),
                self.wf(),
                (DrainModel { scan: self@, cache: cache@, probes: probes@ })
                    == first.integrate_all(all.take(iter.index()), now),
                has_room_for_all(first, all.take(iter.index()), now),
        {
            let ghost i = iter.index();
            proof {
                assert(report@ == all[i]);
                assert(all.take(i + 1).drop_last() =~= all.take(i));
                assert(all.take(i + 1).last() == all[i]);
            }
            self.integrate_event(report, probes, cache, now);
        }
        proof {
            assert(all.take(all.len() as int) =~= all);
        }
        self.start_queued_jobs(probes, cache, now);
        let ghost before = self@;
        self.finished = self.stats.active_jobs == 0 && self.queued.len() == 0
            && self.background_queued.len() == 0;
        if self.finished {
            self.mark_completed_summary_flags();
        }
        proof {
            assert(self@ =~= before.settle());
            lemma_settle_keeps(before);
            law_background_work_per_directory_stays_bounded(first, all, now);
        }
        changed
    }

    /// Stops all work: nothing waits any more, and reports are no longer taken
    /// in.
    pub fn cancel(&mut self)
        requires
            old(self).wf(),
        ensures
            final(self)@ == old(self)@.cancel(),
            final(self).wf(),
    {
        let ghost start = self@;
        self.queued.clear();
        self.background_queued.clear();
        self.started.clear();
        let mut i: usize = 0;
        while i < self.nodes.len()
            invariant
                i <= self@.nodes.len(),
                self@.nodes.len() == start.nodes.len(),
                self@ == (ScanModel {
                    nodes: self@.nodes,
                    queued: Seq::empty(),
                    background: Seq::empty(),
                    started: Seq::empty(),
                    ..start
                }),
                forall|k: int|
                    #![trigger self@.nodes[k]]
                    0 <= k < start.nodes.len() ==> self@.nodes[k] == if k < i {
                        start.cancel().nodes[k]
                    } else {
                        start.nodes[k]
                    },
            decreases start.nodes.len() - i,
        {
            let ghost before = self@.nodes;
            proof {
                assert(before[i as int] == start.nodes[i as int]);
            }
            self.nodes[i].scanning = false;
            self.nodes[i].summary_queued = false;
            self.nodes[i].summarizing = false;
            proof {
                assert(self@.nodes =~= before.update(i as int, start.cancel().nodes[i as int]));
            }
            i = i + 1;
        }
        self.stats.active_jobs = 0;
        self.finished = true;
        self.canceled = true;
        proof {
            assert(self@ =~= start.cancel());
            lemma_cancel_keeps(start);
            law_canceling_adds_no_background_work(start);
        }
    }

    /// Hands out the jobs that have been started since the last call.
    pub fn take_started_jobs(&mut self) -> (jobs: Vec<ScanJob>)
        requires
            old(self).wf(),
        ensures
            jobs@ == old(self)@.started,
            final(self)@ == (ScanModel { started: Seq::empty(), ..old(self)@ }),
            final(self).wf(),
    {
        let ghost before = self@;
        let mut jobs: Vec<ScanJob> = Vec::new();
        jobs.append(&mut self.started);
        proof {
            assert(self@ =~= ScanModel { started: Seq::empty(), ..before });
            lemma_same_tree(before, self@);
            lemma_same_marks(before, self@);
        }
        jobs
    }

    /// How far the scan is.
    pub fn progress(&self) -> (r: ScanProgress)
        ensures
            r.active_jobs == self@.stats.active_jobs,
            r.queued_jobs == self@.queued.len(),
            r.background_jobs == self@.background.len(),
            r.entries_traversed == self@.stats.entries_traversed,
            r.io_errors == self@.stats.io_errors,
            r.finished == self@.finished,
            r.canceled == self@.canceled,
    {
        ScanProgress {
            active_jobs: self.stats.active_jobs,
            queued_jobs: self.queued.len(),
            background_jobs: self.background_queued.len(),
            entries_traversed: self.stats.entries_traversed,
            io_errors: self.stats.io_errors,
            finished: self.finished,
            canceled: self.canceled,
        }
    }

    /// How many nodes are known.
    pub fn node_count(&self) -> (r: usize)
        ensures
            r == self@.nodes.len(),
    {
        self.nodes.len()
    }

    /// The node with the given number.
    pub fn node(&self, index: TreeIndex) -> (r: Option<&Node>)
        ensures
            match r {
                Some(node) => self@.has(index) && node@ == self@.nodes[index as int],
                None => !self@.has(index),
            },
    {
        if index < self.nodes.len() {
            Some(&self.nodes[index])
        } else {
            None
        }
    }

    /// The path that is scanned.
    pub fn root(&self) -> (r: &OsPath)
        ensures
            r@ == self@.root,
    {
        &self.root
    }

    /// What the scan has counted.
    pub fn stats(&self) -> (r: &ScanStats)
        ensures
            r@ == self@.stats,
    {
        &self.stats
    }

    /// The nodes whose summaries wait in the background, at most so many of
    /// them, in the order in which they will be made.
    pub fn next_background_nodes(&self, limit: usize) -> (r: Vec<TreeIndex>)
        ensures
            r@.len() == if limit < self@.background.len() {
                limit as int
            } else {
                self@.background.len() as int
            },
            forall|i: int|
                0 <= i < r@.len() ==> #[trigger] r@[i] == job_target(self@.background[i]),
    {
        let mut found: Vec<TreeIndex> = Vec::new();
        let mut i: usize = 0;
        while i < self.background_queued.len() && i < limit
            invariant
                i <= self.background_queued@.len(),
                i <= limit,
                found@.len() == i,
                forall|k: int|
                    0 <= k < i ==> #[trigger] found@[k] == job_target(self.background_queued@[k]),
            decreases self.background_queued@.len() - i,
        {
            let target: TreeIndex = match self.background_queued[i] {
                ScanJob::Children(index, _) => index,
                ScanJob::Summary(index, _) => index,
            };
            found.push(target);
            i = i + 1;
        }
        found
    }
}

proof fn lemma_warm_nothing(m: ScanModel, parents: Seq<TreeIndex>, options: ScanOptions)
    ensures
        m.warm_visible(parents, options, 0) == (m, 0int),
    decreases parents.len(),
{
    if parents.len() > 0 {
        lemma_warm_nothing(m, parents.skip(1), options);
    }
}

} // verus!

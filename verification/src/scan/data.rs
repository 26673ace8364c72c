//! The values that scans work on and hand over.
use crate::clock::Timestamp;
use crate::paths::OsPath;
use vstd::prelude::*;

verus! {

/// The place of a node in the list of nodes of a scan.
pub type TreeIndex = usize;

/// How many scans may run at the same time.
pub const MAX_SCAN_JOBS: usize = 2;

/// The least weight in the layout of a directory whose size is not known yet.
pub const PROVISIONAL_PENDING_LAYOUT_SIZE: u128 = 1_048_576;

/// How many children of a directory are handed over at once.
pub const CHILD_BATCH_SIZE: usize = 128;

/// How many children of one directory are summarized in the background.
pub const BACKGROUND_SUMMARIES_PER_LEVEL: usize = 12;

/// After how many entries a summary reports its progress.
pub const SUMMARY_PROGRESS_INTERVAL: u64 = 1024;

/// For how many nanoseconds a remembered summary is taken as up to date.
pub const SUMMARY_CACHE_FRESH_NANOS: u128 = 5_000_000_000;

/// How many error samples are kept.
pub const MAX_ERROR_SAMPLES: usize = 8;

/// The bytes in one block of disk space.
pub const BLOCK_BYTES: u128 = 512;

/// How a scan counts.
#[derive(Debug, Clone, Copy, Hash, PartialEq, Eq, Structural)]
pub struct ScanOptions {
    /// Count the length of files instead of the disk space that they take.
    pub apparent_size: bool,
    /// Go on into other file systems that are mounted below the root.
    pub cross_filesystems: bool,
}

impl Default for ScanOptions {
    fn default() -> (r: ScanOptions)
        ensures
            r == (ScanOptions { apparent_size: false, cross_filesystems: false }),
    {
        ScanOptions { apparent_size: false, cross_filesystems: false }
    }
}

/// What the file system says of an entry.
#[derive(Debug, Clone, Copy)]
pub struct EntryMetadata {
    pub len: u64,
    pub blocks: u64,
    pub dev: u64,
    pub ino: u64,
    pub nlink: u64,
    pub is_dir: bool,
    pub modified: Timestamp,
    pub mtime: i64,
    pub mtime_nsec: i64,
    pub ctime: i64,
    pub ctime_nsec: i64,
}

/// What tells one state of an entry from another.
#[derive(Debug, Clone, Copy, Hash, PartialEq, Eq, Structural)]
pub struct MetadataFingerprint {
    pub dev: u64,
    pub ino: u64,
    pub len: u64,
    pub mtime: i64,
    pub mtime_nsec: i64,
    pub ctime: i64,
    pub ctime_nsec: i64,
}

/// The fingerprint of an entry with the given metadata.
pub open spec fn fingerprint_of(metadata: EntryMetadata) -> MetadataFingerprint {
    MetadataFingerprint {
        dev: metadata.dev,
        ino: metadata.ino,
        len: metadata.len,
        mtime: metadata.mtime,
        mtime_nsec: metadata.mtime_nsec,
        ctime: metadata.ctime,
        ctime_nsec: metadata.ctime_nsec,
    }
}

impl MetadataFingerprint {
    /// The fingerprint of an entry with the given metadata.
    pub fn from_metadata(metadata: &EntryMetadata) -> (r: MetadataFingerprint)
        ensures
            r == fingerprint_of(*metadata),
    {
        MetadataFingerprint {
            dev: metadata.dev,
            ino: metadata.ino,
            len: metadata.len,
            mtime: metadata.mtime,
            mtime_nsec: metadata.mtime_nsec,
            ctime: metadata.ctime,
            ctime_nsec: metadata.ctime_nsec,
        }
    }
}

/// The size of an entry: its length, or the disk space that it takes.
pub open spec fn entry_size(metadata: EntryMetadata, apparent_size: bool) -> int {
    if apparent_size {
        metadata.len as int
    } else {
        metadata.blocks * BLOCK_BYTES
    }
}

/// The size of an entry: its length, or the disk space that it takes.
pub fn disk_size(metadata: &EntryMetadata, apparent_size: bool) -> (r: u128)
    ensures
        r == entry_size(*metadata, apparent_size),
{
    if apparent_size {
        metadata.len as u128
    } else {
        metadata.blocks as u128 * BLOCK_BYTES
    }
}

/// One error that a scan ran into.
#[derive(Debug, Clone)]
pub struct IoErrorSample {
    pub path: OsPath,
    pub message: String,
}

/// One error that a scan ran into, as a mathematical value.
#[verifier::ext_equal]
pub struct SampleModel {
    pub path: Seq<u8>,
    pub message: Seq<char>,
}

impl View for IoErrorSample {
    type V = SampleModel;

    open spec fn view(&self) -> SampleModel {
        SampleModel { path: self.path@, message: self.message@ }
    }
}

impl IoErrorSample {
    /// An equal copy.
    pub fn duplicate(&self) -> (r: IoErrorSample)
        ensures
            r@ == self@,
    {
        IoErrorSample { path: self.path.duplicate(), message: self.message.clone() }
    }
}

/// The models of a list of error samples.
pub open spec fn sample_models(samples: Seq<IoErrorSample>) -> Seq<SampleModel> {
    samples.map_values(|sample: IoErrorSample| sample@)
}

/// An equal copy of a list of error samples.
pub fn duplicate_samples(samples: &Vec<IoErrorSample>) -> (r: Vec<IoErrorSample>)
    ensures
        sample_models(r@) == sample_models(samples@),
{
    let mut copy: Vec<IoErrorSample> = Vec::new();
    let mut i: usize = 0;
    while i < samples.len()
        invariant
            i <= samples@.len(),
            copy@.len() == i,
            forall|k: int| 0 <= k < i ==> #[trigger] copy@[k]@ == samples@[k]@,
        decreases samples@.len() - i,
    {
        copy.push(samples[i].duplicate());
        i = i + 1;
    }
    proof {
        assert(sample_models(copy@) =~= sample_models(samples@));
    }
    copy
}

/// What a scan has counted so far.
#[derive(Debug, Clone)]
pub struct ScanStats {
    pub entries_traversed: u64,
    pub io_errors: u64,
    pub total_bytes: Option<u128>,
    pub active_jobs: usize,
    pub error_samples: Vec<IoErrorSample>,
}

/// What a scan has counted so far, as a mathematical value.
#[verifier::ext_equal]
pub struct StatsModel {
    pub entries_traversed: u64,
    pub io_errors: u64,
    pub total_bytes: Option<u128>,
    pub active_jobs: int,
    pub error_samples: Seq<SampleModel>,
}

impl View for ScanStats {
    type V = StatsModel;

    open spec fn view(&self) -> StatsModel {
        StatsModel {
            entries_traversed: self.entries_traversed,
            io_errors: self.io_errors,
            total_bytes: self.total_bytes,
            active_jobs: self.active_jobs as int,
            error_samples: sample_models(self.error_samples@),
        }
    }
}

/// Nothing counted, with the given number of running scans.
pub open spec fn blank_stats(active_jobs: int) -> StatsModel {
    StatsModel {
        entries_traversed: 0,
        io_errors: 0,
        total_bytes: None,
        active_jobs,
        error_samples: Seq::empty(),
    }
}

impl Default for ScanStats {
    fn default() -> (r: ScanStats)
        ensures
            r@ == blank_stats(0),
    {
        let stats = ScanStats {
            entries_traversed: 0,
            io_errors: 0,
            total_bytes: None,
            active_jobs: 0,
            error_samples: Vec::new(),
        };
        proof {
            assert(stats@ =~= blank_stats(0));
        }
        stats
    }
}

/// What the scan of one batch of children has counted before it starts.
pub fn child_batch_stats() -> (r: ScanStats)
    ensures
        r@ == blank_stats(1),
{
    let mut stats: ScanStats = ScanStats::default();
    stats.active_jobs = 1;
    proof {
        assert(stats@ =~= blank_stats(1));
    }
    stats
}

/// The samples that are kept once `incoming` samples are added: the first
/// ones, up to the limit.
pub open spec fn kept_samples(samples: Seq<SampleModel>, incoming: Seq<SampleModel>) -> Seq<
    SampleModel,
> {
    if samples.len() >= MAX_ERROR_SAMPLES {
        samples
    } else if samples.len() + incoming.len() <= MAX_ERROR_SAMPLES {
        samples + incoming
    } else {
        samples + incoming.take(MAX_ERROR_SAMPLES - samples.len())
    }
}

/// Adds samples as long as there is room for them.
pub fn append_error_samples(samples: &mut Vec<IoErrorSample>, incoming: Vec<IoErrorSample>)
    ensures
        sample_models(final(samples)@) == kept_samples(
            sample_models(old(samples)@),
            sample_models(incoming@),
        ),
{
    let ghost start = sample_models(samples@);
    let ghost added = sample_models(incoming@);
    let mut i: usize = 0;
    proof {
        assert(start + added.take(0) =~= start);
    }
    while i < incoming.len() && samples.len() < MAX_ERROR_SAMPLES
        invariant
            i <= incoming@.len(),
            added == sample_models(incoming@),
            sample_models(samples@) == start + added.take(i as int),
            start.len() < MAX_ERROR_SAMPLES || i == 0,
            samples@.len() <= MAX_ERROR_SAMPLES || i == 0,
        decreases incoming@.len() - i,
    {
        let ghost before = sample_models(samples@);
        samples.push(incoming[i].duplicate());
        proof {
            assert(sample_models(samples@) =~= before.push(added[i as int]));
            assert(added.take(i as int + 1) =~= added.take(i as int).push(added[i as int]));
            assert((start + added.take(i as int)).push(added[i as int]) =~= start + added.take(
                i as int + 1,
            ));
            assert(sample_models(samples@).len() == samples@.len());
        }
        i = i + 1;
    }
    proof {
        assert(sample_models(samples@).len() == samples@.len());
        assert(added.len() == incoming@.len());
        assert(added.take(added.len() as int) =~= added);
    }
}

/// The samples after one more error.
pub open spec fn with_error(samples: Seq<SampleModel>, path: Seq<u8>, message: Seq<char>) -> Seq<
    SampleModel,
> {
    kept_samples(samples, seq![SampleModel { path, message }])
}

/// Counts one error and keeps it as a sample if there is room for it.
pub fn record_error_message(
    count: &mut u64,
    samples: &mut Vec<IoErrorSample>,
    path: &OsPath,
    message: String,
)
    ensures
        *final(count) == old(count).wrapping_add(1),
        sample_models(final(samples)@) == with_error(
            sample_models(old(samples)@),
            path@,
            message@,
        ),
{
    *count = count.wrapping_add(1);
    if samples.len() < MAX_ERROR_SAMPLES {
        let ghost before = sample_models(samples@);
        let ghost sample = SampleModel { path: path@, message: message@ };
        samples.push(IoErrorSample { path: path.duplicate(), message });
        proof {
            assert(sample_models(samples@) =~= before.push(sample));
            assert(before.push(sample) =~= before + seq![sample]);
        }
    }
    proof {
        assert(sample_models(old(samples)@).len() == old(samples)@.len());
    }
}

/// `std::io::Error`, of which nothing is known here.
#[verifier::external_type_specification]
#[verifier::external_body]
pub struct ExIoError(std::io::Error);

/// `ToString::to_string` of `std::io::Error`: a text for the error. The words
/// are those of the machine that it comes from, so nothing is said of them.
#[verifier::external_body]
fn io_error_text(err: &std::io::Error) -> (r: String) {
    err.to_string()
}

/// Counts one error of the file system and keeps it, with the text that the
/// system has for it, as a sample if there is room for it.
pub fn record_io_error(
    count: &mut u64,
    samples: &mut Vec<IoErrorSample>,
    path: &OsPath,
    err: std::io::Error,
)
    ensures
        *final(count) == old(count).wrapping_add(1),
        exists|message: Seq<char>|
            sample_models(final(samples)@) == #[trigger] with_error(
                sample_models(old(samples)@),
                path@,
                message,
            ),
{
    let message: String = io_error_text(&err);
    let ghost words = message@;
    let ghost before = sample_models(samples@);
    record_error_message(count, samples, path, message);
    proof {
        assert(sample_models(samples@) == with_error(before, path@, words));
    }
}

/// How far a scan is.
#[derive(Debug, Clone, Copy, PartialEq, Eq, Structural)]
pub struct ScanProgress {
    pub active_jobs: usize,
    pub queued_jobs: usize,
    pub background_jobs: usize,
    pub entries_traversed: u64,
    pub io_errors: u64,
    pub finished: bool,
    pub canceled: bool,
}

/// One entry of the directory tree.
#[derive(Debug, Clone)]
pub struct Node {
    pub name: String,
    pub path: OsPath,
    pub size: u128,
    pub modified: Timestamp,
    pub is_dir: bool,
    pub entry_count: Option<u64>,
    pub metadata_error: bool,
    pub parent: Option<TreeIndex>,
    pub children: Vec<TreeIndex>,
    pub boundary_dev: Option<u64>,
    pub scanned: bool,
    pub scanning: bool,
    pub summarized: bool,
    pub summary_queued: bool,
    pub summarizing: bool,
    pub summary_entries_seen: u64,
}

/// One entry of the directory tree, as a mathematical value.
#[verifier::ext_equal]
pub struct NodeModel {
    pub name: Seq<char>,
    pub path: Seq<u8>,
    pub size: u128,
    pub modified: Timestamp,
    pub is_dir: bool,
    pub entry_count: Option<u64>,
    pub metadata_error: bool,
    pub parent: Option<TreeIndex>,
    pub children: Seq<TreeIndex>,
    pub boundary_dev: Option<u64>,
    pub scanned: bool,
    pub scanning: bool,
    pub summarized: bool,
    pub summary_queued: bool,
    pub summarizing: bool,
    pub summary_entries_seen: u64,
}

impl View for Node {
    type V = NodeModel;

    open spec fn view(&self) -> NodeModel {
        NodeModel {
            name: self.name@,
            path: self.path@,
            size: self.size,
            modified: self.modified,
            is_dir: self.is_dir,
            entry_count: self.entry_count,
            metadata_error: self.metadata_error,
            parent: self.parent,
            children: self.children@,
            boundary_dev: self.boundary_dev,
            scanned: self.scanned,
            scanning: self.scanning,
            summarized: self.summarized,
            summary_queued: self.summary_queued,
            summarizing: self.summarizing,
            summary_entries_seen: self.summary_entries_seen,
        }
    }
}

/// The models of a list of nodes.
pub open spec fn node_models(nodes: Seq<Node>) -> Seq<NodeModel> {
    nodes.map_values(|node: Node| node@)
}

/// Work for a scanner.
#[derive(Debug, Clone, Copy, PartialEq, Eq, Structural)]
pub enum ScanJob {
    /// List the children of a node.
    Children(TreeIndex, ScanOptions),
    /// Add up everything below a node.
    Summary(TreeIndex, ScanOptions),
}

/// Whether somebody waits for a job.
#[derive(Debug, Clone, Copy, PartialEq, Eq, Structural)]
pub enum JobPriority {
    Interactive,
    Background,
}

/// An entry that a scan of a directory has found.
#[derive(Debug)]
pub struct ScannedEntry {
    pub name: String,
    pub path: OsPath,
    pub size: u128,
    pub modified: Timestamp,
    pub is_dir: bool,
    pub entry_count: Option<u64>,
    pub metadata_error: bool,
    pub boundary_dev: Option<u64>,
}

/// An entry that a scan of a directory has found, as a mathematical value.
#[verifier::ext_equal]
pub struct ScannedModel {
    pub name: Seq<char>,
    pub path: Seq<u8>,
    pub size: u128,
    pub modified: Timestamp,
    pub is_dir: bool,
    pub entry_count: Option<u64>,
    pub metadata_error: bool,
    pub boundary_dev: Option<u64>,
}

impl View for ScannedEntry {
    type V = ScannedModel;

    open spec fn view(&self) -> ScannedModel {
        ScannedModel {
            name: self.name@,
            path: self.path@,
            size: self.size,
            modified: self.modified,
            is_dir: self.is_dir,
            entry_count: self.entry_count,
            metadata_error: self.metadata_error,
            boundary_dev: self.boundary_dev,
        }
    }
}

/// The models of a list of found entries.
pub open spec fn scanned_models(entries: Seq<ScannedEntry>) -> Seq<ScannedModel> {
    entries.map_values(|entry: ScannedEntry| entry@)
}

/// Everything below a node, added up.
#[derive(Debug, Clone)]
pub struct Summary {
    pub size: u128,
    pub entry_count: u64,
    pub entries_seen: u64,
    pub io_errors: u64,
    pub error_samples: Vec<IoErrorSample>,
    pub metadata_error: bool,
}

/// Everything below a node, added up, as a mathematical value.
#[verifier::ext_equal]
pub struct SummaryModel {
    pub size: u128,
    pub entry_count: u64,
    pub entries_seen: u64,
    pub io_errors: u64,
    pub error_samples: Seq<SampleModel>,
    pub metadata_error: bool,
}

impl View for Summary {
    type V = SummaryModel;

    open spec fn view(&self) -> SummaryModel {
        SummaryModel {
            size: self.size,
            entry_count: self.entry_count,
            entries_seen: self.entries_seen,
            io_errors: self.io_errors,
            error_samples: sample_models(self.error_samples@),
            metadata_error: self.metadata_error,
        }
    }
}

impl Summary {
    /// An equal copy.
    pub fn duplicate(&self) -> (r: Summary)
        ensures
            r@ == self@,
    {
        Summary {
            size: self.size,
            entry_count: self.entry_count,
            entries_seen: self.entries_seen,
            io_errors: self.io_errors,
            error_samples: duplicate_samples(&self.error_samples),
            metadata_error: self.metadata_error,
        }
    }
}

/// What a summary has added up so far.
#[derive(Debug, Clone, Copy, PartialEq, Eq, Structural)]
pub struct SummaryProgress {
    pub size: u128,
    pub entry_count: u64,
    pub entries_seen: u64,
}

/// What a scanner reports.
#[derive(Debug)]
pub enum ScanEvent {
    /// Some children of a node; the last batch is `done`.
    ChildrenBatch {
        parent: TreeIndex,
        children: Vec<ScannedEntry>,
        options: ScanOptions,
        stats: ScanStats,
        done: bool,
    },
    /// Everything below a node.
    Summary { index: TreeIndex, options: ScanOptions, summary: Summary },
    /// What a running summary has added up so far.
    SummaryProgress { index: TreeIndex, progress: SummaryProgress },
}

/// What a scanner reports, as a mathematical value.
#[verifier::ext_equal]
pub enum EventModel {
    ChildrenBatch {
        parent: TreeIndex,
        children: Seq<ScannedModel>,
        options: ScanOptions,
        stats: StatsModel,
        done: bool,
    },
    Summary { index: TreeIndex, options: ScanOptions, summary: SummaryModel },
    SummaryProgress { index: TreeIndex, progress: SummaryProgress },
}

impl View for ScanEvent {
    type V = EventModel;

    open spec fn view(&self) -> EventModel {
        match *self {
            ScanEvent::ChildrenBatch { parent, children, options, stats, done } =>
                EventModel::ChildrenBatch {
                parent,
                children: scanned_models(children@),
                options,
                stats: stats@,
                done,
            },
            ScanEvent::Summary { index, options, summary } => EventModel::Summary {
                index,
                options,
                summary: summary@,
            },
            ScanEvent::SummaryProgress { index, progress } => EventModel::SummaryProgress {
                index,
                progress,
            },
        }
    }
}

/// How far the scan of a directory is.
#[derive(Debug, Clone, Copy, PartialEq, Eq, Structural)]
pub enum DirectoryScanState {
    NotDirectory,
    Pending,
    Scanning,
    Estimating,
    Scanned,
}

/// An entry counts with its length, or with 512 bytes for each block that it takes
/// on the disk.
pub proof fn law_entries_count_with_their_length_or_their_blocks(metadata: EntryMetadata)
    ensures
        entry_size(metadata, true) == metadata.len,
        entry_size(metadata, false) == metadata.blocks * 512,
        0 <= entry_size(metadata, true) <= u128::MAX,
        0 <= entry_size(metadata, false) <= u128::MAX,
{
}

/// Two states of entries have the same fingerprint if and only if they agree in
/// device, number, length and both times; nothing else counts.
pub proof fn law_fingerprints_tell_states_apart(one: EntryMetadata, two: EntryMetadata)
    ensures
        fingerprint_of(one) == fingerprint_of(two) <==> {
            &&& one.dev == two.dev
            &&& one.ino == two.ino
            &&& one.len == two.len
            &&& one.mtime == two.mtime
            &&& one.mtime_nsec == two.mtime_nsec
            &&& one.ctime == two.ctime
            &&& one.ctime_nsec == two.ctime_nsec
        },
{
}

/// Of all errors the first eight are kept, in their order; what was kept stays.
pub proof fn law_the_first_errors_are_kept(
    samples: Seq<SampleModel>,
    incoming: Seq<SampleModel>,
    path: Seq<u8>,
    message: Seq<char>,
)
    requires
        samples.len() <= 8,
    ensures
        ({
            let all = samples + incoming;
            let kept = kept_samples(samples, incoming);
            &&& kept.len() == if all.len() <= 8 {
                all.len() as int
            } else {
                8
            }
            &&& kept == all.take(kept.len() as int)
        }),
        samples.len() < 8 ==> with_error(samples, path, message) == samples.push(
            SampleModel { path, message },
        ),
        samples.len() == 8 ==> with_error(samples, path, message) == samples,
{
    let all = samples + incoming;
    let kept = kept_samples(samples, incoming);
    assert(kept =~= all.take(kept.len() as int));
    let error = SampleModel { path, message };
    if samples.len() < 8 {
        assert(samples + seq![error] =~= samples.push(error));
    }
}

/// Nothing has been counted at first.
pub proof fn law_counting_begins_with_nothing(active_jobs: int)
    ensures
        blank_stats(active_jobs).entries_traversed == 0,
        blank_stats(active_jobs).io_errors == 0,
        blank_stats(active_jobs).total_bytes is None,
        blank_stats(active_jobs).error_samples.len() == 0,
        blank_stats(active_jobs).active_jobs == active_jobs,
{
}

} // verus!

//! Adding up everything below a directory.
use crate::paths::OsPath;
use crate::scan::data::{
    disk_size, entry_size, record_error_message, with_error, EntryMetadata,
    EventModel, IoErrorSample, SampleModel, ScanEvent, ScanOptions, Summary, SummaryModel,
    SummaryProgress, TreeIndex, SUMMARY_PROGRESS_INTERVAL,
};
use crate::scan::level::event_model;
use std::collections::HashSet;
use vstd::prelude::*;

verus! {

/// One more than the largest number of 64 bits.
pub const FILE_ID_STRIDE: u128 = 0x1_0000_0000_0000_0000;

/// What tells one file from another, whatever it is called: its device and its
/// number there, in one number.
pub open spec fn file_id(dev: u64, ino: u64) -> int {
    dev * FILE_ID_STRIDE + ino
}

/// Two files have the same number only if device and number are the same.
pub proof fn law_file_ids_tell_files_apart(dev: u64, ino: u64, other_dev: u64, other_ino: u64)
    ensures
        0 <= file_id(dev, ino) <= u128::MAX,
        file_id(dev, ino) == file_id(other_dev, other_ino) <==> dev == other_dev && ino
            == other_ino,
{
}

fn file_id_of(metadata: &EntryMetadata) -> (r: u128)
    ensures
        r == file_id(metadata.dev, metadata.ino),
{
    metadata.dev as u128 * FILE_ID_STRIDE + metadata.ino as u128
}

/// Whether an entry lies on another file system, and such are left out.
pub open spec fn is_out_of_bounds(
    metadata: EntryMetadata,
    root_dev: Option<u64>,
    options: ScanOptions,
) -> bool {
    !options.cross_filesystems && root_dev is Some && metadata.dev != root_dev->0
}

fn out_of_bounds(metadata: &EntryMetadata, root_dev: Option<u64>, options: ScanOptions) -> (r: bool)
    ensures
        r == is_out_of_bounds(*metadata, root_dev, options),
{
    match root_dev {
        Some(dev) => !options.cross_filesystems && metadata.dev != dev,
        None => false,
    }
}

/// Whether a walk goes on into an entry: not into a directory of another file
/// system, where such are left out.
pub fn descends_into(
    is_dir: bool,
    metadata: &EntryMetadata,
    root_dev: Option<u64>,
    options: ScanOptions,
) -> (r: bool)
    ensures
        r == !(is_dir && is_out_of_bounds(*metadata, root_dev, options)),
        r == (!is_dir || options.cross_filesystems || root_dev is None || root_dev == Some(
            metadata.dev,
        )),
{
    !(is_dir && out_of_bounds(metadata, root_dev, options))
}

/// A walk over everything below a node.
#[derive(Debug)]
pub struct SummaryWalk {
    index: TreeIndex,
    path: OsPath,
    root_dev: Option<u64>,
    options: ScanOptions,
    summary: Summary,
    visited: HashSet<u128>,
}

/// A walk over everything below a node, as a mathematical value.
#[verifier::ext_equal]
pub struct WalkModel {
    pub index: TreeIndex,
    pub path: Seq<u8>,
    pub root_dev: Option<u64>,
    pub options: ScanOptions,
    pub summary: SummaryModel,
    /// The files with several names that have been counted.
    pub visited: Set<u128>,
}

impl View for SummaryWalk {
    type V = WalkModel;

    closed spec fn view(&self) -> WalkModel {
        WalkModel {
            index: self.index,
            path: self.path@,
            root_dev: self.root_dev,
            options: self.options,
            summary: self.summary@,
            visited: self.visited@,
        }
    }
}

/// A summary after one more error.
pub open spec fn summary_with_error(
    summary: SummaryModel,
    path: Seq<u8>,
    message: Seq<char>,
) -> SummaryModel {
    SummaryModel {
        io_errors: summary.io_errors.wrapping_add(1),
        error_samples: with_error(summary.error_samples, path, message),
        metadata_error: true,
        ..summary
    }
}

/// A summary of nothing.
pub open spec fn blank_summary() -> SummaryModel {
    SummaryModel {
        size: 0,
        entry_count: 0,
        entries_seen: 0,
        io_errors: 0,
        error_samples: Seq::empty(),
        metadata_error: false,
    }
}

/// What a walk learns of the metadata of an entry.
#[verifier::ext_equal]
pub enum MetadataModel {
    /// It was not asked for.
    Unknown,
    Known(EntryMetadata),
    Failed(SampleModel),
}

/// What a walk learns of the metadata of an entry.
#[derive(Debug)]
pub enum VisitedMetadata {
    /// It was not asked for.
    Unknown,
    Known(EntryMetadata),
    Failed(IoErrorSample),
}

impl View for VisitedMetadata {
    type V = MetadataModel;

    open spec fn view(&self) -> MetadataModel {
        match *self {
            VisitedMetadata::Unknown => MetadataModel::Unknown,
            VisitedMetadata::Known(metadata) => MetadataModel::Known(metadata),
            VisitedMetadata::Failed(sample) => MetadataModel::Failed(sample@),
        }
    }
}

/// The model of an error that there may be.
pub open spec fn sample_model(sample: Option<IoErrorSample>) -> Option<SampleModel> {
    match sample {
        Some(known) => Some(known@),
        None => None,
    }
}

impl WalkModel {
    /// The walk from an entry with the given metadata, which is counted first.
    pub open spec fn first(
        index: TreeIndex,
        path: Seq<u8>,
        metadata: EntryMetadata,
        root_dev: Option<u64>,
        options: ScanOptions,
    ) -> WalkModel {
        WalkModel {
            index,
            path,
            root_dev,
            options,
            summary: SummaryModel {
                size: entry_size(metadata, options.apparent_size) as u128,
                entry_count: 1,
                entries_seen: 1,
                ..blank_summary()
            },
            visited: if metadata.nlink > 1 {
                Set::empty().insert(file_id(metadata.dev, metadata.ino) as u128)
            } else {
                Set::empty()
            },
        }
    }

    /// An error has been met.
    pub open spec fn failed(self, path: Seq<u8>, message: Seq<char>) -> WalkModel {
        WalkModel { summary: summary_with_error(self.summary, path, message), ..self }
    }

    /// One entry more has been seen.
    pub open spec fn seen(self) -> WalkModel {
        WalkModel {
            summary: SummaryModel {
                entries_seen: self.summary.entries_seen.wrapping_add(1),
                ..self.summary
            },
            ..self
        }
    }

    /// Whether an entry counts: it lies on a file system that is walked, and it
    /// is not another name of a file that has been counted.
    pub open spec fn counts(self, metadata: EntryMetadata) -> bool {
        &&& !is_out_of_bounds(metadata, self.root_dev, self.options)
        &&& metadata.nlink > 1 ==> !self.visited.contains(
            file_id(metadata.dev, metadata.ino) as u128,
        )
    }

    /// An entry that counts is counted.
    pub open spec fn counted(self, metadata: EntryMetadata) -> WalkModel {
        if self.counts(metadata) {
            WalkModel {
                summary: SummaryModel {
                    size: self.summary.size.wrapping_add(
                        entry_size(metadata, self.options.apparent_size) as u128,
                    ),
                    entry_count: self.summary.entry_count.wrapping_add(1),
                    ..self.summary
                },
                visited: if metadata.nlink > 1 {
                    self.visited.insert(file_id(metadata.dev, metadata.ino) as u128)
                } else {
                    self.visited
                },
                ..self
            }
        } else {
            self
        }
    }

    /// What the walk has added up so far, where it is time to report it.
    pub open spec fn due_progress(self) -> Option<EventModel> {
        if self.summary.entries_seen % SUMMARY_PROGRESS_INTERVAL == 0 {
            Some(
                EventModel::SummaryProgress {
                    index: self.index,
                    progress: SummaryProgress {
                        size: self.summary.size,
                        entry_count: self.summary.entry_count,
                        entries_seen: self.summary.entries_seen,
                    },
                },
            )
        } else {
            None
        }
    }

    /// The walk after an entry, and the progress to report then.
    pub open spec fn visit(
        self,
        children_error: Option<SampleModel>,
        metadata: MetadataModel,
    ) -> (WalkModel, Option<EventModel>) {
        let seen = self.seen();
        let entered = match children_error {
            Some(sample) => seen.failed(sample.path, sample.message),
            None => seen,
        };
        match metadata {
            MetadataModel::Unknown => (entered, None),
            MetadataModel::Failed(sample) => (
                entered.failed(sample.path, sample.message),
                None,
            ),
            MetadataModel::Known(known) => {
                let after = entered.counted(known);
                (
                    after,
                    if entered.counts(known) {
                        after.due_progress()
                    } else {
                        None
                    },
                )
            },
        }
    }
}

impl Summary {
    /// The summary of a path whose metadata cannot be read.
    pub fn unreadable(path: &OsPath, message: String) -> (r: Summary)
        ensures
            r@ == summary_with_error(blank_summary(), path@, message@),
    {
        let mut summary = Summary {
            size: 0,
            entry_count: 0,
            entries_seen: 0,
            io_errors: 0,
            error_samples: Vec::new(),
            metadata_error: true,
        };
        proof {
            assert(summary@.error_samples =~= Seq::empty());
        }
        record_error_message(&mut summary.io_errors, &mut summary.error_samples, path, message);
        proof {
            assert(summary@ =~= summary_with_error(blank_summary(), path@, message@));
        }
        summary
    }
}

impl SummaryWalk {
    /// Begins a walk from an entry with the given metadata. The second part of
    /// the result says whether there is anything to walk over: the entry is a
    /// directory on a file system that is walked.
    pub fn begin(
        index: TreeIndex,
        path: OsPath,
        metadata: &EntryMetadata,
        root_dev: Option<u64>,
        options: ScanOptions,
    ) -> (r: (SummaryWalk, bool))
        ensures
            ({
                let outside = is_out_of_bounds(*metadata, root_dev, options);
                let first = WalkModel::first(index, path@, *metadata, root_dev, options);
                &&& r.1 == (metadata.is_dir && !outside)
                &&& r.0@ == if outside {
                    WalkModel { visited: Set::empty(), ..first }
                } else {
                    first
                }
            }),
    {
        broadcast use vstd::std_specs::hash::group_hash_axioms;

        let summary = Summary {
            size: disk_size(metadata, options.apparent_size),
            entry_count: 1,
            entries_seen: 1,
            io_errors: 0,
            error_samples: Vec::new(),
            metadata_error: false,
        };
        proof {
            assert(summary@.error_samples =~= Seq::empty());
        }
        let mut walk = SummaryWalk {
            index,
            path,
            root_dev,
            options,
            summary,
            visited: HashSet::new(),
        };
        if out_of_bounds(metadata, root_dev, options) {
            proof {
                let first = WalkModel::first(index, path@, *metadata, root_dev, options);
                assert(walk@ =~= WalkModel { visited: Set::empty(), ..first });
            }
            return (walk, false);
        }
        if metadata.nlink > 1 {
            walk.visited.insert(file_id_of(metadata));
        }
        proof {
            assert(walk@ =~= WalkModel::first(index, path@, *metadata, root_dev, options));
        }
        (walk, metadata.is_dir)
    }

    fn fail(&mut self, path: &OsPath, message: String)
        ensures
            final(self)@ == old(self)@.failed(path@, message@),
    {
        let ghost before = self@;
        record_error_message(
            &mut self.summary.io_errors,
            &mut self.summary.error_samples,
            path,
            message,
        );
        self.summary.metadata_error = true;
        proof {
            assert(self@ =~= before.failed(path@, message@));
        }
    }

    fn see(&mut self)
        ensures
            final(self)@ == old(self)@.seen(),
    {
        let ghost before = self@;
        self.summary.entries_seen = self.summary.entries_seen.wrapping_add(1);
        proof {
            assert(self@ =~= before.seen());
        }
    }

    /// The walk could not begin.
    pub fn walk_failed(&mut self, message: String)
        ensures
            final(self)@ == old(self)@.failed(old(self)@.path, message@),
    {
        let path: OsPath = self.path.duplicate();
        self.fail(&path, message);
    }

    /// An entry could not be read.
    pub fn entry_failed(&mut self, message: String)
        ensures
            final(self)@ == old(self)@.seen().failed(old(self)@.path, message@),
    {
        self.see();
        let path: OsPath = self.path.duplicate();
        self.fail(&path, message);
    }

    fn count(&mut self, metadata: &EntryMetadata) -> (r: bool)
        ensures
            final(self)@ == old(self)@.counted(*metadata),
            r == old(self)@.counts(*metadata),
    {
        broadcast use vstd::std_specs::hash::group_hash_axioms;

        let ghost before = self@;
        proof {
            law_file_ids_tell_files_apart(metadata.dev, metadata.ino, 0, 0);
        }
        if out_of_bounds(metadata, self.root_dev, self.options) {
            return false;
        }
        if metadata.nlink > 1 {
            let is_new: bool = self.visited.insert(file_id_of(metadata));
            if !is_new {
                proof {
                    assert(self@ =~= before);
                }
                return false;
            }
        }
        self.summary.size = self.summary.size.wrapping_add(
            disk_size(metadata, self.options.apparent_size),
        );
        self.summary.entry_count = self.summary.entry_count.wrapping_add(1);
        proof {
            assert(self@ =~= before.counted(*metadata));
        }
        true
    }

    /// Takes in an entry: the error that stood in the way of its children, if
    /// there was one, and its metadata. Returns the progress when it is time to
    /// report it.
    pub fn visit(
        &mut self,
        children_error: Option<IoErrorSample>,
        metadata: VisitedMetadata,
    ) -> (r: Option<ScanEvent>)
        ensures
            (final(self)@, event_model(r)) == old(self)@.visit(
                sample_model(children_error),
                metadata@,
            ),
    {
        self.see();
        if let Some(sample) = children_error {
            self.fail(&sample.path, sample.message);
        }
        match metadata {
            VisitedMetadata::Unknown => None,
            VisitedMetadata::Failed(sample) => {
                self.fail(&sample.path, sample.message);
                None
            },
            VisitedMetadata::Known(known) => {
                if self.count(&known) {
                    self.progress_if_due()
                } else {
                    None
                }
            },
        }
    }

    fn progress_if_due(&self) -> (r: Option<ScanEvent>)
        ensures
            event_model(r) == self@.due_progress(),
    {
        if self.summary.entries_seen % SUMMARY_PROGRESS_INTERVAL != 0 {
            return None;
        }
        Some(
            ScanEvent::SummaryProgress {
                index: self.index,
                progress: SummaryProgress {
                    size: self.summary.size,
                    entry_count: self.summary.entry_count,
                    entries_seen: self.summary.entries_seen,
                },
            },
        )
    }

    /// What the walk has added up.
    pub fn into_summary(self) -> (r: Summary)
        ensures
            r@ == self@.summary,
    {
        self.summary
    }
}

/// A walk after entries with the given metadata.
pub open spec fn after_entries(walk: WalkModel, entries: Seq<EntryMetadata>) -> WalkModel
    decreases entries.len(),
{
    if entries.len() == 0 {
        walk
    } else {
        after_entries(walk, entries.drop_last()).visit(
            None,
            MetadataModel::Known(entries.last()),
        ).0
    }
}

/// Whether the entry at a place is the first name of its file among those that
/// are walked over, and lies on a file system that is walked.
pub open spec fn is_first_name(walk: WalkModel, entries: Seq<EntryMetadata>, place: int) -> bool {
    let entry = entries[place];
    &&& !is_out_of_bounds(entry, walk.root_dev, walk.options)
    &&& entry.nlink > 1 ==> {
        &&& !walk.visited.contains(file_id(entry.dev, entry.ino) as u128)
        &&& forall|earlier: int|
            0 <= earlier < place ==> !({
                let other = #[trigger] entries[earlier];
                &&& other.nlink > 1
                &&& other.dev == entry.dev
                &&& other.ino == entry.ino
                &&& !is_out_of_bounds(other, walk.root_dev, walk.options)
            })
    }
}

/// The sizes of the first names among the first `count` entries, added up.
pub open spec fn size_of_first_names(
    walk: WalkModel,
    entries: Seq<EntryMetadata>,
    count: int,
) -> int
    decreases count,
{
    if count <= 0 {
        0
    } else {
        size_of_first_names(walk, entries, count - 1) + if is_first_name(
            walk,
            entries,
            count - 1,
        ) {
            entry_size(entries[count - 1], walk.options.apparent_size)
        } else {
            0
        }
    }
}

/// How many of the first `count` entries are first names.
pub open spec fn number_of_first_names(
    walk: WalkModel,
    entries: Seq<EntryMetadata>,
    count: int,
) -> int
    decreases count,
{
    if count <= 0 {
        0
    } else {
        number_of_first_names(walk, entries, count - 1) + if is_first_name(
            walk,
            entries,
            count - 1,
        ) {
            1int
        } else {
            0int
        }
    }
}

/// A file with several names is counted once, for the first of them; every
/// other entry on the file systems that are walked is counted once too. So the
/// size grows by the sizes of the first names, as long as it can hold the sum,
/// and the number of entries by the number of first names, while every entry
/// counts as seen.
pub proof fn law_every_file_is_counted_once(walk: WalkModel, entries: Seq<EntryMetadata>)
    requires
        walk.summary.size + size_of_first_names(walk, entries, entries.len() as int) <= u128::MAX,
        walk.summary.entry_count + number_of_first_names(walk, entries, entries.len() as int)
            <= u64::MAX,
        walk.summary.entries_seen + entries.len() <= u64::MAX,
    ensures
        after_entries(walk, entries).summary.size == walk.summary.size + size_of_first_names(
            walk,
            entries,
            entries.len() as int,
        ),
        after_entries(walk, entries).summary.entry_count == walk.summary.entry_count
            + number_of_first_names(walk, entries, entries.len() as int),
        after_entries(walk, entries).summary.entries_seen == walk.summary.entries_seen
            + entries.len(),
{
    lemma_counted_once(walk, entries, entries.len() as int);
    assert(entries.take(entries.len() as int) =~= entries);
}

proof fn lemma_counted_once(walk: WalkModel, entries: Seq<EntryMetadata>, count: int)
    requires
        0 <= count <= entries.len(),
        walk.summary.size + size_of_first_names(walk, entries, count) <= u128::MAX,
        walk.summary.entry_count + number_of_first_names(walk, entries, count) <= u64::MAX,
        walk.summary.entries_seen + count <= u64::MAX,
    ensures
        ({
            let after = after_entries(walk, entries.take(count));
            &&& after.summary.entry_count == walk.summary.entry_count + number_of_first_names(
                walk,
                entries,
                count,
            )
            &&& after.summary.entries_seen == walk.summary.entries_seen + count
            &&& size_of_first_names(walk, entries, count) >= 0
            &&& after.summary.size == walk.summary.size + size_of_first_names(
                walk,
                entries,
                count,
            )
            &&& after.root_dev == walk.root_dev
            &&& after.options == walk.options
            &&& forall|id: u128| #[trigger]
                after.visited.contains(id) <==> walk.visited.contains(id) || exists|place: int|
                    0 <= place < count && (#[trigger] entries[place]).nlink > 1
                        && !is_out_of_bounds(entries[place], walk.root_dev, walk.options)
                        && file_id(entries[place].dev, entries[place].ino) == id
        }),
    decreases count,
{
    if count > 0 {
        let place = count - 1;
        let entry = entries[place];
        let id = file_id(entry.dev, entry.ino) as u128;
        lemma_size_grows(walk, entries, place);
        lemma_counted_once(walk, entries, place);
        let before = after_entries(walk, entries.take(place));
        let after = after_entries(walk, entries.take(count));
        assert(entries.take(count).drop_last() =~= entries.take(place));
        assert(entries.take(count).last() == entry);
        assert(after == before.visit(None, MetadataModel::Known(entry)).0);
        law_file_ids_tell_files_apart(entry.dev, entry.ino, 0, 0);
        assert(before.counts(entry) == is_first_name(walk, entries, place)) by {
            assert forall|earlier: int| 0 <= earlier < place implies (file_id(
                (#[trigger] entries[earlier]).dev,
                entries[earlier].ino,
            ) == id <==> entries[earlier].dev == entry.dev && entries[earlier].ino
                == entry.ino) by {
                law_file_ids_tell_files_apart(
                    entries[earlier].dev,
                    entries[earlier].ino,
                    entry.dev,
                    entry.ino,
                );
            }
        }
        assert forall|other: u128| #[trigger]
            after.visited.contains(other) <==> walk.visited.contains(other) || exists|at: int|
                0 <= at < count && (#[trigger] entries[at]).nlink > 1 && !is_out_of_bounds(
                    entries[at],
                    walk.root_dev,
                    walk.options,
                ) && file_id(entries[at].dev, entries[at].ino) == other by {
            assert(before.visited.contains(other) <==> walk.visited.contains(other)
                || exists|at: int|
                0 <= at < place && (#[trigger] entries[at]).nlink > 1 && !is_out_of_bounds(
                    entries[at],
                    walk.root_dev,
                    walk.options,
                ) && file_id(entries[at].dev, entries[at].ino) == other);
            if entry.nlink > 1 && !is_out_of_bounds(entry, walk.root_dev, walk.options) && other
                == id {
                assert(entries[place].nlink > 1);
                assert(after.visited.contains(other));
            }
        }
    }
}

proof fn lemma_size_grows(walk: WalkModel, entries: Seq<EntryMetadata>, place: int)
    requires
        0 <= place < entries.len(),
    ensures
        0 <= size_of_first_names(walk, entries, place) <= size_of_first_names(
            walk,
            entries,
            place + 1,
        ),
        0 <= number_of_first_names(walk, entries, place) <= number_of_first_names(
            walk,
            entries,
            place + 1,
        ),
    decreases place,
{
    if place > 0 {
        lemma_size_grows(walk, entries, place - 1);
    }
}

/// A name of a file that has been counted already changes nothing but the
/// number of entries that were seen.
pub proof fn law_another_name_adds_nothing(walk: WalkModel, metadata: EntryMetadata)
    requires
        metadata.nlink > 1,
        walk.visited.contains(file_id(metadata.dev, metadata.ino) as u128),
    ensures
        walk.visit(None, MetadataModel::Known(metadata)).0 == walk.seen(),
{
}

/// Where walks keep to the file system of the root, an entry on another device counts
/// nothing but as seen, and a directory there is not gone into. An entry on the same
/// device is never refused for its device, and none is where walks go on into other
/// file systems, or the device of the root is not known.
pub proof fn law_walks_keep_to_the_device_of_the_root(walk: WalkModel, metadata: EntryMetadata)
    ensures
        ({
            let after = walk.visit(None, MetadataModel::Known(metadata)).0;
            let new_name = metadata.nlink <= 1 || !walk.visited.contains(
                (metadata.dev * 0x1_0000_0000_0000_0000 + metadata.ino) as u128,
            );
            let elsewhere = !walk.options.cross_filesystems && walk.root_dev is Some
                && walk.root_dev != Some(metadata.dev);
            &&& elsewhere ==> {
                &&& after.summary.size == walk.summary.size
                &&& after.summary.entry_count == walk.summary.entry_count
                &&& after.visited == walk.visited
                &&& walk.visit(None, MetadataModel::Known(metadata)).1 is None
                &&& is_out_of_bounds(metadata, walk.root_dev, walk.options)
            }
            &&& !elsewhere ==> !is_out_of_bounds(metadata, walk.root_dev, walk.options)
            &&& !elsewhere && new_name ==> {
                &&& after.summary.entry_count == walk.summary.entry_count.wrapping_add(1)
                &&& after.summary.size == walk.summary.size.wrapping_add(
                    (if walk.options.apparent_size {
                        metadata.len as int
                    } else {
                        metadata.blocks * 512
                    }) as u128,
                )
            }
            &&& !new_name ==> after.summary.size == walk.summary.size && after.summary.entry_count
                == walk.summary.entry_count
            &&& after.summary.entries_seen == walk.summary.entries_seen.wrapping_add(1)
            &&& after.summary.io_errors == walk.summary.io_errors
            &&& after.summary.metadata_error == walk.summary.metadata_error
            &&& after.index == walk.index
            &&& after.path == walk.path
            &&& after.options == walk.options
            &&& after.root_dev == walk.root_dev
        }),
{
}

/// A file with several names is remembered from the first of them on, by its device
/// and number: no later name of it counts, and no other file is kept from counting.
pub proof fn law_only_later_names_are_left_out(
    walk: WalkModel,
    first: EntryMetadata,
    later: EntryMetadata,
)
    requires
        first.nlink > 1,
        later.nlink > 1,
        walk.options.cross_filesystems,
    ensures
        ({
            let after = walk.visit(None, MetadataModel::Known(first)).0;
            let then = after.visit(None, MetadataModel::Known(later)).0;
            let same = first.dev == later.dev && first.ino == later.ino;
            &&& same ==> then.summary.entry_count == after.summary.entry_count
                && then.summary.size == after.summary.size
            &&& !same ==> then.summary.entry_count.wrapping_sub(after.summary.entry_count)
                == walk.visit(
                None,
                MetadataModel::Known(later),
            ).0.summary.entry_count.wrapping_sub(walk.summary.entry_count)
        }),
{
    law_file_ids_tell_files_apart(first.dev, first.ino, later.dev, later.ino);
}

/// Errors are counted and kept with their paths, and say that something is missing.
/// An entry whose metadata is not known or not to be had counts as seen only.
pub proof fn law_errors_of_a_walk_are_counted(
    walk: WalkModel,
    path: Seq<u8>,
    message: Seq<char>,
)
    ensures
        ({
            let failed = walk.failed(path, message);
            &&& failed.summary.io_errors == walk.summary.io_errors.wrapping_add(1)
            &&& failed.summary.metadata_error
            &&& failed.summary.error_samples == with_error(
                walk.summary.error_samples,
                path,
                message,
            )
            &&& failed.summary.size == walk.summary.size
            &&& failed.summary.entry_count == walk.summary.entry_count
            &&& failed.summary.entries_seen == walk.summary.entries_seen
            &&& failed.visited == walk.visited
            &&& walk.visit(None, MetadataModel::Unknown) == (walk.seen(), None::<EventModel>)
            &&& walk.visit(None, MetadataModel::Failed(SampleModel { path, message })) == (
                walk.seen().failed(path, message),
                None::<EventModel>,
            )
            &&& walk.visit(Some(SampleModel { path, message }), MetadataModel::Unknown) == (
                walk.seen().failed(path, message),
                None::<EventModel>,
            )
            &&& walk.seen() == (WalkModel {
                summary: SummaryModel {
                    entries_seen: walk.summary.entries_seen.wrapping_add(1),
                    ..walk.summary
                },
                ..walk
            })
        }),
{
}

/// An error that stood in the way of the children of an entry is counted beside the
/// entry itself.
pub proof fn law_an_entry_counts_beside_its_error(
    walk: WalkModel,
    sample: SampleModel,
    metadata: EntryMetadata,
)
    ensures
        ({
            let with_error = walk.visit(Some(sample), MetadataModel::Known(metadata)).0.summary;
            let without = walk.visit(None, MetadataModel::Known(metadata)).0.summary;
            &&& with_error.size == without.size
            &&& with_error.entry_count == without.entry_count
            &&& with_error.entries_seen == without.entries_seen
            &&& with_error.io_errors == walk.summary.io_errors.wrapping_add(1)
        }),
{
}

/// Progress is reported after each 1024 entries that were seen, when one of them
/// counts, and says what has been added up.
pub proof fn law_progress_is_what_was_added_up(walk: WalkModel, metadata: EntryMetadata)
    requires
        walk.options.cross_filesystems,
        metadata.nlink <= 1,
    ensures
        ({
            let (after, event) = walk.visit(None, MetadataModel::Known(metadata));
            &&& event is Some <==> after.summary.entries_seen % 1024 == 0
            &&& event is Some ==> event->0 == (EventModel::SummaryProgress {
                index: walk.index,
                progress: SummaryProgress {
                    size: after.summary.size,
                    entry_count: after.summary.entry_count,
                    entries_seen: after.summary.entries_seen,
                },
            })
        }),
{
}

/// A walk begins with the entry that it starts from: counted once, and remembered by
/// its device and number if it has several names.
pub proof fn law_a_walk_begins_with_its_own_entry(
    index: TreeIndex,
    path: Seq<u8>,
    metadata: EntryMetadata,
    root_dev: Option<u64>,
    options: ScanOptions,
)
    ensures
        ({
            let first = WalkModel::first(index, path, metadata, root_dev, options);
            &&& first.index == index
            &&& first.path == path
            &&& first.root_dev == root_dev
            &&& first.options == options
            &&& first.summary.size == if options.apparent_size {
                metadata.len as int
            } else {
                metadata.blocks * 512
            }
            &&& first.summary.entry_count == 1
            &&& first.summary.entries_seen == 1
            &&& first.summary.io_errors == 0
            &&& first.summary.error_samples.len() == 0
            &&& !first.summary.metadata_error
            &&& forall|id: u128| #[trigger]
                first.visited.contains(id) <==> metadata.nlink > 1 && id == metadata.dev
                    * 0x1_0000_0000_0000_0000 + metadata.ino
        }),
{
}

/// The summary of what cannot be read counts one error and nothing else.
pub proof fn law_what_cannot_be_read_counts_one_error(path: Seq<u8>, message: Seq<char>)
    ensures
        ({
            let summary = summary_with_error(blank_summary(), path, message);
            &&& summary.size == 0
            &&& summary.entry_count == 0
            &&& summary.entries_seen == 0
            &&& summary.io_errors == 1
            &&& summary.metadata_error
            &&& summary.error_samples == seq![SampleModel { path, message }]
        }),
{
    assert(Seq::<SampleModel>::empty() + seq![SampleModel { path, message }] =~= seq![
        SampleModel { path, message },
    ]);
}

} // verus!

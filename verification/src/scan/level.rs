//! Listing the children of one directory.
use crate::clock::Timestamp;
use crate::paths::OsPath;
use crate::scan::data::{
    blank_stats, child_batch_stats, disk_size, entry_size, record_error_message, scanned_models,
    with_error, EntryMetadata, EventModel, ScanEvent, ScanOptions, ScanStats, ScannedEntry,
    ScannedModel, StatsModel, TreeIndex, CHILD_BATCH_SIZE,
};
use crate::text::{lossy_text, text_of_bytes};
use vstd::prelude::*;

verus! {

/// The listing of a directory that is under way: the children that have been
/// found and not been handed over yet, and what has been counted since the last
/// batch.
#[derive(Debug)]
pub struct LevelScan {
    parent: TreeIndex,
    path: OsPath,
    options: ScanOptions,
    root_dev: Option<u64>,
    children: Vec<ScannedEntry>,
    stats: ScanStats,
}

/// The listing of a directory that is under way, as a mathematical value.
#[verifier::ext_equal]
pub struct LevelModel {
    pub parent: TreeIndex,
    pub path: Seq<u8>,
    pub options: ScanOptions,
    pub root_dev: Option<u64>,
    pub children: Seq<ScannedModel>,
    pub stats: StatsModel,
}

impl View for LevelScan {
    type V = LevelModel;

    closed spec fn view(&self) -> LevelModel {
        LevelModel {
            parent: self.parent,
            path: self.path@,
            options: self.options,
            root_dev: self.root_dev,
            children: scanned_models(self.children@),
            stats: self.stats@,
        }
    }
}

/// One thing that reading a directory can bring.
#[verifier::ext_equal]
pub enum LevelItem {
    /// An entry could not be read.
    Unreadable(Seq<char>),
    /// An entry with its metadata.
    Entry(Seq<u8>, Seq<u8>, EntryMetadata),
    /// An entry whose metadata could not be read.
    WithoutMetadata(Seq<u8>, Seq<u8>, Seq<char>),
}

impl LevelModel {
    /// The child for an entry with metadata.
    pub open spec fn child(
        self,
        file_name: Seq<u8>,
        path: Seq<u8>,
        metadata: EntryMetadata,
    ) -> ScannedModel {
        ScannedModel {
            name: lossy_text(file_name),
            path,
            size: entry_size(metadata, self.options.apparent_size) as u128,
            modified: metadata.modified,
            is_dir: metadata.is_dir,
            entry_count: None,
            metadata_error: false,
            boundary_dev: self.root_dev,
        }
    }

    /// The child for an entry without metadata.
    pub open spec fn child_without_metadata(
        self,
        file_name: Seq<u8>,
        path: Seq<u8>,
    ) -> ScannedModel {
        ScannedModel {
            name: lossy_text(file_name),
            path,
            size: 0,
            modified: Timestamp { secs: 0, nanos: 0 },
            is_dir: false,
            entry_count: None,
            metadata_error: true,
            boundary_dev: self.root_dev,
        }
    }

    /// The report that hands over what has been found since the last one.
    pub open spec fn batch(self, done: bool) -> EventModel {
        EventModel::ChildrenBatch {
            parent: self.parent,
            children: self.children,
            options: self.options,
            stats: self.stats,
            done,
        }
    }

    /// One entry more has been seen.
    pub open spec fn counted(self) -> LevelModel {
        LevelModel {
            stats: StatsModel {
                entries_traversed: self.stats.entries_traversed.wrapping_add(1),
                ..self.stats
            },
            ..self
        }
    }

    /// An error has been met.
    pub open spec fn failed(self, path: Seq<u8>, message: Seq<char>) -> LevelModel {
        LevelModel {
            stats: StatsModel {
                io_errors: self.stats.io_errors.wrapping_add(1),
                error_samples: with_error(self.stats.error_samples, path, message),
                ..self.stats
            },
            ..self
        }
    }

    /// The listing after a child has been found, and the full batch that is to
    /// be handed over then.
    pub open spec fn with_child(self, child: ScannedModel) -> (LevelModel, Option<EventModel>) {
        let grown = LevelModel { children: self.children.push(child), ..self };
        if grown.children.len() >= CHILD_BATCH_SIZE {
            (
                LevelModel { children: Seq::empty(), stats: blank_stats(1), ..self },
                Some(grown.batch(false)),
            )
        } else {
            (grown, None)
        }
    }

    /// The listing after one more thing has been read.
    pub open spec fn step(self, item: LevelItem) -> (LevelModel, Option<EventModel>) {
        match item {
            LevelItem::Unreadable(message) => (self.counted().failed(self.path, message), None),
            LevelItem::Entry(file_name, path, metadata) => self.counted().with_child(
                self.child(file_name, path, metadata),
            ),
            LevelItem::WithoutMetadata(file_name, path, message) => self.counted().failed(
                path,
                message,
            ).with_child(self.child_without_metadata(file_name, path)),
        }
    }
}

/// The report of a batch, where there is one.
pub open spec fn event_model(event: Option<ScanEvent>) -> Option<EventModel> {
    match event {
        Some(known) => Some(known@),
        None => None,
    }
}

impl LevelScan {
    /// Fewer children wait than a batch holds.
    pub open spec fn wf(&self) -> bool {
        self@.children.len() < CHILD_BATCH_SIZE
    }

    /// Begins to list a directory. `root_dev` is the device that it is on, if
    /// that is known.
    pub fn begin(
        parent: TreeIndex,
        path: OsPath,
        options: ScanOptions,
        root_dev: Option<u64>,
    ) -> (r: LevelScan)
        ensures
            r@ == (LevelModel {
                parent,
                path: path@,
                options,
                root_dev,
                children: Seq::empty(),
                stats: blank_stats(1),
            }),
            r.wf(),
    {
        let level = LevelScan {
            parent,
            path,
            options,
            root_dev,
            children: Vec::new(),
            stats: child_batch_stats(),
        };
        proof {
            assert(level@.children =~= Seq::empty());
        }
        level
    }

    /// The directory could not be opened: the report of that, which is the last.
    pub fn open_failed(self, message: String) -> (r: ScanEvent)
        ensures
            r@ == self@.failed(self@.path, message@).batch(true),
    {
        let mut level = self;
        let path: OsPath = level.path.duplicate();
        level.fail(&path, message);
        level.finish()
    }

    fn fail(&mut self, path: &OsPath, message: String)
        ensures
            final(self)@ == old(self)@.failed(path@, message@),
    {
        let ghost before = self@;
        record_error_message(
            &mut self.stats.io_errors,
            &mut self.stats.error_samples,
            path,
            message,
        );
        proof {
            assert(self@ =~= before.failed(path@, message@));
        }
    }

    fn count_entry(&mut self)
        ensures
            final(self)@ == old(self)@.counted(),
    {
        let ghost before = self@;
        self.stats.entries_traversed = self.stats.entries_traversed.wrapping_add(1);
        proof {
            assert(self@ =~= before.counted());
        }
    }

    fn push_child(&mut self, child: ScannedEntry) -> (r: Option<ScanEvent>)
        requires
            old(self).wf(),
        ensures
            (final(self)@, event_model(r)) == old(self)@.with_child(child@),
            final(self).wf(),
    {
        let ghost before = self@;
        let ghost child_model = child@;
        self.children.push(child);
        proof {
            assert(self@ =~= LevelModel { children: before.children.push(child_model), ..before });
        }
        if self.children.len() >= CHILD_BATCH_SIZE {
            let ghost grown = self@;
            let mut batch: Vec<ScannedEntry> = Vec::new();
            batch.append(&mut self.children);
            let mut stats: ScanStats = child_batch_stats();
            std::mem::swap(&mut stats, &mut self.stats);
            let event = ScanEvent::ChildrenBatch {
                parent: self.parent,
                children: batch,
                options: self.options,
                stats,
                done: false,
            };
            proof {
                assert(event@ == grown.batch(false));
                assert(self@ =~= LevelModel {
                    children: Seq::empty(),
                    stats: blank_stats(1),
                    ..before
                });
            }
            Some(event)
        } else {
            None
        }
    }

    /// An entry of the directory could not be read.
    pub fn entry_failed(&mut self, message: String)
        requires
            old(self).wf(),
        ensures
            (final(self)@, None::<EventModel>) == old(self)@.step(
                LevelItem::Unreadable(message@),
            ),
            final(self).wf(),
    {
        self.count_entry();
        let path: OsPath = self.path.duplicate();
        self.fail(&path, message);
    }

    /// An entry of the directory has been read, with its metadata or with the
    /// words for the error that stood in the way. Returns a batch once there are
    /// children enough for one.
    pub fn entry_found(
        &mut self,
        file_name: &Vec<u8>,
        path: OsPath,
        metadata: Result<EntryMetadata, String>,
    ) -> (r: Option<ScanEvent>)
        requires
            old(self).wf(),
        ensures
            (final(self)@, event_model(r)) == old(self)@.step(
                match metadata {
                    Ok(known) => LevelItem::Entry(file_name@, path@, known),
                    Err(message) => LevelItem::WithoutMetadata(file_name@, path@, message@),
                },
            ),
            final(self).wf(),
    {
        self.count_entry();
        match metadata {
            Ok(known) => {
                let child = ScannedEntry {
                    name: text_of_bytes(file_name),
                    path,
                    size: disk_size(&known, self.options.apparent_size),
                    modified: known.modified,
                    is_dir: known.is_dir,
                    entry_count: None,
                    metadata_error: false,
                    boundary_dev: self.root_dev,
                };
                self.push_child(child)
            },
            Err(message) => {
                self.fail(&path, message);
                let child = ScannedEntry {
                    name: text_of_bytes(file_name),
                    path,
                    size: 0,
                    modified: Timestamp::epoch(),
                    is_dir: false,
                    entry_count: None,
                    metadata_error: true,
                    boundary_dev: self.root_dev,
                };
                self.push_child(child)
            },
        }
    }

    /// There is nothing more to read, or nobody wants it: the last report.
    pub fn finish(self) -> (r: ScanEvent)
        ensures
            r@ == self@.batch(true),
    {
        ScanEvent::ChildrenBatch {
            parent: self.parent,
            children: self.children,
            options: self.options,
            stats: self.stats,
            done: true,
        }
    }
}

/// The children that the items bring, in their order.
pub open spec fn all_children(level: LevelModel, items: Seq<LevelItem>) -> Seq<ScannedModel>
    decreases items.len(),
{
    if items.len() == 0 {
        Seq::empty()
    } else {
        let before = all_children(level, items.drop_last());
        match items.last() {
            LevelItem::Unreadable(_) => before,
            LevelItem::Entry(file_name, path, metadata) => before.push(
                level.child(file_name, path, metadata),
            ),
            LevelItem::WithoutMetadata(file_name, path, _) => before.push(
                level.child_without_metadata(file_name, path),
            ),
        }
    }
}

/// The listing after the items have been read, and the batches handed over on
/// the way.
pub open spec fn after_items(level: LevelModel, items: Seq<LevelItem>) -> (
    LevelModel,
    Seq<EventModel>,
)
    decreases items.len(),
{
    if items.len() == 0 {
        (level, Seq::empty())
    } else {
        let (before, events) = after_items(level, items.drop_last());
        let (after, event) = before.step(items.last());
        (
            after,
            match event {
                Some(batch) => events.push(batch),
                None => events,
            },
        )
    }
}

/// The children in a list of batches, in their order.
pub open spec fn children_of(events: Seq<EventModel>) -> Seq<ScannedModel>
    decreases events.len(),
{
    if events.len() == 0 {
        Seq::empty()
    } else {
        children_of(events.drop_last()) + match events.last() {
            EventModel::ChildrenBatch { children, .. } => children,
            _ => Seq::empty(),
        }
    }
}

/// The number of entries that a list of batches has counted.
pub open spec fn entries_in(events: Seq<EventModel>) -> int
    decreases events.len(),
{
    if events.len() == 0 {
        0
    } else {
        entries_in(events.drop_last()) + match events.last() {
            EventModel::ChildrenBatch { stats, .. } => stats.entries_traversed as int,
            _ => 0,
        }
    }
}

/// The number of errors that a list of batches has counted.
pub open spec fn errors_in(events: Seq<EventModel>) -> int
    decreases events.len(),
{
    if events.len() == 0 {
        0
    } else {
        errors_in(events.drop_last()) + match events.last() {
            EventModel::ChildrenBatch { stats, .. } => stats.io_errors as int,
            _ => 0,
        }
    }
}

/// The number of errors among the things that were read.
pub open spec fn failures_in(items: Seq<LevelItem>) -> int
    decreases items.len(),
{
    if items.len() == 0 {
        0
    } else {
        failures_in(items.drop_last()) + match items.last() {
            LevelItem::Entry(_, _, _) => 0int,
            _ => 1int,
        }
    }
}

/// Whatever a directory holds, every child is handed over once, in the order in
/// which it was read: first in full batches that are not the last, and the
/// remainder, which is less than a batch, in the last one. Every batch is about
/// the directory that was asked for, with the options that it was asked with. No
/// child comes with a count of what is below it.
pub proof fn law_batches_hand_over_every_child_once(level: LevelModel, items: Seq<LevelItem>)
    requires
        level.children.len() == 0,
    ensures
        ({
            let (after, events) = after_items(level, items);
            &&& children_of(events.push(after.batch(true))) == all_children(level, items)
            &&& after.children.len() < CHILD_BATCH_SIZE
            &&& after.parent == level.parent
            &&& after.options == level.options
            &&& forall|i: int|
                0 <= i < all_children(level, items).len() ==> (#[trigger] all_children(
                    level,
                    items,
                )[i]).entry_count is None
            &&& forall|i: int|
                0 <= i < events.len() ==> (#[trigger] events[i]) is ChildrenBatch
                    && events[i]->ChildrenBatch_parent == level.parent
                    && events[i]->ChildrenBatch_options == level.options
                    && events[i]->ChildrenBatch_children.len() == CHILD_BATCH_SIZE
                    && !events[i]->ChildrenBatch_done
        }),
{
    lemma_batches(level, items);
    lemma_children_uncounted(level, items);
    let (after, events) = after_items(level, items);
    let with_last = events.push(after.batch(true));
    assert(with_last.drop_last() =~= events);
    assert(with_last.last() == after.batch(true));
}

/// Whatever a directory holds, its batches count everything that was read in it
/// once, and every error once.
pub proof fn law_batches_count_everything_once(level: LevelModel, items: Seq<LevelItem>)
    requires
        level.stats == blank_stats(1),
        items.len() <= u64::MAX,
    ensures
        ({
            let (after, events) = after_items(level, items);
            let all = events.push(after.batch(true));
            &&& entries_in(all) == items.len()
            &&& errors_in(all) == failures_in(items)
        }),
{
    lemma_counts(level, items);
    let (after, events) = after_items(level, items);
    let with_last = events.push(after.batch(true));
    assert(with_last.drop_last() =~= events);
    assert(with_last.last() == after.batch(true));
}

proof fn lemma_counts(level: LevelModel, items: Seq<LevelItem>)
    requires
        level.stats == blank_stats(1),
        items.len() <= u64::MAX,
    ensures
        ({
            let (after, events) = after_items(level, items);
            &&& entries_in(events) + after.stats.entries_traversed == items.len()
            &&& errors_in(events) + after.stats.io_errors == failures_in(items)
            &&& entries_in(events) >= 0
            &&& errors_in(events) >= 0
            &&& failures_in(items) <= items.len()
        }),
    decreases items.len(),
{
    if items.len() > 0 {
        lemma_counts(level, items.drop_last());
        let (before, events) = after_items(level, items.drop_last());
        let (after, event) = before.step(items.last());
        if let Some(batch) = event {
            assert(events.push(batch).drop_last() =~= events);
        }
    }
}

proof fn lemma_children_uncounted(level: LevelModel, items: Seq<LevelItem>)
    ensures
        forall|i: int|
            0 <= i < all_children(level, items).len() ==> (#[trigger] all_children(
                level,
                items,
            )[i]).entry_count is None,
    decreases items.len(),
{
    if items.len() > 0 {
        lemma_children_uncounted(level, items.drop_last());
    }
}

proof fn lemma_batches(level: LevelModel, items: Seq<LevelItem>)
    requires
        level.children.len() == 0,
    ensures
        ({
            let (after, events) = after_items(level, items);
            &&& children_of(events) + after.children == all_children(level, items)
            &&& after.children.len() < CHILD_BATCH_SIZE
            &&& after.parent == level.parent
            &&& after.options == level.options
            &&& after.root_dev == level.root_dev
            &&& forall|i: int|
                0 <= i < events.len() ==> (#[trigger] events[i]) is ChildrenBatch
                    && events[i]->ChildrenBatch_parent == level.parent
                    && events[i]->ChildrenBatch_options == level.options
                    && events[i]->ChildrenBatch_children.len() == CHILD_BATCH_SIZE
                    && !events[i]->ChildrenBatch_done
        }),
    decreases items.len(),
{
    if items.len() == 0 {
        assert(level.children =~= Seq::empty());
    } else {
        lemma_batches(level, items.drop_last());
        let (before, events) = after_items(level, items.drop_last());
        let (after, event) = before.step(items.last());
        let all = all_children(level, items.drop_last());
        if !(items.last() is Unreadable) {
            let child = match items.last() {
                LevelItem::Entry(file_name, path, metadata) => level.child(
                    file_name,
                    path,
                    metadata,
                ),
                LevelItem::WithoutMetadata(file_name, path, _) => level.child_without_metadata(
                    file_name,
                    path,
                ),
                LevelItem::Unreadable(_) => arbitrary(),
            };
            if let Some(batch) = event {
                assert(events.push(batch).drop_last() =~= events);
                assert(children_of(events.push(batch)) + after.children =~= all.push(child));
            } else {
                assert(children_of(events) + after.children =~= all.push(child));
            }
        }
    }
}

/// A child is what was read: its name as text, its path, the length or the disk space
/// of the entry, its time and its kind. Without metadata it is an empty file that says
/// so.
pub proof fn law_children_are_what_was_read(
    level: LevelModel,
    file_name: Seq<u8>,
    path: Seq<u8>,
    metadata: EntryMetadata,
)
    ensures
        ({
            let child = level.child(file_name, path, metadata);
            let bare = level.child_without_metadata(file_name, path);
            &&& child.name == lossy_text(file_name)
            &&& child.path == path
            &&& child.size == if level.options.apparent_size {
                metadata.len as int
            } else {
                metadata.blocks * 512
            }
            &&& child.modified == metadata.modified
            &&& child.is_dir == metadata.is_dir
            &&& child.entry_count is None
            &&& !child.metadata_error
            &&& child.boundary_dev == level.root_dev
            &&& bare.name == lossy_text(file_name)
            &&& bare.path == path
            &&& bare.size == 0
            &&& bare.modified.total() == 0
            &&& !bare.is_dir
            &&& bare.entry_count is None
            &&& bare.metadata_error
            &&& bare.boundary_dev == level.root_dev
        }),
{
}

/// What reading brings is handed over or waits: a child joins those that wait, and
/// with the 128th of them all are handed over at once, together with what has been
/// counted; then counting begins anew.
pub proof fn law_batches_are_handed_over_when_full(level: LevelModel, item: LevelItem)
    requires
        level.children.len() < 128,
    ensures
        ({
            let (after, event) = level.step(item);
            let brought = match item {
                LevelItem::Unreadable(_) => Seq::empty(),
                LevelItem::Entry(name, path, metadata) => seq![level.child(name, path, metadata)],
                LevelItem::WithoutMetadata(name, path, _) => seq![
                    level.child_without_metadata(name, path),
                ],
            };
            let errors = level.stats.io_errors.wrapping_add(
                if item is Entry {
                    0
                } else {
                    1
                },
            );
            let seen = level.stats.entries_traversed.wrapping_add(1);
            &&& after.parent == level.parent && after.path == level.path && after.options
                == level.options && after.root_dev == level.root_dev
            &&& event is Some <==> level.children.len() == 127 && !(item is Unreadable)
            &&& event is None ==> {
                &&& after.children == level.children + brought
                &&& after.stats.entries_traversed == seen
                &&& after.stats.io_errors == errors
            }
            &&& event is Some ==> {
                &&& after.children.len() == 0
                &&& after.stats.entries_traversed == 0
                &&& after.stats.io_errors == 0
                &&& event->0 is ChildrenBatch
                &&& event->0->ChildrenBatch_parent == level.parent
                &&& event->0->ChildrenBatch_options == level.options
                &&& event->0->ChildrenBatch_children == level.children + brought
                &&& !event->0->ChildrenBatch_done
                &&& event->0->ChildrenBatch_stats.entries_traversed == seen
                &&& event->0->ChildrenBatch_stats.io_errors == errors
            }
        }),
{
    if let LevelItem::Entry(name, path, metadata) = item {
        let child = level.child(name, path, metadata);
        assert(level.children + seq![child] =~= level.children.push(child));
    }
    if let LevelItem::WithoutMetadata(name, path, _) = item {
        let child = level.child_without_metadata(name, path);
        assert(level.children + seq![child] =~= level.children.push(child));
    }
    if let LevelItem::Unreadable(_) = item {
        assert(level.children + Seq::<ScannedModel>::empty() =~= level.children);
    }
}

/// An error is kept with the path that it is about: that of the directory where an
/// entry could not be read, and that of the entry where its metadata could not.
pub proof fn law_errors_of_a_level_are_kept(
    level: LevelModel,
    name: Seq<u8>,
    path: Seq<u8>,
    message: Seq<char>,
)
    requires
        level.children.len() < 127,
    ensures
        level.step(LevelItem::Unreadable(message)).0.stats.error_samples == with_error(
            level.stats.error_samples,
            level.path,
            message,
        ),
        level.step(LevelItem::WithoutMetadata(name, path, message)).0.stats.error_samples
            == with_error(level.stats.error_samples, path, message),
        level.failed(path, message).stats.io_errors == level.stats.io_errors.wrapping_add(1),
        level.failed(path, message).stats.entries_traversed == level.stats.entries_traversed,
        level.failed(path, message).children == level.children,
        level.batch(true) == (EventModel::ChildrenBatch {
            parent: level.parent,
            children: level.children,
            options: level.options,
            stats: level.stats,
            done: true,
        }),
{
}

} // verus!

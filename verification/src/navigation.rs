//! Moving about in a scan: what is focused, selected and expanded.
use crate::clock::Timestamp;
use crate::expansion::{
    law_expanded_directories_are_kept_in_order, Expansion, ExpansionModel,
};
use crate::filters::{law_what_passes, passes, FilterEntry, Filters};
use crate::scan::data::{DirectoryScanState, ScanOptions, TreeIndex, MAX_SCAN_JOBS};
use crate::scan::keeps::lemma_ensure_scanned_keeps;
use crate::scan::listing::{
    children, directory_scan_state, entry_before, entry_models, entry_view,
    law_a_listing_is_sorted, listing, parent, scan_state, shown_node, EntryModel, EntryView,
};
use crate::scan::model::{some_job_summarizes, ScanModel};
use crate::scan::queue_laws::law_listing_ahead_stops_for_want_of_room;
use crate::scan::request_laws::{
    law_asked_children_come_before_summaries, law_requests_take_nothing_back,
};
use crate::scan::state::ActiveScan;
use crate::text::{lowercase_text, trimmed};
use vstd::prelude::*;

verus! {

/// A scan, if there is one, and what is looked at in it.
#[derive(Debug)]
pub struct Explorer {
    pub scan: Option<ActiveScan>,
    /// The directory that the treemap shows.
    pub focus: Option<TreeIndex>,
    pub selected: Option<TreeIndex>,
    /// The directories whose children are shown inside their tiles.
    pub expansion: Expansion,
}

/// A scan and what is looked at in it, as a mathematical value.
#[verifier::ext_equal]
pub struct ExplorerModel {
    pub scan: Option<ScanModel>,
    pub focus: Option<TreeIndex>,
    pub selected: Option<TreeIndex>,
    pub expansion: ExpansionModel,
}

/// The model of a scan that there may be.
pub open spec fn scan_model(scan: Option<ActiveScan>) -> Option<ScanModel> {
    match scan {
        Some(known) => Some(known@),
        None => None,
    }
}

impl View for Explorer {
    type V = ExplorerModel;

    open spec fn view(&self) -> ExplorerModel {
        ExplorerModel {
            scan: scan_model(self.scan),
            focus: self.focus,
            selected: self.selected,
            expansion: self.expansion@,
        }
    }
}

/// Whether an entry passes filters.
pub open spec fn entry_passes(filters: Filters, entry: EntryModel, now: Timestamp) -> bool {
    passes(
        filters,
        lowercase_text(trimmed(filters.name_substring@)),
        lowercase_text(entry.name),
        entry.size,
        entry.modified,
        now,
    )
}

/// The children of a node that pass filters, as they are listed.
pub open spec fn visible_children(
    scan: Option<ScanModel>,
    node: Option<TreeIndex>,
    filters: Filters,
    now: Timestamp,
) -> Seq<EntryModel> {
    match (scan, node) {
        (Some(known), Some(index)) => listing(known, index).filter(
            |entry: EntryModel| entry_passes(filters, entry, now),
        ),
        _ => Seq::empty(),
    }
}

/// A scan after a directory has been opened: its children are listed, now or
/// soon, and theirs ahead of need.
pub open spec fn opened(scan: ScanModel, index: TreeIndex, options: ScanOptions) -> ScanModel {
    prefetched(scan.ensure_scanned(index, options), index, options)
}

/// A scan after the children of a directory have been listed ahead of need.
pub open spec fn prefetched(scan: ScanModel, index: TreeIndex, options: ScanOptions) -> ScanModel {
    if scan.has(index) {
        scan.prefetch(scan.nodes[index as int].children, options)
    } else {
        scan
    }
}

/// The place of an entry in a list, or the first place where it is not there.
pub open spec fn place_of(entries: Seq<EntryModel>, index: Option<TreeIndex>) -> int
    decreases entries.len(),
{
    if entries.len() == 0 || index is None {
        0
    } else if entries[0].index == index->0 {
        0
    } else if !holds(entries, index->0) {
        0
    } else {
        1 + place_of(entries.skip(1), index)
    }
}

/// Whether a list holds an entry.
pub open spec fn holds(entries: Seq<EntryModel>, index: TreeIndex) -> bool {
    exists|i: int| 0 <= i < entries.len() && (#[trigger] entries[i]).index == index
}

/// What is known of the share that an entry has of its parent.
#[derive(Debug, Clone, Copy, PartialEq, Eq, Structural)]
pub enum ParentShare {
    /// It has no parent, so it is all there is.
    Whole,
    /// It has so much of so much.
    Part(u128, u128),
    /// There is nothing to compare it with.
    Unknown,
}

impl ExplorerModel {
    /// The parent of the focused directory.
    pub open spec fn parent_of_focus(self) -> Option<TreeIndex> {
        match (self.scan, self.focus) {
            (Some(scan), Some(focus)) => if scan.has(focus) {
                scan.nodes[focus as int].parent
            } else {
                None
            },
            _ => None,
        }
    }

    /// Whether there is a way up: something to collapse, or a parent.
    pub open spec fn can_go_up(self) -> bool {
        self.expansion.stack.len() > 0 || self.parent_of_focus() is Some
    }

    /// One step up: what was expanded last is collapsed and selected, or else
    /// the parent of the focused directory is focused.
    pub open spec fn go_up(self) -> ExplorerModel {
        if self.expansion.stack.len() > 0 {
            ExplorerModel {
                expansion: self.expansion.collapse_last(),
                selected: Some(self.expansion.stack.last()),
                ..self
            }
        } else if self.parent_of_focus() is Some {
            ExplorerModel {
                focus: self.parent_of_focus(),
                selected: self.parent_of_focus(),
                ..self
            }
        } else {
            self
        }
    }

    /// The scan after a directory has been opened.
    pub open spec fn open_in_scan(self, index: TreeIndex, options: ScanOptions) -> Option<
        ScanModel,
    > {
        match self.scan {
            Some(scan) => Some(opened(scan, index, options)),
            None => None,
        }
    }

    /// A directory shows its children inside its tile.
    pub open spec fn expand(
        self,
        index: TreeIndex,
        options: ScanOptions,
        time: u64,
    ) -> ExplorerModel {
        ExplorerModel {
            scan: self.open_in_scan(index, options),
            expansion: self.expansion.expand(index, time),
            selected: Some(index),
            ..self
        }
    }

    /// A directory is what the treemap shows.
    pub open spec fn focus_on(self, index: TreeIndex, options: ScanOptions) -> ExplorerModel {
        ExplorerModel {
            scan: self.open_in_scan(index, options),
            focus: Some(index),
            selected: Some(index),
            expansion: ExpansionModel::none(),
        }
    }

    /// What is selected once only the given entries are shown: what is selected
    /// now if it is the focused directory or among them, or else the first of
    /// them, or else the focused directory.
    pub open spec fn normalized(self, visible: Seq<EntryModel>) -> Option<TreeIndex> {
        if self.focus is None {
            None
        } else if self.selected == self.focus || (self.selected is Some && holds(
            visible,
            self.selected->0,
        )) {
            self.selected
        } else if visible.len() > 0 {
            Some(visible[0].index)
        } else {
            self.focus
        }
    }

    /// What is selected after a step through the given entries.
    pub open spec fn sibling(self, entries: Seq<EntryModel>, forward: bool) -> Option<TreeIndex> {
        if entries.len() == 0 {
            self.selected
        } else {
            let current = place_of(entries, self.selected);
            let next = if !forward {
                if current > 0 {
                    current - 1
                } else {
                    0
                }
            } else if current + 1 < entries.len() {
                current + 1
            } else {
                entries.len() - 1
            };
            Some(entries[next].index)
        }
    }

    /// What is selected: the first or the last of the given entries.
    pub open spec fn boundary(self, entries: Seq<EntryModel>, first: bool) -> Option<TreeIndex> {
        if entries.len() == 0 {
            self.selected
        } else if first {
            Some(entries[0].index)
        } else {
            Some(entries.last().index)
        }
    }

    /// A node, as it is shown.
    pub open spec fn shown(self, node: Option<TreeIndex>) -> Option<EntryModel> {
        match (self.scan, node) {
            (Some(scan), Some(index)) => shown_node(scan, index),
            _ => None,
        }
    }

    /// The selected directory is focused, or expanded.
    pub open spec fn activate(
        self,
        focus_view: bool,
        options: ScanOptions,
        time: u64,
    ) -> ExplorerModel {
        match self.shown(self.selected) {
            Some(entry) => if !entry.is_dir {
                self
            } else if focus_view {
                self.focus_on(entry.index, options)
            } else {
                self.expand(entry.index, options, time)
            },
            None => self,
        }
    }

    /// A tile has been clicked: it is selected, and expanded if it is a directory.
    pub open spec fn click(
        self,
        index: TreeIndex,
        is_dir: bool,
        options: ScanOptions,
        time: u64,
    ) -> ExplorerModel {
        let chosen = ExplorerModel { selected: Some(index), ..self };
        if is_dir {
            chosen.expand(index, options, time)
        } else {
            chosen
        }
    }

    /// The share that an entry has of its parent.
    pub open spec fn parent_share(self, index: TreeIndex, size: u128) -> ParentShare {
        match self.scan {
            None => ParentShare::Unknown,
            Some(scan) => if !scan.has(index) {
                ParentShare::Whole
            } else {
                match scan.nodes[index as int].parent {
                    None => ParentShare::Whole,
                    Some(above) => if !scan.has(above) || scan.nodes[above as int].size == 0 {
                        ParentShare::Unknown
                    } else {
                        ParentShare::Part(size, scan.nodes[above as int].size)
                    },
                }
            },
        }
    }
}

/// The nodes from the root down to a node.
pub open spec fn way_down(scan: ScanModel, index: TreeIndex) -> Seq<TreeIndex>
    decreases index,
{
    if scan.has(index) {
        match scan.nodes[index as int].parent {
            Some(above) => if above < index {
                way_down(scan, above).push(index)
            } else {
                seq![index]
            },
            None => seq![index],
        }
    } else {
        seq![index]
    }
}

/// The children of a node that pass filters, as they are listed.
pub fn filtered_children(
    scan: Option<&ActiveScan>,
    node: Option<TreeIndex>,
    filters: &Filters,
    now: Timestamp,
) -> (r: Vec<EntryView>)
    ensures
        entry_models(r@) == visible_children(
            match scan {
                Some(known) => Some(known@),
                None => None,
            },
            node,
            *filters,
            now,
        ),
{
    let mut found: Vec<EntryView> = Vec::new();
    proof {
        assert(entry_models(found@) =~= Seq::empty());
    }
    if let Some(known) = scan {
        if let Some(index) = node {
            let entries: Vec<EntryView> = children(known, index);
            let ghost all = entry_models(entries@);
            let ghost keep = |entry: EntryModel| entry_passes(*filters, entry, now);
            proof {
                reveal(Seq::filter);
                assert(all.take(0) =~= Seq::empty());
            }
            for entry in iter: entries
                invariant
                    all == entry_models(iter.seq()),
                    keep == (|entry: EntryModel| entry_passes(*filters, entry, now)),
                    entry_models(found@) == all.take(iter.index()).filter(keep),
            {
                let ghost i = iter.index();
                let ghost before = entry_models(found@);
                let ghost model = entry@;
                proof {
                    reveal(Seq::filter);
                    assert(model == all[i]);
                    assert(all.take(i + 1).drop_last() =~= all.take(i));
                    assert(all.take(i + 1).last() == all[i]);
                }
                let passed: bool = filters.matches(
                    &FilterEntry {
                        name: entry.name.as_str(),
                        size: entry.size,
                        modified: entry.modified,
                    },
                    now,
                );
                if passed {
                    found.push(entry);
                    proof {
                        assert(entry_models(found@) =~= before.push(model));
                    }
                }
            }
            proof {
                assert(all.take(all.len() as int) =~= all);
            }
        }
    }
    found
}

fn find_entry(entries: &Vec<EntryView>, index: TreeIndex) -> (r: Option<usize>)
    ensures
        match r {
            Some(place) => place < entries@.len() && entries@[place as int].index == index
                && holds(entry_models(entries@), index) && place == place_of(
                entry_models(entries@),
                Some(index),
            ),
            None => !holds(entry_models(entries@), index),
        },
{
    let ghost all = entry_models(entries@);
    let mut i: usize = 0;
    proof {
        assert(all.skip(0) =~= all);
    }
    while i < entries.len()
        invariant
            i <= entries@.len(),
            all == entry_models(entries@),
            forall|k: int| 0 <= k < i ==> (#[trigger] all[k]).index != index,
        decreases entries@.len() - i,
    {
        proof {
            assert(all[i as int] == entries@[i as int]@);
        }
        if entries[i].index == index {
            proof {
                lemma_place_of(all, index, i as int);
            }
            return Some(i);
        }
        i = i + 1;
    }
    None
}

proof fn lemma_place_of(entries: Seq<EntryModel>, index: TreeIndex, place: int)
    requires
        0 <= place < entries.len(),
        entries[place].index == index,
        forall|k: int| 0 <= k < place ==> (#[trigger] entries[k]).index != index,
    ensures
        place_of(entries, Some(index)) == place,
    decreases place,
{
    assert(holds(entries, index));
    if place > 0 {
        let rest = entries.skip(1);
        assert(entries[0].index != index);
        assert forall|k: int| 0 <= k < place - 1 implies (#[trigger] rest[k]).index != index by {
            assert(rest[k] == entries[k + 1]);
        }
        assert(rest[place - 1] == entries[place]);
        lemma_place_of(rest, index, place - 1);
    }
}

impl Explorer {
    /// What holds of it between two operations.
    pub open spec fn wf(&self) -> bool {
        &&& self.expansion.wf()
        &&& self.scan is Some ==> self.scan->0.wf()
    }

    /// Without a scan.
    pub fn new() -> (r: Explorer)
        ensures
            r@ == (ExplorerModel {
                scan: None,
                focus: None,
                selected: None,
                expansion: ExpansionModel::none(),
            }),
            r.wf(),
    {
        Explorer { scan: None, focus: None, selected: None, expansion: Expansion::new() }
    }

    /// Begins with a scan: its root is focused and selected, and nothing is
    /// expanded.
    pub fn begin(&mut self, scan: ActiveScan)
        requires
            scan.wf(),
        ensures
            final(self)@ == (ExplorerModel {
                scan: Some(scan@),
                focus: Some(0),
                selected: Some(0),
                expansion: ExpansionModel::none(),
            }),
            final(self).wf(),
    {
        self.scan = Some(scan);
        self.focus = Some(0);
        self.selected = Some(0);
        self.expansion.clear();
    }

    fn parent_of_focus(&self) -> (r: Option<TreeIndex>)
        ensures
            r == self@.parent_of_focus(),
    {
        match &self.scan {
            Some(scan) => match self.focus {
                Some(focus) => parent(scan, focus),
                None => None,
            },
            None => None,
        }
    }

    /// Whether there is a way up.
    pub fn can_go_up(&self) -> (r: bool)
        ensures
            r == self@.can_go_up(),
    {
        self.expansion.stack().len() > 0 || self.parent_of_focus().is_some()
    }

    /// Goes one step up: collapses what was expanded last, or else focuses the
    /// parent. Returns whether there was a way up.
    pub fn go_up(&mut self) -> (r: bool)
        requires
            old(self).wf(),
        ensures
            final(self)@ == old(self)@.go_up(),
            r == old(self)@.can_go_up(),
            final(self).wf(),
    {
        let ghost before = self@;
        if let Some(last) = self.expansion.collapse_last() {
            self.selected = Some(last);
            return true;
        }
        proof {
            assert(self@ =~= before);
        }
        match self.parent_of_focus() {
            Some(above) => {
                self.focus = Some(above);
                self.selected = Some(above);
                true
            },
            None => false,
        }
    }

    fn open_in_scan(&mut self, index: TreeIndex, options: ScanOptions)
        requires
            old(self).wf(),
        ensures
            final(self)@ == (ExplorerModel {
                scan: old(self)@.open_in_scan(index, options),
                ..old(self)@
            }),
            final(self).wf(),
    {
        match &mut self.scan {
            Some(scan) => {
                scan.ensure_scanned(index, options);
                scan.prefetch_children(index, options);
            },
            None => {},
        }
    }

    /// Shows the children of a directory inside its tile, and selects it.
    pub fn expand_directory(&mut self, index: TreeIndex, options: ScanOptions, time: u64)
        requires
            old(self).wf(),
        ensures
            final(self)@ == old(self)@.expand(index, options, time),
            final(self).wf(),
    {
        self.open_in_scan(index, options);
        self.expansion.expand(index, time);
        self.selected = Some(index);
    }

    /// Makes a directory what the treemap shows.
    pub fn focus_directory(&mut self, index: TreeIndex, options: ScanOptions)
        requires
            old(self).wf(),
        ensures
            final(self)@ == old(self)@.focus_on(index, options),
            final(self).wf(),
    {
        self.open_in_scan(index, options);
        self.focus = Some(index);
        self.selected = Some(index);
        self.expansion.clear();
    }

    /// Lists the children of a directory under the pointer ahead of need.
    pub fn hover_directory(&mut self, index: TreeIndex, options: ScanOptions)
        requires
            old(self).wf(),
        ensures
            final(self)@ == (ExplorerModel {
                scan: match old(self)@.scan {
                    Some(scan) => Some(prefetched(scan, index, options)),
                    None => None,
                },
                ..old(self)@
            }),
            final(self).wf(),
    {
        match &mut self.scan {
            Some(scan) => scan.prefetch_children(index, options),
            None => {},
        }
    }

    /// Selects a tile that has been clicked, and expands it if it is a directory.
    pub fn click_tile(&mut self, index: TreeIndex, is_dir: bool, options: ScanOptions, time: u64)
        requires
            old(self).wf(),
        ensures
            final(self)@ == old(self)@.click(index, is_dir, options, time),
            final(self).wf(),
    {
        self.selected = Some(index);
        if is_dir {
            self.expand_directory(index, options, time);
        }
    }

    /// The children of the focused directory that pass filters.
    pub fn focused_entries(&self, filters: &Filters, now: Timestamp) -> (r: Vec<EntryView>)
        ensures
            entry_models(r@) == visible_children(self@.scan, self@.focus, *filters, now),
    {
        filtered_children(self.scan.as_ref(), self.focus, filters, now)
    }

    /// Keeps the selection to the focused directory and what is shown of it.
    pub fn normalize_selection(&mut self, visible: &Vec<EntryView>)
        requires
            old(self).wf(),
        ensures
            final(self)@ == (ExplorerModel {
                selected: old(self)@.normalized(entry_models(visible@)),
                ..old(self)@
            }),
            final(self).wf(),
    {
        let ghost all = entry_models(visible@);
        let focus: TreeIndex = match self.focus {
            Some(focus) => focus,
            None => {
                self.selected = None;
                return;
            },
        };
        if let Some(selected) = self.selected {
            if selected == focus || find_entry(visible, selected).is_some() {
                return;
            }
        }
        if visible.len() > 0 {
            proof {
                assert(all[0] == visible@[0]@);
            }
            self.selected = Some(visible[0].index);
        } else {
            self.selected = Some(focus);
        }
    }

    /// Selects the entry before or behind the selected one, as far as there is
    /// one.
    pub fn select_sibling(&mut self, entries: &Vec<EntryView>, forward: bool)
        requires
            old(self).wf(),
        ensures
            final(self)@ == (ExplorerModel {
                selected: old(self)@.sibling(entry_models(entries@), forward),
                ..old(self)@
            }),
            final(self).wf(),
    {
        let ghost all = entry_models(entries@);
        if entries.len() == 0 {
            return;
        }
        let current: usize = match self.selected {
            Some(selected) => match find_entry(entries, selected) {
                Some(place) => place,
                None => 0,
            },
            None => 0,
        };
        let next: usize = if !forward {
            if current > 0 {
                current - 1
            } else {
                0
            }
        } else if current < entries.len() - 1 {
            current + 1
        } else {
            entries.len() - 1
        };
        proof {
            assert(current == place_of(all, self.selected));
            assert(all[next as int] == entries@[next as int]@);
        }
        self.selected = Some(entries[next].index);
    }

    /// Selects the first or the last of the entries.
    pub fn select_boundary_sibling(&mut self, entries: &Vec<EntryView>, first: bool)
        requires
            old(self).wf(),
        ensures
            final(self)@ == (ExplorerModel {
                selected: old(self)@.boundary(entry_models(entries@), first),
                ..old(self)@
            }),
            final(self).wf(),
    {
        let ghost all = entry_models(entries@);
        if entries.len() == 0 {
            return;
        }
        let place: usize = if first {
            0
        } else {
            entries.len() - 1
        };
        proof {
            assert(all[place as int] == entries@[place as int]@);
        }
        self.selected = Some(entries[place].index);
    }

    /// The selected entry.
    pub fn selected_entry(&self) -> (r: Option<EntryView>)
        ensures
            match r {
                Some(entry) => self@.shown(self@.selected) == Some(entry@),
                None => self@.shown(self@.selected) is None,
            },
    {
        match &self.scan {
            Some(scan) => match self.selected {
                Some(index) => entry_view(scan, index),
                None => None,
            },
            None => None,
        }
    }

    /// The focused directory.
    pub fn focused_entry(&self) -> (r: Option<EntryView>)
        ensures
            match r {
                Some(entry) => self@.shown(self@.focus) == Some(entry@),
                None => self@.shown(self@.focus) is None,
            },
    {
        match &self.scan {
            Some(scan) => match self.focus {
                Some(index) => entry_view(scan, index),
                None => None,
            },
            None => None,
        }
    }

    /// How far the scan of the focused directory is.
    pub fn focused_directory_state(&self) -> (r: Option<DirectoryScanState>)
        ensures
            r == match (self@.scan, self@.focus) {
                (Some(scan), Some(focus)) => if scan.has(focus) {
                    Some(scan_state(scan.nodes[focus as int]))
                } else {
                    None
                },
                _ => None,
            },
    {
        match &self.scan {
            Some(scan) => match self.focus {
                Some(index) => directory_scan_state(scan, index),
                None => None,
            },
            None => None,
        }
    }

    /// Whether the children of the focused directory are still to come.
    pub fn is_loading_focus(&self) -> (r: bool)
        ensures
            r == match (self@.scan, self@.focus) {
                (Some(scan), Some(focus)) => scan.has(focus) && {
                    let state = scan_state(scan.nodes[focus as int]);
                    state == DirectoryScanState::Pending || state == DirectoryScanState::Scanning
                },
                _ => false,
            },
    {
        match self.focused_directory_state() {
            Some(DirectoryScanState::Pending) => true,
            Some(DirectoryScanState::Scanning) => true,
            _ => false,
        }
    }

    /// Focuses the selected directory, or expands it.
    pub fn activate_selected_directory(
        &mut self,
        focus_view: bool,
        options: ScanOptions,
        time: u64,
    ) -> (r: bool)
        requires
            old(self).wf(),
        ensures
            final(self)@ == old(self)@.activate(focus_view, options, time),
            r == (old(self)@.shown(old(self)@.selected) is Some && old(self)@.shown(
                old(self)@.selected,
            )->0.is_dir),
            final(self).wf(),
    {
        match self.selected_entry() {
            Some(entry) => {
                if !entry.is_dir {
                    false
                } else if focus_view {
                    self.focus_directory(entry.index, options);
                    true
                } else {
                    self.expand_directory(entry.index, options, time);
                    true
                }
            },
            None => false,
        }
    }

    /// The share that an entry has of its parent.
    pub fn selected_parent_share(&self, index: TreeIndex, size: u128) -> (r: ParentShare)
        ensures
            r == self@.parent_share(index, size),
    {
        match &self.scan {
            None => ParentShare::Unknown,
            Some(scan) => match parent(scan, index) {
                None => ParentShare::Whole,
                Some(above) => match scan.node(above) {
                    Some(node) => if node.size == 0 {
                        ParentShare::Unknown
                    } else {
                        ParentShare::Part(size, node.size)
                    },
                    None => ParentShare::Unknown,
                },
            },
        }
    }

    /// The nodes from the root down to the focused directory.
    pub fn breadcrumbs(&self) -> (r: Vec<TreeIndex>)
        requires
            self.wf(),
        ensures
            r@ == match (self@.scan, self@.focus) {
                (Some(scan), Some(focus)) => way_down(scan, focus),
                _ => Seq::empty(),
            },
    {
        let mut chain: Vec<TreeIndex> = Vec::new();
        if let Some(scan) = &self.scan {
            if let Some(focus) = self.focus {
                let ghost whole = way_down(scan@, focus);
                let mut upwards: Vec<TreeIndex> = Vec::new();
                let mut current: TreeIndex = focus;
                proof {
                    assert(whole + upwards@.reverse() =~= whole);
                }
                loop
                    invariant_except_break
                        whole == way_down(scan@, current) + upwards@.reverse(),
                    invariant
                        scan.wf(),
                    ensures
                        whole == upwards@.reverse(),
                    decreases current,
                {
                    let ghost before = upwards@;
                    upwards.push(current);
                    proof {
                        assert(upwards@.reverse() =~= seq![current] + before.reverse());
                    }
                    match parent(scan, current) {
                        Some(above) => {
                            proof {
                                assert(scan@.nodes[current as int].parent == Some(above));
                                assert(above < current);
                                assert(way_down(scan@, above).push(current) + before.reverse()
                                    =~= way_down(scan@, above) + (seq![current]
                                    + before.reverse()));
                            }
                            current = above;
                        },
                        None => {
                            break ;
                        },
                    }
                }
                let mut i: usize = upwards.len();
                while i > 0
                    invariant
                        i <= upwards@.len(),
                        chain@ == upwards@.reverse().take(upwards@.len() - i),
                    decreases i,
                {
                    i = i - 1;
                    chain.push(upwards[i]);
                    proof {
                        assert(chain@ =~= upwards@.reverse().take(upwards@.len() - i));
                    }
                }
                proof {
                    assert(upwards@.reverse().take(upwards@.len() as int) =~= upwards@.reverse());
                }
            }
        }
        chain
    }
}

/// How many directories of a path are shown at most.
pub const SHOWN_BREADCRUMBS: usize = 5;

/// How many directories of a path are not shown.
pub fn hidden_breadcrumbs(total: usize) -> (r: usize)
    ensures
        r == if total > SHOWN_BREADCRUMBS {
            total - SHOWN_BREADCRUMBS
        } else {
            0
        },
{
    total.saturating_sub(SHOWN_BREADCRUMBS)
}

/// Whether the directory at a place of a path is shown: the first one and the last
/// ones are.
pub open spec fn is_shown_breadcrumb(total: int, place: int) -> bool {
    total <= SHOWN_BREADCRUMBS || place == 0 || place > total - SHOWN_BREADCRUMBS
}

/// Whether the directory at a place of a path is shown.
pub fn shows_breadcrumb(total: usize, place: usize) -> (r: bool)
    ensures
        r == is_shown_breadcrumb(total as int, place as int),
{
    let hidden: usize = hidden_breadcrumbs(total);
    !(hidden > 0 && place > 0 && place < hidden + 1)
}

/// How many of the first places of a path are shown.
pub open spec fn count_shown(total: int, places: int) -> int
    decreases places,
{
    if places <= 0 {
        0
    } else {
        count_shown(total, places - 1) + if is_shown_breadcrumb(total, places - 1) {
            1int
        } else {
            0
        }
    }
}

/// Of a long path exactly so many directories are shown, the first and the last
/// among them.
pub proof fn law_a_long_path_shows_few_directories(total: int)
    requires
        total > SHOWN_BREADCRUMBS,
    ensures
        count_shown(total, total) == SHOWN_BREADCRUMBS,
        is_shown_breadcrumb(total, 0),
        is_shown_breadcrumb(total, total - 1),
{
    lemma_count_hidden(total, total - SHOWN_BREADCRUMBS + 1);
    let n = total - SHOWN_BREADCRUMBS + 1;
    assert(count_shown(total, n) == 1);
    assert(count_shown(total, n + 1) == 2);
    assert(count_shown(total, n + 2) == 3);
    assert(count_shown(total, n + 3) == 4);
    assert(count_shown(total, n + 4) == 5);
}

proof fn lemma_count_hidden(total: int, places: int)
    requires
        total > SHOWN_BREADCRUMBS,
        1 <= places <= total - SHOWN_BREADCRUMBS + 1,
    ensures
        count_shown(total, places) == 1,
    decreases places,
{
    if places > 1 {
        lemma_count_hidden(total, places - 1);
    } else {
        assert(count_shown(total, 0) == 0);
    }
}

/// One step up undoes an expansion: what is focused and expanded is as before, and
/// the directory is selected.
pub proof fn law_going_up_undoes_expanding(
    m: ExplorerModel,
    index: TreeIndex,
    options: ScanOptions,
    time: u64,
)
    requires
        m.expansion.wf(),
        !m.expansion.stack.contains(index),
    ensures
        m.expand(index, options, time).go_up() == (ExplorerModel {
            scan: m.open_in_scan(index, options),
            selected: Some(index),
            ..m
        }),
{
    crate::expansion::law_collapsing_undoes_expanding(m.expansion, index, time);
}

/// Whatever is shown, after the selection has been kept to it the focused directory
/// or one of the shown entries is selected, if anything is focused at all.
pub proof fn law_the_selection_stays_visible(m: ExplorerModel, visible: Seq<EntryModel>)
    ensures
        m.focus is None ==> m.normalized(visible) is None,
        m.focus is Some ==> m.normalized(visible) is Some && (m.normalized(visible) == m.focus
            || holds(visible, m.normalized(visible)->0)),
{
    if visible.len() > 0 {
        assert(visible[0].index == visible[0].index);
        assert(holds(visible, visible[0].index));
    }
}

/// The way down to a node begins at the root and ends at the node, and each node on
/// it is the parent of the next.
pub proof fn law_breadcrumbs_lead_from_the_root(scan: ScanModel, index: TreeIndex)
    requires
        scan.is_tree(),
        scan.has(index),
    ensures
        ({
            let way = way_down(scan, index);
            &&& way.len() > 0
            &&& way[0] == 0
            &&& way.last() == index
            &&& forall|j: int|
                #![trigger way[j]]
                0 < j < way.len() ==> scan.has(way[j]) && scan.nodes[way[j] as int].parent == Some(
                    way[j - 1],
                )
        }),
    decreases index,
{
    if index > 0 {
        let above = scan.nodes[index as int].parent->0;
        assert(scan.nodes[index as int].parent is Some);
        law_breadcrumbs_lead_from_the_root(scan, above);
        let way = way_down(scan, index);
        let shorter = way_down(scan, above);
        assert(way == shorter.push(index));
        assert(way[0] == shorter[0]);
        assert forall|j: int|
            #![trigger way[j]]
            0 < j < way.len() implies scan.has(way[j]) && scan.nodes[way[j] as int].parent == Some(
            way[j - 1],
        ) by {
            if j < shorter.len() {
                assert(way[j] == shorter[j] && way[j - 1] == shorter[j - 1]);
            } else {
                assert(way[j] == index);
                assert(way[j - 1] == shorter.last());
            }
        }
    } else {
        assert(scan.nodes[0].parent is None);
        assert(way_down(scan, index) == seq![index]);
    }
}

/// Where nothing is expanded, one step up leads from a directory to its parent, and
/// from nowhere else to anywhere: the parent is focused and selected, and all else
/// stays as it is.
pub proof fn law_going_up_leads_to_the_parent(m: ExplorerModel)
    requires
        m.expansion.stack.len() == 0,
    ensures
        ({
            let up = m.go_up();
            &&& up.scan == m.scan
            &&& up.expansion == m.expansion
            &&& m.scan is Some && m.focus is Some && m.scan->0.has(m.focus->0) ==> {
                let above = m.scan->0.nodes[m.focus->0 as int].parent;
                &&& m.can_go_up() <==> above is Some
                &&& above is Some ==> up.focus == above && up.selected == above
                &&& above is None ==> up == m
            }
            &&& m.scan is None || m.focus is None || !m.scan->0.has(m.focus->0) ==> !m.can_go_up()
                && up == m
        }),
{
}

/// Where directories are expanded, one step up collapses the one that was expanded
/// last and selects it; what is focused stays so.
pub proof fn law_going_up_collapses_first(m: ExplorerModel)
    requires
        m.expansion.stack.len() > 0,
    ensures
        m.can_go_up(),
        m.go_up().selected == Some(m.expansion.stack[m.expansion.stack.len() - 1]),
        m.go_up().expansion.stack == m.expansion.stack.take(m.expansion.stack.len() - 1),
        m.go_up().focus == m.focus,
        m.go_up().scan == m.scan,
{
    assert(m.expansion.stack.drop_last() =~= m.expansion.stack.take(m.expansion.stack.len() - 1));
}

/// A directory that is focused is what is shown and selected, nothing is expanded
/// any more, and its children are listed or will be. One step up from it leads to
/// its parent.
pub proof fn law_focusing_shows_a_directory(
    m: ExplorerModel,
    index: TreeIndex,
    options: ScanOptions,
)
    requires
        m.scan is Some ==> m.scan->0.wf() && m.scan->0.has(index)
            && m.scan->0.nodes[index as int].is_dir,
    ensures
        ({
            let n = m.focus_on(index, options);
            &&& n.focus == Some(index)
            &&& n.selected == Some(index)
            &&& n.expansion.stack.len() == 0
            &&& n.scan is Some <==> m.scan is Some
            &&& m.scan is Some ==> {
                let (scan, before) = (n.scan->0, m.scan->0);
                &&& scan.nodes.len() == before.nodes.len()
                &&& scan.is_known_or_pending(index)
                &&& !some_job_summarizes(scan.background, index)
                &&& scan.nodes[index as int].parent == before.nodes[index as int].parent
                &&& before.nodes[index as int].parent is Some ==> n.go_up().focus
                    == before.nodes[index as int].parent && n.go_up().selected
                    == before.nodes[index as int].parent
            }
        }),
{
    if m.scan is Some {
        lemma_opened(m.scan->0, index, options);
    }
}

/// A directory that is expanded is selected and shows its children inside its tile,
/// which are listed or will be; what is focused stays so.
pub proof fn law_expanding_shows_children_inside(
    m: ExplorerModel,
    index: TreeIndex,
    options: ScanOptions,
    time: u64,
)
    requires
        m.expansion.wf(),
        m.scan is Some ==> m.scan->0.wf() && m.scan->0.has(index)
            && m.scan->0.nodes[index as int].is_dir,
    ensures
        ({
            let n = m.expand(index, options, time);
            &&& n.focus == m.focus
            &&& n.selected == Some(index)
            &&& n.expansion.stack.contains(index)
            &&& !m.expansion.stack.contains(index) ==> n.expansion.stack == m.expansion.stack.push(
                index,
            )
            &&& m.expansion.stack.contains(index) ==> n.expansion == m.expansion
            &&& n.scan is Some <==> m.scan is Some
            &&& m.scan is Some ==> n.scan->0.is_known_or_pending(index) && n.scan->0.nodes.len()
                == m.scan->0.nodes.len()
        }),
{
    law_expanded_directories_are_kept_in_order(m.expansion, index, time, index);
    if m.scan is Some {
        lemma_opened(m.scan->0, index, options);
    }
}

/// A tile that is clicked is selected. A file changes nothing else; a directory is
/// expanded.
pub proof fn law_clicking_selects(
    m: ExplorerModel,
    index: TreeIndex,
    options: ScanOptions,
    time: u64,
)
    ensures
        m.click(index, false, options, time) == (ExplorerModel { selected: Some(index), ..m }),
        m.click(index, true, options, time) == m.expand(index, options, time),
        m.click(index, true, options, time).selected == Some(index),
{
}

/// To activate a file, or nothing, changes nothing; a directory is focused or
/// expanded, as it is asked for.
pub proof fn law_only_directories_are_activated(
    m: ExplorerModel,
    focus_view: bool,
    options: ScanOptions,
    time: u64,
)
    ensures
        m.scan is None || m.selected is None || !m.scan->0.has(m.selected->0) ==> m.activate(
            focus_view,
            options,
            time,
        ) == m,
        m.scan is Some && m.selected is Some && m.scan->0.has(m.selected->0) ==> m.activate(
            focus_view,
            options,
            time,
        ) == if !m.scan->0.nodes[m.selected->0 as int].is_dir {
            m
        } else if focus_view {
            m.focus_on(m.selected->0, options)
        } else {
            m.expand(m.selected->0, options, time)
        },
{
}

/// The selection stays where it is visible. Otherwise the first visible entry is
/// selected, or the focused directory where none is visible.
pub proof fn law_the_selection_is_kept_where_it_can_be(
    m: ExplorerModel,
    visible: Seq<EntryModel>,
    place: int,
)
    requires
        m.focus is Some,
    ensures
        m.selected == m.focus ==> m.normalized(visible) == m.selected,
        0 <= place < visible.len() && m.selected == Some(visible[place].index) ==> m.normalized(
            visible,
        ) == m.selected,
        m.selected != m.focus && visible.len() > 0 && (forall|i: int|
            0 <= i < visible.len() ==> m.selected != Some((#[trigger] visible[i]).index))
            ==> m.normalized(visible) == Some(visible[0].index),
        m.selected != m.focus && visible.len() == 0 ==> m.normalized(visible) == m.focus,
{
    if 0 <= place < visible.len() {
        assert(visible[place].index == visible[place].index);
    }
}

/// Where the entries are told apart, a step forward leads from an entry to the next
/// one and a step back to the one before it; at either end the selection stays. What
/// is not among the entries counts as the first.
pub proof fn law_steps_lead_to_the_neighbours(
    m: ExplorerModel,
    entries: Seq<EntryModel>,
    place: int,
)
    requires
        0 <= place < entries.len(),
        forall|i: int, j: int|
            0 <= i < j < entries.len() ==> (#[trigger] entries[i]).index != (
            #[trigger] entries[j]).index,
    ensures
        m.selected == Some(entries[place].index) ==> {
            &&& m.sibling(entries, true) == Some(
                entries[if place + 1 < entries.len() {
                    place + 1
                } else {
                    place
                }].index,
            )
            &&& m.sibling(entries, false) == Some(
                entries[if place > 0 {
                    place - 1
                } else {
                    place
                }].index,
            )
        },
        (forall|i: int|
            0 <= i < entries.len() ==> m.selected != Some((#[trigger] entries[i]).index)) ==> {
            &&& m.sibling(entries, false) == Some(entries[0].index)
            &&& m.sibling(entries, true) == Some(
                entries[if entries.len() > 1 {
                    1int
                } else {
                    0
                }].index,
            )
        },
        m.boundary(entries, true) == Some(entries[0].index),
        m.boundary(entries, false) == Some(entries[entries.len() - 1].index),
{
    if m.selected == Some(entries[place].index) {
        lemma_place_of(entries, entries[place].index, place);
    }
    if forall|i: int| 0 <= i < entries.len() ==> m.selected != Some((#[trigger] entries[i]).index) {
        if m.selected is Some && holds(entries, m.selected->0) {
            let i = choose|i: int|
                0 <= i < entries.len() && (#[trigger] entries[i]).index == m.selected->0;
            assert(m.selected == Some(entries[i].index));
        }
    }
}

/// Where nothing is shown, steps leave the selection as it is.
pub proof fn law_steps_need_entries(m: ExplorerModel, forward: bool)
    ensures
        m.sibling(Seq::empty(), forward) == m.selected,
        m.boundary(Seq::empty(), forward) == m.selected,
{
}

/// The share of an entry is measured by the size of its parent. The root is the
/// whole, and nothing is known where the parent has no size.
pub proof fn law_shares_are_measured_by_the_parent(
    m: ExplorerModel,
    index: TreeIndex,
    size: u128,
)
    requires
        m.scan is Some,
        m.scan->0.wf(),
        m.scan->0.has(index),
    ensures
        index == 0 ==> m.parent_share(index, size) == ParentShare::Whole,
        index > 0 ==> {
            let total = m.scan->0.nodes[m.scan->0.nodes[index as int].parent->0 as int].size;
            m.parent_share(index, size) == if total == 0 {
                ParentShare::Unknown
            } else {
                ParentShare::Part(size, total)
            }
        },
{
    assert(m.scan->0.nodes[0].parent is None);
    if index > 0 {
        assert(m.scan->0.nodes[index as int].parent is Some);
    }
}

/// An entry is shown if and only if it is listed and passes each filter: its name
/// contains what is asked for, it is large enough, and it was changed lately enough.
/// What is shown keeps the order of the listing.
pub proof fn law_what_is_shown_is_listed_and_passes(
    scan: ScanModel,
    node: TreeIndex,
    filters: Filters,
    now: Timestamp,
    entry: EntryModel,
)
    ensures
        visible_children(Some(scan), Some(node), filters, now).contains(entry) <==> listing(
            scan,
            node,
        ).contains(entry) && {
            let needle = lowercase_text(trimmed(filters.name_substring@));
            let age = (now.secs * 1_000_000_000 + now.nanos) - (entry.modified.secs * 1_000_000_000
                + entry.modified.nanos);
            let seconds = filters.max_age_days * 86_400;
            &&& needle.len() == 0 || exists|before: Seq<char>, after: Seq<char>|
                lowercase_text(entry.name) == #[trigger] (before + needle + after)
            &&& filters.min_size_bytes <= entry.size
            &&& filters.max_age_days == 0 || (0 <= age && age <= 1_000_000_000 * (if seconds
                <= 0xffff_ffff_ffff_ffff {
                seconds
            } else {
                0xffff_ffff_ffff_ffff
            }))
        },
        forall|a: int, b: int|
            0 <= a < b < visible_children(Some(scan), Some(node), filters, now).len()
                ==> !entry_before(
                #[trigger] visible_children(Some(scan), Some(node), filters, now)[b],
                #[trigger] visible_children(Some(scan), Some(node), filters, now)[a],
            ),
        visible_children(None, Some(node), filters, now).len() == 0,
        visible_children(Some(scan), None, filters, now).len() == 0,
{
    let keep = |other: EntryModel| entry_passes(filters, other, now);
    let all = listing(scan, node);
    let shown = visible_children(Some(scan), Some(node), filters, now);
    law_what_passes(
        filters,
        lowercase_text(trimmed(filters.name_substring@)),
        lowercase_text(entry.name),
        entry.size,
        entry.modified,
        now,
    );
    if scan.has(node) {
        law_a_listing_is_sorted(scan, node);
    }
    lemma_kept_in_order(all, keep);
    if all.contains(entry) && keep(entry) {
        let i = choose|i: int| 0 <= i < all.len() && all[i] == entry;
        all.lemma_filter_contains(keep, i);
    }
    assert forall|a: int, b: int| 0 <= a < b < shown.len() implies !entry_before(
        #[trigger] shown[b],
        #[trigger] shown[a],
    ) by {
        let (i, j) = lemma_two_kept(all, keep, a, b);
        assert(!entry_before(all[j], all[i]));
    }
}

/// What is kept of a list comes from it and passes.
proof fn lemma_kept_in_order(all: Seq<EntryModel>, keep: spec_fn(EntryModel) -> bool)
    ensures
        forall|k: int|
            0 <= k < all.filter(keep).len() ==> keep(#[trigger] all.filter(keep)[k])
                && all.contains(all.filter(keep)[k]),
    decreases all.len(),
{
    reveal(Seq::filter);
    if all.len() > 0 {
        let rest = all.drop_last();
        lemma_kept_in_order(rest, keep);
        let kept = all.filter(keep);
        assert forall|k: int| 0 <= k < kept.len() implies keep(#[trigger] kept[k]) && all.contains(
            kept[k],
        ) by {
            if k < rest.filter(keep).len() {
                assert(kept[k] == rest.filter(keep)[k]);
                let i = choose|i: int| 0 <= i < rest.len() && rest[i] == kept[k];
                assert(all[i] == kept[k]);
            } else {
                assert(all[all.len() - 1] == kept[k]);
            }
        }
    }
}

/// Two that are kept stand in the list in the same order.
proof fn lemma_two_kept(
    all: Seq<EntryModel>,
    keep: spec_fn(EntryModel) -> bool,
    a: int,
    b: int,
) -> (r: (int, int))
    requires
        0 <= a < b < all.filter(keep).len(),
    ensures
        0 <= r.0 < r.1 < all.len(),
        all[r.0] == all.filter(keep)[a],
        all[r.1] == all.filter(keep)[b],
    decreases all.len(),
{
    reveal(Seq::filter);
    let rest = all.drop_last();
    let kept = all.filter(keep);
    if b < rest.filter(keep).len() {
        let r = lemma_two_kept(rest, keep, a, b);
        assert(kept[a] == rest.filter(keep)[a] && kept[b] == rest.filter(keep)[b]);
        r
    } else {
        lemma_kept_in_order(rest, keep);
        assert(kept[a] == rest.filter(keep)[a]);
        assert(rest.contains(kept[a]));
        let i = choose|i: int| 0 <= i < rest.len() && rest[i] == kept[a];
        assert(all[i] == kept[a]);
        (i, all.len() - 1)
    }
}

/// Of a path that is too long to be shown, the first directory and the last four are
/// shown and those between them hidden; a short path is shown whole.
pub proof fn law_the_middle_of_a_long_path_is_hidden(total: int, place: int)
    requires
        0 <= place < total,
    ensures
        total <= 5 ==> is_shown_breadcrumb(total, place),
        total > 5 ==> (is_shown_breadcrumb(total, place) <==> place == 0 || total - place <= 4),
{
}

/// What opening a directory does to a scan.
proof fn lemma_opened(m: ScanModel, index: TreeIndex, options: ScanOptions)
    requires
        m.wf(),
        m.has(index),
        m.nodes[index as int].is_dir,
    ensures
        opened(m, index, options).nodes.len() == m.nodes.len(),
        opened(m, index, options).nodes[index as int].parent == m.nodes[index as int].parent,
        opened(m, index, options).is_known_or_pending(index),
        !some_job_summarizes(opened(m, index, options).background, index),
{
    lemma_ensure_scanned_keeps(m, index, options);
    law_asked_children_come_before_summaries(m, index, options);
    let asked = m.ensure_scanned(index, options);
    lemma_prefetch_keeps_listing(
        asked,
        asked.nodes[index as int].children,
        options,
        index,
    );
}

/// Listing ahead of need takes back no listing and lets no further summary wait.
proof fn lemma_prefetch_keeps_listing(
    m: ScanModel,
    children: Seq<TreeIndex>,
    options: ScanOptions,
    index: TreeIndex,
)
    requires
        m.wf(),
        m.has(index),
        m.is_known_or_pending(index),
        !some_job_summarizes(m.background, index),
    ensures
        ({
            let n = m.prefetch(children, options);
            &&& n.nodes.len() == m.nodes.len()
            &&& n.nodes[index as int].parent == m.nodes[index as int].parent
            &&& n.is_known_or_pending(index)
            &&& !some_job_summarizes(n.background, index)
        }),
    decreases children.len(),
{
    if children.len() > 0 && m.pressing_jobs() < MAX_SCAN_JOBS {
        let next = m.ensure_scanned(children[0], options);
        lemma_ensure_scanned_keeps(m, children[0], options);
        law_requests_take_nothing_back(m, children[0], options, index);
        lemma_prefetch_keeps_listing(next, children.skip(1), options, index);
    }
}

/// The model of an explorer holds what the explorer does.
pub proof fn law_models_hold_the_explorer(explorer: Explorer)
    ensures
        explorer@.focus == explorer.focus,
        explorer@.selected == explorer.selected,
        explorer@.expansion == explorer.expansion@,
        explorer@.scan is Some <==> explorer.scan is Some,
        explorer.scan is Some ==> explorer@.scan->0 == explorer.scan->0@,
{
}

/// A directory that is opened, or under the pointer, has the directories in it listed
/// ahead of need, as far as there is room: two jobs or more run or wait then, or each of
/// them is listed or will be.
pub proof fn law_opening_lists_ahead(
    m: ScanModel,
    index: TreeIndex,
    options: ScanOptions,
    place: int,
)
    requires
        m.wf(),
        m.has(index),
        0 <= place < m.nodes[index as int].children.len(),
        m.nodes[m.nodes[index as int].children[place] as int].is_dir,
    ensures
        ({
            let child = m.nodes[index as int].children[place];
            let hovered = prefetched(m, index, options);
            let n = opened(m, index, options);
            &&& hovered.stats.active_jobs + hovered.queued.len() >= 2
                || hovered.is_known_or_pending(child)
            &&& n.stats.active_jobs + n.queued.len() >= 2 || n.is_known_or_pending(child)
        }),
{
    let children = m.nodes[index as int].children;
    assert(m.nodes[index as int].children[place] < m.nodes.len());
    law_listing_ahead_stops_for_want_of_room(m, children, options, place);
    let asked = m.ensure_scanned(index, options);
    lemma_ensure_scanned_keeps(m, index, options);
    law_requests_take_nothing_back(m, index, options, children[place]);
    law_requests_take_nothing_back(m, index, options, index);
    law_listing_ahead_stops_for_want_of_room(asked, children, options, place);
}

} // verus!

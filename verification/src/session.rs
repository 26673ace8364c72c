//! What a session decides: when a scan is out of date, what keys do, and when a
//! deletion is confirmed.
use crate::deletion::DeleteMode;
use crate::filters::Filters;
use crate::labels::{active_filters, filters_active};
use crate::paths::{path_parts, OsPath};
use crate::scan::data::{ScanOptions, TreeIndex};
use crate::scan::listing::{
    entry_models, is_pending_dir, law_pending_directories_can_be_seen, with_pending_room,
    EntryModel, EntryView,
};
use crate::scan::state::ActiveScan;
use crate::text::{
    chars_of, is_text, is_white, law_white_space_around_a_text_does_not_matter, lossy_text,
    text_of, text_of_bytes, trim, trimmed,
};
use crate::treemap::{sized_items, TreemapItem};
use vstd::prelude::*;
use vstd::utf8::{decode_utf8, encode_utf8, valid_utf8};

verus! {

/// How many children of a directory are listed beside the treemap.
pub const INSPECTOR_CHILD_LIMIT: usize = 80;

/// How deep tiles are drawn within tiles.
pub const MAX_TILE_DEPTH: usize = 32;

/// The path that is typed: the text without the white space around it.
pub open spec fn typed_path(input: Seq<char>) -> Seq<u8> {
    encode_utf8(trimmed(input))
}

/// The path that is typed.
pub fn scan_path(input: &str) -> (r: OsPath)
    ensures
        r@ == typed_path(input@),
{
    let chars: Vec<char> = chars_of(input);
    let text: String = text_of(trim(chars.as_slice()).as_slice());
    OsPath::from_text(text.as_str())
}

/// Whether another path is typed than the one that was scanned.
pub fn path_dirty(scan: Option<&ActiveScan>, input: &str) -> (r: bool)
    ensures
        r == match scan {
            Some(known) => path_parts(typed_path(input@)) != path_parts(known@.root),
            None => false,
        },
{
    match scan {
        Some(known) => !scan_path(input).same_as(known.root()),
        None => false,
    }
}

/// Whether other options are chosen than those that the scan was made with.
pub fn scan_options_dirty(has_scan: bool, chosen: ScanOptions, active: ScanOptions) -> (r: bool)
    ensures
        r == (has_scan && chosen != active),
{
    has_scan && chosen != active
}

/// The words for the state of a scan, or that another path is typed.
pub fn status_text<'a>(path_dirty: bool, status: &'a str) -> (r: &'a str)
    ensures
        r@ == if path_dirty {
            "Path changed; scan to update."@
        } else {
            status@
        },
{
    if path_dirty {
        "Path changed; scan to update."
    } else {
        status
    }
}

/// What stands on the button that scans again.
pub fn rescan_label(path_dirty: bool) -> (r: &'static str)
    ensures
        r@ == if path_dirty {
            "scan path"@
        } else {
            "rescan to apply"@
        },
{
    if path_dirty {
        "scan path"
    } else {
        "rescan to apply"
    }
}

/// What is said where a directory shows no children.
pub fn empty_text(is_loading: bool, filters: &Filters) -> (r: &'static str)
    ensures
        r@ == if is_loading {
            "Loading this folder..."@
        } else if active_filters(*filters) > 0 {
            "No matching children"@
        } else {
            "No visible children"@
        },
{
    if is_loading {
        "Loading this folder..."
    } else if filters_active(filters) {
        "No matching children"
    } else {
        "No visible children"
    }
}

/// The sizes of entries, added up as a number of 128 bits.
pub open spec fn total_size(entries: Seq<EntryModel>) -> u128
    decreases entries.len(),
{
    if entries.len() == 0 {
        0
    } else {
        total_size(entries.drop_last()).wrapping_add(entries.last().size)
    }
}

/// What the sizes of entries are compared with: all of them, but not zero.
pub fn child_total(entries: &Vec<EntryView>) -> (r: u128)
    ensures
        r == if total_size(entry_models(entries@)) == 0 {
            1
        } else {
            total_size(entry_models(entries@))
        },
{
    let ghost all = entry_models(entries@);
    let mut total: u128 = 0;
    let mut i: usize = 0;
    while i < entries.len()
        invariant
            i <= entries@.len(),
            all == entry_models(entries@),
            total == total_size(all.take(i as int)),
        decreases entries@.len() - i,
    {
        proof {
            assert(all.take(i as int + 1).drop_last() =~= all.take(i as int));
            assert(all.take(i as int + 1).last() == entries@[i as int]@);
        }
        total = total.wrapping_add(entries[i].size);
        i = i + 1;
    }
    proof {
        assert(all.take(all.len() as int) =~= all);
    }
    if total == 0 {
        1
    } else {
        total
    }
}

/// The size that the colors of tiles are measured by: that of the first entry, but
/// not zero.
pub fn largest_tile(entries: &Vec<EntryView>) -> (r: u128)
    ensures
        r == if entries@.len() == 0 || entries@[0].size == 0 {
            1
        } else {
            entries@[0].size
        },
{
    if entries.len() == 0 || entries[0].size == 0 {
        1
    } else {
        entries[0].size
    }
}

/// An entry as the treemap takes it: a node and the room for it.
pub open spec fn treemap_item(entry: EntryModel) -> TreemapItem<TreeIndex> {
    TreemapItem { item: entry.index, size: entry.layout_size }
}

/// The entries as the treemap takes them.
pub open spec fn treemap_items_of(entries: Seq<EntryModel>) -> Seq<TreemapItem<TreeIndex>> {
    entries.map_values(|entry: EntryModel| treemap_item(entry))
}

/// The entries as the treemap takes them.
pub fn treemap_items(entries: &Vec<EntryView>) -> (r: Vec<TreemapItem<TreeIndex>>)
    ensures
        r@ == treemap_items_of(entry_models(entries@)),
        r@.len() == entries@.len(),
        forall|i: int|
            0 <= i < r@.len() ==> (#[trigger] r@[i]).item == entries@[i].index && r@[i].size
                == entries@[i].layout_size,
{
    let mut items: Vec<TreemapItem<TreeIndex>> = Vec::new();
    let mut i: usize = 0;
    while i < entries.len()
        invariant
            i <= entries@.len(),
            items@.len() == i,
            forall|k: int| 0 <= k < i ==> #[trigger] items@[k] == treemap_item(entries@[k]@),
        decreases entries@.len() - i,
    {
        items.push(TreemapItem { item: entries[i].index, size: entries[i].layout_size });
        i = i + 1;
    }
    proof {
        assert(items@ =~= treemap_items_of(entry_models(entries@)));
    }
    items
}

/// Every directory whose size is not known yet has a place in the treemap.
pub proof fn law_pending_directories_have_tiles(entries: Seq<EntryModel>, place: int)
    requires
        0 <= place < entries.len(),
        is_pending_dir(entries[place]),
    ensures
        sized_items(treemap_items_of(with_pending_room(entries))).contains(
            treemap_item(with_pending_room(entries)[place]),
        ),
{
    let roomy = with_pending_room(entries);
    let items = treemap_items_of(roomy);
    law_pending_directories_can_be_seen(entries, place);
    assert(items[place] == treemap_item(roomy[place]));
    let takes_room = |item: TreemapItem<TreeIndex>| item.size > 0;
    items.lemma_filter_contains(takes_room, place);
}

/// A path that is to be deleted, once that is confirmed.
#[derive(Debug, Clone)]
pub struct DeleteRequest {
    pub path: OsPath,
    pub mode: DeleteMode,
}

/// Whether a deletion is confirmed: the path has to be typed for what cannot be
/// undone.
pub open spec fn confirms(mode: DeleteMode, shown: Seq<char>, typed: Seq<char>) -> bool {
    mode == DeleteMode::Trash || typed == shown
}

/// Whether a deletion is confirmed, given the text that stands for the path.
pub fn confirms_deletion(mode: DeleteMode, shown: &str, typed: &str) -> (r: bool)
    ensures
        r == confirms(mode, shown@, typed@),
{
    let chars: Vec<char> = chars_of(typed);
    mode == DeleteMode::Trash || is_text(chars.as_slice(), shown)
}

impl DeleteRequest {
    /// Whether the deletion is confirmed by what has been typed.
    pub fn is_confirmed(&self, typed: &str) -> (r: bool)
        ensures
            r == confirms(self.mode, lossy_text(self.path@), typed@),
            valid_utf8(self.path@) ==> r == confirms(self.mode, decode_utf8(self.path@), typed@),
    {
        let shown: String = text_of_bytes(&self.path.bytes);
        confirms_deletion(self.mode, shown.as_str(), typed)
    }
}

/// A path as text: as it is where it is UTF-8, and with replacement characters
/// where it is not.
pub fn path_text(path: &OsPath) -> (r: String)
    ensures
        r@ == lossy_text(path@),
        valid_utf8(path@) ==> r@ == decode_utf8(path@),
{
    text_of_bytes(&path.bytes)
}

/// The keys and buttons that were pressed.
#[derive(Debug, Clone, Copy)]
pub struct Keys {
    pub back_button: bool,
    pub refresh: bool,
    pub escape: bool,
    pub up: bool,
    pub down: bool,
    pub home: bool,
    pub end: bool,
    pub enter: bool,
    pub backspace: bool,
    pub ctrl: bool,
}

/// What keys and buttons do.
#[derive(Debug, Clone, Copy, PartialEq, Eq, Structural)]
pub enum KeyAction {
    /// Go one step up, if there is a way.
    GoUp,
    Rescan,
    CloseWindows,
    SelectPrevious,
    SelectNext,
    SelectFirst,
    SelectLast,
    FocusSelected,
    ExpandSelected,
}

/// One action, if it is wanted.
pub open spec fn action_if(wanted: bool, action: KeyAction) -> Seq<KeyAction> {
    if wanted {
        seq![action]
    } else {
        Seq::empty()
    }
}

/// What keys and buttons do, in order. While a text is being typed, only the mouse
/// and the keys that are no part of it do anything.
pub open spec fn actions_of(keys: Keys, is_typing: bool) -> Seq<KeyAction> {
    let always = action_if(keys.back_button, KeyAction::GoUp) + action_if(
        keys.refresh,
        KeyAction::Rescan,
    ) + action_if(keys.escape, KeyAction::CloseWindows);
    if is_typing {
        always
    } else {
        always + action_if(keys.up, KeyAction::SelectPrevious) + action_if(
            keys.down,
            KeyAction::SelectNext,
        ) + action_if(keys.home, KeyAction::SelectFirst) + action_if(
            keys.end,
            KeyAction::SelectLast,
        ) + action_if(
            keys.enter,
            if keys.ctrl {
                KeyAction::FocusSelected
            } else {
                KeyAction::ExpandSelected
            },
        ) + action_if(keys.backspace, KeyAction::GoUp)
    }
}

fn push_if(actions: &mut Vec<KeyAction>, wanted: bool, action: KeyAction)
    ensures
        final(actions)@ == old(actions)@ + action_if(wanted, action),
{
    let ghost before = actions@;
    if wanted {
        actions.push(action);
    }
    proof {
        assert(actions@ =~= before + action_if(wanted, action));
    }
}

/// What keys and buttons do, in order.
pub fn key_actions(keys: &Keys, is_typing: bool) -> (r: Vec<KeyAction>)
    ensures
        r@ == actions_of(*keys, is_typing),
{
    let mut actions: Vec<KeyAction> = Vec::new();
    push_if(&mut actions, keys.back_button, KeyAction::GoUp);
    push_if(&mut actions, keys.refresh, KeyAction::Rescan);
    push_if(&mut actions, keys.escape, KeyAction::CloseWindows);
    proof {
        assert(actions@ =~= action_if(keys.back_button, KeyAction::GoUp) + action_if(
            keys.refresh,
            KeyAction::Rescan,
        ) + action_if(keys.escape, KeyAction::CloseWindows));
    }
    if is_typing {
        return actions;
    }
    push_if(&mut actions, keys.up, KeyAction::SelectPrevious);
    push_if(&mut actions, keys.down, KeyAction::SelectNext);
    push_if(&mut actions, keys.home, KeyAction::SelectFirst);
    push_if(&mut actions, keys.end, KeyAction::SelectLast);
    push_if(
        &mut actions,
        keys.enter,
        if keys.ctrl {
            KeyAction::FocusSelected
        } else {
            KeyAction::ExpandSelected
        },
    );
    push_if(&mut actions, keys.backspace, KeyAction::GoUp);
    actions
}

/// While a text is being typed, no key moves the selection or opens anything.
pub proof fn law_typing_does_not_navigate(keys: Keys, place: int)
    requires
        0 <= place < actions_of(keys, true).len(),
    ensures
        ({
            let action = actions_of(keys, true)[place];
            action == KeyAction::GoUp || action == KeyAction::Rescan || action
                == KeyAction::CloseWindows
        }),
        actions_of(keys, true)[place] == KeyAction::GoUp ==> keys.back_button,
{
}

/// What cannot be undone is confirmed by its path alone.
pub proof fn law_permanent_deletion_needs_the_path(shown: Seq<char>, typed: Seq<char>)
    ensures
        confirms(DeleteMode::Permanent, shown, typed) <==> typed == shown,
        confirms(DeleteMode::Trash, shown, typed),
{
}

/// A key does its own action, once, and no other; the keys that are part of a text do
/// nothing while one is typed.
pub proof fn law_each_key_does_one_thing(keys: Keys, is_typing: bool)
    ensures
        ({
            let actions = actions_of(keys, is_typing);
            &&& actions.contains(KeyAction::Rescan) <==> keys.refresh
            &&& actions.contains(KeyAction::CloseWindows) <==> keys.escape
            &&& actions.contains(KeyAction::GoUp) <==> keys.back_button || (keys.backspace
                && !is_typing)
            &&& actions.contains(KeyAction::SelectPrevious) <==> keys.up && !is_typing
            &&& actions.contains(KeyAction::SelectNext) <==> keys.down && !is_typing
            &&& actions.contains(KeyAction::SelectFirst) <==> keys.home && !is_typing
            &&& actions.contains(KeyAction::SelectLast) <==> keys.end && !is_typing
            &&& actions.contains(KeyAction::FocusSelected) <==> keys.enter && keys.ctrl
                && !is_typing
            &&& actions.contains(KeyAction::ExpandSelected) <==> keys.enter && !keys.ctrl
                && !is_typing
        }),
{
    lemma_actions_hold(keys, is_typing, KeyAction::GoUp);
    lemma_actions_hold(keys, is_typing, KeyAction::Rescan);
    lemma_actions_hold(keys, is_typing, KeyAction::CloseWindows);
    lemma_actions_hold(keys, is_typing, KeyAction::SelectPrevious);
    lemma_actions_hold(keys, is_typing, KeyAction::SelectNext);
    lemma_actions_hold(keys, is_typing, KeyAction::SelectFirst);
    lemma_actions_hold(keys, is_typing, KeyAction::SelectLast);
    lemma_actions_hold(keys, is_typing, KeyAction::FocusSelected);
    lemma_actions_hold(keys, is_typing, KeyAction::ExpandSelected);
}

/// Which keys lead to an action.
proof fn lemma_actions_hold(keys: Keys, is_typing: bool, action: KeyAction)
    ensures
        actions_of(keys, is_typing).contains(action) <==> {
            ||| keys.back_button && action == KeyAction::GoUp
            ||| keys.refresh && action == KeyAction::Rescan
            ||| keys.escape && action == KeyAction::CloseWindows
            ||| !is_typing && keys.up && action == KeyAction::SelectPrevious
            ||| !is_typing && keys.down && action == KeyAction::SelectNext
            ||| !is_typing && keys.home && action == KeyAction::SelectFirst
            ||| !is_typing && keys.end && action == KeyAction::SelectLast
            ||| !is_typing && keys.enter && keys.ctrl && action == KeyAction::FocusSelected
            ||| !is_typing && keys.enter && !keys.ctrl && action == KeyAction::ExpandSelected
            ||| !is_typing && keys.backspace && action == KeyAction::GoUp
        },
{
    let enter = if keys.ctrl {
        KeyAction::FocusSelected
    } else {
        KeyAction::ExpandSelected
    };
    let one = action_if(keys.back_button, KeyAction::GoUp);
    let two = one + action_if(keys.refresh, KeyAction::Rescan);
    let three = two + action_if(keys.escape, KeyAction::CloseWindows);
    let four = three + action_if(keys.up, KeyAction::SelectPrevious);
    let five = four + action_if(keys.down, KeyAction::SelectNext);
    let six = five + action_if(keys.home, KeyAction::SelectFirst);
    let seven = six + action_if(keys.end, KeyAction::SelectLast);
    let eight = seven + action_if(keys.enter, enter);
    lemma_one_action(keys.back_button, KeyAction::GoUp, action);
    lemma_one_more(one, keys.refresh, KeyAction::Rescan, action);
    lemma_one_more(two, keys.escape, KeyAction::CloseWindows, action);
    lemma_one_more(three, keys.up, KeyAction::SelectPrevious, action);
    lemma_one_more(four, keys.down, KeyAction::SelectNext, action);
    lemma_one_more(five, keys.home, KeyAction::SelectFirst, action);
    lemma_one_more(six, keys.end, KeyAction::SelectLast, action);
    lemma_one_more(seven, keys.enter, enter, action);
    lemma_one_more(eight, keys.backspace, KeyAction::GoUp, action);
}

proof fn lemma_one_action(wanted: bool, action: KeyAction, other: KeyAction)
    ensures
        action_if(wanted, action).contains(other) <==> wanted && action == other,
{
    if wanted {
        assert(action_if(wanted, action)[0] == action);
    }
}

proof fn lemma_one_more(
    before: Seq<KeyAction>,
    wanted: bool,
    action: KeyAction,
    other: KeyAction,
)
    ensures
        (before + action_if(wanted, action)).contains(other) <==> before.contains(other) || (wanted
            && action == other),
{
    lemma_in_either(before, action_if(wanted, action), other);
    lemma_one_action(wanted, action, other);
}

proof fn lemma_in_either(a: Seq<KeyAction>, b: Seq<KeyAction>, action: KeyAction)
    ensures
        (a + b).contains(action) <==> a.contains(action) || b.contains(action),
{
    if a.contains(action) {
        let i = choose|i: int| 0 <= i < a.len() && a[i] == action;
        assert((a + b)[i] == action);
    }
    if b.contains(action) {
        let i = choose|i: int| 0 <= i < b.len() && b[i] == action;
        assert((a + b)[a.len() + i] == action);
    }
}

/// All keys at once do their actions in this order.
pub proof fn law_keys_act_in_order(keys: Keys)
    requires
        keys.back_button,
        keys.refresh,
        keys.escape,
        keys.up,
        keys.down,
        keys.home,
        keys.end,
        keys.enter,
        keys.backspace,
    ensures
        actions_of(keys, true) == seq![
            KeyAction::GoUp,
            KeyAction::Rescan,
            KeyAction::CloseWindows,
        ],
        actions_of(keys, false) == seq![
            KeyAction::GoUp,
            KeyAction::Rescan,
            KeyAction::CloseWindows,
            KeyAction::SelectPrevious,
            KeyAction::SelectNext,
            KeyAction::SelectFirst,
            KeyAction::SelectLast,
            if keys.ctrl {
                KeyAction::FocusSelected
            } else {
                KeyAction::ExpandSelected
            },
            KeyAction::GoUp,
        ],
{
    assert(actions_of(keys, true) =~= seq![
        KeyAction::GoUp,
        KeyAction::Rescan,
        KeyAction::CloseWindows,
    ]);
    assert(actions_of(keys, false) =~= seq![
        KeyAction::GoUp,
        KeyAction::Rescan,
        KeyAction::CloseWindows,
        KeyAction::SelectPrevious,
        KeyAction::SelectNext,
        KeyAction::SelectFirst,
        KeyAction::SelectLast,
        if keys.ctrl {
            KeyAction::FocusSelected
        } else {
            KeyAction::ExpandSelected
        },
        KeyAction::GoUp,
    ]);
}

/// The path that is typed is the text, whatever white space is around it.
pub proof fn law_white_space_around_a_path_does_not_matter(
    front: Seq<char>,
    text: Seq<char>,
    back: Seq<char>,
)
    requires
        forall|k: int| 0 <= k < front.len() ==> is_white(#[trigger] front[k]),
        forall|k: int| 0 <= k < back.len() ==> is_white(#[trigger] back[k]),
        text.len() > 0 ==> !is_white(text[0]) && !is_white(text.last()),
    ensures
        typed_path(front + text + back) == encode_utf8(text),
{
    law_white_space_around_a_text_does_not_matter(front, text, back);
}

/// A tile is that of its entry, and as large as the room for it.
pub proof fn law_tiles_are_as_large_as_their_room(entries: Seq<EntryModel>)
    ensures
        treemap_items_of(entries).len() == entries.len(),
        forall|i: int|
            0 <= i < entries.len() ==> (#[trigger] treemap_items_of(entries)[i]).item
                == entries[i].index && treemap_items_of(entries)[i].size == entries[i].layout_size,
{
}

/// The total of entries is that of some of them and the rest, whatever order they are
/// counted in; an entry counts with its size.
pub proof fn law_totals_add_up(some: Seq<EntryModel>, rest: Seq<EntryModel>, entry: EntryModel)
    ensures
        total_size(some + rest) == total_size(some).wrapping_add(total_size(rest)),
        total_size(seq![entry]) == entry.size,
        total_size(Seq::empty()) == 0,
    decreases rest.len(),
{
    assert(seq![entry].drop_last() =~= Seq::empty());
    assert(total_size(Seq::empty()) == 0);
    if rest.len() == 0 {
        assert(some + rest =~= some);
    } else {
        assert((some + rest).drop_last() =~= some + rest.drop_last());
        law_totals_add_up(some, rest.drop_last(), entry);
    }
}

} // verus!

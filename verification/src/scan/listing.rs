//! What a scan shows of its nodes.
use crate::clock::Timestamp;
use crate::order::{law_sorted_by_is_a_sorted_rearrangement, law_sorted_is_a_sorted_rearrangement,
    law_sorting_respects_views, sorted, sorted_by, stable_sort, Ranked};
use crate::paths::{
    bytes_before, bytes_come_before, law_bytes_before_irreflexive, law_bytes_before_total,
    law_bytes_before_transitive, path_has_parent, OsPath,
};
use crate::scan::data::{
    DirectoryScanState, NodeModel, TreeIndex, PROVISIONAL_PENDING_LAYOUT_SIZE,
};
use crate::scan::model::ScanModel;
use crate::scan::state::ActiveScan;
use vstd::prelude::*;
use vstd::utf8::encode_utf8;

verus! {

/// A node, as it is shown.
#[derive(Debug, Clone)]
pub struct EntryView {
    pub index: TreeIndex,
    pub name: String,
    pub path: OsPath,
    pub size: u128,
    pub layout_size: u128,
    pub modified: Timestamp,
    pub is_dir: bool,
    pub entry_count: Option<u64>,
    pub metadata_error: bool,
    pub size_pending: bool,
    pub estimating: bool,
    pub estimate_entries_seen: u64,
}

/// A node, as it is shown, as a mathematical value.
#[verifier::ext_equal]
pub struct EntryModel {
    pub index: TreeIndex,
    pub name: Seq<char>,
    pub path: Seq<u8>,
    pub size: u128,
    pub layout_size: u128,
    pub modified: Timestamp,
    pub is_dir: bool,
    pub entry_count: Option<u64>,
    pub metadata_error: bool,
    pub size_pending: bool,
    pub estimating: bool,
    pub estimate_entries_seen: u64,
}

impl View for EntryView {
    type V = EntryModel;

    open spec fn view(&self) -> EntryModel {
        EntryModel {
            index: self.index,
            name: self.name@,
            path: self.path@,
            size: self.size,
            layout_size: self.layout_size,
            modified: self.modified,
            is_dir: self.is_dir,
            entry_count: self.entry_count,
            metadata_error: self.metadata_error,
            size_pending: self.size_pending,
            estimating: self.estimating,
            estimate_entries_seen: self.estimate_entries_seen,
        }
    }
}

/// The models of a list of entries.
pub open spec fn entry_models(entries: Seq<EntryView>) -> Seq<EntryModel> {
    entries.map_values(|entry: EntryView| entry@)
}

impl EntryView {
    /// An equal copy.
    pub fn duplicate(&self) -> (r: EntryView)
        ensures
            r@ == self@,
    {
        EntryView {
            index: self.index,
            name: self.name.clone(),
            path: self.path.duplicate(),
            size: self.size,
            layout_size: self.layout_size,
            modified: self.modified,
            is_dir: self.is_dir,
            entry_count: self.entry_count,
            metadata_error: self.metadata_error,
            size_pending: self.size_pending,
            estimating: self.estimating,
            estimate_entries_seen: self.estimate_entries_seen,
        }
    }
}

/// Whether one text comes before another, byte by byte.
pub open spec fn text_before(left: Seq<char>, right: Seq<char>) -> bool {
    bytes_before(encode_utf8(left), encode_utf8(right))
}

/// Whether one entry is listed before another: the one that takes more room,
/// then the larger, then the one whose name comes first.
pub open spec fn entry_before(left: EntryModel, right: EntryModel) -> bool {
    ||| left.layout_size > right.layout_size
    ||| left.layout_size == right.layout_size && left.size > right.size
    ||| left.layout_size == right.layout_size && left.size == right.size && text_before(
        left.name,
        right.name,
    )
}

impl Ranked for EntryView {
    open spec fn before(self, other: EntryView) -> bool {
        entry_before(self@, other@)
    }

    proof fn before_is_asymmetric(a: EntryView, b: EntryView) {
        lemma_entry_before_asymmetric(a@, b@);
    }

    proof fn before_is_consistent(a: EntryView, b: EntryView, c: EntryView) {
        lemma_entry_before_consistent(a@, b@, c@);
    }

    fn stands_before(&self, other: &EntryView) -> (r: bool) {
        if self.layout_size != other.layout_size {
            return self.layout_size > other.layout_size;
        }
        if self.size != other.size {
            return self.size > other.size;
        }
        bytes_come_before(self.name.as_str().as_bytes(), other.name.as_str().as_bytes())
    }
}

/// A node, as it is shown before its room is decided.
pub open spec fn shown(index: TreeIndex, node: NodeModel) -> EntryModel {
    EntryModel {
        index,
        name: node.name,
        path: node.path,
        size: node.size,
        layout_size: node.size,
        modified: node.modified,
        is_dir: node.is_dir,
        entry_count: node.entry_count,
        metadata_error: node.metadata_error,
        size_pending: node.is_dir && !node.summarized,
        estimating: node.summarizing || node.summary_queued,
        estimate_entries_seen: node.summary_entries_seen,
    }
}

/// A node, as it is shown, if there is one with that number.
pub open spec fn shown_node(scan: ScanModel, index: TreeIndex) -> Option<EntryModel> {
    if scan.has(index) {
        Some(shown(index, scan.nodes[index as int]))
    } else {
        None
    }
}

/// The given nodes, as they are shown.
pub open spec fn shown_nodes(scan: ScanModel, indices: Seq<TreeIndex>) -> Seq<EntryModel>
    decreases indices.len(),
{
    if indices.len() == 0 {
        Seq::empty()
    } else {
        let before = shown_nodes(scan, indices.drop_last());
        match shown_node(scan, indices.last()) {
            Some(entry) => before.push(entry),
            None => before,
        }
    }
}

/// Whether the room that a directory takes is only a guess.
pub open spec fn is_pending_dir(entry: EntryModel) -> bool {
    entry.is_dir && entry.size_pending
}

/// The sizes that are known and not zero.
pub open spec fn known_sizes(entries: Seq<EntryModel>) -> Seq<u128>
    decreases entries.len(),
{
    if entries.len() == 0 {
        Seq::empty()
    } else {
        let before = known_sizes(entries.drop_last());
        if !entries.last().size_pending && entries.last().size > 0 {
            before.push(entries.last().size)
        } else {
            before
        }
    }
}

/// The sum of sizes.
pub open spec fn sum_of(sizes: Seq<u128>) -> int
    decreases sizes.len(),
{
    if sizes.len() == 0 {
        0
    } else {
        sum_of(sizes.drop_last()) + sizes.last()
    }
}

/// The larger of two numbers.
pub open spec fn larger(left: int, right: int) -> int {
    if left >= right {
        left
    } else {
        right
    }
}

/// The largest size of the entries, or zero where there is none.
pub open spec fn largest_size(entries: Seq<EntryModel>) -> int
    decreases entries.len(),
{
    if entries.len() == 0 {
        0
    } else {
        larger(largest_size(entries.drop_last()), entries.last().size as int)
    }
}

/// The room for directories whose size is not known yet. It keeps them visible
/// next to what has been measured: it is the median of the known sizes, half
/// their average or a sixth of the largest, whichever is most. Without known
/// sizes it is the largest size at all. It is never below a floor.
pub open spec fn provisional_room(entries: Seq<EntryModel>) -> int {
    let known = sorted(known_sizes(entries));
    larger(
        PROVISIONAL_PENDING_LAYOUT_SIZE as int,
        if known.len() == 0 {
            largest_size(entries)
        } else {
            larger(
                known[known.len() as int / 2] as int,
                larger(sum_of(known) / (known.len() as int) / 2, known.last() as int / 6),
            )
        },
    )
}

/// An entry with at least the given room if it is a pending directory.
pub open spec fn with_room(entry: EntryModel, room: int) -> EntryModel {
    if is_pending_dir(entry) {
        EntryModel { layout_size: larger(entry.layout_size as int, room) as u128, ..entry }
    } else {
        entry
    }
}

/// The entries with room for the pending directories.
pub open spec fn with_pending_room(entries: Seq<EntryModel>) -> Seq<EntryModel> {
    entries.map_values(|entry: EntryModel| with_room(entry, provisional_room(entries)))
}

/// The children of a node as they are listed.
pub open spec fn listing(scan: ScanModel, parent: TreeIndex) -> Seq<EntryModel> {
    if scan.has(parent) {
        sorted_by(
            with_pending_room(shown_nodes(scan, scan.nodes[parent as int].children)),
            |a: EntryModel, b: EntryModel| entry_before(a, b),
        )
    } else {
        Seq::empty()
    }
}

/// The node with the given number, as it is shown.
pub fn entry_view(scan: &ActiveScan, index: TreeIndex) -> (r: Option<EntryView>)
    ensures
        match r {
            Some(entry) => shown_node(scan@, index) == Some(entry@),
            None => shown_node(scan@, index) is None,
        },
{
    match scan.node(index) {
        Some(node) => Some(
            EntryView {
                index,
                name: node.name.clone(),
                path: node.path.duplicate(),
                size: node.size,
                layout_size: node.size,
                modified: node.modified,
                is_dir: node.is_dir,
                entry_count: node.entry_count,
                metadata_error: node.metadata_error,
                size_pending: node.is_dir && !node.summarized,
                estimating: node.summarizing || node.summary_queued,
                estimate_entries_seen: node.summary_entries_seen,
            },
        ),
        None => None,
    }
}

/// The children of a node, those that take most room first.
pub fn children(scan: &ActiveScan, parent: TreeIndex) -> (r: Vec<EntryView>)
    ensures
        entry_models(r@) == listing(scan@, parent),
{
    let mut entries: Vec<EntryView> = Vec::new();
    if let Some(node) = scan.node(parent) {
        let ghost all = node.children@;
        let mut i: usize = 0;
        proof {
            assert(entry_models(entries@) =~= shown_nodes(scan@, all.take(0)));
        }
        while i < node.children.len()
            invariant
                all == node.children@,
                i <= all.len(),
                entry_models(entries@) == shown_nodes(scan@, all.take(i as int)),
            decreases all.len() - i,
        {
            let ghost before = entry_models(entries@);
            proof {
                assert(all.take(i as int + 1).drop_last() =~= all.take(i as int));
                assert(all.take(i as int + 1).last() == all[i as int]);
            }
            if let Some(entry) = entry_view(scan, node.children[i]) {
                let ghost shown_entry = entry@;
                entries.push(entry);
                proof {
                    assert(entry_models(entries@) =~= before.push(shown_entry));
                }
            }
            i = i + 1;
        }
        proof {
            assert(all.take(all.len() as int) =~= all);
        }
        apply_pending_layout_weights(&mut entries);
        let ghost weighted = entries@;
        let sorted_entries: Vec<EntryView> = stable_sort(entries);
        proof {
            law_sorting_respects_views(
                weighted,
                |entry: EntryView| entry@,
                |a: EntryModel, b: EntryModel| entry_before(a, b),
            );
        }
        sorted_entries
    } else {
        proof {
            assert(entry_models(entries@) =~= Seq::empty());
        }
        entries
    }
}

/// Gives the pending directories room enough to be seen.
pub fn apply_pending_layout_weights(entries: &mut Vec<EntryView>)
    ensures
        entry_models(final(entries)@) == with_pending_room(entry_models(old(entries)@)),
{
    let ghost start = entry_models(entries@);
    let ghost room = provisional_room(start);
    let mut pending = false;
    let mut i: usize = 0;
    while i < entries.len()
        invariant
            i <= entries@.len(),
            start == entry_models(entries@),
            pending == exists|k: int| 0 <= k < i && is_pending_dir(#[trigger] start[k]),
        decreases entries@.len() - i,
    {
        proof {
            assert(start[i as int] == entries@[i as int]@);
        }
        if entries[i].is_dir && entries[i].size_pending {
            pending = true;
        }
        i = i + 1;
    }
    if !pending {
        proof {
            assert(start =~= with_pending_room(start));
        }
        return;
    }
    let provisional: u128 = provisional_pending_layout_size(entries);
    let mut i: usize = 0;
    while i < entries.len()
        invariant
            i <= entries@.len(),
            entries@.len() == start.len(),
            provisional == room,
            room == provisional_room(start),
            forall|k: int|
                #![trigger entries@[k]]
                0 <= k < start.len() ==> entries@[k]@ == if k < i {
                    with_room(start[k], room)
                } else {
                    start[k]
                },
        decreases entries@.len() - i,
    {
        let ghost before = entries@;
        proof {
            assert(before[i as int]@ == start[i as int]);
        }
        if entries[i].is_dir && entries[i].size_pending && entries[i].layout_size < provisional {
            entries[i].layout_size = provisional;
        }
        proof {
            assert forall|k: int| #![trigger entries@[k]] 0 <= k < start.len() && k != i implies
                entries@[k] == before[k] by {}
        }
        i = i + 1;
    }
    proof {
        assert(entry_models(entries@) =~= with_pending_room(start));
    }
}

/// The room for directories whose size is not known yet.
pub fn provisional_pending_layout_size(entries: &Vec<EntryView>) -> (r: u128)
    ensures
        r == provisional_room(entry_models(entries@)),
{
    let ghost all = entry_models(entries@);
    let mut known: Vec<u128> = Vec::new();
    let mut largest: u128 = 0;
    let mut i: usize = 0;
    while i < entries.len()
        invariant
            i <= entries@.len(),
            all == entry_models(entries@),
            known@ == known_sizes(all.take(i as int)),
            largest == largest_size(all.take(i as int)),
        decreases entries@.len() - i,
    {
        proof {
            assert(all.take(i as int + 1).drop_last() =~= all.take(i as int));
            assert(all.take(i as int + 1).last() == entries@[i as int]@);
        }
        if !entries[i].size_pending && entries[i].size > 0 {
            known.push(entries[i].size);
        }
        if entries[i].size > largest {
            largest = entries[i].size;
        }
        i = i + 1;
    }
    proof {
        assert(all.take(all.len() as int) =~= all);
    }
    if known.len() == 0 {
        proof {
            law_sorted_is_a_sorted_rearrangement(known@);
        }
        return if largest > PROVISIONAL_PENDING_LAYOUT_SIZE {
            largest
        } else {
            PROVISIONAL_PENDING_LAYOUT_SIZE
        };
    }
    let known: Vec<u128> = stable_sort(known);
    let median: u128 = known[known.len() / 2];
    let half_average: u128 = average_of(&known) / 2;
    let part_of_largest: u128 = known[known.len() - 1] / 6;
    let mut room: u128 = median;
    if half_average > room {
        room = half_average;
    }
    if part_of_largest > room {
        room = part_of_largest;
    }
    if PROVISIONAL_PENDING_LAYOUT_SIZE > room {
        room = PROVISIONAL_PENDING_LAYOUT_SIZE;
    }
    room
}

/// The average of sizes, rounded down. The sum itself may be too large for a
/// size, so quotient and remainder are carried along.
fn average_of(sizes: &Vec<u128>) -> (r: u128)
    requires
        sizes@.len() > 0,
    ensures
        r == sum_of(sizes@) / (sizes@.len() as int),
{
    let count: u128 = sizes.len() as u128;
    let mut quotient: u128 = 0;
    let mut remainder: u128 = 0;
    let mut i: usize = 0;
    let ghost n = count as int;
    proof {
        assert(sum_of(sizes@.take(0)) == 0);
        assert(0int == 0 * n) by (nonlinear_arith);
    }
    while i < sizes.len()
        invariant
            i <= sizes@.len(),
            n == sizes@.len(),
            n == count,
            0 < n <= usize::MAX,
            remainder < count,
            sum_of(sizes@.take(i as int)) == quotient * n + remainder,
            quotient * n + remainder <= i * u128::MAX,
        decreases sizes@.len() - i,
    {
        let size: u128 = sizes[i];
        let q: u128 = size / count;
        let r: u128 = size % count;
        proof {
            assert(sizes@.take(i as int + 1).drop_last() =~= sizes@.take(i as int));
            assert(sizes@.take(i as int + 1).last() == size);
            assert(size as int == q * n + r) by (nonlinear_arith)
                requires
                    n > 0,
                    q == size as int / n,
                    r == size as int % n,
            ;
            let total = quotient * n + remainder + size;
            assert(total <= (i + 1) * u128::MAX) by (nonlinear_arith)
                requires
                    quotient * n + remainder <= i * u128::MAX,
                    size <= u128::MAX,
                    total == quotient * n + remainder + size,
            ;
            assert((quotient + q) * n == quotient * n + q * n) by (nonlinear_arith);
            assert((quotient + q + 1) * n == (quotient + q) * n + n) by (nonlinear_arith);
            let carry = if remainder + r >= n {
                1int
            } else {
                0
            };
            assert((quotient + q + carry) * n <= (i + 1) * u128::MAX) by (nonlinear_arith)
                requires
                    total <= (i + 1) * u128::MAX,
                    (quotient + q) * n == quotient * n + q * n,
                    (quotient + q + 1) * n == (quotient + q) * n + n,
                    total == quotient * n + q * n + remainder + r,
                    carry == if remainder + r >= n {
                        1int
                    } else {
                        0
                    },
                    remainder >= 0,
                    r >= 0,
            ;
            assert(quotient + q + carry <= u128::MAX) by (nonlinear_arith)
                requires
                    (quotient + q + carry) * n <= (i + 1) * u128::MAX,
                    i + 1 <= n,
                    n > 0,
            ;
        }
        quotient = quotient + q;
        remainder = remainder + r;
        if remainder >= count {
            remainder = remainder - count;
            quotient = quotient + 1;
        }
        i = i + 1;
    }
    proof {
        assert(sizes@.take(sizes@.len() as int) =~= sizes@);
        assert((quotient * n + remainder) / n == quotient) by (nonlinear_arith)
            requires
                n > 0,
                0 <= remainder < n,
        ;
    }
    quotient
}

/// The parent of a node.
pub fn parent(scan: &ActiveScan, index: TreeIndex) -> (r: Option<TreeIndex>)
    ensures
        r == if scan@.has(index) {
            scan@.nodes[index as int].parent
        } else {
            None
        },
{
    match scan.node(index) {
        Some(node) => node.parent,
        None => None,
    }
}

/// How far the scan of a node is.
pub open spec fn scan_state(node: NodeModel) -> DirectoryScanState {
    if !node.is_dir {
        DirectoryScanState::NotDirectory
    } else if node.scanning {
        DirectoryScanState::Scanning
    } else if node.summarizing || node.summary_queued {
        DirectoryScanState::Estimating
    } else if node.scanned {
        DirectoryScanState::Scanned
    } else {
        DirectoryScanState::Pending
    }
}

/// How far the scan of a directory is.
pub fn directory_scan_state(scan: &ActiveScan, index: TreeIndex) -> (r: Option<
    DirectoryScanState,
>)
    ensures
        r == if scan@.has(index) {
            Some(scan_state(scan@.nodes[index as int]))
        } else {
            None
        },
{
    match scan.node(index) {
        Some(node) => Some(
            if !node.is_dir {
                DirectoryScanState::NotDirectory
            } else if node.scanning {
                DirectoryScanState::Scanning
            } else if node.summarizing || node.summary_queued {
                DirectoryScanState::Estimating
            } else if node.scanned {
                DirectoryScanState::Scanned
            } else {
                DirectoryScanState::Pending
            },
        ),
        None => None,
    }
}

/// The path of a node.
pub fn path_for_node(scan: &ActiveScan, index: TreeIndex) -> (r: Option<OsPath>)
    ensures
        match r {
            Some(path) => scan@.has(index) && path@ == scan@.nodes[index as int].path,
            None => !scan@.has(index),
        },
{
    match scan.node(index) {
        Some(node) => Some(node.path.duplicate()),
        None => None,
    }
}

/// Whether a path has no parent: it is the root of the file system, or empty.
pub fn is_root_path(path: &OsPath) -> (r: bool)
    ensures
        r == !path_has_parent(path@),
{
    !path.has_parent()
}

/// Pending directories get room enough to be seen, and nothing else changes:
/// no entry gets less room than before, and an entry whose size is known keeps
/// its room.
pub proof fn law_pending_directories_can_be_seen(entries: Seq<EntryModel>, place: int)
    requires
        0 <= place < entries.len(),
    ensures
        ({
            let before = entries[place];
            let after = with_pending_room(entries)[place];
            &&& after == (EntryModel { layout_size: after.layout_size, ..before })
            &&& after.layout_size >= before.layout_size
            &&& is_pending_dir(before) ==> after.layout_size >= PROVISIONAL_PENDING_LAYOUT_SIZE
            &&& !is_pending_dir(before) ==> after == before
        }),
{
    law_pending_directories_do_not_dominate(entries);
}

/// The listing of a node holds its children, each once, those that come first
/// in front.
pub proof fn law_a_listing_is_sorted(scan: ScanModel, parent: TreeIndex)
    requires
        scan.has(parent),
    ensures
        ({
            let entries = with_pending_room(
                shown_nodes(scan, scan.nodes[parent as int].children),
            );
            let listed = listing(scan, parent);
            &&& listed.to_multiset() == entries.to_multiset()
            &&& forall|a: int, b: int|
                0 <= a < b < listed.len() ==> !entry_before(
                    #[trigger] listed[b],
                    #[trigger] listed[a],
                )
        }),
{
    let before = |a: EntryModel, b: EntryModel| entry_before(a, b);
    let entries = with_pending_room(shown_nodes(scan, scan.nodes[parent as int].children));
    assert forall|a: EntryModel, b: EntryModel| #[trigger] before(a, b) implies !before(b, a) by {
        lemma_entry_before_asymmetric(a, b);
    }
    assert forall|a: EntryModel, b: EntryModel, c: EntryModel|
        !(#[trigger] before(a, b)) && !(#[trigger] before(b, c)) implies !before(a, c) by {
        lemma_entry_before_consistent(a, b, c);
    }
    law_sorted_by_is_a_sorted_rearrangement(entries, before);
    let listed = listing(scan, parent);
    assert forall|a: int, b: int| 0 <= a < b < listed.len() implies !entry_before(
        #[trigger] listed[b],
        #[trigger] listed[a],
    ) by {
        assert(!before(listed[b], listed[a]));
    }
}

proof fn lemma_entry_before_asymmetric(a: EntryModel, b: EntryModel)
    ensures
        entry_before(a, b) ==> !entry_before(b, a),
{
    let (left, right) = (encode_utf8(a.name), encode_utf8(b.name));
    if text_before(a.name, b.name) && text_before(b.name, a.name) {
        law_bytes_before_transitive(left, right, left);
        law_bytes_before_irreflexive(left);
    }
}

proof fn lemma_entry_before_consistent(a: EntryModel, b: EntryModel, c: EntryModel)
    ensures
        !entry_before(a, b) && !entry_before(b, c) ==> !entry_before(a, c),
{
    let (x, y, z) = (encode_utf8(a.name), encode_utf8(b.name), encode_utf8(c.name));
    law_bytes_before_total(x, y);
    law_bytes_before_total(y, z);
    if bytes_before(x, z) {
        if bytes_before(y, x) {
            law_bytes_before_transitive(y, x, z);
        }
    }
}

/// The room for pending directories never exceeds the largest size that is
/// known, but for the floor: what is pending does not dominate what has been
/// measured. Where nothing is known, it never exceeds the largest size of all.
pub proof fn law_pending_directories_do_not_dominate(entries: Seq<EntryModel>)
    ensures
        provisional_room(entries) >= PROVISIONAL_PENDING_LAYOUT_SIZE,
        known_sizes(entries).len() > 0 ==> provisional_room(entries) <= larger(
            PROVISIONAL_PENDING_LAYOUT_SIZE as int,
            sorted(known_sizes(entries)).last() as int,
        ),
        provisional_room(entries) <= larger(
            PROVISIONAL_PENDING_LAYOUT_SIZE as int,
            largest_size(entries),
        ),
        provisional_room(entries) <= u128::MAX,
{
    let found = known_sizes(entries);
    let known = sorted(found);
    law_sorted_is_a_sorted_rearrangement(found);
    lemma_known_below_largest(entries);
    assert forall|k: int| 0 <= k < known.len() implies #[trigger] known[k] <= largest_size(
        entries,
    ) by {
        assert(found.contains(known[k]));
    }
    if known.len() > 0 {
        let n = known.len() as int;
        let most = known.last() as int;
        assert(known.last() == known[n - 1]);
        assert forall|k: int| 0 <= k < known.len() implies #[trigger] known[k] <= most by {
            if k < n - 1 {
                assert(!known[n - 1].before(known[k]));
            }
        }
        lemma_sum_bounded(known, most);
        assert(0 <= sum_of(known) / n <= most) by (nonlinear_arith)
            requires
                n > 0,
                0 <= sum_of(known) <= n * most,
        ;
        assert(known[n / 2] <= most);
        assert(most <= largest_size(entries));
    }
}

proof fn lemma_known_below_largest(entries: Seq<EntryModel>)
    ensures
        0 <= largest_size(entries) <= u128::MAX,
        forall|size: u128| #[trigger]
            known_sizes(entries).contains(size) ==> size <= largest_size(entries),
    decreases entries.len(),
{
    if entries.len() > 0 {
        let rest = entries.drop_last();
        lemma_known_below_largest(rest);
        assert forall|size: u128| #[trigger] known_sizes(entries).contains(size) implies size
            <= largest_size(entries) by {
            let found = known_sizes(entries);
            let k = choose|k: int| 0 <= k < found.len() && found[k] == size;
            if k < known_sizes(rest).len() {
                assert(known_sizes(rest)[k] == size);
                assert(known_sizes(rest).contains(size));
            }
        }
    }
}

proof fn lemma_sum_bounded(sizes: Seq<u128>, bound: int)
    requires
        forall|k: int| 0 <= k < sizes.len() ==> #[trigger] sizes[k] <= bound,
    ensures
        0 <= sum_of(sizes) <= sizes.len() * bound,
    decreases sizes.len(),
{
    if sizes.len() > 0 {
        let rest = sizes.drop_last();
        assert forall|k: int| 0 <= k < rest.len() implies #[trigger] rest[k] <= bound by {
            assert(rest[k] == sizes[k]);
        }
        lemma_sum_bounded(rest, bound);
        assert(sizes.last() == sizes[sizes.len() - 1]);
        assert(sizes.len() * bound == rest.len() * bound + bound) by (nonlinear_arith)
            requires
                sizes.len() == rest.len() + 1,
        ;
    } else {
        assert(sizes.len() * bound == 0) by (nonlinear_arith)
            requires
                sizes.len() == 0,
        ;
    }
}

/// A node is shown as what it is. The size of a directory is pending until it is summed
/// up, and a node is estimated while it is summed up or waits for that.
pub proof fn law_nodes_are_shown_as_they_are(scan: ScanModel, index: TreeIndex)
    ensures
        shown_node(scan, index) is Some <==> index < scan.nodes.len(),
        index < scan.nodes.len() ==> {
            let entry = shown_node(scan, index)->0;
            let node = scan.nodes[index as int];
            &&& entry.index == index
            &&& entry.name == node.name
            &&& entry.path == node.path
            &&& entry.size == node.size
            &&& entry.layout_size == node.size
            &&& entry.modified == node.modified
            &&& entry.is_dir == node.is_dir
            &&& entry.entry_count == node.entry_count
            &&& entry.metadata_error == node.metadata_error
            &&& entry.size_pending <==> node.is_dir && !node.summarized
            &&& entry.estimating <==> node.summarizing || node.summary_queued
            &&& entry.estimate_entries_seen == node.summary_entries_seen
        },
{
}

/// How far a directory is: being listed comes first, then being summed up or waiting for
/// that, then listed; what is none of these is pending. A file is no directory.
pub proof fn law_states_of_directories(node: NodeModel)
    ensures
        scan_state(node) == DirectoryScanState::NotDirectory <==> !node.is_dir,
        scan_state(node) == DirectoryScanState::Scanning <==> node.is_dir && node.scanning,
        scan_state(node) == DirectoryScanState::Estimating <==> node.is_dir && !node.scanning && (
        node.summarizing || node.summary_queued),
        scan_state(node) == DirectoryScanState::Scanned <==> node.is_dir && !node.scanning
            && !node.summarizing && !node.summary_queued && node.scanned,
        scan_state(node) == DirectoryScanState::Pending <==> node.is_dir && !node.scanning
            && !node.summarizing && !node.summary_queued && !node.scanned,
{
}

/// What takes more room is listed first; of what takes the same room, the larger; and of
/// what is as large, that whose name comes first, byte by byte.
pub proof fn law_entries_are_listed_by_room_size_and_name(left: EntryModel, right: EntryModel)
    ensures
        left.layout_size > right.layout_size ==> entry_before(left, right) && !entry_before(
            right,
            left,
        ),
        left.layout_size == right.layout_size && left.size > right.size ==> entry_before(
            left,
            right,
        ) && !entry_before(right, left),
        left.layout_size == right.layout_size && left.size == right.size ==> (entry_before(
            left,
            right,
        ) <==> bytes_before(encode_utf8(left.name), encode_utf8(right.name))),
{
}

proof fn lemma_shown_nodes(scan: ScanModel, indices: Seq<TreeIndex>)
    requires
        forall|k: int| 0 <= k < indices.len() ==> #[trigger] indices[k] < scan.nodes.len(),
    ensures
        shown_nodes(scan, indices).len() == indices.len(),
        forall|k: int|
            0 <= k < indices.len() ==> #[trigger] shown_nodes(scan, indices)[k] == shown(
                indices[k],
                scan.nodes[indices[k] as int],
            ),
    decreases indices.len(),
{
    if indices.len() > 0 {
        let rest = indices.drop_last();
        assert forall|k: int| 0 <= k < rest.len() implies #[trigger] rest[k]
            < scan.nodes.len() by {
            assert(rest[k] == indices[k]);
        }
        lemma_shown_nodes(scan, rest);
        assert(indices.last() == indices[indices.len() - 1]);
        assert forall|k: int| 0 <= k < indices.len() implies #[trigger] shown_nodes(
            scan,
            indices,
        )[k] == shown(indices[k], scan.nodes[indices[k] as int]) by {
            if k < rest.len() {
                assert(shown_nodes(scan, indices)[k] == shown_nodes(scan, rest)[k]);
                assert(rest[k] == indices[k]);
            }
        }
    }
}

/// A listing holds every child of a node once, as it is shown, and nothing else; what is
/// not there has no children.
pub proof fn law_a_listing_holds_every_child(scan: ScanModel, parent: TreeIndex, place: int)
    requires
        scan.wf(),
    ensures
        parent >= scan.nodes.len() ==> listing(scan, parent).len() == 0,
        parent < scan.nodes.len() ==> {
            let children = scan.nodes[parent as int].children;
            let listed = listing(scan, parent);
            &&& listed.len() == children.len()
            &&& 0 <= place < children.len() ==> exists|k: int|
                0 <= k < listed.len() && #[trigger] listed[k] == (EntryModel {
                    layout_size: listed[k].layout_size,
                    ..shown_node(scan, children[place])->0
                })
            &&& 0 <= place < listed.len() ==> children.contains(listed[place].index)
                && listed[place].size == scan.nodes[listed[place].index as int].size
        },
{
    if scan.has(parent) {
        broadcast use vstd::seq_lib::group_to_multiset_ensures;

        let children = scan.nodes[parent as int].children;
        assert forall|k: int| 0 <= k < children.len() implies #[trigger] children[k]
            < scan.nodes.len() by {
            assert(scan.nodes[parent as int].children[k] < scan.nodes.len());
        }
        lemma_shown_nodes(scan, children);
        let plain = shown_nodes(scan, children);
        let entries = with_pending_room(plain);
        let listed = listing(scan, parent);
        law_a_listing_is_sorted(scan, parent);
        assert(listed.len() == listed.to_multiset().len());
        assert(entries.len() == entries.to_multiset().len());
        if 0 <= place < children.len() {
            law_pending_directories_can_be_seen(plain, place);
            assert(entries.to_multiset().count(entries[place]) > 0);
            assert(listed.contains(entries[place]));
            let k = choose|k: int| 0 <= k < listed.len() && listed[k] == entries[place];
            assert(listed[k] == (EntryModel {
                layout_size: listed[k].layout_size,
                ..shown_node(scan, children[place])->0
            }));
        }
        if 0 <= place < listed.len() {
            assert(listed.to_multiset().count(listed[place]) > 0);
            assert(entries.contains(listed[place]));
            let k = choose|k: int| 0 <= k < entries.len() && entries[k] == listed[place];
            law_pending_directories_can_be_seen(plain, k);
            assert(children[k] == listed[place].index);
        }
    }
}

/// A size is known where it is neither zero nor pending; sizes are
/// taken in the order of the entries.
pub proof fn law_known_sizes_are_those_of_measured_entries(
    some: Seq<EntryModel>,
    rest: Seq<EntryModel>,
    entry: EntryModel,
)
    ensures
        known_sizes(some + rest) == known_sizes(some) + known_sizes(rest),
        known_sizes(seq![entry]) == if entry.size > 0 && !entry.size_pending {
            seq![entry.size]
        } else {
            Seq::empty()
        },
        known_sizes(Seq::empty()) == Seq::<u128>::empty(),
    decreases rest.len(),
{
    assert(seq![entry].drop_last() =~= Seq::empty());
    assert(known_sizes(Seq::empty()) =~= Seq::<u128>::empty());
    if entry.size > 0 && !entry.size_pending {
        assert(known_sizes(seq![entry]) =~= seq![entry.size]);
    } else {
        assert(known_sizes(seq![entry]) =~= Seq::<u128>::empty());
    }
    if rest.len() == 0 {
        assert(some + rest =~= some);
        assert(known_sizes(some) + known_sizes(rest) =~= known_sizes(some));
    } else {
        assert((some + rest).drop_last() =~= some + rest.drop_last());
        law_known_sizes_are_those_of_measured_entries(some, rest.drop_last(), entry);
        assert(known_sizes(some + rest) =~= known_sizes(some) + known_sizes(rest));
    }
}

/// The room for pending directories is the least that is no less than any of these: one
/// mebibyte, the size in the middle of those that are known, half their average, and a
/// sixth of the largest. Where no size is known, it is the largest size of all, but no
/// less than one mebibyte.
pub proof fn law_the_room_for_pending_directories(entries: Seq<EntryModel>)
    ensures
        ({
            let known = sorted(known_sizes(entries));
            let room = provisional_room(entries);
            let count = known.len() as int;
            &&& room >= 1_048_576
            &&& count > 0 ==> {
                let middle = known[count / 2] as int;
                let average = sum_of(known) / count;
                let most = known[count - 1] as int;
                &&& room >= middle && 2 * room + 1 >= average && 6 * room + 5 >= most
                &&& room == 1_048_576 || room == middle || 2 * room == average || 2 * room + 1
                    == average || (6 * room <= most && most <= 6 * room + 5)
            }
            &&& count == 0 ==> {
                &&& forall|i: int|
                    0 <= i < entries.len() ==> (#[trigger] entries[i]).size <= room
                &&& room == 1_048_576 || exists|i: int|
                    0 <= i < entries.len() && (#[trigger] entries[i]).size == room
            }
        }),
{
    lemma_largest(entries);
}

proof fn lemma_largest(entries: Seq<EntryModel>)
    ensures
        forall|i: int|
            0 <= i < entries.len() ==> (#[trigger] entries[i]).size <= largest_size(entries),
        largest_size(entries) == 0 || exists|i: int|
            0 <= i < entries.len() && (#[trigger] entries[i]).size == largest_size(entries),
    decreases entries.len(),
{
    if entries.len() > 0 {
        let rest = entries.drop_last();
        lemma_largest(rest);
        assert forall|i: int| 0 <= i < entries.len() implies (#[trigger] entries[i]).size
            <= largest_size(entries) by {
            if i < rest.len() {
                assert(rest[i] == entries[i]);
            }
        }
        if largest_size(entries) > 0 {
            if entries.last().size == largest_size(entries) {
                assert(entries[entries.len() - 1].size == largest_size(entries));
            } else {
                let i = choose|i: int|
                    0 <= i < rest.len() && (#[trigger] rest[i]).size == largest_size(rest);
                assert(entries[i].size == largest_size(entries));
            }
        }
    }
}

/// The sum of sizes is that of some of them and the rest.
pub proof fn law_sums_of_sizes_add_up(some: Seq<u128>, rest: Seq<u128>, size: u128)
    ensures
        sum_of(some + rest) == sum_of(some) + sum_of(rest),
        sum_of(seq![size]) == size,
        sum_of(Seq::empty()) == 0,
    decreases rest.len(),
{
    assert(seq![size].drop_last() =~= Seq::empty());
    assert(sum_of(Seq::empty()) == 0);
    if rest.len() == 0 {
        assert(some + rest =~= some);
    } else {
        assert((some + rest).drop_last() =~= some + rest.drop_last());
        law_sums_of_sizes_add_up(some, rest.drop_last(), size);
    }
}

/// A pending directory takes the room for such, unless it is larger already; everything
/// else takes what it measures.
pub proof fn law_pending_directories_take_the_room(entries: Seq<EntryModel>, place: int)
    requires
        0 <= place < entries.len(),
    ensures
        ({
            let before = entries[place];
            let after = with_pending_room(entries)[place];
            let room = provisional_room(entries);
            &&& with_pending_room(entries).len() == entries.len()
            &&& before.is_dir && before.size_pending ==> after.layout_size == if room
                > before.layout_size {
                room
            } else {
                before.layout_size as int
            }
            &&& !(before.is_dir && before.size_pending) ==> after.layout_size
                == before.layout_size
        }),
{
    law_pending_directories_do_not_dominate(entries);
}

/// The model of an entry holds what the entry does.
pub proof fn law_models_hold_the_entries(entry: EntryView)
    ensures
        entry@.index == entry.index && entry@.name == entry.name@ && entry@.path == entry.path@,
        entry@.size == entry.size && entry@.layout_size == entry.layout_size,
        entry@.modified == entry.modified && entry@.is_dir == entry.is_dir,
        entry@.entry_count == entry.entry_count && entry@.metadata_error == entry.metadata_error,
        entry@.size_pending == entry.size_pending && entry@.estimating == entry.estimating,
        entry@.estimate_entries_seen == entry.estimate_entries_seen,
{
}

/// Known sizes are sorted upwards, so that the largest stands last: none of them is more
/// than six times the room for pending directories, but for what division leaves.
pub proof fn law_known_sizes_are_sorted_upwards(entries: Seq<EntryModel>)
    ensures
        ({
            let found = known_sizes(entries);
            let known = sorted(found);
            &&& known.to_multiset() == found.to_multiset()
            &&& forall|a: int, b: int|
                0 <= a < b < known.len() ==> #[trigger] known[a] <= #[trigger] known[b]
            &&& forall|i: int|
                0 <= i < found.len() ==> #[trigger] found[i] <= 6 * provisional_room(entries) + 5
        }),
{
    let found = known_sizes(entries);
    let known = sorted(found);
    law_sorted_is_a_sorted_rearrangement(found);
    assert forall|a: int, b: int| 0 <= a < b < known.len() implies #[trigger] known[a]
        <= #[trigger] known[b] by {
        assert(!known[b].before(known[a]));
    }
    assert forall|i: int| 0 <= i < found.len() implies #[trigger] found[i] <= 6 * provisional_room(
        entries,
    ) + 5 by {
        assert(known.contains(found[i]));
        let k = choose|k: int| 0 <= k < known.len() && known[k] == found[i];
        law_the_room_for_pending_directories(entries);
        if k < known.len() - 1 {
            assert(known[k] <= known[known.len() - 1]);
        }
    }
}

} // verus!

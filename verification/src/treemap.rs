//! What a treemap shows, in which order and in which rows.
//!
//! How well shapes look is measured in single precision by whoever draws them.
//! Such a score comes in as the bit pattern of a number that is not negative;
//! these patterns are ordered as the numbers are.
use crate::order::{
    law_sorted_is_a_sorted_rearrangement, law_ties_keep_their_order, sorted, stable_order,
    stable_sort, Ranked,
};
use crate::rounding::{
    law_rounding_adds_little, law_rounding_keeps_positive, law_rounding_takes_little,
    law_short_numbers_stay, to_single_precision, with_digits,
};
use vstd::arithmetic::power2::{lemma2_to64, pow2};
use vstd::prelude::*;

verus! {

/// Something with a size that is to be shown.
#[derive(Debug, Clone)]
pub struct TreemapItem<T> {
    pub item: T,
    pub size: u128,
}

/// Something that is shown, with the weight that it has in the layout.
#[derive(Debug, Clone)]
pub struct WeightedItem<T> {
    pub item: T,
    pub size: u128,
    pub layout_size: u128,
}

/// Larger items come first.
impl<T> Ranked for TreemapItem<T> {
    open spec fn before(self, other: TreemapItem<T>) -> bool {
        self.size > other.size
    }

    proof fn before_is_asymmetric(a: TreemapItem<T>, b: TreemapItem<T>) {
    }

    proof fn before_is_consistent(a: TreemapItem<T>, b: TreemapItem<T>, c: TreemapItem<T>) {
    }

    fn stands_before(&self, other: &TreemapItem<T>) -> (r: bool) {
        self.size > other.size
    }
}

/// The items that take room at all.
pub open spec fn sized_items<T>(items: Seq<TreemapItem<T>>) -> Seq<TreemapItem<T>> {
    items.filter(|item: TreemapItem<T>| item.size > 0)
}

/// An item with its size as its weight.
pub open spec fn weighted<T>(item: TreemapItem<T>) -> WeightedItem<T> {
    WeightedItem { item: item.item, size: item.size, layout_size: item.size }
}

/// The weights of all items but the first, added up as a number of 128 bits.
pub open spec fn rest_weight<T>(items: Seq<WeightedItem<T>>) -> u128
    decreases items.len(),
{
    if items.len() <= 1 {
        0
    } else {
        rest_weight(items.drop_last()).wrapping_add(items.last().layout_size)
    }
}

/// The most weight that the first item may have: as much as the others together,
/// in single precision.
pub open spec fn dominant_limit<T>(items: Seq<WeightedItem<T>>) -> u128 {
    if with_digits(rest_weight(items) as nat, 24) > u128::MAX {
        u128::MAX
    } else {
        with_digits(rest_weight(items) as nat, 24) as u128
    }
}

/// The items with the weight of the first one cut back to the limit.
pub open spec fn with_capped_first<T>(items: Seq<WeightedItem<T>>) -> Seq<WeightedItem<T>> {
    let limit = dominant_limit(items);
    if items.len() >= 2 && limit > 0 && items[0].layout_size > limit {
        items.update(0, WeightedItem { layout_size: limit, ..items[0] })
    } else {
        items
    }
}

/// The items as they are laid out: those that take room, the largest first, the
/// first with no more weight than the others together.
pub open spec fn laid_out<T>(items: Seq<TreemapItem<T>>) -> Seq<WeightedItem<T>> {
    with_capped_first(
        sorted(sized_items(items)).map_values(|item: TreemapItem<T>| weighted(item)),
    )
}

/// Cuts the weight of the first item back, so that it takes no more than the
/// others together.
pub fn cap_dominant_layout_weight<T>(items: &mut Vec<WeightedItem<T>>)
    ensures
        final(items)@ == with_capped_first(old(items)@),
{
    if items.len() < 2 {
        return;
    }
    let ghost all = items@;
    let mut rest: u128 = 0;
    let mut i: usize = 1;
    while i < items.len()
        invariant
            1 <= i <= items@.len(),
            items@ == all,
            rest == rest_weight(all.take(i as int)),
        decreases items@.len() - i,
    {
        proof {
            assert(all.take(i as int + 1).drop_last() =~= all.take(i as int));
            assert(all.take(i as int + 1).last() == all[i as int]);
        }
        rest = rest.wrapping_add(items[i].layout_size);
        i = i + 1;
    }
    proof {
        assert(all.take(all.len() as int) =~= all);
    }
    let limit: u128 = to_single_precision(rest);
    if limit > 0 && items[0].layout_size > limit {
        items[0].layout_size = limit;
        proof {
            assert(items@ =~= with_capped_first(all));
        }
    }
}

/// The items in the order of the layout, with their weights.
pub fn weigh_items<T>(items: Vec<TreemapItem<T>>) -> (r: Vec<WeightedItem<T>>)
    ensures
        r@ == laid_out(items@),
{
    let ghost all = items@;
    let ghost keep = |item: TreemapItem<T>| item.size > 0;
    let mut found: Vec<TreemapItem<T>> = Vec::new();
    proof {
        reveal(Seq::filter);
        assert(all.take(0) =~= Seq::empty());
    }
    for item in iter: items
        invariant
            iter.seq() == all,
            keep == (|item: TreemapItem<T>| item.size > 0),
            found@ == all.take(iter.index()).filter(keep),
    {
        let ghost i = iter.index();
        proof {
            reveal(Seq::filter);
            assert(all.take(i + 1).drop_last() =~= all.take(i));
            assert(all.take(i + 1).last() == item);
        }
        if item.size > 0 {
            found.push(item);
        }
    }
    proof {
        assert(all.take(all.len() as int) =~= all);
    }
    let ordered: Vec<TreemapItem<T>> = stable_sort(found);
    let ghost list = ordered@;
    let mut result: Vec<WeightedItem<T>> = Vec::new();
    for item in iter: ordered
        invariant
            iter.seq() == list,
            result@ == list.take(iter.index()).map_values(|item: TreemapItem<T>| weighted(item)),
    {
        let ghost i = iter.index();
        let size: u128 = item.size;
        result.push(WeightedItem { item: item.item, size, layout_size: size });
        proof {
            assert(result@ =~= list.take(i + 1).map_values(
                |item: TreemapItem<T>| weighted(item),
            ));
        }
    }
    proof {
        assert(list.take(list.len() as int) =~= list);
    }
    cap_dominant_layout_weight(&mut result);
    result
}

/// An item that is laid out, without its weight.
pub open spec fn unweighted<T>(item: WeightedItem<T>) -> TreemapItem<T> {
    TreemapItem { item: item.item, size: item.size }
}

/// Nothing that takes room is left out of the layout, nothing else is in it, the
/// largest come first, and every weight is positive and no more than the size.
pub proof fn law_the_layout_holds_what_takes_room<T>(items: Seq<TreemapItem<T>>)
    ensures
        laid_out(items).len() == sized_items(items).len(),
        laid_out(items).map_values(|item: WeightedItem<T>| unweighted(item)).to_multiset()
            == sized_items(items).to_multiset(),
        forall|a: int, b: int|
            0 <= a < b < laid_out(items).len() ==> (#[trigger] laid_out(items)[a]).size >= (
            #[trigger] laid_out(items)[b]).size,
        forall|a: int|
            0 <= a < laid_out(items).len() ==> 0 < (#[trigger] laid_out(items)[a]).layout_size
                <= laid_out(items)[a].size,
{
    broadcast use vstd::seq_lib::group_filter_ensures;

    let keep = |item: TreemapItem<T>| item.size > 0;
    let kept = sized_items(items);
    let list = sorted(kept);
    law_sorted_is_a_sorted_rearrangement(kept);
    assert forall|a: int| 0 <= a < list.len() implies (#[trigger] list[a]).size > 0 by {
        assert(kept.contains(list[a]));
        let k = choose|k: int| 0 <= k < kept.len() && kept[k] == list[a];
        assert(keep(kept[k]));
    }
    let plain = list.map_values(|item: TreemapItem<T>| weighted(item));
    assert forall|a: int, b: int| 0 <= a < b < list.len() implies (#[trigger] plain[a]).size >= (
    #[trigger] plain[b]).size by {
        assert(!list[b].before(list[a]));
    }
    assert forall|a: int| 0 <= a < list.len() implies (#[trigger] plain[a]).size == list[a].size
        && plain[a].layout_size == list[a].size by {}
    assert(laid_out(items).map_values(|item: WeightedItem<T>| unweighted(item)) =~= list);
}

/// The first item weighs no more than the others together, but for what rounding
/// to single precision may add, which is one part in 2^24 at most. Where rounding
/// adds nothing, it takes half of the room at most.
pub proof fn law_the_first_item_takes_half_at_most<T>(items: Seq<WeightedItem<T>>)
    requires
        items.len() >= 2,
        rest_weight(items) > 0,
    ensures
        with_capped_first(items)[0].layout_size * pow2(24) <= rest_weight(items) * (pow2(24) + 1),
        dominant_limit(items) <= rest_weight(items) ==> with_capped_first(items)[0].layout_size
            <= rest_weight(items),
        rest_weight(with_capped_first(items)) == rest_weight(items),
{
    let rest = rest_weight(items);
    let limit = dominant_limit(items);
    let rounded = with_digits(rest as nat, 24);
    law_rounding_adds_little(rest as nat, 24);
    law_rounding_keeps_positive(rest as nat, 24);
    lemma2_to64();
    assert(limit * pow2(24) <= rounded * pow2(24)) by (nonlinear_arith)
        requires
            limit <= rounded,
    ;
    let first = with_capped_first(items)[0].layout_size;
    assert(first <= limit);
    assert(first * pow2(24) <= limit * pow2(24)) by (nonlinear_arith)
        requires
            first <= limit,
    ;
    lemma_rest_ignores_first(
        items,
        items.update(0, WeightedItem { layout_size: limit, ..items[0] }),
    );
}

proof fn lemma_rest_ignores_first<T>(a: Seq<WeightedItem<T>>, b: Seq<WeightedItem<T>>)
    requires
        a.len() == b.len(),
        forall|i: int| 1 <= i < a.len() ==> a[i] == b[i],
    ensures
        rest_weight(a) == rest_weight(b),
    decreases a.len(),
{
    if a.len() > 1 {
        lemma_rest_ignores_first(a.drop_last(), b.drop_last());
    }
}

/// How many items go into the next row of a grid: as evenly as possible over the
/// rows that are left, and not more than there are columns.
pub open spec fn next_row_length(items: int, columns: int, rows: int) -> int {
    let even = (items + rows - 1) / rows;
    if even < columns {
        even
    } else {
        columns
    }
}

/// How many items go into each row of a grid.
pub open spec fn row_lengths(items: int, columns: int, rows: nat) -> Seq<int>
    decreases rows,
{
    if rows == 0 {
        Seq::empty()
    } else {
        let length = next_row_length(items, columns, rows as int);
        seq![length] + row_lengths(items - length, columns, (rows - 1) as nat)
    }
}

/// How many items go into each row of a grid, as numbers.
pub open spec fn as_ints(lengths: Seq<usize>) -> Seq<int> {
    lengths.map_values(|length: usize| length as int)
}

/// The quotient of two numbers, rounded up.
fn divide_up(items: usize, rows: usize) -> (r: usize)
    requires
        rows > 0,
    ensures
        r == (items + rows - 1) / rows as int,
{
    let quotient: usize = items / rows;
    let remainder: usize = items % rows;
    proof {
        vstd::arithmetic::div_mod::lemma_fundamental_div_mod(items as int, rows as int);
        let (q, m) = (quotient as int, remainder as int);
        assert(items == q * rows + m) by (nonlinear_arith)
            requires
                items == rows * q + m,
        ;
        if m == 0 {
            vstd::arithmetic::div_mod::lemma_fundamental_div_mod_converse(
                items + rows - 1,
                rows as int,
                q,
                rows - 1,
            );
        } else {
            assert(items + rows - 1 == (q + 1) * rows + (m - 1)) by (nonlinear_arith)
                requires
                    items == q * rows + m,
            ;
            vstd::arithmetic::div_mod::lemma_fundamental_div_mod_converse(
                items + rows - 1,
                rows as int,
                q + 1,
                m - 1,
            );
            assert(q < items) by (nonlinear_arith)
                requires
                    items == q * rows + m,
                    m > 0,
                    rows >= 1,
                    q >= 0,
            ;
        }
    }
    if remainder > 0 {
        quotient + 1
    } else {
        quotient
    }
}

/// How many items go into each row of a grid.
pub fn balanced_grid_row_lengths(item_count: usize, columns: usize, rows: usize) -> (r: Vec<usize>)
    ensures
        as_ints(r@) == row_lengths(item_count as int, columns as int, rows as nat),
{
    let mut remaining: usize = item_count;
    let mut lengths: Vec<usize> = Vec::new();
    let mut left: usize = rows;
    let ghost expected = row_lengths(item_count as int, columns as int, rows as nat);
    proof {
        assert(as_ints(lengths@) + expected =~= expected);
    }
    while left > 0
        invariant
            as_ints(lengths@) + row_lengths(remaining as int, columns as int, left as nat)
                == expected,
        decreases left,
    {
        let even: usize = divide_up(remaining, left);
        let length: usize = if even < columns {
            even
        } else {
            columns
        };
        proof {
            lemma_even_share(remaining as int, left as int);
        }
        let ghost before = as_ints(lengths@);
        lengths.push(length);
        proof {
            assert(as_ints(lengths@) =~= before + seq![length as int]);
            let rest = row_lengths(remaining - length, columns as int, (left - 1) as nat);
            assert((before + seq![length as int]) + rest =~= before + (seq![length as int]
                + rest));
        }
        remaining = remaining - length;
        left = left - 1;
    }
    proof {
        assert(as_ints(lengths@) + Seq::empty() =~= as_ints(lengths@));
    }
    lengths
}

proof fn lemma_even_share(items: int, rows: int)
    requires
        items >= 0,
        rows > 0,
    ensures
        0 <= (items + rows - 1) / rows <= items,
        items <= ((items + rows - 1) / rows) * rows <= items + rows - 1,
        rows == 1 ==> (items + rows - 1) / rows == items,
{
    let even = (items + rows - 1) / rows;
    vstd::arithmetic::div_mod::lemma_fundamental_div_mod(items + rows - 1, rows);
    let m = (items + rows - 1) % rows;
    assert(even * rows + m == items + rows - 1) by (nonlinear_arith)
        requires
            items + rows - 1 == rows * even + m,
    ;
    assert(0 <= even <= items) by (nonlinear_arith)
        requires
            even * rows + m == items + rows - 1,
            0 <= m < rows,
            items >= 0,
            rows >= 1,
    ;
}

/// The numbers of a list, added up.
pub open spec fn sum(numbers: Seq<int>) -> int
    decreases numbers.len(),
{
    if numbers.len() == 0 {
        0
    } else {
        numbers[0] + sum(numbers.skip(1))
    }
}

/// Where a grid has cells enough, every item finds its place: the rows hold all
/// items, none holds more than there are columns, no row holds more than the one
/// before it, and no two rows differ by more than one item.
pub proof fn law_a_grid_holds_every_item(items: int, columns: int, rows: nat)
    requires
        0 <= items <= columns * rows,
        columns >= 0,
    ensures
        row_lengths(items, columns, rows).len() == rows,
        sum(row_lengths(items, columns, rows)) == items,
        forall|i: int|
            0 <= i < rows ==> 0 <= #[trigger] row_lengths(items, columns, rows)[i] <= columns,
        rows > 0 ==> items <= row_lengths(items, columns, rows)[0] * rows,
        forall|i: int, j: int|
            0 <= i < j < rows ==> #[trigger] row_lengths(items, columns, rows)[j]
                <= #[trigger] row_lengths(items, columns, rows)[i],
        forall|i: int|
            0 <= i < rows ==> items / (rows as int) <= #[trigger] row_lengths(
                items,
                columns,
                rows,
            )[i] <= items / (rows as int) + 1,
        forall|i: int, j: int|
            0 <= i < rows && 0 <= j < rows ==> #[trigger] row_lengths(items, columns, rows)[j]
                - #[trigger] row_lengths(items, columns, rows)[i] <= 1,
    decreases rows,
{
    if rows == 0 {
        assert(items == 0) by (nonlinear_arith)
            requires
                0 <= items <= columns * rows,
                rows == 0,
        ;
    } else {
        let all = row_lengths(items, columns, rows);
        let length = next_row_length(items, columns, rows as int);
        let less = (rows - 1) as nat;
        let rest = row_lengths(items - length, columns, less);
        lemma_even_share(items, rows as int);
        let even = (items + rows - 1) / (rows as int);
        assert(even <= columns) by (nonlinear_arith)
            requires
                even * rows <= items + rows - 1,
                items <= columns * rows,
                rows > 0,
        ;
        assert(length == even);
        assert(items - length <= length * less) by (nonlinear_arith)
            requires
                items <= length * rows,
                less == rows - 1,
        ;
        assert(items - length <= columns * less) by (nonlinear_arith)
            requires
                items - length <= length * less,
                0 <= length <= columns,
                less >= 0,
        ;
        law_a_grid_holds_every_item(items - length, columns, less);
        assert(all.skip(1) =~= rest);
        assert(all[0] == length);
        assert forall|i: int| 0 <= i < rows implies 0 <= #[trigger] all[i] <= columns by {
            if i > 0 {
                assert(all[i] == rest[i - 1]);
            }
        }
        if less > 0 {
            lemma_even_share(items - length, less as int);
            let next = (items - length + less - 1) / (less as int);
            assert(next <= length) by (nonlinear_arith)
                requires
                    next * less <= items - length + less - 1,
                    items - length <= length * less,
                    less > 0,
            ;
            assert(rest[0] <= length);
        }
        assert forall|i: int, j: int| 0 <= i < j < rows implies #[trigger] all[j]
            <= #[trigger] all[i] by {
            assert(all[j] == rest[j - 1]);
            if i > 0 {
                assert(all[i] == rest[i - 1]);
            } else if j > 1 {
                assert(rest[j - 1] <= rest[0]);
            }
        }
        lemma_even_floor(items, rows as int);
        assert forall|i: int| 0 <= i < rows implies items / (rows as int) <= #[trigger] all[i]
            <= items / (rows as int) + 1 by {
            if i > 0 {
                assert(all[i] == rest[i - 1]);
                assert(all[i] <= all[0]);
            }
        }
    }
}

/// One row gets the even share, rounded down or one more, and leaves no smaller
/// share to the others.
proof fn lemma_even_floor(items: int, rows: int)
    requires
        items >= 0,
        rows > 0,
    ensures
        items / rows <= (items + rows - 1) / rows <= items / rows + 1,
        rows > 1 ==> (items - (items + rows - 1) / rows) / (rows - 1) >= items / rows,
{
    let q = items / rows;
    let r = items % rows;
    vstd::arithmetic::div_mod::lemma_fundamental_div_mod(items, rows);
    assert(items == q * rows + r) by (nonlinear_arith)
        requires
            items == rows * q + r,
    ;
    let even = if r == 0 {
        q
    } else {
        q + 1
    };
    let rest = if r == 0 {
        rows - 1
    } else {
        r - 1
    };
    assert(items + rows - 1 == even * rows + rest) by (nonlinear_arith)
        requires
            items == q * rows + r,
            even == if r == 0 {
                q
            } else {
                q + 1
            },
            rest == if r == 0 {
                rows - 1
            } else {
                r - 1
            },
    ;
    vstd::arithmetic::div_mod::lemma_fundamental_div_mod_converse(
        items + rows - 1,
        rows,
        even,
        rest,
    );
    if rows > 1 {
        let left = if r == 0 {
            0
        } else {
            r - 1
        };
        assert(items - even == q * (rows - 1) + left) by (nonlinear_arith)
            requires
                items == q * rows + r,
                even == if r == 0 {
                    q
                } else {
                    q + 1
                },
                left == if r == 0 {
                    0
                } else {
                    r - 1
                },
        ;
        vstd::arithmetic::div_mod::lemma_fundamental_div_mod_converse(
            items - even,
            rows - 1,
            q,
            left,
        );
    }
}

/// The bit pattern of an infinite score.
pub const INFINITE_SCORE: u32 = 0x7f80_0000;

/// The bit pattern of the score above which a row looks like a strip: 2.13.
pub const STRIP_SCORE: u32 = 0x4008_51ec;

/// The number of rows that so many columns need.
pub fn rows_for_columns(item_count: usize, columns: usize) -> (r: usize)
    requires
        columns > 0,
    ensures
        r == (item_count + columns - 1) / columns as int,
        item_count <= r * columns,
        r > 0 ==> (r - 1) * columns < item_count,
{
    proof {
        lemma_even_share(item_count as int, columns as int);
        let (items, width) = (item_count as int, columns as int);
        let rows = (items + width - 1) / width;
        vstd::arithmetic::div_mod::lemma_fundamental_div_mod(items + width - 1, width);
        assert((rows - 1) * width < items) by (nonlinear_arith)
            requires
                items + width - 1 == width * rows + (items + width - 1) % width,
                0 <= (items + width - 1) % width < width,
        ;
    }
    divide_up(item_count, columns)
}

/// Whether the shape with so many columns is the best: its score is finite, it is
/// less than all before it and not more than any behind it.
pub open spec fn is_best_shape(scores: Seq<u32>, columns: int) -> bool {
    &&& 1 <= columns <= scores.len()
    &&& scores[columns - 1] < INFINITE_SCORE
    &&& forall|i: int| 0 <= i < columns - 1 ==> scores[columns - 1] < #[trigger] scores[i]
    &&& forall|i: int| columns <= i < scores.len() ==> scores[columns - 1] <= #[trigger] scores[i]
}

/// The columns and rows of the grid that looks best. `scores` holds the score of
/// the grid with one column, with two, and so on, up to one for each item. Where
/// none is finite, the grid is a single column.
pub fn best_grid_shape(scores: &Vec<u32>) -> (r: (usize, usize))
    ensures
        (r.0 == 1 && r.1 == scores@.len() && forall|i: int|
            0 <= i < scores@.len() ==> #[trigger] scores@[i] >= INFINITE_SCORE) || (is_best_shape(
            scores@,
            r.0 as int,
        ) && r.1 == (scores@.len() + r.0 - 1) / r.0 as int),
{
    let count: usize = scores.len();
    let mut best: usize = 0;
    let mut best_score: u32 = INFINITE_SCORE;
    let mut i: usize = 0;
    while i < count
        invariant
            i <= count == scores@.len(),
            best <= i,
            best == 0 ==> best_score == INFINITE_SCORE,
            best > 0 ==> best_score == scores@[best - 1] && best_score < INFINITE_SCORE,
            forall|k: int| 0 <= k < i ==> best_score <= #[trigger] scores@[k],
            forall|k: int| 0 <= k < best - 1 ==> best_score < #[trigger] scores@[k],
        decreases count - i,
    {
        if scores[i] < best_score {
            best = i + 1;
            best_score = scores[i];
        }
        i = i + 1;
    }
    if best == 0 {
        (1, count)
    } else {
        (best, rows_for_columns(count, best))
    }
}

/// What is done with the next item.
#[derive(Debug, Clone, Copy, PartialEq, Eq, Structural)]
pub enum RowStep {
    /// It joins the row.
    Extend,
    /// It joins the row, and so do all items behind it.
    Fold,
    /// The row is finished without it, and it begins the next one.
    Close,
}

/// How a row looks as it is, and with the next item.
#[derive(Debug, Clone, Copy)]
pub struct RowScores {
    /// The worst shape in the row.
    pub row_worst: u32,
    /// The worst shape in the row with the next item.
    pub longer_worst: u32,
    /// The worst shape that is painted for the row.
    pub row_painted: u32,
    /// The worst shape that is painted for the row with the next item.
    pub longer_painted: u32,
    /// The worst shape if the row is finished and the next item stands alone.
    pub split_painted: u32,
}

/// Whether the next item joins the row: the row stays as square as it is, or a
/// row that looks like a strip gets better, or the last item would stand alone
/// and look no better for it.
pub open spec fn joins_row(scores: RowScores, is_last: bool) -> bool {
    ||| scores.longer_worst <= scores.row_worst && scores.longer_painted <= STRIP_SCORE
    ||| scores.row_painted > STRIP_SCORE && scores.longer_painted < scores.row_painted
    ||| is_last && scores.longer_painted <= scores.split_painted
}

/// Decides what is done with the next item.
pub fn decide_row_step(scores: &RowScores, is_last: bool, folds: bool) -> (r: RowStep)
    ensures
        r == if folds {
            RowStep::Fold
        } else if joins_row(*scores, is_last) {
            RowStep::Extend
        } else {
            RowStep::Close
        },
{
    if folds {
        return RowStep::Fold;
    }
    let keeps_square: bool = scores.longer_worst <= scores.row_worst && scores.longer_painted
        <= STRIP_SCORE;
    let repairs_strip: bool = scores.row_painted > STRIP_SCORE && scores.longer_painted
        < scores.row_painted;
    let avoids_single: bool = is_last && scores.longer_painted <= scores.split_painted;
    if keeps_square || repairs_strip || avoids_single {
        RowStep::Extend
    } else {
        RowStep::Close
    }
}

/// Whether a row is short enough to take in all that is left: not two items, not
/// more than eight, and not more than ten together.
pub open spec fn is_foldable(row: int, left: int) -> bool {
    left != 2 && left <= 8 && row + left <= 10
}

/// Whether a row is short enough to take in all that is left.
pub fn may_fold_tail(row_length: usize, left: usize) -> (r: bool)
    ensures
        r == is_foldable(row_length as int, left as int),
{
    left != 2 && left <= 8 && row_length <= 10 && row_length + left <= 10
}

/// Whether what is left joins the row: it would look like a strip, and all
/// together look better.
pub fn folds_tail(
    row_length: usize,
    left: usize,
    tail_is_visible: bool,
    tail_shape: u32,
    tail_grid: u32,
    joint_grid: u32,
) -> (r: bool)
    ensures
        r == (is_foldable(row_length as int, left as int) && tail_is_visible && (tail_grid
            > STRIP_SCORE || tail_shape > STRIP_SCORE) && joint_grid < tail_grid),
{
    may_fold_tail(row_length, left) && tail_is_visible && (tail_grid > STRIP_SCORE || tail_shape
        > STRIP_SCORE) && joint_grid < tail_grid
}

/// Whether the last row is drawn as a grid: it looks like a strip, and the grid
/// looks better.
pub fn grids_final_row(row_length: usize, is_visible: bool, row_score: u32, grid_score: u32) -> (r:
    bool)
    ensures
        r == (row_length >= 2 && is_visible && row_score > STRIP_SCORE && grid_score < row_score),
{
    row_length >= 2 && is_visible && row_score > STRIP_SCORE && grid_score < row_score
}

/// A part of the items, from one place up to another.
#[derive(Debug, Clone, Copy, PartialEq, Eq, Structural)]
pub struct RowRange {
    pub start: usize,
    pub end: usize,
}

/// Items that are put into rows, one after the other.
#[derive(Debug)]
pub struct RowPlan {
    total: usize,
    row: RowRange,
}

/// Items that are put into rows, as a mathematical value.
#[verifier::ext_equal]
pub struct PlanModel {
    pub total: int,
    pub start: int,
    pub end: int,
}

impl PlanModel {
    /// The row that is being filled lies within the items, and holds one at
    /// least where there are any.
    pub open spec fn wf(self) -> bool {
        &&& 0 <= self.start <= self.end <= self.total
        &&& self.total > 0 ==> self.start < self.end
    }

    /// The plan after a step, and the row that it finishes.
    pub open spec fn step(self, step: RowStep) -> (PlanModel, Option<(int, int)>) {
        match step {
            RowStep::Extend => (PlanModel { end: self.end + 1, ..self }, None),
            RowStep::Fold => (PlanModel { end: self.total, ..self }, None),
            RowStep::Close => (
                PlanModel { start: self.end, end: self.end + 1, ..self },
                Some((self.start, self.end)),
            ),
        }
    }
}

impl View for RowPlan {
    type V = PlanModel;

    closed spec fn view(&self) -> PlanModel {
        PlanModel {
            total: self.total as int,
            start: self.row.start as int,
            end: self.row.end as int,
        }
    }
}

impl RowPlan {
    pub open spec fn wf(&self) -> bool {
        self@.wf()
    }

    /// Begins with the first item in the first row.
    pub fn begin(total: usize) -> (r: RowPlan)
        ensures
            r@ == (PlanModel {
                total: total as int,
                start: 0,
                end: if total > 0 {
                    1int
                } else {
                    0
                },
            }),
            r.wf(),
    {
        let end: usize = if total > 0 {
            1
        } else {
            0
        };
        RowPlan { total, row: RowRange { start: 0, end } }
    }

    /// The row that is being filled.
    pub fn row(&self) -> (r: RowRange)
        ensures
            r.start == self@.start,
            r.end == self@.end,
    {
        self.row
    }

    /// The next item, if one is left.
    pub fn next(&self) -> (r: Option<usize>)
        requires
            self.wf(),
        ensures
            r == if self@.end < self@.total {
                Some(self@.end as usize)
            } else {
                None
            },
    {
        if self.row.end < self.total {
            Some(self.row.end)
        } else {
            None
        }
    }

    /// Takes a step with the next item, and returns the row that it finishes.
    pub fn step(&mut self, step: RowStep) -> (r: Option<RowRange>)
        requires
            old(self).wf(),
            old(self)@.end < old(self)@.total,
        ensures
            final(self)@ == old(self)@.step(step).0,
            final(self).wf(),
            match r {
                Some(row) => old(self)@.step(step).1 == Some((row.start as int, row.end as int)),
                None => old(self)@.step(step).1 is None,
            },
    {
        match step {
            RowStep::Extend => {
                self.row.end = self.row.end + 1;
                None
            },
            RowStep::Fold => {
                self.row.end = self.total;
                None
            },
            RowStep::Close => {
                let finished: RowRange = self.row;
                self.row = RowRange { start: finished.end, end: finished.end + 1 };
                Some(finished)
            },
        }
    }
}

/// The plan after steps, and the rows finished on the way.
pub open spec fn after_steps(plan: PlanModel, steps: Seq<RowStep>) -> (PlanModel, Seq<(int, int)>)
    decreases steps.len(),
{
    if steps.len() == 0 {
        (plan, Seq::empty())
    } else {
        let (before, rows) = after_steps(plan, steps.drop_last());
        let (after, row) = before.step(steps.last());
        (
            after,
            match row {
                Some(finished) => rows.push(finished),
                None => rows,
            },
        )
    }
}

/// Whether a step is taken only while an item is left.
pub open spec fn steps_fit(plan: PlanModel, steps: Seq<RowStep>) -> bool
    decreases steps.len(),
{
    steps.len() > 0 ==> {
        &&& steps_fit(plan, steps.drop_last())
        &&& after_steps(plan, steps.drop_last()).0.end < plan.total
    }
}

/// Whether rows follow each other without a gap, from the first item up to a
/// place, and none is empty.
pub open spec fn rows_join(rows: Seq<(int, int)>, place: int) -> bool {
    &&& rows.len() == 0 ==> place == 0
    &&& rows.len() > 0 ==> rows[0].0 == 0 && rows.last().1 == place
    &&& forall|i: int| 0 <= i < rows.len() ==> (#[trigger] rows[i]).0 < rows[i].1
    &&& forall|i: int, j: int|
        0 <= i < rows.len() && j == i + 1 && j < rows.len() ==> (#[trigger] rows[i]).1 == (
        #[trigger] rows[j]).0
}

/// Whatever is decided, the rows hold every item once, in order: the finished
/// rows follow each other, and the row that is being filled follows the last.
pub proof fn law_rows_hold_every_item_once(total: int, steps: Seq<RowStep>)
    requires
        total > 0,
        steps_fit(PlanModel { total, start: 0, end: 1 }, steps),
    ensures
        ({
            let (plan, rows) = after_steps(PlanModel { total, start: 0, end: 1 }, steps);
            &&& plan.wf()
            &&& plan.total == total
            &&& rows_join(rows, plan.start)
            &&& rows_join(rows.push((plan.start, plan.end)), plan.end)
        }),
    decreases steps.len(),
{
    if steps.len() > 0 {
        law_rows_hold_every_item_once(total, steps.drop_last());
    }
}

/// The weights from the second item on, added up.
pub open spec fn weight_of_others<T>(items: Seq<WeightedItem<T>>) -> int
    decreases items.len(),
{
    if items.len() <= 1 {
        0
    } else {
        weight_of_others(items.drop_last()) + items.last().layout_size
    }
}

proof fn lemma_weight_of_others<T>(items: Seq<WeightedItem<T>>)
    requires
        weight_of_others(items) <= u128::MAX,
    ensures
        rest_weight(items) == weight_of_others(items),
        weight_of_others(items) >= 0,
    decreases items.len(),
{
    if items.len() > 1 {
        lemma_others_grow(items);
        lemma_weight_of_others(items.drop_last());
    }
}

proof fn lemma_others_grow<T>(items: Seq<WeightedItem<T>>)
    ensures
        weight_of_others(items) >= 0,
        items.len() > 1 ==> weight_of_others(items.drop_last()) <= weight_of_others(items),
    decreases items.len(),
{
    if items.len() > 1 {
        lemma_others_grow(items.drop_last());
    }
}

/// Only the weight of the first of several items is ever changed, and only where it
/// is more than the limit; then it is the limit. Where it is no more than the others
/// together, and these are few enough to be exact in single precision, it stays.
pub proof fn law_only_a_dominant_weight_is_cut_back<T>(items: Seq<WeightedItem<T>>)
    ensures
        ({
            let capped = with_capped_first(items);
            let limit = dominant_limit(items);
            &&& capped.len() == items.len()
            &&& forall|i: int|
                0 <= i < items.len() ==> (#[trigger] capped[i]).item == items[i].item
                    && capped[i].size == items[i].size
            &&& forall|i: int| 1 <= i < items.len() ==> #[trigger] capped[i] == items[i]
            &&& items.len() < 2 ==> capped == items
            &&& items.len() > 0 && items[0].layout_size <= limit ==> capped == items
            &&& items.len() >= 2 && items[0].layout_size > limit && limit > 0
                ==> capped[0].layout_size == limit
            &&& items.len() >= 2 && limit == 0 ==> capped == items
            &&& weight_of_others(items) < 0x100_0000 ==> limit == weight_of_others(items)
            &&& items.len() >= 2 && 0 < weight_of_others(items) < 0x100_0000
                ==> capped[0].layout_size == if items[0].layout_size <= weight_of_others(items) {
                items[0].layout_size as int
            } else {
                weight_of_others(items)
            }
        }),
{
    if weight_of_others(items) < 0x100_0000 {
        lemma_weight_of_others(items);
        lemma2_to64();
        law_short_numbers_stay(rest_weight(items) as nat, 24);
    }
}

/// The limit for the first item is as near to the weight of the others together as
/// single precision comes: within one part in 2^24 of it.
pub proof fn law_the_limit_is_the_weight_of_the_others<T>(items: Seq<WeightedItem<T>>)
    requires
        weight_of_others(items) <= 0xffff_ff00_0000_0000_0000_0000_0000_0000,
    ensures
        weight_of_others(items) * (pow2(24) - 1) <= dominant_limit(items) * pow2(24)
            <= weight_of_others(items) * (pow2(24) + 1),
{
    lemma_weight_of_others(items);
    let rest = rest_weight(items);
    let rounded = with_digits(rest as nat, 24);
    law_rounding_adds_little(rest as nat, 24);
    law_rounding_takes_little(rest as nat, 24);
    lemma2_to64();
    assert(rounded <= u128::MAX) by (nonlinear_arith)
        requires
            rounded * 0x100_0000 <= rest * 0x100_0001,
            rest <= 0xffff_ff00_0000_0000_0000_0000_0000_0000,
    ;
}

/// Of all shapes of a grid with a finite score, the best has the least; of several
/// with the least, it is the one with the fewest columns.
pub proof fn law_the_best_shape_is_the_first_of_the_least(
    scores: Seq<u32>,
    columns: int,
    other: int,
)
    requires
        is_best_shape(scores, columns),
        1 <= other <= scores.len(),
    ensures
        scores[columns - 1] <= scores[other - 1],
        scores[other - 1] == scores[columns - 1] ==> columns <= other,
        scores[columns - 1] < 0x7f80_0000,
{
}

/// What stays as square as it is and is painted well joins the row, and so does
/// what mends a strip. What makes a row worse that is no strip does not join it,
/// unless it is the last and would look worse alone.
pub proof fn law_rows_grow_while_that_looks_better(scores: RowScores, is_last: bool)
    ensures
        scores.longer_worst <= scores.row_worst && scores.longer_painted <= 0x4008_51ec
            ==> joins_row(scores, is_last),
        scores.row_painted > 0x4008_51ec && scores.longer_painted < scores.row_painted
            ==> joins_row(scores, is_last),
        is_last && scores.longer_painted <= scores.split_painted ==> joins_row(scores, is_last),
        joins_row(scores, false) ==> scores.longer_worst <= scores.row_worst
            || scores.longer_painted < scores.row_painted,
        joins_row(scores, false) && scores.longer_painted > 0x4008_51ec ==> scores.longer_painted
            < scores.row_painted,
        joins_row(scores, true) && !joins_row(scores, false) ==> scores.longer_painted
            <= scores.split_painted,
        joins_row(scores, false) && scores.row_painted <= 0x4008_51ec ==> scores.longer_worst
            <= scores.row_worst && scores.longer_painted <= 0x4008_51ec,
{
}

/// Two items that are left are never folded, nor more than eight, nor so many that
/// there would be more than ten; all other tails may be.
pub proof fn law_short_tails_may_be_folded(row: int, left: int)
    requires
        row >= 0,
        left >= 0,
    ensures
        !is_foldable(row, 2),
        is_foldable(row, left) ==> left <= 8 && row + left <= 10,
        left != 2 && left < 9 && row + left < 11 ==> is_foldable(row, left),
{
}

/// A step moves one item into the row, or all that are left, or begins a row with
/// the item behind the one that it finishes.
pub proof fn law_steps_take_items_in_order(plan: PlanModel)
    ensures
        plan.step(RowStep::Extend).0 == (PlanModel { end: plan.end + 1, ..plan }),
        plan.step(RowStep::Extend).1 is None,
        plan.step(RowStep::Fold).0.end == plan.total,
        plan.step(RowStep::Fold).0.start == plan.start,
        plan.step(RowStep::Fold).0.total == plan.total,
        plan.step(RowStep::Fold).1 is None,
        plan.step(RowStep::Close).1 == Some((plan.start, plan.end)),
        plan.step(RowStep::Close).0.start == plan.end,
        plan.step(RowStep::Close).0.end == plan.end + 1,
        plan.step(RowStep::Close).0.total == plan.total,
{
}

/// What is laid out has the size of an item as its weight, but for the first, and an
/// item of any size but zero is laid out.
pub proof fn law_items_weigh_what_they_measure<T>(items: Seq<TreemapItem<T>>, place: int)
    requires
        0 <= place < items.len(),
    ensures
        items[place].size > 0 <==> exists|k: int|
            0 <= k < laid_out(items).len() && unweighted(#[trigger] laid_out(items)[k])
                == items[place],
        forall|k: int|
            1 <= k < laid_out(items).len() ==> (#[trigger] laid_out(items)[k]).layout_size
                == laid_out(items)[k].size,
{
    broadcast use vstd::seq_lib::group_filter_ensures;

    let keep = |item: TreemapItem<T>| item.size > 0;
    let kept = sized_items(items);
    let list = sorted(kept);
    let plain = list.map_values(|item: TreemapItem<T>| weighted(item));
    law_sorted_is_a_sorted_rearrangement(kept);
    law_the_layout_holds_what_takes_room(items);
    law_only_a_dominant_weight_is_cut_back(plain);
    assert forall|k: int| 0 <= k < laid_out(items).len() implies unweighted(
        #[trigger] laid_out(items)[k],
    ) == list[k] by {
        assert(plain[k] == weighted(list[k]));
    }
    if items[place].size > 0 {
        assert(keep(items[place]));
        items.lemma_filter_contains(keep, place);
        let j = choose|j: int| 0 <= j < kept.len() && kept[j] == items[place];
        assert(list.contains(kept[j]));
        let k = choose|k: int| 0 <= k < list.len() && list[k] == items[place];
        assert(unweighted(laid_out(items)[k]) == items[place]);
    }
    assert forall|k: int| 1 <= k < laid_out(items).len() implies (#[trigger] laid_out(
        items,
    )[k]).layout_size == laid_out(items)[k].size by {
        assert(laid_out(items)[k] == plain[k]);
    }
}

/// The next row of a grid takes the even share of the items, rounded up, but never more
/// than there are columns.
pub proof fn law_the_next_row_takes_the_even_share(items: int, columns: int, rows: int)
    requires
        items >= 0,
        columns > 0,
        rows > 0,
    ensures
        ({
            let length = next_row_length(items, columns, rows);
            &&& 0 <= length <= columns
            &&& length < columns ==> items <= length * rows
            &&& length > 0 ==> (length - 1) * rows < items
        }),
{
    let even = (items + rows - 1) / rows;
    vstd::arithmetic::div_mod::lemma_fundamental_div_mod(items + rows - 1, rows);
    let r = (items + rows - 1) % rows;
    assert(even >= 0 && items <= even * rows && (even - 1) * rows < items) by (nonlinear_arith)
        requires
            items + rows - 1 == rows * even + r,
            0 <= r < rows,
            items >= 0,
    ;
    let length = next_row_length(items, columns, rows);
    if length < even {
        assert((length - 1) * rows <= (even - 1) * rows) by (nonlinear_arith)
            requires
                length < even,
                rows > 0,
        ;
    }
}

/// The rows of a grid, one after the other: the next row, and then those for what is
/// left.
pub proof fn law_rows_are_filled_in_turn(items: int, columns: int, rows: nat)
    requires
        rows > 0,
    ensures
        ({
            let lengths = row_lengths(items, columns, rows);
            let first = next_row_length(items, columns, rows as int);
            &&& lengths.len() > 0
            &&& lengths[0] == first
            &&& lengths.skip(1) == row_lengths(items - first, columns, (rows - 1) as nat)
        }),
        row_lengths(items, columns, 0).len() == 0,
{
    let lengths = row_lengths(items, columns, rows);
    let first = next_row_length(items, columns, rows as int);
    assert(lengths.skip(1) =~= row_lengths(items - first, columns, (rows - 1) as nat));
}

/// Larger items come first, and items that are as large keep the order that they had.
pub proof fn law_larger_items_come_first<T>(items: Seq<TreemapItem<T>>, i: int, j: int)
    requires
        0 <= i < items.len(),
        0 <= j < items.len(),
        items[i].size > items[j].size || (items[i].size == items[j].size && i < j),
    ensures
        exists|p: int, q: int|
            0 <= p < q < sorted(items).len() && #[trigger] stable_order(items)[p] == i
                && #[trigger] stable_order(items)[q] == j && sorted(items)[p] == items[i]
                && sorted(items)[q] == items[j],
{
    law_ties_keep_their_order(items, i, j);
}

} // verus!

//! The texts that are shown.
use crate::deletion::DeleteMode;
use crate::filters::Filters;
use crate::scan::data::ScanOptions;
use crate::size_input::{parse_size_input_bytes, size_of_text};
use crate::text::{chars_of, is_text, part_of, text_of, trim, trimmed};
use vstd::prelude::*;

verus! {

/// The text that `humansize::format_size` makes of a number of bytes with its
/// binary units.
pub uninterp spec fn binary_size_text(bytes: u64) -> Seq<char>;

/// `humansize::format_size` with `humansize::BINARY`: a number of bytes in the
/// binary unit that suits it. The result depends on the number alone and is given a
/// name here. Less than 1024 bytes are written as bytes; how larger numbers are
/// rounded, and in which unit, is left unsaid.
#[verifier::external_body]
fn format_binary_size(bytes: u64) -> (r: String)
    ensures
        r@ == binary_size_text(bytes),
        bytes < 1024 ==> r@ == decimal_text(bytes as nat) + " B"@,
{
    humansize::format_size(bytes, humansize::BINARY)
}

/// The text for a size, as far as 64 bits can hold it.
pub open spec fn size_text(bytes: u128) -> Seq<char> {
    binary_size_text(
        if bytes > u64::MAX {
            u64::MAX
        } else {
            bytes as u64
        },
    )
}

/// A size in the binary unit that suits it. Sizes that 64 bits cannot hold are
/// shown as the largest that they can.
pub fn human_bytes(bytes: u128) -> (r: String)
    ensures
        r@ == size_text(bytes),
        bytes < 1024 ==> r@ == decimal_text(bytes as nat) + " B"@,
{
    let shown: u64 = if bytes > u64::MAX as u128 {
        u64::MAX
    } else {
        bytes as u64
    };
    format_binary_size(shown)
}

/// The character of a decimal digit.
pub open spec fn digit_char(digit: int) -> char {
    (('0' as u32 + digit) as u8) as char
}

/// A number in decimal digits.
pub open spec fn decimal_text(number: nat) -> Seq<char>
    decreases number,
{
    if number < 10 {
        seq![digit_char(number as int)]
    } else {
        decimal_text(number / 10).push(digit_char((number % 10) as int))
    }
}

/// A number in decimal digits.
pub fn decimal(number: u64) -> (r: String)
    ensures
        r@ == decimal_text(number as nat),
{
    let mut digits: Vec<char> = Vec::new();
    let mut rest: u64 = number;
    let ghost all = decimal_text(number as nat);
    proof {
        assert(decimal_text(rest as nat) + digits@.reverse() =~= all);
    }
    while rest >= 10
        invariant
            decimal_text(rest as nat) + digits@.reverse() == all,
        decreases rest,
    {
        let ghost before = digits@;
        let digit: char = (('0' as u32 + (rest % 10) as u32) as u8) as char;
        digits.push(digit);
        proof {
            assert(digits@.reverse() =~= seq![digit] + before.reverse());
            assert(decimal_text(rest as nat) == decimal_text(rest as nat / 10).push(digit));
            assert(decimal_text(rest as nat / 10).push(digit) + before.reverse() =~= decimal_text(
                rest as nat / 10,
            ) + (seq![digit] + before.reverse()));
        }
        rest = rest / 10;
    }
    let ghost before = digits@;
    let first: char = (('0' as u32 + rest as u32) as u8) as char;
    digits.push(first);
    proof {
        assert(digits@.reverse() =~= seq![first] + before.reverse());
    }
    let mut text: String = String::new();
    let mut i: usize = digits.len();
    while i > 0
        invariant
            i <= digits@.len(),
            text@ == digits@.reverse().take(digits@.len() - i),
        decreases i,
    {
        i = i - 1;
        text.push(digits[i]);
        proof {
            assert(text@ =~= digits@.reverse().take(digits@.len() - i));
        }
    }
    proof {
        assert(digits@.reverse().take(digits@.len() as int) =~= digits@.reverse());
    }
    text
}

/// Different numbers have different texts.
pub proof fn law_numbers_are_told_apart(one: nat, two: nat)
    requires
        decimal_text(one) == decimal_text(two),
    ensures
        one == two,
    decreases one + two,
{
    let (a, b) = (decimal_text(one), decimal_text(two));
    lemma_decimal_length(one);
    lemma_decimal_length(two);
    assert(a.last() == b.last());
    assert(one % 10 == two % 10);
    if one >= 10 && two >= 10 {
        assert(a.drop_last() =~= decimal_text(one / 10));
        assert(b.drop_last() =~= decimal_text(two / 10));
        law_numbers_are_told_apart(one / 10, two / 10);
    } else if one >= 10 {
        lemma_decimal_length(one / 10);
        assert(a.len() >= 2);
    } else if two >= 10 {
        lemma_decimal_length(two / 10);
        assert(b.len() >= 2);
    }
}

proof fn lemma_decimal_length(number: nat)
    ensures
        decimal_text(number).len() >= 1,
        decimal_text(number).last() == digit_char((number % 10) as int),
{
}

/// How many filters are active: a name, a size, an age.
pub open spec fn active_filters(filters: Filters) -> nat {
    (if trimmed(filters.name_substring@).len() > 0 {
        1nat
    } else {
        0
    }) + (if filters.min_size_bytes > 0 {
        1nat
    } else {
        0
    }) + if filters.max_age_days > 0 {
        1nat
    } else {
        0
    }
}

fn count_active_filters(filters: &Filters) -> (r: u64)
    ensures
        r == active_filters(*filters),
{
    let chars: Vec<char> = chars_of(filters.name_substring.as_str());
    let mut count: u64 = 0;
    if trim(chars.as_slice()).len() > 0 {
        count = count + 1;
    }
    if filters.min_size_bytes > 0 {
        count = count + 1;
    }
    if filters.max_age_days > 0 {
        count = count + 1;
    }
    count
}

/// Whether any filter is active.
pub fn filters_active(filters: &Filters) -> (r: bool)
    ensures
        r == (active_filters(*filters) > 0),
{
    count_active_filters(filters) > 0
}

/// How many filters are active, in words.
pub fn active_filter_summary(filters: &Filters) -> (r: String)
    ensures
        r@ == if active_filters(*filters) == 0 {
            "no active filters"@
        } else if active_filters(*filters) == 1 {
            "1 active filter"@
        } else {
            decimal_text(active_filters(*filters)) + " active filters"@
        },
{
    let count: u64 = count_active_filters(filters);
    if count == 0 {
        "no active filters".to_owned()
    } else if count == 1 {
        "1 active filter".to_owned()
    } else {
        let mut text: String = decimal(count);
        text.push_str(" active filters");
        text
    }
}

/// The name of the title of the window with the filters.
pub fn filter_window_title(filters: &Filters) -> (r: &'static str)
    ensures
        r@ == if active_filters(*filters) > 0 {
            "Filters - active"@
        } else {
            "Filters"@
        },
{
    if filters_active(filters) {
        "Filters - active"
    } else {
        "Filters"
    }
}

/// What is shown for each active filter, given the text for the size.
pub open spec fn chip_texts(filters: Filters, size: Seq<char>) -> Seq<Seq<char>> {
    let name = trimmed(filters.name_substring@);
    (if name.len() > 0 {
        seq!["name: "@ + name]
    } else {
        Seq::empty()
    }) + (if filters.min_size_bytes > 0 {
        seq!["minimum "@ + size]
    } else {
        Seq::empty()
    }) + if filters.max_age_days > 0 {
        seq!["modified "@ + decimal_text(filters.max_age_days as nat) + " days"@]
    } else {
        Seq::empty()
    }
}

/// The characters of a list of texts.
pub open spec fn text_views(texts: Seq<String>) -> Seq<Seq<char>> {
    texts.map_values(|text: String| text@)
}

/// What is shown for each active filter.
pub fn filter_chips(filters: &Filters) -> (r: Vec<String>)
    ensures
        text_views(r@) == chip_texts(*filters, size_text(filters.min_size_bytes)),
{
    let size: String = human_bytes(filters.min_size_bytes);
    filter_chips_for(filters, size.as_str())
}

/// What is shown for each active filter, given the text for the size.
pub fn filter_chips_for(filters: &Filters, size: &str) -> (r: Vec<String>)
    ensures
        text_views(r@) == chip_texts(*filters, size@),
{
    let chars: Vec<char> = chars_of(filters.name_substring.as_str());
    let name: Vec<char> = trim(chars.as_slice());
    let mut chips: Vec<String> = Vec::new();
    proof {
        assert(text_views(chips@) =~= Seq::empty());
    }
    if name.len() > 0 {
        let mut text: String = "name: ".to_owned();
        text.push_str(text_of(name.as_slice()).as_str());
        let ghost before = text_views(chips@);
        let ghost shown = text@;
        chips.push(text);
        proof {
            assert(text_views(chips@) =~= before.push(shown));
        }
    }
    if filters.min_size_bytes > 0 {
        let mut text: String = "minimum ".to_owned();
        text.push_str(size);
        let ghost before = text_views(chips@);
        let ghost shown = text@;
        chips.push(text);
        proof {
            assert(text_views(chips@) =~= before.push(shown));
        }
    }
    if filters.max_age_days > 0 {
        let mut text: String = "modified ".to_owned();
        text.push_str(decimal(filters.max_age_days).as_str());
        text.push_str(" days");
        let ghost before = text_views(chips@);
        let ghost shown = text@;
        chips.push(text);
        proof {
            assert(text_views(chips@) =~= before.push(shown));
        }
    }
    proof {
        assert(text_views(chips@) =~= chip_texts(*filters, size@));
    }
    chips
}

/// As many texts are shown for filters as filters are active.
pub proof fn law_every_active_filter_is_shown(filters: Filters, size: Seq<char>)
    ensures
        chip_texts(filters, size).len() == active_filters(filters),
{
}

/// The words for the age that passes.
pub fn age_summary(days: u64) -> (r: String)
    ensures
        r@ == if days == 0 {
            "Any modified date"@
        } else {
            "Modified within "@ + decimal_text(days as nat) + " days"@
        },
{
    if days == 0 {
        "Any modified date".to_owned()
    } else {
        let mut text: String = "Modified within ".to_owned();
        text.push_str(decimal(days).as_str());
        text.push_str(" days");
        text
    }
}

/// What is said of the size that is typed as a filter.
#[derive(Debug, Clone, Copy, PartialEq, Eq, Structural)]
pub enum SizeNote {
    /// There is no limit.
    NoFloor,
    /// It is read as so many bytes.
    Parsed(u128),
    /// It is not a size.
    Paused,
}

/// What is said of a text that is typed as a size.
pub open spec fn size_note_of(input: Seq<char>) -> SizeNote {
    match size_of_text(input) {
        Some(0) => SizeNote::NoFloor,
        Some(bytes) => SizeNote::Parsed(bytes),
        None => SizeNote::Paused,
    }
}

/// What is said of a text that is typed as a size.
pub fn size_note(input: &str) -> (r: SizeNote)
    ensures
        r == size_note_of(input@),
{
    match parse_size_input_bytes(input) {
        Some(bytes) => if bytes == 0 {
            SizeNote::NoFloor
        } else {
            SizeNote::Parsed(bytes)
        },
        None => SizeNote::Paused,
    }
}

/// The least size that passes: what is typed, or none where it is not a size.
pub fn size_floor(input: &str) -> (r: u128)
    ensures
        r == match size_of_text(input@) {
            Some(bytes) => bytes,
            None => 0,
        },
{
    match parse_size_input_bytes(input) {
        Some(bytes) => bytes,
        None => 0,
    }
}

/// How a scan counts, in words.
pub fn scan_mode_text(options: ScanOptions) -> (r: String)
    ensures
        r@ == (if options.apparent_size {
            "Apparent size"@
        } else {
            "Allocated size"@
        }) + " / "@ + if options.cross_filesystems {
            "All filesystems"@
        } else {
            "Same filesystem"@
        },
{
    let mut text: String = if options.apparent_size {
        "Apparent size".to_owned()
    } else {
        "Allocated size".to_owned()
    };
    text.push_str(" / ");
    if options.cross_filesystems {
        text.push_str("All filesystems");
    } else {
        text.push_str("Same filesystem");
    }
    text
}

/// The word for a directory or a file.
pub open spec fn kind_text(is_dir: bool) -> Seq<char> {
    if is_dir {
        "folder"@
    } else {
        "file"@
    }
}

/// The word for a directory or a file.
pub fn kind_word(is_dir: bool) -> (r: &'static str)
    ensures
        r@ == kind_text(is_dir),
{
    if is_dir {
        "folder"
    } else {
        "file"
    }
}

/// What is said of the focused directory, given the text for its size.
pub open spec fn focus_line(
    size: Seq<char>,
    visible: nat,
    filtered: bool,
    is_dir: bool,
) -> Seq<char> {
    size + "  |  "@ + decimal_text(visible) + " visible"@ + (if filtered {
        " filtered"@
    } else {
        ""@
    }) + "  |  "@ + kind_text(is_dir)
}

/// What is said of the focused directory.
pub fn focus_summary(size: u128, visible: usize, filtered: bool, is_dir: bool) -> (r: String)
    ensures
        r@ == focus_line(size_text(size), visible as nat, filtered, is_dir),
{
    let shown: String = human_bytes(size);
    focus_summary_for(shown.as_str(), visible, filtered, is_dir)
}

/// What is said of the focused directory, given the text for its size.
pub fn focus_summary_for(size: &str, visible: usize, filtered: bool, is_dir: bool) -> (r: String)
    ensures
        r@ == focus_line(size@, visible as nat, filtered, is_dir),
{
    let mut text: String = size.to_owned();
    text.push_str("  |  ");
    text.push_str(decimal(visible as u64).as_str());
    text.push_str(" visible");
    if filtered {
        text.push_str(" filtered");
    } else {
        text.push_str("");
    }
    text.push_str("  |  ");
    text.push_str(kind_word(is_dir));
    text
}

/// What is said of an entry in a list, given the text for its size.
pub fn entry_detail_for(size: &str, is_dir: bool) -> (r: String)
    ensures
        r@ == size@ + "  |  "@ + kind_text(is_dir),
{
    let mut text: String = size.to_owned();
    text.push_str("  |  ");
    text.push_str(kind_word(is_dir));
    text
}

/// What is said of an entry in a list.
pub fn entry_detail(size: u128, is_dir: bool) -> (r: String)
    ensures
        r@ == size_text(size) + "  |  "@ + kind_text(is_dir),
{
    let shown: String = human_bytes(size);
    entry_detail_for(shown.as_str(), is_dir)
}

/// What is said of a scan, given the text for its total.
pub open spec fn status_line(
    finished: bool,
    entries: u64,
    total: Seq<char>,
    io_errors: u64,
) -> Seq<char> {
    if finished {
        decimal_text(entries as nat) + " entries, "@ + total + ", "@ + decimal_text(
            io_errors as nat,
        ) + " I/O errors"@
    } else {
        "Scanning "@ + decimal_text(entries as nat) + " entries..."@
    }
}

/// The text for the total of a scan, which may not be known.
pub open spec fn total_text(total: Option<u128>) -> Seq<char> {
    match total {
        Some(bytes) => size_text(bytes),
        None => "0 B"@,
    }
}

/// What is said of a scan.
pub fn scan_status(finished: bool, entries: u64, total: Option<u128>, io_errors: u64) -> (r: String)
    ensures
        r@ == status_line(finished, entries, total_text(total), io_errors),
{
    let shown: String = match total {
        Some(bytes) => human_bytes(bytes),
        None => "0 B".to_owned(),
    };
    scan_status_for(finished, entries, shown.as_str(), io_errors)
}

/// What is said of a scan, given the text for its total.
pub fn scan_status_for(finished: bool, entries: u64, total: &str, io_errors: u64) -> (r: String)
    ensures
        r@ == status_line(finished, entries, total@, io_errors),
{
    if finished {
        let mut text: String = decimal(entries);
        text.push_str(" entries, ");
        text.push_str(total);
        text.push_str(", ");
        text.push_str(decimal(io_errors).as_str());
        text.push_str(" I/O errors");
        text
    } else {
        let mut text: String = "Scanning ".to_owned();
        text.push_str(decimal(entries).as_str());
        text.push_str(" entries...");
        text
    }
}

/// What is said over the treemap while a scan runs.
pub fn scan_activity_text(entries: u64, active_jobs: usize) -> (r: String)
    ensures
        r@ == "scanning  "@ + decimal_text(entries as nat) + " entries  "@ + decimal_text(
            active_jobs as nat,
        ) + " jobs"@,
{
    let mut text: String = "scanning  ".to_owned();
    text.push_str(decimal(entries).as_str());
    text.push_str(" entries  ");
    text.push_str(decimal(active_jobs as u64).as_str());
    text.push_str(" jobs");
    text
}

/// What is said of the number of entries of a directory.
pub fn entry_count_text(count: Option<u64>) -> (r: String)
    ensures
        r@ == match count {
            Some(known) => decimal_text(known as nat) + " entries"@,
            None => "not scanned"@,
        },
{
    match count {
        Some(known) => {
            let mut text: String = decimal(known);
            text.push_str(" entries");
            text
        },
        None => "not scanned".to_owned(),
    }
}

/// What is said below a list that does not show everything.
pub fn child_limit_text(total: usize, shown: usize) -> (r: String)
    ensures
        r@ == "showing first "@ + decimal_text(shown as nat) + " of "@ + decimal_text(
            total as nat,
        ) + " visible"@,
{
    let mut text: String = "showing first ".to_owned();
    text.push_str(decimal(shown as u64).as_str());
    text.push_str(" of ");
    text.push_str(decimal(total as u64).as_str());
    text.push_str(" visible");
    text
}

/// What is said of the entries that a list does not show.
pub fn hidden_entries_text(total: usize, shown: usize) -> (r: String)
    ensures
        r@ == decimal_text(
            if total >= shown {
                (total - shown) as nat
            } else {
                0
            },
        ) + " additional entries are hidden in this inspector list"@,
{
    let hidden: usize = total.saturating_sub(shown);
    let mut text: String = decimal(hidden as u64);
    text.push_str(" additional entries are hidden in this inspector list");
    text
}

/// What is said of the directories that a path does not show.
pub fn hidden_ancestors_text(hidden: usize) -> (r: String)
    ensures
        r@ == decimal_text(hidden as nat) + " hidden ancestor folders"@,
{
    let mut text: String = decimal(hidden as u64);
    text.push_str(" hidden ancestor folders");
    text
}

/// What is shown for the source of a mount.
pub fn mount_source_text(source: &str) -> (r: String)
    ensures
        r@ == if source@.len() == 0 {
            "unknown source"@
        } else {
            source@
        },
{
    if source.is_empty() {
        "unknown source".to_owned()
    } else {
        source.to_owned()
    }
}

/// A text cut to a number of characters; the last three of them say that it was
/// cut, as far as there is room for them.
pub open spec fn fitted(text: Seq<char>, max_chars: int) -> Seq<char> {
    if text.len() <= max_chars {
        text
    } else if max_chars <= 3 {
        Seq::new(max_chars as nat, |i: int| '.')
    } else {
        text.take(max_chars - 3) + "..."@
    }
}

/// A text cut to a number of characters.
pub fn fit_text(text: &str, max_chars: usize) -> (r: String)
    ensures
        r@ == fitted(text@, max_chars as int),
{
    let chars: Vec<char> = chars_of(text);
    if chars.len() <= max_chars {
        return text.to_owned();
    }
    if max_chars <= 3 {
        let mut dots: String = String::new();
        let mut i: usize = 0;
        while i < max_chars
            invariant
                i <= max_chars,
                dots@ == Seq::new(i as nat, |k: int| '.'),
            decreases max_chars - i,
        {
            dots.push('.');
            i = i + 1;
            proof {
                assert(dots@ =~= Seq::new(i as nat, |k: int| '.'));
            }
        }
        return dots;
    }
    let front: Vec<char> = part_of(chars.as_slice(), 0, max_chars - 3);
    let mut cut: String = text_of(front.as_slice());
    cut.push_str("...");
    proof {
        assert(front@ =~= text@.take(max_chars - 3));
    }
    cut
}

/// A text that is cut is never longer than allowed, and keeps its beginning.
pub proof fn law_fitted_texts_fit(text: Seq<char>, max_chars: int)
    requires
        max_chars >= 0,
    ensures
        fitted(text, max_chars).len() <= max_chars,
        text.len() <= max_chars ==> fitted(text, max_chars) == text,
        max_chars > 3 && text.len() > max_chars ==> fitted(text, max_chars).len() == max_chars
            && fitted(text, max_chars).take(max_chars - 3) == text.take(max_chars - 3),
{
    reveal_strlit("...");
    if max_chars > 3 && text.len() > max_chars {
        assert(fitted(text, max_chars).take(max_chars - 3) =~= text.take(max_chars - 3));
    }
}

/// The truth value that a text stands for.
pub open spec fn bool_of(value: Seq<char>) -> Option<bool> {
    if value == "true"@ {
        Some(true)
    } else if value == "false"@ {
        Some(false)
    } else {
        None
    }
}

/// The truth value that was stored as a text.
pub fn stored_bool(value: &str) -> (r: Option<bool>)
    ensures
        r == bool_of(value@),
{
    let chars: Vec<char> = chars_of(value);
    if is_text(chars.as_slice(), "true") {
        Some(true)
    } else if is_text(chars.as_slice(), "false") {
        Some(false)
    } else {
        None
    }
}

/// The text under which a truth value is stored.
pub fn bool_text(value: bool) -> (r: &'static str)
    ensures
        r@ == if value {
            "true"@
        } else {
            "false"@
        },
{
    if value {
        "true"
    } else {
        "false"
    }
}

/// A truth value that has been stored is found again.
pub proof fn law_a_stored_truth_value_is_found_again(value: bool)
    ensures
        bool_of(
            if value {
                "true"@
            } else {
                "false"@
            },
        ) == Some(value),
{
    reveal_strlit("true");
    reveal_strlit("false");
    assert("true"@.len() == 4 && "false"@.len() == 5);
}

/// What is asked before a path is deleted.
pub fn delete_question(mode: DeleteMode) -> (r: &'static str)
    ensures
        r@ == match mode {
            DeleteMode::Trash => "Move this path to the trash?"@,
            DeleteMode::Permanent => "Permanently delete this path?"@,
        },
{
    match mode {
        DeleteMode::Trash => "Move this path to the trash?",
        DeleteMode::Permanent => "Permanently delete this path?",
    }
}

/// The title of the window in which a deletion is confirmed.
pub fn delete_title(mode: DeleteMode) -> (r: &'static str)
    ensures
        r@ == match mode {
            DeleteMode::Trash => "Move to Trash"@,
            DeleteMode::Permanent => "Permanent Delete"@,
        },
{
    match mode {
        DeleteMode::Trash => "Move to Trash",
        DeleteMode::Permanent => "Permanent Delete",
    }
}

/// What stands on the button that deletes a path.
pub fn delete_button(mode: DeleteMode) -> (r: &'static str)
    ensures
        r@ == match mode {
            DeleteMode::Trash => "Move to Trash"@,
            DeleteMode::Permanent => "Delete Forever"@,
        },
{
    match mode {
        DeleteMode::Trash => "Move to Trash",
        DeleteMode::Permanent => "Delete Forever",
    }
}

/// A number is written with one digit for each power of ten: a number below ten is
/// the character of its digit, and a longer one is its tenth part, written out, with
/// the digit that is left behind it.
pub proof fn law_numbers_are_written_digit_by_digit(number: nat)
    ensures
        number < 10 ==> decimal_text(number).len() == 1 && decimal_text(number)[0] as u32 == 48
            + number,
        number >= 10 ==> decimal_text(number) == decimal_text(number / 10) + decimal_text(
            number % 10,
        ),
{
    if number >= 10 {
        let digit = digit_char((number % 10) as int);
        assert(decimal_text(number % 10) =~= seq![digit]);
        assert(decimal_text(number / 10) + seq![digit] =~= decimal_text(number / 10).push(digit));
    }
}

/// A size is shown as its number of bytes is, and one that 64 bits cannot hold as the
/// largest that they can.
pub proof fn law_sizes_are_shown_as_far_as_they_can_be(bytes: u128)
    ensures
        bytes <= 0xffff_ffff_ffff_ffff ==> size_text(bytes) == binary_size_text(bytes as u64),
        bytes > 0xffff_ffff_ffff_ffff ==> size_text(bytes) == binary_size_text(
            0xffff_ffff_ffff_ffffu64,
        ),
        total_text(Some(bytes)) == size_text(bytes),
        total_text(None) == "0 B"@,
{
}

/// A filter is active if something is asked for: a name that is not only white space,
/// a size that is not zero, or an age.
pub proof fn law_active_filters_are_counted(filters: Filters, size: Seq<char>)
    ensures
        ({
            let name = trimmed(filters.name_substring@);
            let chips = chip_texts(filters, size);
            &&& active_filters(filters) == 0 <==> name.len() == 0 && filters.min_size_bytes == 0
                && filters.max_age_days == 0
            &&& active_filters(filters) == 3 <==> name.len() > 0 && filters.min_size_bytes > 0
                && filters.max_age_days > 0
            &&& active_filters(filters) == 2 <==> {
                ||| name.len() > 0 && filters.min_size_bytes > 0 && filters.max_age_days == 0
                ||| name.len() > 0 && filters.min_size_bytes == 0 && filters.max_age_days > 0
                ||| name.len() == 0 && filters.min_size_bytes > 0 && filters.max_age_days > 0
            }
            &&& active_filters(filters) <= 3
            &&& name.len() > 0 ==> chips[0] == "name: "@ + name
            &&& filters.min_size_bytes > 0 ==> chips[if name.len() > 0 {
                1int
            } else {
                0
            }] == "minimum "@ + size
            &&& filters.max_age_days > 0 ==> chips[chips.len() - 1] == "modified "@ + decimal_text(
                filters.max_age_days as nat,
            ) + " days"@
        }),
{
}

/// What is said of a typed size: nothing where it is zero, the size where it is one,
/// and that it does not count where it is none.
pub proof fn law_typed_sizes_are_explained(input: Seq<char>)
    ensures
        size_of_text(input) == Some(0u128) ==> size_note_of(input) == SizeNote::NoFloor,
        size_of_text(input) is Some && size_of_text(input) != Some(0u128) ==> size_note_of(input)
            == SizeNote::Parsed(size_of_text(input)->0),
        size_of_text(input) is None ==> size_note_of(input) == SizeNote::Paused,
{
}

/// The words for a directory and for a file, and the lines that they stand in.
pub proof fn law_lines_say_what_they_are_about(
    size: Seq<char>,
    visible: nat,
    is_dir: bool,
    entries: u64,
    io_errors: u64,
)
    ensures
        kind_text(true) == "folder"@,
        kind_text(false) == "file"@,
        focus_line(size, visible, true, is_dir) == size + "  |  "@ + decimal_text(visible)
            + " visible"@ + " filtered"@ + "  |  "@ + kind_text(is_dir),
        focus_line(size, visible, false, is_dir) == size + "  |  "@ + decimal_text(visible)
            + " visible"@ + "  |  "@ + kind_text(is_dir),
        status_line(true, entries, size, io_errors) == decimal_text(entries as nat)
            + " entries, "@ + size + ", "@ + decimal_text(io_errors as nat) + " I/O errors"@,
        status_line(false, entries, size, io_errors) == "Scanning "@ + decimal_text(
            entries as nat,
        ) + " entries..."@,
{
    reveal_strlit("");
    let front = size + "  |  "@ + decimal_text(visible) + " visible"@;
    assert(front + ""@ =~= front);
}

/// A text that is too long keeps its beginning and ends with dots, as far as there is
/// room for them.
pub proof fn law_cut_texts_end_with_dots(text: Seq<char>, max_chars: int)
    requires
        0 <= max_chars < text.len(),
    ensures
        fitted(text, max_chars).len() == max_chars,
        forall|i: int|
            0 <= i < max_chars ==> #[trigger] fitted(text, max_chars)[i] == if max_chars > 3 && i
                < max_chars - 3 {
                text[i]
            } else {
                '.'
            },
{
    reveal_strlit("...");
}

/// Two words stand for truth values, and no other text does.
pub proof fn law_two_words_are_truth_values(value: Seq<char>)
    ensures
        bool_of(value) == Some(true) <==> value == "true"@,
        bool_of(value) == Some(false) <==> value == "false"@,
        bool_of(value) is None <==> value != "true"@ && value != "false"@,
{
    reveal_strlit("true");
    reveal_strlit("false");
    assert("true"@.len() == 4 && "false"@.len() == 5);
}

} // verus!

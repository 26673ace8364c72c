//! Text as sequences of characters.
use vstd::prelude::*;
use vstd::utf8::{decode_utf8, is_ascii_chars, valid_utf8};

verus! {

/// The text that `String::from_utf8_lossy` makes of bytes.
pub uninterp spec fn lossy_text(bytes: Seq<u8>) -> Seq<char>;

/// `String::from_utf8_lossy`: the bytes as text, with replacement characters for
/// what is not UTF-8. The result depends on the bytes alone and is given a name
/// here. UTF-8 is taken as it is; how many replacements stand for what is not is
/// left unsaid.
#[verifier::external_body]
pub(crate) fn text_of_bytes(bytes: &Vec<u8>) -> (r: String)
    ensures
        r@ == lossy_text(bytes@),
        valid_utf8(bytes@) ==> r@ == decode_utf8(bytes@),
{
    String::from_utf8_lossy(bytes).into_owned()
}

/// The text that `str::to_lowercase` makes of a text.
pub uninterp spec fn lowercase_text(text: Seq<char>) -> Seq<char>;

/// `str::to_lowercase`: the lowercase equivalent of a text by Unicode's rules.
/// The result depends on the text alone and is given a name here. Of ASCII
/// characters the letters are put in lower case, one by one, and the others are
/// kept; what the rules say of other characters is left unsaid.
#[verifier::external_body]
pub(crate) fn to_lowercase(text: &str) -> (r: String)
    ensures
        r@ == lowercase_text(text@),
        is_ascii_chars(text@) ==> r@ == text@.map_values(|ch: char| ascii_lower(ch)),
{
    text.to_lowercase()
}

/// `String::push`: appends one character.
pub assume_specification[ String::push ](string: &mut String, ch: char)
    ensures
        final(string)@ == old(string)@.push(ch),
;

/// `String::push_str`: appends a text.
pub assume_specification[ String::push_str ](string: &mut String, text: &str)
    ensures
        final(string)@ == old(string)@ + text@,
;

/// The characters of a text.
pub fn chars_of(text: &str) -> (r: Vec<char>)
    ensures
        r@ == text@,
{
    let mut found: Vec<char> = Vec::new();
    for ch in iter: text.chars()
        invariant
            iter.seq() == text@,
            found@ == text@.take(iter.index()),
    {
        found.push(ch);
        proof {
            assert(found@ =~= text@.take(iter.index() + 1));
        }
    }
    proof {
        assert(found@ =~= text@);
    }
    found
}

/// The text of characters.
pub fn text_of(chars: &[char]) -> (r: String)
    ensures
        r@ == chars@,
{
    let mut text: String = String::new();
    let mut i: usize = 0;
    while i < chars.len()
        invariant
            i <= chars@.len(),
            text@ == chars@.take(i as int),
        decreases chars@.len() - i,
    {
        text.push(chars[i]);
        i = i + 1;
        proof {
            assert(text@ =~= chars@.take(i as int));
        }
    }
    proof {
        assert(text@ =~= chars@);
    }
    text
}

/// The part of a list of characters from one place up to another.
pub fn part_of(chars: &[char], from: usize, to: usize) -> (r: Vec<char>)
    requires
        from <= to <= chars@.len(),
    ensures
        r@ == chars@.subrange(from as int, to as int),
{
    let mut found: Vec<char> = Vec::new();
    let mut i: usize = from;
    while i < to
        invariant
            from <= i <= to <= chars@.len(),
            found@ == chars@.subrange(from as int, i as int),
        decreases to - i,
    {
        found.push(chars[i]);
        i = i + 1;
        proof {
            assert(found@ =~= chars@.subrange(from as int, i as int));
        }
    }
    found
}

/// Whether two lists of characters are equal.
pub fn same_chars(left: &[char], right: &[char]) -> (r: bool)
    ensures
        r == (left@ == right@),
{
    if left.len() != right.len() {
        return false;
    }
    let mut i: usize = 0;
    while i < left.len()
        invariant
            i <= left@.len(),
            left@.len() == right@.len(),
            forall|k: int| 0 <= k < i ==> left@[k] == right@[k],
        decreases left@.len() - i,
    {
        if left[i] != right[i] {
            return false;
        }
        i = i + 1;
    }
    proof {
        assert(left@ =~= right@);
    }
    true
}

/// Whether a list of characters is the given text.
pub fn is_text(chars: &[char], text: &str) -> (r: bool)
    ensures
        r == (chars@ == text@),
{
    let wanted: Vec<char> = chars_of(text);
    same_chars(chars, wanted.as_slice())
}

/// The characters with Unicode's property White_Space.
pub open spec fn is_white(ch: char) -> bool {
    ||| '\u{9}' <= ch <= '\u{d}'
    ||| ch == '\u{20}'
    ||| ch == '\u{85}'
    ||| ch == '\u{a0}'
    ||| ch == '\u{1680}'
    ||| '\u{2000}' <= ch <= '\u{200a}'
    ||| ch == '\u{2028}'
    ||| ch == '\u{2029}'
    ||| ch == '\u{202f}'
    ||| ch == '\u{205f}'
    ||| ch == '\u{3000}'
}

/// Whether a character is white space.
pub fn is_white_space(ch: char) -> (r: bool)
    ensures
        r == is_white(ch),
{
    ('\u{9}' <= ch && ch <= '\u{d}') || ch == '\u{20}' || ch == '\u{85}' || ch == '\u{a0}' || ch
        == '\u{1680}' || ('\u{2000}' <= ch && ch <= '\u{200a}') || ch == '\u{2028}' || ch
        == '\u{2029}' || ch == '\u{202f}' || ch == '\u{205f}' || ch == '\u{3000}'
}

/// A text without the white space in front.
pub open spec fn trimmed_front(text: Seq<char>) -> Seq<char>
    decreases text.len(),
{
    if text.len() > 0 && is_white(text[0]) {
        trimmed_front(text.skip(1))
    } else {
        text
    }
}

/// A text without the white space at its end.
pub open spec fn trimmed_back(text: Seq<char>) -> Seq<char>
    decreases text.len(),
{
    if text.len() > 0 && is_white(text.last()) {
        trimmed_back(text.drop_last())
    } else {
        text
    }
}

/// A text without the white space around it.
pub open spec fn trimmed(text: Seq<char>) -> Seq<char> {
    trimmed_back(trimmed_front(text))
}

/// The characters without the white space around them.
pub fn trim(chars: &[char]) -> (r: Vec<char>)
    ensures
        r@ == trimmed(chars@),
{
    let mut from: usize = 0;
    proof {
        assert(chars@.skip(0) =~= chars@);
    }
    while from < chars.len() && is_white_space(chars[from])
        invariant
            from <= chars@.len(),
            trimmed_front(chars@) == trimmed_front(chars@.skip(from as int)),
        decreases chars@.len() - from,
    {
        proof {
            assert(chars@.skip(from as int).skip(1) =~= chars@.skip(from as int + 1));
        }
        from = from + 1;
    }
    let ghost front = chars@.skip(from as int);
    let mut to: usize = chars.len();
    proof {
        assert(trimmed_front(chars@) == front);
        assert(chars@.subrange(from as int, to as int) =~= front);
    }
    while to > from && is_white_space(chars[to - 1])
        invariant
            from <= to <= chars@.len(),
            trimmed_back(front) == trimmed_back(chars@.subrange(from as int, to as int)),
        decreases to,
    {
        proof {
            assert(chars@.subrange(from as int, to as int).drop_last() =~= chars@.subrange(
                from as int,
                to - 1,
            ));
        }
        to = to - 1;
    }
    part_of(chars, from, to)
}

/// Whether a text stands somewhere in another.
pub open spec fn contains_text(text: Seq<char>, needle: Seq<char>) -> bool {
    exists|i: int| #[trigger] stands_at(text, needle, i)
}

/// Whether a text stands at a place in another.
pub open spec fn stands_at(text: Seq<char>, needle: Seq<char>, place: int) -> bool {
    0 <= place && place + needle.len() <= text.len() && text.subrange(place, place + needle.len())
        == needle
}

/// Whether the characters stand at a place in others.
pub fn stand_at(text: &[char], needle: &[char], place: usize) -> (r: bool)
    ensures
        r == stands_at(text@, needle@, place as int),
{
    if place > text.len() || needle.len() > text.len() - place {
        return false;
    }
    let end: usize = text.len();
    let mut i: usize = 0;
    while i < needle.len()
        invariant
            place + needle@.len() <= text@.len(),
            text@.len() == end,
            i <= needle@.len(),
            forall|k: int| 0 <= k < i ==> text@[place + k] == needle@[k],
        decreases needle@.len() - i,
    {
        if text[place + i] != needle[i] {
            proof {
                assert(text@.subrange(place as int, place + needle@.len())[i as int]
                    == text@[place + i]);
            }
            return false;
        }
        i = i + 1;
    }
    proof {
        assert(text@.subrange(place as int, place + needle@.len()) =~= needle@);
    }
    true
}

/// Whether the characters stand somewhere in others.
pub fn contains_chars(text: &[char], needle: &[char]) -> (r: bool)
    ensures
        r == contains_text(text@, needle@),
{
    let mut place: usize = 0;
    while place <= text.len()
        invariant
            place <= text@.len() + 1,
            forall|k: int| 0 <= k < place ==> !(#[trigger] stands_at(text@, needle@, k)),
        decreases text@.len() + 1 - place,
    {
        if stand_at(text, needle, place) {
            return true;
        }
        if place == text.len() {
            proof {
                assert forall|k: int| !(#[trigger] stands_at(text@, needle@, k)) by {}
            }
            return false;
        }
        place = place + 1;
    }
    false
}

/// An ASCII letter in lower case; other characters as they are.
pub open spec fn ascii_lower(ch: char) -> char {
    if 'A' <= ch <= 'Z' {
        ((ch as u32 + 32) as u8) as char
    } else {
        ch
    }
}

/// The characters with ASCII letters in lower case.
pub fn lower_ascii(chars: &[char]) -> (r: Vec<char>)
    ensures
        r@ == chars@.map_values(|ch: char| ascii_lower(ch)),
{
    let mut found: Vec<char> = Vec::new();
    let mut i: usize = 0;
    while i < chars.len()
        invariant
            i <= chars@.len(),
            found@.len() == i,
            forall|k: int| 0 <= k < i ==> found@[k] == ascii_lower(#[trigger] chars@[k]),
        decreases chars@.len() - i,
    {
        let ch: char = chars[i];
        if 'A' <= ch && ch <= 'Z' {
            let code: u32 = ch as u32;
            found.push(((code + 32) as u8) as char);
        } else {
            found.push(ch);
        }
        i = i + 1;
    }
    proof {
        assert(found@ =~= chars@.map_values(|ch: char| ascii_lower(ch)));
    }
    found
}

/// The place of the first line feed, or the length of the text.
pub open spec fn line_length(text: Seq<char>) -> int
    decreases text.len(),
{
    if text.len() == 0 || text[0] == '\n' {
        0
    } else {
        1 + line_length(text.skip(1))
    }
}

/// The lines of a text. A line ends with a line feed, with or without a
/// carriage return before it; the last line may do without.
pub open spec fn lines_of(text: Seq<char>) -> Seq<Seq<char>>
    decreases text.len(),
    via lines_of_terminates
{
    if text.len() == 0 {
        Seq::empty()
    } else {
        let end = line_length(text);
        if end >= text.len() {
            seq![text]
        } else {
            let line = text.take(end);
            let shown = if line.len() > 0 && line.last() == '\r' {
                line.drop_last()
            } else {
                line
            };
            seq![shown] + lines_of(text.skip(end + 1))
        }
    }
}

#[via_fn]
proof fn lines_of_terminates(text: Seq<char>) {
    lemma_line_length(text);
}

proof fn lemma_line_length(text: Seq<char>)
    ensures
        0 <= line_length(text) <= text.len(),
        forall|k: int| 0 <= k < line_length(text) ==> text[k] != '\n',
        line_length(text) < text.len() ==> text[line_length(text)] == '\n',
    decreases text.len(),
{
    if text.len() > 0 && text[0] != '\n' {
        let rest = text.skip(1);
        lemma_line_length(rest);
        assert forall|k: int| 0 <= k < line_length(text) implies text[k] != '\n' by {
            if k > 0 {
                assert(rest[k - 1] == text[k]);
            }
        }
        if line_length(text) < text.len() {
            assert(rest[line_length(rest)] == text[line_length(text)]);
        }
    }
}

proof fn lemma_line_length_at(text: Seq<char>, end: int)
    requires
        0 <= end <= text.len(),
        forall|k: int| 0 <= k < end ==> text[k] != '\n',
        end < text.len() ==> text[end] == '\n',
    ensures
        line_length(text) == end,
{
    lemma_line_length(text);
    let found = line_length(text);
    if found < end {
        assert(text[found] != '\n');
    }
    if end < found {
        assert(text[end] != '\n');
    }
}

/// The characters of each of several texts.
pub open spec fn char_lists(lists: Seq<Vec<char>>) -> Seq<Seq<char>> {
    lists.map_values(|list: Vec<char>| list@)
}

/// The lines of a text.
pub fn split_lines(chars: &[char]) -> (r: Vec<Vec<char>>)
    ensures
        char_lists(r@) == lines_of(chars@),
{
    let mut lines: Vec<Vec<char>> = Vec::new();
    let ghost all = chars@;
    let mut from: usize = 0;
    proof {
        assert(all.skip(0) =~= all);
        assert(char_lists(lines@) + lines_of(all) =~= lines_of(all));
    }
    while from < chars.len()
        invariant
            from <= chars@.len(),
            all == chars@,
            char_lists(lines@) + lines_of(all.skip(from as int)) == lines_of(all),
        decreases chars@.len() - from,
    {
        let ghost rest = all.skip(from as int);
        let ghost before = char_lists(lines@);
        let mut end: usize = from;
        while end < chars.len() && chars[end] != '\n'
            invariant
                from <= end <= chars@.len(),
                all == chars@,
                rest == all.skip(from as int),
                forall|k: int| 0 <= k < end - from ==> rest[k] != '\n',
            decreases chars@.len() - end,
        {
            proof {
                assert(rest[end - from] == all[end as int]);
            }
            end = end + 1;
        }
        proof {
            if end < chars@.len() {
                assert(rest[end - from] == all[end as int]);
            }
            lemma_line_length_at(rest, end - from);
        }
        if end == chars.len() {
            let line: Vec<char> = part_of(chars, from, end);
            proof {
                assert(line@ =~= rest);
            }
            lines.push(line);
            proof {
                assert(char_lists(lines@) =~= before + seq![rest]);
                assert(all.skip(end as int) =~= Seq::empty());
                assert(char_lists(lines@) + lines_of(all.skip(end as int)) =~= char_lists(lines@));
            }
            from = end;
        } else {
            let ghost line_chars = rest.take(end - from);
            let to: usize = if end > from && chars[end - 1] == '\r' {
                end - 1
            } else {
                end
            };
            let line: Vec<char> = part_of(chars, from, to);
            let ghost shown = line@;
            proof {
                assert(line_chars =~= all.subrange(from as int, end as int));
                if end > from {
                    assert(line_chars.last() == all[end - 1]);
                    assert(line_chars.drop_last() =~= all.subrange(from as int, end - 1));
                }
                assert(rest.skip(end - from + 1) =~= all.skip(end + 1));
            }
            lines.push(line);
            proof {
                assert(char_lists(lines@) =~= before + seq![shown]);
                assert(lines_of(rest) == seq![shown] + lines_of(all.skip(end + 1)));
                assert((before + seq![shown]) + lines_of(all.skip(end + 1)) =~= before + (
                seq![shown] + lines_of(all.skip(end + 1))));
            }
            from = end + 1;
        }
    }
    proof {
        assert(all.skip(from as int) =~= Seq::empty());
        assert(char_lists(lines@) + lines_of(all.skip(from as int)) =~= char_lists(lines@));
    }
    lines
}

/// The number of characters in front that are not white space.
pub open spec fn word_length(text: Seq<char>) -> int
    decreases text.len(),
{
    if text.len() == 0 || is_white(text[0]) {
        0
    } else {
        1 + word_length(text.skip(1))
    }
}

proof fn lemma_word_length(text: Seq<char>)
    ensures
        0 <= word_length(text) <= text.len(),
        text.len() > 0 && !is_white(text[0]) ==> word_length(text) > 0,
    decreases text.len(),
{
    if text.len() > 0 && !is_white(text[0]) {
        lemma_word_length(text.skip(1));
    }
}

proof fn lemma_word_length_at(text: Seq<char>, end: int)
    requires
        0 <= end <= text.len(),
        forall|k: int| 0 <= k < end ==> !is_white(#[trigger] text[k]),
        end < text.len() ==> is_white(text[end]),
    ensures
        word_length(text) == end,
    decreases text.len(),
{
    if end > 0 {
        let rest = text.skip(1);
        assert(!is_white(text[0]));
        assert forall|k: int| 0 <= k < end - 1 implies !is_white(#[trigger] rest[k]) by {
            assert(rest[k] == text[k + 1]);
        }
        lemma_word_length_at(rest, end - 1);
    }
}

/// The words of a text: what stands between white space.
pub open spec fn words_of(text: Seq<char>) -> Seq<Seq<char>>
    decreases text.len(),
    via words_of_terminates
{
    if text.len() == 0 {
        Seq::empty()
    } else if is_white(text[0]) {
        words_of(text.skip(1))
    } else {
        seq![text.take(word_length(text))] + words_of(text.skip(word_length(text)))
    }
}

#[via_fn]
proof fn words_of_terminates(text: Seq<char>) {
    lemma_word_length(text);
}

/// The words of a text.
pub fn split_words(chars: &[char]) -> (r: Vec<Vec<char>>)
    ensures
        char_lists(r@) == words_of(chars@),
{
    let mut words: Vec<Vec<char>> = Vec::new();
    let ghost all = chars@;
    let mut from: usize = 0;
    proof {
        assert(all.skip(0) =~= all);
        assert(char_lists(words@) + words_of(all) =~= words_of(all));
    }
    while from < chars.len()
        invariant
            from <= chars@.len(),
            all == chars@,
            char_lists(words@) + words_of(all.skip(from as int)) == words_of(all),
        decreases chars@.len() - from,
    {
        let ghost rest = all.skip(from as int);
        let ghost before = char_lists(words@);
        proof {
            assert(rest[0] == all[from as int]);
        }
        if is_white_space(chars[from]) {
            proof {
                assert(rest.skip(1) =~= all.skip(from as int + 1));
            }
            from = from + 1;
        } else {
            let mut end: usize = from;
            while end < chars.len() && !is_white_space(chars[end])
                invariant
                    from <= end <= chars@.len(),
                    all == chars@,
                    rest == all.skip(from as int),
                    forall|k: int| 0 <= k < end - from ==> !is_white(#[trigger] rest[k]),
                decreases chars@.len() - end,
            {
                proof {
                    assert(rest[end - from] == all[end as int]);
                }
                end = end + 1;
            }
            proof {
                if end < chars@.len() {
                    assert(rest[end - from] == all[end as int]);
                }
                lemma_word_length_at(rest, end - from);
                lemma_word_length(rest);
            }
            let word: Vec<char> = part_of(chars, from, end);
            let ghost shown = word@;
            proof {
                assert(shown =~= rest.take(end - from));
                assert(rest.skip(end - from) =~= all.skip(end as int));
            }
            words.push(word);
            proof {
                assert(char_lists(words@) =~= before + seq![shown]);
                assert((before + seq![shown]) + words_of(all.skip(end as int)) =~= before + (
                seq![shown] + words_of(all.skip(end as int))));
            }
            from = end;
        }
    }
    proof {
        assert(all.skip(from as int) =~= Seq::empty());
        assert(char_lists(words@) + words_of(all.skip(from as int)) =~= char_lists(words@));
    }
    words
}

/// A text in which every occurrence of a text, from the front on, is replaced by
/// one character.
pub open spec fn replaced(text: Seq<char>, from: Seq<char>, to: char) -> Seq<char>
    decreases text.len(),
{
    if text.len() == 0 || from.len() == 0 {
        text
    } else if stands_at(text, from, 0) {
        seq![to] + replaced(text.skip(from.len() as int), from, to)
    } else {
        seq![text[0]] + replaced(text.skip(1), from, to)
    }
}

/// The characters with every occurrence of a text replaced by one character.
pub fn replace_all(chars: &[char], from: &[char], to: char) -> (r: Vec<char>)
    requires
        from@.len() > 0,
    ensures
        r@ == replaced(chars@, from@, to),
{
    let mut found: Vec<char> = Vec::new();
    let ghost all = chars@;
    let mut place: usize = 0;
    proof {
        assert(all.skip(0) =~= all);
        assert(found@ + replaced(all, from@, to) =~= replaced(all, from@, to));
    }
    while place < chars.len()
        invariant
            place <= chars@.len(),
            all == chars@,
            from@.len() > 0,
            found@ + replaced(all.skip(place as int), from@, to) == replaced(all, from@, to),
        decreases chars@.len() - place,
    {
        let ghost rest = all.skip(place as int);
        let ghost before = found@;
        proof {
            assert(stands_at(rest, from@, 0) == stands_at(all, from@, place as int)) by {
                if place + from@.len() <= all.len() {
                    assert(rest.subrange(0, from@.len() as int) =~= all.subrange(
                        place as int,
                        place + from@.len(),
                    ));
                }
            }
        }
        if stand_at(chars, from, place) {
            proof {
                assert(rest.skip(from@.len() as int) =~= all.skip(place + from@.len()));
                assert((before + seq![to]) + replaced(all.skip(place + from@.len()), from@, to)
                    =~= before + (seq![to] + replaced(all.skip(place + from@.len()), from@, to)));
            }
            found.push(to);
            place = place + from.len();
        } else {
            proof {
                assert(rest.skip(1) =~= all.skip(place + 1));
                assert((before + seq![rest[0]]) + replaced(all.skip(place + 1), from@, to)
                    =~= before + (seq![rest[0]] + replaced(all.skip(place + 1), from@, to)));
            }
            found.push(chars[place]);
            place = place + 1;
        }
        proof {
            assert(found@ =~= before + seq![found@.last()]);
        }
    }
    proof {
        assert(all.skip(place as int) =~= Seq::empty());
        assert(found@ + replaced(all.skip(place as int), from@, to) =~= found@);
    }
    found
}

/// A text contains another if and only if it is that one with something before it
/// and something behind it, either of which may be nothing.
pub proof fn law_a_text_contains_its_parts(text: Seq<char>, needle: Seq<char>)
    ensures
        contains_text(text, needle) <==> exists|before: Seq<char>, after: Seq<char>|
            text == #[trigger] (before + needle + after),
{
    if contains_text(text, needle) {
        let place = choose|place: int| #[trigger] stands_at(text, needle, place);
        let before = text.take(place);
        let after = text.skip(place + needle.len());
        assert(text =~= before + needle + after);
    }
    if exists|before: Seq<char>, after: Seq<char>| text == #[trigger] (before + needle + after) {
        let (before, after) = choose|before: Seq<char>, after: Seq<char>|
            text == #[trigger] (before + needle + after);
        assert(text.subrange(before.len() as int, (before.len() + needle.len()) as int) =~= needle);
        assert(stands_at(text, needle, before.len() as int));
    }
}

/// A text stands at the place behind what is before it, and at no other place than
/// those where its characters are.
pub proof fn law_a_text_stands_where_its_characters_are(
    text: Seq<char>,
    needle: Seq<char>,
    place: int,
)
    ensures
        stands_at(text, needle, place) <==> 0 <= place && place + needle.len() <= text.len()
            && forall|k: int| 0 <= k < needle.len() ==> text[place + k] == #[trigger] needle[k],
{
    if 0 <= place && place + needle.len() <= text.len() {
        let part = text.subrange(place, place + needle.len());
        assert forall|k: int| 0 <= k < needle.len() implies #[trigger] part[k] == text[place
            + k] by {}
        if forall|k: int| 0 <= k < needle.len() ==> text[place + k] == #[trigger] needle[k] {
            assert(part =~= needle);
        }
        if stands_at(text, needle, place) {
            assert forall|k: int| 0 <= k < needle.len() implies text[place + k]
                == #[trigger] needle[k] by {
                assert(part[k] == needle[k]);
            }
        }
    }
}

/// White space is what has Unicode's property White_Space, by the numbers of the
/// characters.
pub proof fn law_white_space_is_what_unicode_lists(ch: char)
    ensures
        is_white(ch) <==> {
            let code = ch as u32;
            ||| 9 <= code <= 13
            ||| code == 32
            ||| code == 133
            ||| code == 160
            ||| code == 5760
            ||| 8192 <= code <= 8202
            ||| code == 8232
            ||| code == 8233
            ||| code == 8239
            ||| code == 8287
            ||| code == 12288
        },
{
}

proof fn lemma_trimmed_front_splits(text: Seq<char>) -> (front: Seq<char>)
    ensures
        text == front + trimmed_front(text),
        forall|k: int| 0 <= k < front.len() ==> is_white(#[trigger] front[k]),
        trimmed_front(text).len() > 0 ==> !is_white(trimmed_front(text)[0]),
    decreases text.len(),
{
    if text.len() > 0 && is_white(text[0]) {
        let rest = lemma_trimmed_front_splits(text.skip(1));
        let front = seq![text[0]] + rest;
        assert(text =~= seq![text[0]] + text.skip(1));
        assert(text =~= front + trimmed_front(text));
        front
    } else {
        assert(text =~= Seq::<char>::empty() + text);
        Seq::empty()
    }
}

proof fn lemma_trimmed_back_splits(text: Seq<char>) -> (back: Seq<char>)
    ensures
        text == trimmed_back(text) + back,
        forall|k: int| 0 <= k < back.len() ==> is_white(#[trigger] back[k]),
        trimmed_back(text).len() > 0 ==> !is_white(trimmed_back(text).last()),
    decreases text.len(),
{
    if text.len() > 0 && is_white(text.last()) {
        let rest = lemma_trimmed_back_splits(text.drop_last());
        let back = rest.push(text.last());
        assert(text =~= text.drop_last().push(text.last()));
        assert(text =~= trimmed_back(text) + back);
        back
    } else {
        assert(text =~= text + Seq::<char>::empty());
        Seq::empty()
    }
}

/// What is trimmed away is white space before a text and behind it, and none is left
/// at either end.
pub proof fn law_trimming_takes_white_space_from_the_ends(text: Seq<char>)
    ensures
        exists|front: Seq<char>, back: Seq<char>|
            {
                &&& text == #[trigger] (front + trimmed(text) + back)
                &&& forall|k: int| 0 <= k < front.len() ==> is_white(#[trigger] front[k])
                &&& forall|k: int| 0 <= k < back.len() ==> is_white(#[trigger] back[k])
            },
        trimmed(text).len() > 0 ==> !is_white(trimmed(text)[0]) && !is_white(trimmed(text).last()),
{
    let front = lemma_trimmed_front_splits(text);
    let back = lemma_trimmed_back_splits(trimmed_front(text));
    let inner = trimmed(text);
    assert(text =~= front + inner + back);
    if inner.len() > 0 {
        assert(trimmed_front(text)[0] == inner[0]);
    }
}

/// A text with nothing white at its ends comes back from whatever white space is put
/// around it.
pub proof fn law_white_space_around_a_text_does_not_matter(
    front: Seq<char>,
    text: Seq<char>,
    back: Seq<char>,
)
    requires
        forall|k: int| 0 <= k < front.len() ==> is_white(#[trigger] front[k]),
        forall|k: int| 0 <= k < back.len() ==> is_white(#[trigger] back[k]),
        text.len() > 0 ==> !is_white(text[0]) && !is_white(text.last()),
    ensures
        trimmed(front + text + back) == text,
{
    lemma_trim_front_of(front, text + back);
    assert(front + text + back =~= front + (text + back));
    if text.len() == 0 {
        assert(text + back =~= back);
        lemma_trim_front_of(back, Seq::empty());
        assert(back + Seq::<char>::empty() =~= back);
        assert(trimmed_front(back) =~= Seq::empty());
        assert(text =~= Seq::empty());
    } else {
        assert((text + back)[0] == text[0]);
        lemma_trim_back_of(text, back);
    }
}

proof fn lemma_trim_front_of(front: Seq<char>, text: Seq<char>)
    requires
        forall|k: int| 0 <= k < front.len() ==> is_white(#[trigger] front[k]),
    ensures
        trimmed_front(front + text) == trimmed_front(text),
    decreases front.len(),
{
    if front.len() > 0 {
        assert(is_white(front[0]));
        assert((front + text).skip(1) =~= front.skip(1) + text);
        lemma_trim_front_of(front.skip(1), text);
    } else {
        assert(front + text =~= text);
    }
}

proof fn lemma_trim_back_of(text: Seq<char>, back: Seq<char>)
    requires
        forall|k: int| 0 <= k < back.len() ==> is_white(#[trigger] back[k]),
        text.len() > 0 ==> !is_white(text.last()),
    ensures
        trimmed_back(text + back) == text,
    decreases back.len(),
{
    if back.len() > 0 {
        assert(is_white(back[back.len() - 1]));
        assert((text + back).drop_last() =~= text + back.drop_last());
        assert((text + back).last() == back.last());
        lemma_trim_back_of(text, back.drop_last());
    } else {
        assert(text + back =~= text);
    }
}

/// The capital letters of ASCII become the small ones, which lie 32 numbers behind
/// them, and every other character stays as it is.
pub proof fn law_small_letters_lie_behind_the_capitals(ch: char)
    ensures
        65 <= ch as u32 <= 90 ==> ascii_lower(ch) as u32 == ch as u32 + 32,
        !(65 <= ch as u32 <= 90) ==> ascii_lower(ch) == ch,
        ascii_lower(ascii_lower(ch)) == ascii_lower(ch),
{
}

/// The lines of a text, read from its front: a line is what stands before a line
/// feed, without the carriage return that it may end with; what is behind the last
/// line feed is a line as it is, unless it is nothing.
pub proof fn law_lines_end_at_line_feeds(line: Seq<char>, rest: Seq<char>)
    requires
        !line.contains('\n'),
    ensures
        lines_of(line + seq!['\n'] + rest) == seq![
            if line.len() > 0 && line.last() == '\r' {
                line.drop_last()
            } else {
                line
            },
        ] + lines_of(rest),
        lines_of(line) == if line.len() > 0 {
            seq![line]
        } else {
            Seq::empty()
        },
{
    let text = line + seq!['\n'] + rest;
    lemma_line_length_of(line, seq!['\n'] + rest);
    assert(text =~= line + (seq!['\n'] + rest));
    assert(text.take(line.len() as int) =~= line);
    assert(text.skip(line.len() as int + 1) =~= rest);
    lemma_line_length_of(line, Seq::empty());
    assert(line + Seq::<char>::empty() =~= line);
}

proof fn lemma_line_length_of(line: Seq<char>, rest: Seq<char>)
    requires
        !line.contains('\n'),
        rest.len() > 0 ==> rest[0] == '\n',
    ensures
        line_length(line + rest) == line.len(),
    decreases line.len(),
{
    if line.len() > 0 {
        assert(line.contains(line[0]));
        assert((line + rest).skip(1) =~= line.skip(1) + rest);
        assert forall|ch: char| line.skip(1).contains(ch) implies line.contains(ch) by {
            let k = choose|k: int| 0 <= k < line.skip(1).len() && line.skip(1)[k] == ch;
            assert(line[k + 1] == ch);
        }
        lemma_line_length_of(line.skip(1), rest);
    } else {
        assert(line + rest =~= rest);
    }
}

/// The words of a text, read from its front: white space in front does not count,
/// and a word ends where white space follows, or the text ends.
pub proof fn law_words_stand_between_white_space(word: Seq<char>, gap: char, rest: Seq<char>)
    requires
        word.len() > 0,
        forall|k: int| 0 <= k < word.len() ==> !is_white(#[trigger] word[k]),
        is_white(gap),
    ensures
        words_of(seq![gap] + rest) == words_of(rest),
        words_of(word + seq![gap] + rest) == seq![word] + words_of(rest),
        words_of(word) == seq![word],
        words_of(Seq::empty()) == Seq::<Seq<char>>::empty(),
{
    let spaced = seq![gap] + rest;
    assert(spaced.skip(1) =~= rest);
    let text = word + seq![gap] + rest;
    lemma_word_length_at(text, word.len() as int);
    assert(!is_white(word[0]));
    assert(text[0] == word[0]);
    assert(text.take(word.len() as int) =~= word);
    assert(text.skip(word.len() as int) =~= spaced);
    assert(words_of(text) == seq![word] + words_of(spaced));
    lemma_word_length_at(word, word.len() as int);
    assert(word.take(word.len() as int) =~= word);
    assert(word.skip(word.len() as int) =~= Seq::empty());
    assert(words_of(word) == seq![word.take(word.len() as int)] + words_of(
        word.skip(word.len() as int),
    ));
    assert(words_of(Seq::empty()) =~= Seq::<Seq<char>>::empty());
    assert(words_of(word) =~= seq![word]);
}

/// To replace a text that does not stand in another changes nothing. Where it stands
/// behind something in which it does not begin, it gives way to the one character,
/// and what follows is treated alike.
pub proof fn law_replacing_puts_one_character_for_a_text(
    before: Seq<char>,
    from: Seq<char>,
    to: char,
    after: Seq<char>,
)
    requires
        from.len() > 0,
        forall|place: int|
            0 <= place < before.len() ==> !(#[trigger] stands_at(
                before + from + after,
                from,
                place,
            )),
    ensures
        replaced(before + from + after, from, to) == before + seq![to] + replaced(after, from, to),
        !contains_text(after, from) ==> replaced(after, from, to) == after,
{
    if !contains_text(after, from) {
        lemma_nothing_replaced(after, from, to);
    }
    lemma_replaced_behind(before, from, to, after);
}

proof fn lemma_replaced_behind(before: Seq<char>, from: Seq<char>, to: char, after: Seq<char>)
    requires
        from.len() > 0,
        forall|place: int|
            0 <= place < before.len() ==> !(#[trigger] stands_at(
                before + from + after,
                from,
                place,
            )),
    ensures
        replaced(before + from + after, from, to) == before + seq![to] + replaced(after, from, to),
    decreases before.len(),
{
    let text = before + from + after;
    if before.len() == 0 {
        assert(text.subrange(0, from.len() as int) =~= from);
        assert(text.skip(from.len() as int) =~= after);
        assert(before + seq![to] =~= seq![to]);
    } else {
        let rest = before.skip(1);
        assert(!stands_at(text, from, 0));
        assert(text.skip(1) =~= rest + from + after);
        assert forall|place: int| 0 <= place < rest.len() implies !(#[trigger] stands_at(
            rest + from + after,
            from,
            place,
        )) by {
            if stands_at(rest + from + after, from, place) {
                assert(text.subrange(place + 1, place + 1 + from.len()) =~= text.skip(1).subrange(
                    place,
                    place + from.len(),
                ));
                assert(stands_at(text, from, place + 1));
            }
        }
        lemma_replaced_behind(rest, from, to, after);
        assert(seq![text[0]] + (rest + seq![to] + replaced(after, from, to)) =~= before + seq![to]
            + replaced(after, from, to));
    }
}

proof fn lemma_nothing_replaced(text: Seq<char>, from: Seq<char>, to: char)
    requires
        !contains_text(text, from),
    ensures
        replaced(text, from, to) == text,
    decreases text.len(),
{
    if text.len() > 0 && from.len() > 0 {
        assert(!stands_at(text, from, 0));
        let rest = text.skip(1);
        assert forall|place: int| !(#[trigger] stands_at(rest, from, place)) by {
            if stands_at(rest, from, place) {
                assert(text.subrange(place + 1, place + 1 + from.len()) =~= rest.subrange(
                    place,
                    place + from.len(),
                ));
                assert(stands_at(text, from, place + 1));
            }
        }
        lemma_nothing_replaced(rest, from, to);
        assert(seq![text[0]] + rest =~= text);
    }
}

} // verus!

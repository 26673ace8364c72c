//! Filters on the entries that are shown.
use crate::clock::Timestamp;
use crate::text::{
    ascii_lower, chars_of, contains_chars, contains_text, law_a_text_contains_its_parts,
    lowercase_text, text_of, to_lowercase, trim, trimmed,
};
pub use crate::size_input::parse_size_input_bytes;
use vstd::prelude::*;
use vstd::utf8::is_ascii_chars;

verus! {

/// The seconds of a day.
pub const SECONDS_PER_DAY: u64 = 86_400;

/// The nanoseconds of a second.
pub const NANOS: u128 = 1_000_000_000;

/// What an entry has to be like to be shown.
#[derive(Debug, Clone)]
pub struct Filters {
    /// What its name contains, whatever the case of the letters.
    pub name_substring: String,
    /// What its size is at least.
    pub min_size_bytes: u128,
    /// How many days ago it was changed at most; zero for any time.
    pub max_age_days: u64,
}

impl Default for Filters {
    fn default() -> (r: Filters)
        ensures
            r.name_substring@.len() == 0,
            r.min_size_bytes == 0,
            r.max_age_days == 0,
    {
        Filters { name_substring: String::new(), min_size_bytes: 0, max_age_days: 0 }
    }
}

/// An entry, as filters look at it.
#[derive(Debug, Clone)]
pub struct FilterEntry<'a> {
    pub name: &'a str,
    pub size: u128,
    pub modified: Timestamp,
}

/// Whether a name passes: nothing is asked for, or the name contains it.
pub open spec fn name_passes(needle: Seq<char>, name: Seq<char>) -> bool {
    needle.len() == 0 || contains_text(name, needle)
}

/// The longest time, in seconds, that lies so many days back at most.
pub open spec fn age_limit(days: u64) -> int {
    if days * SECONDS_PER_DAY > u64::MAX {
        u64::MAX as int
    } else {
        days * SECONDS_PER_DAY
    }
}

/// Whether an age passes: any does where no days are given; otherwise the change
/// lies in the past, and not too far back.
pub open spec fn age_passes(days: u64, modified: Timestamp, now: Timestamp) -> bool {
    days > 0 ==> 0 <= now.total() - modified.total() <= age_limit(days) * NANOS
}

/// Whether an entry passes. Needle and name are in lower case.
pub open spec fn passes(
    filters: Filters,
    needle: Seq<char>,
    name: Seq<char>,
    size: u128,
    modified: Timestamp,
    now: Timestamp,
) -> bool {
    &&& name_passes(needle, name)
    &&& size >= filters.min_size_bytes
    &&& age_passes(filters.max_age_days, modified, now)
}

impl Filters {
    /// Whether an entry passes: its name contains what is asked for, whatever the
    /// case of the letters and the white space around it, it is large enough, and
    /// it was changed lately enough.
    pub fn matches(&self, entry: &FilterEntry<'_>, now: Timestamp) -> (r: bool)
        ensures
            r == passes(
                *self,
                lowercase_text(trimmed(self.name_substring@)),
                lowercase_text(entry.name@),
                entry.size,
                entry.modified,
                now,
            ),
            is_ascii_chars(trimmed(self.name_substring@)) && is_ascii_chars(entry.name@) ==> r
                == passes(
                *self,
                trimmed(self.name_substring@).map_values(|ch: char| ascii_lower(ch)),
                entry.name@.map_values(|ch: char| ascii_lower(ch)),
                entry.size,
                entry.modified,
                now,
            ),
            trimmed(self.name_substring@).len() == 0 ==> r == (entry.size >= self.min_size_bytes
                && age_passes(self.max_age_days, entry.modified, now)),
    {
        let chars: Vec<char> = chars_of(self.name_substring.as_str());
        let asked: String = text_of(trim(chars.as_slice()).as_slice());
        let needle: String = to_lowercase(asked.as_str());
        let name: String = to_lowercase(entry.name);
        self.matches_lowercase(
            needle.as_str(),
            name.as_str(),
            entry.size,
            entry.modified,
            now,
        )
    }

    /// Whether an entry passes, where what is asked for and the name are in lower
    /// case already.
    pub fn matches_lowercase(
        &self,
        needle: &str,
        name: &str,
        size: u128,
        modified: Timestamp,
        now: Timestamp,
    ) -> (r: bool)
        ensures
            r == passes(*self, needle@, name@, size, modified, now),
    {
        let wanted: Vec<char> = chars_of(needle);
        if wanted.len() > 0 {
            let chars: Vec<char> = chars_of(name);
            if !contains_chars(chars.as_slice(), wanted.as_slice()) {
                return false;
            }
        }
        if size < self.min_size_bytes {
            return false;
        }
        if self.max_age_days > 0 {
            let limit: u64 = match self.max_age_days.checked_mul(SECONDS_PER_DAY) {
                Some(seconds) => seconds,
                None => u64::MAX,
            };
            match now.nanos_since(modified) {
                Some(age) => age <= limit as u128 * NANOS,
                None => false,
            }
        } else {
            true
        }
    }
}

/// Filters combine: an entry passes all of them if and only if it passes each of
/// them alone.
pub proof fn law_filters_combine(
    filters: Filters,
    needle: Seq<char>,
    name: Seq<char>,
    size: u128,
    modified: Timestamp,
    now: Timestamp,
)
    ensures
        passes(filters, needle, name, size, modified, now) <==> {
            &&& passes(
                (Filters { min_size_bytes: 0, max_age_days: 0, ..filters }),
                needle,
                name,
                size,
                modified,
                now,
            )
            &&& passes(
                (Filters { max_age_days: 0, ..filters }),
                Seq::empty(),
                name,
                size,
                modified,
                now,
            )
            &&& passes(
                (Filters { min_size_bytes: 0, ..filters }),
                Seq::empty(),
                name,
                size,
                modified,
                now,
            )
        },
{
}

/// What passes strict filters passes less strict ones: a smaller size, or more
/// days, or no limit on them.
pub proof fn law_less_strict_filters_pass_more(
    strict: Filters,
    loose: Filters,
    needle: Seq<char>,
    name: Seq<char>,
    size: u128,
    modified: Timestamp,
    now: Timestamp,
)
    requires
        loose.min_size_bytes <= strict.min_size_bytes,
        loose.max_age_days == 0 || 0 < strict.max_age_days <= loose.max_age_days,
        passes(strict, needle, name, size, modified, now),
    ensures
        passes(loose, needle, name, size, modified, now),
{
}

/// What a name, a size and a time have to be like to pass, each filter taken by
/// itself. A name has to be what is asked for, with something before it and
/// something behind it, either of which may be nothing. A size has to be no less
/// than the least one. A change has to lie no more than so many times 86400 seconds
/// back, and not in the future; where so many seconds are more than 64 bits can
/// hold, the most that they can hold count instead.
pub proof fn law_what_passes(
    filters: Filters,
    needle: Seq<char>,
    name: Seq<char>,
    size: u128,
    modified: Timestamp,
    now: Timestamp,
)
    ensures
        passes(filters, needle, name, size, modified, now) <==> {
            let age = (now.secs * 1_000_000_000 + now.nanos) - (modified.secs * 1_000_000_000
                + modified.nanos);
            let seconds = filters.max_age_days * 86_400;
            &&& needle.len() == 0 || exists|before: Seq<char>, after: Seq<char>|
                name == #[trigger] (before + needle + after)
            &&& filters.min_size_bytes <= size
            &&& filters.max_age_days == 0 || (0 <= age && age <= 1_000_000_000 * (if seconds
                <= 0xffff_ffff_ffff_ffff {
                seconds
            } else {
                0xffff_ffff_ffff_ffff
            }))
        },
{
    law_a_text_contains_its_parts(name, needle);
}

/// A name passes if it begins or ends with what is asked for, or is that very text.
pub proof fn law_the_ends_of_a_name_count(
    filters: Filters,
    needle: Seq<char>,
    rest: Seq<char>,
    size: u128,
    modified: Timestamp,
    now: Timestamp,
)
    requires
        passes(filters, Seq::empty(), Seq::empty(), size, modified, now),
    ensures
        passes(filters, needle, needle, size, modified, now),
        passes(filters, needle, needle + rest, size, modified, now),
        passes(filters, needle, rest + needle, size, modified, now),
{
    let none = Seq::<char>::empty();
    law_a_text_contains_its_parts(needle, needle);
    law_a_text_contains_its_parts(needle + rest, needle);
    law_a_text_contains_its_parts(rest + needle, needle);
    assert(needle =~= none + needle + none);
    assert(needle + rest =~= none + needle + rest);
    assert(rest + needle =~= rest + needle + none);
}

} // verus!

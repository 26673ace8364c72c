//! The file systems that are mounted.
use crate::order::{
    is_order_by, law_sorted_by_is_a_sorted_rearrangement, law_sorting_respects_views, order_by,
    precedes_by, sorted_by, stable_sort, Ranked,
};
use crate::paths::{
    law_paths_before_total, law_paths_before_transitive, parts_before, path_parts, OsPath,
};
use crate::text::{
    char_lists, chars_of, is_text, lines_of, part_of, replace_all, replaced, split_lines,
    split_words, stand_at, stands_at, text_of, words_of,
};
use vstd::prelude::*;
use vstd::utf8::encode_utf8;

verus! {

/// A file system and the place where it is mounted.
#[derive(Debug, Clone, PartialEq, Eq)]
pub struct Mount {
    pub source: String,
    pub target: OsPath,
    pub fs_type: String,
}

/// A file system and the place where it is mounted, as a mathematical value.
#[verifier::ext_equal]
pub struct MountModel {
    pub source: Seq<char>,
    pub target: Seq<u8>,
    pub fs_type: Seq<char>,
}

impl View for Mount {
    type V = MountModel;

    open spec fn view(&self) -> MountModel {
        MountModel { source: self.source@, target: self.target@, fs_type: self.fs_type@ }
    }
}

/// The models of a list of mounts.
pub open spec fn mount_models(mounts: Seq<Mount>) -> Seq<MountModel> {
    mounts.map_values(|mount: Mount| mount@)
}

/// The first place where a text stands in another.
pub open spec fn first_place(text: Seq<char>, needle: Seq<char>) -> Option<int>
    decreases text.len(),
{
    if stands_at(text, needle, 0) {
        Some(0)
    } else if text.len() == 0 {
        None
    } else {
        match first_place(text.skip(1), needle) {
            Some(place) => Some(place + 1),
            None => None,
        }
    }
}

/// A path in which spaces, tabs, line feeds and backslashes were written as
/// octal numbers.
pub open spec fn unescaped(path: Seq<char>) -> Seq<char> {
    replaced(
        replaced(
            replaced(replaced(path, "\\040"@, ' '), "\\011"@, '\t'),
            "\\012"@,
            '\n',
        ),
        "\\134"@,
        '\\',
    )
}

/// A character of a path as a table of mounts writes it: as an octal number where
/// it would end the word or begin such a number.
pub open spec fn escaped_char(c: char) -> Seq<char> {
    if c == ' ' {
        "\\040"@
    } else if c == '\t' {
        "\\011"@
    } else if c == '\n' {
        "\\012"@
    } else if c == '\\' {
        "\\134"@
    } else {
        seq![c]
    }
}

/// A path as a table of mounts writes it.
pub open spec fn escaped(path: Seq<char>) -> Seq<char>
    decreases path.len(),
{
    if path.len() == 0 {
        path
    } else {
        escaped_char(path[0]) + escaped(path.skip(1))
    }
}

/// Every path comes back from the way in which a table of mounts writes it,
/// whatever spaces, tabs, line feeds, backslashes and digits it holds.
pub proof fn law_unescaping_undoes_escaping(path: Seq<char>)
    ensures
        unescaped(escaped(path)) == path,
{
    reveal_strlit("\\040");
    reveal_strlit("\\011");
    reveal_strlit("\\012");
    reveal_strlit("\\134");
    assert("\\040"@ =~= number_of_stage(0));
    assert("\\011"@ =~= number_of_stage(1));
    assert("\\012"@ =~= number_of_stage(2));
    assert("\\134"@ =~= number_of_stage(3));
    lemma_escaped_is_the_first_stage(path);
    lemma_one_stage(path, 0);
    lemma_one_stage(path, 1);
    lemma_one_stage(path, 2);
    lemma_one_stage(path, 3);
    lemma_last_stage(path);
}

/// The character that unescaping puts back in each of its stages.
spec fn char_of_stage(stage: int) -> char {
    if stage == 0 {
        ' '
    } else if stage == 1 {
        '\t'
    } else if stage == 2 {
        '\n'
    } else {
        '\\'
    }
}

/// The number that unescaping replaces in each of its stages.
spec fn number_of_stage(stage: int) -> Seq<char> {
    if stage == 0 {
        seq!['\\', '0', '4', '0']
    } else if stage == 1 {
        seq!['\\', '0', '1', '1']
    } else if stage == 2 {
        seq!['\\', '0', '1', '2']
    } else {
        seq!['\\', '1', '3', '4']
    }
}

/// A character before a stage of unescaping.
spec fn char_before_stage(c: char, stage: int) -> Seq<char> {
    if c == ' ' && stage <= 0 {
        number_of_stage(0)
    } else if c == '\t' && stage <= 1 {
        number_of_stage(1)
    } else if c == '\n' && stage <= 2 {
        number_of_stage(2)
    } else if c == '\\' && stage <= 3 {
        number_of_stage(3)
    } else {
        seq![c]
    }
}

/// A path before a stage of unescaping.
spec fn before_stage(path: Seq<char>, stage: int) -> Seq<char>
    decreases path.len(),
{
    if path.len() == 0 {
        path
    } else {
        char_before_stage(path[0], stage) + before_stage(path.skip(1), stage)
    }
}

proof fn lemma_escaped_is_the_first_stage(path: Seq<char>)
    requires
        "\\040"@ == number_of_stage(0),
        "\\011"@ == number_of_stage(1),
        "\\012"@ == number_of_stage(2),
        "\\134"@ == number_of_stage(3),
    ensures
        escaped(path) == before_stage(path, 0),
    decreases path.len(),
{
    if path.len() > 0 {
        lemma_escaped_is_the_first_stage(path.skip(1));
    }
}

proof fn lemma_last_stage(path: Seq<char>)
    ensures
        before_stage(path, 4) == path,
    decreases path.len(),
{
    if path.len() > 0 {
        lemma_last_stage(path.skip(1));
        assert(seq![path[0]] + path.skip(1) =~= path);
    }
}

/// One stage puts one character back.
proof fn lemma_one_stage(path: Seq<char>, stage: int)
    requires
        0 <= stage <= 3,
    ensures
        replaced(before_stage(path, stage), number_of_stage(stage), char_of_stage(stage))
            == before_stage(path, stage + 1),
    decreases path.len(),
{
    if path.len() > 0 {
        let number = number_of_stage(stage);
        let to = char_of_stage(stage);
        let c = path[0];
        let rest = before_stage(path.skip(1), stage);
        let all = before_stage(path, stage);
        lemma_one_stage(path.skip(1), stage);
        assert(all == char_before_stage(c, stage) + rest);
        if c == to {
            assert(all.subrange(0, 4) =~= number);
            assert(all.skip(4) =~= rest);
        } else if char_before_stage(c, stage).len() == 1 {
            assert(all[0] == c);
            lemma_plain_char(all, number, to);
            assert(all.skip(1) =~= rest);
        } else {
            let other = char_before_stage(c, stage);
            assert(!stands_at(all, number, 0)) by {
                if stands_at(all, number, 0) {
                    assert forall|k: int| 0 <= k < 4 implies #[trigger] other[k] == number[k] by {
                        assert(all.subrange(0, 4)[k] == all[k]);
                    }
                    assert(other[1] == number[1] && other[2] == number[2] && other[3]
                        == number[3]);
                }
            }
            assert(all.skip(1)[0] == other[1]);
            lemma_plain_char(all.skip(1), number, to);
            assert(all.skip(1).skip(1) =~= all.skip(2));
            assert(all.skip(2)[0] == other[2]);
            lemma_plain_char(all.skip(2), number, to);
            assert(all.skip(2).skip(1) =~= all.skip(3));
            assert(all.skip(3)[0] == other[3]);
            lemma_plain_char(all.skip(3), number, to);
            assert(all.skip(3).skip(1) =~= rest);
            assert(replaced(all, number, to) =~= other + replaced(rest, number, to));
        }
    }
}

/// No number begins with a character other than a backslash.
proof fn lemma_plain_char(text: Seq<char>, number: Seq<char>, to: char)
    requires
        text.len() > 0,
        number.len() > 0,
        number[0] == '\\',
        text[0] != '\\',
    ensures
        replaced(text, number, to) == seq![text[0]] + replaced(text.skip(1), number, to),
{
    if stands_at(text, number, 0) {
        assert(text.subrange(0, number.len() as int)[0] == text[0]);
    }
}

/// A line about a mount: the fifth word says where, and behind a lone dash stand
/// the type and the source, which may be missing.
pub open spec fn mount_of_line(line: Seq<char>) -> Option<MountModel> {
    match first_place(line, " - "@) {
        None => None,
        Some(place) => {
            let left = words_of(line.take(place));
            let right = words_of(line.skip(place + 3));
            if left.len() < 5 || right.len() < 1 {
                None
            } else {
                Some(
                    MountModel {
                        source: if right.len() > 1 {
                            right[1]
                        } else {
                            Seq::empty()
                        },
                        target: encode_utf8(unescaped(left[4])),
                        fs_type: right[0],
                    },
                )
            }
        },
    }
}

/// The types of file systems that hold no files of their own.
pub open spec fn is_pseudo(fs_type: Seq<char>) -> bool {
    ||| fs_type == "proc"@
    ||| fs_type == "sysfs"@
    ||| fs_type == "devtmpfs"@
    ||| fs_type == "devpts"@
    ||| fs_type == "tmpfs"@
    ||| fs_type == "cgroup"@
    ||| fs_type == "cgroup2"@
    ||| fs_type == "pstore"@
    ||| fs_type == "securityfs"@
    ||| fs_type == "debugfs"@
    ||| fs_type == "tracefs"@
    ||| fs_type == "configfs"@
    ||| fs_type == "fusectl"@
    ||| fs_type == "mqueue"@
    ||| fs_type == "hugetlbfs"@
    ||| fs_type == "autofs"@
    ||| fs_type == "binfmt_misc"@
}

/// The mounts that lines are about, but for pseudo file systems.
pub open spec fn real_mounts(lines: Seq<Seq<char>>) -> Seq<MountModel>
    decreases lines.len(),
{
    if lines.len() == 0 {
        Seq::empty()
    } else {
        let before = real_mounts(lines.drop_last());
        match mount_of_line(lines.last()) {
            Some(mount) => if is_pseudo(mount.fs_type) {
                before
            } else {
                before.push(mount)
            },
            None => before,
        }
    }
}

/// Whether a mount is listed before another.
pub open spec fn mount_before(left: MountModel, right: MountModel) -> bool {
    parts_before(path_parts(left.target), path_parts(right.target))
}

/// Whether two mounts are at the same place.
pub open spec fn same_target(left: MountModel, right: MountModel) -> bool {
    path_parts(left.target) == path_parts(right.target)
}

/// Of neighbours at the same place, the first.
pub open spec fn without_repeats(mounts: Seq<MountModel>) -> Seq<MountModel>
    decreases mounts.len(),
{
    if mounts.len() == 0 {
        mounts
    } else {
        let before = without_repeats(mounts.drop_last());
        if before.len() > 0 && same_target(before.last(), mounts.last()) {
            before
        } else {
            before.push(mounts.last())
        }
    }
}

/// The mounts that a table of mounts is about, sorted by their places, one for
/// each of them.
pub open spec fn mounts_of(input: Seq<char>) -> Seq<MountModel> {
    without_repeats(
        sorted_by(
            real_mounts(lines_of(input)),
            |a: MountModel, b: MountModel| mount_before(a, b),
        ),
    )
}

proof fn lemma_mount_before_asymmetric(a: MountModel, b: MountModel)
    ensures
        mount_before(a, b) ==> !mount_before(b, a),
{
    law_paths_before_total(path_parts(a.target), path_parts(b.target));
}

proof fn lemma_mount_before_consistent(a: MountModel, b: MountModel, c: MountModel)
    ensures
        !mount_before(a, b) && !mount_before(b, c) ==> !mount_before(a, c),
{
    let (x, y, z) = (path_parts(a.target), path_parts(b.target), path_parts(c.target));
    law_paths_before_total(x, y);
    law_paths_before_total(y, z);
    law_paths_before_total(x, z);
    if parts_before(x, z) && parts_before(y, x) {
        law_paths_before_transitive(y, x, z);
    }
}

impl Ranked for Mount {
    open spec fn before(self, other: Mount) -> bool {
        mount_before(self@, other@)
    }

    proof fn before_is_asymmetric(a: Mount, b: Mount) {
        lemma_mount_before_asymmetric(a@, b@);
    }

    proof fn before_is_consistent(a: Mount, b: Mount, c: Mount) {
        lemma_mount_before_consistent(a@, b@, c@);
    }

    fn stands_before(&self, other: &Mount) -> (r: bool) {
        self.target.comes_before(&other.target)
    }
}

fn find_chars(text: &[char], needle: &[char]) -> (r: Option<usize>)
    ensures
        match r {
            Some(place) => first_place(text@, needle@) == Some(place as int) && stands_at(
                text@,
                needle@,
                place as int,
            ),
            None => first_place(text@, needle@) is None,
        },
{
    let ghost all = text@;
    let mut place: usize = 0;
    proof {
        assert(all.skip(0) =~= all);
    }
    while place <= text.len()
        invariant
            place <= all.len(),
            all == text@,
            first_place(all, needle@) == match first_place(all.skip(place as int), needle@) {
                Some(more) => Some(more + place),
                None => None,
            },
        decreases all.len() - place,
    {
        let ghost rest = all.skip(place as int);
        proof {
            assert(stands_at(rest, needle@, 0) == stands_at(all, needle@, place as int)) by {
                if place + needle@.len() <= all.len() {
                    assert(rest.subrange(0, needle@.len() as int) =~= all.subrange(
                        place as int,
                        place + needle@.len(),
                    ));
                }
            }
        }
        if stand_at(text, needle, place) {
            return Some(place);
        }
        if place == text.len() {
            return None;
        }
        proof {
            assert(rest.skip(1) =~= all.skip(place + 1));
        }
        place = place + 1;
    }
    None
}

fn unescape_mount_path(path: &[char]) -> (r: Vec<char>)
    ensures
        r@ == unescaped(path@),
{
    let space: Vec<char> = chars_of("\\040");
    let tab: Vec<char> = chars_of("\\011");
    let feed: Vec<char> = chars_of("\\012");
    let backslash: Vec<char> = chars_of("\\134");
    proof {
        reveal_strlit("\\040");
        reveal_strlit("\\011");
        reveal_strlit("\\012");
        reveal_strlit("\\134");
    }
    let spaced: Vec<char> = replace_all(path, space.as_slice(), ' ');
    let tabbed: Vec<char> = replace_all(spaced.as_slice(), tab.as_slice(), '\t');
    let fed: Vec<char> = replace_all(tabbed.as_slice(), feed.as_slice(), '\n');
    replace_all(fed.as_slice(), backslash.as_slice(), '\\')
}

fn parse_mount_line(line: &[char]) -> (r: Option<Mount>)
    ensures
        match r {
            Some(mount) => mount_of_line(line@) == Some(mount@),
            None => mount_of_line(line@) is None,
        },
{
    let dash: Vec<char> = chars_of(" - ");
    proof {
        reveal_strlit(" - ");
    }
    let place: usize = match find_chars(line, dash.as_slice()) {
        Some(place) => place,
        None => return None,
    };
    let left: Vec<char> = part_of(line, 0, place);
    let end: usize = line.len();
    let right: Vec<char> = part_of(line, place + 3, end);
    proof {
        assert(left@ =~= line@.take(place as int));
        assert(right@ =~= line@.skip(place + 3));
    }
    let left_words: Vec<Vec<char>> = split_words(left.as_slice());
    let right_words: Vec<Vec<char>> = split_words(right.as_slice());
    proof {
        assert(char_lists(left_words@).len() == left_words@.len());
        assert(char_lists(right_words@).len() == right_words@.len());
    }
    if left_words.len() < 5 || right_words.len() < 1 {
        return None;
    }
    proof {
        assert(char_lists(left_words@)[4] == left_words@[4]@);
        assert(char_lists(right_words@)[0] == right_words@[0]@);
        if right_words@.len() > 1 {
            assert(char_lists(right_words@)[1] == right_words@[1]@);
        }
    }
    let target: String = text_of(unescape_mount_path(left_words[4].as_slice()).as_slice());
    let source: String = if right_words.len() > 1 {
        text_of(right_words[1].as_slice())
    } else {
        String::new()
    };
    Some(
        Mount {
            source,
            target: OsPath::from_text(target.as_str()),
            fs_type: text_of(right_words[0].as_slice()),
        },
    )
}

fn is_pseudo_fs(fs_type: &str) -> (r: bool)
    ensures
        r == is_pseudo(fs_type@),
{
    let chars: Vec<char> = chars_of(fs_type);
    let name: &[char] = chars.as_slice();
    is_text(name, "proc") || is_text(name, "sysfs") || is_text(name, "devtmpfs") || is_text(
        name,
        "devpts",
    ) || is_text(name, "tmpfs") || is_text(name, "cgroup") || is_text(name, "cgroup2") || is_text(
        name,
        "pstore",
    ) || is_text(name, "securityfs") || is_text(name, "debugfs") || is_text(name, "tracefs")
        || is_text(name, "configfs") || is_text(name, "fusectl") || is_text(name, "mqueue")
        || is_text(name, "hugetlbfs") || is_text(name, "autofs") || is_text(name, "binfmt_misc")
}

/// The mounts that a table of mounts is about, but for pseudo file systems,
/// sorted by their places, one for each of them.
pub fn parse_mountinfo(input: &str) -> (r: Vec<Mount>)
    ensures
        mount_models(r@) == mounts_of(input@),
{
    let chars: Vec<char> = chars_of(input);
    let lines: Vec<Vec<char>> = split_lines(chars.as_slice());
    let ghost all = char_lists(lines@);
    let mut found: Vec<Mount> = Vec::new();
    let mut i: usize = 0;
    proof {
        assert(mount_models(found@) =~= real_mounts(all.take(0)));
    }
    while i < lines.len()
        invariant
            i <= lines@.len(),
            all == char_lists(lines@),
            mount_models(found@) == real_mounts(all.take(i as int)),
        decreases lines@.len() - i,
    {
        let ghost before = mount_models(found@);
        proof {
            assert(all.take(i as int + 1).drop_last() =~= all.take(i as int));
            assert(all.take(i as int + 1).last() == lines@[i as int]@);
        }
        if let Some(mount) = parse_mount_line(lines[i].as_slice()) {
            if !is_pseudo_fs(mount.fs_type.as_str()) {
                let ghost model = mount@;
                found.push(mount);
                proof {
                    assert(mount_models(found@) =~= before.push(model));
                }
            }
        }
        i = i + 1;
    }
    let ghost actual = found@;
    proof {
        assert(all.take(all.len() as int) =~= all);
    }
    let sorted_mounts: Vec<Mount> = stable_sort(found);
    proof {
        law_sorting_respects_views(
            actual,
            |mount: Mount| mount@,
            |a: MountModel, b: MountModel| mount_before(a, b),
        );
    }
    drop_repeats(sorted_mounts)
}

fn drop_repeats(mounts: Vec<Mount>) -> (r: Vec<Mount>)
    ensures
        mount_models(r@) == without_repeats(mount_models(mounts@)),
{
    let ghost all = mount_models(mounts@);
    let mut kept: Vec<Mount> = Vec::new();
    proof {
        assert(mount_models(kept@) =~= without_repeats(all.take(0)));
    }
    for mount in iter: mounts
        invariant
            all == mount_models(iter.seq()),
            mount_models(kept@) == without_repeats(all.take(iter.index())),
    {
        let ghost i = iter.index();
        let ghost before = mount_models(kept@);
        let ghost model = mount@;
        proof {
            assert(model == all[i]);
            assert(all.take(i + 1).drop_last() =~= all.take(i));
            assert(all.take(i + 1).last() == all[i]);
            assert(before.len() == kept@.len());
            if kept@.len() > 0 {
                assert(before.last() == kept@[kept@.len() - 1]@);
            }
        }
        let repeats: bool = kept.len() > 0 && kept[kept.len() - 1].target.same_as(&mount.target);
        if !repeats {
            kept.push(mount);
            proof {
                assert(mount_models(kept@) =~= before.push(model));
            }
        }
    }
    proof {
        assert(all.take(all.len() as int) =~= all);
    }
    kept
}

/// The mounts of a table are sorted by their places, no two are at the same
/// place, and none is of a pseudo file system.
pub proof fn law_mounts_are_sorted_and_distinct(input: Seq<char>)
    ensures
        forall|a: int, b: int|
            0 <= a < b < mounts_of(input).len() ==> mount_before(
                #[trigger] mounts_of(input)[a],
                #[trigger] mounts_of(input)[b],
            ),
        forall|a: int|
            0 <= a < mounts_of(input).len() ==> !is_pseudo(
                (#[trigger] mounts_of(input)[a]).fs_type,
            ),
{
    let actual = real_mounts(lines_of(input));
    let listed = lemma_listed(actual);
    lemma_without_repeats(listed);
    lemma_real_mounts_are_real(lines_of(input));
    let kept = mounts_of(input);
    assert forall|a: int| 0 <= a < kept.len() implies !is_pseudo((#[trigger] kept[a]).fs_type) by {
        assert(listed.contains(kept[a]));
        lemma_same_multiset(listed, actual, kept[a]);
    }
}

/// Every real file system of a table is listed: there is a mount at its place.
pub proof fn law_every_real_mount_is_listed(input: Seq<char>, mount: MountModel)
    requires
        real_mounts(lines_of(input)).contains(mount),
    ensures
        exists|a: int|
            0 <= a < mounts_of(input).len() && same_target(
                #[trigger] mounts_of(input)[a],
                mount,
            ),
{
    let actual = real_mounts(lines_of(input));
    let listed = lemma_listed(actual);
    lemma_without_repeats(listed);
    lemma_same_multiset(actual, listed, mount);
    let i = choose|i: int| 0 <= i < listed.len() && listed[i] == mount;
    let kept = without_repeats(listed);
    let a = choose|a: int| 0 <= a < kept.len() && same_target(#[trigger] kept[a], listed[i]);
    assert(same_target(mounts_of(input)[a], mount));
}

/// Whether a line is about a mount of a real file system.
pub open spec fn is_about(line: Seq<char>, mount: MountModel) -> bool {
    mount_of_line(line) == Some(mount) && !is_pseudo(mount.fs_type)
}

/// Whether a line is about a mount, and no line before it about a mount at the
/// same place.
pub open spec fn is_first_line_about(
    lines: Seq<Seq<char>>,
    place: int,
    mount: MountModel,
) -> bool {
    &&& 0 <= place < lines.len()
    &&& is_about(lines[place], mount)
    &&& forall|i: int, other: MountModel|
        0 <= i < place && #[trigger] is_about(lines[i], other) ==> !same_target(other, mount)
}

/// The mounts of a table are those of its lines, and of several lines about one
/// place the first counts: a mount is listed if and only if such a line is about
/// it.
pub proof fn law_the_first_line_about_a_place_counts(input: Seq<char>, mount: MountModel)
    ensures
        mounts_of(input).contains(mount) <==> exists|place: int|
            is_first_line_about(lines_of(input), place, mount),
{
    let lines = lines_of(input);
    if mounts_of(input).contains(mount) {
        let _ = lemma_first_line(input, mount);
    }
    if exists|place: int| is_first_line_about(lines, place, mount) {
        let place = choose|place: int| is_first_line_about(lines, place, mount);
        lemma_real_mounts_hold(lines, place, mount);
        law_every_real_mount_is_listed(input, mount);
        let a = choose|a: int|
            0 <= a < mounts_of(input).len() && same_target(#[trigger] mounts_of(input)[a], mount);
        let listed = mounts_of(input)[a];
        assert(mounts_of(input).contains(listed));
        let other = lemma_first_line(input, listed);
        assert(is_about(lines[other], listed) && is_about(lines[place], mount));
        assert(other == place);
    }
}

/// What is listed comes from the first line about its place.
proof fn lemma_first_line(input: Seq<char>, mount: MountModel) -> (place: int)
    requires
        mounts_of(input).contains(mount),
    ensures
        is_first_line_about(lines_of(input), place, mount),
{
    let lines = lines_of(input);
    let actual = real_mounts(lines);
    let before = |a: MountModel, b: MountModel| mount_before(a, b);
    let listed = lemma_listed(actual);
    let order = order_by(actual, before);
    assert(is_order_by(actual, before, order));
    let k = lemma_first_of_its_place(listed, mount);
    let position = order[k];
    assert(listed[k] == actual[position]);
    let place = lemma_line_of(lines, position);
    assert forall|i: int, other: MountModel|
        0 <= i < place && #[trigger] is_about(lines[i], other) implies !same_target(
        other,
        mount,
    ) by {
        let earlier = choose|earlier: int|
            0 <= earlier < position && #[trigger] actual[earlier] == other;
        assert(order.contains(earlier));
        let at = choose|at: int| 0 <= at < order.len() && order[at] == earlier;
        assert(listed[at] == other);
        if at > k && same_target(other, mount) {
            assert(precedes_by(actual, before, order[k], order[at]));
            law_paths_before_total(path_parts(other.target), path_parts(mount.target));
        }
    }
    place
}

/// Where a mount that is kept stands, none at its place stands before it.
proof fn lemma_first_of_its_place(mounts: Seq<MountModel>, mount: MountModel) -> (place: int)
    requires
        forall|a: int, b: int|
            0 <= a < b < mounts.len() ==> !mount_before(
                #[trigger] mounts[b],
                #[trigger] mounts[a],
            ),
        without_repeats(mounts).contains(mount),
    ensures
        0 <= place < mounts.len(),
        mounts[place] == mount,
        forall|i: int| 0 <= i < place ==> !same_target(#[trigger] mounts[i], mount),
    decreases mounts.len(),
{
    let rest = mounts.drop_last();
    let before = without_repeats(rest);
    let kept = without_repeats(mounts);
    assert forall|a: int, b: int| 0 <= a < b < rest.len() implies !mount_before(
        #[trigger] rest[b],
        #[trigger] rest[a],
    ) by {
        assert(rest[b] == mounts[b] && rest[a] == mounts[a]);
    }
    let at = choose|at: int| 0 <= at < kept.len() && kept[at] == mount;
    if at < before.len() {
        assert(before[at] == mount);
        let place = lemma_first_of_its_place(rest, mount);
        assert forall|i: int| 0 <= i < place implies !same_target(
            #[trigger] mounts[i],
            mount,
        ) by {
            assert(rest[i] == mounts[i]);
        }
        place
    } else {
        lemma_without_repeats(mounts);
        lemma_without_repeats(rest);
        assert forall|i: int| 0 <= i < rest.len() implies !same_target(
            #[trigger] mounts[i],
            mount,
        ) by {
            assert(rest[i] == mounts[i]);
            let a = choose|a: int|
                0 <= a < before.len() && same_target(#[trigger] before[a], rest[i]);
            assert(kept[a] == before[a]);
            assert(mount_before(kept[a], kept[at]));
            law_paths_before_total(path_parts(kept[a].target), path_parts(mount.target));
        }
        mounts.len() - 1
    }
}

/// The line that a real mount comes from: what the lines before it are about
/// stands before it.
proof fn lemma_line_of(lines: Seq<Seq<char>>, position: int) -> (place: int)
    requires
        0 <= position < real_mounts(lines).len(),
    ensures
        0 <= place < lines.len(),
        is_about(lines[place], real_mounts(lines)[position]),
        forall|i: int, other: MountModel|
            0 <= i < place && #[trigger] is_about(lines[i], other) ==> exists|earlier: int|
                0 <= earlier < position && #[trigger] real_mounts(lines)[earlier] == other,
    decreases lines.len(),
{
    let rest = lines.drop_last();
    let before = real_mounts(rest);
    let all = real_mounts(lines);
    if position < before.len() {
        let place = lemma_line_of(rest, position);
        assert(rest[place] == lines[place]);
        assert forall|i: int, other: MountModel|
            0 <= i < place && #[trigger] is_about(lines[i], other) implies exists|earlier: int|
            0 <= earlier < position && #[trigger] all[earlier] == other by {
            assert(is_about(rest[i], other));
            let earlier = choose|earlier: int|
                0 <= earlier < position && #[trigger] before[earlier] == other;
            assert(all[earlier] == other);
        }
        place
    } else {
        let place = lines.len() - 1;
        assert forall|i: int, other: MountModel|
            0 <= i < place && #[trigger] is_about(lines[i], other) implies exists|earlier: int|
            0 <= earlier < position && #[trigger] all[earlier] == other by {
            lemma_real_mounts_hold(rest, i, other);
            let earlier = choose|earlier: int|
                0 <= earlier < before.len() && before[earlier] == other;
            assert(all[earlier] == other);
        }
        place
    }
}

proof fn lemma_real_mounts_hold(lines: Seq<Seq<char>>, place: int, mount: MountModel)
    requires
        0 <= place < lines.len(),
        is_about(lines[place], mount),
    ensures
        real_mounts(lines).contains(mount),
    decreases lines.len(),
{
    let rest = lines.drop_last();
    let before = real_mounts(rest);
    let all = real_mounts(lines);
    if place < rest.len() {
        assert(rest[place] == lines[place]);
        lemma_real_mounts_hold(rest, place, mount);
        let k = choose|k: int| 0 <= k < before.len() && before[k] == mount;
        assert(all[k] == mount);
    } else {
        assert(all[all.len() - 1] == mount);
    }
}

proof fn lemma_listed(actual: Seq<MountModel>) -> (listed: Seq<MountModel>)
    ensures
        is_order_by(
            actual,
            |a: MountModel, b: MountModel| mount_before(a, b),
            order_by(actual, |a: MountModel, b: MountModel| mount_before(a, b)),
        ),
        listed == sorted_by(actual, |a: MountModel, b: MountModel| mount_before(a, b)),
        listed.to_multiset() == actual.to_multiset(),
        forall|a: int, b: int|
            0 <= a < b < listed.len() ==> !mount_before(
                #[trigger] listed[b],
                #[trigger] listed[a],
            ),
{
    let before = |a: MountModel, b: MountModel| mount_before(a, b);
    assert forall|a: MountModel, b: MountModel| #[trigger] before(a, b) implies !before(b, a) by {
        lemma_mount_before_asymmetric(a, b);
    }
    assert forall|a: MountModel, b: MountModel, c: MountModel|
        !(#[trigger] before(a, b)) && !(#[trigger] before(b, c)) implies !before(a, c) by {
        lemma_mount_before_consistent(a, b, c);
    }
    law_sorted_by_is_a_sorted_rearrangement(actual, before);
    let listed = sorted_by(actual, before);
    assert forall|a: int, b: int| 0 <= a < b < listed.len() implies !mount_before(
        #[trigger] listed[b],
        #[trigger] listed[a],
    ) by {
        assert(!before(listed[b], listed[a]));
    }
    listed
}

proof fn lemma_same_multiset(one: Seq<MountModel>, two: Seq<MountModel>, mount: MountModel)
    requires
        one.to_multiset() == two.to_multiset(),
        one.contains(mount),
    ensures
        two.contains(mount),
{
    broadcast use vstd::seq_lib::group_to_multiset_ensures;

    assert(one.to_multiset().count(mount) > 0);
}

proof fn lemma_without_repeats(mounts: Seq<MountModel>)
    requires
        forall|a: int, b: int|
            0 <= a < b < mounts.len() ==> !mount_before(
                #[trigger] mounts[b],
                #[trigger] mounts[a],
            ),
    ensures
        forall|a: int, b: int|
            0 <= a < b < without_repeats(mounts).len() ==> mount_before(
                #[trigger] without_repeats(mounts)[a],
                #[trigger] without_repeats(mounts)[b],
            ),
        forall|a: int|
            0 <= a < without_repeats(mounts).len() ==> mounts.contains(
                #[trigger] without_repeats(mounts)[a],
            ),
        forall|i: int|
            0 <= i < mounts.len() ==> exists|a: int|
                0 <= a < without_repeats(mounts).len() && same_target(
                    #[trigger] without_repeats(mounts)[a],
                    #[trigger] mounts[i],
                ),
        mounts.len() > 0 ==> without_repeats(mounts).len() > 0 && same_target(
            without_repeats(mounts).last(),
            mounts.last(),
        ),
    decreases mounts.len(),
{
    if mounts.len() > 0 {
        let rest = mounts.drop_last();
        let last = mounts.last();
        let before = without_repeats(rest);
        let kept = without_repeats(mounts);
        assert forall|a: int, b: int| 0 <= a < b < rest.len() implies !mount_before(
            #[trigger] rest[b],
            #[trigger] rest[a],
        ) by {
            assert(rest[b] == mounts[b] && rest[a] == mounts[a]);
        }
        lemma_without_repeats(rest);
        assert forall|a: int, b: int| 0 <= a < b < kept.len() implies mount_before(
            #[trigger] kept[a],
            #[trigger] kept[b],
        ) by {
            if b < before.len() {
                assert(kept[a] == before[a] && kept[b] == before[b]);
            } else {
                assert(kept[b] == last);
                assert(kept[a] == before[a]);
                assert(rest.contains(before[a]));
                let i = choose|i: int| 0 <= i < rest.len() && rest[i] == before[a];
                assert(mounts[i] == before[a]);
                assert(!mount_before(mounts[mounts.len() - 1], mounts[i]));
                law_paths_before_total(path_parts(before[a].target), path_parts(last.target));
                if same_target(before[a], last) {
                    let top = before.len() - 1;
                    if a < top {
                        assert(mount_before(before[a], before[top]));
                        assert(rest.contains(before[top]));
                        let j = choose|j: int| 0 <= j < rest.len() && rest[j] == before[top];
                        assert(mounts[j] == before[top]);
                        assert(!mount_before(mounts[mounts.len() - 1], mounts[j]));
                    }
                }
            }
        }
        assert forall|a: int| 0 <= a < kept.len() implies mounts.contains(#[trigger] kept[a]) by {
            if a < before.len() {
                assert(kept[a] == before[a]);
                assert(rest.contains(before[a]));
                let i = choose|i: int| 0 <= i < rest.len() && rest[i] == before[a];
                assert(mounts[i] == kept[a]);
            } else {
                assert(mounts[mounts.len() - 1] == kept[a]);
            }
        }
        assert forall|i: int| 0 <= i < mounts.len() implies exists|a: int|
            0 <= a < kept.len() && same_target(#[trigger] kept[a], #[trigger] mounts[i]) by {
            if i < rest.len() {
                assert(rest[i] == mounts[i]);
                let a = choose|a: int|
                    0 <= a < before.len() && same_target(#[trigger] before[a], rest[i]);
                assert(kept[a] == before[a]);
            } else {
                assert(same_target(kept[kept.len() - 1], mounts[i]));
            }
        }
    }
}

proof fn lemma_real_mounts_are_real(lines: Seq<Seq<char>>)
    ensures
        forall|mount: MountModel| #[trigger]
            real_mounts(lines).contains(mount) ==> !is_pseudo(mount.fs_type),
    decreases lines.len(),
{
    if lines.len() > 0 {
        let rest = lines.drop_last();
        let before = real_mounts(rest);
        lemma_real_mounts_are_real(rest);
        assert forall|mount: MountModel| #[trigger] real_mounts(lines).contains(
            mount,
        ) implies !is_pseudo(mount.fs_type) by {
            let all = real_mounts(lines);
            let k = choose|k: int| 0 <= k < all.len() && all[k] == mount;
            if k < before.len() {
                assert(before[k] == mount);
                assert(before.contains(mount));
            }
        }
    }
}

/// The first place of a text in another: it stands there, and nowhere before.
pub proof fn law_the_first_place_is_the_first(text: Seq<char>, needle: Seq<char>)
    ensures
        match first_place(text, needle) {
            Some(place) => stands_at(text, needle, place) && forall|earlier: int|
                0 <= earlier < place ==> !(#[trigger] stands_at(text, needle, earlier)),
            None => forall|place: int| !(#[trigger] stands_at(text, needle, place)),
        },
    decreases text.len(),
{
    if !stands_at(text, needle, 0) {
        if text.len() > 0 {
            let rest = text.skip(1);
            law_the_first_place_is_the_first(rest, needle);
            assert forall|place: int| 1 <= place implies (#[trigger] stands_at(text, needle, place)
                <==> stands_at(rest, needle, place - 1)) by {
                if place + needle.len() <= text.len() {
                    assert(rest.subrange(place - 1, place - 1 + needle.len()) =~= text.subrange(
                        place,
                        place + needle.len(),
                    ));
                }
            }
        } else {
            assert forall|place: int| !(#[trigger] stands_at(text, needle, place)) by {
                if stands_at(text, needle, place) {
                    assert(place == 0);
                }
            }
        }
    }
}

/// A line is read around its first lone dash. Before it stand at least five words, the
/// fifth of which is the place; behind it the type of the file system, and its source
/// if there is one. A line without a dash, or with too few words, is about nothing.
pub proof fn law_a_line_is_read_around_its_dash(left: Seq<char>, right: Seq<char>)
    requires
        forall|place: int|
            0 <= place < left.len() ==> !(#[trigger] stands_at(
                left + " - "@ + right,
                " - "@,
                place,
            )),
    ensures
        ({
            let found = mount_of_line(left + " - "@ + right);
            let before = words_of(left);
            let behind = words_of(right);
            &&& before.len() < 5 || behind.len() == 0 ==> found is None
            &&& before.len() >= 5 && behind.len() > 0 ==> {
                &&& found is Some
                &&& found->0.target == encode_utf8(unescaped(before[4]))
                &&& found->0.fs_type == behind[0]
                &&& behind.len() > 1 ==> found->0.source == behind[1]
                &&& behind.len() == 1 ==> found->0.source.len() == 0
            }
        }),
{
    let dash = " - "@;
    let line = left + dash + right;
    reveal_strlit(" - ");
    assert(dash.len() == 3);
    law_the_first_place_is_the_first(line, dash);
    assert(line.subrange(left.len() as int, left.len() as int + 3) =~= dash);
    assert(stands_at(line, dash, left.len() as int));
    let place = left.len() as int;
    assert(first_place(line, dash) == Some(place));
    assert(line.take(place) =~= left);
    assert(line.skip(place + 3) =~= right);
}

/// A line in which no lone dash stands is about nothing.
pub proof fn law_a_line_without_a_dash_is_about_nothing(line: Seq<char>)
    requires
        forall|before: Seq<char>, after: Seq<char>|
            line != #[trigger] (before + " - "@ + after),
    ensures
        mount_of_line(line) is None,
{
    let dash = " - "@;
    reveal_strlit(" - ");
    assert(dash.len() == 3);
    law_the_first_place_is_the_first(line, dash);
    if let Some(place) = first_place(line, dash) {
        assert(line =~= line.take(place) + dash + line.skip(place + 3));
    }
}

/// Which types of file systems hold no files of their own.
pub proof fn law_pseudo_file_systems_are_listed(fs_type: Seq<char>)
    ensures
        is_pseudo(fs_type) <==> seq![
            "proc"@,
            "sysfs"@,
            "devtmpfs"@,
            "devpts"@,
            "tmpfs"@,
            "cgroup"@,
            "cgroup2"@,
            "pstore"@,
            "securityfs"@,
            "debugfs"@,
            "tracefs"@,
            "configfs"@,
            "fusectl"@,
            "mqueue"@,
            "hugetlbfs"@,
            "autofs"@,
            "binfmt_misc"@,
        ].contains(fs_type),
{
    let names = seq![
        "proc"@,
        "sysfs"@,
        "devtmpfs"@,
        "devpts"@,
        "tmpfs"@,
        "cgroup"@,
        "cgroup2"@,
        "pstore"@,
        "securityfs"@,
        "debugfs"@,
        "tracefs"@,
        "configfs"@,
        "fusectl"@,
        "mqueue"@,
        "hugetlbfs"@,
        "autofs"@,
        "binfmt_misc"@,
    ];
    assert(names[0] == "proc"@ && names[1] == "sysfs"@ && names[2] == "devtmpfs"@ && names[3]
        == "devpts"@ && names[4] == "tmpfs"@ && names[5] == "cgroup"@ && names[6] == "cgroup2"@
        && names[7] == "pstore"@ && names[8] == "securityfs"@ && names[9] == "debugfs"@ && names[10]
        == "tracefs"@ && names[11] == "configfs"@ && names[12] == "fusectl"@ && names[13]
        == "mqueue"@ && names[14] == "hugetlbfs"@ && names[15] == "autofs"@ && names[16]
        == "binfmt_misc"@);
}

/// Two mounts are at the same place if their paths have the same parts, and are listed
/// in the order of these.
pub proof fn law_mounts_are_compared_by_their_places(left: MountModel, right: MountModel)
    ensures
        same_target(left, right) <==> path_parts(left.target) == path_parts(right.target),
        mount_before(left, right) <==> parts_before(
            path_parts(left.target),
            path_parts(right.target),
        ),
{
}

/// What holds no backslash is not changed by unescaping.
pub proof fn law_plain_paths_are_not_changed(path: Seq<char>)
    requires
        !path.contains('\\'),
    ensures
        unescaped(path) == path,
{
    reveal_strlit("\\040");
    reveal_strlit("\\011");
    reveal_strlit("\\012");
    reveal_strlit("\\134");
    lemma_no_backslash(path, "\\040"@, ' ');
    lemma_no_backslash(path, "\\011"@, '\t');
    lemma_no_backslash(path, "\\012"@, '\n');
    lemma_no_backslash(path, "\\134"@, '\\');
}

proof fn lemma_no_backslash(path: Seq<char>, number: Seq<char>, to: char)
    requires
        !path.contains('\\'),
        number.len() > 0,
        number[0] == '\\',
    ensures
        replaced(path, number, to) == path,
    decreases path.len(),
{
    if path.len() > 0 {
        assert(path.contains(path[0]));
        let rest = path.skip(1);
        assert forall|ch: char| rest.contains(ch) implies path.contains(ch) by {
            let k = choose|k: int| 0 <= k < rest.len() && rest[k] == ch;
            assert(path[k + 1] == ch);
        }
        lemma_plain_char(path, number, to);
        lemma_no_backslash(rest, number, to);
        assert(seq![path[0]] + rest =~= path);
    }
}

/// The characters that a table of mounts does not write as they are, each with its
/// number in the octal system behind a backslash.
pub proof fn law_escaped_characters_are_octal_numbers(c: char)
    ensures
        escaped_char(c) == if c == ' ' {
            seq!['\\', '0', '4', '0']
        } else if c == '\t' {
            seq!['\\', '0', '1', '1']
        } else if c == '\n' {
            seq!['\\', '0', '1', '2']
        } else if c == '\\' {
            seq!['\\', '1', '3', '4']
        } else {
            seq![c]
        },
{
    reveal_strlit("\\040");
    reveal_strlit("\\011");
    reveal_strlit("\\012");
    reveal_strlit("\\134");
    assert("\\040"@ =~= seq!['\\', '0', '4', '0']);
    assert("\\011"@ =~= seq!['\\', '0', '1', '1']);
    assert("\\012"@ =~= seq!['\\', '0', '1', '2']);
    assert("\\134"@ =~= seq!['\\', '1', '3', '4']);
}

/// A path is written character by character.
pub proof fn law_paths_are_escaped_character_by_character(c: char, rest: Seq<char>)
    ensures
        escaped(seq![c] + rest) == escaped_char(c) + escaped(rest),
        escaped(Seq::empty()) == Seq::<char>::empty(),
{
    assert((seq![c] + rest).skip(1) =~= rest);
    assert((seq![c] + rest)[0] == c);
}

/// The model of a mount holds what the mount does.
pub proof fn law_models_hold_the_mounts(mount: Mount)
    ensures
        mount@.source == mount.source@,
        mount@.target == mount.target@,
        mount@.fs_type == mount.fs_type@,
{
}

} // verus!

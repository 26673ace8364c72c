//! File system paths as byte strings, read by their parts.
//!
//! Two paths name the same place in the directory tree when they have the
//! same parts: repeated and trailing separators do not count, and neither
//! does a `.` anywhere but at the very start of a relative path.
use vstd::prelude::*;

verus! {

/// The byte between two parts of a path.
pub const SEPARATOR: u8 = 47;

/// The byte of which `.` and `..` are made.
pub const DOT: u8 = 46;

/// What a part of a path is. The variants are listed in the order in which
/// paths that differ in them are sorted.
#[derive(Debug, Clone, Copy, PartialEq, Eq, Structural)]
pub enum PartKind {
    /// The leading separator of an absolute path.
    Root,
    /// A leading `.` of a relative path.
    Current,
    /// A `..`.
    Parent,
    /// Any other name.
    Name,
}

/// One part of a path. The name is empty unless the kind is `Name`.
#[derive(Debug, Clone)]
pub struct PathPart {
    pub kind: PartKind,
    pub name: Vec<u8>,
}

/// A part of a path, as a mathematical value.
#[verifier::ext_equal]
pub struct PartModel {
    pub kind: PartKind,
    pub name: Seq<u8>,
}

impl View for PathPart {
    type V = PartModel;

    open spec fn view(&self) -> PartModel {
        PartModel { kind: self.kind, name: self.name@ }
    }
}

/// The place of a kind in the order of kinds.
pub open spec fn kind_rank(kind: PartKind) -> int {
    match kind {
        PartKind::Root => 0,
        PartKind::Current => 1,
        PartKind::Parent => 2,
        PartKind::Name => 3,
    }
}

/// The bytes before the first separator.
pub open spec fn first_segment(bytes: Seq<u8>) -> Seq<u8>
    decreases bytes.len(),
{
    if bytes.len() == 0 || bytes[0] == SEPARATOR {
        Seq::empty()
    } else {
        seq![bytes[0]] + first_segment(bytes.skip(1))
    }
}

/// What a segment between two separators stands for inside a path: nothing,
/// when it is empty or `.`, and otherwise one part.
pub open spec fn segment_parts(segment: Seq<u8>) -> Seq<PartModel> {
    if segment.len() == 0 || segment == seq![DOT] {
        Seq::empty()
    } else if segment == seq![DOT, DOT] {
        seq![PartModel { kind: PartKind::Parent, name: Seq::empty() }]
    } else {
        seq![PartModel { kind: PartKind::Name, name: segment }]
    }
}

/// The parts of a path apart from its leading part.
pub open spec fn inner_parts(bytes: Seq<u8>) -> Seq<PartModel>
    decreases bytes.len(),
{
    let segment = first_segment(bytes);
    if segment.len() >= bytes.len() {
        segment_parts(segment)
    } else {
        segment_parts(segment) + inner_parts(bytes.skip(segment.len() as int + 1))
    }
}

/// The leading part of a path, which only an absolute path and a path that
/// starts with `.` have.
pub open spec fn leading_parts(bytes: Seq<u8>) -> Seq<PartModel> {
    if bytes.len() > 0 && bytes[0] == SEPARATOR {
        seq![PartModel { kind: PartKind::Root, name: Seq::empty() }]
    } else if first_segment(bytes) == seq![DOT] {
        seq![PartModel { kind: PartKind::Current, name: Seq::empty() }]
    } else {
        Seq::empty()
    }
}

/// All parts of a path, in order.
pub open spec fn path_parts(bytes: Seq<u8>) -> Seq<PartModel> {
    leading_parts(bytes) + inner_parts(bytes)
}

/// Whether `prefix` is the start of `parts`.
pub open spec fn parts_start_with(parts: Seq<PartModel>, prefix: Seq<PartModel>) -> bool {
    prefix.len() <= parts.len() && parts.take(prefix.len() as int) == prefix
}

/// Whether `left` comes before `right` in byte by byte order.
pub open spec fn bytes_before(left: Seq<u8>, right: Seq<u8>) -> bool
    decreases left.len(),
{
    if right.len() == 0 {
        false
    } else if left.len() == 0 {
        true
    } else if left[0] != right[0] {
        left[0] < right[0]
    } else {
        bytes_before(left.skip(1), right.skip(1))
    }
}

/// Whether `left` comes before `right`: by kind, then by name.
pub open spec fn part_before(left: PartModel, right: PartModel) -> bool {
    kind_rank(left.kind) < kind_rank(right.kind) || (left.kind == right.kind && bytes_before(
        left.name,
        right.name,
    ))
}

/// Whether `left` comes before `right`, part by part.
pub open spec fn parts_before(left: Seq<PartModel>, right: Seq<PartModel>) -> bool
    decreases left.len(),
{
    if right.len() == 0 {
        false
    } else if left.len() == 0 {
        true
    } else if left[0] != right[0] {
        part_before(left[0], right[0])
    } else {
        parts_before(left.skip(1), right.skip(1))
    }
}

/// The models of a list of parts.
pub open spec fn part_models(parts: Seq<PathPart>) -> Seq<PartModel> {
    parts.map_values(|part: PathPart| part@)
}

proof fn lemma_first_segment(bytes: Seq<u8>, end: int)
    requires
        0 <= end <= bytes.len(),
        forall|i: int| 0 <= i < end ==> bytes[i] != SEPARATOR,
        end == bytes.len() || bytes[end] == SEPARATOR,
    ensures
        first_segment(bytes) == bytes.take(end),
    decreases end,
{
    if end > 0 {
        let rest = bytes.skip(1);
        assert forall|i: int| 0 <= i < end - 1 implies rest[i] != SEPARATOR by {
            assert(rest[i] == bytes[i + 1]);
        }
        lemma_first_segment(rest, end - 1);
        assert(seq![bytes[0]] + rest.take(end - 1) =~= bytes.take(end));
    } else {
        assert(bytes.take(0) =~= Seq::empty());
    }
}

/// Where the segment that starts at `from` ends: at the next separator or at
/// the end of the path.
fn segment_end(bytes: &Vec<u8>, from: usize) -> (end: usize)
    requires
        from <= bytes@.len(),
    ensures
        from <= end <= bytes@.len(),
        first_segment(bytes@.skip(from as int)) == bytes@.subrange(from as int, end as int),
        end == bytes@.len() || bytes@[end as int] == SEPARATOR,
{
    let mut end: usize = from;
    while end < bytes.len() && bytes[end] != SEPARATOR
        invariant
            from <= end <= bytes@.len(),
            forall|i: int| from <= i < end ==> bytes@[i] != SEPARATOR,
        decreases bytes@.len() - end,
    {
        end = end + 1;
    }
    proof {
        let tail = bytes@.skip(from as int);
        assert forall|i: int| 0 <= i < end - from implies tail[i] != SEPARATOR by {
            assert(tail[i] == bytes@[from + i]);
        }
        lemma_first_segment(tail, end - from);
        assert(tail.take(end - from) =~= bytes@.subrange(from as int, end as int));
    }
    end
}

/// A file system path.
#[derive(Debug, Clone)]
pub struct OsPath {
    pub bytes: Vec<u8>,
}

impl View for OsPath {
    type V = Seq<u8>;

    open spec fn view(&self) -> Seq<u8> {
        self.bytes@
    }
}

impl OsPath {
    /// The path that the bytes of a text spell.
    pub fn from_text(text: &str) -> (r: OsPath)
        ensures
            r@ == vstd::utf8::encode_utf8(text@),
    {
        OsPath { bytes: vstd::slice::slice_to_vec(text.as_bytes()) }
    }

    /// The path that the given bytes spell.
    pub fn from_bytes(bytes: Vec<u8>) -> (r: OsPath)
        ensures
            r@ == bytes@,
    {
        OsPath { bytes }
    }

    /// An equal copy.
    pub fn duplicate(&self) -> (r: OsPath)
        ensures
            r@ == self@,
    {
        OsPath { bytes: vstd::slice::slice_to_vec(self.bytes.as_slice()) }
    }

    /// Whether the path has no bytes at all.
    pub fn is_empty(&self) -> (r: bool)
        ensures
            r == (self@.len() == 0),
    {
        self.bytes.len() == 0
    }

    /// The parts of the path, in order.
    pub fn parts(&self) -> (r: Vec<PathPart>)
        ensures
            part_models(r@) == path_parts(self@),
    {
        let bytes = &self.bytes;
        let mut parts: Vec<PathPart> = Vec::new();
        let first_end: usize = segment_end(bytes, 0);
        proof {
            assert(bytes@.skip(0) =~= bytes@);
        }
        if bytes.len() > 0 && bytes[0] == SEPARATOR {
            parts.push(PathPart { kind: PartKind::Root, name: Vec::new() });
        } else if first_end == 1 && bytes[0] == DOT {
            proof {
                assert(first_segment(bytes@) =~= seq![DOT]);
            }
            parts.push(PathPart { kind: PartKind::Current, name: Vec::new() });
        } else {
            proof {
                if first_segment(bytes@) == seq![DOT] {
                    assert(first_segment(bytes@).len() == 1);
                    assert(first_segment(bytes@)[0] == DOT);
                    assert(bytes@.subrange(0, first_end as int)[0] == bytes@[0]);
                }
            }
        }
        assert(part_models(parts@) =~= leading_parts(bytes@));

        let mut at: usize = 0;
        let mut more: bool = true;
        proof {
            assert(part_models(parts@) + inner_parts(bytes@.skip(0)) =~= path_parts(bytes@));
        }
        while more
            invariant
                at <= bytes@.len(),
                more ==> part_models(parts@) + inner_parts(bytes@.skip(at as int)) == path_parts(
                    bytes@,
                ),
                !more ==> part_models(parts@) == path_parts(bytes@),
            decreases bytes@.len() - at + (if more { 1int } else { 0int }),
        {
            let end: usize = segment_end(bytes, at);
            let ghost before = part_models(parts@);
            let ghost segment = bytes@.subrange(at as int, end as int);
            let ghost tail = bytes@.skip(at as int);
            let size: usize = end - at;
            if size == 0 || (size == 1 && bytes[at] == DOT) {
                proof {
                    if size == 1 {
                        assert(segment =~= seq![DOT]);
                    }
                    assert(before + segment_parts(segment) =~= part_models(parts@));
                }
            } else if size == 2 && bytes[at] == DOT && bytes[at + 1] == DOT {
                parts.push(PathPart { kind: PartKind::Parent, name: Vec::new() });
                proof {
                    assert(segment =~= seq![DOT, DOT]);
                    assert(before + segment_parts(segment) =~= part_models(parts@));
                }
            } else {
                let name: Vec<u8> = vstd::slice::slice_to_vec(
                    vstd::slice::slice_subrange(bytes.as_slice(), at, end),
                );
                proof {
                    assert(name@ =~= segment);
                    if segment == seq![DOT] {
                        assert(segment.len() == 1 && segment[0] == DOT);
                    }
                    if segment == seq![DOT, DOT] {
                        assert(segment.len() == 2 && segment[0] == DOT && segment[1] == DOT);
                    }
                }
                parts.push(PathPart { kind: PartKind::Name, name });
                proof {
                    assert(before + segment_parts(segment) =~= part_models(parts@));
                }
            }
            if end < bytes.len() {
                proof {
                    assert(tail.skip(segment.len() as int + 1) =~= bytes@.skip(end as int + 1));
                    assert(before + (segment_parts(segment) + inner_parts(
                        bytes@.skip(end as int + 1),
                    )) =~= part_models(parts@) + inner_parts(bytes@.skip(end as int + 1)));
                }
                at = end + 1;
            } else {
                proof {
                    assert(inner_parts(tail) == segment_parts(segment));
                }
                more = false;
            }
        }
        parts
    }
}

/// Whether two byte strings are equal.
pub fn same_bytes(left: &[u8], right: &[u8]) -> (r: bool)
    ensures
        r == (left@ == right@),
{
    if left.len() != right.len() {
        return false;
    }
    let mut i: usize = 0;
    while i < left.len()
        invariant
            i <= left@.len(),
            left@.len() == right@.len(),
            forall|k: int| 0 <= k < i ==> left@[k] == right@[k],
        decreases left@.len() - i,
    {
        if left[i] != right[i] {
            return false;
        }
        i = i + 1;
    }
    proof {
        assert(left@ =~= right@);
    }
    true
}

/// Whether `left` comes before `right` in byte by byte order.
pub fn bytes_come_before(left: &[u8], right: &[u8]) -> (r: bool)
    ensures
        r == bytes_before(left@, right@),
{
    let mut i: usize = 0;
    proof {
        assert(left@.skip(0) =~= left@);
        assert(right@.skip(0) =~= right@);
    }
    while i < left.len() && i < right.len() && left[i] == right[i]
        invariant
            i <= left@.len(),
            i <= right@.len(),
            bytes_before(left@, right@) == bytes_before(left@.skip(i as int), right@.skip(i as int)),
        decreases left@.len() - i,
    {
        proof {
            assert(left@.skip(i as int).skip(1) =~= left@.skip(i as int + 1));
            assert(right@.skip(i as int).skip(1) =~= right@.skip(i as int + 1));
        }
        i = i + 1;
    }
    if i >= right.len() {
        false
    } else if i >= left.len() {
        true
    } else {
        left[i] < right[i]
    }
}

impl PathPart {
    /// Whether two parts are equal.
    pub fn same_as(&self, other: &PathPart) -> (r: bool)
        ensures
            r == (self@ == other@),
    {
        self.kind == other.kind && same_bytes(&self.name, &other.name)
    }

    /// Whether this part comes before the other one.
    pub fn comes_before(&self, other: &PathPart) -> (r: bool)
        ensures
            r == part_before(self@, other@),
    {
        let left: u8 = kind_number(self.kind);
        let right: u8 = kind_number(other.kind);
        left < right || (left == right && bytes_come_before(&self.name, &other.name))
    }
}

/// The place of a kind in the order of kinds.
fn kind_number(kind: PartKind) -> (r: u8)
    ensures
        r == kind_rank(kind),
{
    match kind {
        PartKind::Root => 0,
        PartKind::Current => 1,
        PartKind::Parent => 2,
        PartKind::Name => 3,
    }
}

/// How many parts two paths have in common at their start.
fn common_parts(left: &Vec<PathPart>, right: &Vec<PathPart>) -> (n: usize)
    ensures
        n <= left@.len(),
        n <= right@.len(),
        part_models(left@).take(n as int) == part_models(right@).take(n as int),
        n < left@.len() && n < right@.len() ==> left@[n as int]@ != right@[n as int]@,
{
    let mut n: usize = 0;
    proof {
        assert(part_models(left@).take(0) =~= part_models(right@).take(0));
    }
    while n < left.len() && n < right.len() && left[n].same_as(&right[n])
        invariant
            n <= left@.len(),
            n <= right@.len(),
            part_models(left@).take(n as int) == part_models(right@).take(n as int),
        decreases left@.len() - n,
    {
        proof {
            let l = part_models(left@);
            let r = part_models(right@);
            assert(l.take(n as int + 1) =~= l.take(n as int).push(l[n as int]));
            assert(r.take(n as int + 1) =~= r.take(n as int).push(r[n as int]));
        }
        n = n + 1;
    }
    n
}

proof fn lemma_parts_before_common(left: Seq<PartModel>, right: Seq<PartModel>, n: int)
    requires
        0 <= n <= left.len(),
        n <= right.len(),
        left.take(n) == right.take(n),
    ensures
        parts_before(left, right) == parts_before(left.skip(n), right.skip(n)),
    decreases n,
{
    if n == 0 {
        assert(left.skip(0) =~= left);
        assert(right.skip(0) =~= right);
    } else {
        assert(left[0] == left.take(n)[0]);
        assert(right[0] == right.take(n)[0]);
        let l = left.skip(1);
        let r = right.skip(1);
        assert(l.take(n - 1) =~= left.take(n).skip(1));
        assert(r.take(n - 1) =~= right.take(n).skip(1));
        lemma_parts_before_common(l, r, n - 1);
        assert(l.skip(n - 1) =~= left.skip(n));
        assert(r.skip(n - 1) =~= right.skip(n));
    }
}

impl OsPath {
    /// Whether both paths have the same parts.
    pub fn same_as(&self, other: &OsPath) -> (r: bool)
        ensures
            r == (path_parts(self@) == path_parts(other@)),
    {
        let left: Vec<PathPart> = self.parts();
        let right: Vec<PathPart> = other.parts();
        let n: usize = common_parts(&left, &right);
        proof {
            let l = part_models(left@);
            let r = part_models(right@);
            assert(l.take(l.len() as int) =~= l);
            assert(r.take(r.len() as int) =~= r);
            if l == r && n < left@.len() {
                assert(l[n as int] == r[n as int]);
            }
        }
        left.len() == right.len() && n == left.len()
    }

    /// Whether the parts of `prefix` are the first parts of this path.
    pub fn starts_with(&self, prefix: &OsPath) -> (r: bool)
        ensures
            r == parts_start_with(path_parts(self@), path_parts(prefix@)),
    {
        let parts: Vec<PathPart> = self.parts();
        let start: Vec<PathPart> = prefix.parts();
        let n: usize = common_parts(&parts, &start);
        proof {
            let p = part_models(parts@);
            let s = part_models(start@);
            assert(s.take(s.len() as int) =~= s);
            if s.len() <= p.len() && p.take(s.len() as int) == s && n < s.len() {
                assert(p.take(s.len() as int)[n as int] == p[n as int]);
                assert(s[n as int] == p[n as int]);
            }
        }
        n == start.len()
    }

    /// Whether this path comes before the other one, part by part.
    pub fn comes_before(&self, other: &OsPath) -> (r: bool)
        ensures
            r == parts_before(path_parts(self@), path_parts(other@)),
    {
        let left: Vec<PathPart> = self.parts();
        let right: Vec<PathPart> = other.parts();
        let n: usize = common_parts(&left, &right);
        proof {
            let l = part_models(left@);
            let r = part_models(right@);
            lemma_parts_before_common(l, r, n as int);
        }
        if n >= right.len() {
            false
        } else if n >= left.len() {
            true
        } else {
            left[n].comes_before(&right[n])
        }
    }

    /// Whether some directory holds this path: true of every path but the
    /// empty one and the root.
    pub fn has_parent(&self) -> (r: bool)
        ensures
            r == path_has_parent(self@),
    {
        let parts: Vec<PathPart> = self.parts();
        proof {
            assert(part_models(parts@).len() == parts@.len());
            if parts@.len() > 0 {
                assert(part_models(parts@)[parts@.len() - 1] == parts@[parts@.len() - 1]@);
            }
        }
        parts.len() > 0 && parts[parts.len() - 1].kind != PartKind::Root
    }
}

/// Whether some directory holds the path: its last part is there and is not
/// the root.
pub open spec fn path_has_parent(bytes: Seq<u8>) -> bool {
    path_parts(bytes).len() > 0 && path_parts(bytes).last().kind != PartKind::Root
}

impl PartialEq for OsPath {
    fn eq(&self, other: &OsPath) -> (r: bool) {
        self.same_as(other)
    }
}

impl Eq for OsPath {

}

impl vstd::std_specs::cmp::PartialEqSpecImpl for OsPath {
    open spec fn obeys_eq_spec() -> bool {
        true
    }

    open spec fn eq_spec(&self, other: &OsPath) -> bool {
        path_parts(self@) == path_parts(other@)
    }
}

// ---------------------------------------------------------------------
// Laws of paths.

/// Nothing comes before itself.
pub proof fn law_bytes_before_irreflexive(a: Seq<u8>)
    ensures
        !bytes_before(a, a),
    decreases a.len(),
{
    if a.len() > 0 {
        law_bytes_before_irreflexive(a.skip(1));
    }
}

/// Of two different byte strings exactly one comes before the other.
pub proof fn law_bytes_before_total(a: Seq<u8>, b: Seq<u8>)
    ensures
        a != b ==> bytes_before(a, b) != bytes_before(b, a),
        bytes_before(a, b) ==> !bytes_before(b, a),
    decreases a.len(),
{
    if a.len() == 0 || b.len() == 0 {
        if a.len() == 0 && b.len() == 0 {
            assert(a =~= b);
        }
    } else if a[0] == b[0] {
        law_bytes_before_total(a.skip(1), b.skip(1));
        if a.skip(1) == b.skip(1) {
            assert(a =~= seq![a[0]] + a.skip(1));
            assert(b =~= seq![b[0]] + b.skip(1));
        }
    }
}

/// The order of byte strings is transitive.
pub proof fn law_bytes_before_transitive(a: Seq<u8>, b: Seq<u8>, c: Seq<u8>)
    requires
        bytes_before(a, b),
        bytes_before(b, c),
    ensures
        bytes_before(a, c),
    decreases a.len(),
{
    if a.len() > 0 && a[0] == b[0] && b[0] == c[0] {
        law_bytes_before_transitive(a.skip(1), b.skip(1), c.skip(1));
    }
}

proof fn lemma_part_before_total(a: PartModel, b: PartModel)
    ensures
        a != b ==> part_before(a, b) != part_before(b, a),
        part_before(a, b) ==> !part_before(b, a),
        !part_before(a, a),
{
    law_bytes_before_total(a.name, b.name);
    law_bytes_before_irreflexive(a.name);
}

proof fn lemma_part_before_transitive(a: PartModel, b: PartModel, c: PartModel)
    requires
        part_before(a, b),
        part_before(b, c),
    ensures
        part_before(a, c),
{
    if a.kind == b.kind && b.kind == c.kind {
        law_bytes_before_transitive(a.name, b.name, c.name);
    }
}

/// Of two paths with different parts exactly one comes before the other, and
/// no path comes before one with the same parts.
pub proof fn law_paths_before_total(a: Seq<PartModel>, b: Seq<PartModel>)
    ensures
        a != b ==> parts_before(a, b) != parts_before(b, a),
        a == b ==> !parts_before(a, b),
        parts_before(a, b) ==> !parts_before(b, a),
    decreases a.len(),
{
    if a.len() == 0 || b.len() == 0 {
        if a.len() == 0 && b.len() == 0 {
            assert(a =~= b);
        }
    } else if a[0] == b[0] {
        law_paths_before_total(a.skip(1), b.skip(1));
        if a.skip(1) == b.skip(1) {
            assert(a =~= seq![a[0]] + a.skip(1));
            assert(b =~= seq![b[0]] + b.skip(1));
        }
    } else {
        lemma_part_before_total(a[0], b[0]);
    }
}

/// The order of paths is transitive.
pub proof fn law_paths_before_transitive(
    a: Seq<PartModel>,
    b: Seq<PartModel>,
    c: Seq<PartModel>,
)
    requires
        parts_before(a, b),
        parts_before(b, c),
    ensures
        parts_before(a, c),
    decreases a.len(),
{
    if a.len() > 0 {
        if a[0] == b[0] && b[0] == c[0] {
            law_paths_before_transitive(a.skip(1), b.skip(1), c.skip(1));
        } else if a[0] != b[0] && b[0] != c[0] {
            lemma_part_before_transitive(a[0], b[0], c[0]);
            lemma_part_before_total(a[0], c[0]);
        }
    }
}

/// A path with any bytes in it has at least one part.
pub proof fn law_nonempty_path_has_a_part(bytes: Seq<u8>)
    requires
        bytes.len() > 0,
    ensures
        path_parts(bytes).len() > 0,
{
    if bytes[0] != SEPARATOR {
        let segment = first_segment(bytes);
        assert(segment.len() > 0);
    }
}

/// What one segment of a path stands for, where it is not the first: nothing where it
/// is empty or a dot, the parent where it is two dots, and else a name.
pub open spec fn parts_of_segment(segment: Seq<u8>) -> Seq<PartModel> {
    if segment.len() == 0 || segment == seq![46u8] {
        Seq::empty()
    } else if segment == seq![46u8, 46u8] {
        seq![PartModel { kind: PartKind::Parent, name: Seq::empty() }]
    } else {
        seq![PartModel { kind: PartKind::Name, name: segment }]
    }
}

/// A path is read segment by segment. One more segment behind a separator adds what it
/// stands for; a path that begins with a separator begins at the root; and a single
/// segment stands for itself, a dot for the current directory.
pub proof fn law_paths_are_read_segment_by_segment(path: Seq<u8>, segment: Seq<u8>)
    requires
        !segment.contains(47),
    ensures
        path.len() > 0 ==> path_parts(path + seq![47u8] + segment) == path_parts(path)
            + parts_of_segment(segment),
        path_parts(seq![47u8] + segment) == seq![
            PartModel { kind: PartKind::Root, name: Seq::empty() },
        ] + parts_of_segment(segment),
        path_parts(segment) == if segment == seq![46u8] {
            seq![PartModel { kind: PartKind::Current, name: Seq::empty() }]
        } else {
            parts_of_segment(segment)
        },
{
    let slash = seq![47u8];
    let none = Seq::<u8>::empty();
    lemma_one_segment(segment);
    lemma_inner_parts_join(none, segment);
    assert(none + slash + segment =~= slash + segment);
    assert(first_segment(none) =~= none);
    assert(inner_parts(none) =~= Seq::empty());
    assert(inner_parts(slash + segment) =~= parts_of_segment(segment));
    if path.len() > 0 {
        let longer = path + slash + segment;
        lemma_inner_parts_join(path, segment);
        lemma_same_first_segment(path, segment);
        assert(longer[0] == path[0]);
        assert(path_parts(longer) =~= path_parts(path) + parts_of_segment(segment));
    }
    if segment.len() > 0 {
        assert(segment.contains(segment[0]));
    }
    if segment == seq![46u8] {
        assert(path_parts(segment) =~= seq![
            PartModel { kind: PartKind::Current, name: Seq::empty() },
        ]);
    } else {
        assert(path_parts(segment) =~= parts_of_segment(segment));
    }
}

proof fn lemma_one_segment(segment: Seq<u8>)
    requires
        !segment.contains(47),
    ensures
        first_segment(segment) == segment,
        inner_parts(segment) == parts_of_segment(segment),
    decreases segment.len(),
{
    if segment.len() > 0 {
        assert(segment.contains(segment[0]));
        let rest = segment.skip(1);
        assert forall|byte: u8| rest.contains(byte) implies segment.contains(byte) by {
            let k = choose|k: int| 0 <= k < rest.len() && rest[k] == byte;
            assert(segment[k + 1] == byte);
        }
        lemma_one_segment(rest);
        assert(seq![segment[0]] + rest =~= segment);
    } else {
        assert(segment =~= Seq::empty());
    }
}

/// What is behind a separator does not belong to the first segment.
proof fn lemma_same_first_segment(path: Seq<u8>, segment: Seq<u8>)
    ensures
        first_segment(path + seq![47u8] + segment) == first_segment(path),
        first_segment(path).len() <= path.len(),
        first_segment(path).len() < path.len() ==> path[first_segment(path).len() as int] == 47,
    decreases path.len(),
{
    let longer = path + seq![47u8] + segment;
    if path.len() > 0 && path[0] != 47 {
        assert(longer.skip(1) =~= path.skip(1) + seq![47u8] + segment);
        lemma_same_first_segment(path.skip(1), segment);
    }
}

proof fn lemma_inner_parts_join(path: Seq<u8>, segment: Seq<u8>)
    requires
        !segment.contains(47),
    ensures
        inner_parts(path + seq![47u8] + segment) == inner_parts(path) + parts_of_segment(segment),
    decreases path.len(),
{
    let longer = path + seq![47u8] + segment;
    let first = first_segment(path);
    lemma_same_first_segment(path, segment);
    lemma_one_segment(segment);
    if first.len() >= path.len() {
        assert(longer.skip(first.len() as int + 1) =~= segment);
    } else {
        let rest = path.skip(first.len() as int + 1);
        assert(longer.skip(first.len() as int + 1) =~= rest + seq![47u8] + segment);
        lemma_inner_parts_join(rest, segment);
        assert(segment_parts(first) + (inner_parts(rest) + parts_of_segment(segment))
            =~= segment_parts(first) + inner_parts(rest) + parts_of_segment(segment));
    }
}

/// Byte strings are compared at the first byte in which they differ; what ends before
/// that comes first.
pub proof fn law_bytes_are_compared_where_they_differ(
    common: Seq<u8>,
    left: Seq<u8>,
    right: Seq<u8>,
)
    ensures
        left.len() > 0 && right.len() > 0 && left[0] != right[0] ==> (bytes_before(
            common + left,
            common + right,
        ) <==> left[0] < right[0]),
        bytes_before(common, common + right) <==> right.len() > 0,
        !bytes_before(common + left, common),
    decreases common.len(),
{
    if common.len() > 0 {
        assert((common + left).skip(1) =~= common.skip(1) + left);
        assert((common + right).skip(1) =~= common.skip(1) + right);
        law_bytes_are_compared_where_they_differ(common.skip(1), left, right);
    } else {
        assert(common + left =~= left);
        assert(common + right =~= right);
    }
}

/// Paths are compared at the first part in which they differ; a path comes before what
/// lies below it. The root comes first, then the current directory, then the parent,
/// and names come last, byte by byte.
pub proof fn law_paths_are_compared_where_they_differ(
    common: Seq<PartModel>,
    left: Seq<PartModel>,
    right: Seq<PartModel>,
)
    ensures
        left.len() > 0 && right.len() > 0 && left[0] != right[0] ==> (parts_before(
            common + left,
            common + right,
        ) <==> part_before(left[0], right[0])),
        parts_before(common, common + right) <==> right.len() > 0,
        !parts_before(common + left, common),
        left.len() > 0 && right.len() > 0 && left[0].kind == right[0].kind ==> (part_before(
            left[0],
            right[0],
        ) <==> bytes_before(left[0].name, right[0].name)),
        left.len() > 0 && right.len() > 0 && left[0].kind != right[0].kind ==> (part_before(
            left[0],
            right[0],
        ) <==> left[0].kind == PartKind::Root || right[0].kind == PartKind::Name || (
        left[0].kind == PartKind::Current && right[0].kind == PartKind::Parent)),
    decreases common.len(),
{
    if common.len() > 0 {
        assert((common + left).skip(1) =~= common.skip(1) + left);
        assert((common + right).skip(1) =~= common.skip(1) + right);
        law_paths_are_compared_where_they_differ(common.skip(1), left, right);
    } else {
        assert(common + left =~= left);
        assert(common + right =~= right);
    }
}

/// A path lies below another, or is it, if and only if it is that one with further
/// parts behind it, of which there may be none.
pub proof fn law_what_lies_below_has_further_parts(
    parts: Seq<PartModel>,
    prefix: Seq<PartModel>,
)
    ensures
        parts_start_with(parts, prefix) <==> exists|rest: Seq<PartModel>|
            parts == #[trigger] (prefix + rest),
{
    if parts_start_with(parts, prefix) {
        let rest = parts.skip(prefix.len() as int);
        assert(parts =~= prefix + rest);
    }
    if exists|rest: Seq<PartModel>| parts == #[trigger] (prefix + rest) {
        let rest = choose|rest: Seq<PartModel>| parts == #[trigger] (prefix + rest);
        assert(parts.take(prefix.len() as int) =~= prefix);
    }
}

/// Something holds a path unless it is empty or ends at the root.
pub proof fn law_paths_have_parents_below_the_root(bytes: Seq<u8>)
    ensures
        ({
            let parts = path_parts(bytes);
            path_has_parent(bytes) <==> parts.len() > 0 && parts[parts.len() - 1].kind
                != PartKind::Root
        }),
{
}

} // verus!

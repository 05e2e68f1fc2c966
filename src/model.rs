use vstd::prelude::*;

verus! {

/// One-byte whitespace: tab, line feed, vertical tab, form feed, carriage
/// return and space.
pub open spec fn is_space(c: u8) -> bool {
    c == 32 || (9 <= c && c <= 13)
}

/// The UTF-8 forms of the three-byte whitespace characters: U+1680,
/// U+2000 to U+200A, U+2028, U+2029, U+202F, U+205F and U+3000.
pub open spec fn is_wide_space(a: u8, b: u8, c: u8) -> bool {
    ||| (a == 0xE1 && b == 0x9A && c == 0x80)
    ||| (a == 0xE2 && b == 0x80 && ((0x80 <= c && c <= 0x8A) || c == 0xA8 || c == 0xA9 || c == 0xAF))
    ||| (a == 0xE2 && b == 0x81 && c == 0x9F)
    ||| (a == 0xE3 && b == 0x80 && c == 0x80)
}

/// Length in bytes of the whitespace character that starts at index `i` of
/// UTF-8 text `s`, or 0 where none does. Whitespace is every character with
/// Unicode's White_Space property: the one-byte ones, U+0085 and U+00A0 (two
/// bytes), and the three-byte ones.
pub open spec fn space_len(s: Seq<u8>, i: int) -> int {
    if is_space(s[i]) {
        1
    } else if s[i] == 0xC2 && i + 1 < s.len() && (s[i + 1] == 0x85 || s[i + 1] == 0xA0) {
        2
    } else if i + 2 < s.len() && is_wide_space(s[i], s[i + 1], s[i + 2]) {
        3
    } else {
        0
    }
}

/// Length of the separator at index `i`: a line feed when splitting into
/// lines, else a whitespace character.
pub open spec fn sep_len(s: Seq<u8>, i: int, by_line: bool) -> int {
    if by_line {
        if s[i] == 10 {
            1
        } else {
            0
        }
    } else {
        space_len(s, i)
    }
}

/// Splits `s` from index `i` on, with `cur` the part of the current piece read
/// so far, at every separator. Lines keep empty pieces; fields do not. The
/// last piece is kept only when it is not empty.
pub open spec fn split_from(s: Seq<u8>, i: int, cur: Seq<u8>, by_line: bool) -> Seq<Seq<u8>>
    decreases s.len() - i,
{
    if i >= s.len() || i < 0 {
        if cur.len() > 0 {
            seq![cur]
        } else {
            seq![]
        }
    } else if sep_len(s, i, by_line) > 0 {
        (if by_line || cur.len() > 0 {
            seq![cur]
        } else {
            seq![]
        }) + split_from(s, i + sep_len(s, i, by_line), seq![], by_line)
    } else {
        split_from(s, i + 1, cur.push(s[i]), by_line)
    }
}

/// The lines of a text: pieces between line feeds, with no empty piece after
/// a final line feed.
pub open spec fn text_lines(s: Seq<u8>) -> Seq<Seq<u8>> {
    split_from(s, 0, seq![], true)
}

/// Index of the first `#` in a line from `i` on, or the line's length.
pub open spec fn comment_start(s: Seq<u8>, i: int) -> int
    decreases s.len() - i,
{
    if i >= s.len() {
        s.len() as int
    } else if s[i] == 35 {
        i
    } else {
        comment_start(s, i + 1)
    }
}

/// The fields of a line: what precedes its comment, split at whitespace.
pub open spec fn line_fields(s: Seq<u8>) -> Seq<Seq<u8>> {
    split_from(s.subrange(0, comment_start(s, 0)), 0, seq![], false)
}

/// The contents of a sequence of byte vectors.
pub open spec fn views(v: Seq<Vec<u8>>) -> Seq<Seq<u8>> {
    v.map_values(|t: Vec<u8>| t@)
}

/// Length of the separator at index `i` of the first `end` bytes of `s`.
fn sep_len_at(s: &[u8], i: usize, end: usize, by_line: bool) -> (r: usize)
    requires
        i < end <= s@.len(),
    ensures
        r == sep_len(s@.subrange(0, end as int), i as int, by_line),
        r <= end - i,
{
    let ghost t = s@.subrange(0, end as int);
    let c = s[i];
    assert(t[i as int] == c);
    if by_line {
        return if c == 10 { 1 } else { 0 };
    }
    if c == 32 || (9 <= c && c <= 13) {
        return 1;
    }
    if c == 0xC2 && i + 1 < end {
        let d = s[i + 1];
        assert(t[i + 1] == d);
        if d == 0x85 || d == 0xA0 {
            return 2;
        }
    }
    if end - i > 2 {
        let b = s[i + 1];
        let e = s[i + 2];
        assert(t[i + 1] == b && t[i + 2] == e);
        if (c == 0xE1 && b == 0x9A && e == 0x80) || (c == 0xE2 && b == 0x80 && ((0x80 <= e && e <= 0x8A) || e == 0xA8 || e == 0xA9 || e == 0xAF)) || (c == 0xE2 && b == 0x81 && e == 0x9F) || (c == 0xE3 && b == 0x80 && e == 0x80) {
            return 3;
        }
    }
    0
}

/// Splits the first `cut_at` bytes of `s` into lines (`by_line`) or into
/// whitespace-separated fields.
fn split_bytes(s: &[u8], cut_at: usize, by_line: bool) -> (r: Vec<Vec<u8>>)
    requires
        cut_at <= s@.len(),
    ensures
        views(r@) == split_from(s@.subrange(0, cut_at as int), 0, seq![], by_line),
{
    let ghost t = s@.subrange(0, cut_at as int);
    let mut out: Vec<Vec<u8>> = Vec::new();
    let mut cur: Vec<u8> = Vec::new();
    let mut i: usize = 0;
    while i < cut_at
        invariant
            i <= cut_at <= s@.len(),
            t == s@.subrange(0, cut_at as int),
            views(out@) + split_from(t, i as int, cur@, by_line) == split_from(t, 0, seq![], by_line),
        decreases cut_at - i,
    {
        let n = sep_len_at(s, i, cut_at, by_line);
        if n > 0 {
            if by_line || cur.len() > 0 {
                let ghost before = out@;
                out.push(cur);
                assert(views(out@) == views(before).push(cur@));
            }
            cur = Vec::new();
            i = i + n;
        } else {
            let c = s[i];
            assert(t[i as int] == c);
            cur.push(c);
            i = i + 1;
        }
    }
    if cur.len() > 0 {
        let ghost before = out@;
        out.push(cur);
        assert(views(out@) == views(before).push(cur@));
    }
    proof {
        assert(views(out@) == split_from(t, 0, seq![], by_line));
    }
    out
}

/// Splits a text into its lines.
pub fn split_lines(text: &[u8]) -> (r: Vec<Vec<u8>>)
    ensures
        views(r@) == text_lines(text@),
{
    let r = split_bytes(text, text.len(), true);
    assert(text@.subrange(0, text@.len() as int) == text@);
    r
}

/// The fields of a line, up to its first `#`, separated by Unicode
/// whitespace in UTF-8 form (see `space_len`).
pub fn split_fields(line: &[u8]) -> (r: Vec<Vec<u8>>)
    ensures
        views(r@) == line_fields(line@),
{
    let mut end: usize = 0;
    while end < line.len() && line[end] != 35
        invariant
            end <= line@.len(),
            comment_start(line@, 0) == comment_start(line@, end as int),
        decreases line@.len() - end,
    {
        end = end + 1;
    }
    split_bytes(line, end, false)
}

pub open spec fn is_digit(c: u8) -> bool {
    48 <= c <= 57
}

/// Value of a string of decimal digits.
pub open spec fn digits_value(s: Seq<u8>) -> int
    decreases s.len(),
{
    if s.len() == 0 {
        0
    } else {
        digits_value(s.drop_last()) * 10 + (s.last() - 48)
    }
}

/// The digits of a reference: the text after an optional leading `+`.
pub open spec fn reference_digits(s: Seq<u8>) -> Seq<u8> {
    if s.len() > 0 && s[0] == 43 {
        s.subrange(1, s.len() as int)
    } else {
        s
    }
}

/// A reference reads as an unsigned machine integer: an optional `+`, then
/// one digit or more, of a value that fits in `usize`.
pub open spec fn reference_ok(s: Seq<u8>) -> bool {
    let d = reference_digits(s);
    &&& d.len() > 0
    &&& forall|i: int| 0 <= i < d.len() ==> is_digit(#[trigger] d[i])
    &&& digits_value(d) <= usize::MAX
}

pub open spec fn reference_value(s: Seq<u8>) -> int {
    digits_value(reference_digits(s))
}

proof fn lemma_digits_grow(d: Seq<u8>, k: int, m: int)
    requires
        0 <= k <= m <= d.len(),
        forall|i: int| 0 <= i < d.len() ==> is_digit(#[trigger] d[i]),
    ensures
        digits_value(d.subrange(0, k)) <= digits_value(d.subrange(0, m)),
    decreases m - k,
{
    if k < m {
        lemma_digits_grow(d, k, m - 1);
        assert(d.subrange(0, m).drop_last() == d.subrange(0, m - 1));
        assert(is_digit(d[m - 1]));
        assert(digits_value(d.subrange(0, m - 1)) >= 0) by {
            lemma_digits_nonneg(d.subrange(0, m - 1));
        }
    }
}

proof fn lemma_digits_nonneg(d: Seq<u8>)
    requires
        forall|i: int| 0 <= i < d.len() ==> is_digit(#[trigger] d[i]),
    ensures
        digits_value(d) >= 0,
    decreases d.len(),
{
    if d.len() > 0 {
        lemma_digits_nonneg(d.drop_last());
    }
}

/// Reads a vertex reference: `Some` of its value exactly when it reads as an
/// unsigned machine integer.
pub fn parse_reference(s: &[u8]) -> (r: Option<usize>)
    ensures
        r == (if reference_ok(s@) {
            Some(reference_value(s@) as usize)
        } else {
            None::<usize>
        }),
{
    let start: usize = if s.len() > 0 && s[0] == 43 { 1 } else { 0 };
    let ghost d = reference_digits(s@);
    assert(d == s@.subrange(start as int, s@.len() as int));
    if start >= s.len() {
        return None;
    }
    let mut v: usize = 0;
    let mut i: usize = start;
    while i < s.len()
        invariant
            start <= i <= s@.len(),
            start < s@.len(),
            d == reference_digits(s@),
            d == s@.subrange(start as int, s@.len() as int),
            forall|j: int| 0 <= j < i - start ==> is_digit(#[trigger] d[j]),
            v == digits_value(d.subrange(0, i - start)),
        decreases s@.len() - i,
    {
        let c = s[i];
        assert(d[i - start] == c);
        if c < 48 || c > 57 {
            assert(!is_digit(d[i - start]));
            return None;
        }
        let ghost k = i - start;
        assert(d.subrange(0, k + 1).drop_last() == d.subrange(0, k));
        assert(d.subrange(0, k + 1).last() == c);
        assert(digits_value(d.subrange(0, k + 1)) == v * 10 + (c - 48));
        if v > (usize::MAX - (c - 48) as usize) / 10 {
            proof {
                assert(v * 10 + (c - 48) > usize::MAX) by (nonlinear_arith)
                    requires
                        v > (usize::MAX - (c - 48) as usize) / 10,
                        0 <= c - 48 <= 9,
                ;
                if forall|j: int| 0 <= j < d.len() ==> is_digit(#[trigger] d[j]) {
                    lemma_digits_grow(d, k + 1, d.len() as int);
                    assert(d.subrange(0, d.len() as int) == d);
                }
            }
            return None;
        }
        assert(v * 10 + (c - 48) <= usize::MAX) by (nonlinear_arith)
            requires
                v <= (usize::MAX - (c - 48) as usize) / 10,
                0 <= c - 48 <= 9,
        ;
        v = v * 10 + (c - 48) as usize;
        i = i + 1;
    }
    assert(d.subrange(0, d.len() as int) == d);
    Some(v)
}

/// A vertex record's three coordinates, as the fields that follow its marker.
#[derive(Clone, Debug)]
pub struct Vertex {
    pub x: Vec<u8>,
    pub y: Vec<u8>,
    pub z: Vec<u8>,
}

/// A face record that was skipped, with its line number counted from 1.
#[derive(Clone, Copy, Debug, PartialEq, Eq, Structural)]
pub enum FaceWarning {
    /// A vertex reference does not read as an unsigned integer.
    BadReference(usize),
    /// A vertex reference is 0 or past the vertices declared so far.
    OutOfRange(usize),
}

/// Why a model could not be loaded, with the line number counted from 1.
#[derive(Clone, Copy, Debug, PartialEq, Eq, Structural)]
pub enum LoadError {
    /// A vertex record with fewer than three coordinates.
    ShortVertex(usize),
}

/// A wireframe mesh: vertices in declaration order, undirected edges as
/// pairs of vertex indices, and the face records that were skipped.
#[derive(Debug)]
pub struct Mesh {
    pub vertices: Vec<Vertex>,
    pub edges: Vec<(usize, usize)>,
    pub warnings: Vec<FaceWarning>,
}

pub struct MeshView {
    pub vertices: Seq<(Seq<u8>, Seq<u8>, Seq<u8>)>,
    pub edges: Seq<(usize, usize)>,
    pub warnings: Seq<FaceWarning>,
}

impl View for Mesh {
    type V = MeshView;

    open spec fn view(&self) -> MeshView {
        MeshView {
            vertices: self.vertices@.map_values(|v: Vertex| (v.x@, v.y@, v.z@)),
            edges: self.edges@,
            warnings: self.warnings@,
        }
    }
}

/// The edge between `a` and `b` is present, in either direction.
pub open spec fn has_edge(es: Seq<(usize, usize)>, a: usize, b: usize) -> bool {
    es.contains((a, b)) || es.contains((b, a))
}

/// `es` with the edge from `a` to `b` appended, unless it is present already.
pub open spec fn with_edge(es: Seq<(usize, usize)>, a: usize, b: usize) -> Seq<(usize, usize)> {
    if has_edge(es, a, b) {
        es
    } else {
        es.push((a, b))
    }
}

/// `es` with the edges of the first `k` sides of a face added, side `i`
/// running from `face[i]` to the next reference, the last back to the first.
pub open spec fn with_face(es: Seq<(usize, usize)>, face: Seq<usize>, k: nat) -> Seq<(usize, usize)>
    decreases k,
{
    if k == 0 || face.len() == 0 {
        es
    } else {
        let prev = with_face(es, face, (k - 1) as nat);
        with_edge(prev, face[k - 1], face[(k as int) % (face.len() as int)])
    }
}

/// Every edge joins two of `n` vertices, and no edge is stored twice, in
/// either direction.
pub open spec fn edges_wf(es: Seq<(usize, usize)>, n: nat) -> bool {
    &&& forall|i: int| 0 <= i < es.len() ==> (#[trigger] es[i]).0 < n && es[i].1 < n
    &&& forall|i: int, j: int|
        0 <= i < j < es.len() ==> #[trigger] es[i] != #[trigger] es[j] && es[i] != (es[j].1, es[j].0)
}

impl MeshView {
    pub open spec fn wf(self) -> bool {
        edges_wf(self.edges, self.vertices.len())
    }
}

proof fn lemma_with_edge_wf(es: Seq<(usize, usize)>, n: nat, a: usize, b: usize)
    requires
        edges_wf(es, n),
        a < n,
        b < n,
    ensures
        edges_wf(with_edge(es, a, b), n),
{
    if !has_edge(es, a, b) {
        let t = es.push((a, b));
        assert forall|i: int, j: int| 0 <= i < j < t.len() implies #[trigger] t[i] != #[trigger] t[j] && t[i] != (t[j].1, t[j].0) by {
            if j == es.len() {
                assert(es.contains(t[i]));
            }
        }
    }
}

proof fn lemma_with_face_wf(es: Seq<(usize, usize)>, n: nat, face: Seq<usize>, k: nat)
    requires
        edges_wf(es, n),
        k <= face.len(),
        forall|i: int| 0 <= i < face.len() ==> #[trigger] face[i] < n,
    ensures
        edges_wf(with_face(es, face, k), n),
    decreases k,
{
    if k > 0 {
        lemma_with_face_wf(es, n, face, (k - 1) as nat);
        lemma_with_edge_wf(with_face(es, face, (k - 1) as nat), n, face[k - 1], face[(k as int) % (face.len() as int)]);
    }
}

/// Adds the edge from `a` to `b` unless it is present, in either direction.
fn add_edge(edges: &mut Vec<(usize, usize)>, a: usize, b: usize)
    ensures
        final(edges)@ == with_edge(old(edges)@, a, b),
{
    let mut i: usize = 0;
    while i < edges.len()
        invariant
            i <= edges@.len(),
            forall|j: int| 0 <= j < i ==> #[trigger] edges@[j] != (a, b) && edges@[j] != (b, a),
        decreases edges@.len() - i,
    {
        let e = edges[i];
        if (e.0 == a && e.1 == b) || (e.0 == b && e.1 == a) {
            assert(has_edge(edges@, a, b));
            return;
        }
        i = i + 1;
    }
    assert(!has_edge(edges@, a, b));
    edges.push((a, b));
}

/// Adds the edges of a face: one for each pair of consecutive references,
/// the last joined back to the first.
fn add_face(edges: &mut Vec<(usize, usize)>, face: &Vec<usize>)
    ensures
        final(edges)@ == with_face(old(edges)@, face@, face@.len()),
{
    let n = face.len();
    let mut i: usize = 0;
    while i < n
        invariant
            n == face@.len(),
            i <= n,
            edges@ == with_face(old(edges)@, face@, i as nat),
        decreases n - i,
    {
        let start = face[i];
        let end = face[(i + 1) % n];
        add_edge(edges, start, end);
        i = i + 1;
    }
}

/// Every reference of a face record reads as an unsigned integer.
pub open spec fn refs_ok(refs: Seq<Seq<u8>>) -> bool {
    forall|i: int| 0 <= i < refs.len() ==> reference_ok(#[trigger] refs[i])
}

/// Every reference names one of the first `n` vertices (references count from 1).
pub open spec fn refs_in_range(refs: Seq<Seq<u8>>, n: nat) -> bool {
    forall|i: int| 0 <= i < refs.len() ==> 1 <= reference_value(#[trigger] refs[i]) <= n
}

/// The zero-based vertex indices of a face's references.
pub open spec fn face_of(refs: Seq<Seq<u8>>) -> Seq<usize> {
    refs.map_values(|r: Seq<u8>| (reference_value(r) - 1) as usize)
}

/// The one-byte field `v` that marks a vertex record.
pub open spec fn vertex_marker() -> Seq<u8> {
    seq![118u8]
}

/// The one-byte field `f` that marks a face record.
pub open spec fn face_marker() -> Seq<u8> {
    seq![102u8]
}

/// The mesh after the record with fields `fields` on line `line_no`. Other
/// records and blank lines leave it as it is.
pub open spec fn apply_record(m: MeshView, fields: Seq<Seq<u8>>, line_no: int) -> Result<MeshView, LoadError> {
    if fields.len() == 0 {
        Ok(m)
    } else if fields[0] == vertex_marker() {
        if fields.len() < 4 {
            Err(LoadError::ShortVertex(line_no as usize))
        } else {
            Ok(MeshView { vertices: m.vertices.push((fields[1], fields[2], fields[3])), edges: m.edges, warnings: m.warnings })
        }
    } else if fields[0] == face_marker() {
        let refs = fields.subrange(1, fields.len() as int);
        if !refs_ok(refs) {
            Ok(MeshView { vertices: m.vertices, edges: m.edges, warnings: m.warnings.push(FaceWarning::BadReference(line_no as usize)) })
        } else if !refs_in_range(refs, m.vertices.len()) {
            Ok(MeshView { vertices: m.vertices, edges: m.edges, warnings: m.warnings.push(FaceWarning::OutOfRange(line_no as usize)) })
        } else {
            Ok(MeshView { vertices: m.vertices, edges: with_face(m.edges, face_of(refs), refs.len()), warnings: m.warnings })
        }
    } else {
        Ok(m)
    }
}

pub open spec fn empty_mesh() -> MeshView {
    MeshView { vertices: seq![], edges: seq![], warnings: seq![] }
}

/// The mesh that the first `n` lines describe.
pub open spec fn load_prefix(ls: Seq<Seq<u8>>, n: nat) -> Result<MeshView, LoadError>
    decreases n,
{
    if n == 0 {
        Ok(empty_mesh())
    } else {
        match load_prefix(ls, (n - 1) as nat) {
            Ok(m) => apply_record(m, line_fields(ls[n - 1]), n as int),
            Err(e) => Err(e),
        }
    }
}

/// The mesh that a model text describes.
pub open spec fn load_text(text: Seq<u8>) -> Result<MeshView, LoadError> {
    load_prefix(text_lines(text), text_lines(text).len())
}

proof fn lemma_error_stays(ls: Seq<Seq<u8>>, n: nat, m: nat)
    requires
        n <= m,
        load_prefix(ls, n) is Err,
    ensures
        load_prefix(ls, m) == load_prefix(ls, n),
    decreases m - n,
{
    if n < m {
        lemma_error_stays(ls, n, (m - 1) as nat);
    }
}

fn copy_field(f: &Vec<u8>) -> (r: Vec<u8>)
    ensures
        r@ == f@,
{
    let r = f.clone();
    assert(r@ =~= f@);
    r
}

impl Mesh {
    /// A mesh with no vertices, edges or warnings.
    pub fn new() -> (r: Mesh)
        ensures
            r@ == empty_mesh(),
    {
        let r = Mesh { vertices: Vec::new(), edges: Vec::new(), warnings: Vec::new() };
        assert(r@.vertices =~= seq![]);
        r
    }

    fn warn(&mut self, w: FaceWarning)
        ensures
            final(self)@ == (MeshView {
                vertices: old(self)@.vertices,
                edges: old(self)@.edges,
                warnings: old(self)@.warnings.push(w),
            }),
    {
        self.warnings.push(w);
    }

    /// Applies the record on line `line_no` of a model text. A short vertex
    /// record is an error and leaves the mesh unchanged; a face record with
    /// a bad or out-of-range reference is skipped with a warning.
    pub fn apply_line(&mut self, line: &[u8], line_no: usize) -> (r: Result<(), LoadError>)
        requires
            old(self)@.wf(),
        ensures
            final(self)@.wf(),
            match apply_record(old(self)@, line_fields(line@), line_no as int) {
                Ok(m) => r is Ok && final(self)@ == m,
                Err(e) => r == Err::<(), LoadError>(e) && final(self)@ == old(self)@,
            },
    {
        let fields = split_fields(line);
        let ghost fs = line_fields(line@);
        assert(fs.len() == fields@.len());
        if fields.len() == 0 {
            return Ok(());
        }
        assert(fs[0] == fields@[0]@);
        let marker_v = fields[0].len() == 1 && fields[0][0] == 118;
        let marker_f = fields[0].len() == 1 && fields[0][0] == 102;
        assert(marker_v == (fs[0] == vertex_marker())) by {
            if fs[0].len() == 1 {
                assert(fs[0] =~= seq![fs[0][0]]);
            }
        }
        assert(marker_f == (fs[0] == face_marker())) by {
            if fs[0].len() == 1 {
                assert(fs[0] =~= seq![fs[0][0]]);
            }
        }
        if marker_v {
            if fields.len() < 4 {
                return Err(LoadError::ShortVertex(line_no));
            }
            let v = Vertex { x: copy_field(&fields[1]), y: copy_field(&fields[2]), z: copy_field(&fields[3]) };
            let ghost before = self@;
            self.vertices.push(v);
            assert(self@.vertices =~= before.vertices.push((fs[1], fs[2], fs[3])));
            return Ok(());
        }
        if !marker_f {
            return Ok(());
        }
        let ghost refs = fs.subrange(1, fs.len() as int);
        let mut values: Vec<usize> = Vec::new();
        let mut i: usize = 1;
        while i < fields.len()
            invariant
                1 <= i <= fields@.len(),
                fs == line_fields(line@),
                refs == fs.subrange(1, fs.len() as int),
                fs.len() == fields@.len(),
                forall|j: int| 0 <= j < fs.len() ==> fs[j] == (#[trigger] fields@[j])@,
                values@.len() == i - 1,
                forall|j: int| 0 <= j < i - 1 ==> reference_ok(#[trigger] refs[j]),
                forall|j: int| 0 <= j < i - 1 ==> #[trigger] values@[j] == reference_value(refs[j]),
                self@ == old(self)@,
                old(self)@.wf(),
                fs.len() > 0,
                fs[0] == face_marker(),
                fs[0] != vertex_marker(),
            decreases fields@.len() - i,
        {
            match parse_reference(fields[i].as_slice()) {
                Some(v) => {
                    proof {
                        assert(refs[i - 1] == fields@[i as int]@);
                        lemma_digits_nonneg(reference_digits(refs[i - 1]));
                    }
                    values.push(v);
                },
                None => {
                    assert(!reference_ok(refs[i - 1]));
                    self.warn(FaceWarning::BadReference(line_no));
                    return Ok(());
                },
            }
            i = i + 1;
        }
        assert(refs_ok(refs));
        let count = self.vertices.len();
        let mut face: Vec<usize> = Vec::new();
        let mut k: usize = 0;
        while k < values.len()
            invariant
                k <= values@.len(),
                values@.len() == refs.len(),
                count == self@.vertices.len(),
                forall|j: int| 0 <= j < refs.len() ==> #[trigger] values@[j] == reference_value(refs[j]),
                face@.len() == k,
                forall|j: int| 0 <= j < k ==> 1 <= reference_value(#[trigger] refs[j]) <= count,
                forall|j: int| 0 <= j < k ==> #[trigger] face@[j] == (reference_value(refs[j]) - 1) as usize,
                self@ == old(self)@,
                old(self)@.wf(),
                fs == line_fields(line@),
                refs == fs.subrange(1, fs.len() as int),
                refs_ok(refs),
                fs.len() > 0,
                fs[0] == face_marker(),
                fs[0] != vertex_marker(),
            decreases values@.len() - k,
        {
            let v = values[k];
            if v == 0 || v > count {
                assert(!refs_in_range(refs, self@.vertices.len()));
                self.warn(FaceWarning::OutOfRange(line_no));
                return Ok(());
            }
            face.push(v - 1);
            k = k + 1;
        }
        assert(face@ =~= face_of(refs));
        proof {
            lemma_with_face_wf(self@.edges, self@.vertices.len(), face@, face@.len());
        }
        add_face(&mut self.edges, &face);
        Ok(())
    }
}


/// Reads a model text: vertex records `v x y z` and face records
/// `f i j k ...`, whose sides become edges; `#` starts a comment. Fields are
/// separated by any Unicode whitespace character in its UTF-8 form.
pub fn parse_obj(text: &[u8]) -> (r: Result<Mesh, LoadError>)
    ensures
        match load_text(text@) {
            Ok(m) => r is Ok && r->Ok_0@ == m,
            Err(e) => r == Err::<Mesh, LoadError>(e),
        },
        r is Ok ==> r->Ok_0@.wf(),
{
    let lines = split_lines(text);
    let ghost ls = text_lines(text@);
    let mut mesh = Mesh::new();
    let mut i: usize = 0;
    while i < lines.len()
        invariant
            i <= lines@.len(),
            views(lines@) == ls,
            ls == text_lines(text@),
            load_prefix(ls, i as nat) == Ok::<MeshView, LoadError>(mesh@),
            mesh@.wf(),
        decreases lines@.len() - i,
    {
        assert(ls[i as int] == lines@[i as int]@);
        match mesh.apply_line(lines[i].as_slice(), i + 1) {
            Ok(()) => {},
            Err(e) => {
                proof {
                    lemma_error_stays(ls, (i + 1) as nat, ls.len());
                }
                return Err(e);
            },
        }
        i = i + 1;
    }
    Ok(mesh)
}

fn unit_coord(negative: bool) -> (r: Vec<u8>)
    ensures
        r@ == unit_text(negative),
{
    if negative {
        let r = vec![45u8, 49u8];
        assert(r@ =~= seq![45u8, 49u8]);
        r
    } else {
        let r = vec![49u8];
        assert(r@ =~= seq![49u8]);
        r
    }
}

fn cube_vertex(x: bool, y: bool, z: bool) -> (r: Vertex)
    ensures
        (r.x@, r.y@, r.z@) == cube_corner(x, y, z),
{
    Vertex { x: unit_coord(x), y: unit_coord(y), z: unit_coord(z) }
}

/// The edges of the built-in cube: the four sides of its bottom face, the four
/// of its top face, and the four that join them.
pub open spec fn cube_edges() -> Seq<(usize, usize)> {
    seq![(0, 1), (1, 2), (2, 3), (3, 0), (4, 5), (5, 6), (6, 7), (7, 4), (0, 4), (1, 5), (2, 6), (3, 7)]
}

/// The text of a coordinate of the built-in cube: `-1` or `1`.
pub open spec fn unit_text(negative: bool) -> Seq<u8> {
    if negative {
        seq![45u8, 49u8]
    } else {
        seq![49u8]
    }
}

pub open spec fn cube_corner(x: bool, y: bool, z: bool) -> (Seq<u8>, Seq<u8>, Seq<u8>) {
    (unit_text(x), unit_text(y), unit_text(z))
}

/// The corners of the built-in cube: the four of its face at z = -1 counter
/// clockwise from (-1, -1), then the four at z = 1 in the same order.
pub open spec fn cube_vertices() -> Seq<(Seq<u8>, Seq<u8>, Seq<u8>)> {
    seq![
        cube_corner(true, true, true),
        cube_corner(false, true, true),
        cube_corner(false, false, true),
        cube_corner(true, false, true),
        cube_corner(true, true, false),
        cube_corner(false, true, false),
        cube_corner(false, false, false),
        cube_corner(true, false, false),
    ]
}

/// The built-in model: the cube with corners at -1 and 1 on every axis.
pub fn default_cube() -> (r: Mesh)
    ensures
        r@.vertices == cube_vertices(),
        r@.vertices.len() == 8,
        r@.edges == cube_edges(),
        r@.warnings.len() == 0,
        r@.wf(),
{
    let vertices = vec![
        cube_vertex(true, true, true),
        cube_vertex(false, true, true),
        cube_vertex(false, false, true),
        cube_vertex(true, false, true),
        cube_vertex(true, true, false),
        cube_vertex(false, true, false),
        cube_vertex(false, false, false),
        cube_vertex(true, false, false),
    ];
    let edges = vec![
        (0usize, 1usize), (1, 2), (2, 3), (3, 0),
        (4, 5), (5, 6), (6, 7), (7, 4),
        (0, 4), (1, 5), (2, 6), (3, 7),
    ];
    let r = Mesh { vertices, edges, warnings: Vec::new() };
    assert(r@.edges =~= cube_edges());
    assert(r@.vertices =~= cube_vertices());
    r
}


/// Side `i` of a face: from its `i`-th reference to the next, the last
/// joined back to the first.
pub open spec fn face_side_present(es: Seq<(usize, usize)>, face: Seq<usize>, i: int) -> bool {
    has_edge(es, face[i], face[(i + 1) % (face.len() as int)])
}

proof fn lemma_with_edge_keeps(es: Seq<(usize, usize)>, a: usize, b: usize, c: usize, d: usize)
    requires
        has_edge(es, c, d),
    ensures
        has_edge(with_edge(es, a, b), c, d),
{
    if !has_edge(es, a, b) {
        let t = es.push((a, b));
        if es.contains((c, d)) {
            let i = choose|i: int| 0 <= i < es.len() && es[i] == (c, d);
            assert(t[i] == (c, d));
        } else {
            let i = choose|i: int| 0 <= i < es.len() && es[i] == (d, c);
            assert(t[i] == (d, c));
        }
    }
}

proof fn lemma_with_edge_adds(es: Seq<(usize, usize)>, a: usize, b: usize)
    ensures
        has_edge(with_edge(es, a, b), a, b),
{
    if !has_edge(es, a, b) {
        assert(es.push((a, b))[es.len() as int] == (a, b));
    }
}

proof fn lemma_with_face_adds(es: Seq<(usize, usize)>, face: Seq<usize>, k: nat)
    requires
        k <= face.len(),
    ensures
        forall|i: int| 0 <= i < k ==> face_side_present(#[trigger] with_face(es, face, k), face, i),
    decreases k,
{
    if k > 0 {
        let prev = with_face(es, face, (k - 1) as nat);
        let a = face[k - 1];
        let b = face[(k as int) % (face.len() as int)];
        lemma_with_face_adds(es, face, (k - 1) as nat);
        lemma_with_edge_adds(prev, a, b);
        assert forall|i: int| 0 <= i < k implies face_side_present(with_face(es, face, k), face, i) by {
            if i < k - 1 {
                assert(face_side_present(prev, face, i));
                lemma_with_edge_keeps(prev, a, b, face[i], face[(i + 1) % (face.len() as int)]);
            }
        }
    }
}

proof fn lemma_with_face_present(es: Seq<(usize, usize)>, face: Seq<usize>, k: nat)
    requires
        k <= face.len(),
        forall|i: int| 0 <= i < face.len() ==> face_side_present(es, face, i),
    ensures
        with_face(es, face, k) == es,
    decreases k,
{
    if k > 0 {
        lemma_with_face_present(es, face, (k - 1) as nat);
        assert(face_side_present(es, face, k - 1));
        assert((k - 1 + 1) % (face.len() as int) == (k as int) % (face.len() as int));
    }
}

/// Adding a face whose every side is an edge already, in either direction,
/// leaves the edges as they are.
pub proof fn lemma_face_already_present(es: Seq<(usize, usize)>, face: Seq<usize>)
    requires
        forall|i: int| 0 <= i < face.len() ==> face_side_present(es, face, i),
    ensures
        with_face(es, face, face.len()) == es,
{
    lemma_with_face_present(es, face, face.len());
}

/// Declaring a face twice gives the edges of declaring it once.
pub proof fn lemma_face_twice(es: Seq<(usize, usize)>, face: Seq<usize>)
    ensures
        with_face(with_face(es, face, face.len()), face, face.len()) == with_face(es, face, face.len()),
{
    let once = with_face(es, face, face.len());
    lemma_with_face_adds(es, face, face.len());
    lemma_with_face_present(once, face, face.len());
}

/// Where every side of a face is an edge, every side of the reversed face is.
proof fn lemma_reversed_sides(es: Seq<(usize, usize)>, face: Seq<usize>)
    requires
        forall|i: int| 0 <= i < face.len() ==> face_side_present(es, face, i),
    ensures
        forall|i: int| 0 <= i < face.len() ==> face_side_present(es, face.reverse(), i),
{
    let rev = face.reverse();
    let n = face.len() as int;
    assert forall|i: int| 0 <= i < rev.len() implies face_side_present(es, rev, i) by {
        // side i of the reversed face is side n - 2 - i of the face, turned round
        let j = if i == n - 1 { n - 1 } else { n - 2 - i };
        assert(face_side_present(es, face, j));
        if i == n - 1 {
            assert(rev[i] == face[0]);
            assert((i + 1) % n == 0) by (nonlinear_arith)
                requires
                    i + 1 == n,
                    n > 0,
            ;
            assert(rev[0] == face[n - 1]);
            assert((j + 1) % n == 0) by (nonlinear_arith)
                requires
                    j + 1 == n,
                    n > 0,
            ;
        } else {
            assert(rev[i] == face[n - 1 - i]);
            assert((i + 1) % n == i + 1) by (nonlinear_arith)
                requires
                    0 <= i + 1 < n,
            ;
            assert(rev[i + 1] == face[n - 2 - i]);
            assert((j + 1) % n == j + 1) by (nonlinear_arith)
                requires
                    0 <= j + 1 < n,
            ;
        }
    }
}

/// Declaring a face and then the same references in reverse order gives the
/// edges of declaring it once.
pub proof fn lemma_face_reversed(es: Seq<(usize, usize)>, face: Seq<usize>)
    ensures
        with_face(with_face(es, face, face.len()), face.reverse(), face.len()) == with_face(es, face, face.len()),
{
    let once = with_face(es, face, face.len());
    lemma_with_face_adds(es, face, face.len());
    lemma_reversed_sides(once, face);
    lemma_with_face_present(once, face.reverse(), face.len());
}

/// The mesh that a sequence of lines describes.
pub open spec fn load_lines(ls: Seq<Seq<u8>>) -> Result<MeshView, LoadError> {
    load_prefix(ls, ls.len())
}

/// The vertices and edges of a load, or `None` where it failed.
pub open spec fn shape(r: Result<MeshView, LoadError>) -> Option<(Seq<(Seq<u8>, Seq<u8>, Seq<u8>)>, Seq<(usize, usize)>)> {
    match r {
        Ok(m) => Some((m.vertices, m.edges)),
        Err(_) => None,
    }
}

proof fn lemma_prefix_same(ls1: Seq<Seq<u8>>, ls2: Seq<Seq<u8>>, n: nat)
    requires
        n <= ls1.len(),
        n <= ls2.len(),
        forall|i: int| 0 <= i < n ==> ls1[i] == ls2[i],
    ensures
        load_prefix(ls1, n) == load_prefix(ls2, n),
    decreases n,
{
    if n > 0 {
        lemma_prefix_same(ls1, ls2, (n - 1) as nat);
    }
}

proof fn lemma_shape_step(r1: Result<MeshView, LoadError>, r2: Result<MeshView, LoadError>, f: Seq<Seq<u8>>, l1: int, l2: int)
    requires
        shape(r1) == shape(r2),
    ensures
        shape(match r1 {
            Ok(m) => apply_record(m, f, l1),
            Err(e) => Err(e),
        }) == shape(match r2 {
            Ok(m) => apply_record(m, f, l2),
            Err(e) => Err(e),
        }),
{
}

proof fn lemma_deleted_from(ls: Seq<Seq<u8>>, k: int, n: nat)
    requires
        0 <= k <= n < ls.len(),
        load_prefix(ls, k as nat) is Ok,
        shape(apply_record(load_prefix(ls, k as nat)->Ok_0, line_fields(ls[k]), k + 1)) == shape(load_prefix(ls, k as nat)),
    ensures
        shape(load_prefix(ls, n + 1)) == shape(load_prefix(ls.remove(k), n)),
    decreases n,
{
    let ls2 = ls.remove(k);
    if n == k {
        lemma_prefix_same(ls, ls2, k as nat);
    } else {
        lemma_deleted_from(ls, k, (n - 1) as nat);
        assert(ls2[n - 1] == ls[n as int]);
        lemma_shape_step(load_prefix(ls, n), load_prefix(ls2, (n - 1) as nat), line_fields(ls[n as int]), (n + 1) as int, n as int);
    }
}

/// Deleting a line whose record leaves the vertices and edges as they are
/// (a face record that is skipped, or whose sides are all edges already)
/// does not change the vertices and edges of the load, nor whether it fails.
pub proof fn lemma_neutral_line_deleted(ls: Seq<Seq<u8>>, k: int)
    requires
        0 <= k < ls.len(),
        load_prefix(ls, k as nat) is Ok,
        shape(apply_record(load_prefix(ls, k as nat)->Ok_0, line_fields(ls[k]), k + 1)) == shape(load_prefix(ls, k as nat)),
    ensures
        shape(load_lines(ls)) == shape(load_lines(ls.remove(k))),
{
    lemma_deleted_from(ls, k, (ls.len() - 1) as nat);
}

/// A face record that names a vertex not declared above it is skipped: the
/// text loads as it would without that line, but for the warning.
pub proof fn lemma_out_of_range_face_deleted(ls: Seq<Seq<u8>>, k: int)
    requires
        0 <= k < ls.len(),
        load_prefix(ls, k as nat) is Ok,
        line_fields(ls[k]).len() > 0,
        line_fields(ls[k])[0] == face_marker(),
        !refs_in_range(line_fields(ls[k]).subrange(1, line_fields(ls[k]).len() as int), load_prefix(ls, k as nat)->Ok_0.vertices.len()),
    ensures
        shape(load_lines(ls)) == shape(load_lines(ls.remove(k))),
{
    assert(face_marker()[0] != vertex_marker()[0]);
    lemma_neutral_line_deleted(ls, k);
}

/// A face record all of whose sides are edges already, in either direction
/// (the same face declared again, or reversed), changes nothing: the text
/// loads as it would without that line.
pub proof fn lemma_present_face_deleted(ls: Seq<Seq<u8>>, k: int)
    requires
        0 <= k < ls.len(),
        load_prefix(ls, k as nat) is Ok,
        line_fields(ls[k]).len() > 0,
        line_fields(ls[k])[0] == face_marker(),
        ({
            let refs = line_fields(ls[k]).subrange(1, line_fields(ls[k]).len() as int);
            let es = load_prefix(ls, k as nat)->Ok_0.edges;
            forall|i: int| 0 <= i < refs.len() ==> face_side_present(es, face_of(refs), i)
        }),
    ensures
        shape(load_lines(ls)) == shape(load_lines(ls.remove(k))),
{
    let refs = line_fields(ls[k]).subrange(1, line_fields(ls[k]).len() as int);
    let es = load_prefix(ls, k as nat)->Ok_0.edges;
    assert(face_marker()[0] != vertex_marker()[0]);
    assert(face_of(refs).len() == refs.len());
    lemma_face_already_present(es, face_of(refs));
    lemma_neutral_line_deleted(ls, k);
}


proof fn lemma_with_face_keeps(es: Seq<(usize, usize)>, face: Seq<usize>, k: nat, c: usize, d: usize)
    requires
        has_edge(es, c, d),
    ensures
        has_edge(with_face(es, face, k), c, d),
    decreases k,
{
    if k > 0 && face.len() > 0 {
        lemma_with_face_keeps(es, face, (k - 1) as nat, c, d);
        lemma_with_edge_keeps(with_face(es, face, (k - 1) as nat), face[k - 1], face[(k as int) % (face.len() as int)], c, d);
    }
}

/// Lines only ever add edges: an edge present after `j` lines is present
/// after any later number of lines whose load has not failed.
proof fn lemma_edges_kept(ls: Seq<Seq<u8>>, j: nat, k: nat, c: usize, d: usize)
    requires
        j <= k <= ls.len(),
        load_prefix(ls, j) is Ok,
        load_prefix(ls, k) is Ok,
        has_edge(load_prefix(ls, j)->Ok_0.edges, c, d),
    ensures
        has_edge(load_prefix(ls, k)->Ok_0.edges, c, d),
    decreases k - j,
{
    if j < k {
        let m = (k - 1) as nat;
        if load_prefix(ls, m) is Err {
            lemma_error_stays(ls, m, k);
        }
        lemma_edges_kept(ls, j, m, c, d);
        let p = load_prefix(ls, m)->Ok_0;
        let f = line_fields(ls[m as int]);
        if f.len() > 0 && f[0] == face_marker() {
            let refs = f.subrange(1, f.len() as int);
            lemma_with_face_keeps(p.edges, face_of(refs), refs.len(), c, d);
        }
    }
}

/// A face record that repeats an accepted face record above it, in the same
/// or in reverse order, changes nothing: the text loads as it would without
/// that line.
pub proof fn lemma_repeated_face_deleted(ls: Seq<Seq<u8>>, j: int, k: int)
    requires
        0 <= j < k < ls.len(),
        load_prefix(ls, k as nat) is Ok,
        line_fields(ls[j]).len() > 0,
        line_fields(ls[j])[0] == face_marker(),
        line_fields(ls[k]).len() > 0,
        line_fields(ls[k])[0] == face_marker(),
        ({
            let rj = line_fields(ls[j]).subrange(1, line_fields(ls[j]).len() as int);
            let rk = line_fields(ls[k]).subrange(1, line_fields(ls[k]).len() as int);
            &&& refs_ok(rj)
            &&& (load_prefix(ls, j as nat) is Ok ==> refs_in_range(rj, load_prefix(ls, j as nat)->Ok_0.vertices.len()))
            &&& (face_of(rk) == face_of(rj) || face_of(rk) == face_of(rj).reverse())
        }),
    ensures
        shape(load_lines(ls)) == shape(load_lines(ls.remove(k))),
{
    let rj = line_fields(ls[j]).subrange(1, line_fields(ls[j]).len() as int);
    let rk = line_fields(ls[k]).subrange(1, line_fields(ls[k]).len() as int);
    let fj = face_of(rj);
    let j1 = (j + 1) as nat;
    if load_prefix(ls, j as nat) is Err {
        lemma_error_stays(ls, j as nat, k as nat);
    }
    if load_prefix(ls, j1) is Err {
        lemma_error_stays(ls, j1, k as nat);
    }
    assert(face_marker()[0] != vertex_marker()[0]);
    let before = load_prefix(ls, j as nat)->Ok_0.edges;
    assert(load_prefix(ls, j1)->Ok_0.edges == with_face(before, fj, fj.len()));
    lemma_with_face_adds(before, fj, fj.len());
    let es = load_prefix(ls, k as nat)->Ok_0.edges;
    assert forall|i: int| 0 <= i < fj.len() implies face_side_present(es, fj, i) by {
        assert(face_side_present(load_prefix(ls, j1)->Ok_0.edges, fj, i));
        lemma_edges_kept(ls, j1, k as nat, fj[i], fj[(i + 1) % (fj.len() as int)]);
    }
    if face_of(rk) != fj {
        lemma_reversed_sides(es, fj);
    }
    assert(face_of(rk).len() == rk.len());
    lemma_present_face_deleted(ls, k);
}

} // verus!

use vstd::prelude::*;

verus! {

/// `s` cut at every `sep`: `n` separators give `n + 1` pieces, empty ones included.
pub open spec fn split_on(s: Seq<u8>, sep: u8) -> Seq<Seq<u8>>
    decreases s.len(),
{
    if s.len() == 0 {
        seq![Seq::empty()]
    } else {
        let prev = split_on(s.drop_last(), sep);
        if s.last() == sep {
            prev.push(Seq::empty())
        } else {
            prev.update(prev.len() - 1, prev.last().push(s.last()))
        }
    }
}

pub proof fn lemma_split_on_nonempty(s: Seq<u8>, sep: u8)
    ensures
        split_on(s, sep).len() >= 1,
    decreases s.len(),
{
    if s.len() > 0 {
        lemma_split_on_nonempty(s.drop_last(), sep);
    }
}

/// Space, tab, line feed, vertical tab, form feed and carriage return.
pub open spec fn is_blank(b: u8) -> bool {
    b == 32 || (9 <= b <= 13)
}

/// `s` without its leading and trailing blanks.
pub open spec fn trimmed(s: Seq<u8>) -> Seq<u8>
    decreases s.len(),
{
    if s.len() > 0 && is_blank(s[0]) {
        trimmed(s.drop_first())
    } else if s.len() > 0 && is_blank(s.last()) {
        trimmed(s.drop_last())
    } else {
        s
    }
}

pub open spec fn is_digit(b: u8) -> bool {
    48 <= b <= 57
}

/// The number that the decimal digits `s` write.
pub open spec fn digits_value(s: Seq<u8>) -> nat
    decreases s.len(),
{
    if s.len() == 0 {
        0
    } else {
        digits_value(s.drop_last()) * 10 + (s.last() - 48) as nat
    }
}

/// `s` without a leading `+`.
pub open spec fn unsigned_part(s: Seq<u8>) -> Seq<u8> {
    if s.len() > 0 && s[0] == 43 {
        s.drop_first()
    } else {
        s
    }
}

pub open spec fn all_digits(d: Seq<u8>) -> bool {
    forall|k: int| 0 <= k < d.len() ==> is_digit(#[trigger] d[k])
}

/// The index that `s` writes: decimal digits, at least one, after an optional
/// `+`, of a value that fits `usize`.
pub open spec fn index_value(s: Seq<u8>) -> Option<nat> {
    let d = unsigned_part(s);
    if d.len() > 0 && all_digits(d) && digits_value(d) <= usize::MAX {
        Some(digits_value(d))
    } else {
        None
    }
}

/// Why an OBJ text was refused.
#[derive(Clone, Copy, Debug, PartialEq, Eq, Structural)]
pub enum ObjError {
    /// A `v ` or `f ` line with fewer than three fields after its tag.
    MissingField,
    /// A face field whose part before any `/` is not an index.
    BadIndex,
    /// A face index that is 0 or above the number of vertices.
    IndexOutOfRange,
}

/// The line starts with `tag` followed by a space.
pub open spec fn tagged(line: Seq<u8>, tag: u8) -> bool {
    line.len() >= 2 && line[0] == tag && line[1] == 32
}

/// The coordinates of a vertex line, each field trimmed: `None` for a line
/// that is not a vertex line, `Some(Err)` for one with too few fields.
pub open spec fn vertex_line(line: Seq<u8>) -> Option<Result<Seq<Seq<u8>>, ObjError>> {
    if !tagged(line, 118) {
        None
    } else {
        let f = split_on(line, 32);
        if f.len() < 4 {
            Some(Err(ObjError::MissingField))
        } else {
            Some(Ok(seq![trimmed(f[1]), trimmed(f[2]), trimmed(f[3])]))
        }
    }
}

/// The index written by a face field: its part before any `/`, trimmed.
pub open spec fn face_field(field: Seq<u8>) -> Option<nat> {
    index_value(trimmed(split_on(field, 47)[0]))
}

/// The zero-based corners of a face line against `n` vertices: `None` for a
/// line that is not a face line.
pub open spec fn face_line(line: Seq<u8>, n: nat) -> Option<Result<(nat, nat, nat), ObjError>> {
    if !tagged(line, 102) {
        None
    } else {
        let f = split_on(line, 32);
        if f.len() < 4 {
            Some(Err(ObjError::MissingField))
        } else {
            let a = face_field(f[1]);
            let b = face_field(f[2]);
            let c = face_field(f[3]);
            if a.is_none() || b.is_none() || c.is_none() {
                Some(Err(ObjError::BadIndex))
            } else if !(1 <= a.unwrap() <= n && 1 <= b.unwrap() <= n && 1 <= c.unwrap() <= n) {
                Some(Err(ObjError::IndexOutOfRange))
            } else {
                Some(Ok(((a.unwrap() - 1) as nat, (b.unwrap() - 1) as nat, (c.unwrap() - 1) as nat)))
            }
        }
    }
}

/// The vertices of the lines in order, or the error of the first bad vertex line.
pub open spec fn vertices_of(lines: Seq<Seq<u8>>) -> Result<Seq<Seq<Seq<u8>>>, ObjError>
    decreases lines.len(),
{
    if lines.len() == 0 {
        Ok(Seq::empty())
    } else {
        match vertices_of(lines.drop_last()) {
            Err(e) => Err(e),
            Ok(vs) => match vertex_line(lines.last()) {
                None => Ok(vs),
                Some(Err(e)) => Err(e),
                Some(Ok(v)) => Ok(vs.push(v)),
            },
        }
    }
}

/// The faces of the lines in order, or the error of the first bad face line.
pub open spec fn faces_of(lines: Seq<Seq<u8>>, n: nat) -> Result<Seq<(nat, nat, nat)>, ObjError>
    decreases lines.len(),
{
    if lines.len() == 0 {
        Ok(Seq::empty())
    } else {
        match faces_of(lines.drop_last(), n) {
            Err(e) => Err(e),
            Ok(fs) => match face_line(lines.last(), n) {
                None => Ok(fs),
                Some(Err(e)) => Err(e),
                Some(Ok(f)) => Ok(fs.push(f)),
            },
        }
    }
}

/// A vertex as the text of its three coordinates.
pub struct ObjVertex {
    pub x: Vec<u8>,
    pub y: Vec<u8>,
    pub z: Vec<u8>,
}

/// The vertices and triangles of an OBJ text; a face names its corners by
/// zero-based vertex index.
pub struct ObjMesh {
    pub vertices: Vec<ObjVertex>,
    pub faces: Vec<(usize, usize, usize)>,
}

impl ObjMesh {
    pub open spec fn spec_vertices(self) -> Seq<Seq<Seq<u8>>> {
        self.vertices@.map_values(|v: ObjVertex| seq![v.x@, v.y@, v.z@])
    }

    pub open spec fn spec_faces(self) -> Seq<(nat, nat, nat)> {
        self.faces@.map_values(|f: (usize, usize, usize)| (f.0 as nat, f.1 as nat, f.2 as nat))
    }
}

/// What an OBJ text describes: all its vertices, checked first, then its faces
/// against the number of vertices.
pub open spec fn obj_spec(text: Seq<u8>) -> Result<(Seq<Seq<Seq<u8>>>, Seq<(nat, nat, nat)>), ObjError> {
    let lines = split_on(text, 10);
    match vertices_of(lines) {
        Err(e) => Err(e),
        Ok(vs) => match faces_of(lines, vs.len()) {
            Err(e) => Err(e),
            Ok(fs) => Ok((vs, fs)),
        },
    }
}

/// `s[lo..hi]` cut at every `sep`, as the bounds of the pieces.
fn split_spans(s: &Vec<u8>, lo: usize, hi: usize, sep: u8) -> (r: Vec<(usize, usize)>)
    requires
        lo <= hi <= s.len(),
    ensures
        r.len() == split_on(s@.subrange(lo as int, hi as int), sep).len(),
        forall|k: int|
            0 <= k < r.len() ==> lo <= (#[trigger] r@[k]).0 <= r@[k].1 <= hi && s@.subrange(r@[k].0 as int, r@[k].1 as int)
                == split_on(s@.subrange(lo as int, hi as int), sep)[k],
{
    let mut r: Vec<(usize, usize)> = Vec::new();
    let mut start: usize = lo;
    let mut k: usize = lo;
    while k < hi
        invariant
            lo <= start <= k <= hi <= s.len(),
            r.len() + 1 == split_on(s@.subrange(lo as int, k as int), sep).len(),
            forall|j: int|
                0 <= j < r.len() ==> lo <= (#[trigger] r@[j]).0 <= r@[j].1 <= k && s@.subrange(r@[j].0 as int, r@[j].1 as int)
                    == split_on(s@.subrange(lo as int, k as int), sep)[j],
            s@.subrange(start as int, k as int) == split_on(s@.subrange(lo as int, k as int), sep).last(),
        decreases hi - k,
    {
        let ghost prev = split_on(s@.subrange(lo as int, k as int), sep);
        proof {
            assert(s@.subrange(lo as int, k as int + 1).drop_last() =~= s@.subrange(lo as int, k as int));
            lemma_split_on_nonempty(s@.subrange(lo as int, k as int), sep);
        }
        if s[k] == sep {
            r.push((start, k));
            start = k + 1;
            proof {
                assert(s@.subrange(start as int, k as int + 1) =~= Seq::<u8>::empty());
            }
        } else {
            proof {
                assert(s@.subrange(start as int, k as int + 1) =~= s@.subrange(start as int, k as int).push(s@[k as int]));
            }
        }
        k = k + 1;
    }
    r.push((start, hi));
    r
}

/// The bounds of `s[lo..hi]` without its leading and trailing blanks.
fn trim_span(s: &Vec<u8>, lo: usize, hi: usize) -> (r: (usize, usize))
    requires
        lo <= hi <= s.len(),
    ensures
        lo <= r.0 <= r.1 <= hi,
        s@.subrange(r.0 as int, r.1 as int) == trimmed(s@.subrange(lo as int, hi as int)),
{
    let mut a = lo;
    while a < hi && (s[a] == 32 || (9 <= s[a] && s[a] <= 13))
        invariant
            lo <= a <= hi <= s.len(),
            trimmed(s@.subrange(a as int, hi as int)) == trimmed(s@.subrange(lo as int, hi as int)),
        decreases hi - a,
    {
        assert(s@.subrange(a as int, hi as int).drop_first() =~= s@.subrange(a as int + 1, hi as int));
        a = a + 1;
    }
    let mut b = hi;
    while b > a && (s[b - 1] == 32 || (9 <= s[b - 1] && s[b - 1] <= 13))
        invariant
            lo <= a <= b <= hi <= s.len(),
            a < b ==> !is_blank(s@[a as int]),
            trimmed(s@.subrange(a as int, b as int)) == trimmed(s@.subrange(lo as int, hi as int)),
        decreases b - a,
    {
        assert(s@.subrange(a as int, b as int).drop_last() =~= s@.subrange(a as int, b as int - 1));
        b = b - 1;
    }
    (a, b)
}

proof fn lemma_digits_value_grows(d: Seq<u8>, k: int)
    requires
        0 <= k <= d.len(),
    ensures
        digits_value(d.subrange(0, k)) <= digits_value(d),
    decreases d.len() - k,
{
    if k < d.len() {
        lemma_digits_value_grows(d, k + 1);
        assert(d.subrange(0, k + 1).drop_last() =~= d.subrange(0, k));
    } else {
        assert(d.subrange(0, k) =~= d);
    }
}

/// The index that `s[lo..hi]` writes, as `index_value` says.
fn parse_index(s: &Vec<u8>, lo: usize, hi: usize) -> (r: Option<usize>)
    requires
        lo <= hi <= s.len(),
    ensures
        ({
            let v = index_value(s@.subrange(lo as int, hi as int));
            &&& v.is_none() ==> r.is_none()
            &&& v.is_some() ==> r == Some(v.unwrap() as usize)
        }),
{
    let ghost t = s@.subrange(lo as int, hi as int);
    let mut a = lo;
    if a < hi && s[a] == 43 {
        a = a + 1;
    }
    let ghost d = s@.subrange(a as int, hi as int);
    proof {
        if lo < hi && s@[lo as int] == 43 {
            assert(t.drop_first() =~= d);
        } else {
            assert(t =~= d);
        }
    }
    assert(d == unsigned_part(t));
    if a == hi {
        return None;
    }
    let mut v: usize = 0;
    let mut k = a;
    while k < hi
        invariant
            lo <= a <= k <= hi <= s.len(),
            d == s@.subrange(a as int, hi as int),
            t == s@.subrange(lo as int, hi as int),
            d == unsigned_part(t),
            forall|j: int| 0 <= j < k - a ==> is_digit(#[trigger] d[j]),
            v == digits_value(d.subrange(0, k - a)),
        decreases hi - k,
    {
        let c = s[k];
        if c < 48 || c > 57 {
            assert(!is_digit(d[k - a]));
            assert(index_value(t).is_none());
            return None;
        }
        let digit = (c - 48) as usize;
        assert(d.subrange(0, k - a + 1).drop_last() =~= d.subrange(0, k - a));
        if v > (usize::MAX - digit) / 10 {
            proof {
                assert(v * 10 + digit > usize::MAX) by (nonlinear_arith)
                    requires
                        v > (usize::MAX - digit) / 10,
                        digit <= 9,
                ;
                lemma_digits_value_grows(d, k - a + 1);
            }
            return None;
        }
        assert(v * 10 + digit <= usize::MAX) by (nonlinear_arith)
            requires
                v <= (usize::MAX - digit) / 10,
                digit <= 9,
        ;
        v = v * 10 + digit;
        k = k + 1;
    }
    assert(d.subrange(0, hi - a) =~= d);
    Some(v)
}

/// A copy of `s[lo..hi]`.
fn copy_span(s: &Vec<u8>, lo: usize, hi: usize) -> (r: Vec<u8>)
    requires
        lo <= hi <= s.len(),
    ensures
        r@ == s@.subrange(lo as int, hi as int),
{
    let mut r: Vec<u8> = Vec::new();
    let mut k = lo;
    while k < hi
        invariant
            lo <= k <= hi <= s.len(),
            r@ == s@.subrange(lo as int, k as int),
        decreases hi - k,
    {
        r.push(s[k]);
        k = k + 1;
    }
    r
}

/// The trimmed text of `s[lo..hi]`.
fn trimmed_copy(s: &Vec<u8>, lo: usize, hi: usize) -> (r: Vec<u8>)
    requires
        lo <= hi <= s.len(),
    ensures
        r@ == trimmed(s@.subrange(lo as int, hi as int)),
{
    let (a, b) = trim_span(s, lo, hi);
    copy_span(s, a, b)
}

/// The vertex that line `s[lo..hi]` gives, as `vertex_line` says.
fn vertex_at(s: &Vec<u8>, lo: usize, hi: usize) -> (r: Option<Result<ObjVertex, ObjError>>)
    requires
        lo <= hi <= s.len(),
    ensures
        ({
            let spec = vertex_line(s@.subrange(lo as int, hi as int));
            match r {
                None => spec.is_none(),
                Some(Err(e)) => spec == Some(Err::<Seq<Seq<u8>>, ObjError>(e)),
                Some(Ok(v)) => spec == Some(Ok::<Seq<Seq<u8>>, ObjError>(seq![v.x@, v.y@, v.z@])),
            }
        }),
{
    let ghost line = s@.subrange(lo as int, hi as int);
    if !(hi - lo >= 2 && s[lo] == 118 && s[lo + 1] == 32) {
        return None;
    }
    let fields = split_spans(s, lo, hi, 32);
    if fields.len() < 4 {
        return Some(Err(ObjError::MissingField));
    }
    let x = trimmed_copy(s, fields[1].0, fields[1].1);
    let y = trimmed_copy(s, fields[2].0, fields[2].1);
    let z = trimmed_copy(s, fields[3].0, fields[3].1);
    Some(Ok(ObjVertex { x, y, z }))
}

/// The index that face field `s[lo..hi]` writes, as `face_field` says.
fn field_index(s: &Vec<u8>, lo: usize, hi: usize) -> (r: Option<usize>)
    requires
        lo <= hi <= s.len(),
    ensures
        ({
            let v = face_field(s@.subrange(lo as int, hi as int));
            &&& v.is_none() ==> r.is_none()
            &&& v.is_some() ==> r == Some(v.unwrap() as usize)
        }),
{
    proof {
        lemma_split_on_nonempty(s@.subrange(lo as int, hi as int), 47);
    }
    let pieces = split_spans(s, lo, hi, 47);
    let (a, b) = trim_span(s, pieces[0].0, pieces[0].1);
    parse_index(s, a, b)
}

/// The face that line `s[lo..hi]` gives against `n` vertices, as `face_line` says.
fn face_at(s: &Vec<u8>, lo: usize, hi: usize, n: usize) -> (r: Option<Result<(usize, usize, usize), ObjError>>)
    requires
        lo <= hi <= s.len(),
    ensures
        ({
            let spec = face_line(s@.subrange(lo as int, hi as int), n as nat);
            match r {
                None => spec.is_none(),
                Some(Err(e)) => spec == Some(Err::<(nat, nat, nat), ObjError>(e)),
                Some(Ok(f)) => spec == Some(Ok::<(nat, nat, nat), ObjError>((f.0 as nat, f.1 as nat, f.2 as nat))),
            }
        }),
{
    if !(hi - lo >= 2 && s[lo] == 102 && s[lo + 1] == 32) {
        return None;
    }
    let fields = split_spans(s, lo, hi, 32);
    if fields.len() < 4 {
        return Some(Err(ObjError::MissingField));
    }
    let a = field_index(s, fields[1].0, fields[1].1);
    let b = field_index(s, fields[2].0, fields[2].1);
    let c = field_index(s, fields[3].0, fields[3].1);
    match (a, b, c) {
        (Some(a), Some(b), Some(c)) => {
            if 1 <= a && a <= n && 1 <= b && b <= n && 1 <= c && c <= n {
                Some(Ok((a - 1, b - 1, c - 1)))
            } else {
                Some(Err(ObjError::IndexOutOfRange))
            }
        },
        _ => Some(Err(ObjError::BadIndex)),
    }
}

/// The vertices and faces of an OBJ text: lines `v x y z` give vertices,
/// lines `f a b c` give triangles whose fields start with a 1-based vertex
/// index (`a/...`), and other lines are skipped. Every vertex line is read
/// before any face line, so a face may name a vertex that comes later.
pub fn load_obj(text: &Vec<u8>) -> (r: Result<ObjMesh, ObjError>)
    ensures
        match obj_spec(text@) {
            Err(e) => r == Err::<ObjMesh, ObjError>(e),
            Ok(m) => r.is_ok() && r->Ok_0.spec_vertices() == m.0 && r->Ok_0.spec_faces() == m.1,
        },
{
    let ghost all = split_on(text@, 10);
    let lines = split_spans(text, 0, text.len(), 10);
    proof {
        assert(text@.subrange(0, text.len() as int) =~= text@);
    }
    let mut vertices: Vec<ObjVertex> = Vec::new();
    let mut k: usize = 0;
    proof {
        assert(all.subrange(0, 0) =~= Seq::<Seq<u8>>::empty());
        assert(vertices@.map_values(|v: ObjVertex| seq![v.x@, v.y@, v.z@]) =~= Seq::<Seq<Seq<u8>>>::empty());
    }
    while k < lines.len()
        invariant
            k <= lines.len() == all.len(),
            all == split_on(text@, 10),
            forall|j: int|
                0 <= j < lines.len() ==> (#[trigger] lines@[j]).0 <= lines@[j].1 <= text.len()
                    && text@.subrange(lines@[j].0 as int, lines@[j].1 as int) == all[j],
            vertices_of(all.subrange(0, k as int)) == Ok::<Seq<Seq<Seq<u8>>>, ObjError>(
                vertices@.map_values(|v: ObjVertex| seq![v.x@, v.y@, v.z@]),
            ),
        decreases lines.len() - k,
    {
        let ghost before = vertices@;
        proof {
            assert(all.subrange(0, k as int + 1).drop_last() =~= all.subrange(0, k as int));
        }
        match vertex_at(text, lines[k].0, lines[k].1) {
            None => {},
            Some(Err(e)) => {
                proof {
                    lemma_vertices_err_sticks(all, k as int + 1, e);
                }
                return Err(e);
            },
            Some(Ok(v)) => {
                vertices.push(v);
                proof {
                    assert(vertices@.map_values(|v: ObjVertex| seq![v.x@, v.y@, v.z@]) =~= before.map_values(
                        |v: ObjVertex| seq![v.x@, v.y@, v.z@],
                    ).push(seq![v.x@, v.y@, v.z@]));
                }
            },
        }
        k = k + 1;
    }
    proof {
        assert(all.subrange(0, all.len() as int) =~= all);
    }
    let n = vertices.len();
    let mut faces: Vec<(usize, usize, usize)> = Vec::new();
    let mut k: usize = 0;
    proof {
        assert(all.subrange(0, 0) =~= Seq::<Seq<u8>>::empty());
        assert(faces@.map_values(|f: (usize, usize, usize)| (f.0 as nat, f.1 as nat, f.2 as nat)) =~= Seq::<
            (nat, nat, nat),
        >::empty());
    }
    while k < lines.len()
        invariant
            k <= lines.len() == all.len(),
            all == split_on(text@, 10),
            n == vertices.len(),
            vertices_of(all) == Ok::<Seq<Seq<Seq<u8>>>, ObjError>(
                vertices@.map_values(|v: ObjVertex| seq![v.x@, v.y@, v.z@]),
            ),
            forall|j: int|
                0 <= j < lines.len() ==> (#[trigger] lines@[j]).0 <= lines@[j].1 <= text.len()
                    && text@.subrange(lines@[j].0 as int, lines@[j].1 as int) == all[j],
            faces_of(all.subrange(0, k as int), n as nat) == Ok::<Seq<(nat, nat, nat)>, ObjError>(
                faces@.map_values(|f: (usize, usize, usize)| (f.0 as nat, f.1 as nat, f.2 as nat)),
            ),
        decreases lines.len() - k,
    {
        let ghost before = faces@;
        proof {
            assert(all.subrange(0, k as int + 1).drop_last() =~= all.subrange(0, k as int));
        }
        match face_at(text, lines[k].0, lines[k].1, n) {
            None => {},
            Some(Err(e)) => {
                proof {
                    lemma_faces_err_sticks(all, n as nat, k as int + 1, e);
                }
                return Err(e);
            },
            Some(Ok(f)) => {
                faces.push(f);
                proof {
                    assert(faces@.map_values(|f: (usize, usize, usize)| (f.0 as nat, f.1 as nat, f.2 as nat))
                        =~= before.map_values(|f: (usize, usize, usize)| (f.0 as nat, f.1 as nat, f.2 as nat)).push(
                        (f.0 as nat, f.1 as nat, f.2 as nat),
                    ));
                }
            },
        }
        k = k + 1;
    }
    proof {
        assert(all.subrange(0, all.len() as int) =~= all);
    }
    Ok(ObjMesh { vertices, faces })
}

/// Once a prefix of the lines holds a bad vertex line, so do all longer prefixes.
proof fn lemma_vertices_err_sticks(lines: Seq<Seq<u8>>, k: int, e: ObjError)
    requires
        0 <= k <= lines.len(),
        vertices_of(lines.subrange(0, k)) == Err::<Seq<Seq<Seq<u8>>>, ObjError>(e),
    ensures
        vertices_of(lines) == Err::<Seq<Seq<Seq<u8>>>, ObjError>(e),
    decreases lines.len() - k,
{
    if k < lines.len() {
        assert(lines.subrange(0, k + 1).drop_last() =~= lines.subrange(0, k));
        lemma_vertices_err_sticks(lines, k + 1, e);
    } else {
        assert(lines.subrange(0, k) =~= lines);
    }
}

/// Once a prefix of the lines holds a bad face line, so do all longer prefixes.
proof fn lemma_faces_err_sticks(lines: Seq<Seq<u8>>, n: nat, k: int, e: ObjError)
    requires
        0 <= k <= lines.len(),
        faces_of(lines.subrange(0, k), n) == Err::<Seq<(nat, nat, nat)>, ObjError>(e),
    ensures
        faces_of(lines, n) == Err::<Seq<(nat, nat, nat)>, ObjError>(e),
    decreases lines.len() - k,
{
    if k < lines.len() {
        assert(lines.subrange(0, k + 1).drop_last() =~= lines.subrange(0, k));
        lemma_faces_err_sticks(lines, n, k + 1, e);
    } else {
        assert(lines.subrange(0, k) =~= lines);
    }
}

} // verus!

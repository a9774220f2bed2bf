//! Reading the geometry of a Wavefront OBJ model: its `v ` and `f ` lines,
//! the triangles that the faces make, and the checks that decide whether
//! the model is accepted.
use vstd::prelude::*;
use vstd::string::{StrSliceExecFns, StringSliceAdditionalSpecFns};
use vstd::utf8::is_continuation_byte;
use crate::error::LoadError;
use crate::text::{
    ascii_sep, ascii_words, byte_codes, digits_value, is_ascii_ws, is_digit_code, joined,
    lemma_words_of_joined, parse_unsigned, parse_unsigned_bytes, split_ascii_whitespace,
    split_lines, text_lines, unsigned_digits,
};

verus! {

/// A face of the model: three or four one-based vertex numbers, with `d`
/// zero for a triangle.
#[derive(Clone, Copy, Debug, PartialEq, Eq, Structural)]
pub struct Face {
    pub a: u32,
    pub b: u32,
    pub c: u32,
    pub d: u32,
}

/// The largest `u32`.
pub open spec fn u32_max() -> nat {
    0xFFFF_FFFFnat
}

/// Whether a line starts with `v `.
pub open spec fn is_vertex_line(l: Seq<u8>) -> bool {
    l.len() >= 2 && l[0] == 0x76u8 && l[1] == 0x20u8
}

/// Whether a line starts with `f `.
pub open spec fn is_face_line(l: Seq<u8>) -> bool {
    l.len() >= 2 && l[0] == 0x66u8 && l[1] == 0x20u8
}

/// A line whose first two bytes can be looked at as text: it is empty, or
/// it has at least two bytes and the third byte, if any, starts a character.
/// The viewer compares the first two bytes of each non-empty line as a
/// string slice, which stops it on any other line.
pub open spec fn line_prefix_ok(l: Seq<u8>) -> bool {
    l.len() != 1 && (l.len() <= 2 || !is_continuation_byte(l[2]))
}

/// Every line of the text can be looked at.
pub open spec fn obj_text_ok(s: Seq<u8>) -> bool {
    forall|i: int| 0 <= i < text_lines(s).len() ==> line_prefix_ok(#[trigger] text_lines(s)[i])
}

/// The fields of a `v ` or `f ` line: the words after its first two bytes.
pub open spec fn line_fields(l: Seq<u8>) -> Seq<Seq<u8>> {
    ascii_words(l.skip(2))
}

/// The fields of every `v ` line, in order; none when some `v ` line does
/// not have exactly three fields.
pub open spec fn vertex_fields(ls: Seq<Seq<u8>>) -> Option<Seq<Seq<Seq<u8>>>>
    decreases ls.len(),
{
    if ls.len() == 0 {
        Some(seq![])
    } else {
        match vertex_fields(ls.drop_last()) {
            None => None,
            Some(vs) => if is_vertex_line(ls.last()) {
                if line_fields(ls.last()).len() == 3 {
                    Some(vs.push(line_fields(ls.last())))
                } else {
                    None
                }
            } else {
                Some(vs)
            },
        }
    }
}

/// The value of a field read as a `u32`.
pub open spec fn field_value(f: Seq<u8>) -> Option<nat> {
    parse_unsigned(byte_codes(f), u32_max())
}

/// The face that the fields of an `f ` line describe: three or four fields,
/// each a `u32`; none otherwise.
pub open spec fn face_of(fields: Seq<Seq<u8>>) -> Option<Face> {
    if (fields.len() == 3 || fields.len() == 4) && (forall|i: int|
        0 <= i < fields.len() ==> #[trigger] field_value(fields[i]) is Some) {
        Some(
            Face {
                a: field_value(fields[0]).unwrap() as u32,
                b: field_value(fields[1]).unwrap() as u32,
                c: field_value(fields[2]).unwrap() as u32,
                d: if fields.len() == 4 {
                    field_value(fields[3]).unwrap() as u32
                } else {
                    0
                },
            },
        )
    } else {
        None
    }
}

/// The faces of every `f ` line, in order; none when some `f ` line does
/// not describe a face.
pub open spec fn faces_of(ls: Seq<Seq<u8>>) -> Option<Seq<Face>>
    decreases ls.len(),
{
    if ls.len() == 0 {
        Some(seq![])
    } else {
        match faces_of(ls.drop_last()) {
            None => None,
            Some(fs) => if is_face_line(ls.last()) {
                match face_of(line_fields(ls.last())) {
                    Some(f) => Some(fs.push(f)),
                    None => None,
                }
            } else {
                Some(fs)
            },
        }
    }
}

/// What a model's text holds: the fields of its vertices and its faces.
pub struct ObjScan {
    /// The three fields of each `v ` line; none when a `v ` line has another
    /// number of fields.
    pub vertices: Option<Vec<Vec<Vec<u8>>>>,
    /// The face of each `f ` line; none when an `f ` line is not a face.
    pub faces: Option<Vec<Face>>,
}

pub open spec fn opt_view<T>(o: Option<Vec<T>>) -> Option<Seq<T>> {
    match o {
        Some(v) => Some(v@),
        None => None,
    }
}

/// Reads the face of the fields of an `f ` line.
pub fn parse_face(fields: &Vec<Vec<u8>>) -> (r: Option<Face>)
    ensures
        r == face_of(fields.deep_view()),
{
    let ghost fs = fields.deep_view();
    let n = fields.len();
    if n != 3 && n != 4 {
        return None;
    }
    let mut vals: Vec<u32> = Vec::new();
    let mut i: usize = 0;
    while i < n
        invariant
            n == fields@.len(),
            fs == fields.deep_view(),
            i <= n,
            vals@.len() == i,
            forall|j: int|
                0 <= j < i ==> #[trigger] field_value(fs[j]) == Some(vals@[j] as nat),
        decreases n - i,
    {
        let f = &fields[i];
        assert(f@ =~= fs[i as int]);
        match parse_unsigned_bytes(f.as_slice(), 0xFFFF_FFFF) {
            Some(v) => {
                vals.push(v as u32);
            },
            None => {
                assert(field_value(fs[i as int]) is None);
                return None;
            },
        }
        i = i + 1;
    }
    let d = if n == 4 {
        vals[3]
    } else {
        0
    };
    let r = Face { a: vals[0], b: vals[1], c: vals[2], d };
    assert(field_value(fs[0]) == Some(vals@[0] as nat));
    assert(field_value(fs[1]) == Some(vals@[1] as nat));
    assert(field_value(fs[2]) == Some(vals@[2] as nat));
    if n == 4 {
        assert(field_value(fs[3]) == Some(vals@[3] as nat));
    }
    Some(r)
}

/// The kind of a line of a model.
#[derive(Clone, Copy, Debug, PartialEq, Eq, Structural)]
pub enum LineKind {
    Vertex,
    Face,
    Other,
}

/// Tells `v ` lines, `f ` lines and other lines apart.
pub fn classify_line(line: &[u8]) -> (r: LineKind)
    requires
        line_prefix_ok(line@),
    ensures
        r == LineKind::Vertex <==> is_vertex_line(line@),
        r == LineKind::Face <==> is_face_line(line@),
{
    if line.len() >= 2 && line[1] == 0x20 {
        if line[0] == 0x76 {
            return LineKind::Vertex;
        } else if line[0] == 0x66 {
            return LineKind::Face;
        }
    }
    LineKind::Other
}

/// Whether every line of a model's text can be looked at (see
/// `line_prefix_ok`).
pub fn obj_text_readable(text: &str) -> (r: bool)
    ensures
        r == obj_text_ok(text.spec_bytes()),
{
    let lines = split_lines(text.as_bytes());
    let ghost ls = lines.deep_view();
    let mut k: usize = 0;
    while k < lines.len()
        invariant
            ls == lines.deep_view(),
            ls == text_lines(text.spec_bytes()),
            k <= ls.len(),
            forall|i: int| 0 <= i < k ==> line_prefix_ok(#[trigger] ls[i]),
        decreases ls.len() - k,
    {
        let line = lines[k].as_slice();
        assert(line@ =~= ls[k as int]);
        let n = line.len();
        if n == 1 || (n > 2 && line[2] >= 0x80 && line[2] < 0xC0) {
            assert(!line_prefix_ok(ls[k as int]));
            return false;
        }
        k = k + 1;
    }
    true
}

/// Reads the `v ` and `f ` lines of a model's text.
pub fn scan_obj(text: &str) -> (r: ObjScan)
    requires
        obj_text_ok(text.spec_bytes()),
    ensures
        r.vertices.deep_view() == vertex_fields(text_lines(text.spec_bytes())),
        opt_view(r.faces) == faces_of(text_lines(text.spec_bytes())),
        r.faces is Some <==> forall|i: int|
            0 <= i < text_lines(text.spec_bytes()).len() && is_face_line(
                #[trigger] text_lines(text.spec_bytes())[i],
            ) ==> ((ascii_words(text_lines(text.spec_bytes())[i].skip(2)).len() == 3
                || ascii_words(text_lines(text.spec_bytes())[i].skip(2)).len() == 4) && forall|j: int|
                0 <= j < ascii_words(text_lines(text.spec_bytes())[i].skip(2)).len()
                    ==> #[trigger] parse_unsigned(
                    byte_codes(ascii_words(text_lines(text.spec_bytes())[i].skip(2))[j]),
                    0xFFFF_FFFFnat,
                ) is Some),
        r.vertices is Some <==> forall|i: int|
            0 <= i < text_lines(text.spec_bytes()).len() && is_vertex_line(
                #[trigger] text_lines(text.spec_bytes())[i],
            ) ==> ascii_words(text_lines(text.spec_bytes())[i].skip(2)).len() == 3,
{
    proof {
        lemma_faces_read_iff_every_face_line_is_a_face(text_lines(text.spec_bytes()));
        lemma_vertices_read_iff_every_vertex_line_has_three_fields(text_lines(text.spec_bytes()));
    }
    let bytes = text.as_bytes();
    let lines = split_lines(bytes);
    let ghost ls = lines.deep_view();
    let mut verts: Vec<Vec<Vec<u8>>> = Vec::new();
    let mut verts_ok = true;
    let mut faces: Vec<Face> = Vec::new();
    let mut faces_ok = true;
    let mut k: usize = 0;
    while k < lines.len()
        invariant
            ls == lines.deep_view(),
            ls == text_lines(text.spec_bytes()),
            obj_text_ok(text.spec_bytes()),
            k <= lines@.len(),
            vertex_fields(ls.take(k as int)) == (if verts_ok {
                Some(verts.deep_view())
            } else {
                None::<Seq<Seq<Seq<u8>>>>
            }),
            faces_of(ls.take(k as int)) == (if faces_ok {
                Some(faces@)
            } else {
                None::<Seq<Face>>
            }),
        decreases lines@.len() - k,
    {
        let line = lines[k].as_slice();
        let ghost l = ls[k as int];
        assert(line@ =~= l);
        assert(ls.take(k + 1).drop_last() =~= ls.take(k as int));
        assert(ls.take(k + 1).last() == l);
        assert(line_prefix_ok(ls[k as int]));
        let kind = classify_line(line);
        if kind == LineKind::Vertex {
            let fields = split_ascii_whitespace(vstd::slice::slice_subrange(line, 2, line.len()));
            assert(line@.subrange(2, line@.len() as int) =~= l.skip(2));
            if verts_ok {
                if fields.len() == 3 {
                    let ghost before = verts.deep_view();
                    let ghost old_v = verts@;
                    verts.push(fields);
                    assert(verts@ == old_v.push(fields));
                    assert(verts.deep_view() =~= before.push(line_fields(l)));
                } else {
                    verts_ok = false;
                }
            }
        } else if kind == LineKind::Face {
            let fields = split_ascii_whitespace(vstd::slice::slice_subrange(line, 2, line.len()));
            assert(line@.subrange(2, line@.len() as int) =~= l.skip(2));
            if faces_ok {
                match parse_face(&fields) {
                    Some(f) => {
                        faces.push(f);
                    },
                    None => {
                        faces_ok = false;
                    },
                }
            }
        }
        k = k + 1;
    }
    assert(ls.take(lines@.len() as int) =~= ls);
    let vertices = if verts_ok {
        Some(verts)
    } else {
        None
    };
    let faces = if faces_ok {
        Some(faces)
    } else {
        None
    };
    ObjScan { vertices, faces }
}

/// A non-empty string of ASCII decimal digit bytes.
pub open spec fn digit_bytes(d: Seq<u8>) -> bool {
    d.len() > 0 && forall|i: int| 0 <= i < d.len() ==> 0x30u8 <= #[trigger] d[i] <= 0x39u8
}

/// The value of a string of decimal digit bytes.
pub open spec fn digit_bytes_value(d: Seq<u8>) -> nat {
    digits_value(byte_codes(d))
}

proof fn lemma_digit_field(d: Seq<u8>)
    requires
        digit_bytes(d),
        digit_bytes_value(d) <= u32_max(),
    ensures
        field_value(d) == Some(digit_bytes_value(d)),
{
    let c = byte_codes(d);
    assert(unsigned_digits(c) == c);
    assert forall|i: int| 0 <= i < c.len() implies is_digit_code(#[trigger] c[i]) by {
        assert(0x30u8 <= d[i] <= 0x39u8);
    }
}

/// An `f ` line of three or four decimal vertex numbers, one space apart,
/// is read as the face of those numbers.
pub proof fn lemma_written_face_reads_back(ds: Seq<Seq<u8>>)
    requires
        ds.len() == 3 || ds.len() == 4,
        forall|i: int|
            0 <= i < ds.len() ==> digit_bytes(#[trigger] ds[i]) && digit_bytes_value(ds[i])
                <= u32_max(),
    ensures
        is_face_line(seq![0x66u8, 0x20u8] + joined(ds, 0x20u8)),
        face_of(line_fields(seq![0x66u8, 0x20u8] + joined(ds, 0x20u8))) == Some(
            Face {
                a: digit_bytes_value(ds[0]) as u32,
                b: digit_bytes_value(ds[1]) as u32,
                c: digit_bytes_value(ds[2]) as u32,
                d: if ds.len() == 4 {
                    digit_bytes_value(ds[3]) as u32
                } else {
                    0
                },
            },
        ),
{
    let line = seq![0x66u8, 0x20u8] + joined(ds, 0x20u8);
    assert(line.skip(2) =~= joined(ds, 0x20u8));
    assert forall|i: int, j: int| 0 <= i < ds.len() && 0 <= j < ds[i].len() implies !ascii_sep()(
        #[trigger] ds[i][j],
    ) by {
        assert(digit_bytes(ds[i]));
    }
    assert forall|i: int| 0 <= i < ds.len() implies #[trigger] ds[i].len() > 0 by {
        assert(digit_bytes(ds[i]));
    }
    lemma_words_of_joined(ds, 0x20u8, ascii_sep());
    assert(line_fields(line) == ds);
    assert forall|i: int| 0 <= i < ds.len() implies #[trigger] field_value(ds[i]) is Some by {
        lemma_digit_field(ds[i]);
    }
    lemma_digit_field(ds[0]);
    lemma_digit_field(ds[1]);
    lemma_digit_field(ds[2]);
    if ds.len() == 4 {
        lemma_digit_field(ds[3]);
    }
}

/// A `v ` line of three fields, one space apart, is read as those three
/// fields.
pub proof fn lemma_written_vertex_reads_back(ws: Seq<Seq<u8>>)
    requires
        ws.len() == 3,
        forall|i: int| 0 <= i < ws.len() ==> #[trigger] ws[i].len() > 0,
        forall|i: int, j: int|
            0 <= i < ws.len() && 0 <= j < ws[i].len() ==> !is_ascii_ws(#[trigger] ws[i][j]),
    ensures
        vertex_fields(seq![seq![0x76u8, 0x20u8] + joined(ws, 0x20u8)]) == Some(seq![ws]),
{
    let line = seq![0x76u8, 0x20u8] + joined(ws, 0x20u8);
    assert(line.skip(2) =~= joined(ws, 0x20u8));
    lemma_words_of_joined(ws, 0x20u8, ascii_sep());
    assert(line_fields(line) == ws);
    assert(line[0] == 0x76u8 && line[1] == 0x20u8);
    assert(is_vertex_line(line));
    let ls = seq![line];
    assert(ls.drop_last() =~= Seq::<Seq<u8>>::empty());
    assert(vertex_fields(ls.drop_last()) == Some(Seq::<Seq<Seq<u8>>>::empty()));
    assert(ls.last() == line);
    assert(Seq::<Seq<Seq<u8>>>::empty().push(ws) =~= seq![ws]);
}

/// A face is read only from three or four fields that are all `u32`
/// numbers, and its vertex numbers are their values in order (`d` zero for
/// three fields).
pub proof fn lemma_face_from_three_or_four_numbers(w: Seq<Seq<u8>>)
    ensures
        face_of(w) is Some <==> ((w.len() == 3 || w.len() == 4) && forall|j: int|
            0 <= j < w.len() ==> #[trigger] parse_unsigned(byte_codes(w[j]), 0xFFFF_FFFFnat) is Some),
        face_of(w) matches Some(f) ==> {
            &&& f.a as nat == parse_unsigned(byte_codes(w[0]), 0xFFFF_FFFFnat).unwrap()
            &&& f.b as nat == parse_unsigned(byte_codes(w[1]), 0xFFFF_FFFFnat).unwrap()
            &&& f.c as nat == parse_unsigned(byte_codes(w[2]), 0xFFFF_FFFFnat).unwrap()
            &&& w.len() == 3 ==> f.d == 0
            &&& w.len() == 4 ==> f.d as nat == parse_unsigned(byte_codes(w[3]), 0xFFFF_FFFFnat).unwrap()
        },
{
    if (w.len() == 3 || w.len() == 4) && forall|j: int|
        0 <= j < w.len() ==> #[trigger] parse_unsigned(byte_codes(w[j]), 0xFFFF_FFFFnat) is Some {
        assert(forall|j: int| 0 <= j < w.len() ==> #[trigger] field_value(w[j]) is Some);
        assert(field_value(w[0]) is Some && field_value(w[1]) is Some && field_value(w[2]) is Some);
        if w.len() == 4 {
            assert(field_value(w[3]) is Some);
        }
    } else if face_of(w) is Some {
        assert(forall|j: int| 0 <= j < w.len() ==> #[trigger] field_value(w[j]) is Some);
        assert forall|j: int| 0 <= j < w.len() implies #[trigger] parse_unsigned(
            byte_codes(w[j]),
            0xFFFF_FFFFnat,
        ) is Some by {
            assert(field_value(w[j]) is Some);
        }
    }
}

/// The faces of a model are read exactly when every `f ` line has three or
/// four fields after its first two bytes and each is a `u32` number.
pub proof fn lemma_faces_read_iff_every_face_line_is_a_face(ls: Seq<Seq<u8>>)
    ensures
        faces_of(ls) is Some <==> forall|i: int|
            0 <= i < ls.len() && is_face_line(#[trigger] ls[i]) ==> ((ascii_words(ls[i].skip(2)).len()
                == 3 || ascii_words(ls[i].skip(2)).len() == 4) && forall|j: int|
                0 <= j < ascii_words(ls[i].skip(2)).len() ==> #[trigger] parse_unsigned(
                    byte_codes(ascii_words(ls[i].skip(2))[j]),
                    0xFFFF_FFFFnat,
                ) is Some),
        faces_of(ls) matches Some(fs) ==> fs.len() <= ls.len(),
    decreases ls.len(),
{
    if ls.len() > 0 {
        let init = ls.drop_last();
        let l = ls.last();
        lemma_faces_read_iff_every_face_line_is_a_face(init);
        lemma_face_from_three_or_four_numbers(line_fields(l));
        assert(forall|i: int| 0 <= i < init.len() ==> init[i] == ls[i]);
        assert(ls[ls.len() - 1] == l);
    }
}

/// The vertices of a model are read exactly when every `v ` line has three
/// fields after its first two bytes; each read vertex is those fields.
pub proof fn lemma_vertices_read_iff_every_vertex_line_has_three_fields(ls: Seq<Seq<u8>>)
    ensures
        vertex_fields(ls) is Some <==> forall|i: int|
            0 <= i < ls.len() && is_vertex_line(#[trigger] ls[i]) ==> ascii_words(ls[i].skip(2)).len()
                == 3,
        vertex_fields(ls) matches Some(vs) ==> forall|k: int|
            0 <= k < vs.len() ==> #[trigger] vs[k].len() == 3,
    decreases ls.len(),
{
    if ls.len() > 0 {
        let init = ls.drop_last();
        lemma_vertices_read_iff_every_vertex_line_has_three_fields(init);
        assert(forall|i: int| 0 <= i < init.len() ==> init[i] == ls[i]);
        assert(ls[ls.len() - 1] == ls.last());
    }
}

// ---------------------------------------------------------------------------
// Triangles
// ---------------------------------------------------------------------------

/// The zero-based index of a vertex number, or nothing for the number 0.
pub open spec fn nonzero_index(x: u32) -> Seq<u32> {
    if x == 0 {
        seq![]
    } else {
        seq![(x - 1) as u32]
    }
}

/// The vertex indices that a face adds to the index list: a triangle adds
/// the zero-based indices of its non-zero vertex numbers; a quad adds the
/// two triangles `a b c` and `a c d`.
pub open spec fn face_indices(f: Face) -> Seq<u32> {
    if f.d == 0 {
        nonzero_index(f.a) + nonzero_index(f.b) + nonzero_index(f.c)
    } else {
        seq![
            (f.a - 1) as u32,
            (f.b - 1) as u32,
            (f.c - 1) as u32,
            (f.a - 1) as u32,
            (f.c - 1) as u32,
            (f.d - 1) as u32,
        ]
    }
}

/// A face whose indices can be taken: a triangle, or a quad whose first
/// three vertex numbers are not zero. For a quad with a zero among them the
/// viewer subtracts one from zero and stops.
pub open spec fn face_indexable(f: Face) -> bool {
    f.d == 0 || (f.a > 0 && f.b > 0 && f.c > 0)
}

/// The index list of a list of faces: their indices, face after face.
pub open spec fn all_indices(fs: Seq<Face>) -> Seq<u32>
    decreases fs.len(),
{
    if fs.len() == 0 {
        seq![]
    } else {
        all_indices(fs.drop_last()) + face_indices(fs.last())
    }
}

/// Turns faces into a list of triangle vertex indices.
pub fn triangulate(faces: &Vec<Face>) -> (r: Vec<u32>)
    requires
        forall|i: int| 0 <= i < faces@.len() ==> face_indexable(#[trigger] faces@[i]),
    ensures
        r@ == all_indices(faces@),
{
    let mut r: Vec<u32> = Vec::new();
    let mut k: usize = 0;
    while k < faces.len()
        invariant
            k <= faces@.len(),
            forall|i: int| 0 <= i < faces@.len() ==> face_indexable(#[trigger] faces@[i]),
            r@ == all_indices(faces@.take(k as int)),
        decreases faces@.len() - k,
    {
        let f = faces[k];
        assert(face_indexable(faces@[k as int]));
        assert(faces@.take(k + 1).drop_last() =~= faces@.take(k as int));
        let ghost before = r@;
        if f.d == 0 {
            if f.a != 0 {
                r.push(f.a - 1);
            }
            if f.b != 0 {
                r.push(f.b - 1);
            }
            if f.c != 0 {
                r.push(f.c - 1);
            }
        } else {
            r.push(f.a - 1);
            r.push(f.b - 1);
            r.push(f.c - 1);
            r.push(f.a - 1);
            r.push(f.c - 1);
            r.push(f.d - 1);
        }
        assert(r@ =~= before + face_indices(f));
        k = k + 1;
    }
    assert(faces@.take(faces@.len() as int) =~= faces@);
    r
}

/// Whether the indices of every face can be taken.
pub fn faces_indexable(faces: &Vec<Face>) -> (r: bool)
    ensures
        r == (forall|i: int| 0 <= i < faces@.len() ==> face_indexable(#[trigger] faces@[i])),
{
    let mut k: usize = 0;
    while k < faces.len()
        invariant
            k <= faces@.len(),
            forall|i: int| 0 <= i < k ==> face_indexable(#[trigger] faces@[i]),
        decreases faces@.len() - k,
    {
        let f = faces[k];
        if !(f.d == 0 || (f.a > 0 && f.b > 0 && f.c > 0)) {
            assert(!face_indexable(faces@[k as int]));
            return false;
        }
        k = k + 1;
    }
    true
}

/// The indices of one face: a triangle of non-zero vertex numbers `a b c`
/// gives `a-1 b-1 c-1`; a quad `a b c d` gives the triangles `a b c` and
/// `a c d`, zero-based.
pub proof fn lemma_one_face_indices(f: Face)
    requires
        face_indexable(f),
    ensures
        f.d == 0 && f.a > 0 && f.b > 0 && f.c > 0 ==> all_indices(seq![f]) == seq![
            (f.a - 1) as u32,
            (f.b - 1) as u32,
            (f.c - 1) as u32,
        ],
        f.d != 0 ==> all_indices(seq![f]) == seq![
            (f.a - 1) as u32,
            (f.b - 1) as u32,
            (f.c - 1) as u32,
            (f.a - 1) as u32,
            (f.c - 1) as u32,
            (f.d - 1) as u32,
        ],
        f.d == 0 ==> all_indices(seq![f]).len() <= 3,
{
    let fs = seq![f];
    assert(fs.drop_last() =~= Seq::<Face>::empty());
    assert(fs.last() == f);
    assert(all_indices(Seq::<Face>::empty()) =~= Seq::<u32>::empty());
    assert(all_indices(fs.drop_last()) =~= Seq::<u32>::empty());
    assert(all_indices(fs) =~= face_indices(f));
    if f.d == 0 && f.a > 0 && f.b > 0 && f.c > 0 {
        assert(face_indices(f) =~= seq![(f.a - 1) as u32, (f.b - 1) as u32, (f.c - 1) as u32]);
    }
}

/// A list of faces whose vertex numbers are all non-zero gives three indices
/// per triangle and six per quad.
pub proof fn lemma_index_count(fs: Seq<Face>)
    requires
        forall|i: int|
            0 <= i < fs.len() ==> (#[trigger] fs[i]).a > 0 && fs[i].b > 0 && fs[i].c > 0,
    ensures
        all_indices(fs).len() == 3 * fs.len() + 3 * fs.filter(|f: Face| f.d != 0).len(),
    decreases fs.len(),
{
    reveal_with_fuel(Seq::filter, 1);
    if fs.len() > 0 {
        let init = fs.drop_last();
        assert(forall|i: int| 0 <= i < init.len() ==> init[i] == fs[i]);
        lemma_index_count(init);
        assert(fs.filter(|f: Face| f.d != 0) == init.filter(|f: Face| f.d != 0) + (if fs.last().d
            != 0 {
            seq![fs.last()]
        } else {
            Seq::<Face>::empty()
        })) by {
            assert(init =~= fs.drop_last());
        }
        let f = fs.last();
        assert(f == fs[fs.len() - 1]);
        if f.d == 0 {
            assert(face_indices(f).len() == 3);
        }
    }
}

/// Taking the indices of two lists of faces one after the other gives their
/// two index lists one after the other.
pub proof fn lemma_indices_concat(f1: Seq<Face>, f2: Seq<Face>)
    ensures
        all_indices(f1 + f2) == all_indices(f1) + all_indices(f2),
    decreases f2.len(),
{
    if f2.len() == 0 {
        assert(f1 + f2 =~= f1);
        assert(all_indices(f1) + all_indices(f2) =~= all_indices(f1));
    } else {
        lemma_indices_concat(f1, f2.drop_last());
        assert((f1 + f2).drop_last() =~= f1 + f2.drop_last());
        assert((f1 + f2).last() == f2.last());
        assert(all_indices(f1) + all_indices(f2) =~= all_indices(f1) + all_indices(f2.drop_last())
            + face_indices(f2.last()));
    }
}

/// When every vertex number of every face is at most `n`, every index is
/// below `n`: the index list only points at vertices the model has.
pub proof fn lemma_indices_in_range(fs: Seq<Face>, n: nat)
    requires
        forall|i: int|
            0 <= i < fs.len() ==> face_indexable(#[trigger] fs[i]) && fs[i].a <= n && fs[i].b <= n
                && fs[i].c <= n && fs[i].d <= n,
    ensures
        forall|k: int| 0 <= k < all_indices(fs).len() ==> #[trigger] all_indices(fs)[k] < n,
    decreases fs.len(),
{
    if fs.len() > 0 {
        lemma_indices_in_range(fs.drop_last(), n);
        let f = fs.last();
        assert(face_indexable(fs[fs.len() - 1]));
        let prev = all_indices(fs.drop_last());
        let last = face_indices(f);
        assert(forall|k: int| 0 <= k < last.len() ==> #[trigger] last[k] < n);
        assert forall|k: int| 0 <= k < all_indices(fs).len() implies #[trigger] all_indices(fs)[k]
            < n by {
            if k < prev.len() {
                assert(all_indices(fs)[k] == prev[k]);
            } else {
                assert(all_indices(fs)[k] == last[k - prev.len()]);
            }
        }
    }
}

// ---------------------------------------------------------------------------
// Accepting a model
// ---------------------------------------------------------------------------

/// Whether a path ends in `.ppm`.
pub open spec fn has_ppm_suffix(p: Seq<char>) -> bool {
    p.len() >= 4 && p.skip(p.len() - 4) == seq!['.', 'p', 'p', 'm']
}

/// A path has the PPM suffix exactly when it is some path followed by
/// `.ppm`.
pub proof fn lemma_ppm_suffix_is_dot_ppm(p: Seq<char>)
    ensures
        has_ppm_suffix(p) <==> exists|q: Seq<char>| p == q + seq!['.', 'p', 'p', 'm'],
{
    if has_ppm_suffix(p) {
        let q = p.take(p.len() - 4);
        assert(p =~= q + seq!['.', 'p', 'p', 'm']);
    }
    if exists|q: Seq<char>| p == q + seq!['.', 'p', 'p', 'm'] {
        let q = choose|q: Seq<char>| p == q + seq!['.', 'p', 'p', 'm'];
        assert(p.skip(p.len() - 4) =~= seq!['.', 'p', 'p', 'm']);
    }
}

/// Whether a texture path names a PPM file, as `str::ends_with(".ppm")`.
pub fn is_ppm_path(path: &str) -> (r: bool)
    ensures
        r == has_ppm_suffix(path@),
{
    let n = path.unicode_len();
    if n < 4 {
        return false;
    }
    let r = path.get_char(n - 4) == '.' && path.get_char(n - 3) == 'p' && path.get_char(n - 2)
        == 'p' && path.get_char(n - 1) == 'm';
    let ghost tail = path@.skip(n - 4);
    assert(tail[0] == path@[n - 4]);
    assert(tail[1] == path@[n - 3]);
    assert(tail[2] == path@[n - 2]);
    assert(tail[3] == path@[n - 1]);
    if r {
        assert(tail =~= seq!['.', 'p', 'p', 'm']);
    }
    r
}

/// What the viewer decides once the model's lines are read: the vertex
/// error first (a `v ` line of another length, or a field that is not a
/// number), then the face error, then the index list, provided that the
/// texture path ends in `.ppm`.
pub open spec fn geometry_outcome(
    vertices_read: bool,
    values_ok: bool,
    faces: Option<Seq<Face>>,
    texture_path: Seq<char>,
) -> Result<Seq<u32>, LoadError> {
    if !vertices_read || !values_ok {
        Err(LoadError::VertexData)
    } else {
        match faces {
            None => Err(LoadError::FaceData),
            Some(fs) => if has_ppm_suffix(texture_path) {
                Ok(all_indices(fs))
            } else {
                Err(LoadError::TextureFormat)
            },
        }
    }
}

/// The geometry can be finished without stopping: when the vertices and
/// faces are accepted, every face's indices can be taken.
pub open spec fn geometry_indexable(vertices_read: bool, values_ok: bool, faces: Option<Seq<Face>>) -> bool {
    vertices_read && values_ok && faces is Some ==> forall|i: int|
        0 <= i < faces.unwrap().len() ==> face_indexable(#[trigger] faces.unwrap()[i])
}

/// Decides whether a scanned model is accepted and, if it is, gives its
/// index list. `values_ok` tells whether every vertex field is a number.
pub fn finish_geometry(scan: &ObjScan, values_ok: bool, texture_path: &str) -> (r: Result<
    Vec<u32>,
    LoadError,
>)
    requires
        geometry_indexable(scan.vertices is Some, values_ok, opt_view(scan.faces)),
    ensures
        match r {
            Ok(v) => geometry_outcome(
                scan.vertices is Some,
                values_ok,
                opt_view(scan.faces),
                texture_path@,
            ) == Ok::<Seq<u32>, LoadError>(v@),
            Err(e) => geometry_outcome(
                scan.vertices is Some,
                values_ok,
                opt_view(scan.faces),
                texture_path@,
            ) == Err::<Seq<u32>, LoadError>(e),
        },
        scan.vertices is None || !values_ok ==> r == Err::<Vec<u32>, LoadError>(
            LoadError::VertexData,
        ),
        scan.vertices is Some && values_ok && scan.faces is None ==> r == Err::<Vec<u32>, LoadError>(
            LoadError::FaceData,
        ),
        scan.vertices is Some && values_ok && scan.faces is Some && !has_ppm_suffix(texture_path@)
            ==> r == Err::<Vec<u32>, LoadError>(LoadError::TextureFormat),
        r is Ok <==> (scan.vertices is Some && values_ok && scan.faces is Some && has_ppm_suffix(
            texture_path@,
        )),
        r matches Ok(v) ==> v@ == all_indices(scan.faces.unwrap()@),
{
    if scan.vertices.is_none() || !values_ok {
        return Err(LoadError::VertexData);
    }
    match &scan.faces {
        None => Err(LoadError::FaceData),
        Some(fs) => {
            let indices = triangulate(fs);
            if is_ppm_path(texture_path) {
                Ok(indices)
            } else {
                Err(LoadError::TextureFormat)
            }
        },
    }
}

/// How texture coordinates are given to the vertices.
#[derive(Clone, Copy, Debug, PartialEq, Eq, Structural)]
pub enum UvMapping {
    /// Projected on the face of the box that the vertex direction points to.
    Box,
    /// Spherical coordinates around the centre of the bounding box.
    Sphere,
    /// No coordinates are given.
    Unmapped,
}

/// The mapping that a model kind asks for: `42` the box mapping, `sphere`
/// the spherical one, any other kind none.
pub open spec fn uv_mapping_of(kind: Seq<char>) -> UvMapping {
    if kind == "42"@ {
        UvMapping::Box
    } else if kind == "sphere"@ {
        UvMapping::Sphere
    } else {
        UvMapping::Unmapped
    }
}

/// Whether two strings hold the same characters.
pub fn str_equal(a: &str, b: &str) -> (r: bool)
    ensures
        r == (a@ == b@),
{
    let n = a.unicode_len();
    if n != b.unicode_len() {
        return false;
    }
    let mut i: usize = 0;
    while i < n
        invariant
            n == a@.len(),
            n == b@.len(),
            i <= n,
            forall|j: int| 0 <= j < i ==> a@[j] == b@[j],
        decreases n - i,
    {
        if a.get_char(i) != b.get_char(i) {
            return false;
        }
        i = i + 1;
    }
    assert(a@ =~= b@);
    true
}

/// The texture mapping for a model kind.
pub fn uv_mapping(kind: &str) -> (r: UvMapping)
    ensures
        r == uv_mapping_of(kind@),
{
    if str_equal(kind, "42") {
        UvMapping::Box
    } else if str_equal(kind, "sphere") {
        UvMapping::Sphere
    } else {
        UvMapping::Unmapped
    }
}

} // verus!

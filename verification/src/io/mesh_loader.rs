//! Wavefront OBJ reading: the record structure of the text, vertex welding and fan
//! triangulation. Coordinates stay text here (each token checked against the float grammar);
//! turning them into numbers is left to the caller.

use crate::text::{
    chars_of, decimal_string, decimal_text, find_from, first_sep, is_float_literal, is_float_literal_chars,
    lemma_segments_unfold, lemma_ws_tokens_nonempty, parse_usize, parse_usize_spec, segments,
    string_from_chars, sub_chars, token_views, ws_tokens, ws_tokens_in,
};
use vstd::prelude::*;

verus! {

/// A welded vertex: 0-based indices into the position, texture-coordinate and normal lists.
#[derive(Clone, Copy, PartialEq, Eq, Structural, Debug)]
pub struct ObjVertexRef {
    pub position: usize,
    pub texcoord: usize,
    pub normal: Option<usize>,
}

/// What an OBJ text describes, as the specification sees it.
pub struct ObjModel {
    /// The coordinate tokens of each `v` record (three each).
    pub positions: Seq<Seq<Seq<char>>>,
    /// The coordinate tokens of each `vt` record (two each).
    pub texcoords: Seq<Seq<Seq<char>>>,
    /// The coordinate tokens of each `vn` record (three each).
    pub normals: Seq<Seq<Seq<char>>>,
    /// The distinct face corners, in order of first use.
    pub vertices: Seq<ObjVertexRef>,
    /// Three vertex indices per triangle.
    pub indices: Seq<u32>,
}

pub open spec fn empty_model() -> ObjModel {
    ObjModel {
        positions: seq![],
        texcoords: seq![],
        normals: seq![],
        vertices: seq![],
        indices: seq![],
    }
}

/// `"Line <n+1>: <detail>"`, the form of the errors that name a line (`line` counts from 0).
pub open spec fn line_error(line: nat, detail: Seq<char>) -> Seq<char> {
    "Line "@ + decimal_text(line + 1) + ": "@ + detail
}

/// The error for a reference to a face corner that cannot be read.
pub open spec fn quoted(prefix: Seq<char>, text: Seq<char>, suffix: Seq<char>) -> Seq<char> {
    prefix + "'"@ + text + "'"@ + suffix
}

/// The first problem with the coordinates of a `v`, `vt` or `vn` record, checking
/// `labels[k..]` in order: a missing token or one that is no float.
pub open spec fn coordinate_error(
    toks: Seq<Seq<char>>,
    line: nat,
    labels: Seq<&str>,
    k: nat,
) -> Option<Seq<char>>
    decreases labels.len() - k,
{
    if k >= labels.len() {
        None
    } else if k + 1 >= toks.len() {
        Some(line_error(line, "missing "@ + labels[k as int]@))
    } else if !is_float_literal(toks[(k + 1) as int]) {
        Some(line_error(line, "invalid float for "@ + labels[k as int]@))
    } else {
        coordinate_error(toks, line, labels, k + 1)
    }
}

/// The coordinates of a `v`, `vt` or `vn` record: the tokens after the keyword, one per label;
/// further tokens are ignored.
pub open spec fn coordinates(toks: Seq<Seq<char>>, line: nat, labels: Seq<&str>) -> Result<
    Seq<Seq<char>>,
    Seq<char>,
> {
    match coordinate_error(toks, line, labels, 0) {
        Some(e) => Err(e),
        None => Ok(toks.subrange(1, (labels.len() + 1) as int)),
    }
}

/// A face corner `p/t[/n...]` with 1-based indices, read into 0-based ones. The position and
/// texture indices are required; an empty or absent third field means no normal; fields after
/// the third are ignored.
pub open spec fn face_corner(token: Seq<char>, line: nat) -> Result<ObjVertexRef, Seq<char>> {
    let f = segments(token, '/');
    if f.len() < 2 {
        Err(line_error(line, quoted("face vertex "@, token, " is missing UV index"@)))
    } else if f[1].len() == 0 {
        Err(line_error(line, quoted("face vertex "@, token, " has empty UV index"@)))
    } else {
        match parse_usize_spec(f[0]) {
            None => Err(line_error(line, quoted("invalid position index "@, f[0], seq![]))),
            Some(p) => match parse_usize_spec(f[1]) {
                None => Err(line_error(line, quoted("invalid UV index "@, f[1], seq![]))),
                Some(t) => {
                    let n: Result<Option<nat>, Seq<char>> = if f.len() >= 3 && f[2].len() > 0 {
                        match parse_usize_spec(f[2]) {
                            None => Err(line_error(line, quoted("invalid normal index "@, f[2], seq![]))),
                            Some(n) => Ok(Some(n)),
                        }
                    } else {
                        Ok(None)
                    };
                    match n {
                        Err(e) => Err(e),
                        Ok(n) => if p == 0 || t == 0 {
                            Err(line_error(line, "OBJ indices are 1-based, found zero index"@))
                        } else if n == Some(0nat) {
                            Err(line_error(line, "OBJ indices are 1-based, found zero normal index"@))
                        } else {
                            Ok(
                                ObjVertexRef {
                                    position: (p - 1) as usize,
                                    texcoord: (t - 1) as usize,
                                    normal: match n {
                                        Some(v) => Some((v - 1) as usize),
                                        None => None,
                                    },
                                },
                            )
                        },
                    }
                },
            },
        }
    }
}

/// Welding of one face corner after `verts` and `face`: the corner reuses the vertex with the
/// same three indices when there is one, and is appended otherwise. `npos`, `ntex` and `nnorm`
/// are the numbers of positions, texture coordinates and normals read so far.
pub open spec fn weld_step(
    npos: nat,
    ntex: nat,
    nnorm: nat,
    verts: Seq<ObjVertexRef>,
    face: Seq<u32>,
    token: Seq<char>,
    line: nat,
) -> Result<(Seq<ObjVertexRef>, Seq<u32>), Seq<char>> {
    match face_corner(token, line) {
        Err(e) => Err(e),
        Ok(r) => if r.position >= npos {
            Err(line_error(line, "position index out of bounds"@))
        } else if r.texcoord >= ntex {
            Err(line_error(line, "UV index out of bounds"@))
        } else if r.normal is Some && r.normal->0 >= nnorm {
            Err(line_error(line, "normal index out of bounds"@))
        } else if verts.contains(r) {
            Ok((verts, face.push(verts.index_of(r) as u32)))
        } else if verts.len() > u32::MAX {
            Err("Too many vertices for u32 index buffer"@)
        } else {
            Ok((verts.push(r), face.push(verts.len() as u32)))
        },
    }
}

/// Welding of the first `n` corners of a face: the vertex list after them and the vertex index
/// of each corner.
pub open spec fn weld_corners(m: ObjModel, corners: Seq<Seq<char>>, line: nat, n: nat) -> Result<
    (Seq<ObjVertexRef>, Seq<u32>),
    Seq<char>,
>
    decreases n,
{
    if n == 0 {
        Ok((m.vertices, seq![]))
    } else {
        match weld_corners(m, corners, line, (n - 1) as nat) {
            Err(e) => Err(e),
            Ok((verts, face)) => weld_step(
                m.positions.len(),
                m.texcoords.len(),
                m.normals.len(),
                verts,
                face,
                corners[n - 1],
                line,
            ),
        }
    }
}

proof fn lemma_weld_error_stays(m: ObjModel, corners: Seq<Seq<char>>, line: nat, k: nat, n: nat)
    requires
        k <= n,
        weld_corners(m, corners, line, k) is Err,
    ensures
        weld_corners(m, corners, line, n) == weld_corners(m, corners, line, k),
    decreases n - k,
{
    if k < n {
        lemma_weld_error_stays(m, corners, line, k, (n - 1) as nat);
    }
}

/// Fan triangulation of a polygon: `(f0, f1, f2), (f0, f2, f3), ...`.
pub open spec fn fan(face: Seq<u32>) -> Seq<u32> {
    Seq::new(
        (3 * (face.len() - 2)) as nat,
        |k: int|
            if k % 3 == 0 {
                face[0]
            } else if k % 3 == 1 {
                face[k / 3 + 1]
            } else {
                face[k / 3 + 2]
            },
    )
}

/// An `f` record with its corner tokens.
pub open spec fn face_record(m: ObjModel, corners: Seq<Seq<char>>, line: nat) -> Result<ObjModel, Seq<char>> {
    if corners.len() < 3 {
        Err(line_error(line, "face has fewer than 3 vertices"@))
    } else {
        match weld_corners(m, corners, line, corners.len()) {
            Err(e) => Err(e),
            Ok((verts, face)) => Ok(ObjModel { vertices: verts, indices: m.indices + fan(face), ..m }),
        }
    }
}

pub open spec fn position_labels() -> Seq<&'static str> {
    seq!["x", "y", "z"]
}

pub open spec fn texcoord_labels() -> Seq<&'static str> {
    seq!["u", "v"]
}

pub open spec fn normal_labels() -> Seq<&'static str> {
    seq!["nx", "ny", "nz"]
}

/// One line, given by its white-space separated tokens (`line` counts from 0). Blank lines and
/// comments (`#` first) are skipped, as are records of other kinds.
#[verifier::opaque]
pub open spec fn record_step(m: ObjModel, toks: Seq<Seq<char>>, line: nat) -> Result<ObjModel, Seq<char>> {
    if toks.len() == 0 || toks[0][0] == '#' {
        Ok(m)
    } else if toks[0] == seq!['v'] {
        match coordinates(toks, line, position_labels()) {
            Err(e) => Err(e),
            Ok(c) => Ok(ObjModel { positions: m.positions.push(c), ..m }),
        }
    } else if toks[0] == seq!['v', 't'] {
        match coordinates(toks, line, texcoord_labels()) {
            Err(e) => Err(e),
            Ok(c) => Ok(ObjModel { texcoords: m.texcoords.push(c), ..m }),
        }
    } else if toks[0] == seq!['v', 'n'] {
        match coordinates(toks, line, normal_labels()) {
            Err(e) => Err(e),
            Ok(c) => Ok(ObjModel { normals: m.normals.push(c), ..m }),
        }
    } else if toks[0] == seq!['f'] {
        face_record(m, toks.drop_first(), line)
    } else {
        Ok(m)
    }
}

/// The records in order, stopping at the first error.
pub open spec fn parse_records(recs: Seq<Seq<Seq<char>>>) -> Result<ObjModel, Seq<char>>
    decreases recs.len(),
{
    if recs.len() == 0 {
        Ok(empty_model())
    } else {
        match parse_records(recs.drop_last()) {
            Err(e) => Err(e),
            Ok(m) => record_step(m, recs.last(), (recs.len() - 1) as nat),
        }
    }
}

/// The lines of an OBJ text (cut at `'\n'`), each as its white-space separated tokens.
pub open spec fn obj_records(s: Seq<char>) -> Seq<Seq<Seq<char>>> {
    records_of(segments(s, '\n'))
}

/// Each line as its white-space separated tokens.
pub open spec fn records_of(lines: Seq<Seq<char>>) -> Seq<Seq<Seq<char>>> {
    lines.map_values(|l: Seq<char>| ws_tokens(l))
}

/// What reading an OBJ text gives: the model, or the message of the first error; a text without
/// any triangle is refused.
pub open spec fn parse_obj_spec(s: Seq<char>) -> Result<ObjModel, Seq<char>> {
    match parse_records(obj_records(s)) {
        Err(e) => Err(e),
        Ok(m) => if m.vertices.len() == 0 || m.indices.len() == 0 {
            Err("OBJ did not contain any renderable faces with UVs"@)
        } else {
            Ok(m)
        },
    }
}

} // verus!

verus! {

/// The OBJ text read: coordinate tokens, welded vertices and triangle indices.
pub struct ObjDocument {
    pub positions: Vec<Vec<Vec<char>>>,
    pub texcoords: Vec<Vec<Vec<char>>>,
    pub normals: Vec<Vec<Vec<char>>>,
    pub vertices: Vec<ObjVertexRef>,
    pub indices: Vec<u32>,
}

pub open spec fn record_views(v: Seq<Vec<Vec<char>>>) -> Seq<Seq<Seq<char>>> {
    v.map_values(|r: Vec<Vec<char>>| token_views(r@))
}

impl View for ObjDocument {
    type V = ObjModel;

    open spec fn view(&self) -> ObjModel {
        ObjModel {
            positions: record_views(self.positions@),
            texcoords: record_views(self.texcoords@),
            normals: record_views(self.normals@),
            vertices: self.vertices@,
            indices: self.indices@,
        }
    }
}

/// One welded vertex filed under its position index.
struct CornerSlot {
    texcoord: usize,
    normal: Option<usize>,
    vertex: u32,
}

/// The welding index: for each position, the vertices that use it.
spec fn index_wf(buckets: Seq<Vec<CornerSlot>>, npos: nat, verts: Seq<ObjVertexRef>) -> bool {
    &&& buckets.len() == npos
    &&& verts.no_duplicates()
    &&& verts.len() <= u32::MAX + 1
    &&& forall|p: int, k: int|
        0 <= p < buckets.len() && 0 <= k < buckets[p]@.len() ==> {
            let s = #[trigger] buckets[p]@[k];
            &&& s.vertex < verts.len()
            &&& verts[s.vertex as int] == ObjVertexRef {
                position: p as usize,
                texcoord: s.texcoord,
                normal: s.normal,
            }
        }
    &&& forall|v: int|
        0 <= v < verts.len() ==> {
            let p = (#[trigger] verts[v]).position as int;
            &&& p < buckets.len()
            &&& exists|k: int| 0 <= k < buckets[p]@.len() && #[trigger] buckets[p]@[k].vertex == v
        }
}

fn string_of(s: &str) -> (r: String)
    ensures
        r@ == s@,
{
    s.to_string()
}

/// `"Line <line+1>: <detail>"`.
fn line_message(line: usize, detail: String) -> (m: String)
    requires
        line < usize::MAX,
    ensures
        m@ == line_error(line as nat, detail@),
{
    let mut m = string_of("Line ");
    let n = decimal_string((line + 1) as u64);
    m.append(n.as_str());
    m.append(": ");
    m.append(detail.as_str());
    m
}

/// `prefix + "'" + text + "'" + suffix`.
fn quoted_message(prefix: &str, text: &Vec<char>, suffix: &str) -> (m: String)
    ensures
        m@ == quoted(prefix@, text@, suffix@),
{
    let mut m = string_of(prefix);
    m.append("'");
    let t = string_from_chars(text);
    m.append(t.as_str());
    m.append("'");
    m.append(suffix);
    m
}

/// The coordinate tokens of a `v`, `vt` or `vn` record.
fn read_coordinates(toks: &Vec<Vec<char>>, line: usize, labels: &[&str]) -> (r: Result<
    Vec<Vec<char>>,
    String,
>)
    requires
        line < usize::MAX,
        0 < labels@.len() < usize::MAX,
    ensures
        match r {
            Ok(c) => coordinates(token_views(toks@), line as nat, labels@) == Ok::<Seq<Seq<char>>, Seq<char>>(token_views(c@)),
            Err(e) => coordinates(token_views(toks@), line as nat, labels@) == Err::<Seq<Seq<char>>, Seq<char>>(e@),
        },
{
    let ghost tv = token_views(toks@);
    let mut k: usize = 0;
    let mut out: Vec<Vec<char>> = Vec::new();
    while k < labels.len()
        invariant
            k <= labels@.len() < usize::MAX,
            line < usize::MAX,
            tv == token_views(toks@),
            coordinate_error(tv, line as nat, labels@, 0) == coordinate_error(tv, line as nat, labels@, k as nat),
            k > 0 ==> token_views(out@) == tv.subrange(1, k + 1),
            k == 0 ==> out@.len() == 0,
            k + 1 <= tv.len() || k == 0,
        decreases labels.len() - k,
    {
        if k + 1 >= toks.len() {
            let mut d = string_of("missing ");
            d.append(labels[k]);
            return Err(line_message(line, d));
        }
        let tok = &toks[k + 1];
        if !is_float_literal_chars(tok) {
            let mut d = string_of("invalid float for ");
            d.append(labels[k]);
            return Err(line_message(line, d));
        }
        let ghost before = token_views(out@);
        out.push(tok.clone());
        proof {
            assert(token_views(out@) =~= before.push(tv[k + 1]));
            if k > 0 {
                assert(tv.subrange(1, k + 2) =~= tv.subrange(1, k + 1).push(tv[k + 1]));
            } else {
                assert(tv.subrange(1, 2) =~= seq![tv[1]]);
            }
        }
        k += 1;
    }
    Ok(out)
}

} // verus!

verus! {

fn parse_index_field(raw: &Vec<char>, line: usize, what: &str) -> (r: Result<usize, String>)
    requires
        line < usize::MAX,
    ensures
        match r {
            Ok(v) => parse_usize_spec(raw@) == Some(v as nat),
            Err(e) => parse_usize_spec(raw@) is None && e@ == line_error(line as nat, quoted(what@, raw@, seq![])),
        },
{
    match parse_usize(raw) {
        Some(v) => Ok(v),
        None => {
            let q = quoted_message(what, raw, "");
            assert(""@ =~= Seq::<char>::empty()) by {
                reveal_strlit("");
            }
            Err(line_message(line, q))
        },
    }
}

/// A face corner token read as `face_corner` says (`token` as characters).
#[verifier::spinoff_prover]
#[verifier::rlimit(40)]
fn face_corner_chars(token: &Vec<char>, line: usize) -> (r: Result<ObjVertexRef, String>)
    requires
        line < usize::MAX,
    ensures
        match r {
            Ok(v) => face_corner(token@, line as nat) == Ok::<ObjVertexRef, Seq<char>>(v),
            Err(e) => face_corner(token@, line as nat) == Err::<ObjVertexRef, Seq<char>>(e@),
        },
{
    let ghost s = token@;
    let ghost f = segments(s, '/');
    proof {
        lemma_segments_unfold(s, '/');
    }
    let e0 = find_from(token, 0, '/');
    assert(s.skip(0) =~= s);
    if e0 >= token.len() {
        let q = quoted_message("face vertex ", token, " is missing UV index");
        return Err(line_message(line, q));
    }
    let ghost rest1 = s.skip(e0 + 1);
    proof {
        lemma_segments_unfold(rest1, '/');
        assert(f[1] == segments(rest1, '/')[0]);
    }
    let e1 = find_from(token, e0 + 1, '/');
    assert(f[1] =~= s.subrange(e0 + 1, e1 as int));
    assert(f[0] =~= s.subrange(0, e0 as int));
    if e1 == e0 + 1 {
        let q = quoted_message("face vertex ", token, " has empty UV index");
        return Err(line_message(line, q));
    }
    let pos_raw = sub_chars(token, 0, e0);
    let uv_raw = sub_chars(token, e0 + 1, e1);
    let p = match parse_index_field(&pos_raw, line, "invalid position index ") {
        Ok(p) => p,
        Err(e) => return Err(e),
    };
    let t = match parse_index_field(&uv_raw, line, "invalid UV index ") {
        Ok(t) => t,
        Err(e) => return Err(e),
    };
    let mut n: Option<usize> = None;
    if e1 < token.len() {
        let ghost rest2 = s.skip(e1 + 1);
        proof {
            assert(rest1.skip(e1 - e0) =~= rest2);
            lemma_segments_unfold(rest2, '/');
            assert(f[2] == segments(rest2, '/')[0]);
        }
        let e2 = find_from(token, e1 + 1, '/');
        assert(f[2] =~= s.subrange(e1 + 1, e2 as int));
        if e2 > e1 + 1 {
            let normal_raw = sub_chars(token, e1 + 1, e2);
            match parse_index_field(&normal_raw, line, "invalid normal index ") {
                Ok(v) => {
                    n = Some(v);
                },
                Err(e) => return Err(e),
            }
        }
    } else {
        assert(f.len() == 2);
    }
    if p == 0 || t == 0 {
        return Err(line_message(line, string_of("OBJ indices are 1-based, found zero index")));
    }
    match n {
        Some(v) => {
            if v == 0 {
                return Err(
                    line_message(line, string_of("OBJ indices are 1-based, found zero normal index")),
                );
            }
            Ok(ObjVertexRef { position: p - 1, texcoord: t - 1, normal: Some(v - 1) })
        },
        None => Ok(ObjVertexRef { position: p - 1, texcoord: t - 1, normal: None }),
    }
}

/// Reads one face corner `p/t[/n]` of line `line_number` (counted from 0) into 0-based indices.
pub fn parse_face_vertex(token: &str, line_number: usize) -> (r: Result<(usize, usize, Option<usize>), String>)
    requires
        line_number < usize::MAX,
    ensures
        match r {
            Ok((p, t, n)) => face_corner(token@, line_number as nat) == Ok::<ObjVertexRef, Seq<char>>(
                ObjVertexRef { position: p, texcoord: t, normal: n },
            ),
            Err(e) => face_corner(token@, line_number as nat) == Err::<ObjVertexRef, Seq<char>>(e@),
        },
{
    let chars = chars_of(token);
    match face_corner_chars(&chars, line_number) {
        Ok(v) => Ok((v.position, v.texcoord, v.normal)),
        Err(e) => Err(e),
    }
}

} // verus!

verus! {

/// Looks for the vertex with texture index `t` and normal `n` in one bucket.
fn find_in_bucket(bucket: &Vec<CornerSlot>, t: usize, n: Option<usize>) -> (r: Option<u32>)
    ensures
        match r {
            Some(v) => exists|k: int|
                0 <= k < bucket@.len() && #[trigger] bucket@[k].vertex == v && bucket@[k].texcoord == t
                    && bucket@[k].normal == n,
            None => forall|k: int|
                0 <= k < bucket@.len() ==> !(#[trigger] bucket@[k].texcoord == t && bucket@[k].normal == n),
        },
{
    let mut k: usize = 0;
    while k < bucket.len()
        invariant
            k <= bucket@.len(),
            forall|j: int| 0 <= j < k ==> !(#[trigger] bucket@[j].texcoord == t && bucket@[j].normal == n),
        decreases bucket.len() - k,
    {
        let s = &bucket[k];
        let same_normal = match (s.normal, n) {
            (Some(a), Some(b)) => a == b,
            (None, None) => true,
            _ => false,
        };
        if s.texcoord == t && same_normal {
            return Some(s.vertex);
        }
        k += 1;
    }
    None
}

/// Welds one face corner (see `weld_step`) onto the document's vertices and `face`.
fn weld_one(
    doc: &mut ObjDocument,
    buckets: &mut Vec<Vec<CornerSlot>>,
    face: &mut Vec<u32>,
    token: &Vec<char>,
    line: usize,
) -> (r: Result<(), String>)
    requires
        line < usize::MAX,
        index_wf(old(buckets)@, old(doc)@.positions.len(), old(doc)@.vertices),
    ensures
        final(doc)@.positions == old(doc)@.positions,
        final(doc)@.texcoords == old(doc)@.texcoords,
        final(doc)@.normals == old(doc)@.normals,
        final(doc)@.indices == old(doc)@.indices,
        match weld_step(
            old(doc)@.positions.len(),
            old(doc)@.texcoords.len(),
            old(doc)@.normals.len(),
            old(doc)@.vertices,
            old(face)@,
            token@,
            line as nat,
        ) {
            Ok((v, f)) => r is Ok && final(doc)@.vertices == v && final(face)@ == f && index_wf(
                final(buckets)@,
                final(doc)@.positions.len(),
                final(doc)@.vertices,
            ),
            Err(e) => r is Err && r->Err_0@ == e,
        },
{
    let ghost verts = doc@.vertices;
    let c = match face_corner_chars(token, line) {
        Ok(c) => c,
        Err(e) => return Err(e),
    };
    if c.position >= doc.positions.len() {
        return Err(line_message(line, string_of("position index out of bounds")));
    }
    if c.texcoord >= doc.texcoords.len() {
        return Err(line_message(line, string_of("UV index out of bounds")));
    }
    match c.normal {
        Some(v) => {
            if v >= doc.normals.len() {
                return Err(line_message(line, string_of("normal index out of bounds")));
            }
        },
        None => {},
    }
    let found = find_in_bucket(&buckets[c.position], c.texcoord, c.normal);
    match found {
        Some(v) => {
            proof {
                let p = c.position as int;
                let kk = choose|kk: int|
                    0 <= kk < buckets@[p]@.len() && #[trigger] buckets@[p]@[kk].vertex == v
                        && buckets@[p]@[kk].texcoord == c.texcoord && buckets@[p]@[kk].normal == c.normal;
                assert(verts[v as int] == c);
                assert(verts.contains(c));
                let j = verts.index_of(c);
                assert(verts[j] == c);
                assert(j == v);
            }
            face.push(v);
            Ok(())
        },
        None => {
            proof {
                if verts.contains(c) {
                    let i = choose|i: int| 0 <= i < verts.len() && verts[i] == c;
                    let p = c.position as int;
                    let kk = choose|kk: int|
                        0 <= kk < buckets@[p]@.len() && #[trigger] buckets@[p]@[kk].vertex == i;
                    assert(buckets@[p]@[kk].texcoord == c.texcoord && buckets@[p]@[kk].normal == c.normal);
                    assert(false);
                }
            }
            if doc.vertices.len() > u32::MAX as usize {
                return Err(string_of("Too many vertices for u32 index buffer"));
            }
            let id = doc.vertices.len() as u32;
            let ghost old_buckets = buckets@;
            doc.vertices.push(c);
            buckets[c.position].push(CornerSlot { texcoord: c.texcoord, normal: c.normal, vertex: id });
            face.push(id);
            proof {
                let nv = doc@.vertices;
                assert(nv == verts.push(c));
                assert forall|i: int, j: int|
                    0 <= i < nv.len() && 0 <= j < nv.len() && i != j implies nv[i] != nv[j] by {
                    if i < verts.len() && j < verts.len() {
                    } else if i == verts.len() {
                        assert(nv[j] == verts[j]);
                    } else {
                        assert(nv[i] == verts[i]);
                    }
                }
                assert forall|p: int, kk: int|
                    0 <= p < buckets@.len() && 0 <= kk < buckets@[p]@.len() implies {
                        let s = #[trigger] buckets@[p]@[kk];
                        &&& s.vertex < nv.len()
                        &&& nv[s.vertex as int] == ObjVertexRef {
                            position: p as usize,
                            texcoord: s.texcoord,
                            normal: s.normal,
                        }
                    } by {
                    if p == c.position as int && kk == old_buckets[p]@.len() {
                    } else {
                        assert(buckets@[p]@[kk] == old_buckets[p]@[kk]);
                    }
                }
                assert forall|v: int| 0 <= v < nv.len() implies {
                    let p = (#[trigger] nv[v]).position as int;
                    &&& p < buckets@.len()
                    &&& exists|kk: int|
                        0 <= kk < buckets@[p]@.len() && #[trigger] buckets@[p]@[kk].vertex == v
                } by {
                    let p = nv[v].position as int;
                    if v == verts.len() {
                        assert(buckets@[p]@[old_buckets[p]@.len() as int].vertex == v);
                    } else {
                        assert(nv[v] == verts[v]);
                        let kk = choose|kk: int|
                            0 <= kk < old_buckets[p]@.len() && #[trigger] old_buckets[p]@[kk].vertex == v;
                        assert(buckets@[p]@[kk] == old_buckets[p]@[kk]);
                    }
                }
            }
            Ok(())
        },
    }
}

/// An `f` record: welds its corners and appends the fan triangles.
fn read_face(
    doc: &mut ObjDocument,
    buckets: &mut Vec<Vec<CornerSlot>>,
    toks: &Vec<Vec<char>>,
    line: usize,
) -> (r: Result<(), String>)
    requires
        line < usize::MAX,
        toks@.len() >= 1,
        index_wf(old(buckets)@, old(doc)@.positions.len(), old(doc)@.vertices),
    ensures
        match face_record(old(doc)@, token_views(toks@).drop_first(), line as nat) {
            Ok(m) => r is Ok && final(doc)@ == m && index_wf(
                final(buckets)@,
                final(doc)@.positions.len(),
                final(doc)@.vertices,
            ),
            Err(e) => r is Err && r->Err_0@ == e,
        },
{
    let ghost m = doc@;
    let ghost corners = token_views(toks@).drop_first();
    let n = toks.len() - 1;
    if n < 3 {
        return Err(line_message(line, string_of("face has fewer than 3 vertices")));
    }
    let mut face: Vec<u32> = Vec::new();
    let mut k: usize = 0;
    while k < n
        invariant
            m == old(doc)@,
            n == toks@.len() - 1,
            n >= 3,
            corners == token_views(toks@).drop_first(),
            k <= n,
            line < usize::MAX,
            doc@.positions == m.positions,
            doc@.texcoords == m.texcoords,
            doc@.normals == m.normals,
            doc@.indices == m.indices,
            weld_corners(m, corners, line as nat, k as nat) == Ok::<
                (Seq<ObjVertexRef>, Seq<u32>),
                Seq<char>,
            >((doc@.vertices, face@)),
            face@.len() == k,
            index_wf(buckets@, doc@.positions.len(), doc@.vertices),
        decreases n - k,
    {
        assert(corners[k as int] == toks@[k + 1]@);
        let ghost prev_verts = doc@.vertices;
        let ghost prev_face = face@;
        let step = weld_one(doc, buckets, &mut face, &toks[k + 1], line);
        assert(weld_corners(m, corners, line as nat, (k + 1) as nat) == weld_step(
            m.positions.len(),
            m.texcoords.len(),
            m.normals.len(),
            prev_verts,
            prev_face,
            corners[k as int],
            line as nat,
        ));
        match step {
            Ok(()) => {},
            Err(e) => {
                proof {
                    lemma_weld_error_stays(m, corners, line as nat, (k + 1) as nat, n as nat);
                    assert(weld_corners(m, corners, line as nat, (k + 1) as nat) == Err::<(Seq<ObjVertexRef>, Seq<u32>), Seq<char>>(e@));
                    assert(corners.len() == n);
                    assert(weld_corners(m, corners, line as nat, corners.len()) == Err::<(Seq<ObjVertexRef>, Seq<u32>), Seq<char>>(e@));
                    assert(face_record(m, corners, line as nat) == Err::<ObjModel, Seq<char>>(e@));
                }
                return Err(e);
            },
        }
        k += 1;
    }
    assert(corners.len() == n);
    let mut i: usize = 1;
    let ghost before = doc@.indices;
    let ghost welded = doc@.vertices;
    while i + 1 < face.len()
        invariant
            doc@.positions == m.positions,
            doc@.texcoords == m.texcoords,
            doc@.normals == m.normals,
            doc@.vertices == welded,
            before == m.indices,
            index_wf(buckets@, doc@.positions.len(), doc@.vertices),
            face@.len() == n >= 3,
            1 <= i <= n - 1,
            doc@.indices == before + fan(face@).take(3 * (i - 1)),
        decreases face.len() - i,
    {
        let a = face[0];
        let b = face[i];
        let c = face[i + 1];
        doc.indices.push(a);
        doc.indices.push(b);
        doc.indices.push(c);
        proof {
            let f = fan(face@);
            assert(f.take(3 * i) =~= f.take(3 * (i - 1)).push(a).push(b).push(c)) by {
                assert(f[3 * (i - 1)] == a);
                assert(f[3 * (i - 1) + 1] == b);
                assert(f[3 * (i - 1) + 2] == c);
            }
        }
        i += 1;
    }
    assert(fan(face@).take(3 * (n - 2)) =~= fan(face@));
    Ok(())
}

} // verus!

verus! {

/// Whether `t` is the keyword `word`.
fn is_keyword(t: &Vec<char>, word: &[char]) -> (r: bool)
    ensures
        r == (t@ == word@),
{
    if t.len() != word.len() {
        return false;
    }
    let mut i: usize = 0;
    while i < t.len()
        invariant
            t@.len() == word@.len(),
            i <= t@.len(),
            forall|j: int| 0 <= j < i ==> t@[j] == word@[j],
        decreases t.len() - i,
    {
        if t[i] != word[i] {
            return false;
        }
        i += 1;
    }
    assert(t@ =~= word@);
    true
}

/// Files a new position: its welding bucket starts empty.
proof fn lemma_index_new_position(
    old_buckets: Seq<Vec<CornerSlot>>,
    buckets: Seq<Vec<CornerSlot>>,
    npos: nat,
    verts: Seq<ObjVertexRef>,
)
    requires
        index_wf(old_buckets, npos, verts),
        buckets.len() == old_buckets.len() + 1,
        buckets[old_buckets.len() as int]@.len() == 0,
        forall|p: int| 0 <= p < old_buckets.len() ==> #[trigger] buckets[p] == old_buckets[p],
    ensures
        index_wf(buckets, npos + 1, verts),
{
    assert forall|v: int| 0 <= v < verts.len() implies {
        let p = (#[trigger] verts[v]).position as int;
        &&& p < buckets.len()
        &&& exists|k: int| 0 <= k < buckets[p]@.len() && #[trigger] buckets[p]@[k].vertex == v
    } by {
        let p = verts[v].position as int;
        let k = choose|k: int| 0 <= k < old_buckets[p]@.len() && #[trigger] old_buckets[p]@[k].vertex == v;
        assert(buckets[p] == old_buckets[p]);
        assert(buckets[p]@[k].vertex == v);
    }
}

/// One line of the text, given as its tokens (see `record_step`).
fn read_record(
    doc: &mut ObjDocument,
    buckets: &mut Vec<Vec<CornerSlot>>,
    toks: &Vec<Vec<char>>,
    line: usize,
) -> (r: Result<(), String>)
    requires
        toks@.len() > 0 ==> line < usize::MAX,
        forall|i: int| 0 <= i < toks@.len() ==> (#[trigger] toks@[i])@.len() > 0,
        index_wf(old(buckets)@, old(doc)@.positions.len(), old(doc)@.vertices),
    ensures
        match record_step(old(doc)@, token_views(toks@), line as nat) {
            Ok(m) => r is Ok && final(doc)@ == m && index_wf(
                final(buckets)@,
                final(doc)@.positions.len(),
                final(doc)@.vertices,
            ),
            Err(e) => r is Err && r->Err_0@ == e,
        },
{
    reveal(record_step);
    let ghost tv = token_views(toks@);
    if toks.len() == 0 {
        return Ok(());
    }
    assert(tv[0] == toks@[0]@);
    if toks[0][0] == '#' {
        return Ok(());
    }
    if is_keyword(&toks[0], &['v']) {
        assert(['v']@ =~= seq!['v']);
        let labels = ["x", "y", "z"];
        assert(labels@ =~= position_labels());
        match read_coordinates(toks, line, &labels) {
            Ok(c) => {
                let ghost old_buckets = buckets@;
                let ghost before = doc.positions@;
                doc.positions.push(c);
                buckets.push(Vec::new());
                proof {
                    assert(record_views(doc.positions@) =~= record_views(before).push(token_views(c@)));
                    lemma_index_new_position(old_buckets, buckets@, old(doc)@.positions.len(), doc@.vertices);
                }
                Ok(())
            },
            Err(e) => Err(e),
        }
    } else if is_keyword(&toks[0], &['v', 't']) {
        assert(['v', 't']@ =~= seq!['v', 't']);
        let labels = ["u", "v"];
        assert(labels@ =~= texcoord_labels());
        match read_coordinates(toks, line, &labels) {
            Ok(c) => {
                let ghost before = doc.texcoords@;
                doc.texcoords.push(c);
                proof {
                    assert(record_views(doc.texcoords@) =~= record_views(before).push(token_views(c@)));
                }
                Ok(())
            },
            Err(e) => Err(e),
        }
    } else if is_keyword(&toks[0], &['v', 'n']) {
        assert(['v', 'n']@ =~= seq!['v', 'n']);
        let labels = ["nx", "ny", "nz"];
        assert(labels@ =~= normal_labels());
        match read_coordinates(toks, line, &labels) {
            Ok(c) => {
                let ghost before = doc.normals@;
                doc.normals.push(c);
                proof {
                    assert(record_views(doc.normals@) =~= record_views(before).push(token_views(c@)));
                }
                Ok(())
            },
            Err(e) => Err(e),
        }
    } else if is_keyword(&toks[0], &['f']) {
        assert(['f']@ =~= seq!['f']);
        read_face(doc, buckets, toks, line)
    } else {
        assert(['v']@ =~= seq!['v']);
        assert(['v', 't']@ =~= seq!['v', 't']);
        assert(['v', 'n']@ =~= seq!['v', 'n']);
        assert(['f']@ =~= seq!['f']);
        Ok(())
    }
}

proof fn lemma_parse_records_error_stays(a: Seq<Seq<Seq<char>>>, b: Seq<Seq<Seq<char>>>)
    requires
        parse_records(a) is Err,
    ensures
        parse_records(a + b) == parse_records(a),
    decreases b.len(),
{
    if b.len() == 0 {
        assert(a + b =~= a);
    } else {
        lemma_parse_records_error_stays(a, b.drop_last());
        assert((a + b).drop_last() =~= a + b.drop_last());
    }
}

} // verus!

verus! {

/// The lines after `start`: the one that ends at `e` (the next `'\n'` or the end), then those after.
proof fn lemma_line_cut(s: Seq<char>, start: int, e: int)
    requires
        0 <= start <= e <= s.len(),
        e - start == first_sep(s.skip(start), '\n'),
    ensures
        segments(s.skip(start), '\n') == seq![s.subrange(start, e)] + (if e < s.len() {
            segments(s.skip(e + 1), '\n')
        } else {
            seq![]
        }),
{
    let rest = s.skip(start);
    lemma_segments_unfold(rest, '\n');
    assert(rest.take(e - start) =~= s.subrange(start, e));
    if e < s.len() {
        assert(rest.skip(e - start + 1) =~= s.skip(e + 1));
    } else {
        assert(rest =~= s.subrange(start, e));
    }
}

proof fn lemma_records_push(done: Seq<Seq<char>>, text: Seq<char>)
    ensures
        records_of(done.push(text)) == records_of(done).push(ws_tokens(text)),
        parse_records(records_of(done.push(text))) == match parse_records(records_of(done)) {
            Err(e) => Err(e),
            Ok(m) => record_step(m, ws_tokens(text), done.len()),
        },
{
    let a = records_of(done.push(text));
    let b = records_of(done);
    assert(a =~= b.push(ws_tokens(text)));
    assert(a.drop_last() =~= b);
}

proof fn lemma_records_error(lines: Seq<Seq<char>>, tail: Seq<Seq<char>>)
    requires
        parse_records(records_of(lines)) is Err,
    ensures
        parse_records(records_of(lines + tail)) == parse_records(records_of(lines)),
{
    let a = records_of(lines);
    let b = records_of(tail);
    assert(records_of(lines + tail) =~= a + b);
    lemma_parse_records_error_stays(a, b);
}

/// Reads an OBJ text (see `parse_obj_spec`): `v`, `vt` and `vn` records give coordinate tokens,
/// `f` records give polygons whose corners are welded into vertices and cut into fan triangles.
/// The first error ends the reading; a text without a triangle is refused.
#[verifier::rlimit(100)]
pub fn parse_obj(content: &str) -> (r: Result<ObjDocument, String>)
    ensures
        match parse_obj_spec(content@) {
            Ok(m) => r is Ok && r->Ok_0@ == m,
            Err(e) => r is Err && r->Err_0@ == e,
        },
{
    let chars = chars_of(content);
    let mut doc = ObjDocument {
        positions: Vec::new(),
        texcoords: Vec::new(),
        normals: Vec::new(),
        vertices: Vec::new(),
        indices: Vec::new(),
    };
    let mut buckets: Vec<Vec<CornerSlot>> = Vec::new();
    let mut start: usize = 0;
    let mut line: usize = 0;
    let ghost mut done: Seq<Seq<char>> = seq![];
    proof {
        assert(chars@.skip(0) =~= chars@);
        assert(done + segments(chars@.skip(0), '\n') =~= segments(chars@, '\n'));
        assert(records_of(done) =~= seq![]);
        assert(doc@.positions =~= seq![]);
        assert(doc@.texcoords =~= seq![]);
        assert(doc@.normals =~= seq![]);
        assert(doc@ == empty_model());
    }
    loop
        invariant_except_break
            line == done.len(),
            line <= start,
            segments(chars@, '\n') == done + segments(chars@.skip(start as int), '\n'),
        invariant
            chars@ == content@,
            start <= chars@.len(),
            parse_records(records_of(done)) == Ok::<ObjModel, Seq<char>>(doc@),
            index_wf(buckets@, doc@.positions.len(), doc@.vertices),
        ensures
            segments(chars@, '\n') == done,
            parse_records(records_of(done)) == Ok::<ObjModel, Seq<char>>(doc@),
        decreases chars@.len() - start,
    {
        let e = find_from(&chars, start, '\n');
        let toks = ws_tokens_in(&chars, start, e);
        let ghost text = chars@.subrange(start as int, e as int);
        let ghost tail = if e < chars@.len() {
            segments(chars@.skip(e + 1), '\n')
        } else {
            seq![]
        };
        proof {
            lemma_line_cut(chars@, start as int, e as int);
            lemma_ws_tokens_nonempty(text);
            assert forall|i: int| 0 <= i < toks@.len() implies (#[trigger] toks@[i])@.len() > 0 by {
                assert(token_views(toks@)[i] == toks@[i]@);
            }
            if e == start {
                assert(text =~= seq![]);
            }
        }
        let ghost done_after = done.push(text);
        proof {
            lemma_records_push(done, text);
        }
        match read_record(&mut doc, &mut buckets, &toks, line) {
            Ok(()) => {},
            Err(msg) => {
                proof {
                    assert(segments(chars@, '\n') =~= done_after + tail);
                    lemma_records_error(done_after, tail);
                }
                return Err(msg);
            },
        }
        proof {
            done = done_after;
        }
        if e >= chars.len() {
            proof {
                assert(segments(chars@, '\n') =~= done);
            }
            break;
        }
        proof {
            assert(segments(chars@, '\n') =~= done + segments(chars@.skip(e + 1), '\n'));
        }
        start = e + 1;
        line = line + 1;
    }
    assert(obj_records(content@) == records_of(done));
    if doc.vertices.len() == 0 || doc.indices.len() == 0 {
        return Err(string_of("OBJ did not contain any renderable faces with UVs"));
    }
    Ok(doc)
}

} // verus!

verus! {

/// A model whose triangles and vertices hang together: whole triangles, each corner a vertex
/// of the list, each vertex referring to coordinates that were read, no vertex twice, and no
/// more vertices than `u32` indices can name.
pub open spec fn model_consistent(m: ObjModel) -> bool {
    &&& m.indices.len() % 3 == 0
    &&& m.vertices.len() <= u32::MAX + 1
    &&& forall|i: int| 0 <= i < m.indices.len() ==> (#[trigger] m.indices[i] as int) < m.vertices.len()
    &&& forall|v: int| 0 <= v < m.vertices.len() ==> refs_in_bounds(m, #[trigger] m.vertices[v])
    &&& forall|a: int, b: int| 0 <= a < b < m.vertices.len() ==> m.vertices[a] != m.vertices[b]
}

pub open spec fn refs_in_bounds(m: ObjModel, r: ObjVertexRef) -> bool {
    &&& r.position < m.positions.len()
    &&& r.texcoord < m.texcoords.len()
    &&& (r.normal matches Some(n) ==> n < m.normals.len())
}

/// What welding keeps: the old vertices stay first, the new ones refer to coordinates of `m`,
/// no vertex comes twice, and each corner is a vertex of the list.
spec fn weld_consistent(m: ObjModel, verts: Seq<ObjVertexRef>, face: Seq<u32>) -> bool {
    &&& m.vertices.len() <= verts.len()
    &&& verts.len() <= u32::MAX + 1
    &&& verts.take(m.vertices.len() as int) == m.vertices
    &&& forall|v: int| 0 <= v < verts.len() ==> refs_in_bounds(m, #[trigger] verts[v])
    &&& forall|a: int, b: int| 0 <= a < b < verts.len() ==> verts[a] != verts[b]
    &&& forall|i: int| 0 <= i < face.len() ==> (#[trigger] face[i] as int) < verts.len()
}

proof fn lemma_weld_consistent(m: ObjModel, corners: Seq<Seq<char>>, line: nat, n: nat)
    requires
        model_consistent(m),
        weld_corners(m, corners, line, n) is Ok,
    ensures
        weld_consistent(m, weld_corners(m, corners, line, n)->Ok_0.0, weld_corners(m, corners, line, n)->Ok_0.1),
        weld_corners(m, corners, line, n)->Ok_0.1.len() == n,
    decreases n,
{
    if n == 0 {
        assert(m.vertices.take(m.vertices.len() as int) =~= m.vertices);
    } else {
        lemma_weld_consistent(m, corners, line, (n - 1) as nat);
        let (verts, face) = weld_corners(m, corners, line, (n - 1) as nat)->Ok_0;
        let r = face_corner(corners[n - 1], line)->Ok_0;
        if verts.contains(r) {
            let k = verts.index_of(r);
            assert(0 <= k < verts.len());
        } else {
            let nv = verts.push(r);
            assert(nv.take(m.vertices.len() as int) =~= verts.take(m.vertices.len() as int));
            assert forall|a: int, b: int| 0 <= a < b < nv.len() implies nv[a] != nv[b] by {
                if b == verts.len() {
                    assert(nv[a] == verts[a]);
                }
            }
            assert forall|v: int| 0 <= v < nv.len() implies refs_in_bounds(m, #[trigger] nv[v]) by {
                if v < verts.len() {
                    assert(nv[v] == verts[v]);
                }
            }
        }
    }
}

/// Every corner of a fan is a corner of the polygon.
proof fn lemma_fan_corners(face: Seq<u32>, bound: int)
    requires
        face.len() >= 3,
        forall|i: int| 0 <= i < face.len() ==> (#[trigger] face[i] as int) < bound,
    ensures
        fan(face).len() % 3 == 0,
        forall|k: int| 0 <= k < fan(face).len() ==> (#[trigger] fan(face)[k] as int) < bound,
{
    let f = fan(face);
    assert((3 * (face.len() - 2)) % 3 == 0) by (nonlinear_arith)
        requires
            face.len() >= 3,
    ;
    assert forall|k: int| 0 <= k < f.len() implies (#[trigger] f[k] as int) < bound by {
        assert(0 <= k / 3 && k / 3 + 2 < face.len()) by (nonlinear_arith)
            requires
                0 <= k < 3 * (face.len() - 2),
        ;
    }
}

proof fn lemma_record_step_consistent(m: ObjModel, toks: Seq<Seq<char>>, line: nat)
    requires
        model_consistent(m),
        record_step(m, toks, line) is Ok,
    ensures
        model_consistent(record_step(m, toks, line)->Ok_0),
{
    reveal(record_step);
    let out = record_step(m, toks, line)->Ok_0;
    if toks.len() == 0 || toks[0][0] == '#' {
    } else if toks[0] == seq!['v'] || toks[0] == seq!['v', 't'] || toks[0] == seq!['v', 'n'] {
        assert forall|v: int| 0 <= v < out.vertices.len() implies refs_in_bounds(out, #[trigger] out.vertices[v]) by {
            assert(refs_in_bounds(m, m.vertices[v]));
        }
    } else if toks[0] == seq!['f'] {
        let corners = toks.drop_first();
        lemma_weld_consistent(m, corners, line, corners.len());
        let (verts, face) = weld_corners(m, corners, line, corners.len())->Ok_0;
        lemma_fan_corners(face, verts.len() as int);
        let fi = fan(face);
        assert(out.indices == m.indices + fi);
        assert forall|i: int| 0 <= i < out.indices.len() implies (#[trigger] out.indices[i] as int) < out.vertices.len() by {
            if i < m.indices.len() {
                assert(out.indices[i] == m.indices[i]);
                assert(verts.take(m.vertices.len() as int)[i] == m.vertices[i]);
            } else {
                assert(out.indices[i] == fi[i - m.indices.len()]);
            }
        }
        assert((m.indices.len() + fi.len()) % 3 == 0);
    } else {
    }
}

/// Every model that reading produces hangs together (see `model_consistent`).
pub proof fn lemma_parsed_model_consistent(s: Seq<char>)
    requires
        parse_obj_spec(s) is Ok,
    ensures
        model_consistent(parse_obj_spec(s)->Ok_0),
{
    lemma_records_consistent(obj_records(s));
}

proof fn lemma_records_consistent(recs: Seq<Seq<Seq<char>>>)
    requires
        parse_records(recs) is Ok,
    ensures
        model_consistent(parse_records(recs)->Ok_0),
    decreases recs.len(),
{
    if recs.len() > 0 {
        lemma_records_consistent(recs.drop_last());
        lemma_record_step_consistent(parse_records(recs.drop_last())->Ok_0, recs.last(), (recs.len() - 1) as nat);
    }
}

} // verus!

verus! {

/// Every vertex of the model is a corner of some triangle.
pub open spec fn all_vertices_used(m: ObjModel) -> bool {
    forall|v: int| 0 <= v < m.vertices.len() ==> #[trigger] names_vertex(m.indices, v)
}

/// Whether some entry of `indices` is `v`.
pub open spec fn names_vertex(indices: Seq<u32>, v: int) -> bool {
    exists|i: int| 0 <= i < indices.len() && indices[i] == v
}

/// Welding appends a vertex only for a corner of the face that names it.
proof fn lemma_weld_new_vertices_in_face(m: ObjModel, corners: Seq<Seq<char>>, line: nat, n: nat)
    requires
        model_consistent(m),
        weld_corners(m, corners, line, n) is Ok,
    ensures
        forall|v: int|
            m.vertices.len() <= v < weld_corners(m, corners, line, n)->Ok_0.0.len() ==> #[trigger] names_vertex(
                weld_corners(m, corners, line, n)->Ok_0.1,
                v,
            ),
    decreases n,
{
    lemma_weld_consistent(m, corners, line, n);
    if n > 0 {
        lemma_weld_new_vertices_in_face(m, corners, line, (n - 1) as nat);
        lemma_weld_consistent(m, corners, line, (n - 1) as nat);
        let (verts, face) = weld_corners(m, corners, line, (n - 1) as nat)->Ok_0;
        let (verts2, face2) = weld_corners(m, corners, line, n)->Ok_0;
        assert(face2 == face.push(face2.last()));
        assert forall|v: int| m.vertices.len() <= v < verts2.len() implies #[trigger] names_vertex(face2, v) by {
            if v < verts.len() {
                assert(names_vertex(face, v));
                let j = choose|j: int| 0 <= j < face.len() && face[j] == v;
                assert(face2[j] == v);
            } else {
                assert(face2[face.len() as int] == v);
            }
        }
    }
}

/// Every corner of a polygon with at least three corners is a corner of one of its fan
/// triangles.
proof fn lemma_fan_covers(face: Seq<u32>, j: int)
    requires
        face.len() >= 3,
        0 <= j < face.len(),
    ensures
        exists|k: int| 0 <= k < fan(face).len() && fan(face)[k] == face[j],
{
    let f = fan(face);
    assert(f.len() == 3 * (face.len() - 2));
    if j == 0 {
        assert(f[0] == face[0]);
    } else if j <= face.len() - 2 {
        let k = 3 * (j - 1) + 1;
        vstd::arithmetic::div_mod::lemma_fundamental_div_mod_converse(k, 3, j - 1, 1);
        assert(f[k] == face[j]);
    } else {
        let k = 3 * (face.len() - 3) + 2;
        vstd::arithmetic::div_mod::lemma_fundamental_div_mod_converse(k, 3, face.len() - 3, 2);
        assert(f[k] == face[j]);
    }
}

proof fn lemma_record_step_uses(m: ObjModel, toks: Seq<Seq<char>>, line: nat)
    requires
        model_consistent(m),
        all_vertices_used(m),
        record_step(m, toks, line) is Ok,
    ensures
        all_vertices_used(record_step(m, toks, line)->Ok_0),
{
    reveal(record_step);
    let out = record_step(m, toks, line)->Ok_0;
    if toks.len() == 0 || toks[0][0] == '#' {
    } else if toks[0] == seq!['v'] || toks[0] == seq!['v', 't'] || toks[0] == seq!['v', 'n'] {
        assert forall|v: int| 0 <= v < out.vertices.len() implies #[trigger] names_vertex(out.indices, v) by {
            assert(names_vertex(m.indices, v));
            let i = choose|i: int| 0 <= i < m.indices.len() && m.indices[i] == v;
            assert(out.indices[i] == v);
        }
    } else if toks[0] == seq!['f'] {
        let corners = toks.drop_first();
        lemma_weld_consistent(m, corners, line, corners.len());
        lemma_weld_new_vertices_in_face(m, corners, line, corners.len());
        let (verts, face) = weld_corners(m, corners, line, corners.len())->Ok_0;
        let fi = fan(face);
        assert(out.indices == m.indices + fi);
        assert(out.vertices == verts);
        assert forall|v: int| 0 <= v < out.vertices.len() implies #[trigger] names_vertex(out.indices, v) by {
            if v < m.vertices.len() {
                assert(names_vertex(m.indices, v));
                let i = choose|i: int| 0 <= i < m.indices.len() && m.indices[i] == v;
                assert(out.indices[i] == v);
            } else {
                assert(names_vertex(face, v));
                let j = choose|j: int| 0 <= j < face.len() && face[j] == v;
                lemma_fan_covers(face, j);
                let k = choose|k: int| 0 <= k < fi.len() && fi[k] == face[j];
                assert(out.indices[m.indices.len() + k] == v);
            }
        }
    } else {
    }
}

proof fn lemma_records_use_vertices(recs: Seq<Seq<Seq<char>>>)
    requires
        parse_records(recs) is Ok,
    ensures
        all_vertices_used(parse_records(recs)->Ok_0),
    decreases recs.len(),
{
    if recs.len() > 0 {
        lemma_records_use_vertices(recs.drop_last());
        lemma_records_consistent(recs.drop_last());
        lemma_record_step_uses(parse_records(recs.drop_last())->Ok_0, recs.last(), (recs.len() - 1) as nat);
    }
}

/// No vertex of a parsed model is left over: each is a corner of some triangle. With the
/// vertices all different (`lemma_parsed_model_consistent`) and a corner reusing the vertex of
/// its indices when there is one (`weld_step`), the model has exactly one vertex per distinct
/// corner of its faces.
pub proof fn lemma_parsed_vertices_all_used(s: Seq<char>)
    requires
        parse_obj_spec(s) is Ok,
    ensures
        all_vertices_used(parse_obj_spec(s)->Ok_0),
{
    lemma_records_use_vertices(obj_records(s));
}

} // verus!

verus! {

/// The vertex named by each of the first `n` corner tokens of a face.
pub open spec fn corner_refs(corners: Seq<Seq<char>>, line: nat, n: nat) -> Seq<ObjVertexRef> {
    Seq::new(n, |j: int| face_corner(corners[j], line)->Ok_0)
}

/// The vertices named by the corners of a record, in order, when it is a face (none otherwise).
pub open spec fn record_corners(toks: Seq<Seq<char>>, line: nat) -> Seq<ObjVertexRef> {
    if toks.len() > 0 && toks[0] == seq!['f'] {
        corner_refs(toks.drop_first(), line, (toks.len() - 1) as nat)
    } else {
        seq![]
    }
}

/// Fan triangulation of a polygon given by the vertices of its corners.
pub open spec fn fan_refs(face: Seq<ObjVertexRef>) -> Seq<ObjVertexRef> {
    if face.len() < 3 {
        seq![]
    } else {
        Seq::new(
        (3 * (face.len() - 2)) as nat,
        |k: int|
            if k % 3 == 0 {
                face[0]
            } else if k % 3 == 1 {
                face[k / 3 + 1]
            } else {
                face[k / 3 + 2]
            },
        )
    }
}

/// The vertices named by all face corners of the records, in text order.
pub open spec fn corners_of(recs: Seq<Seq<Seq<char>>>) -> Seq<ObjVertexRef>
    decreases recs.len(),
{
    if recs.len() == 0 {
        seq![]
    } else {
        corners_of(recs.drop_last()) + record_corners(recs.last(), (recs.len() - 1) as nat)
    }
}

/// The vertices of the triangle corners of the records: each face fanned, in text order.
pub open spec fn triangle_corners_of(recs: Seq<Seq<Seq<char>>>) -> Seq<ObjVertexRef>
    decreases recs.len(),
{
    if recs.len() == 0 {
        seq![]
    } else {
        triangle_corners_of(recs.drop_last()) + fan_refs(record_corners(recs.last(), (recs.len() - 1) as nat))
    }
}

/// `seen`, then the entries of `s` that are neither in `seen` nor earlier in `s`, in order.
pub open spec fn first_uses_after(seen: Seq<ObjVertexRef>, s: Seq<ObjVertexRef>) -> Seq<ObjVertexRef>
    decreases s.len(),
{
    if s.len() == 0 {
        seen
    } else {
        let d = first_uses_after(seen, s.drop_last());
        if d.contains(s.last()) {
            d
        } else {
            d.push(s.last())
        }
    }
}

/// The distinct entries of `s`, in order of first occurrence.
pub open spec fn first_uses(s: Seq<ObjVertexRef>) -> Seq<ObjVertexRef> {
    first_uses_after(seq![], s)
}

proof fn lemma_first_uses_concat(seen: Seq<ObjVertexRef>, a: Seq<ObjVertexRef>, b: Seq<ObjVertexRef>)
    ensures
        first_uses_after(seen, a + b) == first_uses_after(first_uses_after(seen, a), b),
    decreases b.len(),
{
    if b.len() == 0 {
        assert(a + b =~= a);
    } else {
        lemma_first_uses_concat(seen, a, b.drop_last());
        assert((a + b).drop_last() =~= a + b.drop_last());
        assert((a + b).last() == b.last());
    }
}

proof fn lemma_first_uses_contains(seen: Seq<ObjVertexRef>, s: Seq<ObjVertexRef>)
    ensures
        forall|x: ObjVertexRef|
            #[trigger] first_uses_after(seen, s).contains(x) <==> seen.contains(x) || s.contains(x),
    decreases s.len(),
{
    if s.len() > 0 {
        lemma_first_uses_contains(seen, s.drop_last());
        let d = first_uses_after(seen, s.drop_last());
        assert forall|x: ObjVertexRef|
            #[trigger] first_uses_after(seen, s).contains(x) <==> seen.contains(x) || s.contains(x) by {
            if s.contains(x) && !s.drop_last().contains(x) {
                let i = choose|i: int| 0 <= i < s.len() && s[i] == x;
                if i < s.len() - 1 {
                    assert(s.drop_last()[i] == x);
                }
                if !d.contains(s.last()) {
                    assert(d.push(s.last())[d.len() as int] == x);
                }
            }
            if s.drop_last().contains(x) {
                let i = choose|i: int| 0 <= i < s.drop_last().len() && s.drop_last()[i] == x;
                assert(s[i] == x);
            }
            if !d.contains(s.last()) && d.push(s.last()).contains(x) {
                let i = choose|i: int| 0 <= i < d.len() + 1 && d.push(s.last())[i] == x;
                if i < d.len() {
                    assert(d[i] == x);
                } else {
                    assert(s[s.len() - 1] == x);
                }
            }
            if d.contains(x) && !d.contains(s.last()) {
                let i = choose|i: int| 0 <= i < d.len() && d[i] == x;
                assert(d.push(s.last())[i] == x);
            }
        }
    }
}

proof fn lemma_fan_refs_grow(r: Seq<ObjVertexRef>, n: int)
    requires
        3 <= n < r.len(),
    ensures
        fan_refs(r.take(n + 1)) =~= fan_refs(r.take(n)) + seq![r[0], r[n - 1], r[n]],
{
    let a = fan_refs(r.take(n + 1));
    let b = fan_refs(r.take(n)) + seq![r[0], r[n - 1], r[n]];
    assert(a.len() == b.len());
    assert forall|k: int| 0 <= k < a.len() implies a[k] == b[k] by {
        if k < 3 * (n - 2) {
            assert(0 <= k / 3 && k / 3 + 2 < n) by (nonlinear_arith)
                requires
                    0 <= k < 3 * (n - 2),
            ;
        } else {
            let j = k - 3 * (n - 2);
            vstd::arithmetic::div_mod::lemma_fundamental_div_mod_converse(k, 3, n - 2, j);
        }
    }
}

/// Fanning a polygon brings in its corners in the same order of first use as the polygon.
proof fn lemma_fan_first_uses(seen: Seq<ObjVertexRef>, r: Seq<ObjVertexRef>, n: int)
    requires
        3 <= n <= r.len(),
    ensures
        first_uses_after(seen, fan_refs(r.take(n))) == first_uses_after(seen, r.take(n)),
    decreases n,
{
    if n == 3 {
        assert(fan_refs(r.take(3)) =~= r.take(3));
    } else {
        lemma_fan_first_uses(seen, r, n - 1);
        lemma_fan_refs_grow(r, n - 1);
        let f = fan_refs(r.take(n - 1));
        let d = first_uses_after(seen, r.take(n - 1));
        lemma_first_uses_concat(seen, f, seq![r[0], r[n - 2], r[n - 1]]);
        lemma_first_uses_contains(seen, r.take(n - 1));
        assert(r.take(n - 1)[0] == r[0]);
        assert(r.take(n - 1)[n - 2] == r[n - 2]);
        assert(d.contains(r[0]));
        assert(d.contains(r[n - 2]));
        let t = seq![r[0], r[n - 2], r[n - 1]];
        assert(t.drop_last().drop_last() =~= seq![r[0]]);
        assert(seq![r[0]].drop_last() =~= Seq::<ObjVertexRef>::empty());
        assert(first_uses_after(d, Seq::<ObjVertexRef>::empty()) == d);
        assert(first_uses_after(d, seq![r[0]]) == d);
        assert(first_uses_after(d, t.drop_last()) == d);
        assert(r.take(n) =~= r.take(n - 1).push(r[n - 1]));
        assert(r.take(n).drop_last() =~= r.take(n - 1));
    }
}

#[verifier::rlimit(40)]
/// Welding names, for each corner, the first vertex with its indices, appending the vertices
/// not met before in corner order.
proof fn lemma_weld_first_uses(m: ObjModel, corners: Seq<Seq<char>>, line: nat, n: nat)
    requires
        model_consistent(m),
        weld_corners(m, corners, line, n) is Ok,
    ensures
        weld_corners(m, corners, line, n)->Ok_0.0 == first_uses_after(m.vertices, corner_refs(corners, line, n)),
        forall|j: int|
            0 <= j < n ==> weld_corners(m, corners, line, n)->Ok_0.0[#[trigger] weld_corners(
                m,
                corners,
                line,
                n,
            )->Ok_0.1[j] as int] == corner_refs(corners, line, n)[j],
    decreases n,
{
    lemma_weld_consistent(m, corners, line, n);
    if n == 0 {
        assert(corner_refs(corners, line, 0) =~= Seq::<ObjVertexRef>::empty());
    } else {
        lemma_weld_first_uses(m, corners, line, (n - 1) as nat);
        lemma_weld_consistent(m, corners, line, (n - 1) as nat);
        let (verts, face) = weld_corners(m, corners, line, (n - 1) as nat)->Ok_0;
        let (verts2, face2) = weld_corners(m, corners, line, n)->Ok_0;
        let r = face_corner(corners[n - 1], line)->Ok_0;
        let refs = corner_refs(corners, line, n);
        let prev = corner_refs(corners, line, (n - 1) as nat);
        assert(refs.drop_last() =~= prev);
        assert(refs.last() == r);
        assert forall|j: int| 0 <= j < n implies verts2[#[trigger] face2[j] as int] == refs[j] by {
            if j < n - 1 {
                assert(face2[j] == face[j]);
                assert(verts2[face[j] as int] == verts[face[j] as int]);
                assert(prev[j] == refs[j]);
            } else {
                if verts.contains(r) {
                    let k = verts.index_of(r);
                    assert(verts[k] == r);
                } else {
                    assert(verts2[verts.len() as int] == r);
                }
            }
        }
    }
}

/// What a parsed model says of its corners: the vertices are the distinct corners in order of
/// first use, in text order and along the triangles alike, and each index names the vertex of
/// its triangle corner.
spec fn welded_from(m: ObjModel, c: Seq<ObjVertexRef>, t: Seq<ObjVertexRef>) -> bool {
    &&& m.vertices == first_uses(c)
    &&& m.vertices == first_uses(t)
    &&& m.indices.len() == t.len()
    &&& forall|i: int| 0 <= i < m.indices.len() ==> m.vertices[#[trigger] m.indices[i] as int] == t[i]
}

proof fn lemma_record_step_welds(m: ObjModel, toks: Seq<Seq<char>>, line: nat, c: Seq<ObjVertexRef>, t: Seq<ObjVertexRef>)
    requires
        model_consistent(m),
        welded_from(m, c, t),
        record_step(m, toks, line) is Ok,
    ensures
        welded_from(
            record_step(m, toks, line)->Ok_0,
            c + record_corners(toks, line),
            t + fan_refs(record_corners(toks, line)),
        ),
{
    reveal(record_step);
    let out = record_step(m, toks, line)->Ok_0;
    let rc = record_corners(toks, line);
    if toks.len() > 0 && toks[0] == seq!['f'] {
        let corners = toks.drop_first();
        assert(toks[0][0] != '#');
        lemma_weld_consistent(m, corners, line, corners.len());
        lemma_weld_first_uses(m, corners, line, corners.len());
        let (verts, face) = weld_corners(m, corners, line, corners.len())->Ok_0;
        assert(rc == corner_refs(corners, line, corners.len()));
        lemma_first_uses_concat(seq![], c, rc);
        lemma_first_uses_concat(seq![], t, fan_refs(rc));
        lemma_fan_first_uses(m.vertices, rc, rc.len() as int);
        assert(rc.take(rc.len() as int) =~= rc);
        let fi = fan(face);
        let fr = fan_refs(rc);
        assert(out.indices == m.indices + fi);
        assert(out.vertices == verts);
        assert forall|i: int| 0 <= i < out.indices.len() implies out.vertices[#[trigger] out.indices[i] as int] == (t
            + fr)[i] by {
            if i < m.indices.len() {
                assert(out.indices[i] == m.indices[i]);
                assert(verts.take(m.vertices.len() as int)[m.indices[i] as int] == m.vertices[m.indices[i] as int]);
            } else {
                let k = i - m.indices.len();
                assert(out.indices[i] == fi[k]);
                assert(0 <= k / 3 && k / 3 + 2 < face.len()) by (nonlinear_arith)
                    requires
                        0 <= k < 3 * (face.len() - 2),
                ;
                if k % 3 == 0 {
                    assert(fi[k] == face[0]);
                } else if k % 3 == 1 {
                    assert(fi[k] == face[k / 3 + 1]);
                } else {
                    assert(fi[k] == face[k / 3 + 2]);
                }
            }
        }
    } else {
        assert(rc =~= Seq::<ObjVertexRef>::empty());
        assert(fan_refs(rc) =~= Seq::<ObjVertexRef>::empty());
        assert(c + rc =~= c);
        assert(t + fan_refs(rc) =~= t);
    }
}

proof fn lemma_records_weld(recs: Seq<Seq<Seq<char>>>)
    requires
        parse_records(recs) is Ok,
    ensures
        welded_from(parse_records(recs)->Ok_0, corners_of(recs), triangle_corners_of(recs)),
    decreases recs.len(),
{
    if recs.len() > 0 {
        lemma_records_weld(recs.drop_last());
        lemma_records_consistent(recs.drop_last());
        lemma_record_step_welds(
            parse_records(recs.drop_last())->Ok_0,
            recs.last(),
            (recs.len() - 1) as nat,
            corners_of(recs.drop_last()),
            triangle_corners_of(recs.drop_last()),
        );
    }
}

/// Reading welds face corners into vertices: the vertices are the distinct corners of the faces
/// in order of first use (taken in text order or along the triangles alike), the index of each
/// triangle corner names the vertex of that corner, and there is one vertex per distinct corner.
pub proof fn lemma_parsed_welding(s: Seq<char>)
    requires
        parse_obj_spec(s) is Ok,
    ensures
        parse_obj_spec(s)->Ok_0.vertices == first_uses(corners_of(obj_records(s))),
        parse_obj_spec(s)->Ok_0.vertices == first_uses(triangle_corners_of(obj_records(s))),
        parse_obj_spec(s)->Ok_0.indices.len() == triangle_corners_of(obj_records(s)).len(),
        forall|i: int|
            0 <= i < parse_obj_spec(s)->Ok_0.indices.len() ==> parse_obj_spec(s)->Ok_0.vertices[
            #[trigger] parse_obj_spec(s)->Ok_0.indices[i] as int] == triangle_corners_of(obj_records(s))[i],
        parse_obj_spec(s)->Ok_0.vertices.len() == corners_of(obj_records(s)).to_set().len(),
{
    let recs = obj_records(s);
    let m = parse_obj_spec(s)->Ok_0;
    lemma_records_weld(recs);
    lemma_records_consistent(recs);
    let c = corners_of(recs);
    lemma_first_uses_contains(seq![], c);
    assert(m.vertices.to_set() =~= c.to_set());
    m.vertices.unique_seq_to_set();
}

/// Two texts that read with the same coordinates and the same triangle corners give the same
/// model: a polygon written as the triangles of its fan, for instance, reads as the polygon.
pub proof fn lemma_same_triangles_same_model(a: Seq<char>, b: Seq<char>)
    requires
        parse_obj_spec(a) is Ok,
        parse_obj_spec(b) is Ok,
        parse_obj_spec(a)->Ok_0.positions == parse_obj_spec(b)->Ok_0.positions,
        parse_obj_spec(a)->Ok_0.texcoords == parse_obj_spec(b)->Ok_0.texcoords,
        parse_obj_spec(a)->Ok_0.normals == parse_obj_spec(b)->Ok_0.normals,
        triangle_corners_of(obj_records(a)) == triangle_corners_of(obj_records(b)),
    ensures
        parse_obj_spec(a) == parse_obj_spec(b),
{
    let ma = parse_obj_spec(a)->Ok_0;
    let mb = parse_obj_spec(b)->Ok_0;
    lemma_parsed_welding(a);
    lemma_parsed_welding(b);
    lemma_parsed_model_consistent(a);
    lemma_parsed_model_consistent(b);
    assert forall|i: int| 0 <= i < ma.indices.len() implies ma.indices[i] == mb.indices[i] by {
        let x = ma.indices[i] as int;
        let y = mb.indices[i] as int;
        assert(ma.vertices[x] == mb.vertices[y]);
        if x < y {
            assert(ma.vertices[x] != ma.vertices[y]);
        } else if y < x {
            assert(ma.vertices[y] != ma.vertices[x]);
        }
    }
    assert(ma.indices =~= mb.indices);
    assert(ma == mb);
}

/// The coordinate tokens of the records whose keyword is `kw`, in text order: the `n` tokens
/// that follow the keyword in each, in the order written.
pub open spec fn keyword_records(recs: Seq<Seq<Seq<char>>>, kw: Seq<char>, n: nat) -> Seq<Seq<Seq<char>>>
    decreases recs.len(),
{
    if recs.len() == 0 {
        seq![]
    } else {
        let prev = keyword_records(recs.drop_last(), kw, n);
        let t = recs.last();
        if t.len() > 0 && t[0] == kw {
            prev.push(t.subrange(1, (n + 1) as int))
        } else {
            prev
        }
    }
}

proof fn lemma_records_coordinates(recs: Seq<Seq<Seq<char>>>)
    requires
        parse_records(recs) is Ok,
    ensures
        parse_records(recs)->Ok_0.positions == keyword_records(recs, seq!['v'], 3),
        parse_records(recs)->Ok_0.texcoords == keyword_records(recs, seq!['v', 't'], 2),
        parse_records(recs)->Ok_0.normals == keyword_records(recs, seq!['v', 'n'], 3),
    decreases recs.len(),
{
    reveal(record_step);
    if recs.len() > 0 {
        lemma_records_coordinates(recs.drop_last());
        let t = recs.last();
        assert(position_labels().len() == 3);
        assert(texcoord_labels().len() == 2);
        assert(normal_labels().len() == 3);
        if t.len() > 0 {
            if t[0] == seq!['v'] {
                assert(t[0][0] == 'v');
                assert(t[0].len() == 1);
                assert(seq!['v', 't'].len() == 2);
                assert(t[0] != seq!['v', 't']);
                assert(t[0] != seq!['v', 'n']);
            } else if t[0] == seq!['v', 't'] {
                assert(t[0][0] == 'v');
                assert(t[0][1] == 't');
                assert(seq!['v', 'n'][1] == 'n');
                assert(t[0] != seq!['v', 'n']);
            } else if t[0] == seq!['v', 'n'] {
                assert(t[0][0] == 'v');
            }
        }
    }
}

/// Reading keeps the coordinates as written: the positions are the three tokens after each `v`
/// keyword, the texture coordinates the two tokens (u, then v) after each `vt`, and the normals
/// the three tokens after each `vn`, each list in text order.
pub proof fn lemma_parsed_coordinates(s: Seq<char>)
    requires
        parse_obj_spec(s) is Ok,
    ensures
        parse_obj_spec(s)->Ok_0.positions == keyword_records(obj_records(s), seq!['v'], 3),
        parse_obj_spec(s)->Ok_0.texcoords == keyword_records(obj_records(s), seq!['v', 't'], 2),
        parse_obj_spec(s)->Ok_0.normals == keyword_records(obj_records(s), seq!['v', 'n'], 3),
{
    lemma_records_coordinates(obj_records(s));
}

} // verus!

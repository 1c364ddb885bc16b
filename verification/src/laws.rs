//! The format's laws: a written container decodes to exactly what was
//! written, and a container cut short anywhere before its footer never
//! decodes at all.

use vstd::prelude::*;

verus! {

use crate::LogicalType;
use crate::model::{FieldV, SchemaV, ColumnV, BatchV};
use crate::codec::{
    u32_le, le_u32, enc_i32, enc_i32s, enc_bstr, enc_bstrs, enc_column, enc_columns, enc_field,
    enc_fields, enc_header, enc_frame, enc_frames, enc_container, magic, batch_marker,
    end_marker, tag_of, u32_of_i32, i32_of_u32, dec_u32, dec_field, dec_fields, dec_header,
    dec_i32s, dec_bstr, dec_bstrs, dec_column, dec_columns, dec_frame, dec_frames,
    dec_container, lemma_le_u32_roundtrip, lemma_i32_u32_roundtrip,
};

/// Whether the bytes `e` sit in `b` starting at `pos`.
pub open spec fn contains_at(b: Seq<u8>, pos: int, e: Seq<u8>) -> bool {
    0 <= pos && pos + e.len() <= b.len() && b.subrange(pos, pos + e.len() as int) == e
}

/// Whether `p` is a prefix of `b`.
pub open spec fn is_prefix(p: Seq<u8>, b: Seq<u8>) -> bool {
    p.len() <= b.len() && p == b.subrange(0, p.len() as int)
}

/// Whether every batch of `bs` is well formed and carries the schema `s`.
pub open spec fn batches_wf(s: SchemaV, bs: Seq<BatchV>) -> bool {
    forall|i: int| 0 <= i < bs.len() ==> (#[trigger] bs[i]).wf() && bs[i].schema == s
}

proof fn lemma_contains_split(b: Seq<u8>, pos: int, e1: Seq<u8>, e2: Seq<u8>)
    requires
        contains_at(b, pos, e1 + e2),
    ensures
        contains_at(b, pos, e1),
        contains_at(b, pos + e1.len(), e2),
{
    assert forall|i: int| 0 <= i < (e1 + e2).len() implies b[pos + i] == (e1 + e2)[i] by {
        assert(b.subrange(pos, pos + (e1 + e2).len() as int)[i] == b[pos + i]);
    }
    assert(b.subrange(pos, pos + e1.len() as int) =~= e1);
    assert forall|i: int| 0 <= i < e2.len() implies b.subrange(
        pos + e1.len(),
        pos + e1.len() + e2.len() as int,
    )[i] == e2[i] by {
        assert(b[pos + (e1.len() + i)] == (e1 + e2)[e1.len() + i]);
    }
    assert(b.subrange(pos + e1.len(), pos + e1.len() + e2.len() as int) =~= e2);
}

// ---------------------------------------------------------------------------
// Decoded values are well formed
// ---------------------------------------------------------------------------

proof fn lemma_dec_fields_wf(b: Seq<u8>, pos: int, n: nat)
    requires
        dec_fields(b, pos, n) is Some,
    ensures
        ({
            let fs = dec_fields(b, pos, n).unwrap().0;
            fs.len() == n && forall|i: int| 0 <= i < fs.len() ==> (#[trigger] fs[i]).wf()
        }),
    decreases n,
{
    if n == 0 {
    } else {
        let (f, p1) = dec_field(b, pos).unwrap();
        lemma_dec_fields_wf(b, p1, (n - 1) as nat);
    }
}

/// A header that parses at all parses to a well-formed schema.
pub proof fn lemma_dec_header_wf(b: Seq<u8>)
    requires
        dec_header(b) is Some,
    ensures
        dec_header(b).unwrap().0.wf(),
{
    let (n, p1) = dec_u32(b, 4).unwrap();
    lemma_dec_fields_wf(b, p1, n as nat);
}

proof fn lemma_dec_i32s_len(b: Seq<u8>, pos: int, n: nat)
    requires
        dec_i32s(b, pos, n) is Some,
    ensures
        dec_i32s(b, pos, n).unwrap().0.len() == n,
    decreases n,
{
    if n == 0 {
    } else {
        let (_, p1) = dec_u32(b, pos).unwrap();
        lemma_dec_i32s_len(b, p1, (n - 1) as nat);
    }
}

proof fn lemma_dec_bstrs_wf(b: Seq<u8>, pos: int, n: nat)
    requires
        dec_bstrs(b, pos, n) is Some,
    ensures
        ({
            let ss = dec_bstrs(b, pos, n).unwrap().0;
            ss.len() == n && forall|i: int|
                0 <= i < ss.len() ==> (#[trigger] ss[i]).len() <= u32::MAX
        }),
    decreases n,
{
    if n == 0 {
    } else {
        let (_, p1) = dec_bstr(b, pos).unwrap();
        lemma_dec_bstrs_wf(b, p1, (n - 1) as nat);
    }
}

proof fn lemma_dec_column_wf(b: Seq<u8>, pos: int, ty: LogicalType, rows: nat)
    requires
        rows <= u32::MAX,
        dec_column(b, pos, ty, rows) is Some,
    ensures
        ({
            let c = dec_column(b, pos, ty, rows).unwrap().0;
            c.ty() == ty && c.len() == rows && c.wf()
        }),
{
    match ty {
        LogicalType::Int32 => {
            lemma_dec_i32s_len(b, pos, rows);
        }
        LogicalType::Utf8 => {
            lemma_dec_bstrs_wf(b, pos, rows);
        }
    }
}

proof fn lemma_dec_columns_wf(b: Seq<u8>, pos: int, fs: Seq<FieldV>, rows: nat)
    requires
        rows <= u32::MAX,
        dec_columns(b, pos, fs, rows) is Some,
    ensures
        ({
            let cs = dec_columns(b, pos, fs, rows).unwrap().0;
            cs.len() == fs.len() && forall|i: int| 0 <= i < cs.len() ==> {
                &&& (#[trigger] cs[i]).ty() == fs[i].ty
                &&& cs[i].wf()
                &&& cs[i].len() == rows
            }
        }),
    decreases fs.len(),
{
    if fs.len() == 0 {
    } else {
        lemma_dec_column_wf(b, pos, fs[0].ty, rows);
        let (c, p1) = dec_column(b, pos, fs[0].ty, rows).unwrap();
        lemma_dec_columns_wf(b, p1, fs.drop_first(), rows);
    }
}

/// A frame that parses against a well-formed schema parses to a
/// well-formed batch carrying that schema.
pub proof fn lemma_dec_frame_wf(b: Seq<u8>, pos: int, s: SchemaV)
    requires
        s.wf(),
        dec_frame(b, pos, s) is Some,
    ensures
        dec_frame(b, pos, s).unwrap().0.wf(),
        dec_frame(b, pos, s).unwrap().0.schema == s,
{
    let (rows, p1) = dec_u32(b, pos).unwrap();
    lemma_dec_columns_wf(b, p1, s.fields, rows as nat);
}

/// Every batch parsed against a well-formed schema is well formed.
pub proof fn lemma_dec_frames_wf(b: Seq<u8>, pos: int, s: SchemaV)
    requires
        s.wf(),
        dec_frames(b, pos, s) is Some,
    ensures
        batches_wf(s, dec_frames(b, pos, s).unwrap().0),
    decreases b.len() - pos,
{
    if b[pos] == end_marker() {
    } else {
        lemma_dec_frame_wf(b, pos + 1, s);
        let (_, p1) = dec_frame(b, pos + 1, s).unwrap();
        lemma_dec_frames_wf(b, p1, s);
    }
}

// ---------------------------------------------------------------------------
// Completeness: decoding finds exactly what was encoded
// ---------------------------------------------------------------------------

proof fn lemma_dec_u32_at(b: Seq<u8>, pos: int, x: u32)
    requires
        contains_at(b, pos, u32_le(x)),
    ensures
        dec_u32(b, pos) == Some((x, pos + 4)),
{
    assert(b.subrange(pos, pos + 4)[0] == b[pos]);
    assert(b.subrange(pos, pos + 4)[1] == b[pos + 1]);
    assert(b.subrange(pos, pos + 4)[2] == b[pos + 2]);
    assert(b.subrange(pos, pos + 4)[3] == b[pos + 3]);
    lemma_le_u32_roundtrip(x);
}

proof fn lemma_dec_field_at(b: Seq<u8>, pos: int, f: FieldV)
    requires
        f.wf(),
        contains_at(b, pos, enc_field(f)),
    ensures
        dec_field(b, pos) == Some((f, pos + enc_field(f).len())),
{
    let nlen = f.name.len() as u32;
    let tail = f.name + seq![tag_of(f.ty), 0u8];
    assert(enc_field(f) =~= u32_le(nlen) + tail);
    lemma_contains_split(b, pos, u32_le(nlen), tail);
    lemma_dec_u32_at(b, pos, nlen);
    let p1 = pos + 4;
    lemma_contains_split(b, p1, f.name, seq![tag_of(f.ty), 0u8]);
    let n = f.name.len() as int;
    assert(nlen != 0);
    assert(nlen as int == n);
    assert(p1 + n + 2 <= b.len());
    assert(b.subrange(p1, p1 + n) =~= f.name);
    assert(b.subrange(p1 + n, p1 + n + 2)[0] == b[p1 + n]);
    assert(b.subrange(p1 + n, p1 + n + 2)[1] == b[p1 + n + 1]);
    assert(b[p1 + n] == tag_of(f.ty));
    assert(b[p1 + n + 1] == 0u8);
    match f.ty {
        LogicalType::Int32 => {
            assert(dec_field(b, pos) == Some((
                FieldV { name: b.subrange(p1, p1 + n), ty: LogicalType::Int32, nullable: false },
                p1 + n + 2,
            )));
            assert(FieldV { name: b.subrange(p1, p1 + n), ty: LogicalType::Int32, nullable: false }
                =~= f);
        }
        LogicalType::Utf8 => {
            assert(FieldV { name: b.subrange(p1, p1 + n), ty: LogicalType::Utf8, nullable: false }
                =~= f);
        }
    }
}

proof fn lemma_dec_fields_at(b: Seq<u8>, pos: int, fs: Seq<FieldV>)
    requires
        forall|i: int| 0 <= i < fs.len() ==> (#[trigger] fs[i]).wf(),
        contains_at(b, pos, enc_fields(fs)),
    ensures
        dec_fields(b, pos, fs.len()) == Some((fs, pos + enc_fields(fs).len())),
    decreases fs.len(),
{
    if fs.len() == 0 {
        assert(fs =~= Seq::<FieldV>::empty());
    } else {
        lemma_contains_split(b, pos, enc_field(fs[0]), enc_fields(fs.drop_first()));
        lemma_dec_field_at(b, pos, fs[0]);
        let p1 = pos + enc_field(fs[0]).len();
        lemma_dec_fields_at(b, p1, fs.drop_first());
        assert(seq![fs[0]] + fs.drop_first() =~= fs);
    }
}

proof fn lemma_dec_header_at(b: Seq<u8>, s: SchemaV)
    requires
        s.wf(),
        contains_at(b, 0, enc_header(s)),
    ensures
        dec_header(b) == Some((s, enc_header(s).len() as int)),
{
    let n = s.fields.len() as u32;
    assert(enc_header(s) =~= magic() + (u32_le(n) + enc_fields(s.fields)));
    lemma_contains_split(b, 0, magic(), u32_le(n) + enc_fields(s.fields));
    lemma_contains_split(b, 4, u32_le(n), enc_fields(s.fields));
    assert(b.len() >= 8);
    assert(b.subrange(0, 4) == magic());
    lemma_dec_u32_at(b, 4, n);
    assert(n != 0);
    lemma_dec_fields_at(b, 8, s.fields);
    assert(n as nat == s.fields.len());
    assert(SchemaV { fields: s.fields } =~= s);
}

proof fn lemma_dec_i32s_at(b: Seq<u8>, pos: int, vs: Seq<i32>)
    requires
        contains_at(b, pos, enc_i32s(vs)),
    ensures
        dec_i32s(b, pos, vs.len()) == Some((vs, pos + enc_i32s(vs).len())),
    decreases vs.len(),
{
    if vs.len() == 0 {
        assert(vs =~= Seq::<i32>::empty());
    } else {
        lemma_contains_split(b, pos, enc_i32(vs[0]), enc_i32s(vs.drop_first()));
        lemma_dec_u32_at(b, pos, u32_of_i32(vs[0]));
        lemma_i32_u32_roundtrip(vs[0]);
        lemma_dec_i32s_at(b, pos + 4, vs.drop_first());
        assert(seq![vs[0]] + vs.drop_first() =~= vs);
    }
}

proof fn lemma_dec_bstr_at(b: Seq<u8>, pos: int, s: Seq<u8>)
    requires
        s.len() <= u32::MAX,
        contains_at(b, pos, enc_bstr(s)),
    ensures
        dec_bstr(b, pos) == Some((s, pos + enc_bstr(s).len())),
{
    let len = s.len() as u32;
    lemma_contains_split(b, pos, u32_le(len), s);
    lemma_dec_u32_at(b, pos, len);
    assert(len as int == s.len() as int);
    assert(b.subrange(pos + 4, pos + 4 + s.len() as int) =~= s);
}

proof fn lemma_dec_bstrs_at(b: Seq<u8>, pos: int, ss: Seq<Seq<u8>>)
    requires
        forall|i: int| 0 <= i < ss.len() ==> (#[trigger] ss[i]).len() <= u32::MAX,
        contains_at(b, pos, enc_bstrs(ss)),
    ensures
        dec_bstrs(b, pos, ss.len()) == Some((ss, pos + enc_bstrs(ss).len())),
    decreases ss.len(),
{
    if ss.len() == 0 {
        assert(ss =~= Seq::<Seq<u8>>::empty());
    } else {
        lemma_contains_split(b, pos, enc_bstr(ss[0]), enc_bstrs(ss.drop_first()));
        lemma_dec_bstr_at(b, pos, ss[0]);
        lemma_dec_bstrs_at(b, pos + enc_bstr(ss[0]).len(), ss.drop_first());
        assert(seq![ss[0]] + ss.drop_first() =~= ss);
    }
}

proof fn lemma_dec_column_at(b: Seq<u8>, pos: int, c: ColumnV)
    requires
        c.wf(),
        contains_at(b, pos, enc_column(c)),
    ensures
        dec_column(b, pos, c.ty(), c.len()) == Some((c, pos + enc_column(c).len())),
{
    match c {
        ColumnV::Int32(vs) => {
            lemma_dec_i32s_at(b, pos, vs);
        }
        ColumnV::Utf8(ss) => {
            lemma_dec_bstrs_at(b, pos, ss);
        }
    }
}

proof fn lemma_dec_columns_at(b: Seq<u8>, pos: int, fs: Seq<FieldV>, cs: Seq<ColumnV>, rows: nat)
    requires
        cs.len() == fs.len(),
        forall|i: int| 0 <= i < cs.len() ==> {
            &&& (#[trigger] cs[i]).ty() == fs[i].ty
            &&& cs[i].wf()
            &&& cs[i].len() == rows
        },
        contains_at(b, pos, enc_columns(cs)),
    ensures
        dec_columns(b, pos, fs, rows) == Some((cs, pos + enc_columns(cs).len())),
    decreases fs.len(),
{
    if fs.len() == 0 {
        assert(cs =~= Seq::<ColumnV>::empty());
    } else {
        lemma_contains_split(b, pos, enc_column(cs[0]), enc_columns(cs.drop_first()));
        lemma_dec_column_at(b, pos, cs[0]);
        assert(cs[0].ty() == fs[0].ty && cs[0].len() == rows);
        assert(forall|i: int| 0 <= i < cs.drop_first().len() ==> {
            &&& (#[trigger] cs.drop_first()[i]).ty() == fs.drop_first()[i].ty
            &&& cs.drop_first()[i].wf()
            &&& cs.drop_first()[i].len() == rows
        });
        lemma_dec_columns_at(b, pos + enc_column(cs[0]).len(), fs.drop_first(), cs.drop_first(),
            rows);
        assert(seq![cs[0]] + cs.drop_first() =~= cs);
    }
}

proof fn lemma_dec_frame_at(b: Seq<u8>, pos: int, batch: BatchV)
    requires
        batch.wf(),
        contains_at(b, pos, u32_le(batch.rows() as u32) + enc_columns(batch.columns)),
    ensures
        dec_frame(b, pos, batch.schema) == Some((
            batch,
            pos + 4 + enc_columns(batch.columns).len(),
        )),
{
    let rows = batch.rows() as u32;
    lemma_contains_split(b, pos, u32_le(rows), enc_columns(batch.columns));
    lemma_dec_u32_at(b, pos, rows);
    assert(batch.columns[0].len() <= u32::MAX);
    assert(rows as nat == batch.rows());
    lemma_dec_columns_at(b, pos + 4, batch.schema.fields, batch.columns, batch.rows());
    assert(BatchV { schema: batch.schema, columns: batch.columns } =~= batch);
}

proof fn lemma_dec_frames_at(b: Seq<u8>, pos: int, s: SchemaV, bs: Seq<BatchV>)
    requires
        batches_wf(s, bs),
        contains_at(b, pos, enc_frames(bs) + seq![end_marker()]),
    ensures
        dec_frames(b, pos, s) == Some((bs, pos + enc_frames(bs).len() + 1)),
    decreases bs.len(),
{
    if bs.len() == 0 {
        assert((enc_frames(bs) + seq![end_marker()]) =~= seq![end_marker()]);
        assert(b.subrange(pos, pos + 1)[0] == b[pos]);
        assert(b[pos] == end_marker());
        assert(bs =~= Seq::<BatchV>::empty());
    } else {
        let head = enc_frame(bs[0]);
        let rest = enc_frames(bs.drop_first()) + seq![end_marker()];
        assert((enc_frames(bs) + seq![end_marker()]) =~= head + rest);
        lemma_contains_split(b, pos, head, rest);
        let body = u32_le(bs[0].rows() as u32) + enc_columns(bs[0].columns);
        assert(head =~= seq![batch_marker()] + body);
        lemma_contains_split(b, pos, seq![batch_marker()], body);
        assert(b.subrange(pos, pos + 1)[0] == b[pos]);
        assert(b[pos] == batch_marker());
        lemma_dec_frame_at(b, pos + 1, bs[0]);
        let p1 = pos + 1 + body.len();
        assert(dec_frame(b, pos + 1, s) == Some((bs[0], p1)));
        assert(pos + 1 <= p1 <= b.len());
        lemma_dec_frames_at(b, p1, s, bs.drop_first());
        assert(seq![bs[0]] + bs.drop_first() =~= bs);
        assert(pos + enc_frames(bs).len() + 1 == p1 + enc_frames(bs.drop_first()).len() + 1);
    }
}

/// Round trip: a container framed from a well-formed schema and batches
/// decodes to exactly that schema and those batches.
pub proof fn lemma_round_trip(s: SchemaV, bs: Seq<BatchV>)
    requires
        s.wf(),
        batches_wf(s, bs),
    ensures
        dec_container(enc_container(s, bs)) == Some((s, bs)),
{
    let b = enc_container(s, bs);
    assert(b =~= enc_header(s) + (enc_frames(bs) + seq![end_marker()]));
    assert(contains_at(b, 0, enc_header(s) + (enc_frames(bs) + seq![end_marker()]))) by {
        assert(b.subrange(0, b.len() as int) =~= b);
    }
    lemma_contains_split(b, 0, enc_header(s), enc_frames(bs) + seq![end_marker()]);
    lemma_dec_header_at(b, s);
    let h = enc_header(s).len() as int;
    lemma_dec_frames_at(b, h, s, bs);
    assert(h + enc_frames(bs).len() + 1 == b.len());
}

// ---------------------------------------------------------------------------
// Locality: a successful parse of a prefix parses the same in the whole
// ---------------------------------------------------------------------------

proof fn lemma_prefix_bytes(p: Seq<u8>, b: Seq<u8>)
    requires
        is_prefix(p, b),
    ensures
        forall|i: int| 0 <= i < p.len() ==> p[i] == b[i],
{
    assert forall|i: int| 0 <= i < p.len() implies p[i] == b[i] by {
        assert(b.subrange(0, p.len() as int)[i] == b[i]);
    }
}

proof fn lemma_loc_u32(p: Seq<u8>, b: Seq<u8>, pos: int)
    requires
        is_prefix(p, b),
        dec_u32(p, pos) is Some,
    ensures
        dec_u32(b, pos) == dec_u32(p, pos),
{
    lemma_prefix_bytes(p, b);
}

proof fn lemma_loc_field(p: Seq<u8>, b: Seq<u8>, pos: int)
    requires
        is_prefix(p, b),
        dec_field(p, pos) is Some,
    ensures
        dec_field(b, pos) == dec_field(p, pos),
{
    lemma_prefix_bytes(p, b);
    lemma_loc_u32(p, b, pos);
    let (nlen, p1) = dec_u32(p, pos).unwrap();
    let n = nlen as int;
    assert(p.subrange(p1, p1 + n) =~= b.subrange(p1, p1 + n));
}

proof fn lemma_loc_fields(p: Seq<u8>, b: Seq<u8>, pos: int, n: nat)
    requires
        is_prefix(p, b),
        dec_fields(p, pos, n) is Some,
    ensures
        dec_fields(b, pos, n) == dec_fields(p, pos, n),
    decreases n,
{
    if n == 0 {
    } else {
        lemma_loc_field(p, b, pos);
        let (f, p1) = dec_field(p, pos).unwrap();
        lemma_loc_fields(p, b, p1, (n - 1) as nat);
    }
}

proof fn lemma_loc_header(p: Seq<u8>, b: Seq<u8>)
    requires
        is_prefix(p, b),
        dec_header(p) is Some,
    ensures
        dec_header(b) == dec_header(p),
{
    lemma_prefix_bytes(p, b);
    assert(p.subrange(0, 4) =~= b.subrange(0, 4));
    lemma_loc_u32(p, b, 4);
    let (n, p1) = dec_u32(p, 4).unwrap();
    lemma_loc_fields(p, b, p1, n as nat);
}

proof fn lemma_loc_i32s(p: Seq<u8>, b: Seq<u8>, pos: int, n: nat)
    requires
        is_prefix(p, b),
        dec_i32s(p, pos, n) is Some,
    ensures
        dec_i32s(b, pos, n) == dec_i32s(p, pos, n),
    decreases n,
{
    if n == 0 {
    } else {
        lemma_loc_u32(p, b, pos);
        let (u, p1) = dec_u32(p, pos).unwrap();
        lemma_loc_i32s(p, b, p1, (n - 1) as nat);
    }
}

proof fn lemma_loc_bstr(p: Seq<u8>, b: Seq<u8>, pos: int)
    requires
        is_prefix(p, b),
        dec_bstr(p, pos) is Some,
    ensures
        dec_bstr(b, pos) == dec_bstr(p, pos),
{
    lemma_loc_u32(p, b, pos);
    let (len, p1) = dec_u32(p, pos).unwrap();
    let n = len as int;
    lemma_prefix_bytes(p, b);
    assert(p.subrange(p1, p1 + n) =~= b.subrange(p1, p1 + n));
}

proof fn lemma_loc_bstrs(p: Seq<u8>, b: Seq<u8>, pos: int, n: nat)
    requires
        is_prefix(p, b),
        dec_bstrs(p, pos, n) is Some,
    ensures
        dec_bstrs(b, pos, n) == dec_bstrs(p, pos, n),
    decreases n,
{
    if n == 0 {
    } else {
        lemma_loc_bstr(p, b, pos);
        let (s, p1) = dec_bstr(p, pos).unwrap();
        lemma_loc_bstrs(p, b, p1, (n - 1) as nat);
    }
}

proof fn lemma_loc_column(p: Seq<u8>, b: Seq<u8>, pos: int, ty: LogicalType, rows: nat)
    requires
        is_prefix(p, b),
        dec_column(p, pos, ty, rows) is Some,
    ensures
        dec_column(b, pos, ty, rows) == dec_column(p, pos, ty, rows),
{
    match ty {
        LogicalType::Int32 => {
            lemma_loc_i32s(p, b, pos, rows);
        }
        LogicalType::Utf8 => {
            lemma_loc_bstrs(p, b, pos, rows);
        }
    }
}

proof fn lemma_loc_columns(p: Seq<u8>, b: Seq<u8>, pos: int, fs: Seq<FieldV>, rows: nat)
    requires
        is_prefix(p, b),
        dec_columns(p, pos, fs, rows) is Some,
    ensures
        dec_columns(b, pos, fs, rows) == dec_columns(p, pos, fs, rows),
    decreases fs.len(),
{
    if fs.len() == 0 {
    } else {
        lemma_loc_column(p, b, pos, fs[0].ty, rows);
        let (c, p1) = dec_column(p, pos, fs[0].ty, rows).unwrap();
        lemma_loc_columns(p, b, p1, fs.drop_first(), rows);
    }
}

proof fn lemma_loc_frame(p: Seq<u8>, b: Seq<u8>, pos: int, s: SchemaV)
    requires
        is_prefix(p, b),
        dec_frame(p, pos, s) is Some,
    ensures
        dec_frame(b, pos, s) == dec_frame(p, pos, s),
{
    lemma_loc_u32(p, b, pos);
    let (rows, p1) = dec_u32(p, pos).unwrap();
    lemma_loc_columns(p, b, p1, s.fields, rows as nat);
}

proof fn lemma_loc_frames(p: Seq<u8>, b: Seq<u8>, pos: int, s: SchemaV)
    requires
        is_prefix(p, b),
        dec_frames(p, pos, s) is Some,
    ensures
        dec_frames(b, pos, s) == dec_frames(p, pos, s),
    decreases p.len() - pos,
{
    lemma_prefix_bytes(p, b);
    if p[pos] == end_marker() {
    } else {
        lemma_loc_frame(p, b, pos + 1, s);
        let (batch, p1) = dec_frame(p, pos + 1, s).unwrap();
        lemma_loc_frames(p, b, p1, s);
    }
}

/// Truncation detection: cutting a framed container anywhere short of its
/// full length — in particular anywhere before its footer — leaves bytes
/// that no longer decode at all.
pub proof fn lemma_truncation_detected(s: SchemaV, bs: Seq<BatchV>, k: int)
    requires
        s.wf(),
        batches_wf(s, bs),
        0 <= k < enc_container(s, bs).len(),
    ensures
        dec_container(enc_container(s, bs).subrange(0, k)) is None,
{
    let b = enc_container(s, bs);
    let p = b.subrange(0, k);
    lemma_round_trip(s, bs);
    assert(b =~= enc_header(s) + (enc_frames(bs) + seq![end_marker()]));
    assert(contains_at(b, 0, enc_header(s) + (enc_frames(bs) + seq![end_marker()]))) by {
        assert(b.subrange(0, b.len() as int) =~= b);
    }
    lemma_contains_split(b, 0, enc_header(s), enc_frames(bs) + seq![end_marker()]);
    lemma_dec_header_at(b, s);
    let h = enc_header(s).len() as int;
    lemma_dec_frames_at(b, h, s, bs);
    assert(is_prefix(p, b));
    if dec_container(p) is Some {
        match dec_header(p) {
            None => {}
            Some(pr1) => {
                lemma_loc_header(p, b);
                assert(pr1 == (s, h));
                match dec_frames(p, h, s) {
                    None => {}
                    Some(pr2) => {
                        assert(pr2.1 == p.len());
                        lemma_loc_frames(p, b, h, s);
                        assert(dec_frames(b, h, s) == Some((bs, b.len() as int)));
                        assert(pr2.1 == b.len());
                        assert(false);
                    }
                }
            }
        }
    }
}

} // verus!

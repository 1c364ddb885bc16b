//! The container's byte layout, stated as specification functions.
//!
//! A container is a header (magic, field count, one descriptor per field),
//! zero or more batch frames (a marker byte, a row count, one encoded column
//! per field), and a one-byte footer marker. `enc_*` give the exact bytes of
//! each piece; `dec_*` parse them back and are the reference for the reader.

use vstd::prelude::*;

verus! {

use crate::LogicalType;
use crate::model::{FieldV, SchemaV, ColumnV, BatchV};

/// Marker byte that opens a batch frame.
pub open spec fn batch_marker() -> u8 {
    1u8
}

/// Marker byte that closes the container.
pub open spec fn end_marker() -> u8 {
    0u8
}

/// The four magic bytes that open every container.
pub open spec fn magic() -> Seq<u8> {
    seq![0x43u8, 0x42u8, 0x46u8, 0x31u8]
}

/// The one-byte tag of a logical type.
pub open spec fn tag_of(t: LogicalType) -> u8 {
    match t {
        LogicalType::Int32 => 0u8,
        LogicalType::Utf8 => 1u8,
    }
}

/// A 32-bit value as four little-endian bytes.
pub open spec fn u32_le(x: u32) -> Seq<u8> {
    seq![
        (x & 0xff) as u8,
        ((x >> 8) & 0xff) as u8,
        ((x >> 16) & 0xff) as u8,
        ((x >> 24) & 0xff) as u8,
    ]
}

/// Four little-endian bytes as a 32-bit value.
pub open spec fn le_u32(b0: u8, b1: u8, b2: u8, b3: u8) -> u32 {
    (b0 as u32) | ((b1 as u32) << 8) | ((b2 as u32) << 16) | ((b3 as u32) << 24)
}

/// The unsigned 32-bit pattern that stands for a signed value.
pub open spec fn u32_of_i32(x: i32) -> u32 {
    if x >= 0 {
        x as u32
    } else {
        (x + 0x1_0000_0000) as u32
    }
}

/// The signed value of an unsigned 32-bit pattern.
pub open spec fn i32_of_u32(u: u32) -> i32 {
    if u < 0x8000_0000 {
        u as i32
    } else {
        (u - 0x1_0000_0000) as i32
    }
}

pub proof fn lemma_le_u32_roundtrip(x: u32)
    ensures
        le_u32(u32_le(x)[0], u32_le(x)[1], u32_le(x)[2], u32_le(x)[3]) == x,
{
    assert(((x & 0xff) as u8 as u32) | ((((x >> 8) & 0xff) as u8 as u32) << 8)
        | ((((x >> 16) & 0xff) as u8 as u32) << 16)
        | ((((x >> 24) & 0xff) as u8 as u32) << 24) == x) by (bit_vector);
}

pub proof fn lemma_i32_u32_roundtrip(x: i32)
    ensures
        i32_of_u32(u32_of_i32(x)) == x,
{
}

/// The string values held by a vector of byte vectors.
pub open spec fn col_strs_of(ss: Seq<Vec<u8>>) -> Seq<Seq<u8>> {
    ss.map_values(|s: Vec<u8>| s@)
}

// ---------------------------------------------------------------------------
// Encoding
// ---------------------------------------------------------------------------

/// One field descriptor: name length, name bytes, type tag, nullability byte.
pub open spec fn enc_field(f: FieldV) -> Seq<u8> {
    u32_le(f.name.len() as u32) + f.name + seq![tag_of(f.ty), 0u8]
}

pub open spec fn enc_fields(fs: Seq<FieldV>) -> Seq<u8>
    decreases fs.len(),
{
    if fs.len() == 0 {
        Seq::empty()
    } else {
        enc_field(fs[0]) + enc_fields(fs.drop_first())
    }
}

/// The header: magic bytes, field count, field descriptors.
pub open spec fn enc_header(s: SchemaV) -> Seq<u8> {
    magic() + u32_le(s.fields.len() as u32) + enc_fields(s.fields)
}

/// A signed value as its four little-endian bytes.
pub open spec fn enc_i32(x: i32) -> Seq<u8> {
    u32_le(u32_of_i32(x))
}

pub open spec fn enc_i32s(vs: Seq<i32>) -> Seq<u8>
    decreases vs.len(),
{
    if vs.len() == 0 {
        Seq::empty()
    } else {
        enc_i32(vs[0]) + enc_i32s(vs.drop_first())
    }
}

/// One string value: its byte length, then its bytes.
pub open spec fn enc_bstr(s: Seq<u8>) -> Seq<u8> {
    u32_le(s.len() as u32) + s
}

pub open spec fn enc_bstrs(ss: Seq<Seq<u8>>) -> Seq<u8>
    decreases ss.len(),
{
    if ss.len() == 0 {
        Seq::empty()
    } else {
        enc_bstr(ss[0]) + enc_bstrs(ss.drop_first())
    }
}

pub open spec fn enc_column(c: ColumnV) -> Seq<u8> {
    match c {
        ColumnV::Int32(vs) => enc_i32s(vs),
        ColumnV::Utf8(ss) => enc_bstrs(ss),
    }
}

pub open spec fn enc_columns(cs: Seq<ColumnV>) -> Seq<u8>
    decreases cs.len(),
{
    if cs.len() == 0 {
        Seq::empty()
    } else {
        enc_column(cs[0]) + enc_columns(cs.drop_first())
    }
}

/// One batch frame: marker, row count, each column in field order.
pub open spec fn enc_frame(b: BatchV) -> Seq<u8> {
    seq![batch_marker()] + u32_le(b.rows() as u32) + enc_columns(b.columns)
}

pub open spec fn enc_frames(bs: Seq<BatchV>) -> Seq<u8>
    decreases bs.len(),
{
    if bs.len() == 0 {
        Seq::empty()
    } else {
        enc_frame(bs[0]) + enc_frames(bs.drop_first())
    }
}

/// The whole container: header, batch frames, footer marker.
pub open spec fn enc_container(s: SchemaV, bs: Seq<BatchV>) -> Seq<u8> {
    enc_header(s) + enc_frames(bs) + seq![end_marker()]
}

pub proof fn lemma_enc_fields_snoc(fs: Seq<FieldV>)
    requires
        fs.len() > 0,
    ensures
        enc_fields(fs) == enc_fields(fs.drop_last()) + enc_field(fs.last()),
    decreases fs.len(),
{
    if fs.len() == 1 {
        assert(fs.drop_first() =~= Seq::<FieldV>::empty());
        assert(fs.drop_last() =~= Seq::<FieldV>::empty());
        assert(enc_fields(fs) =~= enc_fields(fs.drop_last()) + enc_field(fs.last()));
    } else {
        lemma_enc_fields_snoc(fs.drop_first());
        assert(fs.drop_first().drop_last() =~= fs.drop_last().drop_first());
        assert(fs.drop_last()[0] == fs[0]);
        assert(enc_fields(fs) =~= enc_fields(fs.drop_last()) + enc_field(fs.last()));
    }
}

pub proof fn lemma_enc_i32s_snoc(vs: Seq<i32>)
    requires
        vs.len() > 0,
    ensures
        enc_i32s(vs) == enc_i32s(vs.drop_last()) + enc_i32(vs.last()),
    decreases vs.len(),
{
    if vs.len() == 1 {
        assert(vs.drop_first() =~= Seq::<i32>::empty());
        assert(vs.drop_last() =~= Seq::<i32>::empty());
        assert(enc_i32s(vs) =~= enc_i32s(vs.drop_last()) + enc_i32(vs.last()));
    } else {
        lemma_enc_i32s_snoc(vs.drop_first());
        assert(vs.drop_first().drop_last() =~= vs.drop_last().drop_first());
        assert(vs.drop_last()[0] == vs[0]);
        assert(enc_i32s(vs) =~= enc_i32s(vs.drop_last()) + enc_i32(vs.last()));
    }
}

pub proof fn lemma_enc_bstrs_snoc(ss: Seq<Seq<u8>>)
    requires
        ss.len() > 0,
    ensures
        enc_bstrs(ss) == enc_bstrs(ss.drop_last()) + enc_bstr(ss.last()),
    decreases ss.len(),
{
    if ss.len() == 1 {
        assert(ss.drop_first() =~= Seq::<Seq<u8>>::empty());
        assert(ss.drop_last() =~= Seq::<Seq<u8>>::empty());
        assert(enc_bstrs(ss) =~= enc_bstrs(ss.drop_last()) + enc_bstr(ss.last()));
    } else {
        lemma_enc_bstrs_snoc(ss.drop_first());
        assert(ss.drop_first().drop_last() =~= ss.drop_last().drop_first());
        assert(ss.drop_last()[0] == ss[0]);
        assert(enc_bstrs(ss) =~= enc_bstrs(ss.drop_last()) + enc_bstr(ss.last()));
    }
}

pub proof fn lemma_enc_columns_snoc(cs: Seq<ColumnV>)
    requires
        cs.len() > 0,
    ensures
        enc_columns(cs) == enc_columns(cs.drop_last()) + enc_column(cs.last()),
    decreases cs.len(),
{
    if cs.len() == 1 {
        assert(cs.drop_first() =~= Seq::<ColumnV>::empty());
        assert(cs.drop_last() =~= Seq::<ColumnV>::empty());
        assert(enc_columns(cs) =~= enc_columns(cs.drop_last()) + enc_column(cs.last()));
    } else {
        lemma_enc_columns_snoc(cs.drop_first());
        assert(cs.drop_first().drop_last() =~= cs.drop_last().drop_first());
        assert(cs.drop_last()[0] == cs[0]);
        assert(enc_columns(cs) =~= enc_columns(cs.drop_last()) + enc_column(cs.last()));
    }
}

pub proof fn lemma_enc_frames_snoc(bs: Seq<BatchV>)
    requires
        bs.len() > 0,
    ensures
        enc_frames(bs) == enc_frames(bs.drop_last()) + enc_frame(bs.last()),
    decreases bs.len(),
{
    if bs.len() == 1 {
        assert(bs.drop_first() =~= Seq::<BatchV>::empty());
        assert(bs.drop_last() =~= Seq::<BatchV>::empty());
        assert(enc_frames(bs) =~= enc_frames(bs.drop_last()) + enc_frame(bs.last()));
    } else {
        lemma_enc_frames_snoc(bs.drop_first());
        assert(bs.drop_first().drop_last() =~= bs.drop_last().drop_first());
        assert(bs.drop_last()[0] == bs[0]);
        assert(enc_frames(bs) =~= enc_frames(bs.drop_last()) + enc_frame(bs.last()));
    }
}

// ---------------------------------------------------------------------------
// Decoding
// ---------------------------------------------------------------------------

/// Reads a 32-bit value at `pos`; yields it and the next position.
pub open spec fn dec_u32(b: Seq<u8>, pos: int) -> Option<(u32, int)> {
    if 0 <= pos && pos + 4 <= b.len() {
        Some((le_u32(b[pos], b[pos + 1], b[pos + 2], b[pos + 3]), pos + 4))
    } else {
        None
    }
}

/// Reads one field descriptor at `pos`.
pub open spec fn dec_field(b: Seq<u8>, pos: int) -> Option<(FieldV, int)> {
    match dec_u32(b, pos) {
        None => None,
        Some((nlen, p1)) => {
            let n = nlen as int;
            if nlen == 0 || p1 + n + 2 > b.len() {
                None
            } else {
                let name = b.subrange(p1, p1 + n);
                let tag = b[p1 + n];
                let nul = b[p1 + n + 1];
                if nul != 0 {
                    None
                } else if tag == 0 {
                    Some((FieldV { name, ty: LogicalType::Int32, nullable: false }, p1 + n + 2))
                } else if tag == 1 {
                    Some((FieldV { name, ty: LogicalType::Utf8, nullable: false }, p1 + n + 2))
                } else {
                    None
                }
            }
        }
    }
}

/// Reads `n` field descriptors at `pos`.
pub open spec fn dec_fields(b: Seq<u8>, pos: int, n: nat) -> Option<(Seq<FieldV>, int)>
    decreases n,
{
    if n == 0 {
        Some((Seq::empty(), pos))
    } else {
        match dec_field(b, pos) {
            None => None,
            Some((f, p1)) => match dec_fields(b, p1, (n - 1) as nat) {
                None => None,
                Some((fs, p2)) => Some((seq![f] + fs, p2)),
            },
        }
    }
}

/// Reads the header from the start of the bytes.
pub open spec fn dec_header(b: Seq<u8>) -> Option<(SchemaV, int)> {
    if b.len() >= 8 && b.subrange(0, 4) == magic() {
        match dec_u32(b, 4) {
            None => None,
            Some((n, p1)) => {
                if n == 0 {
                    None
                } else {
                    match dec_fields(b, p1, n as nat) {
                        None => None,
                        Some((fs, p2)) => Some((SchemaV { fields: fs }, p2)),
                    }
                }
            }
        }
    } else {
        None
    }
}

/// Reads `n` signed 32-bit values at `pos`.
pub open spec fn dec_i32s(b: Seq<u8>, pos: int, n: nat) -> Option<(Seq<i32>, int)>
    decreases n,
{
    if n == 0 {
        Some((Seq::empty(), pos))
    } else {
        match dec_u32(b, pos) {
            None => None,
            Some((u, p1)) => match dec_i32s(b, p1, (n - 1) as nat) {
                None => None,
                Some((vs, p2)) => Some((seq![i32_of_u32(u)] + vs, p2)),
            },
        }
    }
}

/// Reads one length-prefixed string value at `pos`.
pub open spec fn dec_bstr(b: Seq<u8>, pos: int) -> Option<(Seq<u8>, int)> {
    match dec_u32(b, pos) {
        None => None,
        Some((len, p1)) => {
            let n = len as int;
            if p1 + n > b.len() {
                None
            } else {
                Some((b.subrange(p1, p1 + n), p1 + n))
            }
        }
    }
}

/// Reads `n` string values at `pos`.
pub open spec fn dec_bstrs(b: Seq<u8>, pos: int, n: nat) -> Option<(Seq<Seq<u8>>, int)>
    decreases n,
{
    if n == 0 {
        Some((Seq::empty(), pos))
    } else {
        match dec_bstr(b, pos) {
            None => None,
            Some((s, p1)) => match dec_bstrs(b, p1, (n - 1) as nat) {
                None => None,
                Some((ss, p2)) => Some((seq![s] + ss, p2)),
            },
        }
    }
}

/// Reads one column of `rows` values of type `ty` at `pos`.
pub open spec fn dec_column(b: Seq<u8>, pos: int, ty: LogicalType, rows: nat) -> Option<(ColumnV, int)> {
    match ty {
        LogicalType::Int32 => match dec_i32s(b, pos, rows) {
            None => None,
            Some((vs, p1)) => Some((ColumnV::Int32(vs), p1)),
        },
        LogicalType::Utf8 => match dec_bstrs(b, pos, rows) {
            None => None,
            Some((ss, p1)) => Some((ColumnV::Utf8(ss), p1)),
        },
    }
}

/// Reads one column per field, in field order, at `pos`.
pub open spec fn dec_columns(b: Seq<u8>, pos: int, fs: Seq<FieldV>, rows: nat) -> Option<(Seq<ColumnV>, int)>
    decreases fs.len(),
{
    if fs.len() == 0 {
        Some((Seq::empty(), pos))
    } else {
        match dec_column(b, pos, fs[0].ty, rows) {
            None => None,
            Some((c, p1)) => match dec_columns(b, p1, fs.drop_first(), rows) {
                None => None,
                Some((cs, p2)) => Some((seq![c] + cs, p2)),
            },
        }
    }
}

/// Reads one batch frame body (row count and columns) at `pos`.
pub open spec fn dec_frame(b: Seq<u8>, pos: int, s: SchemaV) -> Option<(BatchV, int)> {
    match dec_u32(b, pos) {
        None => None,
        Some((rows, p1)) => match dec_columns(b, p1, s.fields, rows as nat) {
            None => None,
            Some((cs, p2)) => Some((BatchV { schema: s, columns: cs }, p2)),
        },
    }
}

/// Reads batch frames at `pos` up to and including the footer marker.
pub open spec fn dec_frames(b: Seq<u8>, pos: int, s: SchemaV) -> Option<(Seq<BatchV>, int)>
    decreases b.len() - pos,
{
    if 0 <= pos && pos < b.len() {
        if b[pos] == end_marker() {
            Some((Seq::empty(), pos + 1))
        } else if b[pos] == batch_marker() {
            match dec_frame(b, pos + 1, s) {
                None => None,
                Some((batch, p1)) => {
                    if pos + 1 <= p1 <= b.len() {
                        match dec_frames(b, p1, s) {
                            None => None,
                            Some((bs, p2)) => Some((seq![batch] + bs, p2)),
                        }
                    } else {
                        None
                    }
                }
            }
        } else {
            None
        }
    } else {
        None
    }
}

/// Reads a whole container; succeeds only if every byte is consumed.
pub open spec fn dec_container(b: Seq<u8>) -> Option<(SchemaV, Seq<BatchV>)> {
    match dec_header(b) {
        None => None,
        Some((s, p1)) => match dec_frames(b, p1, s) {
            None => None,
            Some((bs, p2)) => {
                if p2 == b.len() {
                    Some((s, bs))
                } else {
                    None
                }
            }
        },
    }
}

} // verus!

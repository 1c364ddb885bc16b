//! The container writer: an in-memory write session that frames a schema
//! and a sequence of batches exactly as [`crate::codec::enc_container`]
//! states. The caller persists the finished bytes however it likes.

use vstd::prelude::*;

verus! {

use crate::LogicalType;
use crate::model::{Field, Schema, Batch, BatchV, SchemaV, WriteError, schema_eq, column_len, Column};
use crate::codec::{
    u32_le, enc_i32, enc_i32s, enc_bstr, enc_bstrs, enc_column, enc_columns, enc_field,
    enc_fields, enc_header, enc_frame, enc_frames, enc_container, magic, batch_marker,
    u32_of_i32, col_strs_of, lemma_enc_i32s_snoc, lemma_enc_bstrs_snoc,
    lemma_enc_columns_snoc, lemma_enc_fields_snoc, lemma_enc_frames_snoc,
};

/// Appends the four little-endian bytes of `x`.
fn push_u32(out: &mut Vec<u8>, x: u32)
    ensures
        final(out)@ == old(out)@ + u32_le(x),
{
    proof {
        assert(x & 0xff < 256 && (x >> 8) & 0xff < 256 && (x >> 16) & 0xff < 256
            && (x >> 24) & 0xff < 256) by (bit_vector);
    }
    out.push((x & 0xff) as u8);
    out.push(((x >> 8) & 0xff) as u8);
    out.push(((x >> 16) & 0xff) as u8);
    out.push(((x >> 24) & 0xff) as u8);
    proof {
        assert(out@ =~= old(out)@ + u32_le(x));
    }
}

/// Appends the four little-endian bytes of the unsigned pattern of `x`.
fn push_i32(out: &mut Vec<u8>, x: i32)
    ensures
        final(out)@ == old(out)@ + enc_i32(x),
{
    let u: u32 = if x >= 0 {
        x as u32
    } else {
        ((x as i64) + 0x1_0000_0000i64) as u32
    };
    proof {
        assert(u == u32_of_i32(x));
    }
    push_u32(out, u);
}

/// Appends a copy of `s`.
fn push_bytes(out: &mut Vec<u8>, s: &Vec<u8>)
    ensures
        final(out)@ == old(out)@ + s@,
{
    let ghost orig = out@;
    let mut i: usize = 0;
    while i < s.len()
        invariant
            i <= s@.len(),
            out@ == orig + s@.subrange(0, i as int),
        decreases s@.len() - i,
    {
        out.push(s[i]);
        proof {
            assert(out@ =~= orig + s@.subrange(0, i as int + 1));
        }
        i += 1;
    }
    proof {
        assert(s@.subrange(0, s@.len() as int) =~= s@);
    }
}

/// Appends one field descriptor.
fn push_field(out: &mut Vec<u8>, f: &Field)
    requires
        f@.wf(),
    ensures
        final(out)@ == old(out)@ + enc_field(f@),
{
    push_u32(out, f.name.len() as u32);
    push_bytes(out, &f.name);
    let tag: u8 = match f.ty {
        LogicalType::Int32 => 0,
        LogicalType::Utf8 => 1,
    };
    out.push(tag);
    out.push(0u8);
    proof {
        assert(out@ =~= old(out)@ + enc_field(f@));
    }
}

/// Appends one encoded column.
fn push_column(out: &mut Vec<u8>, c: &Column)
    requires
        c@.wf(),
    ensures
        final(out)@ == old(out)@ + enc_column(c@),
{
    let ghost orig = out@;
    match c {
        Column::Int32(vs) => {
            let mut i: usize = 0;
            while i < vs.len()
                invariant
                    i <= vs@.len(),
                    out@ == orig + enc_i32s(vs@.subrange(0, i as int)),
                decreases vs@.len() - i,
            {
                push_i32(out, vs[i]);
                proof {
                    lemma_enc_i32s_snoc(vs@.subrange(0, i as int + 1));
                    assert(vs@.subrange(0, i as int + 1).drop_last() =~= vs@.subrange(0, i as int));
                    assert(out@ =~= orig + enc_i32s(vs@.subrange(0, i as int + 1)));
                }
                i += 1;
            }
            proof {
                assert(vs@.subrange(0, vs@.len() as int) =~= vs@);
            }
        }
        Column::Utf8(ss) => {
            let ghost strs = col_strs_of(ss@);
            proof {
                assert(enc_column(c@) == enc_bstrs(strs));
            }
            let mut i: usize = 0;
            while i < ss.len()
                invariant
                    i <= ss@.len(),
                    strs == ss@.map_values(|s: Vec<u8>| s@),
                    strs.len() == ss@.len(),
                    forall|j: int| 0 <= j < ss@.len() ==> strs[j] == ss@[j]@,
                    forall|j: int| 0 <= j < ss@.len() ==> (#[trigger] strs[j]).len() <= u32::MAX,
                    out@ == orig + enc_bstrs(strs.subrange(0, i as int)),
                decreases ss@.len() - i,
            {
                push_u32(out, ss[i].len() as u32);
                push_bytes(out, &ss[i]);
                proof {
                    lemma_enc_bstrs_snoc(strs.subrange(0, i as int + 1));
                    assert(strs.subrange(0, i as int + 1).drop_last() =~= strs.subrange(0, i as int));
                    assert(enc_bstr(strs[i as int]) == u32_le(ss@[i as int]@.len() as u32) + ss@[i as int]@);
                    assert(out@ =~= orig + enc_bstrs(strs.subrange(0, i as int + 1)));
                }
                i += 1;
            }
            proof {
                assert(strs.subrange(0, strs.len() as int) =~= strs);
            }
        }
    }
}

/// A write session: the schema it was opened with and the bytes framed
/// so far. Finishing the session appends the footer and hands the bytes out.
pub struct Writer {
    buf: Vec<u8>,
    schema: Schema,
    written: Ghost<Seq<BatchV>>,
}

impl Writer {
    /// The schema the session was opened with.
    pub closed spec fn schema_spec(self) -> SchemaV {
        self.schema@
    }

    /// The batches accepted so far, in write order.
    pub closed spec fn written(self) -> Seq<BatchV> {
        self.written@
    }

    /// The session invariant: every accepted batch carries the session's
    /// schema, and the buffer holds exactly the header plus their frames.
    pub closed spec fn wf(self) -> bool {
        &&& self.schema@.wf()
        &&& forall|i: int| 0 <= i < self.written@.len() ==> {
            &&& (#[trigger] self.written@[i]).wf()
            &&& self.written@[i].schema == self.schema@
        }
        &&& self.buf@ == enc_header(self.schema@) + enc_frames(self.written@)
    }

    /// Opens a session by framing the header for `schema`.
    pub fn open(schema: Schema) -> (w: Writer)
        requires
            schema@.wf(),
        ensures
            w.wf(),
            w.schema_spec() == schema@,
            w.written() == Seq::<BatchV>::empty(),
    {
        let mut buf: Vec<u8> = Vec::new();
        buf.push(0x43);
        buf.push(0x42);
        buf.push(0x46);
        buf.push(0x31);
        proof {
            assert(buf@ =~= magic());
        }
        push_u32(&mut buf, schema.fields.len() as u32);
        let ghost fields = schema@.fields;
        let mut i: usize = 0;
        while i < schema.fields.len()
            invariant
                i <= schema.fields@.len(),
                fields == schema@.fields,
                fields.len() == schema.fields@.len(),
                fields.len() <= u32::MAX,
                forall|j: int| 0 <= j < fields.len() ==> (#[trigger] fields[j]).wf(),
                forall|j: int| 0 <= j < fields.len() ==> fields[j] == schema.fields@[j]@,
                buf@ == magic() + u32_le(fields.len() as u32) + enc_fields(fields.subrange(0, i as int)),
            decreases schema.fields@.len() - i,
        {
            assert(schema.fields@[i as int]@ == fields[i as int]);
            push_field(&mut buf, &schema.fields[i]);
            proof {
                lemma_enc_fields_snoc(fields.subrange(0, i as int + 1));
                assert(fields.subrange(0, i as int + 1).drop_last() =~= fields.subrange(0, i as int));
                assert(buf@ =~= magic() + u32_le(fields.len() as u32) + enc_fields(
                    fields.subrange(0, i as int + 1)));
            }
            i += 1;
        }
        let w = Writer { buf, schema, written: Ghost(Seq::empty()) };
        proof {
            assert(fields.subrange(0, fields.len() as int) =~= fields);
            assert(w.buf@ =~= enc_header(w.schema@) + enc_frames(Seq::<BatchV>::empty()));
        }
        w
    }

    /// The schema the session was opened with.
    pub fn schema(&self) -> (s: &Schema)
        ensures
            s@ == self.schema_spec(),
    {
        &self.schema
    }

    /// Appends one batch frame, or rejects the batch without touching the
    /// buffer when its schema differs from the session's.
    pub fn write(&mut self, batch: &Batch) -> (r: Result<(), WriteError>)
        requires
            old(self).wf(),
            batch@.wf(),
        ensures
            final(self).wf(),
            final(self).schema_spec() == old(self).schema_spec(),
            match r {
                Ok(_) => {
                    &&& batch@.schema == old(self).schema_spec()
                    &&& final(self).written() == old(self).written().push(batch@)
                },
                Err(WriteError::SchemaMismatch) => {
                    &&& batch@.schema != old(self).schema_spec()
                    &&& final(self).written() == old(self).written()
                },
            },
    {
        if !schema_eq(&self.schema, &batch.schema) {
            return Err(WriteError::SchemaMismatch);
        }
        let ghost orig = self.buf@;
        let ghost cols = batch@.columns;
        let rows_len = column_len(&batch.columns[0]);
        assert(rows_len == batch@.rows());
        let rows = rows_len as u32;
        self.buf.push(1u8);
        proof {
            assert(self.buf@ =~= orig + seq![batch_marker()]);
        }
        push_u32(&mut self.buf, rows);
        let mut i: usize = 0;
        while i < batch.columns.len()
            invariant
                i <= batch.columns@.len(),
                cols == batch@.columns,
                cols.len() == batch.columns@.len(),
                forall|j: int| 0 <= j < cols.len() ==> (#[trigger] cols[j]).wf(),
                forall|j: int| 0 <= j < cols.len() ==> cols[j] == batch.columns@[j]@,
                self.buf@ == orig + seq![batch_marker()] + u32_le(rows) + enc_columns(
                    cols.subrange(0, i as int)),
                self.schema == old(self).schema,
                self.written == old(self).written,
            decreases batch.columns@.len() - i,
        {
            assert(batch.columns@[i as int]@ == cols[i as int]);
            push_column(&mut self.buf, &batch.columns[i]);
            proof {
                lemma_enc_columns_snoc(cols.subrange(0, i as int + 1));
                assert(cols.subrange(0, i as int + 1).drop_last() =~= cols.subrange(0, i as int));
                assert(self.buf@ =~= orig + seq![batch_marker()] + u32_le(rows) + enc_columns(
                    cols.subrange(0, i as int + 1)));
            }
            i += 1;
        }
        proof {
            assert(cols.subrange(0, cols.len() as int) =~= cols);
            assert(seq![batch_marker()] + u32_le(rows) + enc_columns(cols) =~= enc_frame(batch@));
            let w2 = self.written@.push(batch@);
            lemma_enc_frames_snoc(w2);
            assert(w2.drop_last() =~= self.written@);
            assert(self.buf@ =~= enc_header(self.schema@) + enc_frames(w2));
        }
        self.written = Ghost(self.written@.push(batch@));
        Ok(())
    }

    /// Appends the footer marker and hands the finished container out.
    /// The session is consumed: nothing can be written after this.
    pub fn finish(self) -> (bytes: Vec<u8>)
        requires
            self.wf(),
        ensures
            bytes@ == enc_container(self.schema_spec(), self.written()),
    {
        let Writer { mut buf, schema, written } = self;
        buf.push(0u8);
        proof {
            assert(buf@ =~= enc_container(schema@, written@));
        }
        buf
    }
}

/// Frames one whole container: the header for `schema`, one frame per
/// batch in order, and the footer. Rejects the first batch whose schema
/// differs from `schema`, writing nothing.
pub fn write_container(schema: Schema, batches: &Vec<Batch>) -> (r: Result<Vec<u8>, WriteError>)
    requires
        schema@.wf(),
        forall|i: int| 0 <= i < batches@.len() ==> (#[trigger] batches@[i])@.wf(),
    ensures
        match r {
            Ok(bytes) => {
                &&& forall|i: int|
                    0 <= i < batches@.len() ==> (#[trigger] batches@[i])@.schema == schema@
                &&& bytes@ == enc_container(schema@, batches@.map_values(|b: Batch| b@))
            },
            Err(e) => {
                &&& e == WriteError::SchemaMismatch
                &&& exists|i: int|
                    0 <= i < batches@.len() && (#[trigger] batches@[i])@.schema != schema@
            },
        },
{
    let ghost sv = schema@;
    let mut w = Writer::open(schema);
    let mut i: usize = 0;
    while i < batches.len()
        invariant
            i <= batches@.len(),
            sv == schema@,
            w.wf(),
            w.schema_spec() == sv,
            forall|j: int| 0 <= j < batches@.len() ==> (#[trigger] batches@[j])@.wf(),
            w.written() == batches@.subrange(0, i as int).map_values(|b: Batch| b@),
        decreases batches@.len() - i,
    {
        match w.write(&batches[i]) {
            Ok(_) => {}
            Err(e) => {
                assert(batches@[i as int]@.schema != sv);
                return Err(e);
            }
        }
        proof {
            assert(batches@.subrange(0, i as int + 1).map_values(|b: Batch| b@) =~= batches@
                .subrange(0, i as int).map_values(|b: Batch| b@).push(batches@[i as int]@));
        }
        i += 1;
    }
    proof {
        assert(batches@.subrange(0, batches@.len() as int) =~= batches@);
        assert(w.written() =~= batches@.map_values(|b: Batch| b@));
        assert forall|j: int| 0 <= j < batches@.len() implies (#[trigger] batches@[j])@.schema
            == sv by {
            assert(w.written()[j] == batches@[j]@);
        }
    }
    Ok(w.finish())
}

} // verus!

//! The container reader: parses a header into a schema, then yields the
//! batches one frame at a time, exactly as [`crate::codec::dec_container`]
//! states. A failed read leaves the session in a terminal error state.

use vstd::prelude::*;

verus! {

use crate::LogicalType;
use crate::model::{Field, Schema, Batch, Column, ReadError, copy_schema};
use crate::codec::{
    dec_u32, dec_field, dec_fields, dec_header, dec_i32s, dec_bstr, dec_bstrs, dec_column,
    dec_columns, dec_frame, dec_frames, dec_container, i32_of_u32, magic,
    batch_marker, end_marker,
};

/// Reads a 32-bit little-endian value, as [`dec_u32`] states.
fn read_u32(bytes: &Vec<u8>, pos: usize) -> (r: Option<(u32, usize)>)
    ensures
        match r {
            Some(pr) => {
                &&& dec_u32(bytes@, pos as int) == Some((pr.0, pr.1 as int))
                &&& pos + 4 == pr.1 <= bytes@.len()
            },
            None => dec_u32(bytes@, pos as int) is None,
        },
{
    if bytes.len() >= 4 && pos <= bytes.len() - 4 {
        let b0 = bytes[pos];
        let b1 = bytes[pos + 1];
        let b2 = bytes[pos + 2];
        let b3 = bytes[pos + 3];
        let v = (b0 as u32) | ((b1 as u32) << 8) | ((b2 as u32) << 16) | ((b3 as u32) << 24);
        Some((v, pos + 4))
    } else {
        None
    }
}

/// The signed value of an unsigned 32-bit pattern, as [`i32_of_u32`] states.
fn i32_from_u32(u: u32) -> (r: i32)
    ensures
        r == i32_of_u32(u),
{
    if u < 0x8000_0000 {
        u as i32
    } else {
        ((u as i64) - 0x1_0000_0000i64) as i32
    }
}

/// Copies `n` bytes starting at `pos` into a fresh vector.
fn read_exact(bytes: &Vec<u8>, pos: usize, n: usize) -> (r: Vec<u8>)
    requires
        pos + n <= bytes@.len(),
    ensures
        r@ == bytes@.subrange(pos as int, pos as int + n as int),
{
    let total = bytes.len();
    let mut out: Vec<u8> = Vec::new();
    let mut i: usize = 0;
    while i < n
        invariant
            i <= n,
            pos + n <= total,
            total == bytes@.len(),
            out@ == bytes@.subrange(pos as int, pos as int + i as int),
        decreases n - i,
    {
        out.push(bytes[pos + i]);
        proof {
            assert(out@ =~= bytes@.subrange(pos as int, pos as int + i as int + 1));
        }
        i += 1;
    }
    out
}

/// Reads one field descriptor, as [`dec_field`] states.
fn read_field(bytes: &Vec<u8>, pos: usize) -> (r: Option<(Field, usize)>)
    ensures
        match r {
            Some(pr) => {
                &&& dec_field(bytes@, pos as int) == Some((pr.0@, pr.1 as int))
                &&& pos <= pr.1 <= bytes@.len()
            },
            None => dec_field(bytes@, pos as int) is None,
        },
{
    match read_u32(bytes, pos) {
        None => None,
        Some((nlen, p1)) => {
            if nlen == 0 {
                return None;
            }
            let n = nlen as usize;
            if n > bytes.len() - p1 {
                assert(p1 + nlen + 2 > bytes@.len());
                return None;
            }
            if bytes.len() - p1 - n < 2 {
                assert(p1 + nlen + 2 > bytes@.len());
                return None;
            }
            let name = read_exact(bytes, p1, n);
            let tag = bytes[p1 + n];
            let nul = bytes[p1 + n + 1];
            if nul != 0 {
                return None;
            }
            let ty = if tag == 0 {
                LogicalType::Int32
            } else if tag == 1 {
                LogicalType::Utf8
            } else {
                return None;
            };
            let f = Field { name, ty, nullable: false };
            let end = p1 + n + 2;
            proof {
                let df = dec_field(bytes@, pos as int);
                assert(df is Some);
                assert(f@ =~= df.unwrap().0);
            }
            Some((f, end))
        }
    }
}

/// Reads `n` field descriptors, as [`dec_fields`] states.
fn read_fields(bytes: &Vec<u8>, pos: usize, n: u32) -> (r: Option<(Vec<Field>, usize)>)
    requires
        pos <= bytes@.len(),
    ensures
        match r {
            Some(pr) => {
                &&& dec_fields(bytes@, pos as int, n as nat) == Some((
                    pr.0@.map_values(|f: Field| f@),
                    pr.1 as int,
                ))
                &&& pos <= pr.1 <= bytes@.len()
            },
            None => dec_fields(bytes@, pos as int, n as nat) is None,
        },
    decreases n,
{
    if n == 0 {
        let out: Vec<Field> = Vec::new();
        proof {
            assert(out@.map_values(|f: Field| f@) =~= Seq::<crate::model::FieldV>::empty());
        }
        Some((out, pos))
    } else {
        match read_field(bytes, pos) {
            None => None,
            Some((f, p1)) => {
                match read_fields(bytes, p1, n - 1) {
                    None => None,
                    Some((mut fs, p2)) => {
                        let ghost tailv = fs@.map_values(|x: Field| x@);
                        fs.insert(0, f);
                        proof {
                            assert(fs@.map_values(|x: Field| x@) =~= seq![f@] + tailv);
                        }
                        Some((fs, p2))
                    }
                }
            }
        }
    }
}

/// Reads `n` signed 32-bit values, as [`dec_i32s`] states.
fn read_i32s(bytes: &Vec<u8>, pos: usize, n: u32) -> (r: Option<(Vec<i32>, usize)>)
    requires
        pos <= bytes@.len(),
    ensures
        match r {
            Some(pr) => {
                &&& dec_i32s(bytes@, pos as int, n as nat) == Some((pr.0@, pr.1 as int))
                &&& pos <= pr.1 <= bytes@.len()
            },
            None => dec_i32s(bytes@, pos as int, n as nat) is None,
        },
    decreases n,
{
    if n == 0 {
        let out: Vec<i32> = Vec::new();
        proof {
            assert(out@ =~= Seq::<i32>::empty());
        }
        Some((out, pos))
    } else {
        match read_u32(bytes, pos) {
            None => None,
            Some((u, p1)) => {
                match read_i32s(bytes, p1, n - 1) {
                    None => None,
                    Some((mut vs, p2)) => {
                        let ghost tailv = vs@;
                        vs.insert(0, i32_from_u32(u));
                        proof {
                            assert(vs@ =~= seq![i32_of_u32(u)] + tailv);
                        }
                        Some((vs, p2))
                    }
                }
            }
        }
    }
}

/// Reads one length-prefixed string value, as [`dec_bstr`] states.
fn read_bstr(bytes: &Vec<u8>, pos: usize) -> (r: Option<(Vec<u8>, usize)>)
    ensures
        match r {
            Some(pr) => {
                &&& dec_bstr(bytes@, pos as int) == Some((pr.0@, pr.1 as int))
                &&& pos <= pr.1 <= bytes@.len()
            },
            None => dec_bstr(bytes@, pos as int) is None,
        },
{
    match read_u32(bytes, pos) {
        None => None,
        Some((len, p1)) => {
            let n = len as usize;
            if n > bytes.len() - p1 {
                assert(p1 + len > bytes@.len());
                return None;
            }
            let s = read_exact(bytes, p1, n);
            Some((s, p1 + n))
        }
    }
}

/// Reads `n` string values, as [`dec_bstrs`] states.
fn read_bstrs(bytes: &Vec<u8>, pos: usize, n: u32) -> (r: Option<(Vec<Vec<u8>>, usize)>)
    requires
        pos <= bytes@.len(),
    ensures
        match r {
            Some(pr) => {
                &&& dec_bstrs(bytes@, pos as int, n as nat) == Some((
                    pr.0@.map_values(|s: Vec<u8>| s@),
                    pr.1 as int,
                ))
                &&& pos <= pr.1 <= bytes@.len()
            },
            None => dec_bstrs(bytes@, pos as int, n as nat) is None,
        },
    decreases n,
{
    if n == 0 {
        let out: Vec<Vec<u8>> = Vec::new();
        proof {
            assert(out@.map_values(|s: Vec<u8>| s@) =~= Seq::<Seq<u8>>::empty());
        }
        Some((out, pos))
    } else {
        match read_bstr(bytes, pos) {
            None => None,
            Some((s, p1)) => {
                match read_bstrs(bytes, p1, n - 1) {
                    None => None,
                    Some((mut ss, p2)) => {
                        let ghost tailv = ss@.map_values(|x: Vec<u8>| x@);
                        let ghost sv = s@;
                        ss.insert(0, s);
                        proof {
                            assert(ss@.map_values(|x: Vec<u8>| x@) =~= seq![sv] + tailv);
                        }
                        Some((ss, p2))
                    }
                }
            }
        }
    }
}

/// Reads one column of `rows` values, as [`dec_column`] states.
fn read_column(bytes: &Vec<u8>, pos: usize, ty: LogicalType, rows: u32) -> (r: Option<(Column, usize)>)
    requires
        pos <= bytes@.len(),
    ensures
        match r {
            Some(pr) => {
                &&& dec_column(bytes@, pos as int, ty, rows as nat) == Some((pr.0@, pr.1 as int))
                &&& pos <= pr.1 <= bytes@.len()
            },
            None => dec_column(bytes@, pos as int, ty, rows as nat) is None,
        },
{
    match ty {
        LogicalType::Int32 => match read_i32s(bytes, pos, rows) {
            None => None,
            Some((vs, p1)) => Some((Column::Int32(vs), p1)),
        },
        LogicalType::Utf8 => match read_bstrs(bytes, pos, rows) {
            None => None,
            Some((ss, p1)) => Some((Column::Utf8(ss), p1)),
        },
    }
}

/// Reads the columns for the fields from `idx` on, as [`dec_columns`] states.
fn read_columns(bytes: &Vec<u8>, pos: usize, fields: &Vec<Field>, idx: usize, rows: u32) -> (r:
    Option<(Vec<Column>, usize)>)
    requires
        pos <= bytes@.len(),
        idx <= fields@.len(),
    ensures
        match r {
            Some(pr) => {
                &&& dec_columns(
                    bytes@,
                    pos as int,
                    fields@.map_values(|f: Field| f@).skip(idx as int),
                    rows as nat,
                ) == Some((pr.0@.map_values(|c: Column| c@), pr.1 as int))
                &&& pos <= pr.1 <= bytes@.len()
            },
            None => dec_columns(
                bytes@,
                pos as int,
                fields@.map_values(|f: Field| f@).skip(idx as int),
                rows as nat,
            ) is None,
        },
    decreases fields@.len() - idx,
{
    let ghost fsv = fields@.map_values(|f: Field| f@);
    if idx == fields.len() {
        let out: Vec<Column> = Vec::new();
        proof {
            assert(fsv.skip(idx as int) =~= Seq::<crate::model::FieldV>::empty());
            assert(out@.map_values(|c: Column| c@) =~= Seq::<crate::model::ColumnV>::empty());
        }
        Some((out, pos))
    } else {
        let ty = fields[idx].ty;
        proof {
            assert(fsv.skip(idx as int)[0] == fsv[idx as int]);
            assert(fsv[idx as int].ty == ty);
        }
        match read_column(bytes, pos, ty, rows) {
            None => None,
            Some((c, p1)) => {
                proof {
                    assert(fsv.skip(idx as int).drop_first() =~= fsv.skip(idx as int + 1));
                }
                match read_columns(bytes, p1, fields, idx + 1, rows) {
                    None => None,
                    Some((mut cs, p2)) => {
                        let ghost tailv = cs@.map_values(|x: Column| x@);
                        let ghost cv = c@;
                        cs.insert(0, c);
                        proof {
                            assert(cs@.map_values(|x: Column| x@) =~= seq![cv] + tailv);
                        }
                        Some((cs, p2))
                    }
                }
            }
        }
    }
}

/// A read session: the container's bytes, the parsed schema, the cursor,
/// and whether a failed read has made the session terminal.
pub struct Reader {
    bytes: Vec<u8>,
    pos: usize,
    schema: Schema,
    failed: bool,
}

impl Reader {
    /// The bytes the session reads from.
    pub closed spec fn bytes_spec(self) -> Seq<u8> {
        self.bytes@
    }

    /// The cursor: the position of the next unread byte.
    pub closed spec fn pos_spec(self) -> int {
        self.pos as int
    }

    /// The schema parsed from the header.
    pub closed spec fn schema_spec(self) -> crate::model::SchemaV {
        self.schema@
    }

    /// Whether an earlier read failed, making the session terminal.
    pub closed spec fn failed_spec(self) -> bool {
        self.failed
    }

    pub closed spec fn wf(self) -> bool {
        self.pos <= self.bytes@.len()
    }

    /// Opens a session by parsing the header, as [`dec_header`] states.
    pub fn open(bytes: Vec<u8>) -> (r: Result<Reader, ReadError>)
        ensures
            match r {
                Ok(rd) => {
                    &&& rd.wf()
                    &&& !rd.failed_spec()
                    &&& rd.bytes_spec() == bytes@
                    &&& dec_header(bytes@) == Some((rd.schema_spec(), rd.pos_spec()))
                },
                Err(e) => {
                    &&& e == ReadError::MalformedHeader
                    &&& dec_header(bytes@) is None
                },
            },
    {
        if bytes.len() < 8 {
            return Err(ReadError::MalformedHeader);
        }
        if !(bytes[0] == 0x43 && bytes[1] == 0x42 && bytes[2] == 0x46 && bytes[3] == 0x31) {
            proof {
                assert(bytes@.subrange(0, 4)[0] == bytes@[0]);
                assert(bytes@.subrange(0, 4)[1] == bytes@[1]);
                assert(bytes@.subrange(0, 4)[2] == bytes@[2]);
                assert(bytes@.subrange(0, 4)[3] == bytes@[3]);
                assert(bytes@.subrange(0, 4) != magic());
            }
            return Err(ReadError::MalformedHeader);
        }
        proof {
            assert(bytes@.subrange(0, 4) =~= magic());
        }
        match read_u32(&bytes, 4) {
            None => {
                proof {
                    assert(false);
                }
                Err(ReadError::MalformedHeader)
            }
            Some((n, p1)) => {
                if n == 0 {
                    return Err(ReadError::MalformedHeader);
                }
                match read_fields(&bytes, p1, n) {
                    None => Err(ReadError::MalformedHeader),
                    Some((fields, p2)) => {
                        let schema = Schema { fields };
                        let rd = Reader { bytes, pos: p2, schema, failed: false };
                        proof {
                            assert(rd.schema@ =~= dec_header(rd.bytes@).unwrap().0);
                        }
                        Ok(rd)
                    }
                }
            }
        }
    }

    /// The schema parsed from the header.
    pub fn schema(&self) -> (s: &Schema)
        ensures
            s@ == self.schema_spec(),
    {
        &self.schema
    }

    /// Whether every byte of the container has been consumed.
    pub fn at_end(&self) -> (r: bool)
        ensures
            r == (self.pos_spec() == self.bytes_spec().len()),
    {
        self.pos == self.bytes.len()
    }

    /// Hands the parsed schema out, consuming the session.
    pub fn into_schema(self) -> (s: Schema)
        ensures
            s@ == self.schema_spec(),
    {
        self.schema
    }

    /// Yields the next batch, `None` at the footer, or an error on a
    /// truncated or malformed frame, as [`dec_frames`] states. After an
    /// error the session is terminal: every later call fails too.
    pub fn next(&mut self) -> (r: Result<Option<Batch>, ReadError>)
        requires
            old(self).wf(),
        ensures
            final(self).wf(),
            final(self).bytes_spec() == old(self).bytes_spec(),
            final(self).schema_spec() == old(self).schema_spec(),
            match r {
                Ok(ob) => match ob {
                    Some(b) => {
                        &&& !old(self).failed_spec()
                        &&& !final(self).failed_spec()
                        &&& b@.schema == old(self).schema_spec()
                        &&& 0 <= old(self).pos_spec() < old(self).bytes_spec().len()
                        &&& old(self).bytes_spec()[old(self).pos_spec()] == batch_marker()
                        &&& dec_frame(
                            old(self).bytes_spec(),
                            old(self).pos_spec() + 1,
                            old(self).schema_spec(),
                        ) == Some((b@, final(self).pos_spec()))
                        &&& old(self).pos_spec() + 1 <= final(self).pos_spec() <= old(
                            self,
                        ).bytes_spec().len()
                    },
                    None => {
                        &&& !old(self).failed_spec()
                        &&& !final(self).failed_spec()
                        &&& 0 <= old(self).pos_spec() < old(self).bytes_spec().len()
                        &&& old(self).bytes_spec()[old(self).pos_spec()] == end_marker()
                        &&& final(self).pos_spec() == old(self).pos_spec() + 1
                    },
                },
                Err(e) => {
                    &&& e == ReadError::TruncatedFrame
                    &&& final(self).failed_spec()
                    &&& !old(self).failed_spec() ==> dec_frames(
                        old(self).bytes_spec(),
                        old(self).pos_spec(),
                        old(self).schema_spec(),
                    ) is None
                },
            },
    {
        if self.failed {
            return Err(ReadError::TruncatedFrame);
        }
        if self.pos >= self.bytes.len() {
            self.failed = true;
            return Err(ReadError::TruncatedFrame);
        }
        let marker = self.bytes[self.pos];
        if marker == 0 {
            self.pos = self.pos + 1;
            return Ok(None);
        }
        if marker != 1 {
            self.failed = true;
            return Err(ReadError::TruncatedFrame);
        }
        match read_u32(&self.bytes, self.pos + 1) {
            None => {
                self.failed = true;
                Err(ReadError::TruncatedFrame)
            }
            Some((rows, p1)) => {
                match read_columns(&self.bytes, p1, &self.schema.fields, 0, rows) {
                    None => {
                        proof {
                            assert(self.schema@.fields.skip(0) =~= self.schema@.fields);
                        }
                        self.failed = true;
                        Err(ReadError::TruncatedFrame)
                    }
                    Some((cols, p2)) => {
                        let ghost oldpos = self.pos as int;
                        let batch = Batch { schema: copy_schema(&self.schema), columns: cols };
                        proof {
                            assert(self.schema@.fields.skip(0) =~= self.schema@.fields);
                            let df = dec_frame(self.bytes@, oldpos + 1, self.schema@);
                            assert(df is Some);
                            assert(batch@ =~= df.unwrap().0);
                        }
                        self.pos = p2;
                        Ok(Some(batch))
                    }
                }
            }
        }
    }
}

/// Parses a whole container: the schema and every batch, in write order.
/// Succeeds exactly when [`dec_container`] does, and hands back exactly
/// what it decodes; the error tells whether the header or a frame failed.
pub fn read_container(bytes: Vec<u8>) -> (r: Result<(Schema, Vec<Batch>), ReadError>)
    ensures
        match r {
            Ok(pr) => {
                &&& dec_container(bytes@) == Some((pr.0@, pr.1@.map_values(|b: Batch| b@)))
                &&& pr.0@.wf()
                &&& crate::laws::batches_wf(pr.0@, pr.1@.map_values(|b: Batch| b@))
            },
            Err(e) => {
                &&& dec_container(bytes@) is None
                &&& (dec_header(bytes@) is None <==> e == ReadError::MalformedHeader)
            },
        },
{
    let ghost bv = bytes@;
    let mut rd = match Reader::open(bytes) {
        Ok(rd) => rd,
        Err(e) => {
            return Err(e);
        }
    };
    let ghost hdr_end = rd.pos_spec();
    let ghost s = rd.schema_spec();
    let mut out: Vec<Batch> = Vec::new();
    loop
        invariant
            bv == bytes@,
            rd.wf(),
            !rd.failed_spec(),
            rd.bytes_spec() == bv,
            rd.schema_spec() == s,
            dec_header(bv) == Some((s, hdr_end)),
            dec_frames(bv, rd.pos_spec(), s) matches Some(pr) ==> dec_frames(bv, hdr_end, s)
                == Some((out@.map_values(|b: Batch| b@) + pr.0, pr.1)),
            dec_frames(bv, rd.pos_spec(), s) is None ==> dec_frames(bv, hdr_end, s) is None,
        decreases bv.len() - rd.pos_spec(),
    {
        let ghost oldpos = rd.pos_spec();
        let ghost outv = out@.map_values(|b: Batch| b@);
        match rd.next() {
            Ok(Some(b)) => {
                let ghost bvw = b@;
                out.push(b);
                proof {
                    let newpos = rd.pos_spec();
                    assert(dec_frames(bv, oldpos, s) == (match dec_frames(bv, newpos, s) {
                        Some(pr) => Some((seq![bvw] + pr.0, pr.1)),
                        None => None,
                    }));
                    assert(out@.map_values(|x: Batch| x@) =~= outv.push(bvw));
                    match dec_frames(bv, newpos, s) {
                        Some(pr) => {
                            assert(outv + (seq![bvw] + pr.0) =~= outv.push(bvw) + pr.0);
                        }
                        None => {}
                    }
                }
            }
            Ok(None) => {
                proof {
                    assert(dec_frames(bv, oldpos, s) == Some((Seq::<crate::model::BatchV>::empty(),
                        oldpos + 1)));
                    assert(outv + Seq::<crate::model::BatchV>::empty() =~= outv);
                }
                proof {
                    assert(dec_frames(bv, hdr_end, s) == Some((outv, oldpos + 1)));
                }
                if rd.at_end() {
                    proof {
                        assert(dec_container(bv) == Some((s, outv)));
                        crate::laws::lemma_dec_header_wf(bv);
                        crate::laws::lemma_dec_frames_wf(bv, hdr_end, s);
                    }
                    let schema = rd.into_schema();
                    return Ok((schema, out));
                } else {
                    proof {
                        assert(oldpos + 1 != bv.len());
                        assert(dec_container(bv) is None);
                    }
                    return Err(ReadError::TruncatedFrame);
                }
            }
            Err(e) => {
                proof {
                    assert(dec_frames(bv, oldpos, s) is None);
                    assert(dec_frames(bv, hdr_end, s) is None);
                    assert(dec_container(bv) is None);
                }
                return Err(e);
            }
        }
    }
}

} // verus!

//! The schema and batch model: named, typed fields; columns of values;
//! batches that pair a schema with one column per field.
//!
//! Strings are carried as their UTF-8 byte runs (`Vec<u8>`), so a round trip
//! through the container is byte-exact by construction.

use vstd::prelude::*;

verus! {

use crate::LogicalType;

/// A named, typed column descriptor. Nullability is carried in the format
/// but is always `false` here: no column may contain absent values.
#[derive(Debug)]
pub struct Field {
    pub name: Vec<u8>,
    pub ty: LogicalType,
    pub nullable: bool,
}

/// The mathematical value of a [`Field`].
#[verifier::ext_equal]
pub struct FieldV {
    pub name: Seq<u8>,
    pub ty: LogicalType,
    pub nullable: bool,
}

impl View for Field {
    type V = FieldV;

    open spec fn view(&self) -> FieldV {
        FieldV { name: self.name@, ty: self.ty, nullable: self.nullable }
    }
}

impl FieldV {
    /// A field is well formed when its name is non-empty, fits the format's
    /// 32-bit length prefix, and the field is non-nullable.
    pub open spec fn wf(self) -> bool {
        0 < self.name.len() <= u32::MAX && !self.nullable
    }
}

/// An ordered, non-empty sequence of fields.
#[derive(Debug)]
pub struct Schema {
    pub fields: Vec<Field>,
}

/// The mathematical value of a [`Schema`].
#[verifier::ext_equal]
pub struct SchemaV {
    pub fields: Seq<FieldV>,
}

impl View for Schema {
    type V = SchemaV;

    open spec fn view(&self) -> SchemaV {
        SchemaV { fields: self.fields@.map_values(|f: Field| f@) }
    }
}

impl SchemaV {
    pub open spec fn wf(self) -> bool {
        &&& 0 < self.fields.len() <= u32::MAX
        &&& forall|i: int| 0 <= i < self.fields.len() ==> (#[trigger] self.fields[i]).wf()
    }
}

/// One column of values, homogeneously typed.
#[derive(Debug)]
pub enum Column {
    Int32(Vec<i32>),
    Utf8(Vec<Vec<u8>>),
}

/// The mathematical value of a [`Column`].
#[verifier::ext_equal]
pub enum ColumnV {
    Int32(Seq<i32>),
    Utf8(Seq<Seq<u8>>),
}

impl View for Column {
    type V = ColumnV;

    open spec fn view(&self) -> ColumnV {
        match self {
            Column::Int32(v) => ColumnV::Int32(v@),
            Column::Utf8(v) => ColumnV::Utf8(v@.map_values(|s: Vec<u8>| s@)),
        }
    }
}

/// The integer values of a column, or the empty sequence on a string column.
pub open spec fn col_i32s(c: ColumnV) -> Seq<i32> {
    match c {
        ColumnV::Int32(v) => v,
        ColumnV::Utf8(_) => Seq::empty(),
    }
}

/// The string values of a column, or the empty sequence on an integer column.
pub open spec fn col_strs(c: ColumnV) -> Seq<Seq<u8>> {
    match c {
        ColumnV::Int32(_) => Seq::empty(),
        ColumnV::Utf8(v) => v,
    }
}

impl ColumnV {
    pub open spec fn len(self) -> nat {
        match self {
            ColumnV::Int32(v) => v.len(),
            ColumnV::Utf8(v) => v.len(),
        }
    }

    pub open spec fn ty(self) -> LogicalType {
        match self {
            ColumnV::Int32(_) => LogicalType::Int32,
            ColumnV::Utf8(_) => LogicalType::Utf8,
        }
    }

    /// A column is well formed when its length and every string value's
    /// length fit the format's 32-bit prefixes.
    pub open spec fn wf(self) -> bool {
        &&& self.len() <= u32::MAX
        &&& match self {
            ColumnV::Int32(_) => true,
            ColumnV::Utf8(v) => forall|i: int|
                0 <= i < v.len() ==> (#[trigger] v[i]).len() <= u32::MAX,
        }
    }
}

/// A schema together with one column per field, all of one row count.
#[derive(Debug)]
pub struct Batch {
    pub schema: Schema,
    pub columns: Vec<Column>,
}

/// The mathematical value of a [`Batch`].
#[verifier::ext_equal]
pub struct BatchV {
    pub schema: SchemaV,
    pub columns: Seq<ColumnV>,
}

impl View for Batch {
    type V = BatchV;

    open spec fn view(&self) -> BatchV {
        BatchV {
            schema: self.schema@,
            columns: self.columns@.map_values(|c: Column| c@),
        }
    }
}

impl BatchV {
    /// The row count: the length shared by every column.
    pub open spec fn rows(self) -> nat {
        if self.columns.len() == 0 {
            0
        } else {
            self.columns[0].len()
        }
    }

    /// A batch is well formed when its schema is, each column's type follows
    /// its field, and all columns share one row count that fits the format.
    pub open spec fn wf(self) -> bool {
        &&& self.schema.wf()
        &&& self.columns.len() == self.schema.fields.len()
        &&& forall|i: int| 0 <= i < self.columns.len() ==> {
            &&& (#[trigger] self.columns[i]).ty() == self.schema.fields[i].ty
            &&& self.columns[i].wf()
            &&& self.columns[i].len() == self.rows()
        }
    }
}

/// Why a write was rejected.
#[derive(Clone, Copy, PartialEq, Eq, Structural, Debug)]
pub enum WriteError {
    /// The batch's schema differs from the one the session was opened with.
    SchemaMismatch,
}

/// Why a read was rejected.
#[derive(Clone, Copy, PartialEq, Eq, Structural, Debug)]
pub enum ReadError {
    /// The container's header is missing, malformed, or names an
    /// unsupported type.
    MalformedHeader,
    /// A batch frame or the footer is cut short or malformed.
    TruncatedFrame,
}

/// Builds a non-nullable field. The name must be non-empty and `nullable`
/// must be `false`: true nullability is out of scope.
pub fn make_field(name: Vec<u8>, ty: LogicalType, nullable: bool) -> (f: Field)
    requires
        0 < name@.len() <= u32::MAX,
        !nullable,
    ensures
        f@ == (FieldV { name: name@, ty, nullable: false }),
        f@.wf(),
{
    Field { name, ty, nullable: false }
}

/// Builds a schema from a non-empty field sequence.
pub fn make_schema(fields: Vec<Field>) -> (s: Schema)
    requires
        0 < fields@.len() <= u32::MAX,
        forall|i: int| 0 <= i < fields@.len() ==> (#[trigger] fields@[i])@.wf(),
    ensures
        s@ == (SchemaV { fields: fields@.map_values(|f: Field| f@) }),
        s@.wf(),
{
    let s = Schema { fields };
    proof {
        assert(forall|i: int|
            0 <= i < s@.fields.len() ==> (#[trigger] s@.fields[i]).wf());
    }
    s
}

/// Byte-for-byte equality of two byte vectors.
pub fn bytes_eq(a: &Vec<u8>, b: &Vec<u8>) -> (r: bool)
    ensures
        r == (a@ == b@),
{
    if a.len() != b.len() {
        return false;
    }
    let mut i: usize = 0;
    while i < a.len()
        invariant
            a@.len() == b@.len(),
            i <= a@.len(),
            forall|j: int| 0 <= j < i ==> a@[j] == b@[j],
        decreases a@.len() - i,
    {
        if a[i] != b[i] {
            return false;
        }
        i += 1;
    }
    proof {
        assert(a@ =~= b@);
    }
    true
}

/// Structural equality of two fields.
pub fn field_eq(a: &Field, b: &Field) -> (r: bool)
    ensures
        r == (a@ == b@),
{
    let r = bytes_eq(&a.name, &b.name) && a.ty == b.ty && a.nullable == b.nullable;
    proof {
        if a.name@ == b.name@ && a.ty == b.ty && a.nullable == b.nullable {
            assert(a@ =~= b@);
        }
    }
    r
}

/// Structural equality of two schemas.
pub fn schema_eq(a: &Schema, b: &Schema) -> (r: bool)
    ensures
        r == (a@ == b@),
{
    if a.fields.len() != b.fields.len() {
        assert(a@.fields.len() != b@.fields.len());
        return false;
    }
    let mut i: usize = 0;
    while i < a.fields.len()
        invariant
            a@.fields.len() == b@.fields.len(),
            a@.fields.len() == a.fields@.len(),
            b@.fields.len() == b.fields@.len(),
            i <= a.fields@.len(),
            forall|j: int| 0 <= j < i ==> a@.fields[j] == b@.fields[j],
        decreases a.fields@.len() - i,
    {
        if !field_eq(&a.fields[i], &b.fields[i]) {
            assert(a@.fields[i as int] != b@.fields[i as int]);
            return false;
        }
        i += 1;
    }
    proof {
        assert(a@.fields =~= b@.fields);
        assert(a@ =~= b@);
    }
    true
}

/// A fresh copy of a byte vector, equal value for value.
pub fn copy_bytes(v: &Vec<u8>) -> (r: Vec<u8>)
    ensures
        r@ == v@,
{
    let mut out: Vec<u8> = Vec::new();
    let mut i: usize = 0;
    while i < v.len()
        invariant
            i <= v@.len(),
            out@ == v@.subrange(0, i as int),
        decreases v@.len() - i,
    {
        out.push(v[i]);
        proof {
            assert(out@ =~= v@.subrange(0, i as int + 1));
        }
        i += 1;
    }
    proof {
        assert(v@.subrange(0, v@.len() as int) =~= v@);
    }
    out
}

/// A fresh copy of a field, equal value for value.
pub fn copy_field(f: &Field) -> (r: Field)
    ensures
        r@ == f@,
{
    let r = Field { name: copy_bytes(&f.name), ty: f.ty, nullable: f.nullable };
    proof {
        assert(r@ =~= f@);
    }
    r
}

/// A fresh copy of a schema, equal value for value.
pub fn copy_schema(s: &Schema) -> (r: Schema)
    ensures
        r@ == s@,
{
    let mut fields: Vec<Field> = Vec::new();
    let mut i: usize = 0;
    while i < s.fields.len()
        invariant
            i <= s.fields@.len(),
            fields@.len() == i,
            forall|j: int| 0 <= j < i ==> (#[trigger] fields@[j])@ == s.fields@[j]@,
        decreases s.fields@.len() - i,
    {
        fields.push(copy_field(&s.fields[i]));
        i += 1;
    }
    let r = Schema { fields };
    proof {
        assert(r@.fields =~= s@.fields);
        assert(r@ =~= s@);
    }
    r
}

/// The length of a column.
pub fn column_len(c: &Column) -> (r: usize)
    ensures
        r == c@.len(),
{
    match c {
        Column::Int32(v) => v.len(),
        Column::Utf8(v) => v.len(),
    }
}

/// Whether a schema is well formed, as [`SchemaV::wf`] states.
pub fn schema_is_wf(s: &Schema) -> (r: bool)
    ensures
        r == s@.wf(),
{
    if s.fields.len() == 0 {
        return false;
    }
    if s.fields.len() > u32::MAX as usize {
        return false;
    }
    let mut i: usize = 0;
    while i < s.fields.len()
        invariant
            0 < s@.fields.len() <= u32::MAX,
            s@.fields.len() == s.fields@.len(),
            i <= s.fields@.len(),
            forall|j: int| 0 <= j < i ==> (#[trigger] s@.fields[j]).wf(),
        decreases s.fields@.len() - i,
    {
        let f = &s.fields[i];
        if f.name.len() == 0 || f.name.len() > u32::MAX as usize || f.nullable {
            assert(!s@.fields[i as int].wf());
            return false;
        }
        assert(s@.fields[i as int].wf());
        i += 1;
    }
    true
}

/// Whether a column is well formed, as [`ColumnV::wf`] states.
pub fn column_is_wf(c: &Column) -> (r: bool)
    ensures
        r == c@.wf(),
{
    match c {
        Column::Int32(v) => v.len() <= u32::MAX as usize,
        Column::Utf8(v) => {
            if v.len() > u32::MAX as usize {
                return false;
            }
            let mut i: usize = 0;
            let strs = Ghost(col_strs(c@));
            while i < v.len()
                invariant
                    strs@ == col_strs(c@),
                    strs@.len() == v@.len(),
                    c@ is Utf8,
                    c@.len() <= u32::MAX,
                    forall|j: int| 0 <= j < v@.len() ==> strs@[j] == v@[j]@,
                    i <= v@.len(),
                    forall|j: int| 0 <= j < i ==> (#[trigger] strs@[j]).len() <= u32::MAX,
                decreases v@.len() - i,
            {
                if v[i].len() > u32::MAX as usize {
                    assert(strs@[i as int].len() > u32::MAX);
                    return false;
                }
                i += 1;
            }
            true
        }
    }
}

/// Whether a batch is well formed, as [`BatchV::wf`] states.
pub fn batch_is_wf(b: &Batch) -> (r: bool)
    ensures
        r == b@.wf(),
{
    if !schema_is_wf(&b.schema) {
        return false;
    }
    if b.columns.len() != b.schema.fields.len() {
        return false;
    }
    assert(b@.columns.len() == b@.schema.fields.len());
    let rows = column_len(&b.columns[0]);
    assert(rows == b@.rows());
    let mut i: usize = 0;
    while i < b.columns.len()
        invariant
            b@.schema.wf(),
            b@.columns.len() == b@.schema.fields.len(),
            0 < b@.columns.len(),
            b@.columns.len() == b.columns@.len(),
            b@.schema.fields.len() == b.schema.fields@.len(),
            rows == b@.rows(),
            i <= b.columns@.len(),
            forall|j: int| 0 <= j < i ==> {
                &&& (#[trigger] b@.columns[j]).ty() == b@.schema.fields[j].ty
                &&& b@.columns[j].wf()
                &&& b@.columns[j].len() == b@.rows()
            },
        decreases b.columns@.len() - i,
    {
        let c = &b.columns[i];
        let ty_ok = match (c, b.schema.fields[i].ty) {
            (Column::Int32(_), LogicalType::Int32) => true,
            (Column::Utf8(_), LogicalType::Utf8) => true,
            _ => false,
        };
        if !ty_ok {
            assert(b@.columns[i as int].ty() != b@.schema.fields[i as int].ty);
            return false;
        }
        if !column_is_wf(c) {
            return false;
        }
        if column_len(c) != rows {
            return false;
        }
        i += 1;
    }
    true
}

} // verus!

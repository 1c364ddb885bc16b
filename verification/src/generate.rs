//! The batch generator: a single-column batch of a requested type and row
//! count. The value space is fully covering — every value of the dense
//! range appears exactly once — and is then shuffled, so only the multiset
//! of values is promised, never their order.

use vstd::prelude::*;

#[allow(unused_imports)]
use rand::seq::SliceRandom;

verus! {

use crate::LogicalType;
use crate::model::{Field, FieldV, Schema, Batch, Column, make_field, make_schema, col_i32s,
    col_strs};
use crate::codec::col_strs_of;

/// Ten to the power `k` (one for `k <= 0`).
pub open spec fn pow10(k: int) -> int
    decreases k,
{
    if k <= 0 {
        1
    } else {
        10 * pow10(k - 1)
    }
}

pub proof fn lemma_pow10_pos(k: int)
    ensures
        pow10(k) >= 1,
    decreases k,
{
    if k > 0 {
        lemma_pow10_pos(k - 1);
    }
}

/// The string value that stands for row index `i`: a hash sign, then the
/// ten-digit zero-padded decimal of `i`.
pub open spec fn pad_str(i: int) -> Seq<u8> {
    seq![35u8] + Seq::new(10, |k: int| (48 + (i / pow10(9 - k)) % 10) as u8)
}

/// The dense integer value space of `n` rows: `0, 1, ..., n - 1`.
pub open spec fn int_values(n: nat) -> Seq<i32> {
    Seq::new(n, |i: int| i as i32)
}

/// The string value space of `n` rows: `pad_str(0), ..., pad_str(n - 1)`.
pub open spec fn str_values(n: nat) -> Seq<Seq<u8>> {
    Seq::new(n, |i: int| pad_str(i))
}

/// Relies on rand's `SliceRandom::shuffle`, which reorders the vector in
/// place by swapping elements: the multiset of values is unchanged. The
/// order that comes out depends on the thread's generator and is not
/// stated.
#[verifier::external_body]
fn shuffle_i32s(v: &mut Vec<i32>)
    ensures
        final(v)@.to_multiset() == old(v)@.to_multiset(),
{
    let mut rng = rand::thread_rng();
    v.shuffle(&mut rng);
}

/// Relies on rand's `SliceRandom::shuffle`, as [`shuffle_i32s`] does: a
/// reorder by swaps keeps the multiset of byte-string values.
#[verifier::external_body]
fn shuffle_strs(v: &mut Vec<Vec<u8>>)
    ensures
        col_strs_of(final(v)@).to_multiset() == col_strs_of(old(v)@).to_multiset(),
{
    let mut rng = rand::thread_rng();
    v.shuffle(&mut rng);
}

/// The bytes of [`pad_str`] for row index `i`.
fn format_index(i: u32) -> (r: Vec<u8>)
    ensures
        r@ == pad_str(i as int),
{
    let mut out: Vec<u8> = Vec::new();
    out.push(35u8);
    let mut p: u32 = 1_000_000_000;
    let mut k: usize = 0;
    proof {
        assert(pow10(9) == 1_000_000_000) by {
            reveal_with_fuel(pow10, 11);
        }
    }
    while k < 10
        invariant
            k <= 10,
            k < 10 ==> p == pow10(9 - k as int),
            out@ == seq![35u8] + Seq::new(k as nat, |j: int| (48 + (i as int / pow10(9 - j)) % 10) as u8),
        decreases 10 - k,
    {
        proof {
            lemma_pow10_pos(9 - k as int);
        }
        let digit = ((i / p) % 10) as u8;
        out.push(48 + digit);
        proof {
            assert(i as int / pow10(9 - k as int) == i / p);
            assert(out@ =~= seq![35u8] + Seq::new((k + 1) as nat, |j: int| (48 + (i as int / pow10(
                9 - j)) % 10) as u8));
            if k < 9 {
                assert(pow10(9 - k as int) == 10 * pow10(8 - k as int));
                lemma_pow10_pos(8 - k as int);
                assert((10 * pow10(8 - k as int)) / 10 == pow10(8 - k as int)) by (nonlinear_arith)
                    requires pow10(8 - k as int) >= 1;
                assert(p / 10 == pow10(9 - (k + 1) as int));
            }
        }
        p = p / 10;
        k += 1;
    }
    proof {
        assert(out@ =~= pad_str(i as int));
    }
    out
}

/// Synthesizes a single-column schema and batch: the field is named `"0"`,
/// non-nullable, of the requested type; the column holds every value of
/// the dense value space exactly once, in a shuffled order.
pub fn generate(ty: LogicalType, num_rows: usize) -> (r: (Schema, Batch))
    requires
        num_rows <= 0x7fff_ffff,
    ensures
        r.0@.wf(),
        r.0@.fields.len() == 1,
        r.0@.fields[0] == (FieldV { name: seq![48u8], ty, nullable: false }),
        r.1@.wf(),
        r.1@.schema == r.0@,
        r.1@.rows() == num_rows,
        ty == LogicalType::Int32 ==> r.1@.columns[0] is Int32 && col_i32s(
            r.1@.columns[0],
        ).to_multiset() == int_values(num_rows as nat).to_multiset(),
        ty == LogicalType::Utf8 ==> r.1@.columns[0] is Utf8 && col_strs(
            r.1@.columns[0],
        ).to_multiset() == str_values(num_rows as nat).to_multiset(),
{
    let mut name: Vec<u8> = Vec::new();
    name.push(48u8);
    proof {
        assert(name@ =~= seq![48u8]);
    }
    let field = make_field(name, ty, false);
    let mut fields: Vec<Field> = Vec::new();
    fields.push(field);
    let schema = make_schema(fields);
    proof {
        assert(schema@.fields =~= seq![FieldV { name: seq![48u8], ty, nullable: false }]);
    }
    let column = match ty {
        LogicalType::Int32 => {
            let mut vals: Vec<i32> = Vec::new();
            let mut i: usize = 0;
            while i < num_rows
                invariant
                    i <= num_rows <= 0x7fff_ffff,
                    vals@.len() == i,
                    forall|j: int| 0 <= j < i ==> #[trigger] vals@[j] == j as i32,
                decreases num_rows - i,
            {
                vals.push(i as i32);
                i += 1;
            }
            proof {
                assert(vals@ =~= int_values(num_rows as nat));
            }
            shuffle_i32s(&mut vals);
            Column::Int32(vals)
        }
        LogicalType::Utf8 => {
            let mut vals: Vec<Vec<u8>> = Vec::new();
            let mut i: usize = 0;
            while i < num_rows
                invariant
                    i <= num_rows <= 0x7fff_ffff,
                    vals@.len() == i,
                    forall|j: int| 0 <= j < i ==> (#[trigger] vals@[j])@ == pad_str(j),
                decreases num_rows - i,
            {
                vals.push(format_index(i as u32));
                i += 1;
            }
            proof {
                assert(col_strs_of(vals@) =~= str_values(num_rows as nat));
            }
            shuffle_strs(&mut vals);
            let ghost sv = col_strs_of(vals@);
            let c = Column::Utf8(vals);
            proof {
                assert(col_strs(c@) =~= sv);
            }
            c
        }
    };
    let mut columns: Vec<Column> = Vec::new();
    columns.push(column);
    let batch = Batch { schema: crate::model::copy_schema(&schema), columns };
    proof {
        broadcast use vstd::seq_lib::group_to_multiset_ensures;

        assert(batch@.schema =~= schema@);
        assert(batch@.columns.len() == 1);
        match ty {
            LogicalType::Int32 => {
                let vs = col_i32s(batch@.columns[0]);
                assert(vs.len() == vs.to_multiset().len());
                assert(int_values(num_rows as nat).len() == int_values(
                    num_rows as nat,
                ).to_multiset().len());
            }
            LogicalType::Utf8 => {
                let ss = col_strs(batch@.columns[0]);
                lemma_str_space_members(ss, num_rows as nat);
                assert forall|j: int| 0 <= j < ss.len() implies (#[trigger] ss[j]).len()
                    <= u32::MAX by {
                    assert(in_str_space(ss[j], num_rows as nat));
                    let i = choose|i: int| 0 <= i < num_rows as nat && ss[j] == pad_str(i);
                    assert(ss[j].len() == 11);
                }
            }
        }
        assert(batch@.wf());
    }
    (schema, batch)
}

/// Whether `x` is one value of the string value space of `n` rows.
pub open spec fn in_str_space(x: Seq<u8>, n: nat) -> bool {
    exists|i: int| 0 <= i < n && x == pad_str(i)
}

/// A column whose values are exactly the integer value space, in any
/// order, holds `n` values and only values of the dense range.
pub proof fn lemma_int_space_members(vs: Seq<i32>, n: nat)
    requires
        n <= 0x7fff_ffff,
        vs.to_multiset() == int_values(n).to_multiset(),
    ensures
        vs.len() == n,
        forall|j: int| 0 <= j < vs.len() ==> 0 <= #[trigger] vs[j] < n,
        forall|v: i32| 0 <= v < n ==> vs.to_multiset().count(v) == 1,
{
    broadcast use vstd::seq_lib::group_to_multiset_ensures;

    assert(vs.len() == vs.to_multiset().len());
    assert(int_values(n).len() == int_values(n).to_multiset().len());
    assert(int_values(n).no_duplicates()) by {
        assert forall|a: int, b: int|
            0 <= a < n && 0 <= b < n && a != b implies int_values(n)[a] != int_values(n)[b] by {
            assert(int_values(n)[a] == a as i32);
            assert(int_values(n)[b] == b as i32);
        }
    }
    int_values(n).lemma_multiset_has_no_duplicates();
    assert forall|v: i32| 0 <= v < n implies vs.to_multiset().count(v) == 1 by {
        assert(int_values(n)[v as int] == v);
        assert(int_values(n).contains(v));
        assert(int_values(n).to_multiset().count(v) > 0);
    }
    assert forall|j: int| 0 <= j < vs.len() implies 0 <= #[trigger] vs[j] < n by {
        assert(vs.contains(vs[j]));
        assert(vs.to_multiset().count(vs[j]) > 0);
        assert(int_values(n).contains(vs[j]));
        let i = choose|i: int| 0 <= i < int_values(n).len() && int_values(n)[i] == vs[j];
        assert(int_values(n)[i] == i as i32);
        assert(vs[j] == i as i32);
        assert(0 <= i < n);
    }
}

proof fn lemma_digits_unique(a: int, b: int, d: nat)
    requires
        0 <= a < pow10(d as int),
        0 <= b < pow10(d as int),
        forall|k: int| 0 <= k < d ==> #[trigger] (a / pow10(k) % 10) == b / pow10(k) % 10,
    ensures
        a == b,
    decreases d,
{
    if d == 0 {
    } else {
        let a1 = a / 10;
        let b1 = b / 10;
        assert(a / pow10(0) % 10 == b / pow10(0) % 10);
        assert(a % 10 == b % 10);
        assert(pow10(d as int) == 10 * pow10(d as int - 1));
        lemma_pow10_pos(d as int - 1);
        assert(a1 < pow10(d as int - 1)) by (nonlinear_arith)
            requires
                0 <= a,
                a < 10 * pow10(d as int - 1),
                a1 == a / 10,
        ;
        assert(b1 < pow10(d as int - 1)) by (nonlinear_arith)
            requires
                0 <= b,
                b < 10 * pow10(d as int - 1),
                b1 == b / 10,
        ;
        assert forall|k: int| 0 <= k < d - 1 implies #[trigger] (a1 / pow10(k) % 10) == b1 / pow10(
            k,
        ) % 10 by {
            lemma_pow10_pos(k);
            vstd::arithmetic::div_mod::lemma_div_denominator(a, 10, pow10(k));
            vstd::arithmetic::div_mod::lemma_div_denominator(b, 10, pow10(k));
            assert(pow10(k + 1) == 10 * pow10(k));
            assert(a1 / pow10(k) == a / pow10(k + 1));
            assert(b1 / pow10(k) == b / pow10(k + 1));
            assert(a / pow10(k + 1) % 10 == b / pow10(k + 1) % 10);
        }
        lemma_digits_unique(a1, b1, (d - 1) as nat);
        vstd::arithmetic::div_mod::lemma_fundamental_div_mod(a, 10);
        vstd::arithmetic::div_mod::lemma_fundamental_div_mod(b, 10);
    }
}

/// Distinct row indexes have distinct string values.
pub proof fn lemma_pad_str_injective(a: int, b: int)
    requires
        0 <= a < pow10(10),
        0 <= b < pow10(10),
        pad_str(a) == pad_str(b),
    ensures
        a == b,
{
    assert forall|k: int| 0 <= k < 10 implies #[trigger] (a / pow10(k) % 10) == b / pow10(k)
        % 10 by {
        let idx = 10 - k;
        assert(pad_str(a)[idx] == (48 + (a / pow10(9 - (idx - 1))) % 10) as u8);
        assert(pad_str(b)[idx] == (48 + (b / pow10(9 - (idx - 1))) % 10) as u8);
        assert(9 - (idx - 1) == k);
        assert(0 <= (a / pow10(k)) % 10 < 10);
        assert(0 <= (b / pow10(k)) % 10 < 10);
    }
    lemma_digits_unique(a, b, 10);
}

/// A column whose values are exactly the string value space, in any
/// order, holds `n` values and only values of the shape [`pad_str`],
/// each exactly once.
pub proof fn lemma_str_space_members(vs: Seq<Seq<u8>>, n: nat)
    requires
        n <= 0x7fff_ffff,
        vs.to_multiset() == str_values(n).to_multiset(),
    ensures
        vs.len() == n,
        forall|j: int| 0 <= j < vs.len() ==> in_str_space(#[trigger] vs[j], n),
        forall|i: int| 0 <= i < n ==> vs.to_multiset().count(#[trigger] pad_str(i)) == 1,
{
    assert(n < pow10(10)) by {
        reveal_with_fuel(pow10, 11);
    }
    assert(str_values(n).no_duplicates()) by {
        assert forall|a: int, b: int|
            0 <= a < n && 0 <= b < n && a != b implies str_values(n)[a] != str_values(n)[b] by {
            if str_values(n)[a] == str_values(n)[b] {
                assert(pad_str(a) == pad_str(b));
                lemma_pad_str_injective(a, b);
            }
        }
    }
    str_values(n).lemma_multiset_has_no_duplicates();
    assert forall|i: int| 0 <= i < n implies vs.to_multiset().count(#[trigger] pad_str(i))
        == 1 by {
        broadcast use vstd::seq_lib::group_to_multiset_ensures;

        assert(str_values(n)[i] == pad_str(i));
        assert(str_values(n).contains(pad_str(i)));
        assert(str_values(n).to_multiset().count(pad_str(i)) > 0);
    }
    broadcast use vstd::seq_lib::group_to_multiset_ensures;

    assert(vs.len() == vs.to_multiset().len());
    assert(str_values(n).len() == str_values(n).to_multiset().len());
    assert forall|j: int| 0 <= j < vs.len() implies in_str_space(#[trigger] vs[j], n) by {
        assert(vs.contains(vs[j]));
        assert(vs.to_multiset().count(vs[j]) > 0);
        assert(str_values(n).contains(vs[j]));
        let i = choose|i: int| 0 <= i < str_values(n).len() && str_values(n)[i] == vs[j];
        assert(str_values(n)[i] == pad_str(i));
        assert(0 <= i < n && vs[j] == pad_str(i));
    }
}

/// Every value of the string space is a hash sign followed by exactly ten
/// decimal digit bytes.
pub proof fn lemma_pad_str_shape(i: int)
    requires
        0 <= i,
    ensures
        pad_str(i).len() == 11,
        pad_str(i)[0] == 35,
        forall|k: int| 1 <= k < 11 ==> 48 <= #[trigger] pad_str(i)[k] <= 57,
{
    assert forall|k: int| 1 <= k < 11 implies 48 <= #[trigger] pad_str(i)[k] <= 57 by {
        lemma_pow10_pos(9 - (k - 1));
        assert(pad_str(i)[k] == (48 + (i / pow10(9 - (k - 1))) % 10) as u8);
    }
}

} // verus!

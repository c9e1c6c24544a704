//! The total order, equality and hashing of values.
//!
//! Like kinds compare directly: integers of one family as integers,
//! floats on their bit patterns with all NaNs equal and below
//! everything and the two zeros equal, decimals as rationals, text and
//! blobs byte-lexicographically, arrays element by element. Numeric
//! values of unlike kinds, and booleans and the result values against
//! numbers, are cross-compared through their 64-bit float images.
//! Equality is the order's `Equal`, so the order is total by
//! construction. The remaining unlike-kind pairs are ordered by kind
//! level, with every value that has a float image in one level, so a
//! value equal to a number through its image sorts exactly as that
//! number does against the other kinds. Upstream those pairs fall
//! back to comparing their formatted text; that needs the float
//! formatter, which verified code here cannot hold, so the kind-level
//! order stands in for it — total, image-consistent, but ordering
//! some unlike pairs differently than their text would. (And where
//! one kind compares a pair exactly while another goes through the
//! rounded image — a 64-bit integer pair against a decimal, say —
//! chains mixing the two can still disagree beyond 2^53, as they do
//! upstream; the transitivity laws below hold within each regime.)
use vstd::prelude::*;

verus! {

use crate::dec::{dec_f64_of, norm_spec, pow10, Dec};
use crate::num::{f64_canon, f64_key, f64_of_f32, f64_of_i64, f64_of_u64};
use crate::value::{Value, VM};

/// Byte-lexicographic order.
pub open spec fn lex8(a: Seq<u8>, b: Seq<u8>) -> core::cmp::Ordering
    decreases a.len(),
{
    if a.len() == 0 && b.len() == 0 {
        core::cmp::Ordering::Equal
    } else if a.len() == 0 {
        core::cmp::Ordering::Less
    } else if b.len() == 0 {
        core::cmp::Ordering::Greater
    } else if a[0] < b[0] {
        core::cmp::Ordering::Less
    } else if a[0] > b[0] {
        core::cmp::Ordering::Greater
    } else {
        lex8(a.drop_first(), b.drop_first())
    }
}

/// The 64-bit float image a value is cross-compared through, when it
/// has one: every numeric kind, the booleans as one and zero, and the
/// result values as their boolean images. A decimal's image is taken
/// from its normal form, so every representation of one rational —
/// and with it hashing — goes through one image.
pub open spec fn f64_image(m: VM) -> Option<u64> {
    match m {
        VM::U32(x) => Option::Some(f64_of_u64(x as u64)),
        VM::V32(x) => Option::Some(f64_of_u64(x as u64)),
        VM::U64(x) => Option::Some(f64_of_u64(x)),
        VM::V64(x) => Option::Some(f64_of_u64(x)),
        VM::I32(x) => Option::Some(f64_of_i64(x as i64)),
        VM::Z32(x) => Option::Some(f64_of_i64(x as i64)),
        VM::I64(x) => Option::Some(f64_of_i64(x)),
        VM::Z64(x) => Option::Some(f64_of_i64(x)),
        VM::F32(bits) => Option::Some(f64_of_f32(bits)),
        VM::F64(bits) => Option::Some(bits),
        VM::Decimal(d) => {
            let n = norm_spec(d);
            Option::Some(dec_f64_of(n.neg, n.mant, n.scale))
        },
        VM::True => Option::Some(f64_of_u64(1)),
        VM::False => Option::Some(f64_of_u64(0)),
        VM::Okay => Option::Some(f64_of_u64(1)),
        _ => Option::None,
    }
}

/// The kind level ordering the remaining unlike-kind pairs: the empty
/// value first, then errors, then arrays, then everything with a
/// float image as one level, then instants, spans, text and blobs.
/// Keeping all image-carrying kinds in one level keeps the fallback
/// consistent with cross-kind numeric equality.
pub open spec fn level(m: VM) -> int {
    match m {
        VM::Null => 0,
        VM::Error(_) => 1,
        VM::Array(_) => 2,
        VM::DateTime(_) => 4,
        VM::Duration(_) => 5,
        VM::String(_) => 6,
        VM::Bytes(_) => 7,
        _ => 3,
    }
}

pub open spec fn ord_of(k: int) -> core::cmp::Ordering {
    if k < 0 {
        core::cmp::Ordering::Less
    } else if k > 0 {
        core::cmp::Ordering::Greater
    } else {
        core::cmp::Ordering::Equal
    }
}

/// The total order on value models.
pub open spec fn cmp_spec(a: VM, b: VM) -> core::cmp::Ordering
    decreases a, b, 0int,
{
    match (a, b) {
        (VM::U32(l), VM::U32(r)) => ord_of(l as int - r),
        (VM::U32(l), VM::V32(r)) => ord_of(l as int - r),
        (VM::V32(l), VM::U32(r)) => ord_of(l as int - r),
        (VM::V32(l), VM::V32(r)) => ord_of(l as int - r),
        (VM::I32(l), VM::I32(r)) => ord_of(l as int - r),
        (VM::I32(l), VM::Z32(r)) => ord_of(l as int - r),
        (VM::Z32(l), VM::I32(r)) => ord_of(l as int - r),
        (VM::Z32(l), VM::Z32(r)) => ord_of(l as int - r),
        (VM::U64(l), VM::U64(r)) => ord_of(l as int - r),
        (VM::U64(l), VM::V64(r)) => ord_of(l as int - r),
        (VM::V64(l), VM::U64(r)) => ord_of(l as int - r),
        (VM::V64(l), VM::V64(r)) => ord_of(l as int - r),
        (VM::I64(l), VM::I64(r)) => ord_of(l as int - r),
        (VM::I64(l), VM::Z64(r)) => ord_of(l as int - r),
        (VM::Z64(l), VM::I64(r)) => ord_of(l as int - r),
        (VM::Z64(l), VM::Z64(r)) => ord_of(l as int - r),
        (VM::F32(l), VM::F32(r)) => ord_of(
            crate::num::f32_key(l) - crate::num::f32_key(r),
        ),
        (VM::F64(l), VM::F64(r)) => ord_of(f64_key(l) - f64_key(r)),
        (VM::Decimal(l), VM::Decimal(r)) => ord_of(
            l.num() * pow10(r.scale as nat) - r.num() * pow10(l.scale as nat),
        ),
        (VM::DateTime(l), VM::DateTime(r)) => ord_of(l.key() - r.key()),
        (VM::Duration(l), VM::Duration(r)) => ord_of(l.key() - r.key()),
        (VM::String(l), VM::String(r)) => lex8(l, r),
        (VM::Bytes(l), VM::Bytes(r)) => lex8(l, r),
        (VM::True, VM::True) => core::cmp::Ordering::Equal,
        (VM::False, VM::False) => core::cmp::Ordering::Equal,
        (VM::False, VM::True) => core::cmp::Ordering::Less,
        (VM::True, VM::False) => core::cmp::Ordering::Greater,
        (VM::Null, VM::Null) => core::cmp::Ordering::Equal,
        (VM::Null, _) => core::cmp::Ordering::Less,
        (_, VM::Null) => core::cmp::Ordering::Greater,
        (VM::Okay, VM::Okay) => core::cmp::Ordering::Equal,
        (VM::Error(l), VM::Error(r)) => lex8(l, r),
        (VM::Error(_), _) => core::cmp::Ordering::Less,
        (_, VM::Error(_)) => core::cmp::Ordering::Greater,
        (VM::Array(l), VM::Array(r)) => cmp_list(l, r, 0),
        (VM::Array(_), _) => core::cmp::Ordering::Less,
        (_, VM::Array(_)) => core::cmp::Ordering::Greater,
        (l, r) => {
            if f64_image(l) is Some && f64_image(r) is Some {
                ord_of(f64_key(f64_image(l)->0) - f64_key(f64_image(r)->0))
            } else {
                ord_of(level(l) - level(r))
            }
        },
    }
}

/// Element-wise order of two arrays from index `i`: the shorter array
/// sorts first on a tie.
pub open spec fn cmp_list(x: Seq<VM>, y: Seq<VM>, i: int) -> core::cmp::Ordering
    decreases x, y, x.len() - i,
{
    if i < 0 {
        core::cmp::Ordering::Equal
    } else if i >= x.len() && i >= y.len() {
        core::cmp::Ordering::Equal
    } else if i >= x.len() {
        core::cmp::Ordering::Less
    } else if i >= y.len() {
        core::cmp::Ordering::Greater
    } else {
        match cmp_spec(x[i], y[i]) {
            core::cmp::Ordering::Equal => cmp_list(x, y, i + 1),
            o => o,
        }
    }
}

/// Equality of value models: the order's `Equal`.
pub open spec fn eq_spec(a: VM, b: VM) -> bool {
    cmp_spec(a, b) == core::cmp::Ordering::Equal
}

/// The ordering-totality law: for every pair exactly one of `Less`,
/// `Equal` and `Greater` holds, equality being `Equal` by definition,
/// and every value equals itself — in particular a NaN equals a NaN.
pub proof fn lemma_cmp_total(a: VM, b: VM)
    ensures
        cmp_spec(a, b) == core::cmp::Ordering::Less || cmp_spec(a, b)
            == core::cmp::Ordering::Equal || cmp_spec(a, b) == core::cmp::Ordering::Greater,
        eq_spec(a, b) <==> cmp_spec(a, b) == core::cmp::Ordering::Equal,
{
    match cmp_spec(a, b) {
        core::cmp::Ordering::Less => {},
        core::cmp::Ordering::Equal => {},
        core::cmp::Ordering::Greater => {},
    }
}

/// Values of one numeric family order transitively, since the order is
/// an integer key's.
pub proof fn lemma_cmp_trans_keys(a: int, b: int, c: int)
    ensures
        ord_of(a - b) == core::cmp::Ordering::Less && ord_of(b - c)
            == core::cmp::Ordering::Less ==> ord_of(a - c) == core::cmp::Ordering::Less,
        ord_of(a - b) == core::cmp::Ordering::Equal && ord_of(b - c)
            == core::cmp::Ordering::Equal ==> ord_of(a - c) == core::cmp::Ordering::Equal,
{
}

/// Byte-lexicographic comparison.
pub fn lex8_cmp(a: &Vec<u8>, b: &Vec<u8>) -> (r: core::cmp::Ordering)
    ensures
        r == lex8(a@, b@),
{
    let mut i: usize = 0;
    let alen = a.len();
    let blen = b.len();
    proof {
        assert(a@.skip(0) =~= a@ && b@.skip(0) =~= b@);
    }
    while i < alen && i < blen
        invariant
            0 <= i,
            alen == a@.len(),
            blen == b@.len(),
            i <= alen,
            i <= blen,
            lex8(a@, b@) == lex8(a@.skip(i as int), b@.skip(i as int)),
        decreases alen - i,
    {
        let x = a[i];
        let y = b[i];
        proof {
            assert(a@.skip(i as int)[0] == x && b@.skip(i as int)[0] == y);
            if x == y {
                assert(a@.skip(i as int).drop_first() =~= a@.skip(i as int + 1));
                assert(b@.skip(i as int).drop_first() =~= b@.skip(i as int + 1));
            }
        }
        if x < y {
            return core::cmp::Ordering::Less;
        } else if x > y {
            return core::cmp::Ordering::Greater;
        }
        i += 1;
    }
    proof {
        assert(a@.skip(i as int).len() == alen - i && b@.skip(i as int).len() == blen
            - i);
    }
    if alen == blen {
        core::cmp::Ordering::Equal
    } else if alen < blen {
        core::cmp::Ordering::Less
    } else {
        core::cmp::Ordering::Greater
    }
}

/// The executable 64-bit float image, matching [`f64_image`].
fn f64_image_of(v: &Value) -> (r: Option<u64>)
    requires
        v.wf(),
    ensures
        r == f64_image(v@),
{
    match v {
        Value::U32(x) => Option::Some(crate::num::u64_to_f64_bits(*x as u64)),
        Value::V32(x) => Option::Some(crate::num::u64_to_f64_bits(*x as u64)),
        Value::U64(x) => Option::Some(crate::num::u64_to_f64_bits(*x)),
        Value::V64(x) => Option::Some(crate::num::u64_to_f64_bits(*x)),
        Value::I32(x) => Option::Some(crate::num::i64_to_f64_bits(*x as i64)),
        Value::Z32(x) => Option::Some(crate::num::i64_to_f64_bits(*x as i64)),
        Value::I64(x) => Option::Some(crate::num::i64_to_f64_bits(*x)),
        Value::Z64(x) => Option::Some(crate::num::i64_to_f64_bits(*x)),
        Value::F32(bits) => Option::Some(crate::num::f32_widen(*bits)),
        Value::F64(bits) => Option::Some(*bits),
        Value::Decimal(d) => {
            let n = crate::dec::dec_normalize(d);
            Option::Some(crate::dec::dec_to_f64_bits(&n))
        },
        Value::True => Option::Some(crate::num::u64_to_f64_bits(1)),
        Value::False => Option::Some(crate::num::u64_to_f64_bits(0)),
        Value::Okay => Option::Some(crate::num::u64_to_f64_bits(1)),
        _ => Option::None,
    }
}

fn level_of(v: &Value) -> (r: u8)
    ensures
        r as int == level(v@),
{
    match v {
        Value::Null => 0,
        Value::Error(_) => 1,
        Value::Array(_) => 2,
        Value::DateTime(_) => 4,
        Value::Duration(_) => 5,
        Value::String(_) => 6,
        Value::Bytes(_) => 7,
        _ => 3,
    }
}

fn ord_int(l: i128, r: i128) -> (o: core::cmp::Ordering)
    ensures
        o == ord_of(l as int - r as int),
{
    if l < r {
        core::cmp::Ordering::Less
    } else if l > r {
        core::cmp::Ordering::Greater
    } else {
        core::cmp::Ordering::Equal
    }
}

impl Value {
    /// The total order of values; see the module header.
    #[verifier::spinoff_prover]
    #[verifier::rlimit(100)]
    pub fn cmp_val(&self, other: &Value) -> (r: core::cmp::Ordering)
        requires
            self.wf(),
            other.wf(),
        ensures
            r == cmp_spec(self@, other@),
        decreases self, other, 1int,
    {
        match (self, other) {
            (Value::U32(l), Value::U32(r)) => ord_int(*l as i128, *r as i128),
            (Value::U32(l), Value::V32(r)) => ord_int(*l as i128, *r as i128),
            (Value::V32(l), Value::U32(r)) => ord_int(*l as i128, *r as i128),
            (Value::V32(l), Value::V32(r)) => ord_int(*l as i128, *r as i128),
            (Value::I32(l), Value::I32(r)) => ord_int(*l as i128, *r as i128),
            (Value::I32(l), Value::Z32(r)) => ord_int(*l as i128, *r as i128),
            (Value::Z32(l), Value::I32(r)) => ord_int(*l as i128, *r as i128),
            (Value::Z32(l), Value::Z32(r)) => ord_int(*l as i128, *r as i128),
            (Value::U64(l), Value::U64(r)) => ord_int(*l as i128, *r as i128),
            (Value::U64(l), Value::V64(r)) => ord_int(*l as i128, *r as i128),
            (Value::V64(l), Value::U64(r)) => ord_int(*l as i128, *r as i128),
            (Value::V64(l), Value::V64(r)) => ord_int(*l as i128, *r as i128),
            (Value::I64(l), Value::I64(r)) => ord_int(*l as i128, *r as i128),
            (Value::I64(l), Value::Z64(r)) => ord_int(*l as i128, *r as i128),
            (Value::Z64(l), Value::I64(r)) => ord_int(*l as i128, *r as i128),
            (Value::Z64(l), Value::Z64(r)) => ord_int(*l as i128, *r as i128),
            (Value::F32(l), Value::F32(r)) => crate::num::f32_cmp(*l, *r),
            (Value::F64(l), Value::F64(r)) => crate::num::f64_cmp(*l, *r),
            (Value::Decimal(l), Value::Decimal(r)) => crate::dec::dec_cmp(l, r),
            (Value::DateTime(l), Value::DateTime(r)) => crate::time::dt_cmp(l, r),
            (Value::Duration(l), Value::Duration(r)) => crate::time::dur_cmp(l, r),
            (Value::String(l), Value::String(r)) => lex8_cmp(l.bytes(), r.bytes()),
            (Value::Bytes(l), Value::Bytes(r)) => lex8_cmp(l, r),
            (Value::True, Value::True) => core::cmp::Ordering::Equal,
            (Value::False, Value::False) => core::cmp::Ordering::Equal,
            (Value::False, Value::True) => core::cmp::Ordering::Less,
            (Value::True, Value::False) => core::cmp::Ordering::Greater,
            (Value::Null, Value::Null) => core::cmp::Ordering::Equal,
            (Value::Null, _) => core::cmp::Ordering::Less,
            (_, Value::Null) => core::cmp::Ordering::Greater,
            (Value::Okay, Value::Okay) => core::cmp::Ordering::Equal,
            (Value::Error(l), Value::Error(r)) => lex8_cmp(l.bytes(), r.bytes()),
            (Value::Error(_), _) => core::cmp::Ordering::Less,
            (_, Value::Error(_)) => core::cmp::Ordering::Greater,
            (Value::Array(l), Value::Array(r)) => cmp_vec(l, r),
            (Value::Array(_), _) => core::cmp::Ordering::Less,
            (_, Value::Array(_)) => core::cmp::Ordering::Greater,
            (l, r) => {
                let li = f64_image_of(l);
                let ri = f64_image_of(r);
                match (li, ri) {
                    (Option::Some(lb), Option::Some(rb)) => crate::num::f64_cmp(lb, rb),
                    _ => {
                        let lr = level_of(l);
                        let rr = level_of(r);
                        ord_int(lr as i128, rr as i128)
                    },
                }
            },
        }
    }

    /// Equality of values: the order's `Equal`; in particular a NaN
    /// equals a NaN and the two float zeros are equal.
    pub fn eq_val(&self, other: &Value) -> (r: bool)
        requires
            self.wf(),
            other.wf(),
        ensures
            r == eq_spec(self@, other@),
    {
        match self.cmp_val(other) {
            core::cmp::Ordering::Equal => true,
            _ => false,
        }
    }
}

/// Element-wise comparison of two arrays.
fn cmp_vec(x: &Vec<Value>, y: &Vec<Value>) -> (r: core::cmp::Ordering)
    requires
        forall|j: int| 0 <= j < x@.len() ==> (#[trigger] x@[j]).wf(),
        forall|j: int| 0 <= j < y@.len() ==> (#[trigger] y@[j]).wf(),
    ensures
        r == cmp_list(crate::value::vms(*x), crate::value::vms(*y), 0),
    decreases x, y, 0int,
{
    let ghost mx = crate::value::vms(*x);
    let ghost my = crate::value::vms(*y);
    let mut i: usize = 0;
    let xl = x.len();
    let yl = y.len();
    while i < xl && i < yl
        invariant
            0 <= i,
            xl == x@.len(),
            yl == y@.len(),
            i <= xl,
            i <= yl,
            mx == crate::value::vms(*x),
            my == crate::value::vms(*y),
            forall|j: int| 0 <= j < x@.len() ==> (#[trigger] x@[j]).wf(),
            forall|j: int| 0 <= j < y@.len() ==> (#[trigger] y@[j]).wf(),
            cmp_list(mx, my, 0) == cmp_list(mx, my, i as int),
        decreases xl - i,
    {
        let o = x[i].cmp_val(&y[i]);
        proof {
            assert(mx[i as int] == x@[i as int]@ && my[i as int] == y@[i as int]@);
        }
        match o {
            core::cmp::Ordering::Equal => {},
            other_o => {
                return other_o;
            },
        }
        i += 1;
    }
    if xl == yl {
        core::cmp::Ordering::Equal
    } else if xl < yl {
        core::cmp::Ordering::Less
    } else {
        core::cmp::Ordering::Greater
    }
}

/// One FNV-style mixing step.
pub open spec fn mix(h: u64, x: u64) -> u64 {
    vstd::wrapping::u64_specs::wrapping_mul(h ^ x, 0x100000001b3)
}

fn mix_e(h: u64, x: u64) -> (r: u64)
    ensures
        r == mix(h, x),
{
    (h ^ x).wrapping_mul(0x100000001b3)
}

/// The hash of a byte string folded into `h`.
pub open spec fn hash_bytes(h: u64, s: Seq<u8>, i: int) -> u64
    decreases s.len() - i,
{
    if i < 0 || i >= s.len() {
        h
    } else {
        hash_bytes(mix(h, s[i] as u64), s, i + 1)
    }
}

/// The hash of a value model folded into `h`. Every value with a
/// float image — all the numerics, the booleans and the result
/// values — hashes by the canonical form of that image, so values the
/// order deems equal across kinds hash alike, NaNs and the two zeros
/// included.
pub open spec fn hash_spec(h: u64, m: VM) -> u64
    decreases m, 1int, 0int,
{
    match m {
        VM::DateTime(d) => mix(mix(mix(h, 2), d.secs as u64), d.nanos as u64),
        VM::Duration(d) => mix(mix(mix(h, 3), d.secs), d.nanos as u64),
        VM::String(s) => hash_bytes(mix(h, 4), s, 0),
        VM::Bytes(s) => hash_bytes(mix(h, 5), s, 0),
        VM::Error(s) => hash_bytes(mix(h, 6), s, 0),
        VM::Null => mix(h, 7),
        VM::Array(elts) => hash_list(mix(h, 8), elts, 0),
        _ => {
            if f64_image(m) is Some {
                mix(mix(h, 1), f64_canon(f64_image(m)->0))
            } else {
                h
            }
        },
    }
}

/// The hash of the array elements from `i` on.
pub open spec fn hash_list(h: u64, elts: Seq<VM>, i: int) -> u64
    decreases elts, 0int, elts.len() - i,
{
    if i < 0 || i >= elts.len() {
        mix(h, 9)
    } else {
        hash_list(hash_spec(h, elts[i]), elts, i + 1)
    }
}

/// The hash/equality-coherence law on the numeric domain: values whose
/// float images carry the same key — among them every cross-kind pair
/// the order deems equal, decimals included, all NaNs, and the two
/// zeros — hash alike.
pub proof fn lemma_hash_coherent_numeric(h: u64, a: VM, b: VM)
    requires
        f64_image(a) is Some,
        f64_image(b) is Some,
        f64_key(f64_image(a)->0) == f64_key(f64_image(b)->0),
    ensures
        hash_spec(h, a) == hash_spec(h, b),
{
    crate::num::lemma_f64_key_canon(f64_image(a)->0, f64_image(b)->0);
}

/// The hash/equality-coherence law on decimal pairs: two decimals the
/// order deems equal denote one rational, share one normal form, so
/// one image — and hash alike, whatever their scales.
pub proof fn lemma_hash_coherent_decimal(h: u64, a: Dec, b: Dec)
    requires
        a.wf(),
        b.wf(),
        cmp_spec(VM::Decimal(a), VM::Decimal(b)) == core::cmp::Ordering::Equal,
    ensures
        hash_spec(h, VM::Decimal(a)) == hash_spec(h, VM::Decimal(b)),
{
    assert(a.same_value(&b));
    crate::dec::lemma_norm_same(a, b);
}

fn hash_bytes_e(h: u64, s: &Vec<u8>) -> (r: u64)
    ensures
        r == hash_bytes(h, s@, 0),
{
    let mut acc = h;
    let mut i: usize = 0;
    let n = s.len();
    while i < n
        invariant
            n == s@.len(),
            0 <= i <= n,
            hash_bytes(h, s@, 0) == hash_bytes(acc, s@, i as int),
        decreases n - i,
    {
        acc = mix_e(acc, s[i] as u64);
        i += 1;
    }
    acc
}

impl Value {
    /// The value's hash, NaN-normalised and coherent with equality
    /// across the numeric kinds.
    pub fn hash64(&self, h: u64) -> (r: u64)
        requires
            self.wf(),
        ensures
            r == hash_spec(h, self@),
        decreases self, 1int,
    {
        match self {
            Value::DateTime(d) => mix_e(mix_e(mix_e(h, 2), d.secs as u64), d.nanos as u64),
            Value::Duration(d) => mix_e(mix_e(mix_e(h, 3), d.secs), d.nanos as u64),
            Value::String(s) => hash_bytes_e(mix_e(h, 4), s.bytes()),
            Value::Bytes(s) => hash_bytes_e(mix_e(h, 5), s),
            Value::Error(s) => hash_bytes_e(mix_e(h, 6), s.bytes()),
            Value::Null => mix_e(h, 7),
            Value::Array(elts) => hash_vec(mix_e(h, 8), elts),
            v => {
                match f64_image_of(v) {
                    Option::Some(bits) => mix_e(mix_e(h, 1), crate::num::f64_canonical(bits)),
                    Option::None => h,
                }
            },
        }
    }
}

/// The hash of the elements of an array.
fn hash_vec(h: u64, elts: &Vec<Value>) -> (r: u64)
    requires
        forall|j: int| 0 <= j < elts@.len() ==> (#[trigger] elts@[j]).wf(),
    ensures
        r == hash_list(h, crate::value::vms(*elts), 0),
    decreases elts, 0int,
{
    let ghost m = crate::value::vms(*elts);
    let mut acc = h;
    let mut i: usize = 0;
    let n = elts.len();
    while i < n
        invariant
            n == elts@.len(),
            0 <= i <= n,
            m == crate::value::vms(*elts),
            forall|j: int| 0 <= j < elts@.len() ==> (#[trigger] elts@[j]).wf(),
            hash_list(h, m, 0) == hash_list(acc, m, i as int),
        decreases n - i,
    {
        proof {
            assert(m[i as int] == elts@[i as int]@);
        }
        acc = elts[i].hash64(acc);
        i += 1;
    }
    mix_e(acc, 9)
}

/// `lex8`'s `Equal` is equality of the byte strings.
pub proof fn lemma_lex8_eq(a: Seq<u8>, b: Seq<u8>)
    ensures
        (lex8(a, b) == core::cmp::Ordering::Equal) <==> a == b,
    decreases a.len(),
{
    if a.len() == 0 && b.len() == 0 {
        assert(a =~= b);
    } else if a.len() > 0 && b.len() > 0 && a[0] == b[0] {
        lemma_lex8_eq(a.drop_first(), b.drop_first());
        if a.drop_first() == b.drop_first() {
            assert(a =~= b) by {
                assert(a.len() == b.len());
                assert(forall|i: int|
                    1 <= i < a.len() ==> a[i] == a.drop_first()[i - 1] && b[i]
                        == b.drop_first()[i - 1]);
            }
        }
        if a == b {
            assert(a.drop_first() =~= b.drop_first());
        }
    } else {
        if a == b {
            assert(a.len() == b.len());
            if a.len() > 0 {
                assert(a[0] == b[0]);
            }
        }
    }
}

/// `lex8`'s strict order is transitive.
pub proof fn lemma_lex8_less_trans(a: Seq<u8>, b: Seq<u8>, c: Seq<u8>)
    requires
        lex8(a, b) == core::cmp::Ordering::Less,
        lex8(b, c) == core::cmp::Ordering::Less,
    ensures
        lex8(a, c) == core::cmp::Ordering::Less,
    decreases a.len(),
{
    if a.len() == 0 {
        if c.len() == 0 {
            assert(b.len() > 0);
        }
    } else {
        assert(b.len() > 0);
        assert(c.len() > 0);
        if a[0] == b[0] && b[0] == c[0] {
            lemma_lex8_less_trans(a.drop_first(), b.drop_first(), c.drop_first());
        }
    }
}

/// The two values are of one directly compared scalar kind: the same
/// integer family, both floats of one width, both decimals, both
/// instants, both spans, both texts, or both blobs.
pub open spec fn same_scalar_kind(a: VM, b: VM) -> bool {
    ||| (a matches VM::U32(_) || a matches VM::V32(_)) && (b matches VM::U32(_)
        || b matches VM::V32(_))
    ||| (a matches VM::I32(_) || a matches VM::Z32(_)) && (b matches VM::I32(_)
        || b matches VM::Z32(_))
    ||| (a matches VM::U64(_) || a matches VM::V64(_)) && (b matches VM::U64(_)
        || b matches VM::V64(_))
    ||| (a matches VM::I64(_) || a matches VM::Z64(_)) && (b matches VM::I64(_)
        || b matches VM::Z64(_))
    ||| a matches VM::F32(_) && b matches VM::F32(_)
    ||| a matches VM::F64(_) && b matches VM::F64(_)
    ||| a matches VM::Decimal(_) && b matches VM::Decimal(_)
    ||| a matches VM::DateTime(_) && b matches VM::DateTime(_)
    ||| a matches VM::Duration(_) && b matches VM::Duration(_)
    ||| a matches VM::String(_) && b matches VM::String(_)
    ||| a matches VM::Bytes(_) && b matches VM::Bytes(_)
}

proof fn lemma_dec_rational_trans(a: Dec, b: Dec, c: Dec)
    requires
        a.wf(),
        b.wf(),
        c.wf(),
        a.num() * pow10(b.scale as nat) < b.num() * pow10(a.scale as nat),
        b.num() * pow10(c.scale as nat) < c.num() * pow10(b.scale as nat),
    ensures
        a.num() * pow10(c.scale as nat) < c.num() * pow10(a.scale as nat),
{
    let pa = pow10(a.scale as nat) as int;
    let pb = pow10(b.scale as nat) as int;
    let pc = pow10(c.scale as nat) as int;
    crate::dec::lemma_pow10_pos_pub(a.scale as nat);
    crate::dec::lemma_pow10_pos_pub(b.scale as nat);
    crate::dec::lemma_pow10_pos_pub(c.scale as nat);
    assert(a.num() * pc < c.num() * pa) by (nonlinear_arith)
        requires
            a.num() * pb < b.num() * pa,
            b.num() * pc < c.num() * pb,
            pa >= 1,
            pb >= 1,
            pc >= 1,
    {
        assert((a.num() * pb) * pc < (b.num() * pa) * pc);
        assert((b.num() * pc) * pa < (c.num() * pb) * pa);
        assert((a.num() * pc) * pb < (c.num() * pa) * pb);
    }
}

/// The ordering-transitivity law on like kinds: within any directly
/// compared scalar kind — one integer family, one float width,
/// decimals, instants, spans, texts, blobs — `Less` chains compose.
/// (Chains that mix a kind's exact comparison with the rounded
/// cross-kind float image can disagree beyond 2^53, as they do
/// upstream; those stay outside this law, as does array recursion.)
#[verifier::spinoff_prover]
#[verifier::rlimit(100)]
pub proof fn lemma_cmp_trans_same_kind(a: VM, b: VM, c: VM)
    requires
        same_scalar_kind(a, b),
        same_scalar_kind(b, c),
        a matches VM::Decimal(d) ==> d.wf(),
        b matches VM::Decimal(d) ==> d.wf(),
        c matches VM::Decimal(d) ==> d.wf(),
        cmp_spec(a, b) == core::cmp::Ordering::Less,
        cmp_spec(b, c) == core::cmp::Ordering::Less,
    ensures
        cmp_spec(a, c) == core::cmp::Ordering::Less,
{
    match (a, b, c) {
        (
            VM::U32(x) | VM::V32(x),
            VM::U32(y) | VM::V32(y),
            VM::U32(z) | VM::V32(z),
        ) => {
            assert(x < y && y < z);
        },
        (
            VM::I32(x) | VM::Z32(x),
            VM::I32(y) | VM::Z32(y),
            VM::I32(z) | VM::Z32(z),
        ) => {
            assert(x < y && y < z);
        },
        (
            VM::U64(x) | VM::V64(x),
            VM::U64(y) | VM::V64(y),
            VM::U64(z) | VM::V64(z),
        ) => {
            assert(x < y && y < z);
        },
        (
            VM::I64(x) | VM::Z64(x),
            VM::I64(y) | VM::Z64(y),
            VM::I64(z) | VM::Z64(z),
        ) => {
            assert(x < y && y < z);
        },
        (VM::F32(x), VM::F32(y), VM::F32(z)) => {
            assert(crate::num::f32_key(x) < crate::num::f32_key(y));
            assert(crate::num::f32_key(y) < crate::num::f32_key(z));
        },
        (VM::F64(x), VM::F64(y), VM::F64(z)) => {
            assert(f64_key(x) < f64_key(y) && f64_key(y) < f64_key(z));
        },
        (VM::DateTime(x), VM::DateTime(y), VM::DateTime(z)) => {
            assert(x.key() < y.key() && y.key() < z.key());
        },
        (VM::Duration(x), VM::Duration(y), VM::Duration(z)) => {
            assert(x.key() < y.key() && y.key() < z.key());
        },
        (VM::String(x), VM::String(y), VM::String(z)) => {
            lemma_lex8_less_trans(x, y, z);
        },
        (VM::Bytes(x), VM::Bytes(y), VM::Bytes(z)) => {
            lemma_lex8_less_trans(x, y, z);
        },
        (VM::Decimal(x), VM::Decimal(y), VM::Decimal(z)) => {
            lemma_dec_rational_trans(x, y, z);
        },
        _ => {
            assert(false);
        },
    }
}

/// The ordering-transitivity law across kinds compared through their
/// float images: where each of the three pairwise comparisons is the
/// image-key order, `Less` chains compose. Every unlike-kind numeric,
/// boolean or result pair compares this way.
pub proof fn lemma_cmp_trans_image(a: VM, b: VM, c: VM)
    requires
        f64_image(a) is Some,
        f64_image(b) is Some,
        f64_image(c) is Some,
        cmp_spec(a, b) == ord_of(f64_key(f64_image(a)->0) - f64_key(f64_image(b)->0)),
        cmp_spec(b, c) == ord_of(f64_key(f64_image(b)->0) - f64_key(f64_image(c)->0)),
        cmp_spec(a, c) == ord_of(f64_key(f64_image(a)->0) - f64_key(f64_image(c)->0)),
        cmp_spec(a, b) == core::cmp::Ordering::Less,
        cmp_spec(b, c) == core::cmp::Ordering::Less,
    ensures
        cmp_spec(a, c) == core::cmp::Ordering::Less,
{
}

} // verus!

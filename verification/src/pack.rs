//! The binary encoding of values.
//!
//! Each value is one tag byte followed by its payload. Fixed-width
//! integers are big-endian; variable-length integers are LEB128, signed
//! ones zig-zag first; text and blobs are length-prefixed; an array is
//! its length followed by its elements. Both the encoding and the
//! decoder are specified at the mathematical level over value models,
//! and decoding an encoded value is proved to give the value back.
use vstd::prelude::*;

verus! {

use crate::chars::Chars;
use crate::dec::Dec;
use crate::time::{DT, Dur, NANOS_PER_SEC};
use crate::value::{Value, VM};
use vstd::utf8::valid_utf8;

/// Why a decode failed.
#[derive(Clone, Copy, Debug, PartialEq, Eq, Structural)]
pub enum PackError {
    /// The tag byte is not one the model knows.
    UnknownTag,
    /// A payload is malformed: bad UTF-8, an out-of-range field.
    InvalidFormat,
    /// The buffer ends before the payload does.
    TooShort,
}

/// The LEB128 bytes of an unsigned integer: seven bits per byte, low
/// bits first, the high bit of each byte marking a continuation.
pub open spec fn enc_varint(v: nat) -> Seq<u8>
    decreases v,
{
    if v < 128 {
        seq![v as u8]
    } else {
        seq![(v % 128 + 128) as u8] + enc_varint(v / 128)
    }
}

/// The zig-zag image of a signed integer: non-negative values map to
/// the even numbers, negative ones to the odd.
pub open spec fn zigzag(v: int) -> nat {
    if v >= 0 {
        (2 * v) as nat
    } else {
        (-2 * v - 1) as nat
    }
}

/// The signed integer with the given zig-zag image.
pub open spec fn unzigzag(z: nat) -> int {
    if z % 2 == 0 {
        z as int / 2
    } else {
        -(z as int + 1) / 2
    }
}

pub proof fn lemma_zigzag_roundtrip(v: int)
    ensures
        unzigzag(zigzag(v)) == v,
{
}

/// The big-endian bytes of an integer, `n` bytes wide.
pub open spec fn enc_be(v: nat, n: nat) -> Seq<u8>
    decreases n,
{
    if n == 0 {
        Seq::empty()
    } else {
        enc_be(v / 256, (n - 1) as nat) + seq![(v % 256) as u8]
    }
}

/// The value of big-endian bytes.
pub open spec fn dec_be(s: Seq<u8>) -> nat
    decreases s.len(),
{
    if s.len() == 0 {
        0
    } else {
        dec_be(s.drop_last()) * 256 + s.last() as nat
    }
}

pub open spec fn pow256(n: nat) -> nat
    decreases n,
{
    if n == 0 {
        1
    } else {
        256 * pow256((n - 1) as nat)
    }
}

pub proof fn lemma_enc_be_len(v: nat, n: nat)
    ensures
        enc_be(v, n).len() == n,
    decreases n,
{
    if n > 0 {
        lemma_enc_be_len(v / 256, (n - 1) as nat);
    }
}

pub proof fn lemma_dec_be_bound(s: Seq<u8>)
    ensures
        dec_be(s) < pow256(s.len()),
    decreases s.len(),
{
    if s.len() > 0 {
        lemma_dec_be_bound(s.drop_last());
        assert(dec_be(s.drop_last()) * 256 + 255 < 256 * pow256((s.len() - 1) as nat))
            by (nonlinear_arith)
            requires
                dec_be(s.drop_last()) < pow256((s.len() - 1) as nat),
        ;
    }
}

pub proof fn lemma_be_roundtrip(v: nat, n: nat)
    requires
        v < pow256(n),
    ensures
        dec_be(enc_be(v, n)) == v,
    decreases n,
{
    if n == 0 {
    } else {
        let s = enc_be(v, n);
        lemma_enc_be_len(v / 256, (n - 1) as nat);
        assert(s.drop_last() =~= enc_be(v / 256, (n - 1) as nat));
        assert(s.last() == (v % 256) as u8);
        assert(v / 256 < pow256((n - 1) as nat)) by (nonlinear_arith)
            requires
                v < pow256(n),
                pow256(n) == 256 * pow256((n - 1) as nat),
                v >= 0,
        ;
        lemma_be_roundtrip(v / 256, (n - 1) as nat);
    }
}

/// The encoding of a value model: one tag byte, then the payload.
pub open spec fn encm(m: VM) -> Seq<u8>
    decreases m, 1int, 0int,
{
    match m {
        VM::U32(x) => seq![0u8] + enc_be(x as nat, 4),
        VM::V32(x) => seq![1u8] + enc_varint(x as nat),
        VM::I32(x) => seq![2u8] + enc_be((x as u32) as nat, 4),
        VM::Z32(x) => seq![3u8] + enc_varint(zigzag(x as int)),
        VM::U64(x) => seq![4u8] + enc_be(x as nat, 8),
        VM::V64(x) => seq![5u8] + enc_varint(x as nat),
        VM::I64(x) => seq![6u8] + enc_be((x as u64) as nat, 8),
        VM::Z64(x) => seq![7u8] + enc_varint(zigzag(x as int)),
        VM::F32(bits) => seq![8u8] + enc_be(bits as nat, 4),
        VM::F64(bits) => seq![9u8] + enc_be(bits as nat, 8),
        VM::DateTime(d) => seq![10u8] + enc_be((d.secs as u64) as nat, 8) + enc_be(
            d.nanos as nat,
            4,
        ),
        VM::Duration(d) => seq![11u8] + enc_be(d.secs as nat, 8) + enc_be(d.nanos as nat, 4),
        VM::String(s) => seq![12u8] + enc_varint(s.len()) + s,
        VM::Bytes(b) => seq![13u8] + enc_varint(b.len()) + b,
        VM::True => seq![14u8],
        VM::False => seq![15u8],
        VM::Null => seq![16u8],
        VM::Okay => seq![17u8],
        VM::Error(s) => seq![18u8] + enc_varint(s.len()) + s,
        VM::Array(elts) => seq![19u8] + enc_varint(elts.len()) + encm_list(elts, 0),
        VM::Decimal(d) => seq![20u8] + seq![d.scale as u8] + seq![
            if d.neg {
                1u8
            } else {
                0u8
            },
        ] + enc_be(d.mant as nat, 12),
    }
}

/// The concatenated encodings of the model elements from index `i` on.
pub open spec fn encm_list(elts: Seq<VM>, i: int) -> Seq<u8>
    decreases elts, 0int, elts.len() - i,
{
    if i < 0 || i >= elts.len() {
        Seq::empty()
    } else {
        encm(elts[i]) + encm_list(elts, i + 1)
    }
}

/// The LEB128 decoder as the executable loop computes it: at most ten
/// payload bytes, accumulated seven bits at a time.
pub open spec fn dm_varint(s: Seq<u8>, i: int, acc: u64) -> Option<(u64, int)>
    decreases 10 - i,
{
    if i >= 10 || i >= s.len() || i < 0 {
        Option::None
    } else {
        let b = s[i];
        let b7 = (b % 128) as u64;
        let sh = (7 * i) as u64;
        if b7 > (u64::MAX >> sh) {
            Option::None
        } else {
            let t = (b7 << sh) as u64;
            if acc > (u64::MAX - t) as u64 {
                Option::None
            } else if b < 128 {
                Option::Some(((acc + t) as u64, i + 1))
            } else {
                dm_varint(s, i + 1, (acc + t) as u64)
            }
        }
    }
}

/// The decoder of one value model from the head of the bytes: the
/// model and the count of bytes consumed, or nothing if no value is
/// encoded there.
pub open spec fn dm_val(s: Seq<u8>) -> Option<(VM, int)>
    decreases s.len(), 0int, 0int,
{
    if s.len() == 0 {
        Option::None
    } else {
        let tag = s[0];
        let rest = s.skip(1);
        if tag == 0 {
            if rest.len() < 4 {
                Option::None
            } else {
                Option::Some((VM::U32(dec_be(rest.take(4)) as u32), 5))
            }
        } else if tag == 1 {
            match dm_varint(rest, 0, 0) {
                Option::Some((v, c)) => Option::Some((VM::V32(v as u32), 1 + c)),
                Option::None => Option::None,
            }
        } else if tag == 2 {
            if rest.len() < 4 {
                Option::None
            } else {
                Option::Some((VM::I32((dec_be(rest.take(4)) as u32) as i32), 5))
            }
        } else if tag == 3 {
            match dm_varint(rest, 0, 0) {
                Option::Some((v, c)) => Option::Some(
                    (VM::Z32(unzigzag(((v as u32) as nat)) as i32), 1 + c),
                ),
                Option::None => Option::None,
            }
        } else if tag == 4 {
            if rest.len() < 8 {
                Option::None
            } else {
                Option::Some((VM::U64(dec_be(rest.take(8)) as u64), 9))
            }
        } else if tag == 5 {
            match dm_varint(rest, 0, 0) {
                Option::Some((v, c)) => Option::Some((VM::V64(v), 1 + c)),
                Option::None => Option::None,
            }
        } else if tag == 6 {
            if rest.len() < 8 {
                Option::None
            } else {
                Option::Some((VM::I64((dec_be(rest.take(8)) as u64) as i64), 9))
            }
        } else if tag == 7 {
            match dm_varint(rest, 0, 0) {
                Option::Some((v, c)) => Option::Some(
                    (VM::Z64(unzigzag(v as nat) as i64), 1 + c),
                ),
                Option::None => Option::None,
            }
        } else if tag == 8 {
            if rest.len() < 4 {
                Option::None
            } else {
                Option::Some((VM::F32(dec_be(rest.take(4)) as u32), 5))
            }
        } else if tag == 9 {
            if rest.len() < 8 {
                Option::None
            } else {
                Option::Some((VM::F64(dec_be(rest.take(8)) as u64), 9))
            }
        } else if tag == 10 {
            if rest.len() < 12 {
                Option::None
            } else {
                let secs = (dec_be(rest.take(8)) as u64) as i64;
                let nanos = dec_be(rest.subrange(8, 12)) as u32;
                if nanos >= NANOS_PER_SEC {
                    Option::None
                } else {
                    Option::Some((VM::DateTime(DT { secs, nanos }), 13))
                }
            }
        } else if tag == 11 {
            if rest.len() < 12 {
                Option::None
            } else {
                let secs = dec_be(rest.take(8)) as u64;
                let nanos = dec_be(rest.subrange(8, 12)) as u32;
                if nanos >= NANOS_PER_SEC {
                    Option::None
                } else {
                    Option::Some((VM::Duration(Dur { secs, nanos }), 13))
                }
            }
        } else if tag == 12 || tag == 13 || tag == 18 {
            match dm_varint(rest, 0, 0) {
                Option::Some((v, c)) => {
                    let l = v as int;
                    if c + l > rest.len() {
                        Option::None
                    } else {
                        let body = rest.subrange(c, c + l);
                        if tag == 13 {
                            Option::Some((VM::Bytes(body), 1 + c + l))
                        } else if !valid_utf8(body) {
                            Option::None
                        } else if tag == 12 {
                            Option::Some((VM::String(body), 1 + c + l))
                        } else {
                            Option::Some((VM::Error(body), 1 + c + l))
                        }
                    }
                },
                Option::None => Option::None,
            }
        } else if tag == 14 {
            Option::Some((VM::True, 1))
        } else if tag == 15 {
            Option::Some((VM::False, 1))
        } else if tag == 16 {
            Option::Some((VM::Null, 1))
        } else if tag == 17 {
            Option::Some((VM::Okay, 1))
        } else if tag == 19 {
            match dm_varint(rest, 0, 0) {
                Option::Some((v, c)) => {
                    if c < 1 || 1 + c > s.len() {
                        Option::None
                    } else {
                        match dm_list(s.skip(1 + c), v as nat) {
                            Option::Some((elts, c2)) => Option::Some(
                                (VM::Array(elts), 1 + c + c2),
                            ),
                            Option::None => Option::None,
                        }
                    }
                },
                Option::None => Option::None,
            }
        } else if tag == 20 {
            if s.len() < 15 {
                Option::None
            } else {
                let scale = s[1];
                let signb = s[2];
                if scale > 28 || signb > 1 {
                    Option::None
                } else {
                    let mant = dec_be(s.subrange(3, 15)) as u128;
                    Option::Some(
                        (
                            VM::Decimal(
                                Dec { neg: signb == 1, mant, scale: scale as u32 },
                            ),
                            15,
                        ),
                    )
                }
            }
        } else {
            Option::None
        }
    }
}

/// The decoder of `n` consecutive value models.
pub open spec fn dm_list(s: Seq<u8>, n: nat) -> Option<(Seq<VM>, int)>
    decreases s.len(), 1int, 0int,
{
    if n == 0 {
        Option::Some((Seq::empty(), 0))
    } else {
        match dm_val(s) {
            Option::Some((v, c)) => {
                if c < 1 || c > s.len() {
                    Option::None
                } else {
                    match dm_list(s.skip(c), (n - 1) as nat) {
                        Option::Some((tail, c2)) => Option::Some((seq![v] + tail, c + c2)),
                        Option::None => Option::None,
                    }
                }
            },
            Option::None => Option::None,
        }
    }
}

/// An encoding is never empty.
pub proof fn lemma_encm_len_pos(m: VM)
    ensures
        encm(m).len() >= 1,
{
    match m {
        VM::U32(_) => {},
        VM::V32(_) => {},
        VM::I32(_) => {},
        VM::Z32(_) => {},
        VM::U64(_) => {},
        VM::V64(_) => {},
        VM::I64(_) => {},
        VM::Z64(_) => {},
        VM::F32(_) => {},
        VM::F64(_) => {},
        VM::DateTime(_) => {},
        VM::Duration(_) => {},
        VM::String(_) => {},
        VM::Bytes(_) => {},
        VM::True => {},
        VM::False => {},
        VM::Null => {},
        VM::Okay => {},
        VM::Error(_) => {},
        VM::Array(_) => {},
        VM::Decimal(_) => {},
    }
}

pub proof fn lemma_enc_varint_len(v: nat, k: nat)
    requires
        k >= 1,
        v < vstd::arithmetic::power2::pow2(7 * k),
    ensures
        1 <= enc_varint(v).len() <= k,
    decreases v,
{
    vstd::arithmetic::power2::lemma_pow2_pos(7 * k);
    if v >= 128 {
        assert(k >= 2) by {
            if k == 1 {
                assert(vstd::arithmetic::power2::pow2(7) == 128) by {
                    vstd::arithmetic::power2::lemma2_to64();
                }
            }
        }
        vstd::arithmetic::power2::lemma_pow2_adds(7, 7 * (k - 1) as nat);
        assert(vstd::arithmetic::power2::pow2(7) == 128) by {
            vstd::arithmetic::power2::lemma2_to64();
        }
        assert(v / 128 < vstd::arithmetic::power2::pow2(7 * (k - 1) as nat))
            by (nonlinear_arith)
            requires
                v < vstd::arithmetic::power2::pow2(7 * k),
                vstd::arithmetic::power2::pow2(7 * k) == vstd::arithmetic::power2::pow2(7)
                    * vstd::arithmetic::power2::pow2(7 * (k - 1) as nat),
                vstd::arithmetic::power2::pow2(7) == 128,
                v >= 0,
        ;
        assert(vstd::arithmetic::power2::pow2(7) == 128) by {
            vstd::arithmetic::power2::lemma2_to64();
        }
        lemma_enc_varint_len(v / 128, (k - 1) as nat);
    }
}

proof fn lemma_varint_rt_rec(v: u64, i: int, acc: u64, s: Seq<u8>)
    requires
        0 <= i,
        i + enc_varint(v as nat).len() <= 10,
        s.len() >= i + enc_varint(v as nat).len(),
        forall|j: int|
            0 <= j < enc_varint(v as nat).len() ==> s[i + j] == enc_varint(v as nat)[j],
        acc as nat + (v as nat) * vstd::arithmetic::power2::pow2((7 * i) as nat)
            <= u64::MAX as nat,
        (acc as nat) < vstd::arithmetic::power2::pow2((7 * i) as nat),
    ensures
        dm_varint(s, i, acc) == Option::Some(
            (
                ((acc as nat + (v as nat) * vstd::arithmetic::power2::pow2(
                    (7 * i) as nat,
                )) as u64),
                i + enc_varint(v as nat).len(),
            ),
        ),
    decreases v,
{
    let p2 = vstd::arithmetic::power2::pow2((7 * i) as nat);
    let ev = enc_varint(v as nat);
    let ll = ev.len();
    assert(ll >= 1);
    assert(i <= 9);
    assert(s[i + 0] == ev[0]);
    let b = s[i];
    let b7 = (b % 128) as u64;
    let sh = (7 * i) as u64;
    assert(sh <= 63);
    vstd::arithmetic::power2::lemma_pow2_pos((7 * i) as nat);
    if (v as nat) < 128 {
        assert(ev == seq![(v as nat) as u8]);
        assert(b == v as u8);
        assert(b7 == v);
        // the guard admits this byte: its contribution fits
        assert(b7 as nat * p2 <= u64::MAX as nat) by (nonlinear_arith)
            requires
                acc as nat + (b7 as nat) * p2 <= u64::MAX as nat,
                acc >= 0,
        ;
        vstd::bits::lemma_u64_mul_pow2_le_max_iff_max_shr(b7, sh, u64::MAX);
        vstd::bits::lemma_u64_shl_is_mul(b7, sh);
        let t = (b7 << sh) as u64;
        assert(t as nat == (v as nat) * p2);
        assert(acc <= u64::MAX - t);
        assert(b < 128);
        assert(dm_varint(s, i, acc) == Option::Some(((acc + t) as u64, i + 1)));
    } else {
        assert(ev == seq![((v as nat) % 128 + 128) as u8] + enc_varint((v as nat) / 128));
        assert(b == ((v as nat) % 128 + 128) as u8);
        assert(b7 == (v as nat) % 128);
        assert(b >= 128);
        assert(b7 as nat * p2 <= (v as nat) * p2) by (nonlinear_arith)
            requires
                b7 as nat <= v as nat,
                p2 >= 0,
        ;
        vstd::bits::lemma_u64_mul_pow2_le_max_iff_max_shr(b7, sh, u64::MAX);
        vstd::bits::lemma_u64_shl_is_mul(b7, sh);
        let t = (b7 << sh) as u64;
        assert(t as nat == (b7 as nat) * p2);
        assert(acc <= u64::MAX - t);
        let acc2 = (acc + t) as u64;
        let v2 = (v / 128) as u64;
        let p2n = vstd::arithmetic::power2::pow2((7 * (i + 1)) as nat);
        vstd::arithmetic::power2::lemma_pow2_adds((7 * i) as nat, 7);
        assert(vstd::arithmetic::power2::pow2(7) == 128) by {
            vstd::arithmetic::power2::lemma2_to64();
        }
        assert(p2n == p2 * 128);
        assert((acc2 as nat) < p2n) by (nonlinear_arith)
            requires
                (acc as nat) < p2,
                t as nat == (b7 as nat) * p2,
                b7 < 128,
                acc2 as nat == acc as nat + t as nat,
                p2n == p2 * 128,
                p2 >= 1,
        ;
        assert(acc2 as nat + (v2 as nat) * p2n == acc as nat + (v as nat) * p2)
            by (nonlinear_arith)
            requires
                v as nat == 128 * ((v as nat) / 128) + (v as nat) % 128,
                v2 as nat == (v as nat) / 128,
                acc2 as nat == acc as nat + (b7 as nat) * p2,
                b7 as nat == (v as nat) % 128,
                p2n == p2 * 128,
        ;
        assert forall|j: int| 0 <= j < enc_varint(v2 as nat).len() implies s[(i + 1)
            + j] == enc_varint(v2 as nat)[j] by {
            assert(ev[1 + j] == enc_varint(v2 as nat)[j]);
            assert(s[i + (1 + j)] == ev[1 + j]);
            assert((i + 1) + j == i + (1 + j));
        }
        lemma_varint_rt_rec(v2, i + 1, acc2, s);
        assert(dm_varint(s, i, acc) == dm_varint(s, i + 1, acc2));
    }
}

/// Decoding the LEB128 bytes of `v` from the head of `s` gives `v`
/// back, consuming exactly the encoding.
pub proof fn lemma_varint_rt(v: u64, s: Seq<u8>)
    requires
        s.len() >= enc_varint(v as nat).len(),
        forall|j: int|
            0 <= j < enc_varint(v as nat).len() ==> s[j] == enc_varint(v as nat)[j],
    ensures
        dm_varint(s, 0, 0) == Option::Some((v, enc_varint(v as nat).len() as int)),
        1 <= enc_varint(v as nat).len() <= 10,
{
    assert((u64::MAX as nat) < vstd::arithmetic::power2::pow2(70)) by {
        vstd::arithmetic::power2::lemma_pow2_adds(64, 6);
        vstd::arithmetic::power2::lemma2_to64();
        assert(vstd::arithmetic::power2::pow2(70) == vstd::arithmetic::power2::pow2(64)
            * 64);
    }
    lemma_enc_varint_len(v as nat, 10);
    assert(vstd::arithmetic::power2::pow2(0) == 1) by {
        vstd::arithmetic::power2::lemma2_to64();
    }
    assert((v as nat) * 1 == v as nat) by (nonlinear_arith);
    lemma_varint_rt_rec(v, 0, 0, s);
}

proof fn lemma_pow256_values()
    ensures
        pow256(4) == 0x100000000,
        pow256(8) == 0x10000000000000000,
        pow256(12) == 0x1000000000000000000000000,
{
    reveal_with_fuel(pow256, 13);
}

/// Decoding the bytes of an encoded well formed model, followed by
/// anything, gives the model back and consumes exactly its encoding:
/// the binary round trip.
#[verifier::spinoff_prover]
#[verifier::rlimit(100)]
pub proof fn lemma_rt(m: VM, rest: Seq<u8>)
    requires
        m.wf(),
    ensures
        dm_val(encm(m) + rest) == Option::Some((m, encm(m).len() as int)),
    decreases m, 1int, 0int,
{
    lemma_pow256_values();
    let s = encm(m) + rest;
    let rest1 = s.skip(1);
    match m {
        VM::U32(x) => {
            lemma_enc_be_len(x as nat, 4);
            assert(rest1.take(4) =~= enc_be(x as nat, 4));
            lemma_be_roundtrip(x as nat, 4);
        },
        VM::V32(x) => {
            let ev = enc_varint(x as nat);
            assert(forall|j: int| 0 <= j < ev.len() ==> rest1[j] == ev[j]);
            lemma_varint_rt(x as u64, rest1);
        },
        VM::I32(x) => {
            lemma_enc_be_len((x as u32) as nat, 4);
            assert(rest1.take(4) =~= enc_be((x as u32) as nat, 4));
            lemma_be_roundtrip((x as u32) as nat, 4);
            assert(((x as u32) as i32) == x) by (bit_vector);
        },
        VM::Z32(x) => {
            let z = zigzag(x as int);
            assert(z < 0x100000000);
            let ev = enc_varint(z);
            assert(forall|j: int| 0 <= j < ev.len() ==> rest1[j] == ev[j]);
            lemma_varint_rt(z as u64, rest1);
            lemma_zigzag_roundtrip(x as int);
        },
        VM::U64(x) => {
            lemma_enc_be_len(x as nat, 8);
            assert(rest1.take(8) =~= enc_be(x as nat, 8));
            lemma_be_roundtrip(x as nat, 8);
        },
        VM::V64(x) => {
            let ev = enc_varint(x as nat);
            assert(forall|j: int| 0 <= j < ev.len() ==> rest1[j] == ev[j]);
            lemma_varint_rt(x, rest1);
        },
        VM::I64(x) => {
            lemma_enc_be_len((x as u64) as nat, 8);
            assert(rest1.take(8) =~= enc_be((x as u64) as nat, 8));
            lemma_be_roundtrip((x as u64) as nat, 8);
            assert(((x as u64) as i64) == x) by (bit_vector);
        },
        VM::Z64(x) => {
            let z = zigzag(x as int);
            assert(z <= u64::MAX as nat);
            let ev = enc_varint(z);
            assert(forall|j: int| 0 <= j < ev.len() ==> rest1[j] == ev[j]);
            lemma_varint_rt(z as u64, rest1);
            lemma_zigzag_roundtrip(x as int);
        },
        VM::F32(bits) => {
            lemma_enc_be_len(bits as nat, 4);
            assert(rest1.take(4) =~= enc_be(bits as nat, 4));
            lemma_be_roundtrip(bits as nat, 4);
        },
        VM::F64(bits) => {
            lemma_enc_be_len(bits as nat, 8);
            assert(rest1.take(8) =~= enc_be(bits as nat, 8));
            lemma_be_roundtrip(bits as nat, 8);
        },
        VM::DateTime(d) => {
            lemma_enc_be_len((d.secs as u64) as nat, 8);
            lemma_enc_be_len(d.nanos as nat, 4);
            assert(rest1.take(8) =~= enc_be((d.secs as u64) as nat, 8));
            assert(rest1.subrange(8, 12) =~= enc_be(d.nanos as nat, 4));
            lemma_be_roundtrip((d.secs as u64) as nat, 8);
            lemma_be_roundtrip(d.nanos as nat, 4);
            let x = d.secs;
            assert(((x as u64) as i64) == x) by (bit_vector);
        },
        VM::Duration(d) => {
            lemma_enc_be_len(d.secs as nat, 8);
            lemma_enc_be_len(d.nanos as nat, 4);
            assert(rest1.take(8) =~= enc_be(d.secs as nat, 8));
            assert(rest1.subrange(8, 12) =~= enc_be(d.nanos as nat, 4));
            lemma_be_roundtrip(d.secs as nat, 8);
            lemma_be_roundtrip(d.nanos as nat, 4);
        },
        VM::String(body) => {
            let n = body.len();
            let ev = enc_varint(n);
            assert(forall|j: int| 0 <= j < ev.len() ==> rest1[j] == ev[j]);
            lemma_varint_rt(n as u64, rest1);
            let c = ev.len() as int;
            assert(rest1.subrange(c, c + n as int) =~= body);
        },
        VM::Bytes(body) => {
            let n = body.len();
            let ev = enc_varint(n);
            assert(forall|j: int| 0 <= j < ev.len() ==> rest1[j] == ev[j]);
            lemma_varint_rt(n as u64, rest1);
            let c = ev.len() as int;
            assert(rest1.subrange(c, c + n as int) =~= body);
        },
        VM::True => {},
        VM::False => {},
        VM::Null => {},
        VM::Okay => {},
        VM::Error(body) => {
            let n = body.len();
            let ev = enc_varint(n);
            assert(forall|j: int| 0 <= j < ev.len() ==> rest1[j] == ev[j]);
            lemma_varint_rt(n as u64, rest1);
            let c = ev.len() as int;
            assert(rest1.subrange(c, c + n as int) =~= body);
        },
        VM::Array(elts) => {
            let n = elts.len();
            let ev = enc_varint(n);
            assert(forall|j: int| 0 <= j < ev.len() ==> rest1[j] == ev[j]);
            lemma_varint_rt(n as u64, rest1);
            let c = ev.len() as int;
            assert(s.skip(1 + c) =~= encm_list(elts, 0) + rest);
            lemma_rt_list(elts, 0, rest);
            assert(elts.skip(0) =~= elts);
        },
        VM::Decimal(d) => {
            lemma_enc_be_len(d.mant as nat, 12);
            assert(s[1] == d.scale as u8);
            assert(s[2] == if d.neg {
                1u8
            } else {
                0u8
            });
            assert(s.subrange(3, 15) =~= enc_be(d.mant as nat, 12));
            lemma_be_roundtrip(d.mant as nat, 12);
        },
    }
}

/// Decoding `n - i` models from the concatenated encodings of the
/// elements from `i` on gives those elements back.
pub proof fn lemma_rt_list(elts: Seq<VM>, i: int, rest: Seq<u8>)
    requires
        0 <= i <= elts.len(),
        elts.len() <= usize::MAX,
        forall|j: int| 0 <= j < elts.len() ==> (#[trigger] elts[j]).wf(),
    ensures
        dm_list(encm_list(elts, i) + rest, (elts.len() - i) as nat) == Option::Some(
            (elts.skip(i), encm_list(elts, i).len() as int),
        ),
    decreases elts, 0int, elts.len() - i,
{
    let s = encm_list(elts, i) + rest;
    if i == elts.len() {
        assert(encm_list(elts, i) =~= Seq::<u8>::empty());
        assert(elts.skip(i) =~= Seq::<VM>::empty());
    } else {
        let head = encm(elts[i]);
        let tail = encm_list(elts, i + 1);
        assert(s =~= head + (tail + rest));
        lemma_rt(elts[i], tail + rest);
        lemma_encm_len_pos(elts[i]);
        let c = head.len() as int;
        assert(s.skip(c) =~= tail + rest);
        lemma_rt_list(elts, i + 1, rest);
        assert(seq![elts[i]] + elts.skip(i + 1) =~= elts.skip(i));
    }
}

fn push_be(buf: &mut Vec<u8>, v: u128, n: usize)
    requires
        n <= 16,
    ensures
        final(buf)@ == old(buf)@ + enc_be(v as nat, n as nat),
    decreases n,
{
    if n == 0 {
        assert(buf@ =~= old(buf)@ + enc_be(v as nat, 0));
    } else {
        push_be(buf, v / 256, n - 1);
        buf.push((v % 256) as u8);
        assert(buf@ =~= old(buf)@ + enc_be(v as nat, n as nat));
    }
}

fn encode_varint(v: u64, buf: &mut Vec<u8>)
    ensures
        final(buf)@ == old(buf)@ + enc_varint(v as nat),
    decreases v,
{
    if v < 128 {
        buf.push(v as u8);
        assert(buf@ =~= old(buf)@ + enc_varint(v as nat));
    } else {
        buf.push((v % 128 + 128) as u8);
        let ghost mid = buf@;
        encode_varint(v / 128, buf);
        assert(buf@ =~= old(buf)@ + enc_varint(v as nat));
    }
}

fn encode_chars_body(c: &Chars, buf: &mut Vec<u8>)
    ensures
        final(buf)@ == old(buf)@ + enc_varint(c@.len()) + c@,
{
    encode_varint(c.len() as u64, buf);
    let ghost mid = buf@;
    let bytes = c.bytes();
    let mut k: usize = 0;
    while k < bytes.len()
        invariant
            0 <= k <= bytes@.len(),
            buf@ == mid + bytes@.take(k as int),
            bytes@ == c@,
            mid == old(buf)@ + enc_varint(c@.len()),
        decreases bytes@.len() - k,
    {
        buf.push(bytes[k]);
        k += 1;
        assert(buf@ =~= mid + bytes@.take(k as int));
    }
    assert(buf@ =~= old(buf)@ + enc_varint(c@.len()) + c@);
}

impl Value {
    /// Appends the binary encoding of the value to the buffer.
    pub fn encode(&self, buf: &mut Vec<u8>)
        ensures
            final(buf)@ == old(buf)@ + encm(self@),
        decreases self,
    {
        match self {
            Value::U32(x) => {
                buf.push(0);
                push_be(buf, *x as u128, 4);
                assert(buf@ =~= old(buf)@ + encm(self@));
            },
            Value::V32(x) => {
                buf.push(1);
                encode_varint(*x as u64, buf);
                assert(buf@ =~= old(buf)@ + encm(self@));
            },
            Value::I32(x) => {
                buf.push(2);
                push_be(buf, (*x as u32) as u128, 4);
                assert(buf@ =~= old(buf)@ + encm(self@));
            },
            Value::Z32(x) => {
                buf.push(3);
                let z: u64 = if *x >= 0 {
                    (*x as u64) * 2
                } else {
                    let m: u64 = (-((*x as i64) + 1)) as u64;
                    m * 2 + 1
                };
                assert(z as nat == zigzag(*x as int));
                encode_varint(z, buf);
                assert(buf@ =~= old(buf)@ + encm(self@));
            },
            Value::U64(x) => {
                buf.push(4);
                push_be(buf, *x as u128, 8);
                assert(buf@ =~= old(buf)@ + encm(self@));
            },
            Value::V64(x) => {
                buf.push(5);
                encode_varint(*x, buf);
                assert(buf@ =~= old(buf)@ + encm(self@));
            },
            Value::I64(x) => {
                buf.push(6);
                push_be(buf, (*x as u64) as u128, 8);
                assert(buf@ =~= old(buf)@ + encm(self@));
            },
            Value::Z64(x) => {
                buf.push(7);
                let z: u64 = if *x >= 0 {
                    (*x as u64) * 2
                } else {
                    let m: u64 = (-((*x as i128) + 1)) as u64;
                    if m <= (u64::MAX - 1) / 2 {
                        m * 2 + 1
                    } else {
                        u64::MAX
                    }
                };
                assert(z as nat == zigzag(*x as int)) by {
                    if *x < 0 {
                        assert((-((*x as i128) + 1)) as u64 <= (u64::MAX - 1) / 2);
                    }
                }
                encode_varint(z, buf);
                assert(buf@ =~= old(buf)@ + encm(self@));
            },
            Value::F32(bits) => {
                buf.push(8);
                push_be(buf, *bits as u128, 4);
                assert(buf@ =~= old(buf)@ + encm(self@));
            },
            Value::F64(bits) => {
                buf.push(9);
                push_be(buf, *bits as u128, 8);
                assert(buf@ =~= old(buf)@ + encm(self@));
            },
            Value::DateTime(d) => {
                buf.push(10);
                push_be(buf, (d.secs as u64) as u128, 8);
                push_be(buf, d.nanos as u128, 4);
                assert(buf@ =~= old(buf)@ + encm(self@));
            },
            Value::Duration(d) => {
                buf.push(11);
                push_be(buf, d.secs as u128, 8);
                push_be(buf, d.nanos as u128, 4);
                assert(buf@ =~= old(buf)@ + encm(self@));
            },
            Value::String(c) => {
                buf.push(12);
                encode_chars_body(c, buf);
                assert(buf@ =~= old(buf)@ + encm(self@));
            },
            Value::Bytes(b) => {
                buf.push(13);
                encode_varint(b.len() as u64, buf);
                let ghost mid = buf@;
                let mut k: usize = 0;
                while k < b.len()
                    invariant
                        0 <= k <= b@.len(),
                        buf@ == mid + b@.take(k as int),
                    decreases b@.len() - k,
                {
                    buf.push(b[k]);
                    k += 1;
                    assert(buf@ =~= mid + b@.take(k as int));
                }
                assert(b@.take(b@.len() as int) =~= b@);
                assert(buf@ =~= old(buf)@ + encm(self@));
            },
            Value::True => {
                buf.push(14);
                assert(buf@ =~= old(buf)@ + encm(self@));
            },
            Value::False => {
                buf.push(15);
                assert(buf@ =~= old(buf)@ + encm(self@));
            },
            Value::Null => {
                buf.push(16);
                assert(buf@ =~= old(buf)@ + encm(self@));
            },
            Value::Okay => {
                buf.push(17);
                assert(buf@ =~= old(buf)@ + encm(self@));
            },
            Value::Error(c) => {
                buf.push(18);
                encode_chars_body(c, buf);
                assert(buf@ =~= old(buf)@ + encm(self@));
            },
            Value::Array(elts) => {
                buf.push(19);
                encode_varint(elts.len() as u64, buf);
                encode_array(elts, buf);
                proof {
                    assert(self@ == VM::Array(crate::value::vms(*elts)));
                    assert(buf@ =~= old(buf)@ + encm(self@));
                }
            },
            Value::Decimal(d) => {
                buf.push(20);
                buf.push(d.scale as u8);
                buf.push(if d.neg {
                    1u8
                } else {
                    0u8
                });
                push_be(buf, d.mant, 12);
                assert(buf@ =~= old(buf)@ + encm(self@));
            },
        }
    }
}

fn encode_array(elts: &Vec<Value>, buf: &mut Vec<u8>)
    ensures
        final(buf)@ == old(buf)@ + encm_list(crate::value::vms(*elts), 0),
    decreases elts, 0int,
{
    let ghost model: Seq<VM> = crate::value::vms(*elts);
    let mut k: usize = 0;
    proof {
        lemma_encm_list_decompose(model, 0, 0);
        assert(encm_list(model, 0).take(
            encm_list(model, 0).len() - encm_list(model, 0).len(),
        ) =~= Seq::<u8>::empty());
        assert(buf@ =~= buf@ + encm_list(model, 0).take(
            encm_list(model, 0).len() - encm_list(model, 0).len(),
        ));
    }
    while k < elts.len()
        invariant
            0 <= k <= elts@.len(),
            model == crate::value::vms(*elts),
            model.len() == elts@.len(),
            encm_list(model, k as int).len() <= encm_list(model, 0).len(),
            buf@ == old(buf)@ + encm_list(model, 0).take(
                encm_list(model, 0).len() - encm_list(model, k as int).len(),
            ),
        decreases elts@.len() - k,
    {
        elts[k].encode(buf);
        k += 1;
        proof {
            lemma_encm_list_prefix(model, k - 1);
            assert(model[k - 1] == elts@[k - 1]@);
            assert(buf@ =~= old(buf)@ + encm_list(model, 0).take(
                encm_list(model, 0).len() - encm_list(model, k as int).len(),
            ));
        }
    }
    proof {
        assert(encm_list(model, k as int).len() == 0);
        assert(encm_list(model, 0).take(encm_list(model, 0).len() as int) =~= encm_list(
            model,
            0,
        ));
    }
}

/// Splitting a concatenated element encoding at one element.
proof fn lemma_encm_list_prefix(model: Seq<VM>, i: int)
    requires
        0 <= i < model.len(),
    ensures
        encm_list(model, i) == encm(model[i]) + encm_list(model, i + 1),
        encm_list(model, i).len() >= encm_list(model, i + 1).len(),
        encm_list(model, 0).len() - encm_list(model, i as int).len() + encm(
            model[i],
        ).len() == encm_list(model, 0).len() - encm_list(model, i + 1).len(),
        encm_list(model, 0).take(
            encm_list(model, 0).len() - encm_list(model, i + 1).len(),
        ) == encm_list(model, 0).take(
            encm_list(model, 0).len() - encm_list(model, i).len(),
        ) + encm(model[i]),
    decreases i + 1,
{
    lemma_encm_list_decompose(model, 0, i);
    lemma_encm_list_decompose(model, 0, i + 1);
    assert(encm_list(model, 0).take(
        encm_list(model, 0).len() - encm_list(model, i + 1).len(),
    ) =~= encm_list(model, 0).take(
        encm_list(model, 0).len() - encm_list(model, i).len(),
    ) + encm(model[i]));
}

/// The whole concatenation is the part before `j` plus the part after.
proof fn lemma_encm_list_decompose(model: Seq<VM>, i: int, j: int)
    requires
        0 <= i <= j <= model.len(),
    ensures
        encm_list(model, i).len() >= encm_list(model, j).len(),
        encm_list(model, i) == encm_list(model, i).take(
            encm_list(model, i).len() - encm_list(model, j).len(),
        ) + encm_list(model, j),
    decreases j - i,
{
    if i == j {
        assert(encm_list(model, i) =~= encm_list(model, i).take(
            encm_list(model, i).len() - encm_list(model, j).len(),
        ) + encm_list(model, j));
    } else {
        lemma_encm_list_decompose(model, i + 1, j);
        assert(encm_list(model, i) =~= encm_list(model, i).take(
            encm_list(model, i).len() - encm_list(model, j).len(),
        ) + encm_list(model, j));
    }
}

fn read_be(buf: &Vec<u8>, pos: usize, n: usize) -> (r: u128)
    requires
        pos + n <= buf@.len(),
        n <= 16,
    ensures
        r == dec_be(buf@.subrange(pos as int, pos as int + n as int)),
        r < pow256(n as nat),
{
    proof {
        lemma_pow256_16();
    }
    let blen: usize = buf.len();
    let mut acc: u128 = 0;
    let mut k: usize = 0;
    proof {
        assert(buf@.subrange(pos as int, pos as int) =~= Seq::<u8>::empty());
    }
    while k < n
        invariant
            0 <= k <= n,
            n <= 16,
            blen == buf@.len(),
            pos + n <= blen,
            acc == dec_be(buf@.subrange(pos as int, pos as int + k as int)),
            acc < pow256(k as nat),
            pow256(16) == 0x100000000000000000000000000000000,
        decreases n - k,
    {
        proof {
            lemma_pow256_le(k as nat, 15);
            let sub = buf@.subrange(pos as int, pos as int + k as int + 1);
            assert(sub.drop_last() =~= buf@.subrange(pos as int, pos as int + k as int));
            assert(acc * 256 + buf@[pos as int + k as int] < 256 * pow256(k as nat))
                by (nonlinear_arith)
                requires
                    acc < pow256(k as nat),
                    buf@[pos as int + k as int] < 256,
            ;
            lemma_pow256_le((k + 1) as nat, 16);
        }
        assert(pos + k < buf@.len());
        acc = acc * 256 + (buf[pos + k] as u128);
        k += 1;
    }
    acc
}

proof fn lemma_pow256_16()
    ensures
        pow256(16) == 0x100000000000000000000000000000000,
{
    reveal_with_fuel(pow256, 17);
}

proof fn lemma_pow256_le(a: nat, b: nat)
    requires
        a <= b,
    ensures
        pow256(a) <= pow256(b),
    decreases b,
{
    if a < b {
        lemma_pow256_le(a, (b - 1) as nat);
        lemma_pow256_pos((b - 1) as nat);
    }
}

proof fn lemma_pow256_pos(n: nat)
    ensures
        pow256(n) >= 1,
    decreases n,
{
    if n > 0 {
        lemma_pow256_pos((n - 1) as nat);
    }
}

fn decode_varint(buf: &Vec<u8>, pos: usize) -> (r: Result<(u64, usize), PackError>)
    requires
        pos <= buf@.len(),
    ensures
        (match r {
            Result::Ok((v, c)) => dm_varint(buf@.skip(pos as int), 0, 0) == Option::Some(
                (v, c as int),
            ) && 1 <= c && pos + c <= buf@.len(),
            Result::Err(_) => dm_varint(buf@.skip(pos as int), 0, 0) is None,
        }),
{
    let ghost s = buf@.skip(pos as int);
    let mut i: usize = 0;
    let mut acc: u64 = 0;
    loop
        invariant
            0 <= i <= 10,
            pos + i <= buf@.len() || dm_varint(s, 0, 0) == dm_varint(s, i as int, acc),
            pos <= buf@.len(),
            s == buf@.skip(pos as int),
            dm_varint(s, 0, 0) == dm_varint(s, i as int, acc),
        decreases 10 - i,
    {
        if i >= 10 || i >= buf.len() - pos {
            return Result::Err(PackError::TooShort);
        }
        let b = buf[pos + i];
        assert(s[i as int] == b);
        let b7: u64 = (b % 128) as u64;
        let sh: u64 = 7 * (i as u64);
        if b7 > (u64::MAX >> sh) {
            return Result::Err(PackError::InvalidFormat);
        }
        let t: u64 = b7 << sh;
        if acc > u64::MAX - t {
            return Result::Err(PackError::InvalidFormat);
        }
        if b < 128 {
            return Result::Ok((acc + t, i + 1));
        }
        acc = acc + t;
        i = i + 1;
    }
}

impl Value {
    /// Decodes one value starting at `pos`; on success also the
    /// position just past it. The decoded value is well formed, and
    /// its model and the bytes consumed are exactly what the
    /// mathematical decoder gives.
    #[verifier::spinoff_prover]
    #[verifier::rlimit(100)]
    pub fn decode(buf: &Vec<u8>, pos: usize) -> (r: Result<(Value, usize), PackError>)
        requires
            pos <= buf@.len(),
        ensures
            (match r {
                Result::Ok((v, np)) => {
                    &&& dm_val(buf@.skip(pos as int)) == Option::Some(
                        (v@, np - pos as int),
                    )
                    &&& pos < np <= buf@.len()
                    &&& v.wf()
                    &&& v@.wf()
                },
                Result::Err(_) => dm_val(buf@.skip(pos as int)) is None,
            }),
        decreases buf@.len() - pos, 0int,
    {
        let ghost s = buf@.skip(pos as int);
        if pos >= buf.len() {
            return Result::Err(PackError::TooShort);
        }
        let tag = buf[pos];
        assert(s[0] == tag);
        let ghost rest1 = s.skip(1);
        assert(forall|j: int| 0 <= j < rest1.len() ==> rest1[j] == buf@[pos + 1 + j]);
        if tag == 0 || tag == 2 || tag == 8 {
            if buf.len() - pos < 5 {
                return Result::Err(PackError::TooShort);
            }
            let x = read_be(buf, pos + 1, 4) as u64;
            proof {
                assert(rest1.take(4) =~= buf@.subrange(pos as int + 1, pos as int + 5));
                lemma_pow256_le(4, 16);
                reveal_with_fuel(pow256, 5);
            }
            let v = if tag == 0 {
                Value::U32(x as u32)
            } else if tag == 2 {
                Value::I32((x as u32) as i32)
            } else {
                Value::F32(x as u32)
            };
            Result::Ok((v, pos + 5))
        } else if tag == 4 || tag == 6 || tag == 9 {
            if buf.len() - pos < 9 {
                return Result::Err(PackError::TooShort);
            }
            let x = read_be(buf, pos + 1, 8) as u64;
            proof {
                assert(rest1.take(8) =~= buf@.subrange(pos as int + 1, pos as int + 9));
                reveal_with_fuel(pow256, 9);
            }
            let v = if tag == 4 {
                Value::U64(x)
            } else if tag == 6 {
                Value::I64(x as i64)
            } else {
                Value::F64(x)
            };
            Result::Ok((v, pos + 9))
        } else if tag == 1 || tag == 5 {
            match decode_varint(buf, pos + 1) {
                Result::Ok((x, c)) => {
                    proof {
                        assert(rest1 =~= buf@.skip(pos as int + 1));
                    }
                    let v = if tag == 1 {
                        Value::V32(x as u32)
                    } else {
                        Value::V64(x)
                    };
                    Result::Ok((v, pos + 1 + c))
                },
                Result::Err(e) => {
                    proof {
                        assert(rest1 =~= buf@.skip(pos as int + 1));
                    }
                    Result::Err(e)
                },
            }
        } else if tag == 3 || tag == 7 {
            match decode_varint(buf, pos + 1) {
                Result::Ok((x, c)) => {
                    proof {
                        assert(rest1 =~= buf@.skip(pos as int + 1));
                    }
                    if tag == 3 {
                        let z = x as u32;
                        let y: i32 = if z % 2 == 0 {
                            (z / 2) as i32
                        } else {
                            (-(((z - 1) / 2) as i64) - 1) as i32
                        };
                        assert(y as int == unzigzag((x as u32) as nat)) by {
                            let zn = (x as u32) as nat;
                            if zn % 2 != 0 {
                                assert(-((zn as int + 1)) / 2 == -(((zn - 1) as int) / 2)
                                    - 1) by (nonlinear_arith)
                                    requires
                                        zn % 2 == 1,
                                ;
                            }
                        }
                        Result::Ok((Value::Z32(y), pos + 1 + c))
                    } else {
                        let y: i64 = if x % 2 == 0 {
                            (x / 2) as i64
                        } else {
                            (-(((x - 1) / 2) as i128) - 1) as i64
                        };
                        assert(y as int == unzigzag(x as nat)) by {
                            let zn = x as nat;
                            if zn % 2 != 0 {
                                assert(-((zn as int + 1)) / 2 == -(((zn - 1) as int) / 2)
                                    - 1) by (nonlinear_arith)
                                    requires
                                        zn % 2 == 1,
                                ;
                            }
                        }
                        Result::Ok((Value::Z64(y), pos + 1 + c))
                    }
                },
                Result::Err(e) => {
                    proof {
                        assert(rest1 =~= buf@.skip(pos as int + 1));
                    }
                    Result::Err(e)
                },
            }
        } else if tag == 10 || tag == 11 {
            if buf.len() - pos < 13 {
                return Result::Err(PackError::TooShort);
            }
            let secs = read_be(buf, pos + 1, 8) as u64;
            let nanos = read_be(buf, pos + 9, 4) as u32;
            proof {
                assert(rest1.take(8) =~= buf@.subrange(pos as int + 1, pos as int + 9));
                assert(rest1.subrange(8, 12) =~= buf@.subrange(
                    pos as int + 9,
                    pos as int + 13,
                ));
                reveal_with_fuel(pow256, 9);
            }
            if nanos >= NANOS_PER_SEC {
                return Result::Err(PackError::InvalidFormat);
            }
            let v = if tag == 10 {
                Value::DateTime(DT { secs: secs as i64, nanos })
            } else {
                Value::Duration(Dur { secs, nanos })
            };
            Result::Ok((v, pos + 13))
        } else if tag == 12 || tag == 13 || tag == 18 {
            match decode_varint(buf, pos + 1) {
                Result::Ok((x, c)) => {
                    proof {
                        assert(rest1 =~= buf@.skip(pos as int + 1));
                    }
                    if x > (buf.len() - pos - 1 - c) as u64 {
                        return Result::Err(PackError::TooShort);
                    }
                    let l = x as usize;
                    let start = pos + 1 + c;
                    let blen: usize = buf.len();
                    let mut body: Vec<u8> = Vec::new();
                    let mut k: usize = 0;
                    while k < l
                        invariant
                            0 <= k <= l,
                            blen == buf@.len(),
                            start + l <= blen,
                            body@ == buf@.subrange(start as int, start as int + k as int),
                        decreases l - k,
                    {
                        assert(start + k < buf@.len());
                        body.push(buf[start + k]);
                        k += 1;
                        assert(body@ =~= buf@.subrange(
                            start as int,
                            start as int + k as int,
                        ));
                    }
                    proof {
                        assert(body@ =~= rest1.subrange(c as int, c as int + x as int));
                    }
                    if tag == 13 {
                        Result::Ok((Value::Bytes(body), start + l))
                    } else {
                        match Chars::from_bytes(body) {
                            Option::Some(ch) => {
                                if tag == 12 {
                                    Result::Ok((Value::String(ch), start + l))
                                } else {
                                    Result::Ok((Value::Error(ch), start + l))
                                }
                            },
                            Option::None => Result::Err(PackError::InvalidFormat),
                        }
                    }
                },
                Result::Err(e) => {
                    proof {
                        assert(rest1 =~= buf@.skip(pos as int + 1));
                    }
                    Result::Err(e)
                },
            }
        } else if tag == 14 {
            Result::Ok((Value::True, pos + 1))
        } else if tag == 15 {
            Result::Ok((Value::False, pos + 1))
        } else if tag == 16 {
            Result::Ok((Value::Null, pos + 1))
        } else if tag == 17 {
            Result::Ok((Value::Okay, pos + 1))
        } else if tag == 19 {
            match decode_varint(buf, pos + 1) {
                Result::Ok((x, c)) => {
                    proof {
                        assert(rest1 =~= buf@.skip(pos as int + 1));
                    }
                    match decode_list(buf, pos + 1 + c, x) {
                        Result::Ok((elts, np)) => {
                            let elen = elts.len();
                            proof {
                                assert(buf@.skip((pos + 1 + c) as int) =~= s.skip(
                                    1 + c as int,
                                ));
                                assert(1 + c as int <= s.len());
                                let m = crate::value::vms(elts);
                                assert(m.len() == elen as int);
                                assert(forall|j: int|
                                    0 <= j < m.len() ==> (#[trigger] m[j]) == elts@[j]@);
                                assert(forall|j: int|
                                    0 <= j < m.len() ==> (#[trigger] m[j]).wf());
                                assert((Value::Array(elts))@ == VM::Array(m));
                                assert((Value::Array(elts))@.wf());
                                assert(dm_val(s) == Option::Some(
                                    (VM::Array(m), np - pos as int),
                                ));
                            }
                            Result::Ok((Value::Array(elts), np))
                        },
                        Result::Err(e) => {
                            proof {
                                assert(buf@.skip((pos + 1 + c) as int) =~= s.skip(
                                    1 + c as int,
                                ));
                            }
                            Result::Err(e)
                        },
                    }
                },
                Result::Err(e) => {
                    proof {
                        assert(rest1 =~= buf@.skip(pos as int + 1));
                    }
                    Result::Err(e)
                },
            }
        } else if tag == 20 {
            if buf.len() - pos < 15 {
                return Result::Err(PackError::TooShort);
            }
            let scale = buf[pos + 1];
            let signb = buf[pos + 2];
            assert(s[1] == scale && s[2] == signb);
            if scale > 28 || signb > 1 {
                return Result::Err(PackError::InvalidFormat);
            }
            let mant = read_be(buf, pos + 3, 12);
            proof {
                assert(s.subrange(3, 15) =~= buf@.subrange(pos as int + 3, pos as int + 15));
                reveal_with_fuel(pow256, 13);
            }
            Result::Ok(
                (
                    Value::Decimal(Dec { neg: signb == 1, mant, scale: scale as u32 }),
                    pos + 15,
                ),
            )
        } else {
            Result::Err(PackError::UnknownTag)
        }
    }
}


/// Decodes `n` consecutive values starting at `pos`, as an array body.
fn decode_list(buf: &Vec<u8>, pos: usize, n: u64) -> (r: Result<(Vec<Value>, usize), PackError>)
    requires
        pos <= buf@.len(),
    ensures
        (match r {
            Result::Ok((elts, np)) => {
                &&& dm_list(buf@.skip(pos as int), n as nat) == Option::Some(
                    (crate::value::vms(elts), np - pos as int),
                )
                &&& pos <= np <= buf@.len()
                &&& elts@.len() == n
                &&& forall|j: int| 0 <= j < elts@.len() ==> (#[trigger] elts@[j]).wf()
                &&& forall|j: int| 0 <= j < elts@.len() ==> (#[trigger] elts@[j])@.wf()
            },
            Result::Err(_) => dm_list(buf@.skip(pos as int), n as nat) is None,
        }),
    decreases buf@.len() - pos, 1int,
{
    let mut elts: Vec<Value> = Vec::new();
    let mut k: u64 = 0;
    let mut cur: usize = pos;
    proof {
        assert(crate::value::vms(elts) =~= Seq::<VM>::empty());
    }
    while k < n
        invariant
            0 <= k <= n,
            pos <= cur <= buf@.len(),
            elts@.len() == k,
            forall|j: int| 0 <= j < k ==> (#[trigger] elts@[j]).wf(),
            forall|j: int| 0 <= j < k ==> (#[trigger] elts@[j])@.wf(),
            (match dm_list(buf@.skip(cur as int), (n - k) as nat) {
                Option::Some(t2) => dm_list(buf@.skip(pos as int), n as nat)
                    == Option::Some(
                    (crate::value::vms(elts) + t2.0, cur - pos as int + t2.1),
                ),
                Option::None => dm_list(buf@.skip(pos as int), n as nat) is None,
            }),
        decreases n - k,
    {
        let ghost elts_before = elts;
        let ghost cur_before = cur;
        match Value::decode(buf, cur) {
            Result::Ok((v, np)) => {
                proof {
                    assert(buf@.skip(cur as int).skip(np - cur as int) =~= buf@.skip(
                        np as int,
                    ));
                }
                elts.push(v);
                cur = np;
                k = k + 1;
                proof {
                    assert(crate::value::vms(elts) =~= crate::value::vms(elts_before)
                        + seq![v@]);
                    let srem = buf@.skip(cur_before as int);
                    assert(dm_list(srem, (n - k + 1) as nat) == (match dm_list(
                        buf@.skip(cur as int),
                        (n - k) as nat,
                    ) {
                        Option::Some((tail, c2)) => Option::Some(
                            (seq![v@] + tail, (np - cur_before as int) + c2),
                        ),
                        Option::None => Option::None::<(Seq<VM>, int)>,
                    }));
                    match dm_list(buf@.skip(cur as int), (n - k) as nat) {
                        Option::Some((tail, c2)) => {
                            assert((crate::value::vms(elts_before) + seq![v@]) + tail
                                =~= crate::value::vms(elts_before) + (seq![v@] + tail));
                        },
                        Option::None => {},
                    }
                }
            },
            Result::Err(e) => {
                proof {
                    assert(dm_list(buf@.skip(cur as int), (n - k) as nat) is None);
                }
                return Result::Err(e);
            },
        }
    }
    proof {
        assert(dm_list(buf@.skip(cur as int), 0) == Option::Some((Seq::<VM>::empty(), 0int)));
        assert(crate::value::vms(elts) + Seq::<VM>::empty() =~= crate::value::vms(elts));
    }
    Result::Ok((elts, cur))
}

/// The first byte of any encoding is its tag, at most 20: the two high
/// bits stay clear for wrapper types.
pub proof fn lemma_encm_tag(m: VM)
    ensures
        encm(m).len() >= 1,
        encm(m)[0] <= 20,
{
    lemma_encm_len_pos(m);
    match m {
        VM::U32(_) => {},
        VM::V32(_) => {},
        VM::I32(_) => {},
        VM::Z32(_) => {},
        VM::U64(_) => {},
        VM::V64(_) => {},
        VM::I64(_) => {},
        VM::Z64(_) => {},
        VM::F32(_) => {},
        VM::F64(_) => {},
        VM::DateTime(_) => {},
        VM::Duration(_) => {},
        VM::String(_) => {},
        VM::Bytes(_) => {},
        VM::True => {},
        VM::False => {},
        VM::Null => {},
        VM::Okay => {},
        VM::Error(_) => {},
        VM::Array(_) => {},
        VM::Decimal(_) => {},
    }
}

} // verus!

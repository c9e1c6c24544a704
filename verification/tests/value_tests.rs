//! Tests of the value model: the binary codec round trip, the total
//! order, equality, and the plain-value conversions.
use netidx::chars::Chars;
use netidx::dec::{dec_normalize, dec_parse, dec_to_text, Dec};
use netidx::num;
use netidx::time::{dt_parse, DT, Dur};
use netidx::value::{Typ, Value};

fn enc(v: &Value) -> Vec<u8> {
    let mut buf = Vec::new();
    v.encode(&mut buf);
    buf
}

fn round_trip(v: Value) {
    let buf = enc(&v);
    let (w, used) = Value::decode(&buf, 0).expect("decode");
    assert_eq!(used, buf.len());
    assert!(w.eq_val(&v), "decoded value differs");
}

#[test]
fn value_round_trip_scalars() {
    round_trip(Value::U32(0));
    round_trip(Value::U32(u32::MAX));
    round_trip(Value::V32(300));
    round_trip(Value::I32(-1));
    round_trip(Value::Z32(i32::MIN));
    round_trip(Value::U64(u64::MAX));
    round_trip(Value::V64(1 << 60));
    round_trip(Value::I64(i64::MIN));
    round_trip(Value::Z64(-1));
    round_trip(Value::F32(1.5f32.to_bits()));
    round_trip(Value::F64(f64::NAN.to_bits()));
    round_trip(Value::F64((-0.0f64).to_bits()));
    round_trip(Value::True);
    round_trip(Value::False);
    round_trip(Value::Null);
    round_trip(Value::Okay);
    round_trip(Value::String(Chars::from_str("hello world")));
    round_trip(Value::Error(Chars::from_str("oops")));
    round_trip(Value::Bytes(vec![0, 1, 2, 255]));
    round_trip(Value::DateTime(DT { secs: 1431648000, nanos: 123456789 }));
    round_trip(Value::Duration(Dur { secs: 3, nanos: 500_000_000 }));
    round_trip(Value::Decimal(Dec { neg: true, mant: 12345, scale: 3 }));
}

#[test]
fn value_round_trip_nested_arrays() {
    let inner = Value::Array(vec![Value::U64(1), Value::String(Chars::from_str("x"))]);
    let outer = Value::Array(vec![
        inner,
        Value::Array(vec![]),
        Value::F64(2.5f64.to_bits()),
        Value::Null,
    ]);
    round_trip(outer);
}

#[test]
fn decode_rejects_malformed() {
    // unknown tag
    assert!(Value::decode(&vec![99u8], 0).is_err());
    // truncated fixed-width payload
    assert!(Value::decode(&vec![0u8, 1, 2], 0).is_err());
    // string length runs past the end
    assert!(Value::decode(&vec![12u8, 10, 65], 0).is_err());
    // invalid utf-8 in a string
    assert!(Value::decode(&vec![12u8, 1, 0xFF], 0).is_err());
    // bad nanoseconds in a timestamp
    let mut b = vec![10u8];
    b.extend_from_slice(&0u64.to_be_bytes());
    b.extend_from_slice(&2_000_000_000u32.to_be_bytes());
    assert!(Value::decode(&b, 0).is_err());
}

#[test]
fn nan_equals_nan_and_zeros_coincide() {
    let a = Value::F64(f64::NAN.to_bits());
    let b = Value::F64((f64::NAN * 2.0).to_bits());
    assert!(a.eq_val(&b));
    let z = Value::F64(0.0f64.to_bits());
    let nz = Value::F64((-0.0f64).to_bits());
    assert!(z.eq_val(&nz));
    // NaN sorts below every other float
    let one = Value::F64(1.0f64.to_bits());
    assert_eq!(a.cmp_val(&one), std::cmp::Ordering::Less);
}

#[test]
fn cross_kind_numeric_equality() {
    // same number under different tags compares equal
    assert!(Value::U32(5).eq_val(&Value::U64(5)));
    assert!(Value::U32(5).eq_val(&Value::I64(5)));
    assert!(Value::True.eq_val(&Value::U32(1)));
    assert!(Value::Okay.eq_val(&Value::U32(1)));
    assert!(Value::False.eq_val(&Value::U32(0)));
    assert!(Value::Decimal(Dec { neg: false, mant: 5, scale: 0 }).eq_val(&Value::U32(5)));
    assert!(!Value::U32(5).eq_val(&Value::U32(6)));
    assert_eq!(
        Value::I64(-1).cmp_val(&Value::U64(0)),
        std::cmp::Ordering::Less
    );
}

#[test]
fn ordering_is_total_on_samples() {
    let samples = vec![
        Value::U32(1),
        Value::F64(f64::NAN.to_bits()),
        Value::Null,
        Value::String(Chars::from_str("a")),
        Value::Array(vec![Value::U32(1)]),
        Value::Error(Chars::from_str("e")),
        Value::True,
    ];
    for a in &samples {
        for b in &samples {
            let ab = a.cmp_val(b);
            let ba = b.cmp_val(a);
            // exactly one of <, ==, > holds, consistently both ways
            assert_eq!(a.eq_val(b), ab == std::cmp::Ordering::Equal);
            if ab == std::cmp::Ordering::Equal {
                assert_eq!(ba, std::cmp::Ordering::Equal);
            } else {
                assert_ne!(ab, ba);
            }
        }
        assert!(a.eq_val(a), "a value equals itself");
    }
}

#[test]
fn typ_of_values() {
    assert_eq!(Typ::get(&Value::U32(1)), Typ::U32);
    assert_eq!(Typ::get(&Value::Okay), Typ::Result);
    assert_eq!(Typ::get(&Value::Error(Chars::from_str("x"))), Typ::Result);
    assert_eq!(Typ::get(&Value::True), Typ::Bool);
    assert!(Typ::U32.number());
    assert!(Typ::U32.integer());
    assert!(Typ::U32.unsigned_integer());
    assert!(!Typ::U32.signed_integer());
    assert!(Typ::Z64.signed_integer());
    assert!(Typ::F32.float());
    assert!(!Typ::String.number());
    assert_eq!(Typ::all().len(), 19);
    assert_eq!(Typ::F64.name(), "f64");
}

#[test]
fn decimal_rational_comparison_and_normal_form() {
    let a = Dec { neg: false, mant: 10, scale: 1 }; // 1.0
    let b = Dec { neg: false, mant: 1, scale: 0 }; // 1
    assert_eq!(netidx::dec::dec_cmp(&a, &b), std::cmp::Ordering::Equal);
    let c = Dec { neg: true, mant: 5, scale: 1 }; // -0.5
    assert_eq!(netidx::dec::dec_cmp(&c, &b), std::cmp::Ordering::Less);
    let n = dec_normalize(&a);
    assert_eq!(n, b);
    // parsing through the decimal crate and printing back
    let d = dec_parse("3.141").expect("parse decimal");
    assert_eq!(d.mant, 3141);
    assert_eq!(d.scale, 3);
    assert!(!d.neg);
    assert_eq!(dec_to_text(&d), "3.141");
}

#[test]
fn float_conversions_match_the_platform() {
    assert_eq!(num::u64_to_f64_bits(5), 5.0f64.to_bits());
    assert_eq!(num::i64_to_f64_bits(-3), (-3.0f64).to_bits());
    assert_eq!(num::f32_widen(1.5f32.to_bits()), 1.5f64.to_bits());
    assert_eq!(num::f32_widen((-0.0f32).to_bits()), (-0.0f64).to_bits());
    // a subnormal single widens exactly
    let sub = f32::from_bits(1);
    assert_eq!(num::f32_widen(1), (sub as f64).to_bits());
    // NaN widens to NaN
    assert!(f64::from_bits(num::f32_widen(f32::NAN.to_bits())).is_nan());
}

#[test]
fn datetime_text_parses() {
    let d = dt_parse("2012-12-12T12:12:12Z").expect("parse datetime");
    assert_eq!(d.nanos, 0);
    assert_eq!(d.secs, 1355314332);
    assert!(dt_parse("not a datetime").is_none());
}

#[test]
fn duration_arithmetic_carries_nanoseconds() {
    let a = Dur { secs: 1, nanos: 700_000_000 };
    let b = Dur { secs: 2, nanos: 600_000_000 };
    let s = netidx::time::dur_add(&a, &b).expect("sum");
    assert_eq!(s, Dur { secs: 4, nanos: 300_000_000 });
    let d = netidx::time::dur_sub(&s, &a).expect("difference");
    assert_eq!(d, b);
    let h = netidx::time::dur_div_u32(&b, 2).expect("half");
    assert_eq!(h, Dur { secs: 1, nanos: 300_000_000 });
    assert!(netidx::time::dur_div_u32(&b, 0).is_none());
}

#[test]
fn chars_validates_utf8() {
    let good = Chars::from_bytes(vec![104, 105]).expect("ascii is utf8");
    assert_eq!(good.len(), 2);
    assert_eq!(good.as_text().expect("text"), "hi");
    assert!(Chars::from_bytes(vec![0xFF, 0xFE]).is_none());
}

#[test]
fn event_codec_round_trip() {
    let mut buf = Vec::new();
    netidx::event::Event::Unsubscribed.encode(&mut buf);
    netidx::event::Event::Update(Value::U64(7)).encode(&mut buf);
    let (e1, p1) = netidx::event::Event::decode(&buf, 0).expect("first");
    assert!(matches!(e1, netidx::event::Event::Unsubscribed));
    let (e2, p2) = netidx::event::Event::decode(&buf, p1).expect("second");
    assert_eq!(p2, buf.len());
    match e2 {
        netidx::event::Event::Update(v) => assert!(v.eq_val(&Value::U64(7))),
        _ => panic!("expected an update"),
    }
}

#[test]
fn hashes_are_coherent_with_numeric_equality() {
    // equal values of unlike kinds hash alike, NaNs and zeros included
    let h = 1469598103934665603u64;
    let a = Value::U32(5).hash64(h);
    assert_eq!(Value::U64(5).hash64(h), a);
    assert_eq!(Value::I64(5).hash64(h), a);
    assert_eq!(Value::True.hash64(h), Value::U32(1).hash64(h));
    assert_eq!(
        Value::F64(f64::NAN.to_bits()).hash64(h),
        Value::F64((f64::NAN * 3.0).to_bits()).hash64(h)
    );
    assert_eq!(
        Value::F64(0.0f64.to_bits()).hash64(h),
        Value::F64((-0.0f64).to_bits()).hash64(h)
    );
    // different values hash apart (with overwhelming likelihood)
    assert_ne!(Value::U32(5).hash64(h), Value::U32(6).hash64(h));
    assert_ne!(
        Value::String(Chars::from_str("a")).hash64(h),
        Value::String(Chars::from_str("b")).hash64(h)
    );
    // structure reaches the hash: nested arrays and strings
    let arr = Value::Array(vec![Value::U32(1), Value::String(Chars::from_str("x"))]);
    let arr2 = Value::Array(vec![Value::U32(1), Value::String(Chars::from_str("y"))]);
    assert_ne!(arr.hash64(h), arr2.hash64(h));
}

#[test]
fn cross_kind_order_is_consistent_with_image_equality() {
    // a boolean equal to a number sorts as that number does against
    // every other kind
    let one = Value::U32(1);
    let t = Value::True;
    let d = Value::DateTime(DT { secs: 0, nanos: 0 });
    assert!(one.eq_val(&t));
    assert_eq!(one.cmp_val(&d), t.cmp_val(&d));
    assert_eq!(d.cmp_val(&one), d.cmp_val(&t));
    // null below everything, errors below arrays, arrays below numbers
    assert_eq!(
        Value::Null.cmp_val(&Value::Error(Chars::from_str("e"))),
        std::cmp::Ordering::Less
    );
    assert_eq!(
        Value::Error(Chars::from_str("e")).cmp_val(&Value::Array(vec![])),
        std::cmp::Ordering::Less
    );
    assert_eq!(
        Value::Array(vec![]).cmp_val(&Value::U32(0)),
        std::cmp::Ordering::Less
    );
}

#[test]
fn equal_decimals_of_unlike_scale_hash_alike() {
    let h = 1469598103934665603u64;
    let a = Value::Decimal(Dec { neg: false, mant: 10, scale: 1 }); // 1.0
    let b = Value::Decimal(Dec { neg: false, mant: 1, scale: 0 }); // 1
    assert!(a.eq_val(&b));
    assert_eq!(a.hash64(h), b.hash64(h));
    let c = Value::Decimal(Dec { neg: false, mant: 2, scale: 0 });
    assert_ne!(a.hash64(h), c.hash64(h));
}

#[test]
fn state_text_ignores_case_and_whitespace() {
    assert_eq!(
        netidx::replay::State::from_text("  PAUSE  "),
        Some(netidx::replay::State::Pause)
    );
    assert_eq!(
        netidx::replay::State::from_text("Play"),
        Some(netidx::replay::State::Play)
    );
    assert_eq!(
        netidx::replay::State::from_text("\ttail\n"),
        Some(netidx::replay::State::Tail)
    );
    assert_eq!(netidx::replay::State::from_text("paused"), None);
}

#[test]
fn negative_zero_decimal_prints_unsigned() {
    // the sign of a zero mantissa is not representable downstream, so
    // printing loses it; the contract promises the round trip only for
    // a non-zero mantissa
    let z = Dec { neg: true, mant: 0, scale: 0 };
    assert_eq!(dec_to_text(&z), "0");
    let p = dec_parse("0").expect("parse zero");
    assert!(!p.neg);
}

#[test]
fn instant_arithmetic_success_is_exact() {
    let a = DT { secs: i64::MAX, nanos: 999_999_999 };
    let one = Dur { secs: 1, nanos: 0 };
    assert!(netidx::time::dt_add_dur(&a, &one).is_none());
    let b = DT { secs: 0, nanos: 0 };
    let r = netidx::time::dt_add_dur(&b, &one).expect("fits");
    assert_eq!(r, DT { secs: 1, nanos: 0 });
    assert!(netidx::time::dt_sub_dur(&DT { secs: i64::MIN, nanos: 0 }, &one).is_none());
}

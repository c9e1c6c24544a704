//! The tagged value model: primitives plus homogeneous arrays.
//!
//! Floats are carried as their IEEE bit patterns, decimals, timestamps
//! and durations as their plain-field models, text as UTF-8 bytes.
use vstd::prelude::*;

verus! {

use crate::chars::Chars;
use crate::dec::Dec;
use crate::time::{DT, Dur};

/// A value: the tagged sum carried over the wire and through archives.
#[derive(Debug)]
pub enum Value {
    /// full 4 byte unsigned integer
    U32(u32),
    /// variable length unsigned integer, at most 4 bytes of payload
    V32(u32),
    /// full 4 byte signed integer
    I32(i32),
    /// variable length zig-zag signed integer, at most 4 bytes of payload
    Z32(i32),
    /// full 8 byte unsigned integer
    U64(u64),
    /// variable length unsigned integer
    V64(u64),
    /// full 8 byte signed integer
    I64(i64),
    /// variable length zig-zag signed integer
    Z64(i64),
    /// single precision float, by bit pattern
    F32(u32),
    /// double precision float, by bit pattern
    F64(u64),
    /// UTC timestamp
    DateTime(DT),
    /// span of time
    Duration(Dur),
    /// UTF-8 text
    String(Chars),
    /// opaque byte blob
    Bytes(Vec<u8>),
    /// boolean true
    True,
    /// boolean false
    False,
    /// the empty value
    Null,
    /// an explicit ok
    Okay,
    /// an explicit error with its message
    Error(Chars),
    /// an array of values, arbitrarily nested
    Array(Vec<Value>),
    /// fixed-point decimal
    Decimal(Dec),
}

/// The type tag of a value.
#[derive(Debug, Clone, Copy, PartialEq, Eq, Structural, Hash)]
pub enum Typ {
    U32,
    V32,
    I32,
    Z32,
    U64,
    V64,
    I64,
    Z64,
    F32,
    F64,
    Decimal,
    DateTime,
    Duration,
    Bool,
    String,
    Bytes,
    Result,
    Array,
    Null,
}

/// The mathematical model of a value: the same tagged sum with
/// sequences in place of vectors and byte strings. Contracts and laws
/// speak of models, where equality is structural.
pub enum VM {
    U32(u32),
    V32(u32),
    I32(i32),
    Z32(i32),
    U64(u64),
    V64(u64),
    I64(i64),
    Z64(i64),
    F32(u32),
    F64(u64),
    DateTime(DT),
    Duration(Dur),
    String(Seq<u8>),
    Bytes(Seq<u8>),
    True,
    False,
    Null,
    Okay,
    Error(Seq<u8>),
    Array(Seq<VM>),
    Decimal(Dec),
}

/// The models of a vector of values, element by element.
pub open spec fn vms(elts: Vec<Value>) -> Seq<VM>
    decreases elts,
{
    Seq::new(
        elts@.len(),
        |i: int|
            if 0 <= i < elts@.len() {
                elts@[i]@
            } else {
                VM::Null
            },
    )
}

impl View for Value {
    type V = VM;

    open spec fn view(&self) -> VM
        decreases self,
    {
        match self {
            Value::U32(x) => VM::U32(*x),
            Value::V32(x) => VM::V32(*x),
            Value::I32(x) => VM::I32(*x),
            Value::Z32(x) => VM::Z32(*x),
            Value::U64(x) => VM::U64(*x),
            Value::V64(x) => VM::V64(*x),
            Value::I64(x) => VM::I64(*x),
            Value::Z64(x) => VM::Z64(*x),
            Value::F32(x) => VM::F32(*x),
            Value::F64(x) => VM::F64(*x),
            Value::DateTime(d) => VM::DateTime(*d),
            Value::Duration(d) => VM::Duration(*d),
            Value::String(c) => VM::String(c@),
            Value::Bytes(b) => VM::Bytes(b@),
            Value::True => VM::True,
            Value::False => VM::False,
            Value::Null => VM::Null,
            Value::Okay => VM::Okay,
            Value::Error(c) => VM::Error(c@),
            Value::Array(elts) => VM::Array(vms(*elts)),
            Value::Decimal(d) => VM::Decimal(*d),
        }
    }
}

impl VM {
    /// Well-formedness of a model: nanosecond fields within one second,
    /// decimal mantissas within 96 bits, text well formed UTF-8, array
    /// elements recursively so.
    pub open spec fn wf(self) -> bool
        decreases self,
    {
        match self {
            VM::DateTime(d) => d.wf(),
            VM::Duration(d) => d.wf(),
            VM::Decimal(d) => d.wf(),
            VM::String(s) => vstd::utf8::valid_utf8(s) && s.len() <= usize::MAX,
            VM::Error(s) => vstd::utf8::valid_utf8(s) && s.len() <= usize::MAX,
            VM::Bytes(s) => s.len() <= usize::MAX,
            VM::Array(elts) => elts.len() <= usize::MAX && forall|i: int|
                0 <= i < elts.len() ==> (#[trigger] elts[i]).wf(),
            _ => true,
        }
    }
}

impl Value {
    /// Every structured field is well formed: nanosecond fields are
    /// within one second, decimal mantissas within 96 bits, text is
    /// UTF-8, arrays recursively so.
    pub open spec fn wf(self) -> bool
        decreases self,
    {
        match self {
            Value::DateTime(d) => d.wf(),
            Value::Duration(d) => d.wf(),
            Value::Decimal(d) => d.wf(),
            Value::String(c) => c.wf(),
            Value::Error(c) => c.wf(),
            Value::Array(elts) => forall|i: int|
                0 <= i < elts@.len() ==> (#[trigger] elts@[i]).wf(),
            _ => true,
        }
    }

    /// Whether the value is one of the numeric kinds.
    pub fn number(&self) -> (r: bool)
        ensures
            r == self.is_number(),
    {
        match self {
            Value::U32(_) | Value::V32(_) | Value::I32(_) | Value::Z32(_) | Value::U64(_)
                | Value::V64(_) | Value::I64(_) | Value::Z64(_) | Value::F32(_)
                | Value::F64(_) | Value::Decimal(_) => true,
            _ => false,
        }
    }

    /// The numeric kinds: fixed and variable integers, floats and
    /// decimals.
    pub open spec fn is_number(self) -> bool {
        match self {
            Value::U32(_) | Value::V32(_) | Value::I32(_) | Value::Z32(_) | Value::U64(_)
                | Value::V64(_) | Value::I64(_) | Value::Z64(_) | Value::F32(_)
                | Value::F64(_) | Value::Decimal(_) => true,
            _ => false,
        }
    }
}

impl Typ {
    /// The tag of a value.
    pub open spec fn of_value(v: Value) -> Typ {
        match v {
            Value::U32(_) => Typ::U32,
            Value::V32(_) => Typ::V32,
            Value::I32(_) => Typ::I32,
            Value::Z32(_) => Typ::Z32,
            Value::U64(_) => Typ::U64,
            Value::V64(_) => Typ::V64,
            Value::I64(_) => Typ::I64,
            Value::Z64(_) => Typ::Z64,
            Value::F32(_) => Typ::F32,
            Value::F64(_) => Typ::F64,
            Value::Decimal(_) => Typ::Decimal,
            Value::DateTime(_) => Typ::DateTime,
            Value::Duration(_) => Typ::Duration,
            Value::String(_) => Typ::String,
            Value::Bytes(_) => Typ::Bytes,
            Value::True => Typ::Bool,
            Value::False => Typ::Bool,
            Value::Null => Typ::Null,
            Value::Okay => Typ::Result,
            Value::Error(_) => Typ::Result,
            Value::Array(_) => Typ::Array,
        }
    }

    /// The tag of a value.
    pub fn get(v: &Value) -> (r: Typ)
        ensures
            r == Typ::of_value(*v),
    {
        match v {
            Value::U32(_) => Typ::U32,
            Value::V32(_) => Typ::V32,
            Value::I32(_) => Typ::I32,
            Value::Z32(_) => Typ::Z32,
            Value::U64(_) => Typ::U64,
            Value::V64(_) => Typ::V64,
            Value::I64(_) => Typ::I64,
            Value::Z64(_) => Typ::Z64,
            Value::F32(_) => Typ::F32,
            Value::F64(_) => Typ::F64,
            Value::Decimal(_) => Typ::Decimal,
            Value::DateTime(_) => Typ::DateTime,
            Value::Duration(_) => Typ::Duration,
            Value::String(_) => Typ::String,
            Value::Bytes(_) => Typ::Bytes,
            Value::True => Typ::Bool,
            Value::False => Typ::Bool,
            Value::Null => Typ::Null,
            Value::Okay => Typ::Result,
            Value::Error(_) => Typ::Result,
            Value::Array(_) => Typ::Array,
        }
    }

    /// The name of the tag, as it appears in the textual form.
    pub fn name(&self) -> (r: &'static str)
        ensures
            r@ == self.name_spec(),
    {
        proof {
            reveal_strlit("u32");
            reveal_strlit("v32");
            reveal_strlit("i32");
            reveal_strlit("z32");
            reveal_strlit("u64");
            reveal_strlit("v64");
            reveal_strlit("i64");
            reveal_strlit("z64");
            reveal_strlit("f32");
            reveal_strlit("f64");
            reveal_strlit("decimal");
            reveal_strlit("datetime");
            reveal_strlit("duration");
            reveal_strlit("bool");
            reveal_strlit("string");
            reveal_strlit("bytes");
            reveal_strlit("result");
            reveal_strlit("array");
            reveal_strlit("null");
        }
        match self {
            Typ::U32 => "u32",
            Typ::V32 => "v32",
            Typ::I32 => "i32",
            Typ::Z32 => "z32",
            Typ::U64 => "u64",
            Typ::V64 => "v64",
            Typ::I64 => "i64",
            Typ::Z64 => "z64",
            Typ::F32 => "f32",
            Typ::F64 => "f64",
            Typ::Decimal => "decimal",
            Typ::DateTime => "datetime",
            Typ::Duration => "duration",
            Typ::Bool => "bool",
            Typ::String => "string",
            Typ::Bytes => "bytes",
            Typ::Result => "result",
            Typ::Array => "array",
            Typ::Null => "null",
        }
    }

    /// The characters of the tag's name.
    pub open spec fn name_spec(self) -> Seq<char> {
        match self {
            Typ::U32 => "u32"@,
            Typ::V32 => "v32"@,
            Typ::I32 => "i32"@,
            Typ::Z32 => "z32"@,
            Typ::U64 => "u64"@,
            Typ::V64 => "v64"@,
            Typ::I64 => "i64"@,
            Typ::Z64 => "z64"@,
            Typ::F32 => "f32"@,
            Typ::F64 => "f64"@,
            Typ::Decimal => "decimal"@,
            Typ::DateTime => "datetime"@,
            Typ::Duration => "duration"@,
            Typ::Bool => "bool"@,
            Typ::String => "string"@,
            Typ::Bytes => "bytes"@,
            Typ::Result => "result"@,
            Typ::Array => "array"@,
            Typ::Null => "null"@,
        }
    }

    /// All nineteen tags, in tag order.
    pub fn all() -> (r: Vec<Typ>)
        ensures
            r@.len() == 19,
            r@[0] == Typ::U32,
            r@[10] == Typ::Decimal,
            r@[18] == Typ::Null,
    {
        let mut v: Vec<Typ> = Vec::new();
        v.push(Typ::U32);
        v.push(Typ::V32);
        v.push(Typ::I32);
        v.push(Typ::Z32);
        v.push(Typ::U64);
        v.push(Typ::V64);
        v.push(Typ::I64);
        v.push(Typ::Z64);
        v.push(Typ::F32);
        v.push(Typ::F64);
        v.push(Typ::Decimal);
        v.push(Typ::DateTime);
        v.push(Typ::Duration);
        v.push(Typ::Bool);
        v.push(Typ::String);
        v.push(Typ::Bytes);
        v.push(Typ::Result);
        v.push(Typ::Array);
        v.push(Typ::Null);
        v
    }

    /// The numeric tags.
    pub open spec fn number_spec(self) -> bool {
        match self {
            Typ::U32 | Typ::V32 | Typ::I32 | Typ::Z32 | Typ::U64 | Typ::V64 | Typ::I64
                | Typ::Z64 | Typ::F32 | Typ::F64 | Typ::Decimal => true,
            _ => false,
        }
    }

    /// Whether the tag is numeric.
    pub fn number(&self) -> (r: bool)
        ensures
            r == self.number_spec(),
    {
        match self {
            Typ::U32 | Typ::V32 | Typ::I32 | Typ::Z32 | Typ::U64 | Typ::V64 | Typ::I64
                | Typ::Z64 | Typ::F32 | Typ::F64 | Typ::Decimal => true,
            _ => false,
        }
    }

    /// The integer tags.
    pub open spec fn integer_spec(self) -> bool {
        match self {
            Typ::U32 | Typ::V32 | Typ::I32 | Typ::Z32 | Typ::U64 | Typ::V64 | Typ::I64
                | Typ::Z64 => true,
            _ => false,
        }
    }

    /// Whether the tag is an integer tag.
    pub fn integer(&self) -> (r: bool)
        ensures
            r == self.integer_spec(),
    {
        match self {
            Typ::U32 | Typ::V32 | Typ::I32 | Typ::Z32 | Typ::U64 | Typ::V64 | Typ::I64
                | Typ::Z64 => true,
            _ => false,
        }
    }

    /// Whether the tag is a signed integer tag.
    pub fn signed_integer(&self) -> (r: bool)
        ensures
            r == matches!(self, Typ::I32 | Typ::Z32 | Typ::I64 | Typ::Z64),
    {
        match self {
            Typ::I32 | Typ::Z32 | Typ::I64 | Typ::Z64 => true,
            _ => false,
        }
    }

    /// Whether the tag is an unsigned integer tag.
    pub fn unsigned_integer(&self) -> (r: bool)
        ensures
            r == matches!(self, Typ::U32 | Typ::V32 | Typ::U64 | Typ::V64),
    {
        match self {
            Typ::U32 | Typ::V32 | Typ::U64 | Typ::V64 => true,
            _ => false,
        }
    }

    /// Whether the tag is a float or decimal tag.
    pub fn float(&self) -> (r: bool)
        ensures
            r == matches!(self, Typ::F32 | Typ::F64 | Typ::Decimal),
    {
        match self {
            Typ::F32 | Typ::F64 | Typ::Decimal => true,
            _ => false,
        }
    }
}

impl Value {
    /// A copy of the value with the same model.
    pub fn dup(&self) -> (r: Value)
        ensures
            r@ == self@,
        decreases self, 1int,
    {
        match self {
            Value::U32(x) => Value::U32(*x),
            Value::V32(x) => Value::V32(*x),
            Value::I32(x) => Value::I32(*x),
            Value::Z32(x) => Value::Z32(*x),
            Value::U64(x) => Value::U64(*x),
            Value::V64(x) => Value::V64(*x),
            Value::I64(x) => Value::I64(*x),
            Value::Z64(x) => Value::Z64(*x),
            Value::F32(x) => Value::F32(*x),
            Value::F64(x) => Value::F64(*x),
            Value::DateTime(d) => Value::DateTime(*d),
            Value::Duration(d) => Value::Duration(*d),
            Value::String(c) => Value::String(c.clone()),
            Value::Bytes(b) => {
                let b2 = b.clone();
                proof {
                    assert(b2@ =~= b@);
                }
                Value::Bytes(b2)
            },
            Value::True => Value::True,
            Value::False => Value::False,
            Value::Null => Value::Null,
            Value::Okay => Value::Okay,
            Value::Error(c) => Value::Error(c.clone()),
            Value::Array(elts) => Value::Array(dup_vec(elts)),
            Value::Decimal(d) => Value::Decimal(*d),
        }
    }
}

/// A copy of a vector of values, element models kept.
fn dup_vec(elts: &Vec<Value>) -> (r: Vec<Value>)
    ensures
        vms(r) == vms(*elts),
        r@.len() == elts@.len(),
    decreases elts, 0int,
{
    let mut out: Vec<Value> = Vec::new();
    let mut k: usize = 0;
    while k < elts.len()
        invariant
            0 <= k <= elts@.len(),
            out@.len() == k,
            forall|j: int| 0 <= j < k ==> (#[trigger] out@[j])@ == elts@[j]@,
        decreases elts@.len() - k,
    {
        let c = elts[k].dup();
        out.push(c);
        k += 1;
    }
    proof {
        assert(vms(out) =~= vms(*elts));
    }
    out
}

/// Parses the text of a decimal into a value, through the decimal
/// crate's parser: exactly the decimals that parser accepts.
pub fn parse_decimal(s: &str) -> (r: Option<Value>)
    ensures
        (match crate::dec::dec_of_text(s@) {
            Option::Some(d) => r matches Option::Some(v) && v@ == VM::Decimal(d)
                && v.wf(),
            Option::None => r is None,
        }),
{
    match crate::dec::dec_parse(s) {
        Option::Some(d) => Option::Some(Value::Decimal(d)),
        Option::None => Option::None,
    }
}

/// Parses the text of a UTC instant into a value, through the
/// calendar crate's parser: exactly the instants that parser accepts.
pub fn parse_datetime(s: &str) -> (r: Option<Value>)
    ensures
        (match crate::time::dt_of_text(s@) {
            Option::Some(d) => r matches Option::Some(v) && v@ == VM::DateTime(d)
                && v.wf(),
            Option::None => r is None,
        }),
{
    match crate::time::dt_parse(s) {
        Option::Some(d) => Option::Some(Value::DateTime(d)),
        Option::None => Option::None,
    }
}

/// The text of a decimal value, as the decimal crate prints it;
/// `None` for any other kind.
pub fn text_of_decimal(v: &Value) -> (r: Option<String>)
    requires
        v.wf(),
    ensures
        (match v@ {
            VM::Decimal(d) => r matches Option::Some(s) && s@ == crate::dec::dec_text_of(
                d.neg,
                d.mant,
                d.scale,
            ),
            _ => r is None,
        }),
{
    match v {
        Value::Decimal(d) => Option::Some(crate::dec::dec_to_text(d)),
        _ => Option::None,
    }
}

/// The text of a timestamp value, as the calendar crate prints it;
/// `None` for any other kind.
pub fn text_of_datetime(v: &Value) -> (r: Option<String>)
    requires
        v.wf(),
    ensures
        (match v@ {
            VM::DateTime(d) => r matches Option::Some(s) && s@ == crate::time::dt_text_of(
                d.secs,
                d.nanos,
            ),
            _ => r is None,
        }),
{
    match v {
        Value::DateTime(d) => Option::Some(crate::time::dt_to_text(d)),
        _ => Option::None,
    }
}

} // verus!

//! A byte string that is guaranteed to hold well formed UTF-8.
use vstd::prelude::*;

verus! {

use vstd::string::StrSliceExecFns;
use vstd::utf8::{valid_utf8, decode_utf8, encode_utf8};

/// Relies on `String::from_utf8`: it returns `Ok` exactly on well formed
/// UTF-8, and then the string's characters decode the bytes.
#[verifier::external_body]
fn string_from_utf8(bytes: Vec<u8>) -> (r: Option<String>)
    ensures
        r matches Option::Some(s) ==> valid_utf8(bytes@) && s@ == decode_utf8(bytes@),
        r is None ==> !valid_utf8(bytes@),
{
    String::from_utf8(bytes).ok()
}

/// A thin wrapper around a byte vector whose contents are well formed
/// UTF-8. This is the text type the value model carries.
#[derive(Debug, PartialEq, Eq, Hash, PartialOrd, Ord)]
pub struct Chars {
    bytes: Vec<u8>,
}

impl Clone for Chars {
    /// Cloning keeps the bytes.
    fn clone(&self) -> (r: Chars)
        ensures
            r@ == self@,
            r.wf() == self.wf(),
    {
        let bytes = self.bytes.clone();
        assert(bytes@ =~= self.bytes@);
        Chars { bytes }
    }
}

impl View for Chars {
    type V = Seq<u8>;

    closed spec fn view(&self) -> Seq<u8> {
        self.bytes@
    }
}

impl Chars {
    /// The contents are well formed UTF-8.
    pub open spec fn wf(&self) -> bool {
        valid_utf8(self@)
    }

    /// The empty string.
    pub fn new() -> (r: Chars)
        ensures
            r@ == Seq::<u8>::empty(),
            r.wf(),
    {
        proof {
            assert(valid_utf8(Seq::<u8>::empty())) by {
                vstd::utf8::encode_utf8_valid_utf8(Seq::<char>::empty());
                assert(encode_utf8(Seq::<char>::empty()) =~= Seq::<u8>::empty());
            }
        }
        Chars { bytes: Vec::new() }
    }

    /// Builds a `Chars` from raw bytes, checking that they are well
    /// formed UTF-8; `None` exactly when they are not.
    pub fn from_bytes(bytes: Vec<u8>) -> (r: Option<Chars>)
        ensures
            r matches Option::Some(c) ==> c@ == bytes@ && c.wf(),
            r is None ==> !valid_utf8(bytes@),
    {
        let ghost b = bytes@;
        let probe = bytes.clone();
        assert(probe@ =~= b);
        match string_from_utf8(probe) {
            Option::Some(_) => Option::Some(Chars { bytes }),
            Option::None => Option::None,
        }
    }

    /// Builds a `Chars` from a string slice; the result holds the
    /// string's UTF-8 bytes.
    pub fn from_str(s: &str) -> (r: Chars)
        ensures
            r@ == encode_utf8(s@),
            r.wf(),
    {
        proof {
            vstd::utf8::encode_utf8_valid_utf8(s@);
        }
        Chars { bytes: s.as_bytes_vec() }
    }

    /// The number of bytes.
    pub fn len(&self) -> (r: usize)
        ensures
            r == self@.len(),
    {
        self.bytes.len()
    }

    /// The raw bytes.
    pub fn bytes(&self) -> (r: &Vec<u8>)
        ensures
            r@ == self@,
    {
        &self.bytes
    }

    /// A copy of the raw bytes.
    pub fn to_vec(&self) -> (r: Vec<u8>)
        ensures
            r@ == self@,
    {
        let out = self.bytes.clone();
        assert(out@ =~= self.bytes@);
        out
    }

    /// The text as a `String`, available when the contents are well
    /// formed.
    pub fn as_text(&self) -> (r: Option<String>)
        ensures
            r matches Option::Some(s) ==> s@ == decode_utf8(self@),
            r is None ==> !self.wf(),
    {
        string_from_utf8(self.to_vec())
    }
}

} // verus!

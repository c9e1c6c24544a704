//! Absolute, slash-separated paths.
//!
//! A [`Path`] holds the UTF-8 bytes of an absolute path. Equality is byte
//! equality. The operations (`is_absolute`, `basename`, `dirname`,
//! `is_parent`, `dirnames`, `append`) are specified over the byte sequence.
use vstd::prelude::*;

verus! {

use vstd::string::StrSliceExecFns;

/// The path separator byte, `'/'`.
pub const SEP: u8 = 47;

/// An absolute, slash-separated, UTF-8 path. Immutable; equality is byte
/// equality.
#[derive(Debug, PartialEq, Eq, Hash, PartialOrd, Ord)]
pub struct Path {
    bytes: Vec<u8>,
}

impl Clone for Path {
    /// Cloning a path keeps its bytes.
    fn clone(&self) -> (r: Path)
        ensures
            r@ == self@,
    {
        let bytes = self.bytes.clone();
        assert(bytes@ =~= self.bytes@);
        Path { bytes }
    }
}

/// A well formed path: absolute, no empty components, no trailing
/// separator (except the root itself).
pub open spec fn wf_path(s: Seq<u8>) -> bool {
    &&& s.len() >= 1
    &&& s[0] == SEP
    &&& forall|i: int| 0 <= i < s.len() - 1 ==> !(#[trigger] s[i] == SEP && s[i + 1] == SEP)
    &&& (s.len() == 1 || s[s.len() - 1] != SEP)
}

/// `a` is an ancestor of `b` (or equal to it): `b` starts with `a` and the
/// match ends on a component boundary.
pub open spec fn is_parent_spec(a: Seq<u8>, b: Seq<u8>) -> bool {
    &&& a.len() <= b.len()
    &&& b.take(a.len() as int) == a
    &&& (a.len() == b.len() || a.len() == 1 || b[a.len() as int] == SEP)
}

impl View for Path {
    type V = Seq<u8>;

    closed spec fn view(&self) -> Seq<u8> {
        self.bytes@
    }
}

impl Path {
    /// A path from raw bytes.
    pub fn from_bytes(bytes: Vec<u8>) -> (r: Path)
        ensures
            r@ == bytes@,
    {
        Path { bytes }
    }

    /// A path from a string; the path holds the string's UTF-8 bytes.
    pub fn from_string(s: &str) -> (r: Path)
        ensures
            r@ == vstd::utf8::encode_utf8(s@),
    {
        Path { bytes: s.as_bytes_vec() }
    }

    /// The raw bytes of the path.
    pub fn bytes(&self) -> (r: &Vec<u8>)
        ensures
            r@ == self@,
    {
        &self.bytes
    }

    /// The number of bytes in the path.
    pub fn len(&self) -> (r: usize)
        ensures
            r == self@.len(),
    {
        self.bytes.len()
    }

    /// Whether the path is absolute: non-empty and starting with `/`.
    pub fn is_absolute(&self) -> (r: bool)
        ensures
            r == (self@.len() > 0 && self@[0] == SEP),
    {
        self.bytes.len() > 0 && self.bytes[0] == SEP
    }

    /// Whether the path is well formed (see [`wf_path`]).
    pub fn is_wf(&self) -> (r: bool)
        ensures
            r == wf_path(self@),
    {
        let n = self.bytes.len();
        if n == 0 || self.bytes[0] != SEP {
            return false;
        }
        if n > 1 && self.bytes[n - 1] == SEP {
            return false;
        }
        let mut i: usize = 0;
        while i < n - 1
            invariant
                n == self@.len(),
                n >= 1,
                0 <= i <= n,
                forall|j: int| 0 <= j < i ==> !(#[trigger] self@[j] == SEP && self@[j + 1] == SEP),
            decreases n - i,
        {
            if self.bytes[i] == SEP && self.bytes[i + 1] == SEP {
                return false;
            }
            i += 1;
        }
        true
    }

    /// Whether `self` is an ancestor of `other` or equal to it: `other`
    /// starts with `self` and the match ends on a component boundary.
    pub fn is_parent(&self, other: &Path) -> (r: bool)
        ensures
            r == is_parent_spec(self@, other@),
    {
        let n = self.bytes.len();
        let m = other.bytes.len();
        if n > m {
            return false;
        }
        let mut i: usize = 0;
        while i < n
            invariant
                n == self@.len(),
                m == other@.len(),
                n <= m,
                0 <= i <= n,
                forall|j: int| 0 <= j < i ==> other@[j] == self@[j],
            decreases n - i,
        {
            if self.bytes[i] != other.bytes[i] {
                assert(other@.take(n as int)[i as int] != self@[i as int]);
                return false;
            }
            i += 1;
        }
        assert(other@.take(n as int) =~= self@);
        n == m || n == 1 || other.bytes[n] == SEP
    }

    /// The final component of the path, or `None` for the root or the
    /// empty path.
    ///
    /// The result is the suffix after the last separator; `None` exactly
    /// when the path has no component after a separator.
    pub fn basename(&self) -> (r: Option<Vec<u8>>)
        ensures
            match r {
                Option::Some(b) => {
                    &&& exists|j: int|
                        0 <= j < self@.len() && self@[j] == SEP && b@
                            == self@.skip(j + 1) && (forall|k: int|
                            j < k < self@.len() ==> self@[k] != SEP) && b@.len() > 0
                },
                Option::None => {
                    forall|j: int|
                        0 <= j < self@.len() && self@[j] == SEP ==> j == self@.len() - 1
                            || exists|k: int| j < k < self@.len() && self@[k] == SEP
                },
            },
    {
        let n = self.bytes.len();
        let mut i: usize = n;
        while i > 0
            invariant
                n == self@.len(),
                0 <= i <= n,
                forall|k: int| i <= k < n ==> self@[k] != SEP,
            decreases i,
        {
            if self.bytes[i - 1] == SEP {
                if i == n {
                    // trailing separator: no component after it
                    return Option::None;
                }
                let mut out: Vec<u8> = Vec::new();
                let mut k: usize = i;
                while k < n
                    invariant
                        n == self@.len(),
                        i <= k <= n,
                        out@ == self@.subrange(i as int, k as int),
                    decreases n - k,
                {
                    out.push(self.bytes[k]);
                    k += 1;
                }
                assert(out@ =~= self@.skip(i as int));
                assert(self@[i - 1] == SEP);
                return Option::Some(out);
            }
            i -= 1;
        }
        Option::None
    }

    /// The path with `suffix` appended as one more component:
    /// `self` + `/` + `suffix`. If `self` already ends in a separator, or
    /// `suffix` begins with one, no extra separator is inserted.
    pub fn append(&self, suffix: &Vec<u8>) -> (r: Path)
        ensures
            (self@.len() > 0 && self@[self@.len() - 1] == SEP) || (suffix@.len() > 0
                && suffix@[0] == SEP) ==> r@ == self@ + suffix@,
            !((self@.len() > 0 && self@[self@.len() - 1] == SEP) || (suffix@.len() > 0
                && suffix@[0] == SEP)) ==> r@ == self@ + seq![SEP] + suffix@,
    {
        let mut out: Vec<u8> = self.bytes.clone();
        let sep_present = (out.len() > 0 && out[out.len() - 1] == SEP) || (suffix.len() > 0
            && suffix[0] == SEP);
        if !sep_present {
            out.push(SEP);
        }
        let mut k: usize = 0;
        let ghost base: Seq<u8> = out@;
        while k < suffix.len()
            invariant
                0 <= k <= suffix@.len(),
                out@ == base + suffix@.take(k as int),
            decreases suffix@.len() - k,
        {
            out.push(suffix[k]);
            k += 1;
        }
        assert(out@ =~= base + suffix@);
        if sep_present {
            assert(out@ =~= self@ + suffix@);
        } else {
            assert(out@ =~= self@ + seq![SEP] + suffix@);
        }
        Path { bytes: out }
    }
}

} // verus!

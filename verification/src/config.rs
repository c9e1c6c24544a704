//! Client configuration: TLS identities and the default authentication
//! mechanism. Reading the configuration file and checking certificates
//! on disk stay outside the library; what is kept here is the data and
//! the name normalisation the lookup relies on.
use vstd::prelude::*;

verus! {

use vstd::utf8::{valid_utf8, decode_utf8};

/// One TLS identity: trust root, certificate, private key, and the
/// certificate's common name.
#[derive(Debug)]
pub struct TlsIdentity {
    pub trusted: String,
    pub name: String,
    pub certificate: String,
    pub private_key: String,
}

/// The TLS configuration: a default identity name (stored reversed, as
/// all identity keys are) and the identities by reversed domain name.
#[derive(Debug)]
pub struct Tls {
    pub default_identity: String,
    pub identities: Vec<(String, TlsIdentity)>,
    pub askpass: Option<String>,
}

/// The authentication mechanism used when none is asked for.
#[derive(Debug, Clone, Copy, PartialEq, Eq, Structural)]
pub enum DefaultAuthMech {
    Anonymous,
    Local,
    Krb5,
    Tls,
}

impl Default for DefaultAuthMech {
    /// Kerberos is the default of defaults.
    fn default() -> (r: Self)
        ensures
            r == DefaultAuthMech::Krb5,
    {
        DefaultAuthMech::Krb5
    }
}

/// The position of the first dot at or after `i`, or the length.
pub open spec fn first_dot(s: Seq<u8>, i: int) -> int
    decreases s.len() - i,
{
    if i < 0 || i >= s.len() {
        i
    } else if s[i] == 46u8 {
        i
    } else {
        first_dot(s, i + 1)
    }
}

/// The domain-name segments of `s` (split at `'.'`), reversed, each
/// followed by a dot: `marketdata.architect.com` becomes
/// `com.architect.marketdata.`.
pub open spec fn reversed_domain(s: Seq<u8>) -> Seq<u8>
    decreases s.len(),
{
    if s.len() == 0 {
        seq![46u8]
    } else {
        let i = first_dot(s, 0);
        if 0 <= i < s.len() {
            reversed_domain(s.skip(i + 1)) + s.take(i) + seq![46u8]
        } else {
            s + seq![46u8]
        }
    }
}

proof fn lemma_first_dot(s: Seq<u8>, i: int)
    requires
        0 <= i <= s.len(),
    ensures
        i <= first_dot(s, i) <= s.len(),
        first_dot(s, i) < s.len() ==> s[first_dot(s, i)] == 46u8,
        forall|j: int| i <= j < first_dot(s, i) ==> s[j] != 46u8,
    decreases s.len() - i,
{
    if i < s.len() && s[i] != 46u8 {
        lemma_first_dot(s, i + 1);
    }
}

impl Tls {
    /// Reverses a domain name in place: `a.b.c` becomes `c.b.a.`. The
    /// identity maps are keyed by this form so that longest-prefix
    /// lookups follow the domain hierarchy. Names longer than 1024
    /// bytes are truncated first, as the lookup keys are bounded.
    pub fn reverse_domain_name(name: &mut Vec<u8>)
        ensures
            old(name)@.len() <= 1024 ==> final(name)@ == reversed_domain(old(name)@),
            old(name)@.len() > 1024 ==> final(name)@ == reversed_domain(
                old(name)@.take(1024),
            ),
    {
        if name.len() > 1024 {
            name.truncate(1024);
            proof {
                assert(name@ =~= old(name)@.take(1024));
            }
        }
        let ghost orig = name@;
        let mut out: Vec<u8> = Vec::new();
        rev_segments(name, 0, &mut out);
        proof {
            assert(name@.skip(0) =~= name@);
        }
        let mut k: usize = 0;
        name.clear();
        while k < out.len()
            invariant
                0 <= k <= out@.len(),
                name@ == out@.take(k as int),
            decreases out@.len() - k,
        {
            name.push(out[k]);
            k += 1;
            assert(name@ =~= out@.take(k as int));
        }
        proof {
            assert(out@.take(out@.len() as int) =~= out@);
        }
    }

    /// The identity under the (already reversed) default name, if the
    /// map holds one: exactly the identity stored beside that key.
    pub fn default_identity(&self) -> (r: Option<&TlsIdentity>)
        ensures
            (match r {
                Option::Some(id) => exists|i: int|
                    0 <= i < self.identities@.len()
                        && (#[trigger] self.identities@[i]).0@ == self.default_identity@
                        && *id == self.identities@[i].1,
                Option::None => forall|i: int|
                    0 <= i < self.identities@.len()
                        ==> (#[trigger] self.identities@[i]).0@ != self.default_identity@,
            }),
    {
        let mut i: usize = 0;
        while i < self.identities.len()
            invariant
                0 <= i <= self.identities@.len(),
                forall|j: int|
                    0 <= j < i ==> (#[trigger] self.identities@[j]).0@
                        != self.default_identity@,
            decreases self.identities@.len() - i,
        {
            if str_eq(&self.identities[i].0, &self.default_identity) {
                proof {
                    assert(self.identities@[i as int].0@ == self.default_identity@);
                }
                return Option::Some(&self.identities[i].1);
            }
            i += 1;
        }
        Option::None
    }
}

/// Appends the reversed form of `s[from..]` to `out`.
fn rev_segments(s: &Vec<u8>, from: usize, out: &mut Vec<u8>)
    requires
        from <= s@.len(),
    ensures
        final(out)@ == old(out)@ + reversed_domain(s@.skip(from as int)),
    decreases s@.len() - from,
{
    let ghost tail = s@.skip(from as int);
    if from == s.len() {
        out.push(46);
        proof {
            assert(tail.len() == 0);
            assert(out@ =~= old(out)@ + reversed_domain(tail));
        }
        return ;
    }
    // find the first dot at or after `from`
    let mut i: usize = from;
    while i < s.len() && s[i] != 46
        invariant
            from <= i <= s@.len(),
            forall|j: int| from <= j < i ==> s@[j] != 46u8,
        decreases s@.len() - i,
    {
        i += 1;
    }
    if i < s.len() {
        // a dot at `i`: first the reversed rest, then this segment
        proof {
            let di = i as int - from;
            assert(tail[di] == 46u8);
            assert(forall|j: int| 0 <= j < di ==> tail[j] != 46u8);
            lemma_first_dot(tail, 0);
            let c = first_dot(tail, 0);
            assert(c == di) by {
                if c < di {
                    assert(tail[c] != 46u8);
                } else if c > di {
                    assert(tail[di] != 46u8);
                    lemma_first_dot(tail, 0);
                }
            }
        }
        rev_segments(s, i + 1, out);
        let ghost mid = out@;
        let mut k: usize = from;
        while k < i
            invariant
                from <= k <= i <= s@.len(),
                out@ == mid + s@.subrange(from as int, k as int),
            decreases i - k,
        {
            out.push(s[k]);
            k += 1;
            assert(out@ =~= mid + s@.subrange(from as int, k as int));
        }
        out.push(46);
        proof {
            assert(s@.skip(i as int + 1) =~= tail.skip(i as int - from + 1));
            assert(s@.subrange(from as int, i as int) =~= tail.take(i as int - from));
            assert(out@ =~= old(out)@ + reversed_domain(tail));
        }
    } else {
        // no dot: the whole tail is one segment
        proof {
            assert(forall|j: int| 0 <= j < tail.len() ==> tail[j] != 46u8);
            lemma_first_dot(tail, 0);
            if tail.len() > 0 && 0 <= first_dot(tail, 0) < tail.len() {
                assert(tail[first_dot(tail, 0)] == 46u8);
                assert(false);
            }
        }
        let ghost mid0 = out@;
        let mut k: usize = from;
        while k < s.len()
            invariant
                from <= k <= s@.len(),
                out@ == mid0 + s@.subrange(from as int, k as int),
            decreases s@.len() - k,
        {
            out.push(s[k]);
            k += 1;
            assert(out@ =~= mid0 + s@.subrange(from as int, k as int));
        }
        out.push(46);
        proof {
            assert(s@.subrange(from as int, s@.len() as int) =~= tail);
            assert(out@ =~= old(out)@ + reversed_domain(tail));
        }
    }
}

/// Equality of two strings by their characters.
pub fn str_eq(a: &String, b: &String) -> (r: bool)
    ensures
        r == (a@ == b@),
{
    let ab = a.as_str();
    let bb = b.as_str();
    let av = ab.as_bytes_vec();
    let bv = bb.as_bytes_vec();
    let r = crate::archive::bytes_eq(&av, &bv);
    proof {
        if av@ == bv@ {
            vstd::utf8::encode_utf8_decode_utf8(a@);
            vstd::utf8::encode_utf8_decode_utf8(b@);
        }
    }
    r
}

} // verus!

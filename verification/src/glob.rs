//! Unix-style globs over absolute paths: the statically computed
//! literal base, the one-level/subtree distinction, and matching
//! through the `globset` crate.
use vstd::prelude::*;

verus! {

use crate::path::SEP;

/// Whether the byte at `i` is a glob metacharacter (`?`, `*`, `{`,
/// `[`) that is not escaped by a backslash.
pub open spec fn is_meta_at(s: Seq<u8>, i: int) -> bool {
    &&& 0 <= i < s.len()
    &&& (s[i] == 63u8 || s[i] == 42u8 || s[i] == 123u8 || s[i] == 91u8)
    &&& (i == 0 || s[i - 1] != 92u8)
}

/// The position of the first unescaped metacharacter at or after `i`,
/// or the length.
pub open spec fn first_meta(s: Seq<u8>, i: int) -> int
    decreases s.len() - i,
{
    if i < 0 || i >= s.len() {
        i
    } else if is_meta_at(s, i) {
        i
    } else {
        first_meta(s, i + 1)
    }
}

proof fn lemma_first_meta(s: Seq<u8>, i: int)
    requires
        0 <= i <= s.len(),
    ensures
        i <= first_meta(s, i) <= s.len(),
        first_meta(s, i) < s.len() ==> is_meta_at(s, first_meta(s, i)),
        forall|j: int| i <= j < first_meta(s, i) ==> !is_meta_at(s, j),
    decreases s.len() - i,
{
    if i < s.len() && !is_meta_at(s, i) {
        lemma_first_meta(s, i + 1);
    }
}

/// The largest separator position strictly below `i`, or nothing.
pub open spec fn last_sep_below(s: Seq<u8>, i: int) -> int
    decreases i,
{
    if i <= 0 {
        -1
    } else if s[i - 1] == SEP {
        i - 1
    } else {
        last_sep_below(s, i - 1)
    }
}

/// The byte length of a glob's literal base: the whole path when no
/// unescaped metacharacter occurs, else up to the separator that
/// begins the first glob component, at least the leading separator.
pub open spec fn glob_base_spec(s: Seq<u8>) -> int {
    let fm = first_meta(s, 0);
    if fm >= s.len() {
        s.len() as int
    } else {
        let ls = last_sep_below(s, fm);
        if ls >= 1 {
            ls
        } else {
            1
        }
    }
}

proof fn lemma_last_sep_below(s: Seq<u8>, i: int)
    requires
        0 <= i <= s.len(),
    ensures
        -1 <= last_sep_below(s, i) < i,
        last_sep_below(s, i) >= 0 ==> s[last_sep_below(s, i)] == SEP,
        forall|j: int| last_sep_below(s, i) < j < i ==> s[j] != SEP,
    decreases i,
{
    if i > 0 && s[i - 1] != SEP {
        lemma_last_sep_below(s, i - 1);
    }
}

/// The byte length of a glob's literal base: the deepest literal
/// subtree the resolver can be asked to list. Exactly
/// [`glob_base_spec`]: the whole path when it has no unescaped
/// metacharacter, else the last separator boundary before the first
/// one (at least the root).
pub fn glob_base_len(raw: &Vec<u8>) -> (r: usize)
    requires
        raw@.len() >= 1,
        raw@[0] == SEP,
    ensures
        1 <= r <= raw@.len(),
        forall|j: int| 0 <= j < r ==> !is_meta_at(raw@, j),
        r == glob_base_spec(raw@),
{
    proof {
        lemma_first_meta(raw@, 0);
    }
    // find the first unescaped metacharacter
    let n = raw.len();
    let mut m: usize = 0;
    while m < n && !(
        (raw[m] == 63 || raw[m] == 42 || raw[m] == 123 || raw[m] == 91)
        && (m == 0 || raw[m - 1] != 92)
    )
        invariant
            n == raw@.len(),
            0 <= m <= n,
            forall|j: int| 0 <= j < m ==> !is_meta_at(raw@, j),
        decreases n - m,
    {
        m += 1;
    }
    if m == n {
        proof {
            lemma_first_meta(raw@, 0);
            if first_meta(raw@, 0) < raw@.len() {
                assert(is_meta_at(raw@, first_meta(raw@, 0)));
            }
        }
        return n;
    }
    proof {
        lemma_first_meta(raw@, 0);
        assert(first_meta(raw@, 0) == m) by {
            if first_meta(raw@, 0) < m {
                assert(!is_meta_at(raw@, first_meta(raw@, 0)));
            } else if first_meta(raw@, 0) > m {
                assert(!is_meta_at(raw@, m as int));
            }
            assert(is_meta_at(raw@, m as int));
        }
    }
    // back up to the separator that begins the glob's own component
    let mut b: usize = m;
    while b > 0 && raw[b - 1] != SEP
        invariant
            1 <= b <= m < n,
            n == raw@.len(),
            raw@[0] == SEP,
            forall|j: int| 0 <= j < m ==> !is_meta_at(raw@, j),
            forall|j: int| b <= j < m ==> raw@[j] != SEP,
        decreases b,
    {
        b -= 1;
    }
    let r = if b > 1 {
        b - 1
    } else {
        1
    };
    proof {
        lemma_last_sep_below(raw@, m as int);
        let ls = last_sep_below(raw@, m as int);
        // the backward scan stopped exactly at the last separator
        assert(raw@[b as int - 1] == SEP);
        assert(ls == b as int - 1) by {
            if ls > b as int - 1 {
                assert(raw@[ls] != SEP);
            } else if ls < b as int - 1 {
                assert(raw@[b as int - 1] != SEP);
            }
        }
        assert(r as int == glob_base_spec(raw@));
        assert(r <= m);
    }
    r
}

/// Some whole component of the path is exactly `**`. An escaped star
/// or stars inside a character class make a longer component and do
/// not count.
pub open spec fn has_recursive_component(s: Seq<u8>) -> bool {
    exists|a: int|
        {
            &&& 0 <= a
            &&& a + 2 <= s.len()
            &&& (a == 0 || s[a - 1] == SEP)
            &&& (a + 2 == s.len() || s[a + 2] == SEP)
            &&& #[trigger] s[a] == 42u8
            &&& s[a + 1] == 42u8
        }
}

/// Whether some component of the glob is the recursive `**`, making
/// it a subtree glob rather than a per-level one.
#[verifier::spinoff_prover]
#[verifier::rlimit(60)]
pub fn is_subtree_glob(raw: &Vec<u8>) -> (r: bool)
    ensures
        r == has_recursive_component(raw@),
{
    let n = raw.len();
    if n < 2 {
        return false;
    }
    let mut a: usize = 0;
    while a < n - 1
        invariant
            n == raw@.len(),
            n >= 2,
            0 <= a <= n - 1,
            forall|j: int|
                0 <= j < a ==> !((j == 0 || raw@[j - 1] == SEP) && (j + 2 == raw@.len()
                    || raw@[j + 2] == SEP) && #[trigger] raw@[j] == 42u8 && raw@[j + 1]
                    == 42u8),
        decreases n - a,
    {
        let at_start = a == 0 || raw[a - 1] == SEP;
        let at_end = a + 2 == n || raw[a + 2] == SEP;
        if at_start && at_end && raw[a] == 42 && raw[a + 1] == 42 {
            proof {
                assert(raw@[a as int] == 42u8 && raw@[a as int + 1] == 42u8);
            }
            return true;
        }
        a += 1;
    }
    false
}

/// Whether the text matches the glob pattern, as `globset` matches it.
pub uninterp spec fn glob_match_of(pattern: Seq<char>, text: Seq<char>) -> Option<bool>;

/// Relies on `globset::GlobBuilder` (backslash escapes on, literal
/// separators on) and `GlobSet::is_match`: the verdict depends on the
/// pattern and the text alone; `None` when the pattern, or the regex
/// built from it, does not compile. `GlobSetBuilder::build` propagates
/// regex-size failures as errors, so no input panics.
#[verifier::external_body]
pub fn glob_match(pattern: &str, text: &str) -> (r: Option<bool>)
    ensures
        r == glob_match_of(pattern@, text@),
{
    let g = match globset::GlobBuilder::new(pattern).backslash_escape(true)
        .literal_separator(true).build() {
        Result::Ok(g) => g,
        Result::Err(_) => return Option::None,
    };
    let mut b = globset::GlobSetBuilder::new();
    b.add(g);
    match b.build() {
        Result::Ok(set) => Option::Some(set.is_match(text)),
        Result::Err(_) => Option::None,
    }
}

/// Whether a path's text matches the glob's text, both given as UTF-8
/// byte strings; `None` when either is not well formed or the pattern
/// does not compile.
pub fn matches_text(pattern: &crate::chars::Chars, text: &crate::chars::Chars) -> (r:
    Option<bool>)
    ensures
        pattern.wf() && text.wf() ==> r == glob_match_of(
            vstd::utf8::decode_utf8(pattern@),
            vstd::utf8::decode_utf8(text@),
        ),
{
    let p = match pattern.as_text() {
        Option::Some(p) => p,
        Option::None => {
            return Option::None;
        },
    };
    let t = match text.as_text() {
        Option::Some(t) => t,
        Option::None => {
            return Option::None;
        },
    };
    glob_match(p.as_str(), t.as_str())
}

} // verus!

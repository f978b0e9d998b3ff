//! Character-level helpers on designators and names: whitespace trimming,
//! ASCII case folding and prefix tests.
use vstd::prelude::*;

verus! {

/// The Unicode `White_Space` property, as `char::is_whitespace` documents it.
pub open spec fn is_white_space(c: char) -> bool {
    let u = c as u32;
    (0x09 <= u && u <= 0x0d) || u == 0x20 || u == 0x85 || u == 0xa0 || u == 0x1680 || (0x2000 <= u
        && u <= 0x200a) || u == 0x2028 || u == 0x2029 || u == 0x202f || u == 0x205f || u == 0x3000
}

/// Whether `c` is whitespace in the sense of `char::is_whitespace`.
pub fn white_space(c: char) -> (r: bool)
    ensures
        r == is_white_space(c),
{
    let u = c as u32;
    (0x09 <= u && u <= 0x0d) || u == 0x20 || u == 0x85 || u == 0xa0 || u == 0x1680 || (0x2000 <= u
        && u <= 0x200a) || u == 0x2028 || u == 0x2029 || u == 0x202f || u == 0x205f || u == 0x3000
}

/// The character as ASCII case folding sees it: upper-case ASCII letters are
/// mapped onto their lower-case counterparts, every other code point is kept.
pub open spec fn fold(c: char) -> u32 {
    let u = c as u32;
    if 0x41 <= u && u <= 0x5a {
        (u + 0x20) as u32
    } else {
        u
    }
}

pub open spec fn folded(s: Seq<char>) -> Seq<u32> {
    s.map_values(|c: char| fold(c))
}

/// Index of the first character at or after `i` that is not whitespace.
pub open spec fn skip_white_from(s: Seq<char>, i: int) -> int
    decreases s.len() - i,
{
    if 0 <= i < s.len() && is_white_space(s[i]) {
        skip_white_from(s, i + 1)
    } else {
        i
    }
}

/// End of `s[lo..j]` once trailing whitespace is dropped.
pub open spec fn skip_white_back(s: Seq<char>, lo: int, j: int) -> int
    decreases j - lo,
{
    if lo < j && j <= s.len() && is_white_space(s[j - 1]) {
        skip_white_back(s, lo, j - 1)
    } else {
        j
    }
}

/// `s` without leading and trailing whitespace (`str::trim`).
pub open spec fn trimmed(s: Seq<char>) -> Seq<char> {
    let lo = skip_white_from(s, 0);
    s.subrange(lo, skip_white_back(s, lo, s.len() as int))
}

/// Two names match when, once trimmed, they are equal up to ASCII case.
pub open spec fn names_match(a: Seq<char>, b: Seq<char>) -> bool {
    folded(trimmed(a)) == folded(trimmed(b))
}

proof fn lemma_skip_white_from_bounds(s: Seq<char>, i: int)
    requires
        0 <= i <= s.len(),
    ensures
        i <= skip_white_from(s, i) <= s.len(),
    decreases s.len() - i,
{
    if i < s.len() && is_white_space(s[i]) {
        lemma_skip_white_from_bounds(s, i + 1);
    }
}

proof fn lemma_skip_white_back_bounds(s: Seq<char>, lo: int, j: int)
    requires
        0 <= lo <= j <= s.len(),
    ensures
        lo <= skip_white_back(s, lo, j) <= j,
    decreases j - lo,
{
    if lo < j && is_white_space(s[j - 1]) {
        lemma_skip_white_back_bounds(s, lo, j - 1);
    }
}

/// Bounds `(lo, hi)` of the trimmed part of `s`.
fn trim_bounds(s: &str) -> (r: (usize, usize))
    ensures
        r.0 == skip_white_from(s@, 0),
        r.1 == skip_white_back(s@, r.0 as int, s@.len() as int),
        r.0 <= r.1 <= s@.len(),
        trimmed(s@) == s@.subrange(r.0 as int, r.1 as int),
{
    let n = s.unicode_len();
    let mut lo: usize = 0;
    while lo < n && white_space(s.get_char(lo))
        invariant
            n == s@.len(),
            lo <= n,
            skip_white_from(s@, lo as int) == skip_white_from(s@, 0),
        decreases n - lo,
    {
        lo = lo + 1;
    }
    let mut hi: usize = n;
    while hi > lo && white_space(s.get_char(hi - 1))
        invariant
            n == s@.len(),
            lo <= hi <= n,
            lo == skip_white_from(s@, 0),
            skip_white_back(s@, lo as int, hi as int) == skip_white_back(s@, lo as int, n as int),
        decreases hi,
    {
        hi = hi - 1;
    }
    (lo, hi)
}

/// Whether two names are equal once trimmed, ignoring ASCII case
/// (`a.trim().eq_ignore_ascii_case(b.trim())`).
pub fn matches_name(a: &str, b: &str) -> (r: bool)
    ensures
        r == names_match(a@, b@),
{
    let (alo, ahi) = trim_bounds(a);
    let (blo, bhi) = trim_bounds(b);
    let ghost ta = a@.subrange(alo as int, ahi as int);
    let ghost tb = b@.subrange(blo as int, bhi as int);
    if ahi - alo != bhi - blo {
        proof {
            assert(folded(ta).len() != folded(tb).len());
        }
        return false;
    }
    let len = ahi - alo;
    let mut k: usize = 0;
    while k < len
        invariant
            len == ahi - alo,
            len == bhi - blo,
            alo <= ahi <= a@.len(),
            blo <= bhi <= b@.len(),
            ta == a@.subrange(alo as int, ahi as int),
            tb == b@.subrange(blo as int, bhi as int),
            trimmed(a@) == ta,
            trimmed(b@) == tb,
            k <= len,
            forall|m: int| 0 <= m < k ==> fold(#[trigger] ta[m]) == fold(tb[m]),
        decreases len - k,
    {
        let ca = a.get_char(alo + k) as u32;
        let cb = b.get_char(blo + k) as u32;
        let fa = if 0x41 <= ca && ca <= 0x5a { ca + 0x20 } else { ca };
        let fb = if 0x41 <= cb && cb <= 0x5a { cb + 0x20 } else { cb };
        if fa != fb {
            proof {
                assert(ta[k as int] == a@[alo + k]);
                assert(tb[k as int] == b@[blo + k]);
                assert(folded(ta)[k as int] != folded(tb)[k as int]);
            }
            return false;
        }
        proof {
            assert(ta[k as int] == a@[alo + k]);
            assert(tb[k as int] == b@[blo + k]);
        }
        k = k + 1;
    }
    proof {
        assert(folded(ta) =~= folded(tb));
    }
    true
}

/// Whether `s` begins with `p`.
pub fn has_prefix(s: &str, p: &str) -> (r: bool)
    ensures
        r == (p@.len() <= s@.len() && s@.subrange(0, p@.len() as int) == p@),
{
    let n = s.unicode_len();
    let m = p.unicode_len();
    if m > n {
        return false;
    }
    let mut k: usize = 0;
    while k < m
        invariant
            m == p@.len(),
            n == s@.len(),
            m <= n,
            k <= m,
            forall|j: int| 0 <= j < k ==> s@[j] == p@[j],
        decreases m - k,
    {
        if s.get_char(k) != p.get_char(k) {
            proof {
                assert(s@.subrange(0, m as int)[k as int] != p@[k as int]);
            }
            return false;
        }
        k = k + 1;
    }
    proof {
        assert(s@.subrange(0, m as int) =~= p@);
    }
    true
}

/// An owned copy of an optional string.
pub fn copy_opt_string(o: &Option<String>) -> (r: Option<String>)
    ensures
        r == *o,
{
    match o {
        Some(s) => Some(s.clone()),
        None => None,
    }
}

} // verus!

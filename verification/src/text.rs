//! Small string utilities over the character view of `str` and `String`.

use vstd::prelude::*;

verus! {

/// The characters of each string of `v`.
pub open spec fn texts(v: Seq<String>) -> Seq<Seq<char>> {
    v.map_values(|s: String| s@)
}

/// `pre` is a prefix of `s`.
pub open spec fn is_prefix(pre: Seq<char>, s: Seq<char>) -> bool {
    pre.len() <= s.len() && s.take(pre.len() as int) == pre
}

/// `suf` is a suffix of `s`.
pub open spec fn is_suffix(suf: Seq<char>, s: Seq<char>) -> bool {
    suf.len() <= s.len() && s.skip(s.len() - suf.len()) == suf
}

/// `t` occurs somewhere in `s` as a contiguous run.
pub open spec fn occurs_in(t: Seq<char>, s: Seq<char>) -> bool {
    exists|i: int| 0 <= i <= s.len() - t.len() && #[trigger] s.subrange(i, i + t.len()) == t
}

/// The characters of `s`, in order.
pub fn chars_of(s: &str) -> (v: Vec<char>)
    ensures
        v@ == s@,
{
    let mut v: Vec<char> = Vec::new();
    for c in it: s.chars()
        invariant
            v@ == it.seq().take(it.index()),
    {
        v.push(c);
    }
    v
}

/// The string made of the characters of `v`.
///
/// Wraps `FromIterator<&char>` for `String` (std), through `v.iter().collect()`: collecting
/// characters yields a string whose characters are exactly those collected, in order.
#[verifier::external_body]
pub fn string_of(v: &Vec<char>) -> (s: String)
    ensures
        s@ == v@,
{
    v.iter().collect()
}

/// Whether the strings `a` and `b` hold the same characters.
pub fn str_eq(a: &str, b: &str) -> (r: bool)
    ensures
        r == (a@ == b@),
{
    let x = a.to_owned();
    let y = b.to_owned();
    x == y
}

/// Whether `a[alo .. alo + n]` and `b[blo .. blo + n]` hold the same characters.
pub fn range_eq(a: &Vec<char>, alo: usize, b: &Vec<char>, blo: usize, n: usize) -> (r: bool)
    requires
        alo + n <= a.len(),
        blo + n <= b.len(),
    ensures
        r == (a@.subrange(alo as int, alo + n) == b@.subrange(blo as int, blo + n)),
{
    let mut k: usize = 0;
    while k < n
        invariant
            k <= n,
            alo + n <= a.len(),
            blo + n <= b.len(),
            a@.subrange(alo as int, alo + k) =~= b@.subrange(blo as int, blo + k),
        decreases n - k,
    {
        if a[alo + k] != b[blo + k] {
            proof {
                assert(a@.subrange(alo as int, alo + n)[k as int] != b@.subrange(blo as int, blo + n)[k as int]);
            }
            return false;
        }
        assert(a@.subrange(alo as int, alo + k + 1) =~= a@.subrange(alo as int, alo + k).push(a@[alo + k]));
        assert(b@.subrange(blo as int, blo + k + 1) =~= b@.subrange(blo as int, blo + k).push(b@[blo + k]));
        k = k + 1;
    }
    assert(a@.subrange(alo as int, alo + n) =~= b@.subrange(blo as int, blo + n));
    true
}

/// Whether `t` occurs in `s`.
pub fn occurs(t: &Vec<char>, s: &Vec<char>) -> (r: bool)
    ensures
        r == occurs_in(t@, s@),
{
    if t.len() > s.len() {
        return false;
    }
    let last = s.len() - t.len();
    let mut i: usize = 0;
    assert(t@.subrange(0, t.len() as int) =~= t@);
    loop
        invariant
            last == s.len() - t.len(),
            t.len() <= s.len(),
            i <= last,
            t@.subrange(0, t.len() as int) == t@,
            forall|j: int| 0 <= j < i ==> #[trigger] s@.subrange(j, j + t.len()) != t@,
        decreases last - i,
    {
        if range_eq(s, i, t, 0, t.len()) {
            return true;
        }
        if i == last {
            return false;
        }
        i = i + 1;
    }
}


/// Whitespace as `char::is_whitespace` defines it (the Unicode `White_Space` property).
pub open spec fn is_ws(c: char) -> bool {
    ||| c == '\t'
    ||| c == '\n'
    ||| c == '\u{0B}'
    ||| c == '\u{0C}'
    ||| c == '\r'
    ||| c == ' '
    ||| c == '\u{85}'
    ||| c == '\u{A0}'
    ||| c == '\u{1680}'
    ||| ('\u{2000}' <= c && c <= '\u{200A}')
    ||| c == '\u{2028}'
    ||| c == '\u{2029}'
    ||| c == '\u{202F}'
    ||| c == '\u{205F}'
    ||| c == '\u{3000}'
}

/// `s` without its leading whitespace.
pub open spec fn trim_start(s: Seq<char>) -> Seq<char>
    decreases s.len(),
{
    if s.len() > 0 && is_ws(s[0]) {
        trim_start(s.drop_first())
    } else {
        s
    }
}

/// `s` without its trailing whitespace.
pub open spec fn trim_end(s: Seq<char>) -> Seq<char>
    decreases s.len(),
{
    if s.len() > 0 && is_ws(s.last()) {
        trim_end(s.drop_last())
    } else {
        s
    }
}

/// `s` without leading and trailing whitespace, as `str::trim` gives it.
pub open spec fn trim(s: Seq<char>) -> Seq<char> {
    trim_end(trim_start(s))
}

/// The index of the first `c` in `s`, or -1 when there is none.
pub open spec fn first_of(s: Seq<char>, c: char) -> int
    decreases s.len(),
{
    if s.len() == 0 {
        -1
    } else if s[0] == c {
        0
    } else {
        let r = first_of(s.drop_first(), c);
        if r < 0 {
            -1
        } else {
            r + 1
        }
    }
}

/// What `format!("{:?}", s)` gives for a string `s`: the string quoted and escaped as
/// `Debug` for `str` does it.
pub uninterp spec fn debug_quoted(s: Seq<char>) -> Seq<char>;

/// What `str::to_lowercase` gives for `s` (Unicode lower case).
pub uninterp spec fn lowercase(s: Seq<char>) -> Seq<char>;

/// `s` in quotes, escaped as `Debug` for `str` writes it.
///
/// Wraps `format!("{:?}", s)` (std `Debug` for `str`); the contract names its result,
/// which depends on `s` alone.
#[verifier::external_body]
pub fn quoted(s: &str) -> (r: String)
    ensures
        r@ == debug_quoted(s@),
{
    format!("{:?}", s)
}

/// `s` in lower case.
///
/// Wraps `str::to_lowercase` (std); the contract names its result, which depends on `s`
/// alone.
#[verifier::external_body]
pub fn to_lower(s: &str) -> (r: String)
    ensures
        r@ == lowercase(s@),
{
    s.to_lowercase()
}

/// Whether `c` is whitespace.
pub fn is_white(c: char) -> (b: bool)
    ensures
        b == is_ws(c),
{
    c == '\t' || c == '\n' || c == '\u{0B}' || c == '\u{0C}' || c == '\r' || c == ' '
        || c == '\u{85}' || c == '\u{A0}' || c == '\u{1680}' || ('\u{2000}' <= c && c
        <= '\u{200A}') || c == '\u{2028}' || c == '\u{2029}' || c == '\u{202F}' || c
        == '\u{205F}' || c == '\u{3000}'
}

/// The bounds of `v[lo .. hi]` once trimmed.
pub fn trim_range(v: &Vec<char>, lo: usize, hi: usize) -> (r: (usize, usize))
    requires
        lo <= hi <= v.len(),
    ensures
        lo <= r.0 <= r.1 <= hi,
        v@.subrange(r.0 as int, r.1 as int) == trim(v@.subrange(lo as int, hi as int)),
{
    let mut a = lo;
    while a < hi && is_white(v[a])
        invariant
            lo <= a <= hi <= v.len(),
            trim_start(v@.subrange(lo as int, hi as int)) == trim_start(
                v@.subrange(a as int, hi as int),
            ),
        decreases hi - a,
    {
        assert(v@.subrange(a as int, hi as int).drop_first() =~= v@.subrange(a + 1, hi as int));
        a = a + 1;
    }
    let mut b = hi;
    while b > a && is_white(v[b - 1])
        invariant
            lo <= a <= b <= hi <= v.len(),
            trim_end(v@.subrange(a as int, hi as int)) == trim_end(
                v@.subrange(a as int, b as int),
            ),
        decreases b - a,
    {
        assert(v@.subrange(a as int, b as int).drop_last() =~= v@.subrange(a as int, b - 1));
        b = b - 1;
    }
    (a, b)
}

/// Characters `v[lo .. hi]` as a `Vec`.
pub fn sub_chars(v: &Vec<char>, lo: usize, hi: usize) -> (r: Vec<char>)
    requires
        lo <= hi <= v.len(),
    ensures
        r@ == v@.subrange(lo as int, hi as int),
{
    let mut r: Vec<char> = Vec::new();
    let mut k = lo;
    while k < hi
        invariant
            lo <= k <= hi <= v.len(),
            r@ =~= v@.subrange(lo as int, k as int),
        decreases hi - k,
    {
        r.push(v[k]);
        k = k + 1;
    }
    r
}

/// Characters `v[lo .. hi]` as a `String`.
pub fn sub_string(v: &Vec<char>, lo: usize, hi: usize) -> (r: String)
    requires
        lo <= hi <= v.len(),
    ensures
        r@ == v@.subrange(lo as int, hi as int),
{
    let c = sub_chars(v, lo, hi);
    string_of(&c)
}

/// The first `j` in `lo .. hi` with `v[j] == c`, or `hi` when there is none.
pub fn find_char(v: &Vec<char>, lo: usize, hi: usize, c: char) -> (r: usize)
    requires
        lo <= hi <= v.len(),
    ensures
        lo <= r <= hi,
        r == hi ==> first_of(v@.subrange(lo as int, hi as int), c) == -1,
        r < hi ==> first_of(v@.subrange(lo as int, hi as int), c) == r - lo,
{
    let mut j = lo;
    while j < hi && v[j] != c
        invariant
            lo <= j <= hi <= v.len(),
            forall|k: int| lo <= k < j ==> v@[k] != c,
        decreases hi - j,
    {
        j = j + 1;
    }
    proof {
        lemma_first_of(v@.subrange(lo as int, hi as int), c, j - lo);
    }
    j
}

/// `first_of` is the first index that holds `c`.
pub proof fn lemma_first_of(s: Seq<char>, c: char, i: int)
    requires
        0 <= i <= s.len(),
        forall|k: int| 0 <= k < i ==> s[k] != c,
        i < s.len() ==> s[i] == c,
    ensures
        first_of(s, c) == if i == s.len() { -1 } else { i },
    decreases i,
{
    if i > 0 {
        assert forall|k: int| 0 <= k < i - 1 implies s.drop_first()[k] != c by {
            assert(s.drop_first()[k] == s[k + 1]);
        }
        lemma_first_of(s.drop_first(), c, i - 1);
    }
}

} // verus!

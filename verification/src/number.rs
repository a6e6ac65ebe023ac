//! Which texts `str::parse::<f64>` accepts: the grammar that std documents for
//! `FromStr` of the float types.

use vstd::prelude::*;
use crate::text::{find_char, first_of, lemma_first_of};

verus! {

/// Every character of `s` is an ASCII digit.
pub open spec fn all_digits(s: Seq<char>) -> bool {
    forall|i: int| 0 <= i < s.len() ==> '0' <= #[trigger] s[i] && s[i] <= '9'
}

/// `x` is the lower-case ASCII letter `w` or its upper-case form.
pub open spec fn same_letter(x: char, w: char) -> bool {
    x == w || x as u32 + 32 == w as u32
}

/// `s` spells the lower-case word `w`, ignoring ASCII case.
pub open spec fn spells(s: Seq<char>, w: Seq<char>) -> bool {
    s.len() == w.len() && forall|i: int| 0 <= i < s.len() ==> same_letter(#[trigger] s[i], w[i])
}

/// `s` without a leading `+` or `-`.
pub open spec fn unsigned(s: Seq<char>) -> Seq<char> {
    if s.len() > 0 && (s[0] == '+' || s[0] == '-') {
        s.drop_first()
    } else {
        s
    }
}

/// The index of the first `e` or `E` in `s`, or -1.
pub open spec fn first_exp(s: Seq<char>) -> int {
    let a = first_of(s, 'e');
    let b = first_of(s, 'E');
    if a < 0 {
        b
    } else if b < 0 {
        a
    } else if a < b {
        a
    } else {
        b
    }
}

/// `Digit+ | Digit+ '.' Digit* | Digit* '.' Digit+`
pub open spec fn is_mantissa(m: Seq<char>) -> bool {
    let d = first_of(m, '.');
    if d < 0 {
        m.len() > 0 && all_digits(m)
    } else {
        m.len() > 1 && all_digits(m.take(d)) && all_digits(m.skip(d + 1))
    }
}

/// `Sign? Digit+`
pub open spec fn is_exponent(x: Seq<char>) -> bool {
    unsigned(x).len() > 0 && all_digits(unsigned(x))
}

/// `Mantissa ('e' Sign? Digit+)?`, the exponent letter in either case.
pub open spec fn is_number(b: Seq<char>) -> bool {
    let e = first_exp(b);
    if e < 0 {
        is_mantissa(b)
    } else {
        is_mantissa(b.take(e)) && is_exponent(b.skip(e + 1))
    }
}

/// The texts that `str::parse::<f64>` accepts:
/// `Sign? ('inf' | 'infinity' | 'nan' | Number)`, letters in either case.
pub open spec fn float_literal(s: Seq<char>) -> bool {
    let b = unsigned(s);
    ||| spells(b, seq!['i', 'n', 'f'])
    ||| spells(b, seq!['i', 'n', 'f', 'i', 'n', 'i', 't', 'y'])
    ||| spells(b, seq!['n', 'a', 'n'])
    ||| is_number(b)
}

/// A plain decimal `a.b` or `a` (digits only, besides the one point) is a number: it has no
/// exponent, and its point, if any, splits it into two runs of digits.
proof fn lemma_plain_decimal_is_number(a: Seq<char>, b: Seq<char>, x: Seq<char>)
    requires
        forall|i: int| 0 <= i < a.len() ==> '0' <= #[trigger] a[i] <= '9',
        forall|i: int| 0 <= i < b.len() ==> '0' <= #[trigger] b[i] <= '9',
        x == a + seq!['.'] + b && a.len() + b.len() > 0 || x == a && a.len() > 0,
    ensures
        is_number(x),
        is_mantissa(x),
        forall|k: int| 0 <= k < x.len() ==> #[trigger] x[k] != 'e' && x[k] != 'E',
        unsigned(x) == x,
        unsigned(seq!['+'] + x) == x,
        unsigned(seq!['-'] + x) == x,
{
    assert(all_digits(a));
    assert(all_digits(b));
    assert forall|k: int| 0 <= k < x.len() implies x[k] != 'e' && x[k] != 'E' && (x[k] == '.'
        || '0' <= x[k] <= '9') by {
        if x == a + seq!['.'] + b {
            if k < a.len() {
                assert(x[k] == a[k]);
            } else if k > a.len() {
                assert(x[k] == b[k - a.len() - 1]);
            }
        }
    }
    lemma_first_of(x, 'e', x.len() as int);
    lemma_first_of(x, 'E', x.len() as int);
    if x == a + seq!['.'] + b {
        lemma_first_of(x, '.', a.len() as int);
        assert(x.take(a.len() as int) =~= a);
        assert(x.skip(a.len() as int + 1) =~= b);
    } else {
        lemma_first_of(x, '.', x.len() as int);
    }
    assert((seq!['+'] + x).drop_first() =~= x);
    assert((seq!['-'] + x).drop_first() =~= x);
}

/// Law: what `str::parse::<f64>` accepts includes every plain decimal. A run of the ASCII
/// digits `0` to `9` (any of them, `9` too) is a run of digits; and for such runs `a` and
/// `b`, the texts `a` (when `a` is not empty) and `a.b` (when either is not empty), with or
/// without a sign, are accepted — so `0.09`, `-1.5`, `7`, `.5` and `3.` are numbers.
pub proof fn law_plain_decimals_parse(a: Seq<char>, b: Seq<char>)
    requires
        forall|i: int| 0 <= i < a.len() ==> '0' <= #[trigger] a[i] <= '9',
        forall|i: int| 0 <= i < b.len() ==> '0' <= #[trigger] b[i] <= '9',
    ensures
        all_digits(a),
        all_digits(b),
        a.len() > 0 ==> float_literal(a) && float_literal(seq!['+'] + a) && float_literal(
            seq!['-'] + a,
        ),
        a.len() + b.len() > 0 ==> {
            let x = a + seq!['.'] + b;
            &&& float_literal(x)
            &&& float_literal(seq!['+'] + x)
            &&& float_literal(seq!['-'] + x)
        },
{
    if a.len() > 0 {
        lemma_plain_decimal_is_number(a, b, a);
    }
    if a.len() + b.len() > 0 {
        lemma_plain_decimal_is_number(a, b, a + seq!['.'] + b);
    }
}

/// Law: a plain decimal with an exponent is a number too. For runs of ASCII digits `a`, `b`
/// and `c` (`c` not empty), with a mantissa `a` or `a.b` as in [`law_plain_decimals_parse`],
/// the texts `<mantissa>e<c>`, `<mantissa>e-<c>` and `<mantissa>e+<c>` are accepted, the
/// exponent letter in either case — so `1e-3` and `2.5E+7` are numbers.
pub proof fn law_exponents_parse(a: Seq<char>, b: Seq<char>, c: Seq<char>, x: Seq<char>, e: char)
    requires
        forall|i: int| 0 <= i < a.len() ==> '0' <= #[trigger] a[i] <= '9',
        forall|i: int| 0 <= i < b.len() ==> '0' <= #[trigger] b[i] <= '9',
        forall|i: int| 0 <= i < c.len() ==> '0' <= #[trigger] c[i] <= '9',
        c.len() > 0,
        x == a + seq!['.'] + b && a.len() + b.len() > 0 || x == a && a.len() > 0,
        e == 'e' || e == 'E',
    ensures
        float_literal(x + seq![e] + c),
        float_literal(x + seq![e, '-'] + c),
        float_literal(x + seq![e, '+'] + c),
        float_literal(seq!['-'] + x + seq![e] + c),
{
    lemma_plain_decimal_is_number(a, b, x);
    assert(all_digits(c));
    assert((seq!['-'] + c).drop_first() =~= c);
    assert((seq!['+'] + c).drop_first() =~= c);
    lemma_exponent_number(x, e, c);
    lemma_exponent_number(x, e, seq!['-'] + c);
    lemma_exponent_number(x, e, seq!['+'] + c);
    let y = x + seq![e] + c;
    assert(y[0] == x[0]);
    assert(seq!['-'] + x + seq![e] + c =~= seq!['-'] + y);
    assert((seq!['-'] + y).drop_first() =~= y);
    assert(x + seq![e, '-'] + c =~= x + seq![e] + (seq!['-'] + c));
    assert(x + seq![e, '+'] + c =~= x + seq![e] + (seq!['+'] + c));
}

/// A mantissa, an exponent letter and an exponent make a number.
proof fn lemma_exponent_number(x: Seq<char>, e: char, t: Seq<char>)
    requires
        is_mantissa(x),
        x.len() > 0,
        x[0] != '+' && x[0] != '-',
        forall|k: int| 0 <= k < x.len() ==> #[trigger] x[k] != 'e' && x[k] != 'E',
        e == 'e' || e == 'E',
        is_exponent(t),
    ensures
        is_number(x + seq![e] + t),
        unsigned(x + seq![e] + t) == x + seq![e] + t,
        float_literal(x + seq![e] + t),
{
    let y = x + seq![e] + t;
    assert(y[0] == x[0]);
    assert forall|k: int| 0 <= k < x.len() implies y[k] != 'e' && y[k] != 'E' by {
        assert(y[k] == x[k]);
    }
    if e == 'e' {
        lemma_first_of(y, 'e', x.len() as int);
        lemma_first_of_absent_before(y, 'E', x.len() as int);
    } else {
        lemma_first_of(y, 'E', x.len() as int);
        lemma_first_of_absent_before(y, 'e', x.len() as int);
    }
    assert(y.take(x.len() as int) =~= x);
    assert(y.skip(x.len() as int + 1) =~= t);
}

/// When `c` does not occur in `s` before `i` and `s[i]` is another character, the first `c`
/// comes after `i`, or there is none.
proof fn lemma_first_of_absent_before(s: Seq<char>, c: char, i: int)
    requires
        0 <= i < s.len(),
        forall|k: int| 0 <= k <= i ==> s[k] != c,
    ensures
        first_of(s, c) < 0 || first_of(s, c) > i,
    decreases i,
{
    if i > 0 {
        assert forall|k: int| 0 <= k <= i - 1 implies s.drop_first()[k] != c by {
            assert(s.drop_first()[k] == s[k + 1]);
        }
        lemma_first_of_absent_before(s.drop_first(), c, i - 1);
    }
}

fn digits_in(v: &Vec<char>, lo: usize, hi: usize) -> (r: bool)
    requires
        lo <= hi <= v.len(),
    ensures
        r == all_digits(v@.subrange(lo as int, hi as int)),
{
    let mut k = lo;
    while k < hi
        invariant
            lo <= k <= hi <= v.len(),
            all_digits(v@.subrange(lo as int, k as int)),
        decreases hi - k,
    {
        if !('0' <= v[k] && v[k] <= '9') {
            assert(v@.subrange(lo as int, hi as int)[k - lo] == v@[k as int]);
            return false;
        }
        assert forall|i: int| 0 <= i < k + 1 - lo implies '0' <= #[trigger] v@.subrange(
            lo as int,
            k + 1,
        )[i] && v@.subrange(lo as int, k + 1)[i] <= '9' by {
            if i < k - lo {
                assert(v@.subrange(lo as int, k + 1)[i] == v@.subrange(lo as int, k as int)[i]);
            }
        }
        k = k + 1;
    }
    true
}

fn spells_in(v: &Vec<char>, lo: usize, hi: usize, w: &Vec<char>) -> (r: bool)
    requires
        lo <= hi <= v.len(),
        forall|i: int| 0 <= i < w.len() ==> 'a' <= #[trigger] w@[i] && w@[i] <= 'z',
    ensures
        r == spells(v@.subrange(lo as int, hi as int), w@),
{
    if hi - lo != w.len() {
        return false;
    }
    let mut k: usize = 0;
    while k < w.len()
        invariant
            lo <= hi <= v.len(),
            hi - lo == w.len(),
            k <= w.len(),
            forall|i: int| 0 <= i < w.len() ==> 'a' <= #[trigger] w@[i] && w@[i] <= 'z',
            forall|i: int| 0 <= i < k ==> same_letter(#[trigger] v@[lo + i], w@[i]),
        decreases w.len() - k,
    {
        let x = v[lo + k];
        let y = w[k];
        if !(x == y || x as u32 == y as u32 - 32) {
            assert(v@.subrange(lo as int, hi as int)[k as int] == x);
            return false;
        }
        k = k + 1;
    }
    assert forall|i: int| 0 <= i < v@.subrange(lo as int, hi as int).len() implies same_letter(
        #[trigger] v@.subrange(lo as int, hi as int)[i],
        w@[i],
    ) by {
        assert(v@.subrange(lo as int, hi as int)[i] == v@[lo + i]);
    }
    true
}

fn mantissa_in(v: &Vec<char>, lo: usize, hi: usize) -> (r: bool)
    requires
        lo <= hi <= v.len(),
    ensures
        r == is_mantissa(v@.subrange(lo as int, hi as int)),
{
    let m = Ghost(v@.subrange(lo as int, hi as int));
    let d = find_char(v, lo, hi, '.');
    if d == hi {
        hi > lo && digits_in(v, lo, hi)
    } else {
        assert(m@.take(d - lo) =~= v@.subrange(lo as int, d as int));
        assert(m@.skip(d - lo + 1) =~= v@.subrange(d + 1, hi as int));
        hi - lo > 1 && digits_in(v, lo, d) && digits_in(v, d + 1, hi)
    }
}

fn exponent_in(v: &Vec<char>, lo: usize, hi: usize) -> (r: bool)
    requires
        lo <= hi <= v.len(),
    ensures
        r == is_exponent(v@.subrange(lo as int, hi as int)),
{
    let x = Ghost(v@.subrange(lo as int, hi as int));
    if lo < hi && (v[lo] == '+' || v[lo] == '-') {
        assert(x@.drop_first() =~= v@.subrange(lo + 1, hi as int));
        hi > lo + 1 && digits_in(v, lo + 1, hi)
    } else {
        hi > lo && digits_in(v, lo, hi)
    }
}

/// Whether `s` is a text that `str::parse::<f64>` accepts.
pub fn is_float_literal(s: &Vec<char>) -> (r: bool)
    ensures
        r == float_literal(s@),
{
    let n = s.len();
    let lo: usize = if n > 0 && (s[0] == '+' || s[0] == '-') {
        1
    } else {
        0
    };
    let b = Ghost(s@.subrange(lo as int, n as int));
    assert(b@ == unsigned(s@)) by {
        if lo == 1 {
            assert(s@.subrange(1, n as int) =~= s@.drop_first());
        } else {
            assert(s@.subrange(0, n as int) =~= s@);
        }
    }
    let inf = vec!['i', 'n', 'f'];
    let infinity = vec!['i', 'n', 'f', 'i', 'n', 'i', 't', 'y'];
    let nan = vec!['n', 'a', 'n'];
    if spells_in(s, lo, n, &inf) || spells_in(s, lo, n, &infinity) || spells_in(s, lo, n, &nan) {
        return true;
    }
    let a = find_char(s, lo, n, 'e');
    let c = find_char(s, lo, n, 'E');
    let e = if a < c {
        a
    } else {
        c
    };
    if e == n {
        mantissa_in(s, lo, n)
    } else {
        assert(b@.take(e - lo) =~= s@.subrange(lo as int, e as int));
        assert(b@.skip(e - lo + 1) =~= s@.subrange(e + 1, n as int));
        mantissa_in(s, lo, e) && exponent_in(s, e + 1, n)
    }
}

} // verus!

//! The hold-fix knobs of a job file: the `buffer:`, `hold_margin:`, `rounds:` and
//! `dont_touch:` keys, and the glob matcher used by `dont_touch`.

use vstd::prelude::*;
use crate::number::{float_literal, is_float_literal};
use crate::text::{
    chars_of, debug_quoted, find_char, first_of, is_prefix, is_suffix, lowercase, occurs, occurs_in, quoted, range_eq, str_eq, sub_chars, sub_string, texts,
    to_lower, trim, trim_range,
};

verus! {

/// `p` with every leading `*` removed.
pub open spec fn strip_leading_stars(p: Seq<char>) -> Seq<char>
    decreases p.len(),
{
    if p.len() > 0 && p[0] == '*' {
        strip_leading_stars(p.drop_first())
    } else {
        p
    }
}

/// `p` with every trailing `*` removed.
pub open spec fn strip_trailing_stars(p: Seq<char>) -> Seq<char>
    decreases p.len(),
{
    if p.len() > 0 && p.last() == '*' {
        strip_trailing_stars(p.drop_last())
    } else {
        p
    }
}

/// What a `dont_touch` glob matches: a leading and a trailing `*` make the rest a
/// substring pattern, a leading `*` alone a suffix, a trailing `*` alone a prefix;
/// a pattern without either must equal the name.
pub open spec fn glob_matches(pat: Seq<char>, s: Seq<char>) -> bool {
    let lead = pat.len() > 0 && pat[0] == '*';
    let trail = pat.len() > 0 && pat.last() == '*';
    if lead && trail {
        occurs_in(strip_trailing_stars(strip_leading_stars(pat)), s)
    } else if lead {
        is_suffix(pat.drop_first(), s)
    } else if trail {
        is_prefix(pat.drop_last(), s)
    } else {
        s == pat
    }
}

/// Law: the four forms of a `dont_touch` glob. For a word `w` that neither starts nor ends
/// with `*`: `w*` matches every name that starts with `w`, `*w` every name that ends with
/// `w`, `*w*` every name that holds `w`, and `w` itself only the name `w`.
pub proof fn law_glob_forms(w: Seq<char>, a: Seq<char>, b: Seq<char>)
    requires
        w.len() > 0,
        w[0] != '*',
        w.last() != '*',
    ensures
        glob_matches(w + seq!['*'], w + b),
        glob_matches(seq!['*'] + w, a + w),
        glob_matches(seq!['*'] + w + seq!['*'], a + w + b),
        glob_matches(w, a) <==> a == w,
{
    let pre = w + seq!['*'];
    assert(pre.drop_last() =~= w);
    assert((w + b).take(w.len() as int) =~= w);
    let suf = seq!['*'] + w;
    assert(suf.drop_first() =~= w);
    assert((a + w).skip((a + w).len() - w.len()) =~= w);
    let both = seq!['*'] + w + seq!['*'];
    assert(both.drop_first() =~= pre);
    assert(strip_leading_stars(pre) == pre);
    assert(strip_leading_stars(both) == pre);
    assert(strip_trailing_stars(w) == w);
    assert(strip_trailing_stars(pre) == w);
    let s = a + w + b;
    assert(s.subrange(a.len() as int, a.len() + w.len() as int) =~= w);
}

/// A tiny glob matcher: supports a single leading and/or trailing `*` (e.g. `clk_*`,
/// `*scan*`, `*_reg`). Exact match otherwise.
pub fn glob_match(pat: &str, s: &str) -> (r: bool)
    ensures
        r == glob_matches(pat@, s@),
{
    let p = chars_of(pat);
    let v = chars_of(s);
    let n = p.len();
    let lead = n > 0 && p[0] == '*';
    let trail = n > 0 && p[n - 1] == '*';
    if lead && trail {
        let mut lo: usize = 0;
        assert(p@.skip(0) =~= p@);
        while lo < n && p[lo] == '*'
            invariant
                lo <= n,
                n == p@.len(),
                strip_leading_stars(p@) == strip_leading_stars(p@.skip(lo as int)),
            decreases n - lo,
        {
            assert(p@.skip(lo as int).drop_first() =~= p@.skip(lo + 1));
            lo = lo + 1;
        }
        let mut hi: usize = n;
        while hi > lo && p[hi - 1] == '*'
            invariant
                lo <= hi <= n,
                n == p@.len(),
                strip_trailing_stars(p@.skip(lo as int)) == strip_trailing_stars(
                    p@.subrange(lo as int, hi as int),
                ),
            decreases hi - lo,
        {
            assert(p@.subrange(lo as int, hi as int).drop_last() =~= p@.subrange(
                lo as int,
                hi - 1,
            ));
            hi = hi - 1;
        }
        assert(p@.skip(lo as int) =~= p@.subrange(lo as int, n as int));
        let mut t: Vec<char> = Vec::new();
        let mut k: usize = lo;
        while k < hi
            invariant
                lo <= k <= hi <= n,
                n == p@.len(),
                t@ =~= p@.subrange(lo as int, k as int),
            decreases hi - k,
        {
            t.push(p[k]);
            k = k + 1;
        }
        occurs(&t, &v)
    } else if lead {
        if n - 1 > v.len() {
            false
        } else {
            let r = range_eq(&v, v.len() - (n - 1), &p, 1, n - 1);
            assert(p@.subrange(1, n as int) =~= p@.drop_first());
            assert(v@.subrange(v.len() - (n - 1), v.len() as int) =~= v@.skip(v.len() - (n - 1)));
            r
        }
    } else if trail {
        if n - 1 > v.len() {
            false
        } else {
            let r = range_eq(&v, 0, &p, 0, n - 1);
            assert(p@.subrange(0, n - 1) =~= p@.drop_last());
            assert(v@.subrange(0, n - 1) =~= v@.take(n - 1));
            r
        }
    } else {
        if n != v.len() {
            false
        } else {
            let r = range_eq(&v, 0, &p, 0, n);
            assert(p@.subrange(0, n as int) =~= p@);
            assert(v@.subrange(0, n as int) =~= v@);
            r
        }
    }
}


/// The hold-fix configuration (everything beyond the timing setup).
#[derive(Debug, Clone)]
pub struct HoldCfg {
    /// The delay cell to insert in series (must have exactly one input and one output pin).
    pub buffer: String,
    /// Target hold slack in ns, as written in the job (a number `str::parse::<f64>`
    /// accepts; `0.0` when the job sets none). Endpoints with slack below `-hold_margin`
    /// are fixed.
    pub hold_margin: String,
    /// Max ECO rounds (derived from `rounds:`); each round adds one delay per still-violating
    /// endpoint, so a chain grows only where hold remains negative.
    pub rounds: usize,
    /// Capture-instance globs (leading/trailing `*`) whose endpoints are never delayed.
    pub dont_touch: Vec<String>,
}

/// The mathematical value of a [`HoldCfg`].
pub struct HoldCfgView {
    pub buffer: Seq<char>,
    pub hold_margin: Seq<char>,
    pub rounds: nat,
    pub dont_touch: Seq<Seq<char>>,
}

impl View for HoldCfg {
    type V = HoldCfgView;

    open spec fn view(&self) -> HoldCfgView {
        HoldCfgView {
            buffer: self.buffer@,
            hold_margin: self.hold_margin@,
            rounds: self.rounds as nat,
            dont_touch: texts(self.dont_touch@),
        }
    }
}

/// Lines completed so far, and the line in progress, reading `t` from the left; lines end
/// at `\n`.
pub open spec fn line_scan(t: Seq<char>) -> (Seq<Seq<char>>, Seq<char>)
    decreases t.len(),
{
    if t.len() == 0 {
        (seq![], seq![])
    } else {
        let (done, cur) = line_scan(t.drop_last());
        if t.last() == '\n' {
            (done.push(cur), seq![])
        } else {
            (done, cur.push(t.last()))
        }
    }
}

/// The lines of `t`, split at `\n`. (A `\r` before the `\n`, or an empty last line, does
/// not change what a job means: every line is trimmed, and a line without `:` says
/// nothing.)
pub open spec fn lines_of(t: Seq<char>) -> Seq<Seq<char>> {
    line_scan(t).0.push(line_scan(t).1)
}

/// A separator of `dont_touch` globs.
pub open spec fn is_glob_sep(c: char) -> bool {
    c == ',' || c == ' '
}

/// Pieces completed so far, and the piece in progress, reading `t` from the left; pieces
/// end at `,` or space.
pub open spec fn piece_scan(t: Seq<char>) -> (Seq<Seq<char>>, Seq<char>)
    decreases t.len(),
{
    if t.len() == 0 {
        (seq![], seq![])
    } else {
        let (done, cur) = piece_scan(t.drop_last());
        if is_glob_sep(t.last()) {
            (done.push(cur), seq![])
        } else {
            (done, cur.push(t.last()))
        }
    }
}

/// The pieces, trimmed, that are not empty once trimmed.
pub open spec fn kept(ps: Seq<Seq<char>>) -> Seq<Seq<char>>
    decreases ps.len(),
{
    if ps.len() == 0 {
        seq![]
    } else {
        let r = kept(ps.drop_last());
        if trim(ps.last()).len() > 0 {
            r.push(trim(ps.last()))
        } else {
            r
        }
    }
}

/// The globs of a `dont_touch:` value: split at `,` and space, each piece trimmed, empty
/// pieces dropped.
pub open spec fn glob_items(v: Seq<char>) -> Seq<Seq<char>> {
    kept(piece_scan(v).0.push(piece_scan(v).1))
}

/// What the lines of a job set so far.
pub struct CfgScan {
    pub buffer: Seq<char>,
    pub margin: Seq<char>,
    pub rounds_word: Seq<char>,
    pub dont_touch: Seq<Seq<char>>,
    /// The first `hold_margin:` value that is not a number, if any.
    pub bad_margin: Option<Seq<char>>,
}

/// Nothing set yet: no buffer, a margin of `0.0`, `medium` effort, no globs.
pub open spec fn initial_scan() -> CfgScan {
    CfgScan {
        buffer: seq![],
        margin: "0.0"@,
        rounds_word: "medium"@,
        dont_touch: seq![],
        bad_margin: None,
    }
}

/// The part of a raw line before its first `#`.
pub open spec fn before_comment(raw: Seq<char>) -> Seq<char> {
    if first_of(raw, '#') < 0 {
        raw
    } else {
        raw.take(first_of(raw, '#'))
    }
}

/// What one line of a job sets. A line is read up to its first `#`, trimmed, and split at
/// its first `:` into a key (trimmed, lower-cased) and a value (trimmed); lines without `:`
/// and unknown keys set nothing; once a `hold_margin:` value was refused nothing more is
/// read.
pub open spec fn scan_line(acc: CfgScan, raw: Seq<char>) -> CfgScan {
    let line = trim(before_comment(raw));
    let i = first_of(line, ':');
    let key = lowercase(trim(line.take(i)));
    let v = trim(line.skip(i + 1));
    if acc.bad_margin is Some || i < 0 {
        acc
    } else if key == "buffer"@ {
        CfgScan { buffer: v, ..acc }
    } else if key == "hold_margin"@ {
        if float_literal(v) {
            CfgScan { margin: v, ..acc }
        } else {
            CfgScan { bad_margin: Some(v), ..acc }
        }
    } else if key == "rounds"@ || key == "effort"@ {
        CfgScan { rounds_word: lowercase(v), ..acc }
    } else if key == "dont_touch"@ {
        CfgScan { dont_touch: acc.dont_touch + glob_items(v), ..acc }
    } else {
        acc
    }
}

/// What the lines `ls` set, read in order.
pub open spec fn scan_lines(ls: Seq<Seq<char>>) -> CfgScan
    decreases ls.len(),
{
    if ls.len() == 0 {
        initial_scan()
    } else {
        scan_line(scan_lines(ls.drop_last()), ls.last())
    }
}

/// The round budget of an effort word: `low` 10, `medium` 40, `high` 200.
pub open spec fn rounds_of(word: Seq<char>) -> Option<nat> {
    if word == "low"@ {
        Some(10)
    } else if word == "medium"@ {
        Some(40)
    } else if word == "high"@ {
        Some(200)
    } else {
        None
    }
}

/// The configuration a job text gives, or the message of the error it is refused with:
/// a `hold_margin:` value that is not a number, a missing or empty `buffer:`, or an effort
/// word other than `low`, `medium` and `high` (checked in that order).
pub open spec fn cfg_of(text: Seq<char>) -> Result<HoldCfgView, Seq<char>> {
    let acc = scan_lines(lines_of(text));
    if acc.bad_margin is Some {
        Err("hold_margin must be a number, got "@ + debug_quoted(acc.bad_margin->0))
    } else if acc.buffer.len() == 0 {
        Err("a `buffer:` (delay cell) is required"@)
    } else if rounds_of(acc.rounds_word) is None {
        Err("rounds must be low|medium|high, got "@ + debug_quoted(acc.rounds_word))
    } else {
        Ok(
            HoldCfgView {
                buffer: acc.buffer,
                hold_margin: acc.margin,
                rounds: rounds_of(acc.rounds_word)->0,
                dont_touch: acc.dont_touch,
            },
        )
    }
}

struct Scan {
    buffer: String,
    margin: String,
    rounds_word: String,
    dont_touch: Vec<String>,
    bad_margin: Option<String>,
}

impl View for Scan {
    type V = CfgScan;

    closed spec fn view(&self) -> CfgScan {
        CfgScan {
            buffer: self.buffer@,
            margin: self.margin@,
            rounds_word: self.rounds_word@,
            dont_touch: texts(self.dont_touch@),
            bad_margin: match self.bad_margin {
                Some(s) => Some(s@),
                None => None,
            },
        }
    }
}

/// Appends to `out` the globs of the value `line[lo .. hi]`.
fn push_globs(out: &mut Vec<String>, line: &Vec<char>, lo: usize, hi: usize)
    requires
        lo <= hi <= line.len(),
    ensures
        texts(final(out)@) == texts(old(out)@) + glob_items(line@.subrange(lo as int, hi as int)),
{
    let ghost base = texts(out@);
    let mut start = lo;
    let mut k = lo;
    assert(line@.subrange(lo as int, lo as int) =~= Seq::<char>::empty());
    while k < hi
        invariant
            lo <= start <= k <= hi <= line.len(),
            texts(out@) == base + kept(piece_scan(line@.subrange(lo as int, k as int)).0),
            piece_scan(line@.subrange(lo as int, k as int)).1 == line@.subrange(
                start as int,
                k as int,
            ),
        decreases hi - k,
    {
        let ghost pre = line@.subrange(lo as int, k as int);
        assert(line@.subrange(lo as int, k + 1).drop_last() =~= pre);
        if line[k] == ',' || line[k] == ' ' {
            let ghost ps = piece_scan(pre).0.push(line@.subrange(start as int, k as int));
            assert(ps.drop_last() =~= piece_scan(pre).0);
            let (a, b) = trim_range(line, start, k);
            if a < b {
                let g = sub_string(line, a, b);
                let ghost before = texts(out@);
                out.push(g);
                assert(texts(out@) =~= before.push(g@));
                assert(ps.last() == line@.subrange(start as int, k as int));
                assert(kept(ps) == kept(ps.drop_last()).push(trim(ps.last())));
                assert(texts(out@) =~= base + kept(ps));
            } else {
                assert(texts(out@) =~= base + kept(ps));
            }
            start = k + 1;
            assert(line@.subrange(start as int, k + 1) =~= Seq::<char>::empty());
        } else {
            assert(line@.subrange(start as int, k + 1) =~= line@.subrange(start as int, k as int).push(
                line@[k as int],
            ));
        }
        k = k + 1;
    }
    let ghost sub = line@.subrange(lo as int, hi as int);
    let ghost ps = piece_scan(sub).0.push(piece_scan(sub).1);
    assert(ps.drop_last() =~= piece_scan(sub).0);
    let (a, b) = trim_range(line, start, hi);
    if a < b {
        let g = sub_string(line, a, b);
        let ghost before = texts(out@);
        out.push(g);
        assert(texts(out@) =~= before.push(g@));
        assert(ps.last() == line@.subrange(start as int, hi as int));
        assert(kept(ps) == kept(ps.drop_last()).push(trim(ps.last())));
        assert(texts(out@) =~= base + kept(ps));
    } else {
        assert(texts(out@) =~= base + kept(ps));
    }
}

/// Reads one line of a job into `acc`.
fn read_line(acc: &mut Scan, raw: &Vec<char>)
    ensures
        final(acc)@ == scan_line(old(acc)@, raw@),
{
    if acc.bad_margin.is_some() {
        return;
    }
    let n = raw.len();
    let h = find_char(raw, 0, n, '#');
    assert(raw@.subrange(0, n as int) =~= raw@);
    assert(raw@.subrange(0, h as int) =~= before_comment(raw@));
    let (lo, hi) = trim_range(raw, 0, h);
    let ghost line = raw@.subrange(lo as int, hi as int);
    let c = find_char(raw, lo, hi, ':');
    if c == hi {
        return;
    }
    assert(line.take(c - lo) =~= raw@.subrange(lo as int, c as int));
    assert(line.skip(c - lo + 1) =~= raw@.subrange(c + 1, hi as int));
    let (klo, khi) = trim_range(raw, lo, c);
    let (vlo, vhi) = trim_range(raw, c + 1, hi);
    let k = sub_string(raw, klo, khi);
    let key = to_lower(k.as_str());
    let v = sub_string(raw, vlo, vhi);
    if str_eq(key.as_str(), "buffer") {
        acc.buffer = v;
    } else if str_eq(key.as_str(), "hold_margin") {
        let vc = sub_chars(raw, vlo, vhi);
        if is_float_literal(&vc) {
            acc.margin = v;
        } else {
            acc.bad_margin = Some(v);
        }
    } else if str_eq(key.as_str(), "rounds") || str_eq(key.as_str(), "effort") {
        acc.rounds_word = to_lower(v.as_str());
    } else if str_eq(key.as_str(), "dont_touch") {
        push_globs(&mut acc.dont_touch, raw, vlo, vhi);
    }
}

/// Parse the hold-fix keys out of the job text.
pub fn parse_cfg(text: &str) -> (r: Result<HoldCfg, String>)
    ensures
        match r {
            Ok(cfg) => cfg_of(text@) == Ok::<HoldCfgView, Seq<char>>(cfg@),
            Err(e) => cfg_of(text@) == Err::<HoldCfgView, Seq<char>>(e@),
        },
{
    let t = chars_of(text);
    let mut acc = Scan {
        buffer: String::new(),
        margin: String::from_str("0.0"),
        rounds_word: String::from_str("medium"),
        dont_touch: Vec::new(),
        bad_margin: None,
    };
    assert(texts(acc.dont_touch@) =~= Seq::<Seq<char>>::empty());
    assert(acc@ == initial_scan());
    let mut cur: Vec<char> = Vec::new();
    let mut i: usize = 0;
    assert(t@.take(0) =~= Seq::<char>::empty());
    while i < t.len()
        invariant
            i <= t.len(),
            acc@ == scan_lines(line_scan(t@.take(i as int)).0),
            cur@ == line_scan(t@.take(i as int)).1,
        decreases t.len() - i,
    {
        let ghost pre = t@.take(i as int);
        assert(t@.take(i + 1).drop_last() =~= pre);
        if t[i] == '\n' {
            let ghost ls = line_scan(pre).0.push(cur@);
            assert(ls.drop_last() =~= line_scan(pre).0);
            read_line(&mut acc, &cur);
            cur = Vec::new();
            assert(cur@ =~= Seq::<char>::empty());
        } else {
            cur.push(t[i]);
        }
        i = i + 1;
    }
    assert(t@.take(t.len() as int) =~= t@);
    let ghost ls = lines_of(t@);
    assert(ls.drop_last() =~= line_scan(t@).0);
    read_line(&mut acc, &cur);
    assert(acc@ == scan_lines(lines_of(text@)));
    match acc.bad_margin {
        Some(v) => {
            let mut m = String::from_str("hold_margin must be a number, got ");
            let q = quoted(v.as_str());
            m.append(q.as_str());
            return Err(m);
        },
        None => {},
    }
    if acc.buffer.as_str().is_empty() {
        return Err(String::from_str("a `buffer:` (delay cell) is required"));
    }
    let w = acc.rounds_word.as_str();
    let rounds: usize = if str_eq(w, "low") {
        10
    } else if str_eq(w, "medium") {
        40
    } else if str_eq(w, "high") {
        200
    } else {
        let mut m = String::from_str("rounds must be low|medium|high, got ");
        let q = quoted(w);
        m.append(q.as_str());
        return Err(m);
    };
    Ok(HoldCfg { buffer: acc.buffer, hold_margin: acc.margin, rounds, dont_touch: acc.dont_touch })
}


/// A line that sets nothing: it has no `:` before its first `#`, or its key (trimmed,
/// lower-cased) is none of `buffer`, `hold_margin`, `rounds`, `effort` and `dont_touch` —
/// such as the timing keys `design:`, `netlist:`, `lib:`, `clock:`, `spef:` and `sdc:`.
pub open spec fn inert_line(raw: Seq<char>) -> bool {
    let line = trim(before_comment(raw));
    let i = first_of(line, ':');
    let key = lowercase(trim(line.take(i)));
    ||| i < 0
    ||| (key != "buffer"@ && key != "hold_margin"@ && key != "rounds"@ && key != "effort"@
        && key != "dont_touch"@)
}

proof fn lemma_inert_appended(ls: Seq<Seq<char>>, extra: Seq<Seq<char>>)
    requires
        forall|k: int| 0 <= k < extra.len() ==> inert_line(#[trigger] extra[k]),
    ensures
        scan_lines(ls + extra) == scan_lines(ls),
    decreases extra.len(),
{
    if extra.len() == 0 {
        assert(ls + extra =~= ls);
    } else {
        assert((ls + extra).drop_last() =~= ls + extra.drop_last());
        assert((ls + extra).last() == extra.last());
        assert(inert_line(extra[extra.len() - 1]));
        lemma_inert_appended(ls, extra.drop_last());
    }
}

proof fn lemma_inert_prepended(extra: Seq<Seq<char>>, ls: Seq<Seq<char>>)
    requires
        forall|k: int| 0 <= k < extra.len() ==> inert_line(#[trigger] extra[k]),
    ensures
        scan_lines(extra + ls) == scan_lines(ls),
    decreases ls.len(),
{
    if ls.len() == 0 {
        assert(extra + ls =~= Seq::<Seq<char>>::empty() + extra);
        lemma_inert_appended(Seq::<Seq<char>>::empty(), extra);
    } else {
        assert((extra + ls).drop_last() =~= extra + ls.drop_last());
        assert((extra + ls).last() == ls.last());
        lemma_inert_prepended(extra, ls.drop_last());
    }
}

/// Reading `a` and then `b`, where `a` ends at the end of a line, reads the lines of `a`
/// and then those of `b`.
proof fn lemma_line_scan_concat(a: Seq<char>, b: Seq<char>)
    requires
        line_scan(a).1.len() == 0,
    ensures
        line_scan(a + b).0 == line_scan(a).0 + line_scan(b).0,
        line_scan(a + b).1 == line_scan(b).1,
    decreases b.len(),
{
    if b.len() == 0 {
        assert(a + b =~= a);
        assert(line_scan(a).0 + line_scan(b).0 =~= line_scan(a).0);
    } else {
        assert((a + b).drop_last() =~= a + b.drop_last());
        assert((a + b).last() == b.last());
        lemma_line_scan_concat(a, b.drop_last());
        let (d, c) = line_scan(b.drop_last());
        assert((line_scan(a).0 + d).push(c) =~= line_scan(a).0 + d.push(c));
    }
}

/// A text that is empty or ends with a newline has no line in progress.
proof fn lemma_line_scan_whole_lines(t: Seq<char>)
    requires
        t.len() == 0 || t.last() == '\n',
    ensures
        line_scan(t).1.len() == 0,
{
}

/// Law: lines that set nothing change nothing. Putting lines that have no `:` before their
/// first `#`, or whose key is not one of the hold-fix keys (such as the timing keys of a
/// `.sta` job), before or after the lines of a job leaves what the job parses to — its
/// configuration or its error — as it was.
pub proof fn law_unrelated_lines_change_nothing(text: Seq<char>, extra: Seq<char>)
    requires
        text.len() == 0 || text.last() == '\n',
        extra.len() == 0 || extra.last() == '\n',
        forall|k: int|
            0 <= k < line_scan(extra).0.len() ==> inert_line(#[trigger] line_scan(extra).0[k]),
    ensures
        cfg_of(extra + text) == cfg_of(text),
        cfg_of(text + extra) == cfg_of(text),
{
    let e = line_scan(extra).0;
    let d = line_scan(text).0;
    let empty = Seq::<char>::empty();
    lemma_line_scan_whole_lines(text);
    lemma_line_scan_whole_lines(extra);
    assert(inert_line(empty)) by {
        assert(before_comment(empty) =~= empty);
    }
    // extra first
    lemma_line_scan_concat(extra, text);
    assert(lines_of(extra + text) =~= e + lines_of(text));
    lemma_inert_prepended(e, lines_of(text));
    // extra last
    lemma_line_scan_concat(text, extra);
    let tail = e.push(line_scan(extra).1);
    assert(lines_of(text + extra) =~= d + tail);
    assert(line_scan(extra).1 =~= empty);
    assert forall|k: int| 0 <= k < tail.len() implies inert_line(#[trigger] tail[k]) by {
        if k < e.len() {
            assert(tail[k] == e[k]);
        }
    }
    assert(lines_of(text) =~= d + seq![empty]);
    assert forall|k: int| 0 <= k < seq![empty].len() implies inert_line(#[trigger] seq![empty][k]) by {
    }
    lemma_inert_appended(d, tail);
    lemma_inert_appended(d, seq![empty]);
}

} // verus!

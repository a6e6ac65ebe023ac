//! The parts of the run report that are text alone: JSON strings, the ECO manifest's
//! insertion records, and the list of inserted delays.

use vstd::prelude::*;
use crate::emit::join;
use crate::netlist::{decimal, insertion_views, numbered, Insertion, InsertionView};
use crate::text::{chars_of, string_of};

verus! {

/// `s` with `"` and `\` escaped by a backslash.
pub open spec fn json_escaped(s: Seq<char>) -> Seq<char>
    decreases s.len(),
{
    if s.len() == 0 {
        seq![]
    } else {
        json_escaped(s.drop_last()) + if s.last() == '"' {
            seq!['\\', '"']
        } else if s.last() == '\\' {
            seq!['\\', '\\']
        } else {
            seq![s.last()]
        }
    }
}

/// `s` as a JSON string: in double quotes, `"` and `\` escaped (identifiers, Verilog escaped
/// names and bus brackets included).
pub open spec fn json_text(s: Seq<char>) -> Seq<char> {
    seq!['"'] + json_escaped(s) + seq!['"']
}

/// Minimal JSON string escaping.
pub fn json_str(s: &str) -> (r: String)
    ensures
        r@ == json_text(s@),
{
    let v = chars_of(s);
    let mut o: Vec<char> = Vec::new();
    o.push('"');
    let mut i: usize = 0;
    assert(v@.take(0) =~= Seq::<char>::empty());
    while i < v.len()
        invariant
            i <= v.len(),
            o@ == seq!['"'] + json_escaped(v@.take(i as int)),
        decreases v.len() - i,
    {
        assert(v@.take(i + 1).drop_last() =~= v@.take(i as int));
        let c = v[i];
        if c == '"' {
            o.push('\\');
            o.push('"');
        } else if c == '\\' {
            o.push('\\');
            o.push('\\');
        } else {
            o.push(c);
        }
        assert(o@ =~= seq!['"'] + json_escaped(v@.take(i + 1)));
        i = i + 1;
    }
    assert(v@.take(v.len() as int) =~= v@);
    o.push('"');
    string_of(&o)
}

/// One record of the ECO manifest.
pub open spec fn insertion_json_text(i: InsertionView) -> Seq<char> {
    "{\"buffer\":"@ + json_text(i.buffer) + ",\"cell\":"@ + json_text(i.cell) + ",\"in_pin\":"@
        + json_text(i.in_pin) + ",\"out_pin\":"@ + json_text(i.out_pin) + ",\"in_net\":"@
        + json_text(i.in_net) + ",\"out_net\":"@ + json_text(i.out_net) + ",\"cap_inst\":"@
        + json_text(i.cap_inst) + ",\"cap_pin\":"@ + json_text(i.cap_pin) + "}"@
}

/// The ECO manifest's record of one insertion: every field of it, as JSON.
pub fn insertion_json(i: &Insertion) -> (r: String)
    ensures
        r@ == insertion_json_text(i@),
{
    let mut r = String::from_str("{\"buffer\":");
    r.append(json_str(i.buffer.as_str()).as_str());
    r.append(",\"cell\":");
    r.append(json_str(i.cell.as_str()).as_str());
    r.append(",\"in_pin\":");
    r.append(json_str(i.in_pin.as_str()).as_str());
    r.append(",\"out_pin\":");
    r.append(json_str(i.out_pin.as_str()).as_str());
    r.append(",\"in_net\":");
    r.append(json_str(i.in_net.as_str()).as_str());
    r.append(",\"out_net\":");
    r.append(json_str(i.out_net.as_str()).as_str());
    r.append(",\"cap_inst\":");
    r.append(json_str(i.cap_inst.as_str()).as_str());
    r.append(",\"cap_pin\":");
    r.append(json_str(i.cap_pin.as_str()).as_str());
    r.append("}");
    r
}

/// The records of `v`, joined by `,` (the body of the manifest's `insertions` array).
pub open spec fn insertions_json_text(v: Seq<InsertionView>) -> Seq<char> {
    join(v.map_values(|i: InsertionView| insertion_json_text(i)), ","@)
}

/// The records of all insertions, joined by `,`.
pub fn insertions_json(v: &Vec<Insertion>) -> (r: String)
    ensures
        r@ == insertions_json_text(insertion_views(v@)),
{
    let ghost parts = insertion_views(v@).map_values(|i: InsertionView| insertion_json_text(i));
    let mut r = String::new();
    let mut k: usize = 0;
    while k < v.len()
        invariant
            k <= v.len(),
            parts == insertion_views(v@).map_values(|i: InsertionView| insertion_json_text(i)),
            r@ == join(parts.take(k as int), ","@),
        decreases v.len() - k,
    {
        assert(parts.take(k + 1).drop_last() =~= parts.take(k as int));
        if k > 0 {
            r.append(",");
        } else {
            assert(parts.take(0) =~= Seq::<Seq<char>>::empty());
        }
        let x = insertion_json(&v[k]);
        r.append(x.as_str());
        k = k + 1;
    }
    assert(parts.take(v.len() as int) =~= parts);
    r
}

/// `    <buffer> delays <inst>/<pin>` and a newline.
pub open spec fn delay_line(i: InsertionView) -> Seq<char> {
    "    "@ + i.buffer + " delays "@ + i.cap_inst + "/"@ + i.cap_pin + "\n"@
}

/// The lines of `v`, in order.
pub open spec fn delay_lines_text(v: Seq<InsertionView>) -> Seq<char>
    decreases v.len(),
{
    if v.len() == 0 {
        seq![]
    } else {
        delay_lines_text(v.drop_last()) + delay_line(v.last())
    }
}

/// The report's list of inserted delays: the first 20, then how many more there are.
pub open spec fn delay_report(v: Seq<InsertionView>) -> Seq<char> {
    delay_lines_text(v.take(if v.len() < 20 { v.len() as int } else { 20 })) + if v.len() > 20 {
        "    … and "@ + decimal((v.len() - 20) as nat) + " more\n"@
    } else {
        seq![]
    }
}

/// The report's list of inserted delays: each delay buffer and the capture pin it delays.
pub fn delays_report(v: &Vec<Insertion>) -> (r: String)
    ensures
        r@ == delay_report(insertion_views(v@)),
{
    let ghost iv = insertion_views(v@);
    let n: usize = if v.len() < 20 {
        v.len()
    } else {
        20
    };
    let mut r = String::new();
    let mut k: usize = 0;
    assert(iv.take(0) =~= Seq::<InsertionView>::empty());
    while k < n
        invariant
            k <= n <= v.len(),
            iv == insertion_views(v@),
            r@ == delay_lines_text(iv.take(k as int)),
        decreases n - k,
    {
        assert(iv.take(k + 1).drop_last() =~= iv.take(k as int));
        r.append("    ");
        r.append(v[k].buffer.as_str());
        r.append(" delays ");
        r.append(v[k].cap_inst.as_str());
        r.append("/");
        r.append(v[k].cap_pin.as_str());
        r.append("\n");
        k = k + 1;
    }
    if v.len() > 20 {
        r.append("    … and ");
        let m = numbered("", v.len() - 20);
        proof {
            reveal_strlit("");
            assert(m@ =~= decimal((v.len() - 20) as nat));
        }
        r.append(m.as_str());
        r.append(" more\n");
    }
    r
}


/// How many of the characters of `s` are `"` or `\`.
pub open spec fn json_specials(s: Seq<char>) -> nat
    decreases s.len(),
{
    if s.len() == 0 {
        0
    } else {
        json_specials(s.drop_last()) + if s.last() == '"' || s.last() == '\\' {
            1nat
        } else {
            0nat
        }
    }
}

/// What a JSON decoder reads from the body of a string written with the escapes `\"` and
/// `\\`: a backslash and the character after it stand for that character; any other
/// character stands for itself.
pub open spec fn json_unescaped(t: Seq<char>) -> Seq<char>
    decreases t.len(),
{
    if t.len() == 0 {
        seq![]
    } else if t[0] == '\\' && t.len() >= 2 {
        seq![t[1]] + json_unescaped(t.skip(2))
    } else {
        seq![t[0]] + json_unescaped(t.skip(1))
    }
}

/// Escaping works character by character.
pub proof fn lemma_json_escaped_concat(a: Seq<char>, b: Seq<char>)
    ensures
        json_escaped(a + b) == json_escaped(a) + json_escaped(b),
    decreases b.len(),
{
    if b.len() == 0 {
        assert(a + b =~= a);
        assert(json_escaped(a) + json_escaped(b) =~= json_escaped(a));
    } else {
        assert((a + b).drop_last() =~= a + b.drop_last());
        assert((a + b).last() == b.last());
        lemma_json_escaped_concat(a, b.drop_last());
        let x = json_escaped(a);
        let y = json_escaped(b.drop_last());
        let z = if b.last() == '"' {
            seq!['\\', '"']
        } else if b.last() == '\\' {
            seq!['\\', '\\']
        } else {
            seq![b.last()]
        };
        assert(x + y + z =~= x + (y + z));
    }
}

/// Law: a JSON string of `s` is `s` with two quotes and one backslash per `"` or `\`, and
/// a JSON decoder reads `s` back from its body.
pub proof fn law_json_text_round_trip(s: Seq<char>)
    ensures
        json_text(s).len() == s.len() + 2 + json_specials(s),
        json_text(s)[0] == '"',
        json_text(s).last() == '"',
        json_unescaped(json_text(s).subrange(1, json_text(s).len() - 1)) == s,
{
    lemma_json_escaped_len(s);
    lemma_json_unescape_escaped(s);
    assert(json_text(s).subrange(1, json_text(s).len() - 1) =~= json_escaped(s));
}

proof fn lemma_json_escaped_len(s: Seq<char>)
    ensures
        json_escaped(s).len() == s.len() + json_specials(s),
    decreases s.len(),
{
    if s.len() > 0 {
        lemma_json_escaped_len(s.drop_last());
    }
}

proof fn lemma_json_unescape_escaped(s: Seq<char>)
    ensures
        json_unescaped(json_escaped(s)) == s,
    decreases s.len(),
{
    if s.len() > 0 {
        let c = s[0];
        let rest = s.drop_first();
        assert(s =~= seq![c] + rest);
        lemma_json_escaped_concat(seq![c], rest);
        assert(seq![c].drop_last() =~= Seq::<char>::empty());
        assert(seq![c].last() == c);
        assert(json_escaped(Seq::<char>::empty()) =~= Seq::<char>::empty());
        let t = json_escaped(s);
        lemma_json_unescape_escaped(rest);
        if c == '"' || c == '\\' {
            assert(json_escaped(seq![c]) =~= seq!['\\', c]);
            assert(t.skip(2) =~= json_escaped(rest));
        } else {
            assert(json_escaped(seq![c]) =~= seq![c]);
            assert(t.skip(1) =~= json_escaped(rest));
        }
        assert(seq![c] + rest =~= s);
    }
}

} // verus!

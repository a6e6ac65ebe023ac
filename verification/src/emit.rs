//! Emit a structural Verilog netlist (the hold-fixed design).

use vstd::prelude::*;
use crate::netlist::{copy_strings, Inst, InstView, Netlist, NetlistView};
use crate::text::{chars_of, is_prefix, occurs_in, str_eq, texts};

verus! {

/// An identifier as written out. A Verilog **escaped identifier** (`\name[0]`, `\a.b[1]`)
/// is terminated by whitespace — so it is followed by a space before any punctuation
/// (`,`, `;`, `)`), else a parser folds that punctuation into the name. Plain identifiers
/// pass through unchanged.
pub open spec fn id_text(name: Seq<char>) -> Seq<char> {
    if name.len() > 0 && name[0] == '\\' {
        name + " "@
    } else {
        name
    }
}

/// `parts` joined by `sep`.
pub open spec fn join(parts: Seq<Seq<char>>, sep: Seq<char>) -> Seq<char>
    decreases parts.len(),
{
    if parts.len() == 0 {
        seq![]
    } else if parts.len() == 1 {
        parts[0]
    } else {
        join(parts.drop_last(), sep) + sep + parts.last()
    }
}

/// The identifiers `ids`, each written out, joined by `", "`.
pub open spec fn ids_text(ids: Seq<Seq<char>>) -> Seq<char> {
    join(ids.map_values(|n: Seq<char>| id_text(n)), ", "@)
}

/// Every net that an instance connection names, instance by instance, in order.
pub open spec fn conn_nets(insts: Seq<InstView>) -> Seq<Seq<char>>
    decreases insts.len(),
{
    if insts.len() == 0 {
        seq![]
    } else {
        conn_nets(insts.drop_last()) + insts.last().conns.map_values(
            |c: (Seq<char>, Seq<char>)| c.1,
        )
    }
}

/// `nets` without those in `ports` and without repeats, in first-seen order.
pub open spec fn first_seen(nets: Seq<Seq<char>>, ports: Seq<Seq<char>>) -> Seq<Seq<char>>
    decreases nets.len(),
{
    if nets.len() == 0 {
        seq![]
    } else {
        let w = first_seen(nets.drop_last(), ports);
        if ports.contains(nets.last()) || w.contains(nets.last()) {
            w
        } else {
            w.push(nets.last())
        }
    }
}

/// The wires of a netlist: nets referenced by instance connections that aren't primary
/// ports, in first-seen order (deduped).
pub open spec fn wires_of(nl: NetlistView) -> Seq<Seq<char>> {
    first_seen(conn_nets(nl.insts), nl.inputs + nl.outputs)
}

/// `.<pin>(<net>)`.
pub open spec fn conn_text(c: (Seq<char>, Seq<char>)) -> Seq<char> {
    "."@ + c.0 + "("@ + id_text(c.1) + ")"@
}

/// `  <cell> <inst> ( .<pin>(<net>), … );` and a newline.
pub open spec fn inst_line(i: InstView) -> Seq<char> {
    "  "@ + i.cell + " "@ + id_text(i.name) + " ( "@ + join(
        i.conns.map_values(|c: (Seq<char>, Seq<char>)| conn_text(c)),
        ", "@,
    ) + " );\n"@
}

/// One line per instance, in order.
pub open spec fn inst_lines(insts: Seq<InstView>) -> Seq<char>
    decreases insts.len(),
{
    if insts.len() == 0 {
        seq![]
    } else {
        inst_lines(insts.drop_last()) + inst_line(insts.last())
    }
}

/// `<head> <ids>;` and a newline, or nothing when there are no `ids`.
pub open spec fn decl_line(head: Seq<char>, ids: Seq<Seq<char>>) -> Seq<char> {
    if ids.len() == 0 {
        seq![]
    } else {
        head + ids_text(ids) + ";\n"@
    }
}

/// `nl` as structural Verilog: module header, `input`/`output`/`wire` declarations, then
/// one instance line per cell, and `endmodule`.
pub open spec fn verilog(nl: NetlistView) -> Seq<char> {
    "module "@ + nl.module + " ( "@ + ids_text(nl.inputs + nl.outputs) + " );\n"@ + decl_line(
        "  input "@,
        nl.inputs,
    ) + decl_line("  output "@, nl.outputs) + decl_line("  wire "@, wires_of(nl)) + inst_lines(
        nl.insts,
    ) + "endmodule\n"@
}

/// A run found in `s` is found in `p + s + q` too.
proof fn lemma_occurs_within(t: Seq<char>, s: Seq<char>, p: Seq<char>, q: Seq<char>)
    requires
        occurs_in(t, s),
    ensures
        occurs_in(t, p + s + q),
{
    let i = choose|i: int| 0 <= i <= s.len() - t.len() && #[trigger] s.subrange(i, i + t.len()) == t;
    let w = p + s + q;
    assert(w.subrange(p.len() + i, p.len() + i + t.len()) =~= s.subrange(i, i + t.len()));
}

/// Each part of a join occurs in it.
proof fn lemma_join_has_parts(parts: Seq<Seq<char>>, sep: Seq<char>, k: int)
    requires
        0 <= k < parts.len(),
    ensures
        occurs_in(parts[k], join(parts, sep)),
    decreases parts.len(),
{
    let t = parts[k];
    let w = join(parts, sep);
    if parts.len() == 1 {
        assert(w.subrange(0, 0 + t.len() as int) =~= t);
    } else if k == parts.len() - 1 {
        let i = (join(parts.drop_last(), sep) + sep).len() as int;
        assert(w.subrange(i, i + t.len() as int) =~= t);
    } else {
        assert(parts.drop_last()[k] == t);
        lemma_join_has_parts(parts.drop_last(), sep, k);
        lemma_occurs_within(t, join(parts.drop_last(), sep), seq![], sep + parts.last());
        assert(seq![] + join(parts.drop_last(), sep) + (sep + parts.last()) =~= join(parts, sep));
    }
}

/// Law: the module header names every port as an identifier. The Verilog of `nl` begins
/// with `module <name> ( <ports> );` where the ports — inputs, then outputs — are each
/// written as identifiers; so an escaped port, like every escaped identifier of the text,
/// is followed by a space there, and a reader never folds the `,` or `)` after it into its
/// name.
pub proof fn law_header_ports_are_identifiers(nl: NetlistView)
    ensures
        ({
            let ports = nl.inputs + nl.outputs;
            let header = "module "@ + nl.module + " ( "@ + ids_text(ports) + " );\n"@;
            &&& is_prefix(header, verilog(nl))
            &&& forall|k: int|
                0 <= k < ports.len() ==> occurs_in(id_text(#[trigger] ports[k]), header)
            &&& forall|k: int|
                0 <= k < ports.len() && ports[k].len() > 0 && ports[k][0] == '\\' ==> occurs_in(
                    #[trigger] ports[k] + " "@,
                    header,
                )
        }),
{
    let ports = nl.inputs + nl.outputs;
    let header = "module "@ + nl.module + " ( "@ + ids_text(ports) + " );\n"@;
    let v = verilog(nl);
    assert(v.take(header.len() as int) =~= header);
    let parts = ports.map_values(|n: Seq<char>| id_text(n));
    assert forall|k: int| 0 <= k < ports.len() implies occurs_in(id_text(#[trigger] ports[k]), header) by {
        assert(parts[k] == id_text(ports[k]));
        lemma_join_has_parts(parts, ", "@, k);
        lemma_occurs_within(id_text(ports[k]), ids_text(ports), "module "@ + nl.module + " ( "@, " );\n"@);
    }
    assert forall|k: int|
        0 <= k < ports.len() && ports[k].len() > 0 && ports[k][0] == '\\' implies occurs_in(
        #[trigger] ports[k] + " "@,
        header,
    ) by {
        assert(occurs_in(id_text(ports[k]), header));
    }
}

/// Each instance's line occurs in the lines of all instances.
proof fn lemma_inst_lines_have_lines(insts: Seq<InstView>, k: int)
    requires
        0 <= k < insts.len(),
    ensures
        occurs_in(inst_line(insts[k]), inst_lines(insts)),
    decreases insts.len(),
{
    let t = inst_line(insts[k]);
    let w = inst_lines(insts);
    if k == insts.len() - 1 {
        let i = inst_lines(insts.drop_last()).len() as int;
        assert(w.subrange(i, i + t.len() as int) =~= t);
    } else {
        assert(insts.drop_last()[k] == insts[k]);
        lemma_inst_lines_have_lines(insts.drop_last(), k);
        lemma_occurs_within(t, inst_lines(insts.drop_last()), seq![], inst_line(insts.last()));
        assert(seq![] + inst_lines(insts.drop_last()) + inst_line(insts.last()) =~= w);
    }
}

/// Law: every identifier of the text is written as an identifier, so an escaped one is
/// always followed by a space. Right after the header come the `input` and the `output`
/// declarations, which name each input and each output port as an identifier; and the
/// text holds, for each instance, its line, which names the instance and every net on its
/// pins as identifiers.
pub proof fn law_identifiers_everywhere(nl: NetlistView)
    ensures
        ({
            let ports = nl.inputs + nl.outputs;
            let header = "module "@ + nl.module + " ( "@ + ids_text(ports) + " );\n"@;
            let ins = decl_line("  input "@, nl.inputs);
            let outs = decl_line("  output "@, nl.outputs);
            &&& is_prefix(header + ins + outs, verilog(nl))
            &&& forall|k: int|
                0 <= k < nl.inputs.len() ==> occurs_in(id_text(#[trigger] nl.inputs[k]), ins)
            &&& forall|k: int|
                0 <= k < nl.outputs.len() ==> occurs_in(id_text(#[trigger] nl.outputs[k]), outs)
            &&& forall|k: int|
                0 <= k < nl.insts.len() ==> occurs_in(inst_line(#[trigger] nl.insts[k]), verilog(nl))
        }),
        forall|i: InstView, c: int|
            0 <= c < i.conns.len() ==> occurs_in(id_text(i.name), #[trigger] inst_line(i))
                && occurs_in(id_text(#[trigger] i.conns[c].1), inst_line(i)),
{
    let ports = nl.inputs + nl.outputs;
    let header = "module "@ + nl.module + " ( "@ + ids_text(ports) + " );\n"@;
    let ins = decl_line("  input "@, nl.inputs);
    let outs = decl_line("  output "@, nl.outputs);
    let v = verilog(nl);
    let rest = decl_line("  wire "@, wires_of(nl)) + inst_lines(nl.insts) + "endmodule\n"@;
    assert(v =~= header + ins + outs + rest);
    assert(v.take((header + ins + outs).len() as int) =~= header + ins + outs);
    assert forall|k: int| 0 <= k < nl.inputs.len() implies occurs_in(
        id_text(#[trigger] nl.inputs[k]),
        ins,
    ) by {
        let parts = nl.inputs.map_values(|n: Seq<char>| id_text(n));
        assert(parts[k] == id_text(nl.inputs[k]));
        lemma_join_has_parts(parts, ", "@, k);
        lemma_occurs_within(id_text(nl.inputs[k]), ids_text(nl.inputs), "  input "@, ";\n"@);
    }
    assert forall|k: int| 0 <= k < nl.outputs.len() implies occurs_in(
        id_text(#[trigger] nl.outputs[k]),
        outs,
    ) by {
        let parts = nl.outputs.map_values(|n: Seq<char>| id_text(n));
        assert(parts[k] == id_text(nl.outputs[k]));
        lemma_join_has_parts(parts, ", "@, k);
        lemma_occurs_within(id_text(nl.outputs[k]), ids_text(nl.outputs), "  output "@, ";\n"@);
    }
    assert forall|k: int| 0 <= k < nl.insts.len() implies occurs_in(
        inst_line(#[trigger] nl.insts[k]),
        verilog(nl),
    ) by {
        lemma_inst_lines_have_lines(nl.insts, k);
        let before = header + ins + outs + decl_line("  wire "@, wires_of(nl));
        lemma_occurs_within(inst_line(nl.insts[k]), inst_lines(nl.insts), before, "endmodule\n"@);
        assert(before + inst_lines(nl.insts) + "endmodule\n"@ =~= v);
    }
    assert forall|i: InstView, c: int| 0 <= c < i.conns.len() implies occurs_in(
        id_text(i.name),
        #[trigger] inst_line(i),
    ) && occurs_in(id_text(#[trigger] i.conns[c].1), inst_line(i)) by {
        let line = inst_line(i);
        let pre = "  "@ + i.cell + " "@;
        let parts = i.conns.map_values(|cn: (Seq<char>, Seq<char>)| conn_text(cn));
        let body = join(parts, ", "@);
        assert(line =~= pre + id_text(i.name) + (" ( "@ + body + " );\n"@));
        assert(line.subrange(pre.len() as int, pre.len() + id_text(i.name).len() as int) =~= id_text(i.name));
        assert(parts[c] == conn_text(i.conns[c]));
        lemma_join_has_parts(parts, ", "@, c);
        let ct = conn_text(i.conns[c]);
        let cpre = "."@ + i.conns[c].0 + "("@;
        assert(ct =~= cpre + id_text(i.conns[c].1) + ")"@);
        assert(ct.subrange(cpre.len() as int, cpre.len() + id_text(i.conns[c].1).len() as int) =~= id_text(i.conns[c].1));
        let j = choose|j: int| 0 <= j <= body.len() - ct.len() && #[trigger] body.subrange(j, j + ct.len()) == ct;
        let off = (pre + id_text(i.name) + " ( "@).len() + j + cpre.len();
        assert(line =~= pre + id_text(i.name) + " ( "@ + body + " );\n"@);
        assert(line.subrange(off, off + id_text(i.conns[c].1).len()) =~= id_text(i.conns[c].1)) by {
            assert(body.subrange(j, j + ct.len()) == ct);
            assert forall|q: int| 0 <= q < id_text(i.conns[c].1).len() implies line.subrange(off, off + id_text(i.conns[c].1).len())[q] == id_text(i.conns[c].1)[q] by {
                assert(line[off + q] == body[j + cpre.len() + q]);
                assert(body[j + cpre.len() + q] == ct[cpre.len() + q]);
                assert(ct[cpre.len() + q] == id_text(i.conns[c].1)[q]);
            }
        }
    }
}

/// Render an identifier for output (see [`id_text`]).
pub fn id(name: &str) -> (r: String)
    ensures
        r@ == id_text(name@),
{
    let v = chars_of(name);
    let mut r = String::from_str(name);
    if v.len() > 0 && v[0] == '\\' {
        r.append(" ");
    }
    r
}

/// The identifiers `ids`, each rendered by [`id`], joined by `", "`.
pub fn join_ids(ids: &Vec<String>) -> (r: String)
    ensures
        r@ == ids_text(texts(ids@)),
{
    let ghost parts = texts(ids@).map_values(|n: Seq<char>| id_text(n));
    let mut r = String::new();
    let mut i: usize = 0;
    while i < ids.len()
        invariant
            i <= ids.len(),
            parts == texts(ids@).map_values(|n: Seq<char>| id_text(n)),
            r@ == join(parts.take(i as int), ", "@),
        decreases ids.len() - i,
    {
        assert(parts.take(i + 1).drop_last() =~= parts.take(i as int));
        if i > 0 {
            r.append(", ");
        } else {
            assert(parts.take(0) =~= Seq::<Seq<char>>::empty());
        }
        let x = id(ids[i].as_str());
        r.append(x.as_str());
        i = i + 1;
    }
    assert(parts.take(ids.len() as int) =~= parts);
    r
}


/// Whether `x` is one of `v`.
fn contains_name(v: &Vec<String>, x: &str) -> (r: bool)
    ensures
        r == texts(v@).contains(x@),
{
    let mut i: usize = 0;
    while i < v.len()
        invariant
            i <= v.len(),
            forall|k: int| 0 <= k < i ==> texts(v@)[k] != x@,
        decreases v.len() - i,
    {
        if str_eq(v[i].as_str(), x) {
            assert(texts(v@)[i as int] == x@);
            return true;
        }
        i = i + 1;
    }
    false
}

/// The nets of `conns`, in order.
pub open spec fn nets_of(conns: Seq<(Seq<char>, Seq<char>)>) -> Seq<Seq<char>> {
    conns.map_values(|c: (Seq<char>, Seq<char>)| c.1)
}

fn collect_wires(nl: &Netlist, ports: &Vec<String>) -> (r: Vec<String>)
    requires
        texts(ports@) == nl@.inputs + nl@.outputs,
    ensures
        texts(r@) == wires_of(nl@),
{
    let ghost pv = texts(ports@);
    let ghost iv = nl@.insts;
    let mut wires: Vec<String> = Vec::new();
    let mut i: usize = 0;
    assert(iv.take(0) =~= Seq::<InstView>::empty());
    assert(texts(wires@) =~= Seq::<Seq<char>>::empty());
    while i < nl.insts.len()
        invariant
            i <= nl.insts.len(),
            iv == nl@.insts,
            pv == texts(ports@),
            texts(wires@) == first_seen(conn_nets(iv.take(i as int)), pv),
        decreases nl.insts.len() - i,
    {
        let conns = &nl.insts[i].conns;
        let ghost cn = nets_of(iv[i as int].conns);
        let ghost pre = conn_nets(iv.take(i as int));
        assert(iv.take(i + 1).drop_last() =~= iv.take(i as int));
        assert(conn_nets(iv.take(i + 1)) == pre + cn);
        let mut c: usize = 0;
        assert(pre + cn.take(0) =~= pre);
        while c < conns.len()
            invariant
                i < nl.insts.len(),
                conns == nl.insts@[i as int].conns,
                iv == nl@.insts,
                cn == nets_of(iv[i as int].conns),
                c <= conns.len(),
                pv == texts(ports@),
                texts(wires@) == first_seen(pre + cn.take(c as int), pv),
            decreases conns.len() - c,
        {
            let net = conns[c].1.as_str();
            let ghost seqc = pre + cn.take(c as int);
            assert((pre + cn.take(c + 1)).drop_last() =~= seqc);
            assert((pre + cn.take(c + 1)).last() == net@);
            if !contains_name(ports, net) && !contains_name(&wires, net) {
                let ghost before = wires@;
                wires.push(conns[c].1.clone());
                assert(texts(wires@) =~= texts(before).push(net@));
            }
            c = c + 1;
        }
        assert(cn.take(conns.len() as int) =~= cn);
        i = i + 1;
    }
    assert(iv.take(nl.insts.len() as int) =~= iv);
    wires
}

/// `.<pin>(<net>)` for one connection.
fn conn_string(pin: &str, net: &str) -> (r: String)
    ensures
        r@ == conn_text((pin@, net@)),
{
    let mut r = String::from_str(".");
    r.append(pin);
    r.append("(");
    let n = id(net);
    r.append(n.as_str());
    r.append(")");
    r
}

/// The line of one instance.
fn inst_string(inst: &Inst) -> (r: String)
    ensures
        r@ == inst_line(inst@),
{
    let ghost parts = inst@.conns.map_values(|c: (Seq<char>, Seq<char>)| conn_text(c));
    let mut body = String::new();
    let mut i: usize = 0;
    while i < inst.conns.len()
        invariant
            i <= inst.conns.len(),
            parts == inst@.conns.map_values(|c: (Seq<char>, Seq<char>)| conn_text(c)),
            body@ == join(parts.take(i as int), ", "@),
        decreases inst.conns.len() - i,
    {
        assert(parts.take(i + 1).drop_last() =~= parts.take(i as int));
        if i > 0 {
            body.append(", ");
        } else {
            assert(parts.take(0) =~= Seq::<Seq<char>>::empty());
        }
        let x = conn_string(inst.conns[i].0.as_str(), inst.conns[i].1.as_str());
        body.append(x.as_str());
        i = i + 1;
    }
    assert(parts.take(inst.conns.len() as int) =~= parts);
    let mut r = String::from_str("  ");
    r.append(inst.cell.as_str());
    r.append(" ");
    let n = id(inst.name.as_str());
    r.append(n.as_str());
    r.append(" ( ");
    r.append(body.as_str());
    r.append(" );\n");
    r
}

/// Appends `<head> <ids>;` and a newline to `out`, unless `ids` is empty.
fn push_decl(out: &mut String, head: &str, ids: &Vec<String>)
    ensures
        final(out)@ == old(out)@ + decl_line(head@, texts(ids@)),
{
    if ids.len() > 0 {
        out.append(head);
        let j = join_ids(ids);
        out.append(j.as_str());
        out.append(";\n");
    }
}

/// Render `nl` as structural Verilog: module header, `input`/`output`/`wire` declarations,
/// then one instance line per cell (`<cell> <inst> ( .<pin>(<net>), … );`).
pub fn to_verilog(nl: &Netlist) -> (r: String)
    ensures
        r@ == verilog(nl@),
        is_prefix(
            "module "@ + nl@.module + " ( "@ + ids_text(nl@.inputs + nl@.outputs) + " );\n"@,
            r@,
        ),
{
    proof {
        law_header_ports_are_identifiers(nl@);
    }
    let mut ports = copy_strings(&nl.inputs);
    let mut outs = copy_strings(&nl.outputs);
    let ghost pin = ports@;
    let ghost pout = outs@;
    ports.append(&mut outs);
    assert(texts(ports@) =~= texts(pin) + texts(pout));
    let mut s = String::from_str("module ");
    s.append(nl.module.as_str());
    s.append(" ( ");
    let p = join_ids(&ports);
    s.append(p.as_str());
    s.append(" );\n");
    push_decl(&mut s, "  input ", &nl.inputs);
    push_decl(&mut s, "  output ", &nl.outputs);
    let wires = collect_wires(nl, &ports);
    push_decl(&mut s, "  wire ", &wires);
    let ghost head = s@;
    let mut i: usize = 0;
    assert(nl@.insts.take(0) =~= Seq::<InstView>::empty());
    while i < nl.insts.len()
        invariant
            i <= nl.insts.len(),
            s@ == head + inst_lines(nl@.insts.take(i as int)),
        decreases nl.insts.len() - i,
    {
        assert(nl@.insts.take(i + 1).drop_last() =~= nl@.insts.take(i as int));
        let line = inst_string(&nl.insts[i]);
        s.append(line.as_str());
        i = i + 1;
    }
    assert(nl@.insts.take(nl.insts.len() as int) =~= nl@.insts);
    s.append("endmodule\n");
    s
}

} // verus!

//! A gate-level netlist as the hold fix edits it: a module with its ports and its cell
//! instances, each instance connecting pins to nets; and the series-delay edit itself.

use vstd::prelude::*;
use crate::text::{str_eq, string_of, texts};

verus! {

/// One cell instance: `<cell> <name> ( .<pin>(<net>), … );`.
#[derive(Debug, Clone)]
pub struct Inst {
    pub cell: String,
    pub name: String,
    /// `(pin, net)` for each connection, in order.
    pub conns: Vec<(String, String)>,
}

/// The mathematical value of an [`Inst`].
#[verifier::ext_equal]
pub struct InstView {
    pub cell: Seq<char>,
    pub name: Seq<char>,
    pub conns: Seq<(Seq<char>, Seq<char>)>,
}

/// The characters of each `(pin, net)` pair.
pub open spec fn conn_texts(c: Seq<(String, String)>) -> Seq<(Seq<char>, Seq<char>)> {
    c.map_values(|p: (String, String)| (p.0@, p.1@))
}

impl View for Inst {
    type V = InstView;

    open spec fn view(&self) -> InstView {
        InstView { cell: self.cell@, name: self.name@, conns: conn_texts(self.conns@) }
    }
}

/// A structural netlist: module name, primary inputs and outputs, and instances.
#[derive(Debug, Clone)]
pub struct Netlist {
    pub module: String,
    pub inputs: Vec<String>,
    pub outputs: Vec<String>,
    pub insts: Vec<Inst>,
}

/// The mathematical value of a [`Netlist`].
#[verifier::ext_equal]
pub struct NetlistView {
    pub module: Seq<char>,
    pub inputs: Seq<Seq<char>>,
    pub outputs: Seq<Seq<char>>,
    pub insts: Seq<InstView>,
}

/// The value of each instance.
pub open spec fn inst_views(v: Seq<Inst>) -> Seq<InstView> {
    v.map_values(|i: Inst| i@)
}

impl View for Netlist {
    type V = NetlistView;

    open spec fn view(&self) -> NetlistView {
        NetlistView {
            module: self.module@,
            inputs: texts(self.inputs@),
            outputs: texts(self.outputs@),
            insts: inst_views(self.insts@),
        }
    }
}

/// A delay buffer inserted in series in front of a capture pin: the buffer instance `buffer`
/// of cell `cell` takes `in_net` on `in_pin` and drives `out_net` from `out_pin`, and
/// `out_net` now feeds pin `cap_pin` of instance `cap_inst`.
#[derive(Debug, Clone)]
pub struct Insertion {
    pub buffer: String,
    pub cell: String,
    pub in_pin: String,
    pub out_pin: String,
    pub in_net: String,
    pub out_net: String,
    pub cap_inst: String,
    pub cap_pin: String,
}

/// The mathematical value of an [`Insertion`].
pub struct InsertionView {
    pub buffer: Seq<char>,
    pub cell: Seq<char>,
    pub in_pin: Seq<char>,
    pub out_pin: Seq<char>,
    pub in_net: Seq<char>,
    pub out_net: Seq<char>,
    pub cap_inst: Seq<char>,
    pub cap_pin: Seq<char>,
}

impl View for Insertion {
    type V = InsertionView;

    open spec fn view(&self) -> InsertionView {
        InsertionView {
            buffer: self.buffer@,
            cell: self.cell@,
            in_pin: self.in_pin@,
            out_pin: self.out_pin@,
            in_net: self.in_net@,
            out_net: self.out_net@,
            cap_inst: self.cap_inst@,
            cap_pin: self.cap_pin@,
        }
    }
}

/// The value of each insertion.
pub open spec fn insertion_views(v: Seq<Insertion>) -> Seq<InsertionView> {
    v.map_values(|i: Insertion| i@)
}

/// The decimal digit `d` (for `d < 10`).
pub open spec fn digit_char(d: nat) -> char {
    seq!['0', '1', '2', '3', '4', '5', '6', '7', '8', '9'][d as int]
}

/// `n` written in decimal, as `Display` for integers writes it.
pub open spec fn decimal(n: nat) -> Seq<char>
    decreases n,
{
    if n < 10 {
        seq![digit_char(n)]
    } else {
        decimal(n / 10).push(digit_char(n % 10))
    }
}

/// The name of the net driven by the `k`-th inserted buffer: `__hold_n<k>`.
pub open spec fn hold_net(k: nat) -> Seq<char> {
    "__hold_n"@ + decimal(k)
}

/// The name of the `k`-th inserted buffer: `__hold_buf<k>`.
pub open spec fn hold_buf(k: nat) -> Seq<char> {
    "__hold_buf"@ + decimal(k)
}

/// A decimal numeral has at least one digit.
pub proof fn lemma_decimal_nonempty(n: nat)
    ensures
        decimal(n).len() >= 1,
    decreases n,
{
    if n >= 10 {
        lemma_decimal_nonempty(n / 10);
    }
}

/// Different numbers have different decimal numerals.
pub proof fn lemma_decimal_injective(a: nat, b: nat)
    requires
        decimal(a) == decimal(b),
    ensures
        a == b,
    decreases a + b,
{
    let ds = seq!['0', '1', '2', '3', '4', '5', '6', '7', '8', '9'];
    if a < 10 && b < 10 {
        assert(decimal(a)[0] == ds[a as int]);
        assert(decimal(b)[0] == ds[b as int]);
    } else if a < 10 {
        lemma_decimal_nonempty(b / 10);
        assert(decimal(b).len() >= 2);
    } else if b < 10 {
        lemma_decimal_nonempty(a / 10);
        assert(decimal(a).len() >= 2);
    } else {
        assert(decimal(a).drop_last() =~= decimal(a / 10));
        assert(decimal(b).drop_last() =~= decimal(b / 10));
        lemma_decimal_injective(a / 10, b / 10);
        assert(decimal(a).last() == ds[(a % 10) as int]);
        assert(decimal(b).last() == ds[(b % 10) as int]);
    }
}

/// Distinct buffers drive distinct nets, and get distinct names.
pub proof fn lemma_hold_names_injective(a: nat, b: nat)
    requires
        a != b,
    ensures
        hold_net(a) != hold_net(b),
        hold_buf(a) != hold_buf(b),
{
    reveal_strlit("__hold_n");
    reveal_strlit("__hold_buf");
    if hold_net(a) == hold_net(b) {
        assert(hold_net(a).skip(8) =~= decimal(a));
        assert(hold_net(b).skip(8) =~= decimal(b));
        lemma_decimal_injective(a, b);
    }
    if hold_buf(a) == hold_buf(b) {
        assert(hold_buf(a).skip(10) =~= decimal(a));
        assert(hold_buf(b).skip(10) =~= decimal(b));
        lemma_decimal_injective(a, b);
    }
}

fn push_decimal(out: &mut Vec<char>, n: usize)
    ensures
        final(out)@ == old(out)@ + decimal(n as nat),
    decreases n,
{
    let ds: [char; 10] = ['0', '1', '2', '3', '4', '5', '6', '7', '8', '9'];
    assert(ds@ == seq!['0', '1', '2', '3', '4', '5', '6', '7', '8', '9']);
    if n >= 10 {
        push_decimal(out, n / 10);
    }
    out.push(ds[n % 10]);
    assert(out@ =~= old(out)@ + decimal(n as nat));
}

/// `prefix` followed by `n` in decimal.
pub fn numbered(prefix: &str, n: usize) -> (r: String)
    ensures
        r@ == prefix@ + decimal(n as nat),
{
    let mut v: Vec<char> = Vec::new();
    push_decimal(&mut v, n);
    let mut r = String::from_str(prefix);
    let d = string_of(&v);
    r.append(d.as_str());
    r
}


/// The index of the first instance named `name`, or -1.
pub open spec fn find_inst(insts: Seq<InstView>, name: Seq<char>) -> int
    decreases insts.len(),
{
    if insts.len() == 0 {
        -1
    } else if insts[0].name == name {
        0
    } else {
        let r = find_inst(insts.drop_first(), name);
        if r < 0 {
            -1
        } else {
            r + 1
        }
    }
}

/// The index of the first connection of pin `pin`, or -1.
pub open spec fn find_pin(conns: Seq<(Seq<char>, Seq<char>)>, pin: Seq<char>) -> int
    decreases conns.len(),
{
    if conns.len() == 0 {
        -1
    } else if conns[0].0 == pin {
        0
    } else {
        let r = find_pin(conns.drop_first(), pin);
        if r < 0 {
            -1
        } else {
            r + 1
        }
    }
}

proof fn lemma_find_inst(insts: Seq<InstView>, name: Seq<char>, i: int)
    requires
        0 <= i <= insts.len(),
        forall|k: int| 0 <= k < i ==> #[trigger] insts[k].name != name,
        i < insts.len() ==> insts[i].name == name,
    ensures
        find_inst(insts, name) == if i == insts.len() { -1 } else { i },
    decreases i,
{
    if i > 0 {
        assert forall|k: int| 0 <= k < i - 1 implies #[trigger] insts.drop_first()[k].name
            != name by {
            assert(insts.drop_first()[k] == insts[k + 1]);
        }
        lemma_find_inst(insts.drop_first(), name, i - 1);
    }
}

proof fn lemma_find_pin(conns: Seq<(Seq<char>, Seq<char>)>, pin: Seq<char>, i: int)
    requires
        0 <= i <= conns.len(),
        forall|k: int| 0 <= k < i ==> #[trigger] conns[k].0 != pin,
        i < conns.len() ==> conns[i].0 == pin,
    ensures
        find_pin(conns, pin) == if i == conns.len() { -1 } else { i },
    decreases i,
{
    if i > 0 {
        assert forall|k: int| 0 <= k < i - 1 implies #[trigger] conns.drop_first()[k].0
            != pin by {
            assert(conns.drop_first()[k] == conns[k + 1]);
        }
        lemma_find_pin(conns.drop_first(), pin, i - 1);
    }
}

/// The series-delay edit: the first instance named `inst` has its first connection of pin
/// `pin` moved from its net to the fresh net `hold_net(k)`, and a new instance `hold_buf(k)`
/// of cell `cell` is appended that takes the old net on `bin` and drives `hold_net(k)` from
/// `bout`. `None` when there is no such instance or pin.
pub open spec fn series_delay(
    nl: NetlistView,
    inst: Seq<char>,
    pin: Seq<char>,
    cell: Seq<char>,
    bin: Seq<char>,
    bout: Seq<char>,
    k: nat,
) -> Option<(NetlistView, InsertionView)> {
    let i = find_inst(nl.insts, inst);
    let c = find_pin(nl.insts[i].conns, pin);
    if i < 0 || c < 0 {
        None
    } else {
        let target = nl.insts[i];
        let old_net = target.conns[c].1;
        let rewired = InstView {
            conns: target.conns.update(c, (target.conns[c].0, hold_net(k))),
            ..target
        };
        let buf = InstView {
            cell: cell,
            name: hold_buf(k),
            conns: seq![(bin, old_net), (bout, hold_net(k))],
        };
        Some(
            (
                NetlistView { insts: nl.insts.update(i, rewired).push(buf), ..nl },
                InsertionView {
                    buffer: hold_buf(k),
                    cell: cell,
                    in_pin: bin,
                    out_pin: bout,
                    in_net: old_net,
                    out_net: hold_net(k),
                    cap_inst: inst,
                    cap_pin: pin,
                },
            ),
        )
    }
}

/// `find_inst` gives -1 or an index of `insts`.
pub proof fn lemma_find_inst_bound(insts: Seq<InstView>, name: Seq<char>)
    ensures
        -1 <= find_inst(insts, name) < insts.len(),
        find_inst(insts, name) >= 0 ==> insts[find_inst(insts, name)].name == name,
    decreases insts.len(),
{
    if insts.len() > 0 {
        lemma_find_inst_bound(insts.drop_first(), name);
        if find_inst(insts.drop_first(), name) >= 0 {
            assert(insts.drop_first()[find_inst(insts.drop_first(), name)] == insts[find_inst(insts.drop_first(), name) + 1]);
        }
    }
}

/// `find_pin` gives -1 or an index of `conns`.
pub proof fn lemma_find_pin_bound(conns: Seq<(Seq<char>, Seq<char>)>, pin: Seq<char>)
    ensures
        -1 <= find_pin(conns, pin) < conns.len(),
        find_pin(conns, pin) >= 0 ==> conns[find_pin(conns, pin)].0 == pin,
    decreases conns.len(),
{
    if conns.len() > 0 {
        lemma_find_pin_bound(conns.drop_first(), pin);
        if find_pin(conns.drop_first(), pin) >= 0 {
            assert(conns.drop_first()[find_pin(conns.drop_first(), pin)] == conns[find_pin(conns.drop_first(), pin) + 1]);
        }
    }
}

/// A series delay adds exactly one instance, keeps every other instance, and puts the new
/// buffer last.
pub proof fn lemma_series_delay_shape(
    nl: NetlistView,
    inst: Seq<char>,
    pin: Seq<char>,
    cell: Seq<char>,
    bin: Seq<char>,
    bout: Seq<char>,
    k: nat,
)
    ensures
        series_delay(nl, inst, pin, cell, bin, bout, k) matches Some((n2, ins)) ==> {
            let i = find_inst(nl.insts, inst);
            &&& 0 <= i < nl.insts.len()
            &&& n2.insts.len() == nl.insts.len() + 1
            &&& n2.module == nl.module
            &&& n2.inputs == nl.inputs
            &&& n2.outputs == nl.outputs
            &&& forall|j: int| 0 <= j < nl.insts.len() && j != i ==> n2.insts[j] == nl.insts[j]
            &&& n2.insts[i].name == nl.insts[i].name
            &&& n2.insts[i].cell == nl.insts[i].cell
            &&& n2.insts.last() == (InstView {
                cell: cell,
                name: hold_buf(k),
                conns: seq![(bin, ins.in_net), (bout, hold_net(k))],
            })
        },
{
    lemma_find_inst_bound(nl.insts, inst);
    let i = find_inst(nl.insts, inst);
    if i >= 0 {
        lemma_find_pin_bound(nl.insts[i].conns, pin);
    }
}

/// `net` is the net of a buffer numbered `k` or later.
pub open spec fn numbered_net(net: Seq<char>, k: nat) -> bool {
    exists|j: nat| j >= k && #[trigger] hold_net(j) == net
}

/// No net of `nl` is the net of a buffer numbered `k` or later: buffers from `k` on get
/// nets of their own.
pub open spec fn fresh_from(nl: NetlistView, k: nat) -> bool {
    forall|i: int, c: int|
        0 <= i < nl.insts.len() && 0 <= c < nl.insts[i].conns.len() ==> !numbered_net(
            #[trigger] nl.insts[i].conns[c].1,
            k,
        )
}

/// The buffer numbered `k` drives a net that no buffer numbered later drives.
pub proof fn lemma_hold_net_not_later(k: nat)
    ensures
        !numbered_net(hold_net(k), k + 1),
{
    if numbered_net(hold_net(k), k + 1) {
        let j = choose|j: nat| j >= k + 1 && #[trigger] hold_net(j) == hold_net(k);
        lemma_hold_names_injective(j, k);
    }
}

/// On a netlist whose nets are fresh from `k`, the series delay numbered `k` takes a net
/// that is not its own output, and leaves the nets fresh from `k + 1`.
pub proof fn lemma_series_delay_fresh(
    nl: NetlistView,
    inst: Seq<char>,
    pin: Seq<char>,
    cell: Seq<char>,
    bin: Seq<char>,
    bout: Seq<char>,
    k: nat,
)
    requires
        fresh_from(nl, k),
    ensures
        series_delay(nl, inst, pin, cell, bin, bout, k) matches Some((n2, ins)) ==> {
            &&& ins.in_net != ins.out_net
            &&& fresh_from(n2, k + 1)
        },
{
    lemma_find_inst_bound(nl.insts, inst);
    let i = find_inst(nl.insts, inst);
    if i >= 0 {
        lemma_find_pin_bound(nl.insts[i].conns, pin);
    }
    if let Some((n2, ins)) = series_delay(nl, inst, pin, cell, bin, bout, k) {
        let c = find_pin(nl.insts[i].conns, pin);
        let old_net = nl.insts[i].conns[c].1;
        assert(!numbered_net(old_net, k));
        lemma_hold_net_not_later(k);
        assert forall|a: int, b: int|
            0 <= a < n2.insts.len() && 0 <= b < n2.insts[a].conns.len() implies !numbered_net(
            #[trigger] n2.insts[a].conns[b].1,
            k + 1,
        ) by {
            if a == nl.insts.len() {
                assert(n2.insts[a].conns == seq![(bin, old_net), (bout, hold_net(k))]);
            } else if a == i {
                if b != c {
                    assert(n2.insts[a].conns[b] == nl.insts[a].conns[b]);
                    assert(!numbered_net(nl.insts[a].conns[b].1, k));
                }
            } else {
                assert(n2.insts[a] == nl.insts[a]);
                assert(!numbered_net(nl.insts[a].conns[b].1, k));
            }
        }
    }
}

/// `s` is the name of a delay buffer, `__hold_buf<k>` for some `k`.
pub open spec fn is_buffer_name(s: Seq<char>) -> bool {
    exists|k: nat| #[trigger] hold_buf(k) == s
}

/// The net on pin `pin` of instance `inst` — the first connection of that pin on the first
/// instance of that name — or `None` when there is no such pin.
pub open spec fn pin_net(nl: NetlistView, inst: Seq<char>, pin: Seq<char>) -> Option<Seq<char>> {
    let i = find_inst(nl.insts, inst);
    let c = find_pin(nl.insts[i].conns, pin);
    if i < 0 || c < 0 {
        None
    } else {
        Some(nl.insts[i].conns[c].1)
    }
}

/// Instances with the same names, in the same places, are found at the same place, also
/// when more instances of other names follow.
proof fn lemma_find_inst_same_names(a: Seq<InstView>, b: Seq<InstView>, name: Seq<char>)
    requires
        a.len() <= b.len(),
        forall|k: int| 0 <= k < a.len() ==> #[trigger] a[k].name == b[k].name,
        forall|k: int| a.len() <= k < b.len() ==> #[trigger] b[k].name != name,
    ensures
        find_inst(a, name) == find_inst(b, name),
    decreases a.len(),
{
    if a.len() == 0 {
        lemma_find_inst(b, name, b.len() as int);
        lemma_find_inst(a, name, 0);
    } else if a[0].name == name {
        lemma_find_inst(a, name, 0);
        lemma_find_inst(b, name, 0);
    } else {
        assert forall|k: int| 0 <= k < a.drop_first().len() implies #[trigger] a.drop_first()[k].name
            == b.drop_first()[k].name by {
            assert(a.drop_first()[k] == a[k + 1]);
            assert(b.drop_first()[k] == b[k + 1]);
        }
        assert forall|k: int| a.drop_first().len() <= k < b.drop_first().len() implies #[trigger] b.drop_first()[k].name
            != name by {
            assert(b.drop_first()[k] == b[k + 1]);
        }
        lemma_find_inst_same_names(a.drop_first(), b.drop_first(), name);
    }
}

/// An instance found among `a` is found at the same place in `b`, which has the names of
/// `a` in the same places and possibly more instances after them.
proof fn lemma_find_inst_found_prefix(a: Seq<InstView>, b: Seq<InstView>, name: Seq<char>)
    requires
        a.len() <= b.len(),
        forall|k: int| 0 <= k < a.len() ==> #[trigger] a[k].name == b[k].name,
        find_inst(a, name) >= 0,
    ensures
        find_inst(a, name) == find_inst(b, name),
    decreases a.len(),
{
    if a[0].name != name {
        assert forall|k: int| 0 <= k < a.drop_first().len() implies #[trigger] a.drop_first()[k].name
            == b.drop_first()[k].name by {
            assert(a.drop_first()[k] == a[k + 1]);
            assert(b.drop_first()[k] == b[k + 1]);
        }
        lemma_find_inst_found_prefix(a.drop_first(), b.drop_first(), name);
    }
}

/// A series delay removes no pin: a pin that is on a net before the edit is on a net after
/// it.
pub proof fn lemma_series_delay_keeps_pins(
    nl: NetlistView,
    inst: Seq<char>,
    pin: Seq<char>,
    cell: Seq<char>,
    bin: Seq<char>,
    bout: Seq<char>,
    k: nat,
    i2: Seq<char>,
    p2: Seq<char>,
)
    requires
        series_delay(nl, inst, pin, cell, bin, bout, k) is Some,
        pin_net(nl, i2, p2) is Some,
    ensures
        pin_net((series_delay(nl, inst, pin, cell, bin, bout, k)->0).0, i2, p2) is Some,
{
    let n2 = (series_delay(nl, inst, pin, cell, bin, bout, k)->0).0;
    lemma_series_delay_shape(nl, inst, pin, cell, bin, bout, k);
    let i = find_inst(nl.insts, inst);
    let i3 = find_inst(nl.insts, i2);
    lemma_find_inst_bound(nl.insts, i2);
    assert forall|j: int| 0 <= j < nl.insts.len() implies #[trigger] nl.insts[j].name
        == n2.insts[j].name by {
        if j != i {
            assert(n2.insts[j] == nl.insts[j]);
        }
    }
    lemma_find_inst_found_prefix(nl.insts, n2.insts, i2);
    if i3 == i {
        lemma_find_inst_bound(nl.insts, inst);
        lemma_find_pin_bound(nl.insts[i].conns, pin);
        lemma_find_pin_same_pins(nl.insts[i].conns, n2.insts[i].conns, p2);
    } else {
        assert(n2.insts[i3] == nl.insts[i3]);
    }
}

/// A pin is on a net exactly when a series delay can be put in front of it.
pub proof fn lemma_series_delay_found(
    nl: NetlistView,
    inst: Seq<char>,
    pin: Seq<char>,
    cell: Seq<char>,
    bin: Seq<char>,
    bout: Seq<char>,
    k: nat,
)
    ensures
        series_delay(nl, inst, pin, cell, bin, bout, k) is Some <==> pin_net(nl, inst, pin) is Some,
        series_delay(nl, inst, pin, cell, bin, bout, k) matches Some((n2, ins)) ==> ins.cap_inst
            == inst && ins.cap_pin == pin,
{
}

/// Connections with the same pins, in the same places, find a pin at the same place.
proof fn lemma_find_pin_same_pins(
    a: Seq<(Seq<char>, Seq<char>)>,
    b: Seq<(Seq<char>, Seq<char>)>,
    pin: Seq<char>,
)
    requires
        a.len() == b.len(),
        forall|k: int| 0 <= k < a.len() ==> #[trigger] a[k].0 == b[k].0,
    ensures
        find_pin(a, pin) == find_pin(b, pin),
    decreases a.len(),
{
    if a.len() > 0 {
        assert forall|k: int| 0 <= k < a.drop_first().len() implies #[trigger] a.drop_first()[k].0
            == b.drop_first()[k].0 by {
            assert(a.drop_first()[k] == a[k + 1]);
            assert(b.drop_first()[k] == b[k + 1]);
        }
        lemma_find_pin_same_pins(a.drop_first(), b.drop_first(), pin);
    }
}

/// After the series delay numbered `k` in front of `inst/pin`, that pin is on `hold_net(k)`;
/// every other pin of an instance that is not a delay buffer keeps its net. The edit takes
/// the net the pin had, and it rewires no delay buffer unless `inst` names one.
pub proof fn lemma_series_delay_pin_nets(
    nl: NetlistView,
    inst: Seq<char>,
    pin: Seq<char>,
    cell: Seq<char>,
    bin: Seq<char>,
    bout: Seq<char>,
    k: nat,
)
    ensures
        series_delay(nl, inst, pin, cell, bin, bout, k) matches Some((n2, ins)) ==> {
            &&& pin_net(nl, inst, pin) == Some(ins.in_net)
            &&& forall|i2: Seq<char>, p2: Seq<char>|
                !is_buffer_name(i2) ==> #[trigger] pin_net(n2, i2, p2) == if i2 == inst && p2
                    == pin {
                    Some(hold_net(k))
                } else {
                    pin_net(nl, i2, p2)
                }
            &&& forall|j: int|
                0 <= j < nl.insts.len() && j != find_inst(nl.insts, inst) ==> #[trigger] n2.insts[j]
                    == nl.insts[j]
        },
{
    lemma_find_inst_bound(nl.insts, inst);
    let i = find_inst(nl.insts, inst);
    if i >= 0 {
        lemma_find_pin_bound(nl.insts[i].conns, pin);
    }
    if let Some((n2, ins)) = series_delay(nl, inst, pin, cell, bin, bout, k) {
        let c = find_pin(nl.insts[i].conns, pin);
        assert forall|i2: Seq<char>, p2: Seq<char>| !is_buffer_name(i2) implies #[trigger] pin_net(
            n2,
            i2,
            p2,
        ) == if i2 == inst && p2 == pin {
            Some(hold_net(k))
        } else {
            pin_net(nl, i2, p2)
        } by {
            assert(n2.insts.last().name != i2) by {
                assert(n2.insts.last().name == hold_buf(k));
            }
            lemma_find_inst_same_names(nl.insts, n2.insts, i2);
            let i3 = find_inst(nl.insts, i2);
            lemma_find_inst_bound(nl.insts, i2);
            if i3 >= 0 {
                if i3 == i {
                    lemma_find_pin_same_pins(nl.insts[i].conns, n2.insts[i].conns, p2);
                    let c2 = find_pin(nl.insts[i].conns, p2);
                    lemma_find_pin_bound(nl.insts[i].conns, p2);
                    if c2 >= 0 && c2 != c {
                        assert(n2.insts[i].conns[c2] == nl.insts[i].conns[c2]);
                    }
                } else {
                    assert(n2.insts[i3] == nl.insts[i3]);
                }
            }
        }
    }
}

/// A copy of `v`.
pub fn copy_strings(v: &Vec<String>) -> (r: Vec<String>)
    ensures
        texts(r@) == texts(v@),
{
    let mut r: Vec<String> = Vec::new();
    let mut i: usize = 0;
    while i < v.len()
        invariant
            i <= v.len(),
            texts(r@) =~= texts(v@).take(i as int),
        decreases v.len() - i,
    {
        let ghost before = r@;
        r.push(v[i].clone());
        assert(texts(r@) =~= texts(before).push(v@[i as int]@));
        i = i + 1;
    }
    assert(texts(v@).take(v.len() as int) =~= texts(v@));
    r
}

fn copy_conns(v: &Vec<(String, String)>) -> (r: Vec<(String, String)>)
    ensures
        conn_texts(r@) == conn_texts(v@),
{
    let mut r: Vec<(String, String)> = Vec::new();
    let mut i: usize = 0;
    while i < v.len()
        invariant
            i <= v.len(),
            conn_texts(r@) =~= conn_texts(v@).take(i as int),
        decreases v.len() - i,
    {
        let ghost before = r@;
        r.push((v[i].0.clone(), v[i].1.clone()));
        assert(conn_texts(r@) =~= conn_texts(before).push((v@[i as int].0@, v@[i as int].1@)));
        i = i + 1;
    }
    assert(conn_texts(v@).take(v.len() as int) =~= conn_texts(v@));
    r
}

impl Inst {
    /// A copy of this instance.
    pub fn duplicate(&self) -> (r: Inst)
        ensures
            r@ == self@,
    {
        Inst { cell: self.cell.clone(), name: self.name.clone(), conns: copy_conns(&self.conns) }
    }
}

impl Netlist {
    /// A copy of this netlist.
    pub fn duplicate(&self) -> (r: Netlist)
        ensures
            r@ == self@,
    {
        let mut insts: Vec<Inst> = Vec::new();
        let mut i: usize = 0;
        while i < self.insts.len()
            invariant
                i <= self.insts.len(),
                inst_views(insts@) =~= inst_views(self.insts@).take(i as int),
            decreases self.insts.len() - i,
        {
            let ghost before = insts@;
            insts.push(self.insts[i].duplicate());
            assert(inst_views(insts@) =~= inst_views(before).push(self.insts@[i as int]@));
            i = i + 1;
        }
        assert(inst_views(self.insts@).take(self.insts.len() as int) =~= inst_views(self.insts@));
        Netlist {
            module: self.module.clone(),
            inputs: copy_strings(&self.inputs),
            outputs: copy_strings(&self.outputs),
            insts,
        }
    }
}

/// Insert a delay buffer in series on the net feeding `inst_name/pin`. The pin is re-driven
/// by a fresh buffer whose input is the net the pin had; returns what was inserted, or
/// `None` (leaving `nl` as it was) if the instance/pin can't be located.
pub fn insert_series_delay(
    nl: &mut Netlist,
    inst_name: &str,
    pin: &str,
    buf_cell: &str,
    bin: &str,
    bout: &str,
    k: usize,
) -> (r: Option<Insertion>)
    ensures
        match series_delay(old(nl)@, inst_name@, pin@, buf_cell@, bin@, bout@, k as nat) {
            None => r is None && final(nl)@ == old(nl)@,
            Some(res) => r is Some && r->0@ == res.1 && final(nl)@ == res.0,
        },
{
    let ghost insts0 = nl@.insts;
    let mut ii: usize = 0;
    while ii < nl.insts.len() && !str_eq(nl.insts[ii].name.as_str(), inst_name)
        invariant
            ii <= nl.insts.len(),
            insts0 == nl@.insts,
            forall|k: int| 0 <= k < ii ==> #[trigger] insts0[k].name != inst_name@,
        decreases nl.insts.len() - ii,
    {
        ii = ii + 1;
    }
    proof {
        lemma_find_inst(insts0, inst_name@, ii as int);
    }
    if ii == nl.insts.len() {
        return None;
    }
    let ghost conns0 = insts0[ii as int].conns;
    let mut ci: usize = 0;
    while ci < nl.insts[ii].conns.len() && !str_eq(nl.insts[ii].conns[ci].0.as_str(), pin)
        invariant
            ii < nl.insts.len(),
            ci <= nl.insts[ii as int].conns.len(),
            insts0 == nl@.insts,
            conns0 == insts0[ii as int].conns,
            forall|k: int| 0 <= k < ci ==> #[trigger] conns0[k].0 != pin@,
        decreases nl.insts[ii as int].conns.len() - ci,
    {
        ci = ci + 1;
    }
    proof {
        lemma_find_pin(conns0, pin@, ci as int);
    }
    if ci == nl.insts[ii].conns.len() {
        return None;
    }
    let old_net = nl.insts[ii].conns[ci].1.clone();
    let new_net = numbered("__hold_n", k);
    let mut conns = copy_conns(&nl.insts[ii].conns);
    let pin_name = nl.insts[ii].conns[ci].0.clone();
    conns.set(ci, (pin_name, new_net.clone()));
    let rewired = Inst { cell: nl.insts[ii].cell.clone(), name: nl.insts[ii].name.clone(), conns };
    assert(rewired@.conns =~= conns0.update(ci as int, (conns0[ci as int].0, new_net@)));
    nl.insts.set(ii, rewired);
    let bufname = numbered("__hold_buf", k);
    let buf = Inst {
        cell: String::from_str(buf_cell),
        name: bufname.clone(),
        conns: vec![(String::from_str(bin), old_net.clone()), (String::from_str(bout), new_net.clone())],
    };
    assert(buf@.conns =~= seq![(bin@, old_net@), (bout@, new_net@)]);
    let ghost mid = nl.insts@;
    nl.insts.push(buf);
    assert(inst_views(nl.insts@) =~= inst_views(mid).push(buf@));
    proof {
        let res = series_delay(old(nl)@, inst_name@, pin@, buf_cell@, bin@, bout@, k as nat)->0;
        assert(inst_views(mid) =~= insts0.update(ii as int, rewired@));
        assert(nl@.insts =~= res.0.insts);
    }
    Some(
        Insertion {
            buffer: bufname,
            cell: String::from_str(buf_cell),
            in_pin: String::from_str(bin),
            out_pin: String::from_str(bout),
            in_net: old_net,
            out_net: new_net,
            cap_inst: String::from_str(inst_name),
            cap_pin: String::from_str(pin),
        },
    )
}

} // verus!

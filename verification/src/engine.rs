//! Post-route hold-fix ECO: the decisions of each round.
//!
//! Each round: rank the hold-violating capture endpoints, insert a delay buffer **in
//! series** on the net feeding each violating pin — the pin is re-driven by a fresh buffer
//! whose input is the net the pin had, so one buffer's min-path delay is added to the
//! data arriving at the capture, lifting its hold slack. Rebuild the timer, and keep the
//! ECO iff the worst hold slack improved without pushing setup negative. Repeat until hold
//! is met (within `hold_margin`) or the round budget is exhausted; a still-violating
//! endpoint simply gets another buffer next round, so a delay chain grows only where it is
//! needed.
//!
//! The timing itself is the static-timing engine's: [`EcoRun::step`] is told, for the
//! current netlist, whether hold is met and which capture pins still violate, and, for a
//! trial netlist, whether the timer accepts it; it decides everything else.

use vstd::prelude::*;
use crate::job::{glob_match, glob_matches, HoldCfg};
use crate::netlist::{
    copy_strings, decimal, find_inst, fresh_from, hold_buf, hold_net, insert_series_delay,
    insertion_views, is_buffer_name, lemma_find_inst_bound, lemma_hold_names_injective,
    lemma_series_delay_found, lemma_series_delay_fresh, lemma_series_delay_keeps_pins,
    lemma_series_delay_pin_nets, lemma_series_delay_shape, numbered,
    pin_net, series_delay, Insertion, InsertionView, Netlist, NetlistView,
};
use crate::text::{chars_of, debug_quoted, quoted, str_eq, sub_string, texts};

verus! {

/// The direction of a library pin, as far as a delay buffer cares.
#[derive(Debug, PartialEq, Eq, Structural, Clone, Copy)]
pub enum PinDirection {
    Input,
    Output,
    Other,
}

/// A library cell: its name and its pins with their directions.
#[derive(Debug, Clone)]
pub struct LibCell {
    pub name: String,
    pub pins: Vec<(String, PinDirection)>,
}

/// The mathematical value of a [`LibCell`].
pub struct LibCellView {
    pub name: Seq<char>,
    pub pins: Seq<(Seq<char>, PinDirection)>,
}

impl View for LibCell {
    type V = LibCellView;

    open spec fn view(&self) -> LibCellView {
        LibCellView {
            name: self.name@,
            pins: self.pins@.map_values(|p: (String, PinDirection)| (p.0@, p.1)),
        }
    }
}

/// The value of each cell.
pub open spec fn cell_views(v: Seq<LibCell>) -> Seq<LibCellView> {
    v.map_values(|c: LibCell| c@)
}

/// The index of the first cell named `name`, or -1.
pub open spec fn find_cell(cells: Seq<LibCellView>, name: Seq<char>) -> int
    decreases cells.len(),
{
    if cells.len() == 0 {
        -1
    } else if cells[0].name == name {
        0
    } else {
        let r = find_cell(cells.drop_first(), name);
        if r < 0 {
            -1
        } else {
            r + 1
        }
    }
}

/// How many of `pins` have direction `d`.
pub open spec fn count_dir(pins: Seq<(Seq<char>, PinDirection)>, d: PinDirection) -> nat
    decreases pins.len(),
{
    if pins.len() == 0 {
        0
    } else {
        count_dir(pins.drop_last(), d) + if pins.last().1 == d {
            1nat
        } else {
            0nat
        }
    }
}

/// The index of the first pin with direction `d`, or -1.
pub open spec fn first_dir(pins: Seq<(Seq<char>, PinDirection)>, d: PinDirection) -> int
    decreases pins.len(),
{
    if pins.len() == 0 {
        -1
    } else if pins[0].1 == d {
        0
    } else {
        let r = first_dir(pins.drop_first(), d);
        if r < 0 {
            -1
        } else {
            r + 1
        }
    }
}

/// The `(input, output)` pin names of the delay cell `buf` in `cells`, or the message of
/// the error: the cell is in no library, or it has not exactly one input and exactly one
/// output pin.
pub open spec fn buffer_pins_of(cells: Seq<LibCellView>, buf: Seq<char>) -> Result<
    (Seq<char>, Seq<char>),
    Seq<char>,
> {
    let i = find_cell(cells, buf);
    let pins = cells[i].pins;
    let ni = count_dir(pins, PinDirection::Input);
    let no = count_dir(pins, PinDirection::Output);
    if i < 0 {
        Err("buffer cell "@ + debug_quoted(buf) + " not in any .lib"@)
    } else if ni != 1 || no != 1 {
        Err(
            "buffer "@ + debug_quoted(buf)
                + " must have exactly one input and one output pin, but has "@ + decimal(ni)
                + " input(s) and "@ + decimal(no) + " output(s)"@,
        )
    } else {
        Ok(
            (
                pins[first_dir(pins, PinDirection::Input)].0,
                pins[first_dir(pins, PinDirection::Output)].0,
            ),
        )
    }
}

proof fn lemma_first_dir(pins: Seq<(Seq<char>, PinDirection)>, d: PinDirection, i: int)
    requires
        0 <= i < pins.len(),
        forall|k: int| 0 <= k < i ==> #[trigger] pins[k].1 != d,
        pins[i].1 == d,
    ensures
        first_dir(pins, d) == i,
    decreases i,
{
    if i > 0 {
        assert forall|k: int| 0 <= k < i - 1 implies #[trigger] pins.drop_first()[k].1 != d by {
            assert(pins.drop_first()[k] == pins[k + 1]);
        }
        lemma_first_dir(pins.drop_first(), d, i - 1);
    }
}

proof fn lemma_find_cell(cells: Seq<LibCellView>, name: Seq<char>, i: int)
    requires
        0 <= i <= cells.len(),
        forall|k: int| 0 <= k < i ==> #[trigger] cells[k].name != name,
        i < cells.len() ==> cells[i].name == name,
    ensures
        find_cell(cells, name) == if i == cells.len() { -1 } else { i },
    decreases i,
{
    if i > 0 {
        assert forall|k: int| 0 <= k < i - 1 implies #[trigger] cells.drop_first()[k].name
            != name by {
            assert(cells.drop_first()[k] == cells[k + 1]);
        }
        lemma_find_cell(cells.drop_first(), name, i - 1);
    }
}

/// The (single input, single output) pin names of the delay-buffer cell.
pub fn buffer_pins(cells: &Vec<LibCell>, buf: &str) -> (r: Result<(String, String), String>)
    ensures
        match r {
            Ok(p) => buffer_pins_of(cell_views(cells@), buf@) == Ok::<
                (Seq<char>, Seq<char>),
                Seq<char>,
            >((p.0@, p.1@)),
            Err(e) => buffer_pins_of(cell_views(cells@), buf@) == Err::<
                (Seq<char>, Seq<char>),
                Seq<char>,
            >(e@),
        },
{
    let ghost cv = cell_views(cells@);
    let mut i: usize = 0;
    while i < cells.len() && !str_eq(cells[i].name.as_str(), buf)
        invariant
            i <= cells.len(),
            cv == cell_views(cells@),
            forall|k: int| 0 <= k < i ==> #[trigger] cv[k].name != buf@,
        decreases cells.len() - i,
    {
        i = i + 1;
    }
    proof {
        lemma_find_cell(cv, buf@, i as int);
    }
    if i == cells.len() {
        let mut m = String::from_str("buffer cell ");
        let q = quoted(buf);
        m.append(q.as_str());
        m.append(" not in any .lib");
        return Err(m);
    }
    let pins = &cells[i].pins;
    let ghost pv = cv[i as int].pins;
    let mut ni: usize = 0;
    let mut no: usize = 0;
    let mut fi: usize = pins.len();
    let mut fo: usize = pins.len();
    let mut j: usize = 0;
    while j < pins.len()
        invariant
            j <= pins.len(),
            i < cells.len(),
            pv == cells@[i as int]@.pins,
            pins == cells@[i as int].pins,
            ni == count_dir(pv.take(j as int), PinDirection::Input),
            no == count_dir(pv.take(j as int), PinDirection::Output),
            ni <= j,
            no <= j,
            fi <= pins.len(),
            fo <= pins.len(),
            fi == pins.len() ==> forall|k: int| 0 <= k < j ==> #[trigger] pv[k].1 != PinDirection::Input,
            fi < pins.len() ==> fi < j && pv[fi as int].1 == PinDirection::Input && forall|k: int|
                0 <= k < fi ==> #[trigger] pv[k].1 != PinDirection::Input,
            fo == pins.len() ==> forall|k: int| 0 <= k < j ==> #[trigger] pv[k].1 != PinDirection::Output,
            fo < pins.len() ==> fo < j && pv[fo as int].1 == PinDirection::Output && forall|k: int|
                0 <= k < fo ==> #[trigger] pv[k].1 != PinDirection::Output,
        decreases pins.len() - j,
    {
        assert(pv.take(j + 1).drop_last() =~= pv.take(j as int));
        if pins[j].1 == PinDirection::Input {
            ni = ni + 1;
            if fi == pins.len() {
                fi = j;
            }
        }
        if pins[j].1 == PinDirection::Output {
            no = no + 1;
            if fo == pins.len() {
                fo = j;
            }
        }
        j = j + 1;
    }
    assert(pv.take(pins.len() as int) =~= pv);
    if ni != 1 || no != 1 {
        let mut m = String::from_str("buffer ");
        let q = quoted(buf);
        m.append(q.as_str());
        m.append(" must have exactly one input and one output pin, but has ");
        let a = numbered("", ni);
        m.append(a.as_str());
        m.append(" input(s) and ");
        let b = numbered("", no);
        m.append(b.as_str());
        m.append(" output(s)");
        proof {
            reveal_strlit("");
            assert(a@ =~= decimal(ni as nat));
            assert(b@ =~= decimal(no as nat));
        }
        return Err(m);
    }
    proof {
        if fi == pins.len() {
            lemma_count_none(pv, PinDirection::Input);
        }
        if fo == pins.len() {
            lemma_count_none(pv, PinDirection::Output);
        }
        lemma_first_dir(pv, PinDirection::Input, fi as int);
        lemma_first_dir(pv, PinDirection::Output, fo as int);
    }
    Ok((pins[fi].0.clone(), pins[fo].0.clone()))
}

proof fn lemma_count_none(pins: Seq<(Seq<char>, PinDirection)>, d: PinDirection)
    requires
        forall|k: int| 0 <= k < pins.len() ==> #[trigger] pins[k].1 != d,
    ensures
        count_dir(pins, d) == 0,
    decreases pins.len(),
{
    if pins.len() > 0 {
        assert forall|k: int| 0 <= k < pins.drop_last().len() implies #[trigger] pins.drop_last()[k].1 != d by {
            assert(pins.drop_last()[k] == pins[k]);
        }
        lemma_count_none(pins.drop_last(), d);
    }
}


/// The index of the last `c` in `s`, or -1.
pub open spec fn last_of(s: Seq<char>, c: char) -> int
    decreases s.len(),
{
    if s.len() == 0 {
        -1
    } else if s.last() == c {
        s.len() - 1
    } else {
        last_of(s.drop_last(), c)
    }
}

/// A pin label `"inst/pin"` split at its last `/`; `None` for a label without `/` (a
/// primary-output port).
pub open spec fn split_label(label: Seq<char>) -> Option<(Seq<char>, Seq<char>)> {
    let i = last_of(label, '/');
    if i < 0 {
        None
    } else {
        Some((label.take(i), label.skip(i + 1)))
    }
}

proof fn lemma_last_of(s: Seq<char>, c: char, i: int)
    requires
        -1 <= i < s.len(),
        forall|k: int| i < k < s.len() ==> #[trigger] s[k] != c,
        i >= 0 ==> s[i] == c,
    ensures
        last_of(s, c) == i,
    decreases s.len(),
{
    if s.len() > 0 && i < s.len() - 1 {
        assert forall|k: int| i < k < s.drop_last().len() implies #[trigger] s.drop_last()[k]
            != c by {
            assert(s.drop_last()[k] == s[k]);
        }
        lemma_last_of(s.drop_last(), c, i);
    }
}

/// `last_of` is -1 when `c` does not occur, else an index holding `c` with no `c` after it.
proof fn lemma_last_of_facts(s: Seq<char>, c: char)
    ensures
        -1 <= last_of(s, c) < s.len(),
        last_of(s, c) < 0 <==> !s.contains(c),
        last_of(s, c) >= 0 ==> s[last_of(s, c)] == c,
        forall|k: int| last_of(s, c) < k < s.len() ==> #[trigger] s[k] != c,
    decreases s.len(),
{
    if s.len() > 0 && s.last() != c {
        lemma_last_of_facts(s.drop_last(), c);
        assert forall|k: int| last_of(s, c) < k < s.len() implies #[trigger] s[k] != c by {
            if k < s.len() - 1 {
                assert(s.drop_last()[k] == s[k]);
            }
        }
        if s.contains(c) {
            let k = choose|k: int| 0 <= k < s.len() && s[k] == c;
            assert(s.drop_last()[k] == s[k]);
        }
        if s.drop_last().contains(c) {
            let k = choose|k: int| 0 <= k < s.drop_last().len() && s.drop_last()[k] == c;
            assert(s[k] == s.drop_last()[k]);
        }
    } else if s.len() > 0 {
        assert(s[s.len() - 1] == c);
    }
}

/// Law: a pin label is split at its last `/`. A label without `/` (a primary-output port)
/// gives nothing; any other gives the instance and the pin that, joined by `/`, make the
/// label back, the pin holding no `/` — so a hierarchical instance `u_core/u_sync_reg`
/// keeps its whole path. Conversely an instance and a pin without `/`, joined by `/`, split
/// back into themselves.
pub proof fn law_split_label(label: Seq<char>, inst: Seq<char>, pin: Seq<char>)
    ensures
        split_label(label) is None <==> !label.contains('/'),
        split_label(label) matches Some((i, p)) ==> label == i + seq!['/'] + p && !p.contains(
            '/',
        ),
        !pin.contains('/') ==> split_label(inst + seq!['/'] + pin) == Some((inst, pin)),
{
    lemma_last_of_facts(label, '/');
    let cut = last_of(label, '/');
    if cut >= 0 {
        let rest = label.skip(cut + 1);
        assert(label =~= label.take(cut) + seq!['/'] + rest);
        if rest.contains('/') {
            let k = choose|k: int| 0 <= k < rest.len() && #[trigger] rest[k] == '/';
            assert(label[cut + 1 + k] == rest[k]);
        }
    }
    if !pin.contains('/') {
        let s = inst + seq!['/'] + pin;
        assert forall|k: int| inst.len() < k < s.len() implies #[trigger] s[k] != '/' by {
            assert(s[k] == pin[k - inst.len() - 1]);
        }
        lemma_last_of(s, '/', inst.len() as int);
        assert(s.take(inst.len() as int) =~= inst);
        assert(s.skip(inst.len() as int + 1) =~= pin);
    }
}

/// The instance and pin of a pin label, split at the last `/`.
pub fn split_pin_label(label: &str) -> (r: Option<(String, String)>)
    ensures
        match split_label(label@) {
            None => r is None,
            Some(p) => r is Some && (r->0).0@ == p.0 && (r->0).1@ == p.1,
        },
        r is None <==> !label@.contains('/'),
        r matches Some((i, p)) ==> label@ == i@ + seq!['/'] + p@ && !p@.contains('/'),
{
    proof {
        law_split_label(label@, label@, label@);
    }
    let v = chars_of(label);
    let mut i = v.len();
    while i > 0 && v[i - 1] != '/'
        invariant
            i <= v.len(),
            forall|k: int| i <= k < v.len() ==> #[trigger] v@[k] != '/',
        decreases i,
    {
        i = i - 1;
    }
    proof {
        lemma_last_of(v@, '/', i - 1);
    }
    if i == 0 {
        return None;
    }
    assert(v@.take(i - 1) =~= v@.subrange(0, i - 1));
    assert(v@.skip(i as int) =~= v@.subrange(i as int, v.len() as int));
    Some((sub_string(&v, 0, i - 1), sub_string(&v, i, v.len())))
}

/// The delay cell to insert: its name and its (single) input and output pin.
#[derive(Debug, Clone)]
pub struct DelayCell {
    pub cell: String,
    pub in_pin: String,
    pub out_pin: String,
}

/// The mathematical value of a [`DelayCell`].
pub struct DelayCellView {
    pub cell: Seq<char>,
    pub in_pin: Seq<char>,
    pub out_pin: Seq<char>,
}

impl View for DelayCell {
    type V = DelayCellView;

    open spec fn view(&self) -> DelayCellView {
        DelayCellView { cell: self.cell@, in_pin: self.in_pin@, out_pin: self.out_pin@ }
    }
}

/// Some `dont_touch` glob matches the capture instance `inst`.
pub open spec fn protected(dont_touch: Seq<Seq<char>>, inst: Seq<char>) -> bool {
    exists|g: int| 0 <= g < dont_touch.len() && glob_matches(#[trigger] dont_touch[g], inst)
}

/// A round in progress: the trial netlist, the buffers inserted into it so far, and the
/// number of the next buffer.
pub struct RoundView {
    pub netlist: NetlistView,
    pub insertions: Seq<InsertionView>,
    pub counter: nat,
}

/// What one violating pin adds to a round: a delay buffer in series in front of it, unless
/// its label has no `/`, its instance is `dont_touch`, or the instance or pin is not in the
/// netlist.
pub open spec fn plan_label(
    st: RoundView,
    label: Seq<char>,
    dc: DelayCellView,
    dont_touch: Seq<Seq<char>>,
) -> RoundView {
    match split_label(label) {
        None => st,
        Some((inst, pin)) => if protected(dont_touch, inst) {
            st
        } else {
            match series_delay(st.netlist, inst, pin, dc.cell, dc.in_pin, dc.out_pin, st.counter) {
                None => st,
                Some((nl, ins)) => RoundView {
                    netlist: nl,
                    insertions: st.insertions.push(ins),
                    counter: st.counter + 1,
                },
            }
        },
    }
}

/// A round over the violating pins `labels`, taken in order.
pub open spec fn plan_labels(
    st: RoundView,
    labels: Seq<Seq<char>>,
    dc: DelayCellView,
    dont_touch: Seq<Seq<char>>,
) -> RoundView
    decreases labels.len(),
{
    if labels.len() == 0 {
        st
    } else {
        plan_label(plan_labels(st, labels.drop_last(), dc, dont_touch), labels.last(), dc, dont_touch)
    }
}

/// One round's trial: the netlist with its delay buffers, the buffers inserted, and the
/// number of the next buffer.
pub struct RoundPlan {
    pub trial: Netlist,
    pub insertions: Vec<Insertion>,
    pub counter: usize,
}

impl View for RoundPlan {
    type V = RoundView;

    open spec fn view(&self) -> RoundView {
        RoundView {
            netlist: self.trial@,
            insertions: insertion_views(self.insertions@),
            counter: self.counter as nat,
        }
    }
}

/// Whether some glob of `dont_touch` matches `inst`.
pub fn is_protected(dont_touch: &Vec<String>, inst: &str) -> (r: bool)
    ensures
        r == protected(texts(dont_touch@), inst@),
        r == exists|g: int|
            0 <= g < dont_touch.len() && glob_matches(#[trigger] texts(dont_touch@)[g], inst@),
{
    let mut g: usize = 0;
    while g < dont_touch.len()
        invariant
            g <= dont_touch.len(),
            forall|k: int| 0 <= k < g ==> !glob_matches(#[trigger] texts(dont_touch@)[k], inst@),
        decreases dont_touch.len() - g,
    {
        if glob_match(dont_touch[g].as_str(), inst) {
            assert(glob_matches(texts(dont_touch@)[g as int], inst@));
            return true;
        }
        g = g + 1;
    }
    false
}

/// Law: every glob of `dont_touch` counts, wherever it stands in the list. An instance
/// that any one of them matches is protected, and a round leaves each of its pins alone:
/// the label `inst/pin` adds no buffer and changes nothing.
pub proof fn law_every_glob_protects(
    dont_touch: Seq<Seq<char>>,
    g: int,
    inst: Seq<char>,
    pin: Seq<char>,
    st: RoundView,
    dc: DelayCellView,
)
    requires
        0 <= g < dont_touch.len(),
        glob_matches(dont_touch[g], inst),
        !pin.contains('/'),
    ensures
        protected(dont_touch, inst),
        plan_label(st, inst + seq!['/'] + pin, dc, dont_touch) == st,
{
    law_split_label(inst + seq!['/'] + pin, inst, pin);
}

/// One delay buffer per still-violating endpoint (a chain grows over rounds): the trial
/// netlist for a round, starting from `nl` and numbering new buffers from `counter`.
pub fn plan_round(
    nl: &Netlist,
    violating: &Vec<String>,
    dc: &DelayCell,
    dont_touch: &Vec<String>,
    counter: usize,
) -> (r: RoundPlan)
    requires
        counter <= nl@.insts.len(),
    ensures
        r@ == plan_labels(
            RoundView { netlist: nl@, insertions: seq![], counter: counter as nat },
            texts(violating@),
            dc@,
            texts(dont_touch@),
        ),
        r.counter <= r.trial@.insts.len(),
{
    assert(nl@.insts.len() == nl.insts.len());
    let ghost st0 = RoundView { netlist: nl@, insertions: seq![], counter: counter as nat };
    let mut plan = RoundPlan { trial: nl.duplicate(), insertions: Vec::new(), counter };
    assert(insertion_views(plan.insertions@) =~= Seq::<InsertionView>::empty());
    let mut i: usize = 0;
    assert(texts(violating@).take(0) =~= Seq::<Seq<char>>::empty());
    while i < violating.len()
        invariant
            i <= violating.len(),
            plan.counter <= plan.trial@.insts.len(),
            plan@ == plan_labels(st0, texts(violating@).take(i as int), dc@, texts(dont_touch@)),
        decreases violating.len() - i,
    {
        let ghost before = plan@;
        assert(texts(violating@).take(i + 1).drop_last() =~= texts(violating@).take(i as int));
        assert(texts(violating@).take(i + 1).last() == violating@[i as int]@);
        match split_pin_label(violating[i].as_str()) {
            None => {},
            Some((inst, pin)) => {
                if !is_protected(dont_touch, inst.as_str()) {
                    let k = plan.counter;
                    let ghost t0 = plan.trial@;
                    match insert_series_delay(
                        &mut plan.trial,
                        inst.as_str(),
                        pin.as_str(),
                        dc.cell.as_str(),
                        dc.in_pin.as_str(),
                        dc.out_pin.as_str(),
                        k,
                    ) {
                        None => {},
                        Some(ins) => {
                            proof {
                                lemma_series_delay_shape(t0, inst@, pin@, dc@.cell, dc@.in_pin, dc@.out_pin, k as nat);
                            }
                            let ghost ins_before = plan.insertions@;
                            plan.insertions.push(ins);
                            assert(insertion_views(plan.insertions@) =~= insertion_views(
                                ins_before,
                            ).push(ins@));
                            assert(plan.trial@.insts.len() == plan.trial.insts.len());
                            plan.counter = k + 1;
                        },
                    }
                }
            },
        }
        i = i + 1;
    }
    assert(texts(violating@).take(violating.len() as int) =~= texts(violating@));
    plan
}

/// One pin of a round only adds: the buffers inserted so far stay, in their places, and
/// every pin on a net keeps a net.
proof fn lemma_plan_label_keeps(
    st: RoundView,
    label: Seq<char>,
    dc: DelayCellView,
    dont_touch: Seq<Seq<char>>,
)
    ensures
        ({
            let r = plan_label(st, label, dc, dont_touch);
            &&& st.insertions.len() <= r.insertions.len()
            &&& forall|j: int|
                0 <= j < st.insertions.len() ==> #[trigger] r.insertions[j] == st.insertions[j]
            &&& forall|i2: Seq<char>, p2: Seq<char>|
                #[trigger] pin_net(st.netlist, i2, p2) is Some ==> pin_net(r.netlist, i2, p2) is Some
        }),
{
    let r = plan_label(st, label, dc, dont_touch);
    if let Some((inst, pin)) = split_label(label) {
        if !protected(dont_touch, inst) {
            let sd = series_delay(st.netlist, inst, pin, dc.cell, dc.in_pin, dc.out_pin, st.counter);
            if sd is Some {
                assert forall|i2: Seq<char>, p2: Seq<char>|
                    #[trigger] pin_net(st.netlist, i2, p2) is Some implies pin_net(
                    r.netlist,
                    i2,
                    p2,
                ) is Some by {
                    lemma_series_delay_keeps_pins(
                        st.netlist,
                        inst,
                        pin,
                        dc.cell,
                        dc.in_pin,
                        dc.out_pin,
                        st.counter,
                        i2,
                        p2,
                    );
                }
            }
        }
    }
}

/// A whole round only adds, as each of its pins does (see [`lemma_plan_label_keeps`]).
proof fn lemma_plan_labels_keeps(
    st: RoundView,
    labels: Seq<Seq<char>>,
    dc: DelayCellView,
    dont_touch: Seq<Seq<char>>,
)
    ensures
        ({
            let r = plan_labels(st, labels, dc, dont_touch);
            &&& st.insertions.len() <= r.insertions.len()
            &&& forall|j: int|
                0 <= j < st.insertions.len() ==> #[trigger] r.insertions[j] == st.insertions[j]
            &&& forall|i2: Seq<char>, p2: Seq<char>|
                #[trigger] pin_net(st.netlist, i2, p2) is Some ==> pin_net(r.netlist, i2, p2) is Some
        }),
    decreases labels.len(),
{
    if labels.len() > 0 {
        let pre = plan_labels(st, labels.drop_last(), dc, dont_touch);
        lemma_plan_labels_keeps(st, labels.drop_last(), dc, dont_touch);
        lemma_plan_label_keeps(pre, labels.last(), dc, dont_touch);
        let r = plan_labels(st, labels, dc, dont_touch);
        assert forall|j: int| 0 <= j < st.insertions.len() implies #[trigger] r.insertions[j]
            == st.insertions[j] by {
            assert(r.insertions[j] == pre.insertions[j]);
        }
        assert forall|i2: Seq<char>, p2: Seq<char>|
            #[trigger] pin_net(st.netlist, i2, p2) is Some implies pin_net(r.netlist, i2, p2) is Some by {
            assert(pin_net(pre.netlist, i2, p2) is Some);
        }
    }
}

/// Law: every violating endpoint that can be delayed gets its delay buffer. Whatever else
/// the round does with the other labels — ports, `dont_touch` instances, missing pins —
/// a label `inst/pin` whose instance no `dont_touch` glob matches and whose pin is on a net
/// when the round starts has a buffer put in front of it.
pub proof fn law_every_delayable_pin_is_delayed(
    st: RoundView,
    labels: Seq<Seq<char>>,
    dc: DelayCellView,
    dont_touch: Seq<Seq<char>>,
    k: int,
    inst: Seq<char>,
    pin: Seq<char>,
)
    requires
        0 <= k < labels.len(),
        split_label(labels[k]) == Some((inst, pin)),
        forall|g: int| 0 <= g < dont_touch.len() ==> !glob_matches(#[trigger] dont_touch[g], inst),
        pin_net(st.netlist, inst, pin) is Some,
    ensures
        ({
            let r = plan_labels(st, labels, dc, dont_touch);
            exists|j: int|
                st.insertions.len() <= j < r.insertions.len() && (#[trigger] r.insertions[j]).cap_inst
                    == inst && r.insertions[j].cap_pin == pin
        }),
    decreases labels.len(),
{
    let pre = plan_labels(st, labels.drop_last(), dc, dont_touch);
    let r = plan_labels(st, labels, dc, dont_touch);
    lemma_plan_labels_keeps(st, labels.drop_last(), dc, dont_touch);
    lemma_plan_label_keeps(pre, labels.last(), dc, dont_touch);
    if k == labels.len() - 1 {
        assert(pin_net(pre.netlist, inst, pin) is Some);
        lemma_series_delay_found(pre.netlist, inst, pin, dc.cell, dc.in_pin, dc.out_pin, pre.counter);
        assert(!protected(dont_touch, inst));
        let j = pre.insertions.len() as int;
        assert(r.insertions[j].cap_inst == inst && r.insertions[j].cap_pin == pin);
    } else {
        assert(labels.drop_last()[k] == labels[k]);
        law_every_delayable_pin_is_delayed(st, labels.drop_last(), dc, dont_touch, k, inst, pin);
        let j = choose|j: int|
            st.insertions.len() <= j < pre.insertions.len() && (#[trigger] pre.insertions[j]).cap_inst
                == inst && pre.insertions[j].cap_pin == pin;
        assert(r.insertions[j] == pre.insertions[j]);
    }
}


/// The insertion numbered `k` is the buffer `hold_buf(k)` of the delay cell driving
/// `hold_net(k)`, in front of a capture instance that no `dont_touch` glob protects.
pub open spec fn insertion_ok(
    ins: InsertionView,
    k: nat,
    dc: DelayCellView,
    dont_touch: Seq<Seq<char>>,
) -> bool {
    &&& ins.buffer == hold_buf(k)
    &&& ins.out_net == hold_net(k)
    &&& ins.cell == dc.cell
    &&& ins.in_pin == dc.in_pin
    &&& ins.out_pin == dc.out_pin
    &&& !protected(dont_touch, ins.cap_inst)
}

/// `p` is `n0` with the buffers `p.insertions`, numbered from `c0`, put in series: the
/// instances of `n0` keep their names and cells, the new buffers follow them in order, and
/// nothing else of the module changes. Where the nets of `n0` were fresh from `c0`, every
/// buffer takes a net other than its own output, and the nets stay fresh.
pub open spec fn extends(
    p: RoundView,
    n0: NetlistView,
    c0: nat,
    dc: DelayCellView,
    dont_touch: Seq<Seq<char>>,
) -> bool {
    &&& p.counter == c0 + p.insertions.len()
    &&& p.netlist.insts.len() == n0.insts.len() + p.insertions.len()
    &&& p.netlist.module == n0.module
    &&& p.netlist.inputs == n0.inputs
    &&& p.netlist.outputs == n0.outputs
    &&& forall|i: int|
        #![trigger p.netlist.insts[i]]
        0 <= i < n0.insts.len() ==> p.netlist.insts[i].name == n0.insts[i].name
            && p.netlist.insts[i].cell == n0.insts[i].cell
    &&& forall|i: int|
        #![trigger p.netlist.insts[i]]
        n0.insts.len() <= i < p.netlist.insts.len() ==> p.netlist.insts[i].name == hold_buf(
            (c0 + i - n0.insts.len()) as nat,
        ) && p.netlist.insts[i].cell == dc.cell
    &&& forall|j: int|
        0 <= j < p.insertions.len() ==> insertion_ok(
            #[trigger] p.insertions[j],
            (c0 + j) as nat,
            dc,
            dont_touch,
        )
    &&& fresh_from(n0, c0) ==> {
        &&& fresh_from(p.netlist, p.counter)
        &&& forall|j: int|
            0 <= j < p.insertions.len() ==> (#[trigger] p.insertions[j]).in_net
                != p.insertions[j].out_net
    }
    &&& wired(p, n0)
}

/// The net pin `inst/pin` is on after the insertions `ins`: the output of the last of them
/// in front of that pin, or `d` when none is.
pub open spec fn latest_net(
    ins: Seq<InsertionView>,
    inst: Seq<char>,
    pin: Seq<char>,
    d: Option<Seq<char>>,
) -> Option<Seq<char>>
    decreases ins.len(),
{
    if ins.len() == 0 {
        d
    } else if ins.last().cap_inst == inst && ins.last().cap_pin == pin {
        Some(ins.last().out_net)
    } else {
        latest_net(ins.drop_last(), inst, pin, d)
    }
}

/// No insertion is in front of an instance named like a delay buffer.
pub open spec fn targets_plain(ins: Seq<InsertionView>) -> bool {
    forall|j: int| 0 <= j < ins.len() ==> !is_buffer_name(#[trigger] ins[j].cap_inst)
}

/// How the buffers of `p` are wired over `n0`. Each buffer takes the net its capture pin was
/// on — the output of the previous buffer in front of the same pin, or the pin's net in
/// `n0` — and every pin of an instance that is not a delay buffer is on the output of the
/// last buffer in front of it, or on its net in `n0`. When no capture instance is named
/// like a delay buffer, each buffer is connected exactly `(in_pin, in_net), (out_pin,
/// out_net)`, and the buffers already in `n0` keep their connections.
pub open spec fn wired(p: RoundView, n0: NetlistView) -> bool {
    &&& wired_in_nets(p, n0)
    &&& wired_pin_nets(p, n0)
    &&& wired_conns(p, n0)
}

/// Each buffer takes the net its capture pin was on: the output of the previous buffer in
/// front of the same pin, or the pin's net in `n0`.
pub open spec fn wired_in_nets(p: RoundView, n0: NetlistView) -> bool {
    forall|j: int|
        0 <= j < p.insertions.len() && !is_buffer_name(p.insertions[j].cap_inst) ==> Some(
            (#[trigger] p.insertions[j]).in_net,
        ) == latest_net(
            p.insertions.take(j),
            p.insertions[j].cap_inst,
            p.insertions[j].cap_pin,
            pin_net(n0, p.insertions[j].cap_inst, p.insertions[j].cap_pin),
        )
}

/// Every pin of an instance that is not a delay buffer is on the output of the last buffer
/// in front of it, or on its net in `n0`.
pub open spec fn wired_pin_nets(p: RoundView, n0: NetlistView) -> bool {
    forall|inst: Seq<char>, pin: Seq<char>|
        !is_buffer_name(inst) ==> #[trigger] pin_net(p.netlist, inst, pin) == latest_net(
            p.insertions,
            inst,
            pin,
            pin_net(n0, inst, pin),
        )
}

/// When no capture instance is named like a delay buffer, each buffer is connected exactly
/// `(in_pin, in_net), (out_pin, out_net)`, and the buffers already in `n0` keep their
/// connections.
pub open spec fn wired_conns(p: RoundView, n0: NetlistView) -> bool {
    targets_plain(p.insertions) ==> {
        &&& forall|i: int|
            #![trigger p.netlist.insts[i]]
            0 <= i < n0.insts.len() && is_buffer_name(n0.insts[i].name)
                ==> p.netlist.insts[i].conns == n0.insts[i].conns
        &&& forall|j: int|
            0 <= j < p.insertions.len() ==> p.netlist.insts[n0.insts.len() + j].conns == seq![
                ((#[trigger] p.insertions[j]).in_pin, p.insertions[j].in_net),
                (p.insertions[j].out_pin, p.insertions[j].out_net),
            ]
    }
}

/// Later insertions decide first: the net after `a` and then `b` is the net after `b`
/// starting from the net after `a`.
pub proof fn lemma_latest_net_concat(
    a: Seq<InsertionView>,
    b: Seq<InsertionView>,
    inst: Seq<char>,
    pin: Seq<char>,
    d: Option<Seq<char>>,
)
    ensures
        latest_net(a + b, inst, pin, d) == latest_net(b, inst, pin, latest_net(a, inst, pin, d)),
    decreases b.len(),
{
    if b.len() == 0 {
        assert(a + b =~= a);
    } else {
        assert((a + b).drop_last() =~= a + b.drop_last());
        assert((a + b).last() == b.last());
        lemma_latest_net_concat(a, b.drop_last(), inst, pin, d);
    }
}

/// A round from `n0` with nothing inserted yet.
pub open spec fn round_start(n0: NetlistView, c0: nat) -> RoundView {
    RoundView { netlist: n0, insertions: seq![], counter: c0 }
}

#[verifier::spinoff_prover]
#[verifier::rlimit(60)]
proof fn lemma_series_step_wired(
    st: RoundView,
    inst: Seq<char>,
    pin: Seq<char>,
    dc: DelayCellView,
    dont_touch: Seq<Seq<char>>,
    n0: NetlistView,
    c0: nat,
)
    requires
        extends(st, n0, c0, dc, dont_touch),
        series_delay(st.netlist, inst, pin, dc.cell, dc.in_pin, dc.out_pin, st.counter) is Some,
    ensures
        ({
            let (n2, m) = series_delay(
                st.netlist,
                inst,
                pin,
                dc.cell,
                dc.in_pin,
                dc.out_pin,
                st.counter,
            )->0;
            wired(
                RoundView {
                    netlist: n2,
                    insertions: st.insertions.push(m),
                    counter: st.counter + 1,
                },
                n0,
            )
        }),
{
    let k = st.counter;
    let (n2, m) = series_delay(st.netlist, inst, pin, dc.cell, dc.in_pin, dc.out_pin, k)->0;
    let ins = st.insertions.push(m);
    let p = RoundView { netlist: n2, insertions: ins, counter: k + 1 };
    lemma_series_delay_shape(st.netlist, inst, pin, dc.cell, dc.in_pin, dc.out_pin, k);
    lemma_series_delay_pin_nets(st.netlist, inst, pin, dc.cell, dc.in_pin, dc.out_pin, k);
    let fi = find_inst(st.netlist.insts, inst);
    lemma_find_inst_bound(st.netlist.insts, inst);
    assert(ins.drop_last() =~= st.insertions);
    assert(ins.last() == m);
    assert forall|i2: Seq<char>, p2: Seq<char>| !is_buffer_name(i2) implies #[trigger] pin_net(
        p.netlist,
        i2,
        p2,
    ) == latest_net(p.insertions, i2, p2, pin_net(n0, i2, p2)) by {
        assert(pin_net(st.netlist, i2, p2) == latest_net(
            st.insertions,
            i2,
            p2,
            pin_net(n0, i2, p2),
        ));
    }
    assert forall|j: int|
        0 <= j < p.insertions.len() && !is_buffer_name(p.insertions[j].cap_inst) implies Some(
        (#[trigger] p.insertions[j]).in_net,
    ) == latest_net(
        p.insertions.take(j),
        p.insertions[j].cap_inst,
        p.insertions[j].cap_pin,
        pin_net(n0, p.insertions[j].cap_inst, p.insertions[j].cap_pin),
    ) by {
        if j < st.insertions.len() {
            assert(p.insertions[j] == st.insertions[j]);
            assert(p.insertions.take(j) =~= st.insertions.take(j));
        } else {
            assert(p.insertions.take(j) =~= st.insertions);
            assert(pin_net(st.netlist, inst, pin) == latest_net(
                st.insertions,
                inst,
                pin,
                pin_net(n0, inst, pin),
            ));
        }
    }
    if targets_plain(p.insertions) {
        assert(targets_plain(st.insertions)) by {
            assert forall|j: int| 0 <= j < st.insertions.len() implies !is_buffer_name(
                #[trigger] st.insertions[j].cap_inst,
            ) by {
                assert(p.insertions[j] == st.insertions[j]);
            }
        }
        assert(!is_buffer_name(inst)) by {
            assert(p.insertions[st.insertions.len() as int] == m);
        }
        // the rewired instance is not a buffer: buffers are all named like one
        if fi >= n0.insts.len() {
            assert(st.netlist.insts[fi].name == hold_buf((c0 + fi - n0.insts.len()) as nat));
            assert(is_buffer_name(inst));
        }
        assert forall|i: int|
            #![trigger p.netlist.insts[i]]
            0 <= i < n0.insts.len() && is_buffer_name(n0.insts[i].name) implies p.netlist.insts[i].conns
            == n0.insts[i].conns by {
            assert(st.netlist.insts[i].name == n0.insts[i].name);
            assert(st.netlist.insts[i].conns == n0.insts[i].conns);
            if i == fi {
                assert(st.netlist.insts[fi].name == inst);
            }
        }
        assert forall|j: int| 0 <= j < p.insertions.len() implies p.netlist.insts[n0.insts.len()
            + j].conns == seq![
            ((#[trigger] p.insertions[j]).in_pin, p.insertions[j].in_net),
            (p.insertions[j].out_pin, p.insertions[j].out_net),
        ] by {
            if j < st.insertions.len() {
                assert(p.insertions[j] == st.insertions[j]);
                assert(n0.insts.len() + j != fi);
                assert(p.netlist.insts[n0.insts.len() + j] == st.netlist.insts[n0.insts.len() + j]);
            } else {
                assert(p.insertions[j] == m);
                assert(n0.insts.len() + j == st.netlist.insts.len());
            }
        }
    }
}

proof fn lemma_plan_label_extends(
    st: RoundView,
    label: Seq<char>,
    dc: DelayCellView,
    dont_touch: Seq<Seq<char>>,
    n0: NetlistView,
    c0: nat,
)
    requires
        extends(st, n0, c0, dc, dont_touch),
    ensures
        extends(plan_label(st, label, dc, dont_touch), n0, c0, dc, dont_touch),
{
    if let Some((inst, pin)) = split_label(label) {
        if !protected(dont_touch, inst) {
            let k = st.counter;
            lemma_series_delay_shape(st.netlist, inst, pin, dc.cell, dc.in_pin, dc.out_pin, k);
            if fresh_from(n0, c0) {
                lemma_series_delay_fresh(
                    st.netlist,
                    inst,
                    pin,
                    dc.cell,
                    dc.in_pin,
                    dc.out_pin,
                    k,
                );
            }
            if let Some((n2, ins)) = series_delay(
                st.netlist,
                inst,
                pin,
                dc.cell,
                dc.in_pin,
                dc.out_pin,
                k,
            ) {
                let p = plan_label(st, label, dc, dont_touch);
                lemma_series_step_wired(st, inst, pin, dc, dont_touch, n0, c0);
                let fi = find_inst(st.netlist.insts, inst);
                assert(p.insertions.last() == ins);
                assert forall|j: int| 0 <= j < p.insertions.len() implies insertion_ok(
                    #[trigger] p.insertions[j],
                    (c0 + j) as nat,
                    dc,
                    dont_touch,
                ) by {
                    if j < st.insertions.len() {
                        assert(p.insertions[j] == st.insertions[j]);
                    }
                }
                assert forall|i: int|
                    #![trigger p.netlist.insts[i]]
                    0 <= i < n0.insts.len() implies p.netlist.insts[i].name == n0.insts[i].name
                    && p.netlist.insts[i].cell == n0.insts[i].cell by {
                    if i != fi {
                        assert(p.netlist.insts[i] == st.netlist.insts[i]);
                    }
                    assert(st.netlist.insts[i].name == n0.insts[i].name);
                }
                assert forall|i: int|
                    #![trigger p.netlist.insts[i]]
                    n0.insts.len() <= i < p.netlist.insts.len() implies p.netlist.insts[i].name
                    == hold_buf((c0 + i - n0.insts.len()) as nat) && p.netlist.insts[i].cell
                    == dc.cell by {
                    if i < st.netlist.insts.len() {
                        if i != fi {
                            assert(p.netlist.insts[i] == st.netlist.insts[i]);
                        }
                        assert(st.netlist.insts[i].name == hold_buf(
                            (c0 + i - n0.insts.len()) as nat,
                        ));
                    }
                }
                if fresh_from(n0, c0) {
                    assert forall|j: int| 0 <= j < p.insertions.len() implies (
                    #[trigger] p.insertions[j]).in_net != p.insertions[j].out_net by {
                        if j < st.insertions.len() {
                            assert(p.insertions[j] == st.insertions[j]);
                        }
                    }
                }
            }
        }
    }
}

/// Every round extends the netlist it starts from.
pub proof fn lemma_plan_labels_extends(
    n0: NetlistView,
    c0: nat,
    labels: Seq<Seq<char>>,
    dc: DelayCellView,
    dont_touch: Seq<Seq<char>>,
)
    ensures
        extends(plan_labels(round_start(n0, c0), labels, dc, dont_touch), n0, c0, dc, dont_touch),
    decreases labels.len(),
{
    if labels.len() == 0 {
        assert(extends(round_start(n0, c0), n0, c0, dc, dont_touch));
    } else {
        lemma_plan_labels_extends(n0, c0, labels.drop_last(), dc, dont_touch);
        lemma_plan_label_extends(
            plan_labels(round_start(n0, c0), labels.drop_last(), dc, dont_touch),
            labels.last(),
            dc,
            dont_touch,
            n0,
            c0,
        );
    }
}

proof fn lemma_compose_pin_nets(a: RoundView, p: RoundView, n0: NetlistView)
    requires
        wired_pin_nets(a, n0),
        wired_pin_nets(p, a.netlist),
    ensures
        wired_pin_nets(
            RoundView {
                netlist: p.netlist,
                insertions: a.insertions + p.insertions,
                counter: p.counter,
            },
            n0,
        ),
{
    assert forall|i2: Seq<char>, p2: Seq<char>| !is_buffer_name(i2) implies #[trigger] pin_net(
        p.netlist,
        i2,
        p2,
    ) == latest_net(a.insertions + p.insertions, i2, p2, pin_net(n0, i2, p2)) by {
        assert(pin_net(p.netlist, i2, p2) == latest_net(
            p.insertions,
            i2,
            p2,
            pin_net(a.netlist, i2, p2),
        ));
        assert(pin_net(a.netlist, i2, p2) == latest_net(
            a.insertions,
            i2,
            p2,
            pin_net(n0, i2, p2),
        ));
        lemma_latest_net_concat(a.insertions, p.insertions, i2, p2, pin_net(n0, i2, p2));
    }
}

proof fn lemma_compose_in_nets(a: RoundView, p: RoundView, n0: NetlistView)
    requires
        wired_in_nets(a, n0),
        wired_pin_nets(a, n0),
        wired_in_nets(p, a.netlist),
    ensures
        wired_in_nets(
            RoundView {
                netlist: p.netlist,
                insertions: a.insertions + p.insertions,
                counter: p.counter,
            },
            n0,
        ),
{
    let q = a.insertions + p.insertions;
    let na = a.insertions.len();
    assert forall|j: int| 0 <= j < q.len() && !is_buffer_name(q[j].cap_inst) implies Some(
        (#[trigger] q[j]).in_net,
    ) == latest_net(q.take(j), q[j].cap_inst, q[j].cap_pin, pin_net(n0, q[j].cap_inst, q[j].cap_pin))
        by {
        if j < na {
            assert(q[j] == a.insertions[j]);
            assert(q.take(j) =~= a.insertions.take(j));
        } else {
            let jj = j - na;
            let x = q[j];
            assert(x == p.insertions[jj]);
            assert(q.take(j) =~= a.insertions + p.insertions.take(jj));
            lemma_latest_net_concat(
                a.insertions,
                p.insertions.take(jj),
                x.cap_inst,
                x.cap_pin,
                pin_net(n0, x.cap_inst, x.cap_pin),
            );
            assert(pin_net(a.netlist, x.cap_inst, x.cap_pin) == latest_net(
                a.insertions,
                x.cap_inst,
                x.cap_pin,
                pin_net(n0, x.cap_inst, x.cap_pin),
            ));
        }
    }
}

#[verifier::spinoff_prover]
proof fn lemma_compose_conns(
    a: RoundView,
    p: RoundView,
    n0: NetlistView,
    c0: nat,
    dc: DelayCellView,
    dont_touch: Seq<Seq<char>>,
)
    requires
        extends(a, n0, c0, dc, dont_touch),
        p.netlist.insts.len() == a.netlist.insts.len() + p.insertions.len(),
        wired_conns(p, a.netlist),
    ensures
        wired_conns(
            RoundView {
                netlist: p.netlist,
                insertions: a.insertions + p.insertions,
                counter: p.counter,
            },
            n0,
        ),
{
    let q = a.insertions + p.insertions;
    let na = a.insertions.len();
    if targets_plain(q) {
        assert(targets_plain(a.insertions)) by {
            assert forall|j: int| 0 <= j < a.insertions.len() implies !is_buffer_name(
                #[trigger] a.insertions[j].cap_inst,
            ) by {
                assert(q[j] == a.insertions[j]);
            }
        }
        assert(targets_plain(p.insertions)) by {
            assert forall|j: int| 0 <= j < p.insertions.len() implies !is_buffer_name(
                #[trigger] p.insertions[j].cap_inst,
            ) by {
                assert(q[na + j] == p.insertions[j]);
            }
        }
        assert forall|i: int|
            #![trigger p.netlist.insts[i]]
            0 <= i < n0.insts.len() && is_buffer_name(n0.insts[i].name) implies p.netlist.insts[i].conns
            == n0.insts[i].conns by {
            assert(a.netlist.insts[i].name == n0.insts[i].name);
            assert(a.netlist.insts[i].conns == n0.insts[i].conns);
            assert(p.netlist.insts[i].conns == a.netlist.insts[i].conns);
        }
        assert forall|j: int| 0 <= j < q.len() implies p.netlist.insts[n0.insts.len() + j].conns
            == seq![
            ((#[trigger] q[j]).in_pin, q[j].in_net),
            (q[j].out_pin, q[j].out_net),
        ] by {
            if j < na {
                let i = n0.insts.len() + j;
                assert(q[j] == a.insertions[j]);
                assert(a.netlist.insts[i].name == hold_buf((c0 + i - n0.insts.len()) as nat));
                assert(is_buffer_name(a.netlist.insts[i].name));
                assert(p.netlist.insts[i].conns == a.netlist.insts[i].conns);
                assert(a.netlist.insts[i].conns == seq![
                    (a.insertions[j].in_pin, a.insertions[j].in_net),
                    (a.insertions[j].out_pin, a.insertions[j].out_net),
                ]);
            } else {
                let jj = j - na;
                assert(q[j] == p.insertions[jj]);
                assert(n0.insts.len() + j == a.netlist.insts.len() + jj);
                assert(p.netlist.insts[a.netlist.insts.len() + jj].conns == seq![
                    (p.insertions[jj].in_pin, p.insertions[jj].in_net),
                    (p.insertions[jj].out_pin, p.insertions[jj].out_net),
                ]);
            }
        }
    }
}

/// Extending twice is extending: a run that committed the buffers of `a` over `n0` and then
/// those of `p` over `a` has committed `a.insertions + p.insertions` over `n0`.
pub proof fn lemma_extends_compose(
    a: RoundView,
    p: RoundView,
    n0: NetlistView,
    c0: nat,
    dc: DelayCellView,
    dont_touch: Seq<Seq<char>>,
)
    requires
        extends(a, n0, c0, dc, dont_touch),
        extends(p, a.netlist, a.counter, dc, dont_touch),
    ensures
        extends(
            RoundView {
                netlist: p.netlist,
                insertions: a.insertions + p.insertions,
                counter: p.counter,
            },
            n0,
            c0,
            dc,
            dont_touch,
        ),
{
    let q = RoundView {
        netlist: p.netlist,
        insertions: a.insertions + p.insertions,
        counter: p.counter,
    };
    lemma_compose_pin_nets(a, p, n0);
    lemma_compose_in_nets(a, p, n0);
    lemma_compose_conns(a, p, n0, c0, dc, dont_touch);
    assert forall|j: int| 0 <= j < q.insertions.len() implies insertion_ok(
        #[trigger] q.insertions[j],
        (c0 + j) as nat,
        dc,
        dont_touch,
    ) by {
        if j < a.insertions.len() {
            assert(q.insertions[j] == a.insertions[j]);
        } else {
            assert(q.insertions[j] == p.insertions[j - a.insertions.len()]);
        }
    }
    assert forall|i: int|
        #![trigger q.netlist.insts[i]]
        0 <= i < n0.insts.len() implies q.netlist.insts[i].name == n0.insts[i].name
        && q.netlist.insts[i].cell == n0.insts[i].cell by {
        assert(a.netlist.insts[i].name == n0.insts[i].name);
    }
    assert forall|i: int|
        #![trigger q.netlist.insts[i]]
        n0.insts.len() <= i < q.netlist.insts.len() implies q.netlist.insts[i].name == hold_buf(
        (c0 + i - n0.insts.len()) as nat,
    ) && q.netlist.insts[i].cell == dc.cell by {
        if i < a.netlist.insts.len() {
            assert(a.netlist.insts[i].name == hold_buf((c0 + i - n0.insts.len()) as nat));
        }
    }
    if fresh_from(n0, c0) {
        assert forall|j: int| 0 <= j < q.insertions.len() implies (
        #[trigger] q.insertions[j]).in_net != q.insertions[j].out_net by {
            if j < a.insertions.len() {
                assert(q.insertions[j] == a.insertions[j]);
            } else {
                assert(q.insertions[j] == p.insertions[j - a.insertions.len()]);
            }
        }
    }
}


/// Where a run stands: waiting for the timing of its current netlist, waiting for the
/// verdict on a trial, or finished.
#[derive(Debug, PartialEq, Eq, Structural, Clone, Copy)]
pub enum Phase {
    Measure,
    Score,
    Done,
}

/// What the timer says, in answer to the run's last action.
pub enum EcoEvent {
    /// On the current netlist: whether the worst hold slack is met within the margin, and
    /// the labels (`inst/pin`) of the capture pins whose hold slack is below `-margin`,
    /// worst first.
    Slacks { hold_met: bool, violating: Vec<String> },
    /// On the trial netlist: whether the worst hold slack improved and setup stayed
    /// acceptable.
    Verdict { accept: bool },
}

/// The mathematical value of an [`EcoEvent`].
pub enum EcoEventView {
    Slacks { hold_met: bool, violating: Seq<Seq<char>> },
    Verdict { accept: bool },
}

impl View for EcoEvent {
    type V = EcoEventView;

    open spec fn view(&self) -> EcoEventView {
        match self {
            EcoEvent::Slacks { hold_met, violating } => EcoEventView::Slacks {
                hold_met: *hold_met,
                violating: texts(violating@),
            },
            EcoEvent::Verdict { accept } => EcoEventView::Verdict { accept: *accept },
        }
    }
}

/// What the run asks of the timer next.
pub enum EcoAction {
    /// Report the slacks of the current netlist.
    Measure,
    /// Time this trial netlist and give the verdict on it.
    Time(Netlist),
    /// Nothing more: the run is over.
    Finish,
}

/// The mathematical value of an [`EcoAction`].
pub enum EcoActionView {
    Measure,
    Time(NetlistView),
    Finish,
}

impl View for EcoAction {
    type V = EcoActionView;

    open spec fn view(&self) -> EcoActionView {
        match self {
            EcoAction::Measure => EcoActionView::Measure,
            EcoAction::Time(nl) => EcoActionView::Time(nl@),
            EcoAction::Finish => EcoActionView::Finish,
        }
    }
}

/// The mathematical value of an [`EcoRun`].
pub struct EcoView {
    pub delay: DelayCellView,
    pub dont_touch: Seq<Seq<char>>,
    /// The round budget.
    pub rounds: nat,
    /// The netlist the run started from.
    pub base: NetlistView,
    /// The netlist with every accepted buffer, those buffers, and the next buffer number.
    pub committed: RoundView,
    /// Rounds tried so far.
    pub round: nat,
    /// The trial awaiting its verdict.
    pub pending: Option<RoundView>,
    pub phase: Phase,
}

/// The invariant of a run: what it committed extends the netlist it started from, a
/// pending trial extends what it committed and inserts something, and no more rounds
/// were tried than the budget allows.
pub open spec fn eco_inv(s: EcoView) -> bool {
    &&& extends(s.committed, s.base, 0, s.delay, s.dont_touch)
    &&& s.round <= s.rounds
    &&& (s.phase == Phase::Score) == (s.pending is Some)
    &&& s.pending matches Some(p) ==> {
        &&& extends(p, s.committed.netlist, s.committed.counter, s.delay, s.dont_touch)
        &&& p.insertions.len() > 0
    }
}

/// A run that starts from `nl`, before its first measurement.
pub open spec fn eco_start(
    nl: NetlistView,
    dc: DelayCellView,
    dont_touch: Seq<Seq<char>>,
    rounds: nat,
) -> EcoView {
    EcoView {
        delay: dc,
        dont_touch: dont_touch,
        rounds: rounds,
        base: nl,
        committed: round_start(nl, 0),
        round: 0,
        pending: None,
        phase: Phase::Measure,
    }
}

/// The event is the one the run waits for: slacks when measuring, a verdict when scoring.
pub open spec fn can_take(s: EcoView, ev: EcoEventView) -> bool {
    ||| s.phase == Phase::Measure && ev is Slacks
    ||| s.phase == Phase::Score && ev is Verdict
}

/// One decision of the ECO loop. On slacks: stop when the round budget is spent, when hold
/// is met, or when nothing violates; otherwise plan a round (one delay per still-violating,
/// not `dont_touch` endpoint) and stop if it inserts nothing, else ask for its timing. Once
/// the trial is judged, an accepted trial becomes the committed netlist, which is measured
/// next; a refused one ends the run, its netlist unchanged.
pub open spec fn step_spec(s: EcoView, ev: EcoEventView) -> (EcoView, EcoActionView) {
    let done = EcoView { pending: None, phase: Phase::Done, ..s };
    match ev {
        EcoEventView::Slacks { hold_met, violating } => {
            let p = plan_labels(
                round_start(s.committed.netlist, s.committed.counter),
                violating,
                s.delay,
                s.dont_touch,
            );
            if s.round >= s.rounds || hold_met || violating.len() == 0 || p.insertions.len()
                == 0 {
                (done, EcoActionView::Finish)
            } else {
                (
                    EcoView {
                        round: s.round + 1,
                        pending: Some(p),
                        phase: Phase::Score,
                        ..s
                    },
                    EcoActionView::Time(p.netlist),
                )
            }
        },
        EcoEventView::Verdict { accept } => {
            if accept && s.pending is Some {
                let p = s.pending->0;
                (
                    EcoView {
                        committed: RoundView {
                            netlist: p.netlist,
                            insertions: s.committed.insertions + p.insertions,
                            counter: p.counter,
                        },
                        pending: None,
                        phase: Phase::Measure,
                        ..s
                    },
                    EcoActionView::Measure,
                )
            } else {
                (done, EcoActionView::Finish)
            }
        },
    }
}

/// A hold-fix run: the greedy loop that adds series delay at every violating hold endpoint,
/// round by round, until hold is met or the round budget runs out. It is driven by
/// [`EcoRun::step`], which the timer answers.
pub struct EcoRun {
    delay: DelayCell,
    dont_touch: Vec<String>,
    rounds: usize,
    base: Ghost<NetlistView>,
    netlist: Netlist,
    inserted: Vec<Insertion>,
    counter: usize,
    round: usize,
    pending: Option<RoundPlan>,
    phase: Phase,
}

impl View for EcoRun {
    type V = EcoView;

    closed spec fn view(&self) -> EcoView {
        EcoView {
            delay: self.delay@,
            dont_touch: texts(self.dont_touch@),
            rounds: self.rounds as nat,
            base: self.base@,
            committed: RoundView {
                netlist: self.netlist@,
                insertions: insertion_views(self.inserted@),
                counter: self.counter as nat,
            },
            round: self.round as nat,
            pending: match self.pending {
                Some(p) => Some(p@),
                None => None,
            },
            phase: self.phase,
        }
    }
}

impl EcoRun {
    /// The run is well formed.
    pub open spec fn wf(&self) -> bool {
        eco_inv(self@)
    }

    /// A run on `netlist` that inserts `delay`, never in front of an instance that a glob
    /// of `dont_touch` matches, for at most `rounds` rounds.
    pub fn new(netlist: Netlist, delay: DelayCell, dont_touch: Vec<String>, rounds: usize) -> (r:
        EcoRun)
        ensures
            r.wf(),
            r@ == eco_start(netlist@, delay@, texts(dont_touch@), rounds as nat),
    {
        let ghost nv = netlist@;
        let r = EcoRun {
            delay,
            dont_touch,
            rounds,
            base: Ghost(nv),
            netlist,
            inserted: Vec::new(),
            counter: 0,
            round: 0,
            pending: None,
            phase: Phase::Measure,
        };
        assert(insertion_views(r.inserted@) =~= Seq::<InsertionView>::empty());
        assert(r@.committed =~= round_start(nv, 0));
        assert(extends(round_start(nv, 0), nv, 0, r@.delay, r@.dont_touch));
        r
    }

    /// The netlist with every accepted delay buffer.
    pub fn netlist(&self) -> (r: &Netlist)
        ensures
            r@ == self@.committed.netlist,
    {
        &self.netlist
    }

    /// Every accepted delay buffer, in the order inserted.
    pub fn inserted(&self) -> (r: &Vec<Insertion>)
        ensures
            insertion_views(r@) == self@.committed.insertions,
    {
        &self.inserted
    }

    /// Where the run stands.
    pub fn phase(&self) -> (r: Phase)
        ensures
            r == self@.phase,
    {
        self.phase
    }

    /// The netlist and the accepted delay buffers, once the run is over.
    pub fn into_parts(self) -> (r: (Netlist, Vec<Insertion>))
        ensures
            r.0@ == self@.committed.netlist,
            insertion_views(r.1@) == self@.committed.insertions,
    {
        (self.netlist, self.inserted)
    }

    /// Take what the timer says and decide what comes next (see [`step_spec`]).
    pub fn step(&mut self, ev: EcoEvent) -> (a: EcoAction)
        requires
            old(self).wf(),
            can_take(old(self)@, ev@),
        ensures
            final(self).wf(),
            (final(self)@, a@) == step_spec(old(self)@, ev@),
    {
        let ghost s = self@;
        match ev {
            EcoEvent::Slacks { hold_met, violating } => {
                let ghost labels = texts(violating@);
                if self.round >= self.rounds || hold_met || violating.len() == 0 {
                    self.phase = Phase::Done;
                    assert(self@ =~= step_spec(s, ev@).0);
                    return EcoAction::Finish;
                }
                assert(self.netlist@.insts.len() == self.netlist.insts.len());
                let plan = plan_round(
                    &self.netlist,
                    &violating,
                    &self.delay,
                    &self.dont_touch,
                    self.counter,
                );
                proof {
                    lemma_plan_labels_extends(
                        s.committed.netlist,
                        s.committed.counter,
                        labels,
                        s.delay,
                        s.dont_touch,
                    );
                }
                if plan.insertions.len() == 0 {
                    self.phase = Phase::Done;
                    assert(self@ =~= step_spec(s, ev@).0);
                    return EcoAction::Finish;
                }
                let trial = plan.trial.duplicate();
                self.round = self.round + 1;
                self.pending = Some(plan);
                self.phase = Phase::Score;
                assert(self@ =~= step_spec(s, ev@).0);
                EcoAction::Time(trial)
            },
            EcoEvent::Verdict { accept } => {
                let pending = self.pending.take();
                match pending {
                    Some(plan) => {
                        if accept {
                            let RoundPlan { trial, insertions, counter } = plan;
                            let mut insertions = insertions;
                            let ghost before = self.inserted@;
                            let ghost added = insertions@;
                            self.inserted.append(&mut insertions);
                            assert(insertion_views(self.inserted@) =~= insertion_views(before)
                                + insertion_views(added));
                            self.netlist = trial;
                            self.counter = counter;
                            self.phase = Phase::Measure;
                            proof {
                                lemma_extends_compose(
                                    s.committed,
                                    s.pending->0,
                                    s.base,
                                    0,
                                    s.delay,
                                    s.dont_touch,
                                );
                            }
                            assert(self@ =~= step_spec(s, ev@).0);
                            EcoAction::Measure
                        } else {
                            self.phase = Phase::Done;
                            assert(self@ =~= step_spec(s, ev@).0);
                            EcoAction::Finish
                        }
                    },
                    None => {
                        self.phase = Phase::Done;
                        assert(self@ =~= step_spec(s, ev@).0);
                        EcoAction::Finish
                    },
                }
            },
        }
    }
}


impl EcoRun {
    /// Begin the hold fix of `cfg` on `netlist`: the delay cell `cfg.buffer` is looked up in
    /// `cells` and must have exactly one input and one output pin.
    pub fn start(netlist: Netlist, cells: &Vec<LibCell>, cfg: &HoldCfg) -> (r: Result<
        EcoRun,
        String,
    >)
        ensures
            match buffer_pins_of(cell_views(cells@), cfg.buffer@) {
                Err(m) => r is Err && r->Err_0@ == m,
                Ok(pins) => r is Ok && r->Ok_0.wf() && r->Ok_0@ == eco_start(
                    netlist@,
                    DelayCellView { cell: cfg.buffer@, in_pin: pins.0, out_pin: pins.1 },
                    cfg@.dont_touch,
                    cfg.rounds as nat,
                ),
            },
    {
        match buffer_pins(cells, cfg.buffer.as_str()) {
            Err(m) => Err(m),
            Ok((bin, bout)) => {
                let delay = DelayCell { cell: cfg.buffer.clone(), in_pin: bin, out_pin: bout };
                Ok(EcoRun::new(netlist, delay, copy_strings(&cfg.dont_touch), cfg.rounds))
            },
        }
    }
}

/// Law: a design that already meets hold is left completely alone. Whenever the timer
/// reports hold met, the run finishes and what it committed — netlist and buffers — is
/// unchanged; on its first report, that is the netlist it started from, with no buffer.
pub proof fn law_met_hold_is_left_alone(s: EcoView, violating: Seq<Seq<char>>)
    requires
        eco_inv(s),
        s.phase == Phase::Measure,
    ensures
        ({
            let (t, a) = step_spec(s, EcoEventView::Slacks { hold_met: true, violating });
            &&& t.phase == Phase::Done
            &&& a == EcoActionView::Finish
            &&& t.committed == s.committed
            &&& s.round == 0 && s.committed == round_start(s.base, 0) ==> {
                &&& t.committed.netlist == s.base
                &&& t.committed.insertions.len() == 0
            }
        }),
{
}

/// Law: a round is tried whenever it can do something. On slacks that report hold not
/// met, with rounds left, a violating label `inst/pin` whose instance no `dont_touch` glob
/// matches and whose pin is on a net of the committed netlist makes the run ask for the
/// timing of a trial that puts a buffer in front of that pin — whatever the other
/// violating labels are (ports, `dont_touch` instances or missing pins are only skipped).
pub proof fn law_round_runs_when_a_pin_can_be_delayed(
    s: EcoView,
    violating: Seq<Seq<char>>,
    k: int,
    inst: Seq<char>,
    pin: Seq<char>,
)
    requires
        eco_inv(s),
        s.phase == Phase::Measure,
        s.round < s.rounds,
        0 <= k < violating.len(),
        split_label(violating[k]) == Some((inst, pin)),
        forall|g: int|
            0 <= g < s.dont_touch.len() ==> !glob_matches(#[trigger] s.dont_touch[g], inst),
        pin_net(s.committed.netlist, inst, pin) is Some,
    ensures
        ({
            let (t, a) = step_spec(s, EcoEventView::Slacks { hold_met: false, violating });
            &&& t.phase == Phase::Score
            &&& t.round == s.round + 1
            &&& t.committed == s.committed
            &&& t.pending is Some
            &&& a == EcoActionView::Time(t.pending->0.netlist)
            &&& exists|j: int|
                0 <= j < t.pending->0.insertions.len() && (#[trigger] t.pending->0.insertions[j]).cap_inst
                    == inst && t.pending->0.insertions[j].cap_pin == pin
        }),
{
    law_every_delayable_pin_is_delayed(
        round_start(s.committed.netlist, s.committed.counter),
        violating,
        s.delay,
        s.dont_touch,
        k,
        inst,
        pin,
    );
    let p = plan_labels(
        round_start(s.committed.netlist, s.committed.counter),
        violating,
        s.delay,
        s.dont_touch,
    );
    let j = choose|j: int|
        0 <= j < p.insertions.len() && (#[trigger] p.insertions[j]).cap_inst == inst
            && p.insertions[j].cap_pin == pin;
    assert(p.insertions.len() > 0);
    let (t, a) = step_spec(s, EcoEventView::Slacks { hold_met: false, violating });
    assert(t.pending == Some(p));
    assert(t.pending->0.insertions[j] == p.insertions[j]);
}

/// Law: on slacks, the run finishes exactly when the round budget is spent, hold is met, or
/// the planned round inserts no buffer; otherwise it asks for the timing of that round's
/// trial netlist.
pub proof fn law_slacks_finish_only_when_nothing_to_try(
    s: EcoView,
    hold_met: bool,
    violating: Seq<Seq<char>>,
)
    requires
        eco_inv(s),
        s.phase == Phase::Measure,
    ensures
        ({
            let p = plan_labels(
                round_start(s.committed.netlist, s.committed.counter),
                violating,
                s.delay,
                s.dont_touch,
            );
            let (t, a) = step_spec(s, EcoEventView::Slacks { hold_met, violating });
            &&& (a == EcoActionView::Finish) == (s.round >= s.rounds || hold_met
                || p.insertions.len() == 0)
            &&& a != EcoActionView::Finish ==> a == EcoActionView::Time(p.netlist) && t.pending
                == Some(p)
        }),
{
    if violating.len() == 0 {
        assert(plan_labels(
            round_start(s.committed.netlist, s.committed.counter),
            violating,
            s.delay,
            s.dont_touch,
        ).insertions.len() == 0);
    }
}

/// Law: an accepted trial is kept. When the timer accepts the trial it was asked to time,
/// the trial's netlist becomes the committed netlist, its buffers are added after those
/// already committed, and the run measures the new netlist next.
pub proof fn law_accepted_trial_is_kept(s: EcoView)
    requires
        eco_inv(s),
        s.phase == Phase::Score,
    ensures
        ({
            let p = s.pending->0;
            let (t, a) = step_spec(s, EcoEventView::Verdict { accept: true });
            &&& a == EcoActionView::Measure
            &&& t.phase == Phase::Measure
            &&& t.pending is None
            &&& t.committed.netlist == p.netlist
            &&& t.committed.insertions == s.committed.insertions + p.insertions
            &&& t.committed.counter == p.counter
            &&& t.round == s.round
        }),
{
}

/// Law: setup is never traded away for hold. The committed netlist changes only on a
/// verdict that accepts the trial (the timer accepts only when worst hold improved and
/// setup stays acceptable); a refused trial ends the run with the netlist as it was.
pub proof fn law_changes_only_when_accepted(s: EcoView, ev: EcoEventView)
    requires
        eco_inv(s),
        can_take(s, ev),
    ensures
        step_spec(s, ev).0.committed != s.committed ==> ev == (EcoEventView::Verdict {
            accept: true,
        }),
        ev == (EcoEventView::Verdict { accept: false }) ==> {
            &&& step_spec(s, ev).0.committed == s.committed
            &&& step_spec(s, ev).0.phase == Phase::Done
        },
{
}

/// Law: every decision keeps the invariant of the run (see [`eco_inv`]), and the run
/// tries no more rounds than its budget.
pub proof fn law_step_keeps_invariant(s: EcoView, ev: EcoEventView)
    requires
        eco_inv(s),
        can_take(s, ev),
    ensures
        eco_inv(step_spec(s, ev).0),
        step_spec(s, ev).0.round <= s.rounds,
{
    match ev {
        EcoEventView::Slacks { hold_met, violating } => {
            lemma_plan_labels_extends(
                s.committed.netlist,
                s.committed.counter,
                violating,
                s.delay,
                s.dont_touch,
            );
        },
        EcoEventView::Verdict { accept } => {
            if accept && s.pending is Some {
                lemma_extends_compose(s.committed, s.pending->0, s.base, 0, s.delay, s.dont_touch);
            }
        },
    }
}

/// Law: what a run has committed. Its netlist is the one it started from — every instance
/// keeping its name and cell — followed by one instance per inserted buffer, the `j`-th
/// named `hold_buf(j)` of the delay cell, so the buffers reported and the instances in the
/// netlist agree. Each buffer drives its own net `hold_net(j)`, so no net is driven by two
/// buffers and a delay chain grows in series; no buffer sits in front of an instance that
/// a `dont_touch` glob matches. Where the starting netlist had no net of the form
/// `__hold_n<k>`, no buffer's input is its own output.
///
/// The buffers are wired in series. Each buffer in front of an instance not named like a
/// delay buffer takes the net its capture pin was on: the output of the previous buffer in
/// front of the same pin, or the pin's net in the starting netlist. Every pin of such an
/// instance is on the output of the last buffer in front of it — the end of its chain — or
/// on its starting net. When no capture instance is named like a delay buffer, the `j`-th
/// buffer instance is connected exactly `(in_pin, in_net), (out_pin, out_net)`.
pub proof fn law_committed_buffers(s: EcoView)
    requires
        eco_inv(s),
    ensures
        ({
            let c = s.committed;
            let n = s.base.insts.len();
            &&& c.netlist.insts.len() == n + c.insertions.len()
            &&& forall|i: int|
                #![trigger c.netlist.insts[i]]
                0 <= i < n ==> c.netlist.insts[i].name == s.base.insts[i].name
                    && c.netlist.insts[i].cell == s.base.insts[i].cell
            &&& forall|j: int|
                #![trigger c.insertions[j]]
                0 <= j < c.insertions.len() ==> {
                    &&& c.netlist.insts[n + j].name == c.insertions[j].buffer
                    &&& c.netlist.insts[n + j].cell == s.delay.cell
                    &&& c.insertions[j].buffer == hold_buf(j as nat)
                    &&& c.insertions[j].out_net == hold_net(j as nat)
                    &&& c.insertions[j].cell == s.delay.cell
                    &&& c.insertions[j].in_pin == s.delay.in_pin
                    &&& c.insertions[j].out_pin == s.delay.out_pin
                    &&& !protected(s.dont_touch, c.insertions[j].cap_inst)
                    &&& fresh_from(s.base, 0) ==> c.insertions[j].in_net
                        != c.insertions[j].out_net
                }
            &&& forall|j1: int, j2: int|
                0 <= j1 < j2 < c.insertions.len() ==> {
                    &&& (#[trigger] c.insertions[j1]).out_net != (
                    #[trigger] c.insertions[j2]).out_net
                    &&& c.insertions[j1].buffer != c.insertions[j2].buffer
                }
            &&& forall|j: int|
                #![trigger c.insertions[j]]
                0 <= j < c.insertions.len() && !is_buffer_name(c.insertions[j].cap_inst) ==> Some(
                    c.insertions[j].in_net,
                ) == latest_net(
                    c.insertions.take(j),
                    c.insertions[j].cap_inst,
                    c.insertions[j].cap_pin,
                    pin_net(s.base, c.insertions[j].cap_inst, c.insertions[j].cap_pin),
                )
            &&& forall|inst: Seq<char>, pin: Seq<char>|
                !is_buffer_name(inst) ==> #[trigger] pin_net(c.netlist, inst, pin) == latest_net(
                    c.insertions,
                    inst,
                    pin,
                    pin_net(s.base, inst, pin),
                )
            &&& targets_plain(c.insertions) ==> forall|j: int|
                #![trigger c.insertions[j]]
                0 <= j < c.insertions.len() ==> c.netlist.insts[n + j].conns == seq![
                    (c.insertions[j].in_pin, c.insertions[j].in_net),
                    (c.insertions[j].out_pin, c.insertions[j].out_net),
                ]
        }),
{
    let c = s.committed;
    let n = s.base.insts.len();
    assert forall|j: int|
        #![trigger c.insertions[j]]
        0 <= j < c.insertions.len() implies c.netlist.insts[n + j].name == c.insertions[j].buffer
        && c.netlist.insts[n + j].cell == s.delay.cell by {
        assert(insertion_ok(c.insertions[j], (0 + j) as nat, s.delay, s.dont_touch));
        assert(c.netlist.insts[n + j].name == hold_buf((0 + (n + j) - n) as nat));
    }
    assert forall|j1: int, j2: int| 0 <= j1 < j2 < c.insertions.len() implies {
        &&& (#[trigger] c.insertions[j1]).out_net != (#[trigger] c.insertions[j2]).out_net
        &&& c.insertions[j1].buffer != c.insertions[j2].buffer
    } by {
        assert(insertion_ok(c.insertions[j1], (0 + j1) as nat, s.delay, s.dont_touch));
        assert(insertion_ok(c.insertions[j2], (0 + j2) as nat, s.delay, s.dont_touch));
        lemma_hold_names_injective(j1 as nat, j2 as nat);
    }
}


/// Law: `dont_touch` is honoured by every run. No buffer a run has committed sits in front
/// of an instance that some glob of its `dont_touch` list matches, whichever glob it is.
pub proof fn law_no_buffer_before_dont_touch(s: EcoView)
    requires
        eco_inv(s),
    ensures
        forall|j: int, g: int|
            0 <= j < s.committed.insertions.len() && 0 <= g < s.dont_touch.len() ==> !glob_matches(
                #[trigger] s.dont_touch[g],
                #[trigger] s.committed.insertions[j].cap_inst,
            ),
{
    law_committed_buffers(s);
    assert forall|j: int, g: int|
        0 <= j < s.committed.insertions.len() && 0 <= g < s.dont_touch.len() implies !glob_matches(
        #[trigger] s.dont_touch[g],
        #[trigger] s.committed.insertions[j].cap_inst,
    ) by {
        assert(!protected(s.dont_touch, s.committed.insertions[j].cap_inst));
    }
}

/// Law: buffers are only ever added. What a run has committed after any decision starts
/// with what it had committed before, so an accepted round never undoes an earlier one.
pub proof fn law_commits_only_append(s: EcoView, ev: EcoEventView)
    requires
        eco_inv(s),
        can_take(s, ev),
    ensures
        ({
            let t = step_spec(s, ev).0;
            &&& s.committed.insertions.len() <= t.committed.insertions.len()
            &&& t.committed.insertions.take(s.committed.insertions.len() as int)
                == s.committed.insertions
        }),
{
    let t = step_spec(s, ev).0;
    assert(t.committed.insertions.take(s.committed.insertions.len() as int)
        =~= s.committed.insertions);
}

/// Law: more effort follows less effort. Two runs that differ only in their round budget
/// and are told the same take the same decision, unless the smaller budget is spent, in
/// which case the smaller run finishes with what it had committed. Fed the same timing, a
/// run with a bigger budget therefore commits everything the smaller one does, and then
/// possibly more accepted rounds.
pub proof fn law_more_budget_follows(s1: EcoView, s2: EcoView, ev: EcoEventView)
    requires
        s1 == (EcoView { rounds: s1.rounds, ..s2 }),
        s1.rounds <= s2.rounds,
        can_take(s1, ev),
    ensures
        ({
            let (t1, a1) = step_spec(s1, ev);
            let (t2, a2) = step_spec(s2, ev);
            ||| t1 == (EcoView { rounds: s1.rounds, ..t2 }) && a1 == a2
            ||| a1 == EcoActionView::Finish && t1.committed == s1.committed && s1.round
                >= s1.rounds
        }),
{
}

} // verus!

//! What the hold ECO must never get wrong, on the two-flop fixture: a near-zero data path
//! plus a fast CK->Q, so the second flop captures its own launch data on the same edge.
//!
//! The run's decisions are the library's; the slacks come from a small delay model of the
//! fixture (0.02 ns CK->Q, 0.15 ns per delay cell, a 0.2 ns hold requirement on every flop
//! data pin, primary inputs arriving at 0, a 5 ns clock).

use vyges_hold_fix::emit::to_verilog;
use vyges_hold_fix::engine::{
    buffer_pins, EcoAction, EcoEvent, EcoRun, LibCell, PinDirection,
};
use vyges_hold_fix::job::parse_cfg;
use vyges_hold_fix::netlist::{Inst, Insertion, Netlist};

fn s(x: &str) -> String {
    x.to_string()
}

fn inst(cell: &str, name: &str, conns: &[(&str, &str)]) -> Inst {
    Inst {
        cell: s(cell),
        name: s(name),
        conns: conns.iter().map(|(p, n)| (s(p), s(n))).collect(),
    }
}

/// Two flops, `q1` running straight from f1.Q into f2.D — a hold violation by construction.
fn fixture() -> Netlist {
    Netlist {
        module: s("top"),
        inputs: vec![s("clk"), s("d")],
        outputs: vec![s("q")],
        insts: vec![
            inst("DFF", "f1", &[("CK", "clk"), ("D", "d"), ("Q", "q1")]),
            inst("DFF", "f2", &[("CK", "clk"), ("D", "q1"), ("Q", "q")]),
        ],
    }
}

/// A flop with a clock, a data input and an output, and a one-in one-out delay cell.
fn library() -> Vec<LibCell> {
    vec![
        LibCell {
            name: s("DFF"),
            pins: vec![
                (s("CK"), PinDirection::Input),
                (s("D"), PinDirection::Input),
                (s("Q"), PinDirection::Output),
            ],
        },
        LibCell {
            name: s("DLY"),
            pins: vec![(s("A"), PinDirection::Input), (s("X"), PinDirection::Output)],
        },
    ]
}

struct Timing {
    /// `(inst/pin, hold slack)` of every flop data pin, worst first.
    hold: Vec<(String, f64)>,
    whs: f64,
    wns: f64,
}

fn arrival(nl: &Netlist, net: &str) -> f64 {
    for i in &nl.insts {
        for (p, n) in &i.conns {
            if n == net && i.cell == "DFF" && p == "Q" {
                return 0.02;
            }
            if n == net && i.cell == "DLY" && p == "X" {
                let input = &i.conns.iter().find(|(p, _)| p == "A").unwrap().1;
                return 0.15 + arrival(nl, input);
            }
        }
    }
    0.0
}

fn time(nl: &Netlist) -> Timing {
    let mut hold = Vec::new();
    let mut wns = f64::INFINITY;
    for i in nl.insts.iter().filter(|i| i.cell == "DFF") {
        let d = &i.conns.iter().find(|(p, _)| p == "D").unwrap().1;
        let a = arrival(nl, d);
        hold.push((format!("{}/D", i.name), a - 0.2));
        wns = wns.min(5.0 - a);
    }
    hold.sort_by(|x, y| x.1.partial_cmp(&y.1).unwrap());
    let whs = hold.iter().map(|h| h.1).fold(f64::INFINITY, f64::min);
    Timing { hold, whs, wns }
}

struct Outcome {
    before_whs: f64,
    after_whs: f64,
    before_wns: f64,
    after_wns: f64,
    hold_margin: f64,
    inserted: Vec<Insertion>,
    netlist_v: String,
}

fn run(cfg_text: &str) -> Result<Outcome, String> {
    let cfg = parse_cfg(cfg_text)?;
    let margin: f64 = cfg.hold_margin.parse().unwrap();
    let mut eco = EcoRun::start(fixture(), &library(), &cfg)?;
    let mut t = time(eco.netlist());
    let (before_whs, before_wns) = (t.whs, t.wns);
    loop {
        let hold_met = t.whs >= -margin;
        let violating: Vec<String> =
            t.hold.iter().filter(|h| h.1 < -margin).map(|h| h.0.clone()).collect();
        match eco.step(EcoEvent::Slacks { hold_met, violating }) {
            EcoAction::Time(trial) => {
                let tt = time(&trial);
                let setup_ok =
                    if t.wns >= 0.0 { tt.wns >= -1e-9 } else { tt.wns >= t.wns - 1e-9 };
                let accept = tt.whs > t.whs + 1e-9 && setup_ok;
                match eco.step(EcoEvent::Verdict { accept }) {
                    EcoAction::Measure => t = tt,
                    _ => break,
                }
            }
            _ => break,
        }
    }
    let (netlist, inserted) = eco.into_parts();
    Ok(Outcome {
        before_whs,
        after_whs: t.whs,
        before_wns,
        after_wns: t.wns,
        hold_margin: margin,
        inserted,
        netlist_v: to_verilog(&netlist),
    })
}

fn fix() -> Outcome {
    run("buffer: DLY\nhold_margin: 0.0\nrounds: high\n").expect("hold fix should run")
}

#[test]
fn the_fixture_really_does_violate_hold() {
    let r = fix();
    assert!(r.before_whs < 0.0, "fixture must start with negative hold slack, got {}", r.before_whs);
}

#[test]
fn inserting_delay_fixes_hold() {
    let r = fix();
    assert!(r.after_whs > r.before_whs, "WHS must improve: {} -> {}", r.before_whs, r.after_whs);
    assert!(
        r.after_whs >= -r.hold_margin,
        "hold should be met within margin {}, got WHS {}",
        r.hold_margin,
        r.after_whs
    );
    assert!(!r.inserted.is_empty(), "fixing hold requires inserting delay");
    assert_eq!(r.inserted.len(), 4);
}

#[test]
fn setup_is_never_traded_away_for_hold() {
    let r = fix();
    if r.before_wns >= 0.0 {
        assert!(r.after_wns >= -1e-9, "setup went negative: {}", r.after_wns);
    } else {
        assert!(r.after_wns >= r.before_wns - 1e-9, "setup got worse: {}", r.after_wns);
    }
}

#[test]
fn every_insertion_is_wired_in_series_on_the_capture_pin() {
    let r = fix();
    let v = &r.netlist_v;
    for ins in &r.inserted {
        assert_ne!(
            ins.in_net, ins.out_net,
            "a buffer whose input and output are the same net is a short, not a delay"
        );
        let decl = format!(
            "{} {} ( .{}({}), .{}({}) );",
            ins.cell, ins.buffer, ins.in_pin, ins.in_net, ins.out_pin, ins.out_net
        );
        assert!(v.contains(&decl), "emitted netlist is missing the inserted buffer:\n  want: {decl}\n  got:\n{v}");
    }
    let mut caps: Vec<(&str, &str)> =
        r.inserted.iter().map(|i| (i.cap_inst.as_str(), i.cap_pin.as_str())).collect();
    caps.sort_unstable();
    caps.dedup();
    for (inst, pin) in caps {
        let driver = r
            .inserted
            .iter()
            .filter(|i| i.cap_inst == inst && i.cap_pin == pin)
            .find(|i| v.contains(&format!(".{}({})", pin, i.out_net)));
        assert!(driver.is_some(), "capture pin {inst}/{pin} was delayed but no inserted buffer drives it:\n{v}");
    }
}

#[test]
fn repeated_rounds_chain_in_series_rather_than_stacking() {
    let r = fix();
    for ins in &r.inserted {
        let others: Vec<_> = r
            .inserted
            .iter()
            .filter(|o| o.buffer != ins.buffer && o.out_net == ins.out_net)
            .collect();
        assert!(others.is_empty(), "net {} is driven by more than one inserted buffer", ins.out_net);
    }
}

#[test]
fn dont_touch_instances_are_never_delayed() {
    let r = run("buffer: DLY\nhold_margin: 0.0\nrounds: high\ndont_touch: f2\n")
        .expect("run with dont_touch");
    assert!(
        r.inserted.iter().all(|i| i.cap_inst != "f2"),
        "f2 is dont_touch but was delayed: {:?}",
        r.inserted.iter().map(|i| &i.cap_inst).collect::<Vec<_>>()
    );
}

#[test]
fn a_dont_touch_glob_matches_a_prefix() {
    let r = run("buffer: DLY\nhold_margin: 0.0\nrounds: high\ndont_touch: f*\n")
        .expect("run with glob dont_touch");
    assert!(
        r.inserted.is_empty(),
        "every capture instance matches f*, so nothing may be delayed: {:?}",
        r.inserted.iter().map(|i| &i.cap_inst).collect::<Vec<_>>()
    );
}

#[test]
fn more_effort_never_does_worse_on_hold() {
    let low = run("buffer: DLY\nhold_margin: 0.0\nrounds: low\n").expect("low");
    let high = run("buffer: DLY\nhold_margin: 0.0\nrounds: high\n").expect("high");
    assert!(high.after_whs >= low.after_whs - 1e-9);
}

#[test]
fn a_design_already_meeting_hold_is_left_alone() {
    let r = run("buffer: DLY\nhold_margin: 10.0\nrounds: high\n").expect("run with wide margin");
    assert!(r.inserted.is_empty(), "nothing should be inserted: {:?}", r.inserted.len());
    assert_eq!(r.before_whs, r.after_whs);
    assert_eq!(r.netlist_v, to_verilog(&fixture()));
}

#[test]
fn an_unknown_buffer_cell_is_an_error_not_a_panic() {
    let e = run("buffer: NOT_IN_LIB\nhold_margin: 0.0\nrounds: high\n")
        .err()
        .expect("a buffer cell absent from the .lib must fail");
    assert!(e.contains("NOT_IN_LIB"), "the error should name the missing cell, got: {e}");
    assert_eq!(e, "buffer cell \"NOT_IN_LIB\" not in any .lib");
}

#[test]
fn a_cell_that_is_not_a_single_input_buffer_is_rejected() {
    let e = run("buffer: DFF\nhold_margin: 0.0\nrounds: high\n")
        .err()
        .expect("a flop is not a delay buffer and must be refused, not silently chained");
    assert!(e.contains("DFF"), "the error should name the cell: {e}");
    assert!(e.contains("input") && e.contains("output"), "the error should explain the one-in one-out requirement: {e}");
    assert_eq!(
        e,
        "buffer \"DFF\" must have exactly one input and one output pin, but has 2 input(s) and 1 output(s)"
    );
}

#[test]
fn the_report_and_the_emitted_netlist_agree() {
    let r = fix();
    let buffers_in_netlist =
        r.netlist_v.lines().filter(|l| l.trim_start().starts_with("DLY ")).count();
    assert_eq!(buffers_in_netlist, r.inserted.len(), "{}", r.netlist_v);
}

#[test]
fn the_delay_cell_pins_are_its_input_and_output() {
    assert_eq!(buffer_pins(&library(), "DLY"), Ok((s("A"), s("X"))));
}

#[test]
fn the_fixed_fixture_is_two_chains_of_two() {
    let r = fix();
    let names: Vec<(&str, &str, &str, &str)> = r
        .inserted
        .iter()
        .map(|i| (i.buffer.as_str(), i.in_net.as_str(), i.out_net.as_str(), i.cap_inst.as_str()))
        .collect();
    assert_eq!(
        names,
        vec![
            ("__hold_buf0", "d", "__hold_n0", "f1"),
            ("__hold_buf1", "q1", "__hold_n1", "f2"),
            ("__hold_buf2", "__hold_n0", "__hold_n2", "f1"),
            ("__hold_buf3", "__hold_n1", "__hold_n3", "f2"),
        ]
    );
    assert!((r.after_whs - 0.10).abs() < 1e-9);
}

/// A trial the timer refuses (here: one that would break setup) ends the run with the
/// netlist as it was.
#[test]
fn a_refused_trial_leaves_the_netlist_as_it_was() {
    let cfg = parse_cfg("buffer: DLY\nrounds: high\n").unwrap();
    let mut eco = EcoRun::start(fixture(), &library(), &cfg).unwrap();
    let a = eco.step(EcoEvent::Slacks { hold_met: false, violating: vec![s("f2/D")] });
    assert!(matches!(a, EcoAction::Time(_)));
    let a = eco.step(EcoEvent::Verdict { accept: false });
    assert!(matches!(a, EcoAction::Finish));
    let (nl, inserted) = eco.into_parts();
    assert!(inserted.is_empty());
    assert_eq!(to_verilog(&nl), to_verilog(&fixture()));
}

/// The round budget caps the rounds tried, however long hold stays violated.
#[test]
fn the_round_budget_caps_the_rounds() {
    let cfg = parse_cfg("buffer: DLY\nrounds: low\n").unwrap();
    let mut eco = EcoRun::start(fixture(), &library(), &cfg).unwrap();
    let mut rounds = 0;
    loop {
        match eco.step(EcoEvent::Slacks { hold_met: false, violating: vec![s("f2/D")] }) {
            EcoAction::Time(_) => {
                rounds += 1;
                assert!(matches!(eco.step(EcoEvent::Verdict { accept: true }), EcoAction::Measure));
            }
            _ => break,
        }
    }
    assert_eq!(rounds, 10);
    assert_eq!(eco.inserted().len(), 10);
}

/// Labels without `/` (primary-output ports) and pins that are not in the netlist are
/// skipped; a round that inserts nothing ends the run.
#[test]
fn a_round_with_nothing_to_delay_ends_the_run() {
    let cfg = parse_cfg("buffer: DLY\n").unwrap();
    let mut eco = EcoRun::start(fixture(), &library(), &cfg).unwrap();
    let a = eco.step(EcoEvent::Slacks {
        hold_met: false,
        violating: vec![s("q"), s("f9/D"), s("f1/Z")],
    });
    assert!(matches!(a, EcoAction::Finish));
    assert!(eco.inserted().is_empty());
}

/// Accepted rounds only add buffers: what was committed before stays, in order.
#[test]
fn accepted_rounds_only_append_buffers() {
    let cfg = parse_cfg("buffer: DLY\nrounds: high\n").unwrap();
    let mut eco = EcoRun::start(fixture(), &library(), &cfg).unwrap();
    let mut seen: Vec<String> = Vec::new();
    for labels in [vec![s("f1/D"), s("f2/D")], vec![s("f2/D")], vec![s("f1/D")]] {
        assert!(matches!(eco.step(EcoEvent::Slacks { hold_met: false, violating: labels }), EcoAction::Time(_)));
        assert!(matches!(eco.step(EcoEvent::Verdict { accept: true }), EcoAction::Measure));
        let now: Vec<String> = eco.inserted().iter().map(|i| i.buffer.clone()).collect();
        assert!(now.len() > seen.len());
        assert_eq!(&now[..seen.len()], &seen[..]);
        seen = now;
    }
    assert_eq!(seen, vec!["__hold_buf0", "__hold_buf1", "__hold_buf2", "__hold_buf3"]);
    assert_eq!(eco.netlist().insts.len(), 2 + 4);
}

/// Each capture pin ends on the last buffer of its chain, and each buffer is connected
/// exactly `(A, in_net), (X, out_net)`.
#[test]
fn capture_pins_end_on_the_last_buffer_of_their_chain() {
    let cfg = parse_cfg("buffer: DLY\nhold_margin: 0.0\nrounds: high\n").unwrap();
    let mut eco = EcoRun::start(fixture(), &library(), &cfg).unwrap();
    let mut t = time(eco.netlist());
    loop {
        let violating: Vec<String> =
            t.hold.iter().filter(|h| h.1 < 0.0).map(|h| h.0.clone()).collect();
        match eco.step(EcoEvent::Slacks { hold_met: t.whs >= 0.0, violating }) {
            EcoAction::Time(trial) => {
                let tt = time(&trial);
                let accept = tt.whs > t.whs + 1e-9;
                match eco.step(EcoEvent::Verdict { accept }) {
                    EcoAction::Measure => t = tt,
                    _ => break,
                }
            }
            _ => break,
        }
    }
    let nl = eco.netlist();
    assert_eq!(nl.insts[0].conns[1], (s("D"), s("__hold_n2")));
    assert_eq!(nl.insts[1].conns[1], (s("D"), s("__hold_n3")));
    for (j, ins) in eco.inserted().iter().enumerate() {
        assert_eq!(
            nl.insts[2 + j].conns,
            vec![(ins.in_pin.clone(), ins.in_net.clone()), (ins.out_pin.clone(), ins.out_net.clone())]
        );
    }
}

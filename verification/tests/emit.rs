use vyges_hold_fix::emit::{id, join_ids, to_verilog};
use vyges_hold_fix::netlist::{insert_series_delay, Inst, Netlist};

fn s(x: &str) -> String {
    x.to_string()
}

fn two_flops() -> Netlist {
    Netlist {
        module: s("top"),
        inputs: vec![s("clk"), s("d")],
        outputs: vec![s("q")],
        insts: vec![
            Inst {
                cell: s("DFF"),
                name: s("f1"),
                conns: vec![(s("CK"), s("clk")), (s("D"), s("d")), (s("Q"), s("q1"))],
            },
            Inst {
                cell: s("DFF"),
                name: s("f2"),
                conns: vec![(s("CK"), s("clk")), (s("D"), s("q1")), (s("Q"), s("q"))],
            },
        ],
    }
}

#[test]
fn escaped_identifiers_get_a_terminating_space() {
    assert_eq!(id("\\clkbuf_0_gpio_in[0]"), "\\clkbuf_0_gpio_in[0] ");
    assert_eq!(id("plain"), "plain");
    assert_eq!(id(""), "");
    assert_eq!(join_ids(&vec![s("a"), s("\\b[1]"), s("c")]), "a, \\b[1] , c");
    assert_eq!(join_ids(&vec![]), "");
}

#[test]
fn the_fixture_renders_as_structural_verilog() {
    assert_eq!(
        to_verilog(&two_flops()),
        "module top ( clk, d, q );\n  input clk, d;\n  output q;\n  wire q1;\n  DFF f1 ( .CK(clk), .D(d), .Q(q1) );\n  DFF f2 ( .CK(clk), .D(q1), .Q(q) );\nendmodule\n"
    );
}

#[test]
fn wires_are_deduped_in_first_seen_order_and_exclude_ports() {
    let mut nl = two_flops();
    nl.insts.push(Inst {
        cell: s("AND2"),
        name: s("\\u[3]"),
        conns: vec![(s("A"), s("q1")), (s("B"), s("\\n[2]")), (s("Y"), s("n5"))],
    });
    let v = to_verilog(&nl);
    assert!(v.contains("  wire q1, \\n[2] , n5;\n"), "{v}");
    assert!(v.contains("  AND2 \\u[3]  ( .A(q1), .B(\\n[2] ), .Y(n5) );\n"), "{v}");
}

#[test]
fn a_module_without_ports_or_wires_has_no_declarations() {
    let nl = Netlist { module: s("empty"), inputs: vec![], outputs: vec![], insts: vec![] };
    assert_eq!(to_verilog(&nl), "module empty (  );\nendmodule\n");
}

#[test]
fn a_series_delay_rewires_the_pin_through_a_fresh_buffer() {
    let mut nl = two_flops();
    let ins = insert_series_delay(&mut nl, "f2", "D", "DLY", "A", "X", 7).expect("f2/D exists");
    assert_eq!(ins.buffer, "__hold_buf7");
    assert_eq!(ins.in_net, "q1");
    assert_eq!(ins.out_net, "__hold_n7");
    assert_eq!((ins.cap_inst.as_str(), ins.cap_pin.as_str()), ("f2", "D"));
    assert_eq!(nl.insts.len(), 3);
    assert_eq!(nl.insts[1].conns[1], (s("D"), s("__hold_n7")));
    assert_eq!(nl.insts[2].name, "__hold_buf7");
    assert_eq!(nl.insts[2].conns, vec![(s("A"), s("q1")), (s("X"), s("__hold_n7"))]);
    let v = to_verilog(&nl);
    assert!(v.contains("  DLY __hold_buf7 ( .A(q1), .X(__hold_n7) );\n"), "{v}");
    assert!(v.contains("  wire q1, __hold_n7;\n"), "{v}");
}

#[test]
fn a_missing_instance_or_pin_leaves_the_netlist_alone() {
    let mut nl = two_flops();
    assert!(insert_series_delay(&mut nl, "f3", "D", "DLY", "A", "X", 0).is_none());
    assert!(insert_series_delay(&mut nl, "f1", "RN", "DLY", "A", "X", 0).is_none());
    assert_eq!(to_verilog(&nl), to_verilog(&two_flops()));
}

#[test]
fn buffer_numbers_are_written_in_decimal() {
    let mut nl = two_flops();
    let ins = insert_series_delay(&mut nl, "f1", "D", "DLY", "A", "X", 1203).unwrap();
    assert_eq!(ins.out_net, "__hold_n1203");
    assert_eq!(ins.buffer, "__hold_buf1203");
}

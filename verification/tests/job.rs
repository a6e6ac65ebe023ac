use vyges_hold_fix::job::{glob_match, parse_cfg};

fn cfg_ok(text: &str) -> vyges_hold_fix::job::HoldCfg {
    match parse_cfg(text) {
        Ok(c) => c,
        Err(e) => panic!("{text:?} should parse, got {e}"),
    }
}

fn cfg_err(text: &str) -> String {
    match parse_cfg(text) {
        Ok(_) => panic!("{text:?} should be refused"),
        Err(e) => e,
    }
}

/// `rounds:` is an effort word, not a count. A number is a plausible thing to write, so the
/// rejection has to say what the accepted values are rather than silently defaulting.
#[test]
fn rounds_takes_an_effort_word_and_says_so_when_it_does_not() {
    let e = cfg_err("buffer: DLY\nhold_margin: 0.0\nrounds: 0\n");
    for want in ["low", "medium", "high"] {
        assert!(e.contains(want), "the error should list the accepted efforts, got: {e}");
    }
    for effort in ["low", "medium", "high"] {
        cfg_ok(&format!("buffer: DLY\nhold_margin: 0.0\nrounds: {effort}\n"));
    }
}

#[test]
fn effort_words_set_the_round_budget() {
    assert_eq!(cfg_ok("buffer: DLY\nrounds: low\n").rounds, 10);
    assert_eq!(cfg_ok("buffer: DLY\nrounds: medium\n").rounds, 40);
    assert_eq!(cfg_ok("buffer: DLY\nrounds: high\n").rounds, 200);
    assert_eq!(cfg_ok("buffer: DLY\neffort: HIGH\n").rounds, 200);
    assert_eq!(cfg_ok("buffer: DLY\n").rounds, 40);
}

#[test]
fn a_bad_effort_word_is_quoted_in_lower_case() {
    assert_eq!(
        cfg_err("buffer: DLY\nrounds: Extreme\n"),
        "rounds must be low|medium|high, got \"extreme\""
    );
}

#[test]
fn the_buffer_is_required() {
    assert_eq!(cfg_err("hold_margin: 0.1\n"), "a `buffer:` (delay cell) is required");
    assert_eq!(cfg_err("buffer:   # nothing\n"), "a `buffer:` (delay cell) is required");
}

#[test]
fn a_margin_that_is_not_a_number_is_refused_first() {
    assert_eq!(
        cfg_err("hold_margin: fast\nrounds: nope\n"),
        "hold_margin must be a number, got \"fast\""
    );
}

#[test]
fn keys_values_comments_and_defaults() {
    let c = cfg_ok(
        "# a job\ndesign: top\n  BUFFER :  sky130_dly_1  # the cell\r\nHold_Margin: 0.05\nrounds: high\n",
    );
    assert_eq!(c.buffer, "sky130_dly_1");
    assert_eq!(c.hold_margin, "0.05");
    assert_eq!(c.rounds, 200);
    assert!(c.dont_touch.is_empty());
    let d = cfg_ok("buffer: DLY\n");
    assert_eq!(d.hold_margin, "0.0");
    let e = cfg_ok("buffer: A\nbuffer: B\nno colon here\nhold_margin: 1\nhold_margin: 2e-3\n");
    assert_eq!(e.buffer, "B");
    assert_eq!(e.hold_margin, "2e-3");
}

#[test]
fn dont_touch_globs_split_at_commas_and_spaces() {
    let c = cfg_ok("buffer: DLY\ndont_touch: clk_*, *scan*,,  u1\ndont_touch: *_reg\n");
    assert_eq!(c.dont_touch, vec!["clk_*", "*scan*", "u1", "*_reg"]);
}

/// The margin is accepted exactly when `f64` parsing accepts it.
#[test]
fn margins_are_accepted_exactly_when_they_parse_as_floats() {
    let cases = [
        "0", "0.0", "-0.05", "+1", "1.", ".5", "1e3", "1E-3", "2.5e+2", "inf", "-Infinity",
        "NaN", "+nan", ".", "", "1e", "e5", "1.2.3", "0x10", "1_000", "--1", "+", "1e+",
        "infinit", "nana", "1.5e3.2", "12abc",
    ];
    for m in cases {
        let text = format!("buffer: DLY\nhold_margin: {m}\n");
        let ours = parse_cfg(&text).is_ok();
        let std_ok = m.trim().parse::<f64>().is_ok();
        assert_eq!(ours, std_ok, "margin {m:?}: library says {ours}, f64 parsing says {std_ok}");
    }
}

#[test]
fn globs_match_prefix_suffix_substring_or_whole_name() {
    assert!(glob_match("clk_*", "clk_gate"));
    assert!(!glob_match("clk_*", "xclk_gate"));
    assert!(glob_match("*_reg", "q_reg"));
    assert!(!glob_match("*_reg", "q_reg1"));
    assert!(glob_match("*scan*", "u_scan_3"));
    assert!(!glob_match("*scan*", "u_sca_n"));
    assert!(glob_match("f2", "f2"));
    assert!(!glob_match("f2", "f21"));
    assert!(glob_match("*", "anything"));
    assert!(glob_match("**", ""));
    assert!(glob_match("f*", "f"));
}

/// Lines that set nothing — timing keys, comments, lines without `:` — change nothing,
/// before or after the hold-fix lines.
#[test]
fn unrelated_lines_change_nothing() {
    let text = "buffer: DLY\nhold_margin: 0.05\nrounds: low\ndont_touch: clk_*\n";
    let extra = "design: top\nnetlist: top.v\nlib: a.lib, b.lib\nclock: clk 5.0\n# note\njust words\n";
    let base = parse_cfg(text).unwrap();
    for t in [format!("{extra}{text}"), format!("{text}{extra}")] {
        let c = parse_cfg(&t).unwrap();
        assert_eq!(
            (c.buffer, c.hold_margin, c.rounds, c.dont_touch),
            (base.buffer.clone(), base.hold_margin.clone(), base.rounds, base.dont_touch.clone())
        );
    }
    let bad = "hold_margin: x\n";
    assert_eq!(parse_cfg(&format!("{extra}{bad}")).err(), parse_cfg(bad).err());
}

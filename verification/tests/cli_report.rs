use vyges_hold_fix::cli::parse_cli;
use vyges_hold_fix::netlist::Insertion;
use vyges_hold_fix::report::{delays_report, insertion_json, insertions_json, json_str};

fn words(w: &[&str]) -> Vec<String> {
    w.iter().map(|x| x.to_string()).collect()
}

#[test]
fn flags_and_positionals_are_told_apart() {
    let c = parse_cli(&words(&["run", "job.holdfix", "-o", "out.v", "--json", "--eco", "m.json", "--fail-on-violation", "-q", "-v"]));
    assert_eq!(c.positionals, words(&["run", "job.holdfix"]));
    assert_eq!(c.out.as_deref(), Some("out.v"));
    assert_eq!(c.eco.as_deref(), Some("m.json"));
    assert!(c.json && c.fail_on_violation && c.quiet && c.verbose);
    assert!(!c.help && !c.version);
}

#[test]
fn a_trailing_output_flag_has_no_value() {
    let c = parse_cli(&words(&["demo", "--help", "-V", "-o"]));
    assert_eq!(c.positionals, words(&["demo"]));
    assert_eq!(c.out, None);
    assert!(c.help && c.version);
    let e = parse_cli(&words(&[]));
    assert!(e.positionals.is_empty() && !e.json);
}

#[test]
fn json_strings_escape_quotes_and_backslashes() {
    assert_eq!(json_str("a\"b\\c"), "\"a\\\"b\\\\c\"");
    assert_eq!(json_str("\\u[0]"), "\"\\\\u[0]\"");
    assert_eq!(json_str(""), "\"\"");
}

fn ins(k: usize) -> Insertion {
    Insertion {
        buffer: format!("__hold_buf{k}"),
        cell: "DLY".into(),
        in_pin: "A".into(),
        out_pin: "X".into(),
        in_net: "q1".into(),
        out_net: format!("__hold_n{k}"),
        cap_inst: "f2".into(),
        cap_pin: "D".into(),
    }
}

#[test]
fn manifest_records_carry_every_field() {
    assert_eq!(
        insertion_json(&ins(0)),
        "{\"buffer\":\"__hold_buf0\",\"cell\":\"DLY\",\"in_pin\":\"A\",\"out_pin\":\"X\",\"in_net\":\"q1\",\"out_net\":\"__hold_n0\",\"cap_inst\":\"f2\",\"cap_pin\":\"D\"}"
    );
    let two = insertions_json(&vec![ins(0), ins(1)]);
    assert_eq!(two, format!("{},{}", insertion_json(&ins(0)), insertion_json(&ins(1))));
    assert_eq!(insertions_json(&vec![]), "");
}

#[test]
fn the_report_lists_twenty_delays_then_counts_the_rest() {
    assert_eq!(delays_report(&vec![ins(0)]), "    __hold_buf0 delays f2/D\n");
    let many: Vec<Insertion> = (0..23).map(ins).collect();
    let r = delays_report(&many);
    assert_eq!(r.lines().count(), 21);
    assert!(r.ends_with("    … and 3 more\n"), "{r}");
    assert!(r.contains("__hold_buf19 delays") && !r.contains("__hold_buf20 delays"));
}

/// A JSON string is its text plus two quotes and one backslash per `"` or `\`, and reads
/// back to the text.
#[test]
fn json_strings_read_back() {
    for text in ["", "plain", "a\"b", "\\bus[3]", "\"\\\"", "ü→x"] {
        let j = json_str(text);
        let specials = text.chars().filter(|c| *c == '"' || *c == '\\').count();
        assert_eq!(j.chars().count(), text.chars().count() + 2 + specials);
        let body: Vec<char> = j.chars().collect();
        assert!(body[0] == '"' && body[body.len() - 1] == '"');
        let mut back = String::new();
        let mut i = 1;
        while i < body.len() - 1 {
            if body[i] == '\\' {
                back.push(body[i + 1]);
                i += 2;
            } else {
                back.push(body[i]);
                i += 1;
            }
        }
        assert_eq!(back, text);
    }
}

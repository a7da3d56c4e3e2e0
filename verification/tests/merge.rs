use jmrg::error::MrgError;
use jmrg::run;
use jmrg::source::Warning;

fn lines_of(text: &str) -> Vec<Result<String, MrgError>> {
    text.lines().map(|line| Ok(line.to_string())).collect()
}

fn keys_of(items: &[&str]) -> Vec<String> {
    items.iter().map(|item| item.to_string()).collect()
}

fn merged_text(keys: &[&str], ins: Vec<Vec<Result<String, MrgError>>>) -> String {
    let mut out = String::new();
    let mut log = Vec::new();
    run(keys_of(keys), ins, &mut out, &mut log).unwrap();
    out
}

fn warnings(keys: &[&str], ins: Vec<Vec<Result<String, MrgError>>>) -> Vec<(usize, String)> {
    let mut out = String::new();
    let mut log: Vec<Warning> = Vec::new();
    run(keys_of(keys), ins, &mut out, &mut log).unwrap();
    log.into_iter().map(|warning| (warning.source, warning.text)).collect()
}

fn about(log: &[(usize, String)], source: usize) -> Vec<&str> {
    log.iter()
        .filter(|warning| warning.0 == source)
        .map(|warning| warning.1.as_str())
        .collect()
}

#[test]
fn main_normal_run() {
    let keys = vec![String::from("t")];
    let in1 = lines_of(
        r#"
{"t":15, "add": "15_1"}
{"t":16, "add": "16_1"}
{"t":18, "add": "18_1"}
"#,
    );
    let in2 = lines_of(
        r#"
{"t":16, "add": "16_2"}
{"t":17, "add": "17_2"}
{"t":18, "add": "18_2"}
"#,
    );
    let mut buf = String::new();
    let mut log = Vec::new();
    run(keys, vec![in1, in2], &mut buf, &mut log).unwrap();
    assert_eq!(
        r#"{"t":15, "add": "15_1"}
{"t":16, "add": "16_2"}
{"t":16, "add": "16_1"}
{"t":17, "add": "17_2"}
{"t":18, "add": "18_1"}
{"t":18, "add": "18_2"}
"#,
        buf
    );
}

#[test]
fn two_sources_interleave_by_key() {
    let in1 = lines_of("{\"t\":15,\"a\":\"x\"}\n{\"t\":18,\"a\":\"y\"}");
    let in2 = lines_of("{\"t\":16,\"a\":\"z\"}\n{\"t\":17,\"a\":\"w\"}");
    assert_eq!(
        merged_text(&["t"], vec![in1, in2]),
        "{\"t\":15,\"a\":\"x\"}\n{\"t\":16,\"a\":\"z\"}\n{\"t\":17,\"a\":\"w\"}\n{\"t\":18,\"a\":\"y\"}\n"
    );
}

#[test]
fn line_without_key_is_left_out() {
    let input = lines_of("{\"t\":1}\n{\"x\":1}\n{\"t\":2}");
    assert_eq!(merged_text(&["t"], vec![input]), "{\"t\":1}\n{\"t\":2}\n");
}

#[test]
fn malformed_lines_are_left_out() {
    let input = lines_of("garbage\n{\"t\":1}\n\n[1]\n{\"t\":\"2\"}\n{\"t\":3}\n{\"t\":4");
    assert_eq!(merged_text(&["t"], vec![input]), "{\"t\":1}\n{\"t\":3}\n");
}

#[test]
fn failed_reads_are_left_out() {
    let input = vec![
        Ok("{\"t\":1}".to_string()),
        Err(MrgError { msg: "stream did not contain valid UTF-8".to_string() }),
        Ok("{\"t\":2}".to_string()),
    ];
    assert_eq!(merged_text(&["t"], vec![input]), "{\"t\":1}\n{\"t\":2}\n");
}

#[test]
fn no_sources_give_nothing() {
    assert_eq!(merged_text(&["t"], Vec::new()), "");
}

#[test]
fn empty_sources_give_nothing() {
    assert_eq!(merged_text(&["t"], vec![Vec::new(), Vec::new()]), "");
}

#[test]
fn source_without_entries_adds_nothing() {
    let barren = lines_of("x\n{}\n{\"a\":1}");
    let full = lines_of("{\"t\":1}\n{\"t\":2}");
    assert_eq!(
        merged_text(&["t"], vec![Vec::new(), full, barren]),
        "{\"t\":1}\n{\"t\":2}\n"
    );
}

#[test]
fn empty_key_set_gives_nothing() {
    let input = lines_of("{\"t\":1}\n{\"t\":2}");
    assert_eq!(merged_text(&[], vec![input]), "");
}

#[test]
fn output_is_appended_to_what_the_sink_holds() {
    let mut out = String::from("before\n");
    let mut log = vec![Warning { source: 9, text: "earlier".to_string() }];
    run(keys_of(&["t"]), vec![lines_of("{\"t\":1}\nx")], &mut out, &mut log).unwrap();
    assert_eq!(out, "before\n{\"t\":1}\n");
    assert_eq!(log.len(), 2);
    assert_eq!((log[0].source, log[0].text.as_str()), (9, "earlier"));
    assert_eq!(
        (log[1].source, log[1].text.as_str()),
        (0, "cannot parse entry: not a JSON object with an integer key")
    );
}

#[test]
fn raw_text_is_kept_as_it_was() {
    let input = lines_of("  { \"b\" : [ 1 , 2 ] ,\t\"t\" : 7 }  ");
    assert_eq!(
        merged_text(&["t"], vec![input]),
        "  { \"b\" : [ 1 , 2 ] ,\t\"t\" : 7 }  \n"
    );
}

#[test]
fn key_comes_from_the_first_named_field_of_each_line() {
    let in1 = lines_of("{\"ts\":1,\"t\":9}\n{\"t\":4,\"ts\":0}");
    let in2 = lines_of("{\"t\":2}\n{\"ts\":3}");
    assert_eq!(
        merged_text(&["t", "ts"], vec![in1, in2]),
        "{\"ts\":1,\"t\":9}\n{\"t\":2}\n{\"ts\":3}\n{\"t\":4,\"ts\":0}\n"
    );
}

#[test]
fn negative_keys_come_first() {
    let in1 = lines_of("{\"t\":-5}\n{\"t\":0}");
    let in2 = lines_of("{\"t\":-9223372036854775808}\n{\"t\":9223372036854775807}");
    assert_eq!(
        merged_text(&["t"], vec![in1, in2]),
        "{\"t\":-9223372036854775808}\n{\"t\":-5}\n{\"t\":0}\n{\"t\":9223372036854775807}\n"
    );
}

#[test]
fn tie_between_sources_goes_either_way() {
    let in1 = lines_of("{\"t\":1,\"s\":1}");
    let in2 = lines_of("{\"t\":1,\"s\":2}");
    let out = merged_text(&["t"], vec![in1, in2]);
    let one_first = "{\"t\":1,\"s\":1}\n{\"t\":1,\"s\":2}\n";
    let two_first = "{\"t\":1,\"s\":2}\n{\"t\":1,\"s\":1}\n";
    assert!(out == one_first || out == two_first);
}

#[test]
fn equal_keys_within_a_source_keep_their_order() {
    let input = lines_of("{\"t\":1,\"n\":1}\n{\"t\":1,\"n\":2}\n{\"t\":1,\"n\":3}");
    assert_eq!(
        merged_text(&["t"], vec![input]),
        "{\"t\":1,\"n\":1}\n{\"t\":1,\"n\":2}\n{\"t\":1,\"n\":3}\n"
    );
}

#[test]
fn source_out_of_order_is_emitted_whole() {
    let in1 = lines_of("{\"t\":5}\n{\"t\":1}");
    let in2 = lines_of("{\"t\":3}");
    let out = merged_text(&["t"], vec![in1, in2]);
    let mut lines: Vec<&str> = out.lines().collect();
    assert_eq!(lines.len(), 3);
    assert_eq!(lines[0], "{\"t\":3}");
    lines.sort();
    assert_eq!(lines, vec!["{\"t\":1}", "{\"t\":3}", "{\"t\":5}"]);
}

#[test]
fn many_sources_merge_into_ascending_order() {
    let sources = 7usize;
    let per_source = 40usize;
    let mut ins = Vec::new();
    let mut expected = Vec::new();
    let mut seed: i64 = 12345;
    for source in 0..sources {
        let mut key: i64 = -50;
        let mut input = Vec::new();
        for n in 0..per_source {
            seed = (seed * 1103515245 + 12345) % 2147483648;
            key += seed % 5;
            if seed % 7 == 0 {
                input.push(Ok(format!("{{\"note\":\"{}-{}\"}}", source, n)));
            }
            input.push(Ok(format!("{{\"s\":{},\"n\":{},\"t\":{}}}", source, n, key)));
            expected.push((key, source, n));
        }
        ins.push(input);
    }
    let out = merged_text(&["t"], ins);
    let mut seen = Vec::new();
    let mut last = i64::MIN;
    let mut next_of = vec![0usize; sources];
    for line in out.lines() {
        let value: serde_json::Value = serde_json::from_str(line).unwrap();
        let key = value["t"].as_i64().unwrap();
        let source = value["s"].as_u64().unwrap() as usize;
        let n = value["n"].as_u64().unwrap() as usize;
        assert!(last <= key);
        last = key;
        assert_eq!(next_of[source], n);
        next_of[source] = n + 1;
        seen.push((key, source, n));
    }
    expected.sort();
    seen.sort();
    assert_eq!(expected, seen);
}

#[test]
fn line_without_key_is_reported() {
    let input = lines_of("{\"t\":1}\n{\"x\":1}\n{\"t\":2}");
    assert_eq!(
        warnings(&["t"], vec![input]),
        vec![(0, "cannot parse entry: no fields of the provided set".to_string())]
    );
}

#[test]
fn lines_in_order_give_no_warning() {
    let in1 = lines_of("{\"t\":1}\n{\"t\":3}");
    let in2 = lines_of("{\"t\":2}");
    assert_eq!(warnings(&["t"], vec![in1, in2, Vec::new()]), Vec::new());
}

#[test]
fn each_source_has_its_warnings_in_the_order_of_its_lines() {
    let in0 = vec![
        Ok("x".to_string()),
        Ok("{\"t\":1}".to_string()),
        Err(MrgError { msg: "stream did not contain valid UTF-8".to_string() }),
        Ok("{\"a\":1}".to_string()),
        Ok("{\"t\":5}".to_string()),
    ];
    let in1 = lines_of("{\"t\":2}\n{}\n{\"t\":\"3\"}");
    let in2 = lines_of("{\"t\":0}");
    let log = warnings(&["t"], vec![in0, in1, in2]);
    assert_eq!(log.len(), 5);
    assert_eq!(
        about(&log, 0),
        vec![
            "cannot parse entry: not a JSON object with an integer key",
            "cannot get next line: stream did not contain valid UTF-8",
            "cannot parse entry: no fields of the provided set",
        ]
    );
    assert_eq!(
        about(&log, 1),
        vec![
            "cannot parse entry: no fields of the provided set",
            "cannot parse entry: not a JSON object with an integer key",
        ]
    );
    assert_eq!(about(&log, 2), Vec::<&str>::new());
}

#[test]
fn blank_first_lines_are_reported() {
    let in1 = lines_of("\n{\"t\":15}");
    let in2 = lines_of("\n{\"t\":16}");
    let log = warnings(&["t"], vec![in1, in2]);
    assert_eq!(
        log,
        vec![
            (0, "cannot parse entry: not a JSON object with an integer key".to_string()),
            (1, "cannot parse entry: not a JSON object with an integer key".to_string()),
        ]
    );
}

use z3_sched::load::read_commits;
use z3_sched::{build_schedule, parse_commits, LoadError, Outcome};

fn calls(text: &str) -> Vec<Vec<Vec<(String, bool)>>> {
    parse_commits(text)
        .unwrap()
        .into_iter()
        .map(|c| c.allofs.into_iter().map(|a| a.service_instances).collect())
        .collect()
}

fn call(id: &str, flag: bool) -> (String, bool) {
    (id.to_string(), flag)
}

#[test]
fn commitments_are_read_from_json() {
    let text = r#"
        [
          [ {"s_calls": [["abcde-0", true], ["abcde-1", true]], "cost_ceil": 10},
            {"s_calls": [["efgh-0", true]], "cost_ceil": -3} ],
          [ {"cost_ceil": 20, "s_calls": [["abcde-0", false]]} ]
        ]"#;
    let commits = parse_commits(text).unwrap();
    assert_eq!(commits.len(), 2);
    assert_eq!(commits[0].allofs.len(), 2);
    assert_eq!(
        commits[0].allofs[0].service_instances,
        vec![call("abcde-0", true), call("abcde-1", true)]
    );
    assert_eq!(commits[0].allofs[0].cost_ceil, 10);
    assert_eq!(commits[0].allofs[1].service_instances, vec![call("efgh-0", true)]);
    assert_eq!(commits[0].allofs[1].cost_ceil, -3);
    assert_eq!(commits[1].allofs.len(), 1);
    assert_eq!(commits[1].allofs[0].service_instances, vec![call("abcde-0", false)]);
    assert_eq!(commits[1].allofs[0].cost_ceil, 20);
}

#[test]
fn an_empty_array_holds_no_commitments() {
    assert_eq!(parse_commits("[]").unwrap().len(), 0);
}

#[test]
fn what_is_read_can_be_scheduled() {
    let text = r#"[[{"s_calls": [["abcde-0", true]], "cost_ceil": 100}],
                   [{"s_calls": [["abcde-0", false]], "cost_ceil": -50}]]"#;
    match build_schedule(parse_commits(text).unwrap()) {
        Ok(Outcome::Scheduled(s)) => assert_eq!(s.commits, vec![true, true]),
        other => panic!("{:?}", other),
    }
}

#[test]
fn text_that_is_not_json_is_a_syntax_error() {
    for text in ["", "[", "[[{\"s_calls\": [], \"cost_ceil\": 1}]", "nonsense", "[1,]"] {
        assert_eq!(parse_commits(text).unwrap_err(), LoadError::Syntax);
    }
}

#[test]
fn a_document_of_another_shape_is_refused() {
    for text in [
        "null",
        "{}",
        "7",
        "[7]",
        "[{}]",
        "[[7]]",
        "[[[]]]",
        r#"[[{"cost_ceil": 1}]]"#,
        r#"[[{"s_calls": [["abcde-0", true]]}]]"#,
        r#"[[{"s_calls": {}, "cost_ceil": 1}]]"#,
        r#"[[{"s_calls": [["abcde-0", true]], "cost_ceil": "1"}]]"#,
        r#"[[{"s_calls": [["abcde-0", true]], "cost_ceil": 1.5}]]"#,
        r#"[[{"s_calls": [["abcde-0", true]], "cost_ceil": 9223372036854775808}]]"#,
        r#"[[{"s_calls": [["abcde-0", true]], "cost_ceil": null}]]"#,
        r#"[[{"s_calls": ["abcde-0"], "cost_ceil": 1}]]"#,
        r#"[[{"s_calls": [["abcde-0"]], "cost_ceil": 1}]]"#,
        r#"[[{"s_calls": [[]], "cost_ceil": 1}]]"#,
        r#"[[{"s_calls": [[true, "abcde-0"]], "cost_ceil": 1}]]"#,
        r#"[[{"s_calls": [["abcde-0", 1]], "cost_ceil": 1}]]"#,
        r#"[[{"s_calls": [["abcde-0", true], ["efgh-0"]], "cost_ceil": 1}]]"#,
        r#"[[{"s_calls": [["abcde-0", true]], "cost_ceil": 1}], 7]"#,
    ] {
        assert_eq!(parse_commits(text).unwrap_err(), LoadError::Shape, "{}", text);
    }
}

#[test]
fn the_largest_and_smallest_ceilings_are_read() {
    let text = r#"[[{"s_calls": [["a-0", true]], "cost_ceil": 9223372036854775807},
                    {"s_calls": [["a-0", true]], "cost_ceil": -9223372036854775808}]]"#;
    let commits = parse_commits(text).unwrap();
    assert_eq!(commits[0].allofs[0].cost_ceil, i64::MAX);
    assert_eq!(commits[0].allofs[1].cost_ceil, i64::MIN);
}

#[test]
fn commitments_out_of_order_are_malformed() {
    for text in [
        "[[]]",
        r#"[[{"s_calls": [], "cost_ceil": 1}]]"#,
        r#"[[{"s_calls": [["abcde", true]], "cost_ceil": 1}]]"#,
        r#"[[{"s_calls": [["abcde-0", true]], "cost_ceil": 1}], []]"#,
        r#"[[{"s_calls": [["ab\u0000cde-0", true]], "cost_ceil": 1}]]"#,
    ] {
        assert_eq!(parse_commits(text).unwrap_err(), LoadError::Malformed, "{}", text);
    }
}

#[test]
fn a_call_named_twice_keeps_its_place_and_takes_the_later_flag() {
    let text = r#"[[{"s_calls": [["abcde-0", true], ["efgh-0", true], ["abcde-0", false]],
                     "cost_ceil": 1}]]"#;
    assert_eq!(calls(text), vec![vec![vec![call("abcde-0", false), call("efgh-0", true)]]]);
}

#[test]
fn what_follows_identity_and_flag_is_passed_over() {
    let text = r#"[[{"s_calls": [["abcde-0", true, "rest", 3]], "cost_ceil": 1, "more": []}]]"#;
    assert_eq!(calls(text), vec![vec![vec![call("abcde-0", true)]]]);
}

#[test]
fn a_field_named_twice_counts_once() {
    let text = r#"[[{"cost_ceil": 1, "s_calls": [["abcde-0", true]], "cost_ceil": 2}]]"#;
    assert_eq!(parse_commits(text).unwrap()[0].allofs[0].cost_ceil, 2);
}

#[test]
fn every_commitment_of_a_long_document_is_read() {
    let texts: Vec<String> = (0..30)
        .map(|i| format!(r#"[{{"s_calls": [["abcde-{}", true]], "cost_ceil": {}}}]"#, i, i))
        .collect();
    for n in [10usize, 11, 12, 30] {
        let commits = parse_commits(&format!("[{}]", texts[..n].join(","))).unwrap();
        assert_eq!(commits.len(), n);
        for (i, commit) in commits.iter().enumerate() {
            assert_eq!(commit.allofs.len(), 1);
            assert_eq!(commit.allofs[0].cost_ceil, i as i64);
            assert_eq!(
                commit.allofs[0].service_instances,
                vec![call(&format!("abcde-{}", i), true)]
            );
        }
    }
}

#[test]
fn a_long_document_is_scheduled_whole() {
    let pairs: Vec<String> = (0..6)
        .map(|i| {
            format!(
                r#"[{{"s_calls": [["call-{i}", true]], "cost_ceil": 9}}],
                   [{{"s_calls": [["call-{i}", false]], "cost_ceil": 0}}]"#,
                i = i
            )
        })
        .collect();
    let commits = parse_commits(&format!("[{}]", pairs.join(","))).unwrap();
    assert_eq!(commits.len(), 12);
    match build_schedule(commits) {
        Ok(Outcome::Scheduled(s)) => assert_eq!(s.commits, vec![true; 12]),
        other => panic!("{:?}", other),
    }
}

#[test]
fn every_element_of_a_long_document_is_looked_at() {
    let one = r#"[{"s_calls": [["abcde-0", true]], "cost_ceil": 1}]"#;
    let junk = format!("[{}, 7, null]", vec![one; 11].join(","));
    assert_eq!(parse_commits(&junk).unwrap_err(), LoadError::Shape);
    let late = format!("[{}, 7]", vec![one; 25].join(","));
    assert_eq!(parse_commits(&late).unwrap_err(), LoadError::Shape);
    let empty = format!("[{}, []]", vec![one; 14].join(","));
    assert_eq!(parse_commits(&empty).unwrap_err(), LoadError::Malformed);
}

#[test]
fn a_parsed_document_is_read_as_its_text_is() {
    let text = r#"[[{"s_calls": [["abcde-0", true]], "cost_ceil": 100}]]"#;
    let value: serde_json::Value = serde_json::from_str(text).unwrap();
    let commits = read_commits(&value).unwrap();
    assert_eq!(commits.len(), 1);
    assert_eq!(commits[0].allofs[0].service_instances, vec![call("abcde-0", true)]);
    assert!(read_commits(&serde_json::Value::Null).is_none());
    assert!(read_commits(&serde_json::Value::Array(vec![serde_json::Value::Bool(true)])).is_none());
}

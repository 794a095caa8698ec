use z3_sched::group::{group_by_match_key, group_keyed};
use z3_sched::vars::{find_entry, price_key_names};
use z3_sched::{
    build_allof_level_bools, build_commit_level_vars, build_count_vars, build_scall_level_bools,
    group_allofs, group_s_calls, AllOf, Commit,
};

fn plan(calls: &[(&str, bool)], cost_ceil: i64) -> AllOf {
    AllOf {
        service_instances: calls.iter().map(|(id, req)| (id.to_string(), *req)).collect(),
        cost_ceil,
    }
}

fn sample() -> Vec<Commit> {
    vec![
        Commit {
            allofs: vec![
                plan(&[("abcde-0", true), ("abcde-1", true)], 10),
                plan(&[("efgh-0", true)], 10),
            ],
        },
        Commit { allofs: vec![plan(&[("abcde-0", false)], 20)] },
        Commit { allofs: vec![plan(&[("abcde-1", false), ("efgh-0", false)], 20)] },
    ]
}

fn strings(v: &[&str]) -> Vec<String> {
    v.iter().map(|s| s.to_string()).collect()
}

fn group(key: &str, members: &[&str]) -> (String, Vec<String>) {
    (key.to_string(), strings(members))
}

#[test]
fn one_variable_for_each_commitment() {
    let cfg = z3::Config::new();
    let ctx = z3::Context::new(&cfg);
    let table = build_commit_level_vars(&ctx, &sample());
    let names: Vec<&str> = table.iter().map(|e| e.0.as_str()).collect();
    assert_eq!(names, vec!["0", "1", "2"]);
    for (name, var) in &table {
        assert_eq!(*var, z3::ast::Bool::new_const(&ctx, name.as_str()));
    }
}

#[test]
fn one_variable_for_each_plan() {
    let cfg = z3::Config::new();
    let ctx = z3::Context::new(&cfg);
    let table = build_allof_level_bools(&ctx, &sample());
    let names: Vec<&str> = table.iter().map(|e| e.0.as_str()).collect();
    assert_eq!(names, vec!["0-0", "0-1", "1-0", "2-0"]);
    for (name, var) in &table {
        assert_eq!(*var, z3::ast::Bool::new_const(&ctx, name.as_str()));
    }
}

#[test]
fn one_variable_for_each_occurrence() {
    let cfg = z3::Config::new();
    let ctx = z3::Context::new(&cfg);
    let table = build_scall_level_bools(&ctx, &sample());
    let names: Vec<(&str, bool)> = table.iter().map(|e| (e.0.as_str(), e.1 .1)).collect();
    assert_eq!(
        names,
        vec![
            ("0-0-abcde-0", true),
            ("0-0-abcde-1", true),
            ("0-1-efgh-0", true),
            ("1-0-abcde-0", false),
            ("2-0-abcde-1", false),
            ("2-0-efgh-0", false),
        ]
    );
    for (name, (var, _)) in &table {
        assert_eq!(*var, z3::ast::Bool::new_const(&ctx, name.as_str()));
    }
}

#[test]
fn one_price_for_each_service() {
    let cfg = z3::Config::new();
    let ctx = z3::Context::new(&cfg);
    let table = build_count_vars(&ctx, &sample());
    let names: Vec<&str> = table.iter().map(|e| e.0.as_str()).collect();
    assert_eq!(names, vec!["abcde", "efgh"]);
    for (name, var) in &table {
        assert_eq!(*var, z3::ast::Int::new_const(&ctx, name.as_str()));
    }
    assert_eq!(price_key_names(&sample()), strings(&["abcde", "efgh"]));
    assert_eq!(price_key_names(&Vec::new()), Vec::<String>::new());
}

#[test]
fn plans_are_grouped_by_commitment() {
    let cfg = z3::Config::new();
    let ctx = z3::Context::new(&cfg);
    let table = build_allof_level_bools(&ctx, &sample());
    assert_eq!(
        group_allofs(&table),
        vec![group("0", &["0-0", "0-1"]), group("1", &["1-0"]), group("2", &["2-0"])]
    );
}

#[test]
fn occurrences_are_grouped_by_plan() {
    let cfg = z3::Config::new();
    let ctx = z3::Context::new(&cfg);
    let table = build_scall_level_bools(&ctx, &sample());
    assert_eq!(
        group_s_calls(&table),
        vec![
            group("0-0", &["0-0-abcde-0", "0-0-abcde-1"]),
            group("0-1", &["0-1-efgh-0"]),
            group("1-0", &["1-0-abcde-0"]),
            group("2-0", &["2-0-abcde-1", "2-0-efgh-0"]),
        ]
    );
}

#[test]
fn occurrences_are_pooled_by_match_key() {
    let cfg = z3::Config::new();
    let ctx = z3::Context::new(&cfg);
    let mut commits = sample();
    commits.push(Commit { allofs: vec![plan(&[("abcde-0", true)], 5)] });
    let table = build_scall_level_bools(&ctx, &commits);
    assert_eq!(
        group_by_match_key(&table, true),
        vec![
            group("abcde-0", &["0-0-abcde-0", "3-0-abcde-0"]),
            group("abcde-1", &["0-0-abcde-1"]),
            group("efgh-0", &["0-1-efgh-0"]),
        ]
    );
    assert_eq!(
        group_by_match_key(&table, false),
        vec![
            group("abcde-0", &["1-0-abcde-0"]),
            group("abcde-1", &["2-0-abcde-1"]),
            group("efgh-0", &["2-0-efgh-0"]),
        ]
    );
}

#[test]
fn groups_come_in_the_order_of_their_first_member() {
    let keys = strings(&["b", "a", "b", "c", "a", "b"]);
    let items = strings(&["1", "2", "3", "4", "5", "6"]);
    assert_eq!(
        group_keyed(&keys, &items),
        vec![group("b", &["1", "3", "6"]), group("a", &["2", "5"]), group("c", &["4"])]
    );
    assert_eq!(group_keyed(&Vec::new(), &Vec::new()), Vec::new());
}

#[test]
fn an_entry_is_found_at_its_first_place() {
    let table = vec![("a".to_string(), 1), ("b".to_string(), 2), ("a".to_string(), 3)];
    assert_eq!(find_entry(&table, &"a".to_string()), Some(0));
    assert_eq!(find_entry(&table, &"b".to_string()), Some(1));
    assert_eq!(find_entry(&table, &"c".to_string()), None);
}

use depends_on_rs::config::{Config, Target, WaitFor};
use depends_on_rs::dag::{expand_targets, topological_order, validate_config};
use depends_on_rs::error::GraphError;

fn strings(items: &[&str]) -> Vec<String> {
    items.iter().map(|s| s.to_string()).collect()
}

fn target(depends: &[&str]) -> Target {
    Target {
        cmd: strings(&["true"]),
        depends: strings(depends),
        ..Default::default()
    }
}

fn config_of(entries: Vec<(&str, Target)>) -> Config {
    let mut config = Config::new();
    for (name, t) in entries {
        config.insert(name.to_string(), t);
    }
    config
}

fn readme_config() -> Config {
    config_of(vec![
        ("tests", target(&["server", "migrate"])),
        ("server", target(&[])),
        ("migrate", target(&[])),
        ("unrelated", target(&[])),
    ])
}

fn position(order: &[String], name: &str) -> usize {
    order.iter().position(|n| n == name).expect("name present")
}

#[test]
fn expand_targets_gives_sorted_closure() {
    let config = readme_config();
    let names = expand_targets(&config, &strings(&["tests"])).expect("known");
    assert_eq!(names, strings(&["migrate", "server", "tests"]));
}

#[test]
fn expand_targets_lists_each_target_once() {
    let config = readme_config();
    let names = expand_targets(&config, &strings(&["server", "tests", "server"])).expect("known");
    assert_eq!(names, strings(&["migrate", "server", "tests"]));
}

#[test]
fn expand_targets_rejects_unknown_target() {
    let config = readme_config();
    let err = expand_targets(&config, &strings(&["nope"])).expect_err("unknown");
    assert_eq!(err.message(), "unknown target \"nope\"");
}

#[test]
fn expand_targets_rejects_unknown_dependency_reached() {
    let config = config_of(vec![("a", target(&["ghost"]))]);
    let err = expand_targets(&config, &strings(&["a"])).expect_err("ghost is unknown");
    assert!(matches!(err, GraphError::UnknownTarget { ref target } if target == "ghost"));
}

#[test]
fn topological_order_puts_dependencies_first() {
    let config = readme_config();
    let order = topological_order(&config, &strings(&["tests"])).expect("acyclic");
    assert_eq!(order, strings(&["migrate", "server", "tests"]));
    assert!(position(&order, "server") < position(&order, "tests"));
    assert!(position(&order, "migrate") < position(&order, "tests"));
}

#[test]
fn topological_order_of_diamond() {
    let config = config_of(vec![
        ("app", target(&["db", "cache"])),
        ("db", target(&["net"])),
        ("cache", target(&["net"])),
        ("net", target(&[])),
    ]);
    let order = topological_order(&config, &strings(&["app"])).expect("acyclic");
    assert_eq!(order.len(), 4);
    assert_eq!(order[0], "net");
    assert_eq!(order[3], "app");
    assert!(position(&order, "net") < position(&order, "db"));
    assert!(position(&order, "net") < position(&order, "cache"));
}

#[test]
fn topological_order_rejects_cycle() {
    let config = config_of(vec![
        ("a", target(&["b"])),
        ("b", target(&["c"])),
        ("c", target(&["a"])),
    ]);
    let err = topological_order(&config, &strings(&["a"])).expect_err("cycle");
    assert!(matches!(err, GraphError::Cycle));
    assert_eq!(err.message(), "cycle detected in dependency graph");
}

#[test]
fn topological_order_rejects_self_dependency() {
    let config = config_of(vec![("a", target(&["a"]))]);
    assert!(matches!(topological_order(&config, &strings(&["a"])), Err(GraphError::Cycle)));
}

#[test]
fn topological_order_ignores_cycle_not_requested() {
    let config = config_of(vec![
        ("a", target(&["b"])),
        ("b", target(&["a"])),
        ("c", target(&[])),
    ]);
    assert_eq!(topological_order(&config, &strings(&["c"])).expect("c alone"), strings(&["c"]));
}

#[test]
fn topological_order_counts_repeated_dependency() {
    let config = config_of(vec![("a", target(&["b", "b"])), ("b", target(&[]))]);
    assert_eq!(topological_order(&config, &strings(&["a"])).expect("ok"), strings(&["b", "a"]));
}

#[test]
fn validate_config_accepts_readme_example() {
    assert!(validate_config(&readme_config()).is_ok());
}

#[test]
fn validate_config_rejects_missing_cmd() {
    let mut t = target(&[]);
    t.cmd.clear();
    let err = validate_config(&config_of(vec![("empty", t)])).expect_err("no cmd");
    assert_eq!(err.message(), "target \"empty\": cmd is required");
}

#[test]
fn validate_config_rejects_two_strategies() {
    let mut t = target(&[]);
    t.wait_for = WaitFor {
        exit_code: Some(0),
        log_pattern: Some("ready".to_string()),
        ..Default::default()
    };
    let err = validate_config(&config_of(vec![("x", t)])).expect_err("two strategies");
    assert!(matches!(err, GraphError::ConflictingReadiness { .. }));
}

#[test]
fn validate_config_rejects_unknown_dependency() {
    let err = validate_config(&config_of(vec![("a", target(&["ok", "missing"])), ("ok", target(&[]))]))
        .expect_err("missing dep");
    assert_eq!(err.message(), "target \"a\": depends on unknown target \"missing\"");
}

#[test]
fn validate_config_rejects_cycle() {
    let err = validate_config(&config_of(vec![("a", target(&["b"])), ("b", target(&["a"]))]))
        .expect_err("cycle");
    assert!(matches!(err, GraphError::Cycle));
}

#[test]
fn validated_config_orders_every_request() {
    let config = readme_config();
    assert!(validate_config(&config).is_ok());
    for request in [&["tests"][..], &["server"], &["unrelated", "migrate"], &[]] {
        let order = topological_order(&config, &strings(request)).expect("orderable");
        let mut sorted = order.clone();
        sorted.sort();
        assert_eq!(sorted, expand_targets(&config, &strings(request)).unwrap());
    }
}

#[test]
fn message_quotes_names_like_debug() {
    let err = GraphError::UnknownTarget { target: "a\"b".to_string() };
    assert_eq!(err.message(), "unknown target \"a\\\"b\"");
}

#[test]
fn topological_order_starts_independent_targets_in_name_order() {
    let config = config_of(vec![("b", target(&[])), ("a", target(&[]))]);
    assert_eq!(topological_order(&config, &strings(&["b", "a"])).expect("ok"), strings(&["a", "b"]));
}

#[test]
fn topological_order_releases_in_processing_order() {
    // "z" and "c" depend on nothing; "a" waits for "z", "y" for "c".
    let config = config_of(vec![
        ("a", target(&["z"])),
        ("c", target(&[])),
        ("y", target(&["c"])),
        ("z", target(&[])),
    ]);
    assert_eq!(
        topological_order(&config, &strings(&["a", "y"])).expect("ok"),
        strings(&["c", "z", "y", "a"])
    );
}

#[test]
fn topological_order_same_names_same_answer() {
    let config = readme_config();
    let first = topological_order(&config, &strings(&["tests", "server"])).expect("ok");
    let second = topological_order(&config, &strings(&["server", "tests", "server"])).expect("ok");
    assert_eq!(first, second);
    assert_eq!(first, strings(&["migrate", "server", "tests"]));
}

#[test]
fn expand_targets_reports_first_unknown_name_of_request() {
    let config = readme_config();
    match expand_targets(&config, &strings(&["x", "y"])) {
        Err(GraphError::UnknownTarget { target }) => assert_eq!(target, "x"),
        _ => panic!("unknown target expected"),
    }
    match expand_targets(&config, &strings(&["y", "x"])) {
        Err(GraphError::UnknownTarget { target }) => assert_eq!(target, "y"),
        _ => panic!("unknown target expected"),
    }
}

#[test]
fn expand_targets_of_expansion_gives_it_back() {
    let config = readme_config();
    let once = expand_targets(&config, &strings(&["tests"])).expect("known");
    assert_eq!(once, strings(&["migrate", "server", "tests"]));
    assert_eq!(expand_targets(&config, &once).expect("known"), once);
}

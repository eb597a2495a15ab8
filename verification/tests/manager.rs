use depends_on_rs::config::{Config, HumanDuration, Target, WaitFor};
use depends_on_rs::envsubst::Environment;
use depends_on_rs::error::GraphError;
use depends_on_rs::manager::Manager;
use depends_on_rs::name_map::NameMap;

fn strings(items: &[&str]) -> Vec<String> {
    items.iter().map(|s| s.to_string()).collect()
}

fn target(cmd: &[&str], depends: &[&str]) -> Target {
    Target {
        cmd: strings(cmd),
        depends: strings(depends),
        ..Default::default()
    }
}

fn config_of(entries: Vec<(&str, Target)>) -> Config {
    let mut config = Config::new();
    for (name, t) in entries {
        config.insert(name.to_string(), t);
    }
    config
}

#[test]
fn parses_and_rejects_cycles() {
    let config = config_of(vec![
        ("a", target(&["sh", "-c", "echo a"], &["b"])),
        ("b", target(&["sh", "-c", "echo b"], &["a"])),
    ]);
    let err = Manager::from_config(config, b".".to_vec(), &Environment::new())
        .expect_err("cycle should fail");

    assert!(err.message().contains("cycle"));
}

#[test]
fn from_config_expands_command_cwd_and_env() {
    let mut env = Environment::new();
    env.set("PORT".to_string(), "8080".to_string());
    env.set("DIR".to_string(), "srv".to_string());
    let mut vars = NameMap::new();
    vars.insert("ADDR".to_string(), "localhost:${PORT}".to_string());
    vars.insert("MODE".to_string(), "${MODE:-dev}".to_string());
    let t = Target {
        cmd: strings(&["python3", "-m", "http.server", "${PORT}"]),
        cwd: Some("${DIR}/root".to_string()),
        env: vars,
        ..Default::default()
    };
    let manager = Manager::from_config(config_of(vec![("server", t)]), b"/base".to_vec(), &env)
        .expect("config should be accepted");
    let server = manager.config().get("server").expect("target kept");
    assert_eq!(server.cmd, strings(&["python3", "-m", "http.server", "8080"]));
    assert_eq!(server.cwd, Some("srv/root".to_string()));
    assert_eq!(server.env.get("ADDR"), Some(&"localhost:8080".to_string()));
    assert_eq!(server.env.get("MODE"), Some(&"dev".to_string()));
    assert_eq!(manager.base_dir(), &b"/base".to_vec());
}

#[test]
fn from_config_reports_first_problem_in_name_order() {
    let mut conflicting = target(&["true"], &[]);
    conflicting.wait_for = WaitFor {
        port: Some(1),
        exit_code: Some(0),
        ..Default::default()
    };
    let config = config_of(vec![
        ("zeta", target(&[], &[])),
        ("alpha", conflicting),
    ]);
    let err = Manager::from_config(config, b".".to_vec(), &Environment::new())
        .expect_err("alpha has two strategies");
    assert!(matches!(err, GraphError::ConflictingReadiness { ref target } if target == "alpha"));
    assert_eq!(
        err.message(),
        "target \"alpha\": wait_for must specify at most one strategy"
    );
}

#[test]
fn from_config_keeps_wait_for_and_timeout() {
    let mut t = target(&["sh", "-c", "exit 0"], &[]);
    t.wait_for = WaitFor {
        exit_code: Some(0),
        timeout: Some(HumanDuration { secs: 5, nanos: 0 }),
        ..Default::default()
    };
    let manager = Manager::from_config(config_of(vec![("migrate", t)]), b".".to_vec(), &Environment::new())
        .expect("valid");
    let kept = manager.config().get("migrate").unwrap();
    assert_eq!(kept.wait_for.exit_code, Some(0));
    assert_eq!(kept.wait_for.timeout_duration(), Some(HumanDuration { secs: 5, nanos: 0 }));
}

#[test]
fn manager_config_validates() {
    let config = config_of(vec![("migrate", Target { cmd: vec!["true".to_string()], ..Default::default() })]);
    let manager = Manager::from_config(config, b".".to_vec(), &Environment::new()).expect("valid");
    assert!(depends_on_rs::dag::validate_config(manager.config()).is_ok());
}

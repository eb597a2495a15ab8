use depends_on_rs::envsubst::{expand, Environment};
use depends_on_rs::name_map::NameMap;
use depends_on_rs::text::{decimal_i32, decimal_u64, str_lt, strip_prefix, trim_prefix_all};

fn env_of(pairs: &[(&str, &str)]) -> Environment {
    let mut env = Environment::new();
    for (k, v) in pairs {
        env.set(k.to_string(), v.to_string());
    }
    env
}

#[test]
fn expand_replaces_set_variable() {
    assert_eq!(expand("port ${PORT}", &env_of(&[("PORT", "8080")])), "port 8080");
}

#[test]
fn expand_unset_variable_becomes_empty() {
    assert_eq!(expand("a${NOPE}b", &env_of(&[])), "ab");
}

#[test]
fn expand_uses_default_when_unset() {
    assert_eq!(expand("${HOST:-localhost}:${PORT:-80}", &env_of(&[("PORT", "9")])), "localhost:9");
}

#[test]
fn expand_prefers_value_over_default() {
    assert_eq!(expand("${A:-x}", &env_of(&[("A", "set")])), "set");
}

#[test]
fn expand_empty_default() {
    assert_eq!(expand("[${A:-}]", &env_of(&[])), "[]");
}

#[test]
fn expand_leaves_non_placeholders() {
    let env = env_of(&[("A", "v")]);
    assert_eq!(expand("$A ${1A} ${A-x} ${A:-x", &env), "$A ${1A} ${A-x} ${A:-x");
    assert_eq!(expand("${A:-x ${}", &env), "v");
    assert_eq!(expand("plain text", &env), "plain text");
}

#[test]
fn expand_does_not_expand_substituted_text() {
    let env = env_of(&[("A", "${B}"), ("B", "no")]);
    assert_eq!(expand("${A}", &env), "${B}");
}

#[test]
fn expand_default_stops_at_first_brace() {
    assert_eq!(expand("${X:-a{b}c}", &env_of(&[])), "a{bc}");
}

#[test]
fn expand_adjacent_placeholders_and_dollar() {
    let env = env_of(&[("A", "1"), ("B_2", "2")]);
    assert_eq!(expand("$${A}${B_2}$", &env), "$12$");
}

#[test]
fn environment_get_after_set() {
    let mut env = env_of(&[("A", "1")]);
    env.set("A".to_string(), "2".to_string());
    assert_eq!(env.get("A"), Some(&"2".to_string()));
    assert_eq!(env.get("B"), None);
}

#[test]
fn name_map_iterates_in_name_order() {
    let mut m = NameMap::new();
    assert_eq!(m.insert("b".to_string(), 2), None);
    assert_eq!(m.insert("a".to_string(), 1), None);
    assert_eq!(m.insert("c".to_string(), 3), None);
    assert_eq!(m.insert("b".to_string(), 20), Some(2));
    let keys: Vec<&String> = (0..m.len()).map(|i| m.key_at(i)).collect();
    assert_eq!(keys, vec!["a", "b", "c"]);
    assert_eq!(m.get("b"), Some(&20));
    assert!(m.contains_key("c"));
    assert!(!m.contains_key("d"));
}

#[test]
fn str_lt_is_string_order() {
    assert!(str_lt("a", "b"));
    assert!(str_lt("ab", "b"));
    assert!(str_lt("a", "ab"));
    assert!(!str_lt("b", "a"));
    assert!(!str_lt("same", "same"));
    assert!(str_lt("Z", "a"));
    assert_eq!(str_lt("é", "z"), "é" < "z");
}

#[test]
fn strip_and_trim_prefixes() {
    assert_eq!(strip_prefix("pipe:a.b", "pipe:"), Some("a.b".to_string()));
    assert_eq!(strip_prefix("pip", "pipe:"), None);
    assert_eq!(trim_prefix_all("file:file:x", "file:"), "x");
    assert_eq!(trim_prefix_all("x", "file:"), "x");
}

#[test]
fn decimal_text() {
    assert_eq!(decimal_u64(0), "0");
    assert_eq!(decimal_u64(18081), "18081");
    assert_eq!(decimal_u64(u64::MAX), u64::MAX.to_string());
    assert_eq!(decimal_i32(-17), "-17");
    assert_eq!(decimal_i32(i32::MIN), i32::MIN.to_string());
}

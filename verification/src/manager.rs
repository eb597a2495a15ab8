//! The manager: a validated configuration with every placeholder expanded,
//! and the directory that relative paths start from.

use vstd::prelude::*;
use crate::config::{Config, Target};
use crate::dag::{
    validate_config, no_target_issue, can_order, issue_at, depends_on, deps_of, reachable,
    is_dependency_path, is_dependency_order, all_known, has_needed_cycle,
};
use crate::envsubst::{Environment, expand, expansion};
use crate::error::{GraphError, GraphErrorView};
use crate::name_map::{NameMap, strictly_sorted};
use crate::text::names_of;

verus! {

/// `r` holds the expansion of each string of `args`, in order.
pub open spec fn expands_each(args: Seq<String>, r: Seq<String>, env: Environment) -> bool {
    &&& r.len() == args.len()
    &&& forall|i: int| 0 <= i < args.len() ==> #[trigger] r[i]@ == expansion(args[i]@, env)
}

/// `r` is `t` with its command, working directory and environment values
/// expanded, and everything else as it was.
pub open spec fn expands_target(t: Target, r: Target, env: Environment) -> bool {
    &&& expands_each(t.cmd@, r.cmd@, env)
    &&& match t.cwd {
        Some(c) => r.cwd matches Some(rc) && rc@ == expansion(c@, env),
        None => r.cwd is None,
    }
    &&& r.env.keys() == t.env.keys()
    &&& expands_each(t.env.values(), r.env.values(), env)
    &&& r.depends == t.depends
    &&& r.wait_for == t.wait_for
    &&& r.signal == t.signal
    &&& r.stdout == t.stdout
    &&& r.stderr == t.stderr
    &&& r.fds == t.fds
}

/// `r` is `c` with every target expanded.
pub open spec fn expands_config(c: Config, r: Config, env: Environment) -> bool {
    &&& r.keys() == c.keys()
    &&& r.values().len() == c.values().len()
    &&& forall|i: int| 0 <= i < c.values().len() ==> #[trigger] expands_target(c.values()[i], r.values()[i], env)
}

fn expand_each(args: &Vec<String>, env: &Environment) -> (r: Vec<String>)
    ensures
        expands_each(args@, r@, *env),
{
    let mut r: Vec<String> = Vec::new();
    let mut i: usize = 0;
    while i < args.len()
        invariant
            i <= args@.len(),
            r@.len() == i,
            forall|k: int| 0 <= k < i ==> #[trigger] r@[k]@ == expansion(args@[k]@, *env),
        decreases args@.len() - i,
    {
        r.push(expand(args[i].as_str(), env));
        i = i + 1;
    }
    r
}

fn expand_target(t: Target, env: &Environment) -> (r: Target)
    ensures
        expands_target(t, r, *env),
{
    let cmd = expand_each(&t.cmd, env);
    let cwd = match &t.cwd {
        Some(c) => Some(expand(c.as_str(), env)),
        None => None,
    };
    let ghost old_env = t.env;
    let Target { cmd: _, depends, wait_for, signal, cwd: _, env: vars, stdout, stderr, fds } = t;
    let (names, values) = vars.into_parts();
    let expanded = expand_each(&values, env);
    let vars = NameMap::from_parts(names, expanded);
    Target { cmd, depends, wait_for, signal, cwd, env: vars, stdout, stderr, fds }
}

/// Every target of `config` with its placeholders expanded.
fn expand_config(config: Config, env: &Environment) -> (x: Config)
    ensures
        expands_config(config, x, *env),
        config.keys().len() == config.values().len(),
{
    let ghost original = config;
    let (names, targets) = config.into_parts();
    let mut targets = targets;
    let ghost all = targets@;
    let mut out: Vec<Target> = Vec::new();
    while targets.len() > 0
        invariant
            all == original.values(),
            names_of(names@) == original.keys(),
            names@.len() == all.len(),
            strictly_sorted(original.keys()),
            out@.len() + targets@.len() == all.len(),
            targets@ == all.subrange(out@.len() as int, all.len() as int),
            forall|k: int| 0 <= k < out@.len() ==> #[trigger] expands_target(all[k], out@[k], *env),
        decreases targets@.len(),
    {
        let t = targets.remove(0);
        let ghost k = out@.len() as int;
        assert(t == all[k]);
        let x = expand_target(t, env);
        out.push(x);
        proof {
            assert(targets@ =~= all.subrange(out@.len() as int, all.len() as int));
        }
    }
    let expanded = NameMap::from_parts(names, out);
    proof {
        assert(expanded.keys() == original.keys());
        assert(expanded.values() == out@);
    }
    expanded
}

/// A validated configuration, ready to start targets from.
#[derive(Debug)]
pub struct Manager {
    config: Config,
    base_dir: Vec<u8>,
}

impl Manager {
    /// The configuration held.
    pub closed spec fn config_spec(&self) -> Config {
        self.config
    }

    /// The directory that relative paths start from.
    pub closed spec fn base_dir_spec(&self) -> Seq<u8> {
        self.base_dir@
    }

    /// A manager holds a configuration that validates: no target has a
    /// problem of its own, and all targets can start in some order.
    #[verifier::type_invariant]
    closed spec fn holds_valid_config(&self) -> bool {
        &&& no_target_issue(self.config)
        &&& can_order(self.config, self.config.keys())
        &&& !has_needed_cycle(self.config, self.config.keys())
    }

    /// Expands the placeholders in every target's command, working directory
    /// and environment values, then validates the configuration; `base_dir`, the
    /// bytes of a path as the operating system holds them, is
    /// where relative paths start.
    pub fn from_config(config: Config, base_dir: Vec<u8>, env: &Environment) -> (r: Result<Manager, GraphError>)
        ensures
            r is Ok <==> no_target_issue(config) && can_order(config, config.keys()),
            r is Ok <==> no_target_issue(config) && !has_needed_cycle(config, config.keys()),
            match r {
                Ok(m) => {
                    &&& expands_config(config, m.config_spec(), *env)
                    &&& m.base_dir_spec() == base_dir@
                    &&& no_target_issue(m.config_spec())
                    &&& can_order(m.config_spec(), m.config_spec().keys())
                    &&& !has_needed_cycle(m.config_spec(), m.config_spec().keys())
                },
                Err(e) => {
                    ||| exists|i: int| 0 <= i < config.keys().len() && #[trigger] issue_at(config, i) == Some(e@)
                        && forall|j: int| 0 <= j < i ==> #[trigger] issue_at(config, j) is None
                    ||| no_target_issue(config) && e@ == GraphErrorView::Cycle && has_needed_cycle(config, config.keys())
                },
            },
    {
        let ghost original = config;
        let expanded = expand_config(config, env);
        proof {
            lemma_same_graph(original, expanded, *env);
        }
        match validate_config(&expanded) {
            Ok(()) => {
                let ghost bd = base_dir@;
                let m = Manager { config: expanded, base_dir };
                assert(m.config_spec() == expanded);
                assert(expands_config(original, m.config_spec(), *env));
                assert(m.base_dir_spec() == bd);
                Ok(m)
            },
            Err(e) => {
                proof {
                    if exists|i: int| 0 <= i < expanded.keys().len() && #[trigger] issue_at(expanded, i) == Some(e@)
                        && forall|j: int| 0 <= j < i ==> #[trigger] issue_at(expanded, j) is None {
                        let i = choose|i: int| 0 <= i < expanded.keys().len() && #[trigger] issue_at(expanded, i) == Some(e@)
                            && forall|j: int| 0 <= j < i ==> #[trigger] issue_at(expanded, j) is None;
                        assert(issue_at(original, i) == Some(e@));
                        assert forall|j: int| 0 <= j < i implies #[trigger] issue_at(original, j) is None by {
                            assert(issue_at(expanded, j) is None);
                        }
                    }
                }
                Err(e)
            },
        }
    }

    /// The configuration held; it always validates.
    pub fn config(&self) -> (c: &Config)
        ensures
            *c == self.config_spec(),
            no_target_issue(*c),
            can_order(*c, c.keys()),
            !has_needed_cycle(*c, c.keys()),
    {
        proof {
            use_type_invariant(self);
        }
        &self.config
    }

    /// The directory that relative paths start from.
    pub fn base_dir(&self) -> (d: &Vec<u8>)
        ensures
            d@ == self.base_dir_spec(),
    {
        &self.base_dir
    }
}

/// Two configurations with the same names whose targets list the same
/// dependencies have the same dependency edges.
proof fn lemma_same_edges(c: Config, x: Config)
    requires
        x.keys() == c.keys(),
        x.values().len() == c.values().len(),
        c.keys().len() == c.values().len(),
        forall|i: int| 0 <= i < c.values().len() ==> #[trigger] x.values()[i].depends == c.values()[i].depends,
    ensures
        forall|a: Seq<char>, b: Seq<char>| #[trigger] depends_on(c, a, b) == #[trigger] depends_on(x, a, b),
{
    assert forall|a: Seq<char>, b: Seq<char>| #[trigger] depends_on(c, a, b) == #[trigger] depends_on(x, a, b) by {
        if c.has(a) {
            let i = c.keys().index_of(a);
            assert(x.values()[i].depends == c.values()[i].depends);
            assert(deps_of(c, a) == deps_of(x, a));
        }
    }
}

/// With the same edges, the same chains are dependency paths.
proof fn lemma_same_paths(c: Config, x: Config)
    requires
        forall|a: Seq<char>, b: Seq<char>| #[trigger] depends_on(c, a, b) == #[trigger] depends_on(x, a, b),
    ensures
        forall|p: Seq<Seq<char>>| #[trigger] is_dependency_path(c, p) == #[trigger] is_dependency_path(x, p),
{
    assert forall|p: Seq<Seq<char>>| #[trigger] is_dependency_path(c, p) == #[trigger] is_dependency_path(x, p) by {
        if is_dependency_path(c, p) {
            assert forall|i: int| 0 <= i < p.len() - 1 implies depends_on(x, #[trigger] p[i], p[i + 1]) by {
                assert(depends_on(c, p[i], p[i + 1]));
            }
        }
        if is_dependency_path(x, p) {
            assert forall|i: int| 0 <= i < p.len() - 1 implies depends_on(c, #[trigger] p[i], p[i + 1]) by {
                assert(depends_on(x, p[i], p[i + 1]));
            }
        }
    }
}

/// With the same edges, the same names are reached and the same orderings
/// are dependency orders.
proof fn lemma_same_orders(c: Config, x: Config, roots: Seq<Seq<char>>)
    requires
        forall|a: Seq<char>, b: Seq<char>| #[trigger] depends_on(c, a, b) == #[trigger] depends_on(x, a, b),
        forall|p: Seq<Seq<char>>| #[trigger] is_dependency_path(c, p) == #[trigger] is_dependency_path(x, p),
        forall|n: Seq<char>| #[trigger] c.has(n) == #[trigger] x.has(n),
    ensures
        can_order(c, roots) == can_order(x, roots),
        has_needed_cycle(c, roots) == has_needed_cycle(x, roots),
{
    assert forall|n: Seq<char>| #[trigger] reachable(c, roots, n) == #[trigger] reachable(x, roots, n) by {
        if reachable(c, roots, n) {
            let p = choose|p: Seq<Seq<char>>| #[trigger] is_dependency_path(c, p) && roots.contains(p[0]) && p.last() == n;
            assert(is_dependency_path(x, p));
        }
        if reachable(x, roots, n) {
            let p = choose|p: Seq<Seq<char>>| #[trigger] is_dependency_path(x, p) && roots.contains(p[0]) && p.last() == n;
            assert(is_dependency_path(c, p));
        }
    }
    if all_known(c, roots) {
        assert forall|n: Seq<char>| reachable(x, roots, n) implies x.has(n) by {
            assert(reachable(c, roots, n));
            assert(c.has(n));
        }
    }
    if all_known(x, roots) {
        assert forall|n: Seq<char>| reachable(c, roots, n) implies c.has(n) by {
            assert(reachable(x, roots, n));
            assert(x.has(n));
        }
    }
    assert(all_known(c, roots) == all_known(x, roots));
    assert forall|o: Seq<Seq<char>>| #[trigger] is_dependency_order(c, o) == #[trigger] is_dependency_order(x, o) by {
        if is_dependency_order(c, o) {
            assert forall|p: int, q: int| 0 <= p < o.len() && 0 <= q < o.len() && depends_on(x, #[trigger] o[q], #[trigger] o[p]) implies p < q by {
                assert(depends_on(c, o[q], o[p]));
            }
        }
        if is_dependency_order(x, o) {
            assert forall|p: int, q: int| 0 <= p < o.len() && 0 <= q < o.len() && depends_on(c, #[trigger] o[q], #[trigger] o[p]) implies p < q by {
                assert(depends_on(x, o[q], o[p]));
            }
        }
    }
    if has_needed_cycle(c, roots) {
        let cy = choose|cy: Seq<Seq<char>>| #[trigger] is_dependency_path(c, cy) && cy.len() > 1 && cy[0] == cy.last()
            && reachable(c, roots, cy[0]);
        assert(is_dependency_path(x, cy));
        assert(reachable(x, roots, cy[0]));
    }
    if has_needed_cycle(x, roots) {
        let cy = choose|cy: Seq<Seq<char>>| #[trigger] is_dependency_path(x, cy) && cy.len() > 1 && cy[0] == cy.last()
            && reachable(x, roots, cy[0]);
        assert(is_dependency_path(c, cy));
        assert(reachable(c, roots, cy[0]));
    }
    if can_order(c, roots) {
        let o = choose|o: Seq<Seq<char>>| #[trigger] is_dependency_order(c, o) && forall|nm: Seq<char>| o.contains(nm) <==> reachable(c, roots, nm);
        assert(is_dependency_order(x, o));
        assert(forall|nm: Seq<char>| o.contains(nm) <==> reachable(x, roots, nm));
    }
    if can_order(x, roots) {
        let o = choose|o: Seq<Seq<char>>| #[trigger] is_dependency_order(x, o) && forall|nm: Seq<char>| o.contains(nm) <==> reachable(x, roots, nm);
        assert(is_dependency_order(c, o));
        assert(forall|nm: Seq<char>| o.contains(nm) <==> reachable(c, roots, nm));
    }
}

/// Expansion changes neither the names, nor the dependencies, nor what
/// validation looks at.
proof fn lemma_same_graph(c: Config, x: Config, env: Environment)
    requires
        expands_config(c, x, env),
        c.keys().len() == c.values().len(),
    ensures
        forall|i: int| 0 <= i < c.keys().len() ==> #[trigger] issue_at(c, i) == issue_at(x, i),
        no_target_issue(c) == no_target_issue(x),
        can_order(c, c.keys()) == can_order(x, x.keys()),
        has_needed_cycle(c, c.keys()) == has_needed_cycle(x, x.keys()),
{
    assert forall|i: int| 0 <= i < c.values().len() implies #[trigger] x.values()[i].depends == c.values()[i].depends by {
        assert(expands_target(c.values()[i], x.values()[i], env));
    }
    lemma_same_edges(c, x);
    lemma_same_paths(c, x);
    assert(forall|n: Seq<char>| #[trigger] c.has(n) == #[trigger] x.has(n));
    lemma_same_orders(c, x, c.keys());
    assert forall|i: int| 0 <= i < c.keys().len() implies #[trigger] issue_at(c, i) == issue_at(x, i) by {
        assert(expands_target(c.values()[i], x.values()[i], env));
        assert(c.values()[i].cmd@.len() == x.values()[i].cmd@.len());
    }
    if no_target_issue(c) {
        assert forall|i: int| 0 <= i < x.keys().len() implies #[trigger] issue_at(x, i) is None by {
            assert(issue_at(c, i) is None);
        }
    }
    if no_target_issue(x) {
        assert forall|i: int| 0 <= i < c.keys().len() implies #[trigger] issue_at(c, i) is None by {
            assert(issue_at(x, i) is None);
        }
    }
}

} // verus!

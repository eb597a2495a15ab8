//! The dependency graph of a configuration: which targets a request needs,
//! in which order they can start, and whether a configuration is sound.

use vstd::prelude::*;
use crate::config::{Config, Target, strategy_count};
use crate::error::{GraphError, GraphErrorView};
use crate::name_map::{strictly_sorted, lemma_sorted_distinct, vec_replace};
use crate::text::{names_of, lex_lt};

verus! {

/// The names that the target called `n` depends on, in the order written.
pub open spec fn deps_of(cfg: Config, n: Seq<char>) -> Seq<Seq<char>> {
    names_of(cfg.lookup(n).depends@)
}

/// `a` is a target of the configuration and lists `b` among its dependencies.
pub open spec fn depends_on(cfg: Config, a: Seq<char>, b: Seq<char>) -> bool {
    cfg.has(a) && deps_of(cfg, a).contains(b)
}

/// A non-empty chain of names in which each one depends on the next.
pub open spec fn is_dependency_path(cfg: Config, path: Seq<Seq<char>>) -> bool {
    &&& path.len() > 0
    &&& forall|i: int| 0 <= i < path.len() - 1 ==> depends_on(cfg, #[trigger] path[i], path[i + 1])
}

/// `n` is one of `roots`, or is reached from one of them through dependencies.
pub open spec fn reachable(cfg: Config, roots: Seq<Seq<char>>, n: Seq<char>) -> bool {
    exists|path: Seq<Seq<char>>|
        #[trigger] is_dependency_path(cfg, path) && roots.contains(path[0]) && path.last() == n
}

/// Every name reached from `roots` is a target of the configuration.
pub open spec fn all_known(cfg: Config, roots: Seq<Seq<char>>) -> bool {
    forall|n: Seq<char>| reachable(cfg, roots, n) ==> cfg.has(n)
}

/// How many of `keys` are not in `vis`.
pub open spec fn unvisited(keys: Seq<Seq<char>>, vis: Set<Seq<char>>) -> nat
    decreases keys.len(),
{
    if keys.len() == 0 {
        0
    } else {
        unvisited(keys.drop_last(), vis) + if vis.contains(keys.last()) {
            0nat
        } else {
            1nat
        }
    }
}

/// Visiting more names leaves no more unvisited.
pub proof fn lemma_unvisited_mono(keys: Seq<Seq<char>>, a: Set<Seq<char>>, b: Set<Seq<char>>)
    requires
        a.subset_of(b),
    ensures
        unvisited(keys, b) <= unvisited(keys, a),
    decreases keys.len(),
{
    if keys.len() > 0 {
        lemma_unvisited_mono(keys.drop_last(), a, b);
    }
}

/// Visiting one more key leaves fewer unvisited.
pub proof fn lemma_unvisited_insert(keys: Seq<Seq<char>>, vis: Set<Seq<char>>, n: Seq<char>)
    requires
        keys.contains(n),
        !vis.contains(n),
    ensures
        unvisited(keys, vis.insert(n)) < unvisited(keys, vis),
    decreases keys.len(),
{
    lemma_unvisited_mono(keys.drop_last(), vis, vis.insert(n));
    if keys.last() != n {
        let i = choose|i: int| 0 <= i < keys.len() && keys[i] == n;
        assert(keys.drop_last()[i] == n);
        lemma_unvisited_insert(keys.drop_last(), vis, n);
    }
}

/// The depth-first walk that the request's names start, in the order written,
/// each target followed by its dependencies in the order written, skipping
/// the targets already visited: the visited set at the end, or the first name
/// met that the configuration lacks.
pub open spec fn dfs_visit(cfg: Config, vis: Set<Seq<char>>, ns: Seq<Seq<char>>) -> Result<Set<Seq<char>>, Seq<char>>
    decreases unvisited(cfg.keys(), vis), ns.len(),
{
    if ns.len() == 0 {
        Ok(vis)
    } else {
        let n = ns[0];
        if !cfg.has(n) {
            Err(n)
        } else if vis.contains(n) {
            dfs_visit(cfg, vis, ns.drop_first())
        } else {
            proof {
                lemma_unvisited_insert(cfg.keys(), vis, n);
            }
            match dfs_visit(cfg, vis.insert(n), deps_of(cfg, n)) {
                Err(e) => Err(e),
                Ok(v2) => {
                    proof {
                        lemma_unvisited_mono(cfg.keys(), vis, vis.union(v2));
                    }
                    dfs_visit(cfg, vis.union(v2), ns.drop_first())
                },
            }
        }
    }
}

/// Visiting a name and then the rest is visiting the whole list.
proof fn lemma_visit_cons(cfg: Config, vis: Set<Seq<char>>, ns: Seq<Seq<char>>)
    requires
        ns.len() > 0,
    ensures
        dfs_visit(cfg, vis, ns) == match dfs_visit(cfg, vis, seq![ns[0]]) {
            Err(e) => Err(e),
            Ok(v) => dfs_visit(cfg, v, ns.drop_first()),
        },
{
    let one = seq![ns[0]];
    let n = ns[0];
    assert(one[0] == n);
    assert(one.drop_first() =~= Seq::<Seq<char>>::empty());
    if !cfg.has(n) {
    } else if vis.contains(n) {
        assert(dfs_visit(cfg, vis, one) == dfs_visit(cfg, vis, one.drop_first()));
        assert(dfs_visit(cfg, vis, one.drop_first()) == Ok::<Set<Seq<char>>, Seq<char>>(vis));
    } else {
        match dfs_visit(cfg, vis.insert(n), deps_of(cfg, n)) {
            Err(e) => {},
            Ok(v2) => {
                assert(dfs_visit(cfg, vis.union(v2), one.drop_first()) == Ok::<Set<Seq<char>>, Seq<char>>(vis.union(v2)));
                assert(dfs_visit(cfg, vis, one) == dfs_visit(cfg, vis.union(v2), one.drop_first()));
            },
        }
    }
}

/// The targets whose marks are set, by name.
spec fn marked_set(cfg: Config, marks: Seq<bool>) -> Set<Seq<char>> {
    Set::new(|nm: Seq<char>| cfg.has(nm) && marks[cfg.keys().index_of(nm)])
}

/// The number of `false` entries.
pub open spec fn count_false(s: Seq<bool>) -> nat
    decreases s.len(),
{
    if s.len() == 0 {
        0
    } else {
        count_false(s.drop_last()) + if s.last() {
            0nat
        } else {
            1nat
        }
    }
}

proof fn lemma_count_false_grow(a: Seq<bool>, b: Seq<bool>, k: int)
    requires
        a.len() == b.len(),
        forall|i: int| 0 <= i < a.len() && #[trigger] a[i] ==> b[i],
    ensures
        count_false(b) <= count_false(a),
        0 <= k < a.len() && !a[k] && b[k] ==> count_false(b) < count_false(a),
    decreases a.len(),
{
    if a.len() > 0 {
        let a2 = a.drop_last();
        let b2 = b.drop_last();
        assert forall|i: int| 0 <= i < a2.len() && #[trigger] a2[i] implies b2[i] by {
            assert(a[i]);
        }
        lemma_count_false_grow(a2, b2, k);
    }
}

/// A target of the configuration whose dependencies are all targets whose
/// marks are set.
spec fn closed_at(cfg: Config, marks: Seq<bool>, i: int) -> bool {
    let ds = names_of(cfg.values()[i].depends@);
    forall|k: int|
        0 <= k < ds.len() ==> cfg.has(#[trigger] ds[k]) && marks[cfg.keys().index_of(ds[k])]
}

/// Reaching `b` from `a` in one step extends reachability.
proof fn lemma_reach_step(cfg: Config, roots: Seq<Seq<char>>, a: Seq<char>, b: Seq<char>)
    requires
        reachable(cfg, roots, a),
        depends_on(cfg, a, b),
    ensures
        reachable(cfg, roots, b),
{
    let path = choose|path: Seq<Seq<char>>|
        #[trigger] is_dependency_path(cfg, path) && roots.contains(path[0]) && path.last() == a;
    let p2 = path.push(b);
    assert forall|i: int| 0 <= i < p2.len() - 1 implies depends_on(cfg, #[trigger] p2[i], p2[i + 1]) by {
        if i < path.len() - 1 {
            assert(p2[i] == path[i]);
            assert(p2[i + 1] == path[i + 1]);
        }
    }
    assert(is_dependency_path(cfg, p2));
}

/// A root is reachable.
pub proof fn lemma_root_reachable(cfg: Config, roots: Seq<Seq<char>>, k: int)
    requires
        0 <= k < roots.len(),
    ensures
        reachable(cfg, roots, roots[k]),
{
    let p = seq![roots[k]];
    assert(is_dependency_path(cfg, p));
    assert(roots.contains(p[0]));
}

/// What is reached from `b` is reached from any target that depends on `b`.
proof fn lemma_reach_via(cfg: Config, a: Seq<char>, b: Seq<char>, x: Seq<char>)
    requires
        depends_on(cfg, a, b),
        reachable(cfg, seq![b], x),
    ensures
        reachable(cfg, seq![a], x),
{
    let path = choose|path: Seq<Seq<char>>|
        #[trigger] is_dependency_path(cfg, path) && seq![b].contains(path[0]) && path.last() == x;
    assert(path[0] == b);
    let p2 = seq![a] + path;
    assert forall|i: int| 0 <= i < p2.len() - 1 implies depends_on(cfg, #[trigger] p2[i], p2[i + 1]) by {
        if i == 0 {
            assert(p2[1] == path[0]);
        } else {
            assert(p2[i] == path[i - 1]);
            assert(p2[i + 1] == path[i]);
        }
    }
    assert(is_dependency_path(cfg, p2));
    assert(seq![a].contains(p2[0]));
    assert(p2.last() == x);
}

/// When every root is a marked target and every marked target is closed, every
/// name on a dependency path from a root is a marked target.
proof fn lemma_closed_marks_cover(
    cfg: Config,
    roots: Seq<Seq<char>>,
    marks: Seq<bool>,
    path: Seq<Seq<char>>,
)
    requires
        strictly_sorted(cfg.keys()),
        cfg.keys().len() == cfg.values().len(),
        marks.len() == cfg.keys().len(),
        forall|r: Seq<char>| #[trigger] roots.contains(r) ==> cfg.has(r) && marks[cfg.keys().index_of(r)],
        forall|i: int| 0 <= i < marks.len() && #[trigger] marks[i] ==> closed_at(cfg, marks, i),
        is_dependency_path(cfg, path),
        roots.contains(path[0]),
    ensures
        cfg.has(path.last()),
        marks[cfg.keys().index_of(path.last())],
    decreases path.len(),
{
    if path.len() > 1 {
        let prev = path.drop_last();
        assert forall|i: int| 0 <= i < prev.len() - 1 implies depends_on(cfg, #[trigger] prev[i], prev[i + 1]) by {
            assert(prev[i] == path[i]);
            assert(depends_on(cfg, path[i], path[i + 1]));
        }
        lemma_closed_marks_cover(cfg, roots, marks, prev);
        let a = prev.last();
        let ia = cfg.keys().index_of(a);
        cfg.lemma_lookup_at(ia);
        assert(depends_on(cfg, path[path.len() - 2], path[path.len() - 1]));
        assert(closed_at(cfg, marks, ia));
        let ds = names_of(cfg.values()[ia].depends@);
        assert(ds.contains(path.last()));
        let k = choose|k: int| 0 <= k < ds.len() && ds[k] == path.last();
        assert(cfg.has(ds[k]));
    }
}

/// Marks the target called `target` and, depth first, everything it depends
/// on that is not marked yet.
fn collect_target(
    cfg: &Config,
    target: &String,
    needed: &mut Vec<bool>,
    Ghost(roots): Ghost<Seq<Seq<char>>>,
) -> (r: Result<(), GraphError>)
    requires
        old(needed)@.len() == cfg.keys().len(),
        strictly_sorted(cfg.keys()),
        cfg.keys().len() == cfg.values().len(),
        reachable(*cfg, roots, target@),
        forall|i: int| 0 <= i < old(needed)@.len() && #[trigger] old(needed)@[i]
            ==> reachable(*cfg, roots, cfg.keys()[i]),
    ensures
        final(needed)@.len() == old(needed)@.len(),
        forall|i: int| 0 <= i < old(needed)@.len() && #[trigger] old(needed)@[i] ==> final(needed)@[i],
        forall|i: int| 0 <= i < final(needed)@.len() && #[trigger] final(needed)@[i]
            ==> reachable(*cfg, roots, cfg.keys()[i]),
        match r {
            Ok(()) => {
                &&& cfg.has(target@)
                &&& final(needed)@[cfg.keys().index_of(target@)]
                &&& forall|i: int| 0 <= i < final(needed)@.len() && #[trigger] final(needed)@[i]
                    && !old(needed)@[i] ==> closed_at(*cfg, final(needed)@, i)
            },
            Err(e) => e@ matches GraphErrorView::UnknownTarget(n) && reachable(*cfg, roots, n)
                && !cfg.has(n),
        },
        !cfg.has(target@) ==> r is Err && final(needed)@ == old(needed)@,
        cfg.has(target@) && old(needed)@[cfg.keys().index_of(target@)] ==> r is Ok && final(needed)@
            == old(needed)@,
        forall|i: int| 0 <= i < final(needed)@.len() && #[trigger] final(needed)@[i] && !old(needed)@[i]
            ==> reachable(*cfg, seq![target@], cfg.keys()[i]),
        match r {
            Ok(()) => dfs_visit(*cfg, marked_set(*cfg, old(needed)@), seq![target@]) == Ok::<
                Set<Seq<char>>,
                Seq<char>,
            >(marked_set(*cfg, final(needed)@)),
            Err(e) => e@ is UnknownTarget && dfs_visit(*cfg, marked_set(*cfg, old(needed)@), seq![target@])
                == Err::<Set<Seq<char>>, Seq<char>>(e@->UnknownTarget_0),
        },
        r is Ok && (forall|i: int| 0 <= i < old(needed)@.len() && #[trigger] old(needed)@[i] ==> closed_at(
            *cfg,
            old(needed)@,
            i,
        )) ==> forall|i: int| 0 <= i < final(needed)@.len() ==> (#[trigger] final(needed)@[i] <==> old(
            needed,
        )@[i] || reachable(*cfg, seq![target@], cfg.keys()[i])),
    decreases count_false(old(needed)@),
{
    let ghost one = seq![target@];
    let ghost s_old = marked_set(*cfg, needed@);
    proof {
        assert(one[0] == target@);
        assert(one.drop_first() =~= Seq::<Seq<char>>::empty());
    }
    let idx = match cfg.position(target.as_str()) {
        Some(i) => i,
        None => {
            return Err(GraphError::UnknownTarget { target: target.clone() });
        },
    };
    if needed[idx] {
        proof {
            assert(s_old.contains(target@));
            assert(dfs_visit(*cfg, s_old, one) == dfs_visit(*cfg, s_old, one.drop_first()));
            if forall|i: int| 0 <= i < needed@.len() && #[trigger] needed@[i] ==> closed_at(*cfg, needed@, i) {
                lemma_marks_hold_reach(*cfg, needed@, target@);
            }
        }
        return Ok(());
    }
    let ghost before = needed@;
    needed.set(idx, true);
    let ghost deps_t = deps_of(*cfg, target@);
    let ghost s1 = s_old.insert(target@);
    proof {
        lemma_count_false_grow(before, needed@, idx as int);
        cfg.lemma_lookup_at(idx as int);
        lemma_root_reachable(*cfg, seq![target@], 0);
        assert(marked_set(*cfg, needed@) =~= s1) by {
            assert forall|nm: Seq<char>| marked_set(*cfg, needed@).contains(nm) <==> s1.contains(nm) by {
                if cfg.has(nm) {
                    let i = cfg.keys().index_of(nm);
                    if i == idx as int {
                        assert(nm == cfg.keys()[i]);
                    } else {
                        assert(needed@[i] == before[i]);
                        if nm == target@ {
                            assert(false);
                        }
                    }
                }
            }
        }
        assert(!s_old.contains(target@));
        assert(deps_t.skip(0) =~= deps_t);
    }
    let spec = cfg.value_at(idx);
    let mut j: usize = 0;
    while j < spec.depends.len()
        invariant
            needed@.len() == cfg.keys().len(),
            strictly_sorted(cfg.keys()),
            cfg.keys().len() == cfg.values().len(),
            idx < cfg.keys().len(),
            cfg.keys()[idx as int] == target@,
            cfg.keys().index_of(target@) == idx,
            *spec == cfg.values()[idx as int],
            cfg.lookup(target@) == *spec,
            reachable(*cfg, roots, target@),
            j <= spec.depends@.len(),
            needed@[idx as int],
            !before[idx as int],
            before == old(needed)@,
            before.len() == needed@.len(),
            count_false(needed@) < count_false(before),
            forall|i: int| 0 <= i < before.len() && #[trigger] before[i] ==> needed@[i],
            forall|i: int| 0 <= i < needed@.len() && #[trigger] needed@[i]
                ==> reachable(*cfg, roots, cfg.keys()[i]),
            forall|i: int| 0 <= i < needed@.len() && #[trigger] needed@[i] && !before[i] && i
                != idx ==> closed_at(*cfg, needed@, i),
            forall|k: int| 0 <= k < j ==> cfg.has(#[trigger] names_of(spec.depends@)[k])
                && needed@[cfg.keys().index_of(names_of(spec.depends@)[k])],
            forall|i: int| 0 <= i < needed@.len() && #[trigger] needed@[i] && !before[i]
                ==> reachable(*cfg, seq![target@], cfg.keys()[i]),
            deps_t == names_of(spec.depends@),
            deps_t == deps_of(*cfg, target@),
            s_old == marked_set(*cfg, before),
            s1 == s_old.insert(target@),
            !s_old.contains(target@),
            one == seq![target@],
            one[0] == target@,
            one.drop_first() =~= Seq::<Seq<char>>::empty(),
            dfs_visit(*cfg, s1, deps_t) == dfs_visit(*cfg, marked_set(*cfg, needed@), deps_t.skip(j as int)),
        decreases spec.depends@.len() - j,
    {
        let dep = &spec.depends[j];
        proof {
            assert(names_of(spec.depends@)[j as int] == dep@);
            assert(deps_of(*cfg, target@).contains(dep@));
            lemma_reach_step(*cfg, roots, target@, dep@);
        }
        let ghost mid = needed@;
        proof {
            assert(deps_t.skip(j as int)[0] == dep@);
            assert(deps_t.skip(j as int).drop_first() =~= deps_t.skip(j + 1));
            lemma_visit_cons(*cfg, marked_set(*cfg, mid), deps_t.skip(j as int));
        }
        let sub = collect_target(cfg, dep, needed, Ghost(roots));
        proof {
            assert forall|i: int| 0 <= i < needed@.len() && #[trigger] needed@[i] && !before[i]
                implies reachable(*cfg, seq![target@], cfg.keys()[i]) by {
                if !mid[i] {
                    lemma_reach_via(*cfg, target@, dep@, cfg.keys()[i]);
                }
            }
        }
        match sub {
            Ok(()) => {},
            Err(e) => {
                proof {
                    assert(dfs_visit(*cfg, s_old, one) == match dfs_visit(*cfg, s1, deps_t) {
                        Err(e) => Err(e),
                        Ok(v2) => dfs_visit(*cfg, s_old.union(v2), one.drop_first()),
                    });
                }
                return Err(e);
            },
        }
        proof {
            lemma_count_false_grow(mid, needed@, 0);
            assert forall|i: int| 0 <= i < needed@.len() && #[trigger] needed@[i] && !before[i] && i
                != idx implies closed_at(*cfg, needed@, i) by {
                if mid[i] {
                    assert(closed_at(*cfg, mid, i));
                    let ds = names_of(cfg.values()[i].depends@);
                    assert forall|k: int| 0 <= k < ds.len() implies cfg.has(#[trigger] ds[k])
                        && needed@[cfg.keys().index_of(ds[k])] by {
                        assert(mid[cfg.keys().index_of(ds[k])]);
                    }
                }
            }
            assert forall|k: int| 0 <= k < j + 1 implies cfg.has(#[trigger] names_of(spec.depends@)[k])
                && needed@[cfg.keys().index_of(names_of(spec.depends@)[k])] by {
                if k < j {
                    assert(mid[cfg.keys().index_of(names_of(spec.depends@)[k])]);
                }
            }
        }
        j = j + 1;
    }
    proof {
        assert(deps_t.skip(j as int) =~= Seq::<Seq<char>>::empty());
        let s_end = marked_set(*cfg, needed@);
        assert(dfs_visit(*cfg, s1, deps_t) == Ok::<Set<Seq<char>>, Seq<char>>(s_end));
        assert(dfs_visit(*cfg, s_old.union(s_end), one.drop_first()) == Ok::<Set<Seq<char>>, Seq<char>>(s_old.union(s_end)));
        assert(dfs_visit(*cfg, s_old, one) == dfs_visit(*cfg, s_old.union(s_end), one.drop_first()));
        assert(s_old.union(s_end) =~= s_end) by {
            assert forall|nm: Seq<char>| s_old.contains(nm) implies s_end.contains(nm) by {
                assert(before[cfg.keys().index_of(nm)]);
            }
        }
        assert(closed_at(*cfg, needed@, idx as int));
        if forall|i: int| 0 <= i < before.len() && #[trigger] before[i] ==> closed_at(*cfg, before, i) {
            assert forall|i: int| 0 <= i < needed@.len() && #[trigger] needed@[i] implies closed_at(*cfg, needed@, i) by {
                if before[i] {
                    assert(closed_at(*cfg, before, i));
                    let ds = names_of(cfg.values()[i].depends@);
                    assert forall|k: int| 0 <= k < ds.len() implies cfg.has(#[trigger] ds[k])
                        && needed@[cfg.keys().index_of(ds[k])] by {
                        assert(before[cfg.keys().index_of(ds[k])]);
                    }
                }
            }
            lemma_marks_hold_reach(*cfg, needed@, target@);
        }
    }
    Ok(())
}

/// Closed marks that include a target include everything it reaches.
proof fn lemma_marks_hold_reach(cfg: Config, marks: Seq<bool>, t: Seq<char>)
    requires
        strictly_sorted(cfg.keys()),
        cfg.keys().len() == cfg.values().len(),
        marks.len() == cfg.keys().len(),
        cfg.has(t),
        marks[cfg.keys().index_of(t)],
        forall|i: int| 0 <= i < marks.len() && #[trigger] marks[i] ==> closed_at(cfg, marks, i),
    ensures
        forall|i: int| 0 <= i < marks.len() && reachable(cfg, seq![t], cfg.keys()[i]) ==> #[trigger] marks[i],
{
    assert forall|i: int| 0 <= i < marks.len() && reachable(cfg, seq![t], cfg.keys()[i]) implies #[trigger] marks[i] by {
        let path = choose|path: Seq<Seq<char>>|
            #[trigger] is_dependency_path(cfg, path) && seq![t].contains(path[0]) && path.last() == cfg.keys()[i];
        assert forall|r: Seq<char>| #[trigger] seq![t].contains(r) implies cfg.has(r) && marks[cfg.keys().index_of(r)] by {
            assert(r == seq![t][0]);
        }
        lemma_closed_marks_cover(cfg, seq![t], marks, path);
        cfg.lemma_lookup_at(i);
    }
}

/// A vector of `n` entries, all `false`.
fn all_false(n: usize) -> (v: Vec<bool>)
    ensures
        v@.len() == n,
        forall|i: int| 0 <= i < n ==> !#[trigger] v@[i],
{
    let mut v: Vec<bool> = Vec::new();
    let mut i: usize = 0;
    while i < n
        invariant
            i <= n,
            v@.len() == i,
            forall|k: int| 0 <= k < i ==> !#[trigger] v@[k],
        decreases n - i,
    {
        v.push(false);
        i = i + 1;
    }
    v
}

/// Marks, by position in the configuration, every target that the requested
/// names need.
fn mark_closure(cfg: &Config, targets: &[String]) -> (r: Result<Vec<bool>, GraphError>)
    ensures
        match r {
            Ok(marks) => {
                &&& all_known(*cfg, names_of(targets@))
                &&& marks@.len() == cfg.keys().len()
                &&& forall|i: int| 0 <= i < marks@.len() ==> (#[trigger] marks@[i] <==> reachable(
                    *cfg,
                    names_of(targets@),
                    cfg.keys()[i],
                ))
                &&& forall|i: int| 0 <= i < marks@.len() && #[trigger] marks@[i] ==> closed_at(*cfg, marks@, i)
                &&& dfs_visit(*cfg, Set::empty(), names_of(targets@)) is Ok
            },
            Err(e) => e@ matches GraphErrorView::UnknownTarget(n) && reachable(
                *cfg,
                names_of(targets@),
                n,
            ) && !cfg.has(n) && dfs_visit(*cfg, Set::empty(), names_of(targets@)) == Err::<
                Set<Seq<char>>,
                Seq<char>,
            >(n),
        },
{
    let n = cfg.len();
    let ghost roots = names_of(targets@);
    let mut needed = all_false(n);
    proof {
        assert(marked_set(*cfg, needed@) =~= Set::<Seq<char>>::empty());
        assert(roots.skip(0) =~= roots);
    }
    let mut t: usize = 0;
    while t < targets.len()
        invariant
            needed@.len() == n,
            n == cfg.keys().len(),
            n == cfg.values().len(),
            strictly_sorted(cfg.keys()),
            roots == names_of(targets@),
            t <= targets@.len(),
            forall|i: int| 0 <= i < needed@.len() && #[trigger] needed@[i]
                ==> reachable(*cfg, roots, cfg.keys()[i]),
            forall|i: int| 0 <= i < needed@.len() && #[trigger] needed@[i] ==> closed_at(*cfg, needed@, i),
            forall|k: int| 0 <= k < t ==> cfg.has(#[trigger] roots[k]) && needed@[cfg.keys().index_of(roots[k])],
            dfs_visit(*cfg, Set::empty(), roots) == dfs_visit(*cfg, marked_set(*cfg, needed@), roots.skip(t as int)),
        decreases targets@.len() - t,
    {
        proof {
            lemma_root_reachable(*cfg, roots, t as int);
            assert(roots.skip(t as int)[0] == targets@[t as int]@);
            assert(roots.skip(t as int).drop_first() =~= roots.skip(t + 1));
            lemma_visit_cons(*cfg, marked_set(*cfg, needed@), roots.skip(t as int));
        }
        let ghost before = needed@;
        match collect_target(cfg, &targets[t], &mut needed, Ghost(roots)) {
            Ok(()) => {},
            Err(e) => {
                return Err(e);
            },
        }
        proof {
            assert forall|i: int| 0 <= i < needed@.len() && #[trigger] needed@[i] implies closed_at(*cfg, needed@, i) by {
                if before[i] {
                    assert(closed_at(*cfg, before, i));
                    let ds = names_of(cfg.values()[i].depends@);
                    assert forall|k: int| 0 <= k < ds.len() implies cfg.has(#[trigger] ds[k])
                        && needed@[cfg.keys().index_of(ds[k])] by {
                        assert(before[cfg.keys().index_of(ds[k])]);
                    }
                }
            }
            assert forall|k: int| 0 <= k < t + 1 implies cfg.has(#[trigger] roots[k])
                && needed@[cfg.keys().index_of(roots[k])] by {
                if k < t {
                    assert(before[cfg.keys().index_of(roots[k])]);
                } else {
                    assert(roots[k] == targets@[k]@);
                }
            }
        }
        t = t + 1;
    }
    proof {
        assert(roots.skip(t as int) =~= Seq::<Seq<char>>::empty());
        assert forall|r: Seq<char>| #[trigger] roots.contains(r) implies cfg.has(r) && needed@[cfg.keys().index_of(r)] by {
            let k = choose|k: int| 0 <= k < roots.len() && roots[k] == r;
            assert(cfg.has(roots[k]));
        }
        assert forall|nm: Seq<char>| reachable(*cfg, roots, nm) implies cfg.has(nm) by {
            let path = choose|path: Seq<Seq<char>>|
                #[trigger] is_dependency_path(*cfg, path) && roots.contains(path[0]) && path.last() == nm;
            lemma_closed_marks_cover(*cfg, roots, needed@, path);
        }
        assert forall|i: int| 0 <= i < needed@.len() implies (#[trigger] needed@[i] <==> reachable(*cfg, roots, cfg.keys()[i])) by {
            if reachable(*cfg, roots, cfg.keys()[i]) {
                let path = choose|path: Seq<Seq<char>>|
                    #[trigger] is_dependency_path(*cfg, path) && roots.contains(path[0]) && path.last() == cfg.keys()[i];
                lemma_closed_marks_cover(*cfg, roots, needed@, path);
                cfg.lemma_lookup_at(i);
            }
        }
    }
    Ok(needed)
}


/// The names of the marked targets, in ascending name order.
fn marked_names(cfg: &Config, marks: &Vec<bool>) -> (v: Vec<String>)
    requires
        marks@.len() == cfg.keys().len(),
    ensures
        strictly_sorted(names_of(v@)),
        forall|nm: Seq<char>| names_of(v@).contains(nm) <==> exists|i: int|
            0 <= i < marks@.len() && #[trigger] marks@[i] && cfg.keys()[i] == nm,
{
    let n = cfg.len();
    let mut out: Vec<String> = Vec::new();
    let ghost mut idxs: Seq<int> = Seq::empty();
    let mut i: usize = 0;
    while i < n
        invariant
            n == cfg.keys().len(),
            n == marks@.len(),
            strictly_sorted(cfg.keys()),
            i <= n,
            out@.len() == idxs.len(),
            forall|p: int| 0 <= p < idxs.len() ==> 0 <= #[trigger] idxs[p] < i && marks@[idxs[p]]
                && out@[p]@ == cfg.keys()[idxs[p]],
            forall|p: int, q: int| 0 <= p < q < idxs.len() ==> #[trigger] idxs[p] < #[trigger] idxs[q],
            forall|k: int| 0 <= k < i && #[trigger] marks@[k] ==> exists|p: int| 0 <= p < idxs.len() && idxs[p] == k,
        decreases n - i,
    {
        let ghost old_idxs = idxs;
        if marks[i] {
            out.push(cfg.key_at(i).clone());
            proof {
                idxs = idxs.push(i as int);
                assert(idxs[idxs.len() - 1] == i);
            }
        }
        proof {
            assert forall|k: int| 0 <= k < i + 1 && #[trigger] marks@[k] implies exists|p: int| 0 <= p < idxs.len() && idxs[p] == k by {
                if k < i {
                    let p = choose|p: int| 0 <= p < old_idxs.len() && old_idxs[p] == k;
                    assert(idxs[p] == old_idxs[p]);
                } else {
                    assert(idxs[idxs.len() - 1] == k);
                }
            }
        }
        i = i + 1;
    }
    proof {
        let names = names_of(out@);
        assert forall|p: int, q: int| 0 <= p < q < names.len() implies lex_lt(#[trigger] names[p], #[trigger] names[q]) by {
            assert(idxs[p] < idxs[q]);
        }
        assert forall|nm: Seq<char>| names.contains(nm) <==> exists|i: int|
            0 <= i < marks@.len() && #[trigger] marks@[i] && cfg.keys()[i] == nm by {
            if names.contains(nm) {
                let p = choose|p: int| 0 <= p < names.len() && names[p] == nm;
                assert(marks@[idxs[p]]);
            }
            if exists|i: int| 0 <= i < marks@.len() && #[trigger] marks@[i] && cfg.keys()[i] == nm {
                let i = choose|i: int| 0 <= i < marks@.len() && #[trigger] marks@[i] && cfg.keys()[i] == nm;
                let p = choose|p: int| 0 <= p < idxs.len() && idxs[p] == i;
                assert(names[p] == nm);
            }
        }
    }
    out
}

/// The targets that the names in `targets` need, themselves included, each
/// once and in ascending name order; fails on the first name, depth first,
/// that the configuration lacks.
pub fn expand_targets(config: &Config, targets: &[String]) -> (r: Result<Vec<String>, GraphError>)
    ensures
        r is Ok <==> all_known(*config, names_of(targets@)),
        r is Ok <==> dfs_visit(*config, Set::empty(), names_of(targets@)) is Ok,
        match r {
            Ok(names) => {
                &&& strictly_sorted(names_of(names@))
                &&& forall|nm: Seq<char>| #[trigger] names_of(names@).contains(nm) <==> reachable(
                    *config,
                    names_of(targets@),
                    nm,
                )
            },
            Err(e) => e@ matches GraphErrorView::UnknownTarget(n) && reachable(
                *config,
                names_of(targets@),
                n,
            ) && !config.has(n) && dfs_visit(*config, Set::empty(), names_of(targets@)) == Err::<
                Set<Seq<char>>,
                Seq<char>,
            >(n),
        },
{
    let marks = match mark_closure(config, targets) {
        Ok(m) => m,
        Err(e) => {
            return Err(e);
        },
    };
    let names = marked_names(config, &marks);
    proof {
        let roots = names_of(targets@);
        assert forall|nm: Seq<char>| #[trigger] names_of(names@).contains(nm) <==> reachable(*config, roots, nm) by {
            if reachable(*config, roots, nm) {
                assert(config.has(nm));
                let i = config.keys().index_of(nm);
                assert(marks@[i]);
            }
        }
    }
    Ok(names)
}

/// An ordering of names in which no name comes twice and every name comes
/// after the names it depends on.
pub open spec fn is_dependency_order(cfg: Config, order: Seq<Seq<char>>) -> bool {
    &&& order.no_duplicates()
    &&& forall|p: int, q: int|
        0 <= p < order.len() && 0 <= q < order.len() && depends_on(cfg, #[trigger] order[q], #[trigger] order[p])
            ==> p < q
}

/// The targets that `roots` need can all be found and put in a dependency order.
pub open spec fn can_order(cfg: Config, roots: Seq<Seq<char>>) -> bool {
    &&& all_known(cfg, roots)
    &&& exists|order: Seq<Seq<char>>|
        #[trigger] is_dependency_order(cfg, order) && forall|nm: Seq<char>|
            order.contains(nm) <==> reachable(cfg, roots, nm)
}

/// Where some needed targets each depend on another such target, an ordering
/// that holds all needed targets is no dependency order.
#[verifier::spinoff_prover]
proof fn lemma_stuck_blocks_order(
    cfg: Config,
    roots: Seq<Seq<char>>,
    stuck: spec_fn(int) -> bool,
    r: int,
    order: Seq<Seq<char>>,
)
    requires
        stuck(r),
        forall|i: int| #[trigger] stuck(i) ==> 0 <= i < cfg.keys().len() && reachable(cfg, roots, cfg.keys()[i]),
        forall|i: int| #[trigger] stuck(i) ==> exists|d: int| stuck(d) && depends_on(cfg, cfg.keys()[i], cfg.keys()[d]),
        forall|nm: Seq<char>| order.contains(nm) <==> reachable(cfg, roots, nm),
    ensures
        !is_dependency_order(cfg, order),
{
    if is_dependency_order(cfg, order) {
        let pred = |p: int| 0 <= p < order.len() && exists|i: int| #[trigger] stuck(i) && cfg.keys()[i] == order[p];
        assert(reachable(cfg, roots, cfg.keys()[r]));
        assert(order.contains(cfg.keys()[r]));
        let p0 = choose|p: int| 0 <= p < order.len() && order[p] == cfg.keys()[r];
        assert(pred(p0));
        let m = lemma_min_index(pred, p0);
        assert(pred(m));
        let i = choose|i: int| #[trigger] stuck(i) && cfg.keys()[i] == order[m];
        let d = choose|d: int| stuck(d) && depends_on(cfg, cfg.keys()[i], cfg.keys()[d]);
        assert(reachable(cfg, roots, cfg.keys()[d]));
        assert(order.contains(cfg.keys()[d]));
        let p = choose|p: int| 0 <= p < order.len() && order[p] == cfg.keys()[d];
        assert(pred(p));
        assert(depends_on(cfg, order[m], order[p]));
        assert(p < m);
    }
}

/// The least index at which a predicate holds, given one at which it does.
proof fn lemma_min_index(pred: spec_fn(int) -> bool, p: int) -> (m: int)
    requires
        p >= 0,
        pred(p),
    ensures
        0 <= m <= p,
        pred(m),
        forall|k: int| 0 <= k < m ==> !#[trigger] pred(k),
    decreases p,
{
    if exists|k: int| 0 <= k < p && #[trigger] pred(k) {
        let k = choose|k: int| 0 <= k < p && #[trigger] pred(k);
        lemma_min_index(pred, k)
    } else {
        p
    }
}

/// Some target that the request needs lies on a dependency cycle: a path of
/// at least one step that ends where it started.
pub open spec fn has_needed_cycle(cfg: Config, roots: Seq<Seq<char>>) -> bool {
    exists|cycle: Seq<Seq<char>>|
        #[trigger] is_dependency_path(cfg, cycle) && cycle.len() > 1 && cycle[0] == cycle.last()
            && reachable(cfg, roots, cycle[0])
}

/// Each stuck target depends on some stuck target.
#[verifier::opaque]
spec fn stuck_steps_on(cfg: Config, stuck: spec_fn(int) -> bool) -> bool {
    forall|i: int| #[trigger] stuck(i) ==> exists|d: int| stuck(d) && depends_on(cfg, cfg.keys()[i], cfg.keys()[d])
}

/// Starting at `r`, the position reached after `k` steps, each step going to
/// some stuck target that the current one depends on.
spec fn stuck_walk(cfg: Config, stuck: spec_fn(int) -> bool, r: int, k: nat) -> int
    decreases k,
{
    if k == 0 {
        r
    } else {
        let prev = stuck_walk(cfg, stuck, r, (k - 1) as nat);
        choose|d: int| stuck(d) && depends_on(cfg, cfg.keys()[prev], cfg.keys()[d])
    }
}

proof fn lemma_stuck_walk(cfg: Config, stuck: spec_fn(int) -> bool, r: int, k: nat)
    requires
        stuck(r),
        stuck_steps_on(cfg, stuck),
    ensures
        stuck(stuck_walk(cfg, stuck, r, k)),
        stuck(stuck_walk(cfg, stuck, r, (k + 1) as nat)),
        depends_on(
            cfg,
            cfg.keys()[stuck_walk(cfg, stuck, r, k)],
            cfg.keys()[stuck_walk(cfg, stuck, r, (k + 1) as nat)],
        ),
    decreases k,
{
    if k > 0 {
        lemma_stuck_walk(cfg, stuck, r, (k - 1) as nat);
    }
    let cur = stuck_walk(cfg, stuck, r, k);
    assert(stuck(cur));
    let next = stuck_walk(cfg, stuck, r, (k + 1) as nat);
    assert(stuck(next) && depends_on(cfg, cfg.keys()[cur], cfg.keys()[next])) by {
        assert(exists|d: int| stuck(d) && depends_on(cfg, cfg.keys()[cur], cfg.keys()[d])) by {
            reveal(stuck_steps_on);
        }
    }
}

/// A walk through stuck targets visits some position twice within as many
/// steps as there are targets.
proof fn lemma_walk_repeats(cfg: Config, stuck: spec_fn(int) -> bool, r: int) -> (ab: (nat, nat))
    requires
        stuck(r),
        forall|i: int| #[trigger] stuck(i) ==> 0 <= i < cfg.keys().len(),
        stuck_steps_on(cfg, stuck),
    ensures
        ab.0 < ab.1,
        stuck_walk(cfg, stuck, r, ab.0) == stuck_walk(cfg, stuck, r, ab.1),
{
    let n = cfg.keys().len();
    let s = Seq::new(n + 1, |k: int| stuck_walk(cfg, stuck, r, k as nat));
    assert forall|k: int| 0 <= k < s.len() implies 0 <= #[trigger] s[k] < n by {
        lemma_stuck_walk(cfg, stuck, r, k as nat);
    }
    if s.no_duplicates() {
        s.unique_seq_to_set();
        vstd::set_lib::lemma_int_range(0, n as int);
        assert(s.to_set().subset_of(vstd::set_lib::set_int_range(0, n as int))) by {
            assert forall|x: int| s.to_set().contains(x) implies vstd::set_lib::set_int_range(0, n as int).contains(x) by {
                let k = choose|k: int| 0 <= k < s.len() && s[k] == x;
                assert(0 <= s[k] < n);
            }
        }
        vstd::set_lib::lemma_len_subset(s.to_set(), vstd::set_lib::set_int_range(0, n as int));
        assert(false);
    }
    let (i, j) = choose|i: int, j: int| 0 <= i < s.len() && 0 <= j < s.len() && i != j && s[i] == s[j];
    if i < j {
        (i as nat, j as nat)
    } else {
        (j as nat, i as nat)
    }
}

/// The names met by a walk through stuck targets from step `a` to step `b`.
spec fn walk_names(cfg: Config, stuck: spec_fn(int) -> bool, r: int, a: nat, b: nat) -> Seq<Seq<char>> {
    Seq::new((b - a + 1) as nat, |k: int| cfg.keys()[stuck_walk(cfg, stuck, r, (a + k) as nat)])
}

proof fn lemma_walk_is_path(cfg: Config, stuck: spec_fn(int) -> bool, r: int, a: nat, b: nat)
    requires
        a < b,
        stuck(r),
        stuck_steps_on(cfg, stuck),
    ensures
        is_dependency_path(cfg, walk_names(cfg, stuck, r, a, b)),
{
    let cycle = walk_names(cfg, stuck, r, a, b);
    assert forall|i: int| 0 <= i < cycle.len() - 1 implies depends_on(cfg, #[trigger] cycle[i], cycle[i + 1]) by {
        lemma_stuck_walk(cfg, stuck, r, (a + i) as nat);
        assert(((a + i) as nat + 1) as nat == (a + (i + 1)) as nat);
    }
}

/// Where some needed targets each depend on another such target, a needed
/// target lies on a dependency cycle.
proof fn lemma_stuck_has_cycle(cfg: Config, roots: Seq<Seq<char>>, stuck: spec_fn(int) -> bool, r: int)
    requires
        stuck(r),
        forall|i: int| #[trigger] stuck(i) ==> 0 <= i < cfg.keys().len() && reachable(cfg, roots, cfg.keys()[i]),
        stuck_steps_on(cfg, stuck),
    ensures
        has_needed_cycle(cfg, roots),
{
    let (a, b) = lemma_walk_repeats(cfg, stuck, r);
    let cycle = walk_names(cfg, stuck, r, a, b);
    lemma_walk_is_path(cfg, stuck, r, a, b);
    lemma_stuck_walk(cfg, stuck, r, a);
    assert(cycle[0] == cfg.keys()[stuck_walk(cfg, stuck, r, a)]);
    assert(cycle.last() == cfg.keys()[stuck_walk(cfg, stuck, r, b)]);
    assert(reachable(cfg, roots, cycle[0]));
}

/// For each marked target, the positions of its dependencies, in the order written.
spec fn positions_ok(cfg: Config, marks: Seq<bool>, deps: Seq<Vec<usize>>) -> bool {
    &&& deps.len() == marks.len()
    &&& forall|i: int| 0 <= i < deps.len() ==> {
        &&& (#[trigger] marks[i] ==> deps[i]@.len() == cfg.values()[i].depends@.len()
            && forall|k: int| 0 <= k < deps[i]@.len() ==> #[trigger] deps[i]@[k] < marks.len()
                && marks[deps[i]@[k] as int]
                && cfg.keys()[deps[i]@[k] as int] == cfg.values()[i].depends@[k]@)
        &&& (!marks[i] ==> deps[i]@.len() == 0)
    }
}

fn dependency_positions(cfg: &Config, marks: &Vec<bool>) -> (deps: Vec<Vec<usize>>)
    requires
        marks@.len() == cfg.keys().len(),
        forall|i: int| 0 <= i < marks@.len() && #[trigger] marks@[i] ==> closed_at(*cfg, marks@, i),
    ensures
        positions_ok(*cfg, marks@, deps@),
{
    let n = cfg.len();
    let mut deps: Vec<Vec<usize>> = Vec::new();
    let mut i: usize = 0;
    while i < n
        invariant
            n == cfg.keys().len(),
            n == cfg.values().len(),
            n == marks@.len(),
            strictly_sorted(cfg.keys()),
            forall|i: int| 0 <= i < marks@.len() && #[trigger] marks@[i] ==> closed_at(*cfg, marks@, i),
            i <= n,
            deps@.len() == i,
            forall|a: int| 0 <= a < i ==> {
                &&& (#[trigger] marks@[a] ==> deps@[a]@.len() == cfg.values()[a].depends@.len()
                    && forall|k: int| 0 <= k < deps@[a]@.len() ==> #[trigger] deps@[a]@[k] < n
                        && marks@[deps@[a]@[k] as int]
                        && cfg.keys()[deps@[a]@[k] as int] == cfg.values()[a].depends@[k]@)
                &&& (!marks@[a] ==> deps@[a]@.len() == 0)
            },
        decreases n - i,
    {
        let mut row: Vec<usize> = Vec::new();
        if marks[i] {
            let t = cfg.value_at(i);
            let mut k: usize = 0;
            while k < t.depends.len()
                invariant
                    n == cfg.keys().len(),
                    n == marks@.len(),
                    i < n,
                    marks@[i as int],
                    *t == cfg.values()[i as int],
                    closed_at(*cfg, marks@, i as int),
                    k <= t.depends@.len(),
                    row@.len() == k,
                    forall|q: int| 0 <= q < k ==> #[trigger] row@[q] < n && marks@[row@[q] as int]
                        && cfg.keys()[row@[q] as int] == t.depends@[q]@,
                decreases t.depends@.len() - k,
            {
                let pos = cfg.position(t.depends[k].as_str());
                proof {
                    assert(names_of(t.depends@)[k as int] == t.depends@[k as int]@);
                }
                match pos {
                    Some(p) => {
                        row.push(p);
                    },
                    None => {
                        proof {
                            assert(cfg.has(names_of(t.depends@)[k as int]));
                        }
                        row.push(0);
                    },
                }
                k = k + 1;
            }
        }
        deps.push(row);
        i = i + 1;
    }
    deps
}

/// For each target, the marked targets that depend on it, listed once per
/// mention, in name order of the dependents.
spec fn dependents_ok(marks: Seq<bool>, deps: Seq<Vec<usize>>, out: Seq<Vec<usize>>) -> bool {
    &&& out.len() == marks.len()
    &&& forall|x: int, j: int| 0 <= x < out.len() && 0 <= j < out[x]@.len() ==> {
        let c = #[trigger] out[x]@[j];
        &&& c < marks.len()
        &&& marks[c as int]
        &&& deps[c as int]@.contains(x as usize)
    }
    &&& forall|x: int, c: int| 0 <= x < out.len() && 0 <= c < marks.len() && marks[c] && #[trigger] deps[c]@.contains(x as usize)
        ==> #[trigger] out[x]@.contains(c as usize)
}

/// Each list holds its entries in ascending order.
spec fn rows_sorted(out: Seq<Vec<usize>>) -> bool {
    forall|x: int, a: int, b: int| 0 <= x < out.len() && 0 <= a < b < out[x]@.len() ==> #[trigger] out[x]@[a]
        <= #[trigger] out[x]@[b]
}

fn dependents(marks: &Vec<bool>, deps: &Vec<Vec<usize>>) -> (out: Vec<Vec<usize>>)
    requires
        deps@.len() == marks@.len(),
        forall|i: int, k: int| 0 <= i < deps@.len() && 0 <= k < deps@[i]@.len() ==> #[trigger] deps@[i]@[k] < marks@.len(),
    ensures
        dependents_ok(marks@, deps@, out@),
        rows_sorted(out@),
{
    let n = marks.len();
    let mut out: Vec<Vec<usize>> = Vec::new();
    let mut x: usize = 0;
    while x < n
        invariant
            x <= n,
            n == marks@.len(),
            out@.len() == x,
            forall|a: int| 0 <= a < x ==> #[trigger] out@[a]@.len() == 0,
        decreases n - x,
    {
        out.push(Vec::new());
        x = x + 1;
    }
    let mut i: usize = 0;
    while i < n
        invariant
            i <= n,
            n == marks@.len(),
            deps@.len() == n,
            forall|i: int, k: int| 0 <= i < deps@.len() && 0 <= k < deps@[i]@.len() ==> #[trigger] deps@[i]@[k] < n,
            out@.len() == n,
            forall|x: int, j: int| 0 <= x < out@.len() && 0 <= j < out@[x]@.len() ==> {
                let c = #[trigger] out@[x]@[j];
                &&& c < i
                &&& marks@[c as int]
                &&& deps@[c as int]@.contains(x as usize)
            },
            forall|x: int, c: int| 0 <= x < n && 0 <= c < i && marks@[c] && #[trigger] deps@[c]@.contains(x as usize)
                ==> #[trigger] out@[x]@.contains(c as usize),
            rows_sorted(out@),
        decreases n - i,
    {
        if marks[i] {
            let row = &deps[i];
            let mut k: usize = 0;
            while k < row.len()
                invariant
                    i < n,
                    n == marks@.len(),
                    deps@.len() == n,
                    marks@[i as int],
                    *row == deps@[i as int],
                    forall|i: int, k: int| 0 <= i < deps@.len() && 0 <= k < deps@[i]@.len() ==> #[trigger] deps@[i]@[k] < n,
                    k <= row@.len(),
                    out@.len() == n,
                    forall|x: int, j: int| 0 <= x < out@.len() && 0 <= j < out@[x]@.len() ==> {
                        let c = #[trigger] out@[x]@[j];
                        &&& c <= i
                        &&& marks@[c as int]
                        &&& deps@[c as int]@.contains(x as usize)
                    },
                    forall|x: int, c: int| 0 <= x < n && 0 <= c < i && marks@[c] && #[trigger] deps@[c]@.contains(x as usize)
                        ==> #[trigger] out@[x]@.contains(c as usize),
                    forall|q: int| 0 <= q < k ==> #[trigger] out@[row@[q] as int]@.contains(i),
                    rows_sorted(out@),
                decreases row@.len() - k,
            {
                let d = row[k];
                proof {
                    assert(deps@[i as int]@[k as int] == d);
                }
                let ghost before = out@;
                let mut list = vec_replace(&mut out, d, Vec::new());
                list.push(i);
                vec_replace(&mut out, d, list);
                proof {
                    assert(deps@[i as int]@.contains(d));
                    assert(out@[d as int]@[out@[d as int]@.len() - 1] == i);
                    assert forall|x: int, a: int, b: int| 0 <= x < out@.len() && 0 <= a < b < out@[x]@.len()
                        implies #[trigger] out@[x]@[a] <= #[trigger] out@[x]@[b] by {
                        if x != d {
                            assert(out@[x] == before[x]);
                        } else if b < before[x]@.len() {
                            assert(out@[x]@[a] == before[x]@[a]);
                            assert(out@[x]@[b] == before[x]@[b]);
                        } else {
                            assert(out@[x]@[a] == before[x]@[a]);
                        }
                    }
                    assert forall|x: int, j: int| 0 <= x < out@.len() && 0 <= j < out@[x]@.len() implies {
                        let c = #[trigger] out@[x]@[j];
                        &&& c <= i
                        &&& marks@[c as int]
                        &&& deps@[c as int]@.contains(x as usize)
                    } by {
                        if x != d {
                            assert(out@[x] == before[x]);
                        } else if j < before[x]@.len() {
                            assert(out@[x]@[j] == before[x]@[j]);
                        }
                    }
                    assert forall|x: int, c: int| 0 <= x < n && 0 <= c < i && marks@[c] && #[trigger] deps@[c]@.contains(x as usize)
                        implies #[trigger] out@[x]@.contains(c as usize) by {
                        assert(before[x]@.contains(c as usize));
                        let j = choose|j: int| 0 <= j < before[x]@.len() && before[x]@[j] == c as usize;
                        if x == d {
                            assert(out@[x]@[j] == before[x]@[j]);
                        } else {
                            assert(out@[x] == before[x]);
                        }
                    }
                    assert forall|q: int| 0 <= q < k + 1 implies #[trigger] out@[row@[q] as int]@.contains(i) by {
                        if q < k {
                            let y = row@[q] as int;
                            assert(before[y]@.contains(i));
                            let j = choose|j: int| 0 <= j < before[y]@.len() && before[y]@[j] == i;
                            if y == d {
                                assert(out@[y]@[j] == before[y]@[j]);
                            } else {
                                assert(out@[y] == before[y]);
                            }
                        } else {
                            assert(out@[d as int]@[out@[d as int]@.len() - 1] == i);
                        }
                    }
                }
                k = k + 1;
            }
            proof {
                assert forall|x: int, c: int| 0 <= x < n && 0 <= c < i + 1 && marks@[c] && #[trigger] deps@[c]@.contains(x as usize)
                    implies #[trigger] out@[x]@.contains(c as usize) by {
                    if c == i {
                        let q = choose|q: int| 0 <= q < row@.len() && row@[q] == x as usize;
                        assert(out@[row@[q] as int]@.contains(i));
                    }
                }
            }
        }
        i = i + 1;
    }
    out
}


/// Every dependency of target `i` is processed.
spec fn deps_done(deps: Seq<Vec<usize>>, done: Seq<bool>, i: int) -> bool {
    forall|k: int| 0 <= k < deps[i]@.len() ==> done[#[trigger] deps[i]@[k] as int]
}

/// The queue state of the ordering: `queue[..head]` is processed, every
/// queued target is marked and queued once, and a target is queued after
/// every dependency of it.
spec fn queue_ok(
    marks: Seq<bool>,
    deps: Seq<Vec<usize>>,
    queue: Seq<usize>,
    head: int,
    done: Seq<bool>,
    queued: Seq<bool>,
) -> bool {
    let n = marks.len();
    &&& deps.len() == n
    &&& forall|i: int, k: int| 0 <= i < n && 0 <= k < deps[i]@.len() ==> #[trigger] deps[i]@[k] < n
    &&& done.len() == n
    &&& queued.len() == n
    &&& 0 <= head <= queue.len()
    &&& forall|p: int| 0 <= p < queue.len() ==> #[trigger] queue[p] < n && marks[queue[p] as int] && queued[queue[p] as int]
    &&& forall|i: int| 0 <= i < n && #[trigger] queued[i] ==> exists|p: int| 0 <= p < queue.len() && queue[p] == i
    &&& forall|p: int| 0 <= p < head ==> done[#[trigger] queue[p] as int]
    &&& forall|i: int| 0 <= i < n && #[trigger] done[i] ==> exists|p: int| 0 <= p < head && queue[p] == i
    &&& forall|p: int, q: int| 0 <= p < q < queue.len() ==> #[trigger] queue[p] != #[trigger] queue[q]
    &&& forall|q: int, k: int| 0 <= q < queue.len() && 0 <= k < deps[queue[q] as int]@.len()
        ==> #[trigger] dep_earlier(deps, queue, q, k)
}

/// The `k`-th dependency of the target at position `q` stands earlier in the queue.
spec fn dep_earlier(deps: Seq<Vec<usize>>, queue: Seq<usize>, q: int, k: int) -> bool {
    exists|p: int| 0 <= p < q && queue[p] == deps[queue[q] as int]@[k]
}

/// Appending a marked, unqueued target whose dependencies are all processed
/// keeps the queue state.
proof fn lemma_queue_push(
    marks: Seq<bool>,
    deps: Seq<Vec<usize>>,
    q0: Seq<usize>,
    head: int,
    done: Seq<bool>,
    u0: Seq<bool>,
    c: usize,
)
    requires
        queue_ok(marks, deps, q0, head, done, u0),
        c < marks.len(),
        marks[c as int],
        !u0[c as int],
        deps_done(deps, done, c as int),
    ensures
        queue_ok(marks, deps, q0.push(c), head, done, u0.update(c as int, true)),
{
    let n = marks.len();
    let q = q0.push(c);
    let u = u0.update(c as int, true);
    assert(q[q.len() - 1] == c);
    assert forall|p: int| 0 <= p < q.len() implies #[trigger] q[p] < n && marks[q[p] as int] && u[q[p] as int] by {
        if p < q0.len() {
            assert(q[p] == q0[p]);
        }
    }
    assert forall|i: int| 0 <= i < n && #[trigger] u[i] implies exists|p: int| 0 <= p < q.len() && q[p] == i by {
        if i != c {
            assert(u0[i]);
            let p = choose|p: int| 0 <= p < q0.len() && q0[p] == i;
            assert(q[p] == q0[p]);
        } else {
            assert(q[q.len() - 1] == i);
        }
    }
    assert forall|p: int| 0 <= p < head implies done[#[trigger] q[p] as int] by {
        assert(q[p] == q0[p]);
        assert(done[q0[p] as int]);
    }
    assert forall|i: int| 0 <= i < n && #[trigger] done[i] implies exists|p: int| 0 <= p < head && q[p] == i by {
        let p = choose|p: int| 0 <= p < head && q0[p] == i;
        assert(q[p] == q0[p]);
    }
    assert forall|p: int, r: int| 0 <= p < r < q.len() implies #[trigger] q[p] != #[trigger] q[r] by {
        if r < q0.len() {
            assert(q[p] == q0[p]);
            assert(q[r] == q0[r]);
        } else {
            assert(q[p] == q0[p]);
            assert(u0[q0[p] as int]);
        }
    }
    assert forall|r: int, k: int| 0 <= r < q.len() && 0 <= k < deps[q[r] as int]@.len() implies #[trigger] dep_earlier(deps, q, r, k) by {
        if r < q0.len() {
            assert(q[r] == q0[r]);
            assert(0 <= k < deps[q0[r] as int]@.len());
            let dk = deps[q0[r] as int]@[k];
            assert(dep_earlier(deps, q0, r, k));
            assert(exists|p: int| 0 <= p < r && q0[p] == dk);
            let p = choose|p: int| 0 <= p < r && q0[p] == dk;
            assert(q[p] == q0[p]);
            assert(0 <= p < r && q[p] == deps[q[r] as int]@[k]);
        } else {
            assert(q[r] == c);
            let d = deps[c as int]@[k];
            assert(done[d as int]);
            let di = d as int;
            assert(0 <= di < n);
            let p = choose|p: int| 0 <= p < head && q0[p] == di;
            assert(q[p] == q0[p]);
            assert(p < r);
        }
    }
}

/// Taking the target at `head` as processed keeps the queue state.
proof fn lemma_queue_advance(
    marks: Seq<bool>,
    deps: Seq<Vec<usize>>,
    q: Seq<usize>,
    head: int,
    d0: Seq<bool>,
    u: Seq<bool>,
)
    requires
        queue_ok(marks, deps, q, head, d0, u),
        head < q.len(),
    ensures
        !d0[q[head] as int],
        queue_ok(marks, deps, q, head + 1, d0.update(q[head] as int, true), u),
{
    let n = marks.len();
    let x = q[head];
    let d = d0.update(x as int, true);
    if d0[x as int] {
        let xi = x as int;
        let p = choose|p: int| 0 <= p < head && q[p] == xi;
        assert(q[p] != q[head]);
    }
    assert forall|p: int| 0 <= p < head + 1 implies d[#[trigger] q[p] as int] by {
        if p < head {
            assert(d0[q[p] as int]);
        }
    }
    assert forall|i: int| 0 <= i < n && #[trigger] d[i] implies exists|p: int| 0 <= p < head + 1 && q[p] == i by {
        if i != x as int {
            assert(d0[i]);
            let p = choose|p: int| 0 <= p < head && q[p] == i;
            assert(0 <= p < head + 1 && q[p] == i);
        } else {
            assert(q[head] == i);
        }
    }
}

/// The last position in the queue of a dependency of target `t`, or -1.
spec fn rel_at(deps: Seq<Vec<usize>>, q: Seq<usize>, t: int) -> int
    decreases q.len(),
{
    if q.len() == 0 {
        -1
    } else if deps[t]@.contains(q.last()) {
        q.len() - 1
    } else {
        rel_at(deps, q.drop_last(), t)
    }
}

/// The entry at `p` comes before the entry at `r` by release position, then
/// by position in the configuration.
spec fn idx_before(deps: Seq<Vec<usize>>, q: Seq<usize>, p: int, r: int) -> bool {
    let a = rel_at(deps, q, q[p] as int);
    let b = rel_at(deps, q, q[r] as int);
    a < b || (a == b && q[p] < q[r])
}

/// The queue is in start order.
spec fn queue_sorted(deps: Seq<Vec<usize>>, q: Seq<usize>) -> bool {
    forall|p: int, r: int| 0 <= p < r < q.len() ==> #[trigger] idx_before(deps, q, p, r)
}

/// Where the queue from `h` on holds no dependency of `t`, its release
/// position is below `h`, and exactly `h - 1` where the entry there is one.
proof fn lemma_rel_bound(deps: Seq<Vec<usize>>, q: Seq<usize>, t: int, h: int)
    requires
        0 <= h <= q.len(),
        forall|p: int| h <= p < q.len() ==> !deps[t]@.contains(#[trigger] q[p]),
    ensures
        -1 <= rel_at(deps, q, t) < h,
        h > 0 && deps[t]@.contains(q[h - 1]) ==> rel_at(deps, q, t) == h - 1,
    decreases q.len(),
{
    if q.len() > h {
        assert(!deps[t]@.contains(q[q.len() - 1]));
        let q2 = q.drop_last();
        assert forall|p: int| h <= p < q2.len() implies !deps[t]@.contains(#[trigger] q2[p]) by {
            assert(q2[p] == q[p]);
        }
        lemma_rel_bound(deps, q2, t, h);
        if h > 0 {
            assert(q2[h - 1] == q[h - 1]);
        }
    } else if q.len() > 0 {
        let q2 = q.drop_last();
        lemma_rel_bound(deps, q2, t, q2.len() as int);
    }
}

/// Appending an entry that `t` does not depend on keeps `t`'s release position.
proof fn lemma_rel_push_other(deps: Seq<Vec<usize>>, q: Seq<usize>, t: int, c: usize)
    requires
        !deps[t]@.contains(c),
    ensures
        rel_at(deps, q.push(c), t) == rel_at(deps, q, t),
{
    assert(q.push(c).drop_last() =~= q);
}

/// A processed target stands before `head`, so entries from `head` on are unprocessed.
proof fn lemma_unprocessed_tail(
    marks: Seq<bool>,
    deps: Seq<Vec<usize>>,
    q: Seq<usize>,
    head: int,
    done: Seq<bool>,
    u: Seq<bool>,
    p: int,
)
    requires
        queue_ok(marks, deps, q, head, done, u),
        head <= p < q.len(),
    ensures
        !done[q[p] as int],
{
    if done[q[p] as int] {
        let qi = q[p] as int;
        let p2 = choose|p2: int| 0 <= p2 < head && q[p2] == qi;
        assert(q[p2] != q[p]);
    }
}

/// Appending a ready target to a queue in start order: it is released by the
/// target just processed, so it goes after everything released earlier and
/// after the targets released together with it that have lower positions.
proof fn lemma_sorted_push(
    marks: Seq<bool>,
    deps: Seq<Vec<usize>>,
    q0: Seq<usize>,
    head: int,
    done: Seq<bool>,
    u0: Seq<bool>,
    c: usize,
    len0: int,
)
    requires
        queue_ok(marks, deps, q0, head, done, u0),
        1 <= head,
        c < marks.len(),
        !u0[c as int],
        deps_done(deps, done, c as int),
        deps[c as int]@.contains(q0[head - 1]),
        queue_sorted(deps, q0),
        0 <= len0 <= q0.len(),
        forall|p: int| 0 <= p < len0 ==> rel_at(deps, q0, #[trigger] q0[p] as int) < head - 1,
        forall|p: int| len0 <= p < q0.len() ==> rel_at(deps, q0, #[trigger] q0[p] as int) == head - 1 && q0[p] < c,
        forall|p: int| 0 <= p < q0.len() ==> deps_done(deps, done, #[trigger] q0[p] as int),
    ensures
        queue_sorted(deps, q0.push(c)),
        forall|p: int| 0 <= p < len0 ==> rel_at(deps, q0.push(c), #[trigger] q0.push(c)[p] as int) < head - 1,
        forall|p: int| len0 <= p < q0.len() + 1 ==> rel_at(deps, q0.push(c), #[trigger] q0.push(c)[p] as int)
            == head - 1,
        forall|p: int| 0 <= p < q0.len() + 1 ==> deps_done(deps, done, #[trigger] q0.push(c)[p] as int),
{
    let q = q0.push(c);
    let n = marks.len();
    // `c` is not processed, so no queued target depends on it, nor does `c` itself
    if done[c as int] {
        let ci = c as int;
        let p = choose|p: int| 0 <= p < head && q0[p] == ci;
        assert(u0[q0[p] as int]);
    }
    assert forall|t: int| 0 <= t < n && deps_done(deps, done, t) implies !deps[t]@.contains(c) by {
        if deps[t]@.contains(c) {
            let k = choose|k: int| 0 <= k < deps[t]@.len() && deps[t]@[k] == c;
            assert(done[deps[t]@[k] as int]);
        }
    }
    assert forall|p: int| 0 <= p < q0.len() implies rel_at(deps, q, #[trigger] q0[p] as int) == rel_at(deps, q0, q0[p] as int) by {
        lemma_rel_push_other(deps, q0, q0[p] as int, c);
    }
    lemma_rel_push_other(deps, q0, c as int, c);
    assert forall|p: int| head <= p < q0.len() implies !deps[c as int]@.contains(#[trigger] q0[p]) by {
        lemma_unprocessed_tail(marks, deps, q0, head, done, u0, p);
        if deps[c as int]@.contains(q0[p]) {
            let k = choose|k: int| 0 <= k < deps[c as int]@.len() && deps[c as int]@[k] == q0[p];
            assert(done[deps[c as int]@[k] as int]);
        }
    }
    lemma_rel_bound(deps, q0, c as int, head);
    assert(rel_at(deps, q, c as int) == head - 1);
    assert(q[q0.len() as int] == c);
    assert forall|p: int, r: int| 0 <= p < r < q.len() implies #[trigger] idx_before(deps, q, p, r) by {
        assert(q[p] == q0[p]);
        if r < q0.len() {
            assert(q[r] == q0[r]);
            assert(idx_before(deps, q0, p, r));
        } else {
            assert(q[r] == c);
        }
    }
    assert forall|p: int| 0 <= p < len0 implies rel_at(deps, q, #[trigger] q[p] as int) < head - 1 by {
        assert(q[p] == q0[p]);
    }
    assert forall|p: int| len0 <= p < q0.len() + 1 implies rel_at(deps, q, #[trigger] q[p] as int) == head - 1 by {
        if p < q0.len() {
            assert(q[p] == q0[p]);
        }
    }
    assert forall|p: int| 0 <= p < q0.len() + 1 implies deps_done(deps, done, #[trigger] q[p] as int) by {
        if p < q0.len() {
            assert(q[p] == q0[p]);
        }
    }
}

fn all_processed(ds: &Vec<usize>, done: &Vec<bool>) -> (r: bool)
    requires
        forall|k: int| 0 <= k < ds@.len() ==> #[trigger] ds@[k] < done@.len(),
    ensures
        r == forall|k: int| 0 <= k < ds@.len() ==> done@[#[trigger] ds@[k] as int],
{
    let mut k: usize = 0;
    while k < ds.len()
        invariant
            k <= ds@.len(),
            forall|k: int| 0 <= k < ds@.len() ==> #[trigger] ds@[k] < done@.len(),
            forall|q: int| 0 <= q < k ==> done@[#[trigger] ds@[q] as int],
        decreases ds@.len() - k,
    {
        if !done[ds[k]] {
            return false;
        }
        k = k + 1;
    }
    true
}

/// Queues each dependent of the just processed target `x` whose
/// dependencies are now all processed, in the order listed.
fn release_dependents(
    x: usize,
    children: &Vec<usize>,
    marks: &Vec<bool>,
    deps: &Vec<Vec<usize>>,
    queue: &mut Vec<usize>,
    queued: &mut Vec<bool>,
    done: &Vec<bool>,
    head: usize,
)
    requires
        marks@.len() == deps@.len(),
        x < marks@.len(),
        forall|i: int, k: int| 0 <= i < deps@.len() && 0 <= k < deps@[i]@.len() ==> #[trigger] deps@[i]@[k] < marks@.len(),
        forall|j: int| 0 <= j < children@.len() ==> {
            let c = #[trigger] children@[j];
            c < marks@.len() && marks@[c as int] && deps@[c as int]@.contains(x)
        },
        queue_ok(marks@, deps@, old(queue)@, head as int, done@, old(queued)@),
        forall|i: int| 0 <= i < marks@.len() && marks@[i] && #[trigger] deps_done(deps@, done@, i)
            ==> old(queued)@[i] || deps@[i]@.contains(x),
        forall|a: int, b: int| 0 <= a < b < children@.len() ==> #[trigger] children@[a] <= #[trigger] children@[b],
        1 <= head <= old(queue)@.len(),
        old(queue)@[head - 1] == x,
        queue_sorted(deps@, old(queue)@),
        forall|p: int| 0 <= p < old(queue)@.len() ==> rel_at(deps@, old(queue)@, #[trigger] old(queue)@[p] as int) < head - 1,
        forall|p: int| 0 <= p < old(queue)@.len() ==> deps_done(deps@, done@, #[trigger] old(queue)@[p] as int),
    ensures
        queue_ok(marks@, deps@, final(queue)@, head as int, done@, final(queued)@),
        forall|i: int| 0 <= i < marks@.len() && marks@[i] && #[trigger] deps_done(deps@, done@, i)
            ==> final(queued)@[i] || (deps@[i]@.contains(x) && !children@.contains(i as usize)),
        old(queue)@.len() <= final(queue)@.len(),
        queue_sorted(deps@, final(queue)@),
        forall|p: int| 0 <= p < final(queue)@.len() ==> rel_at(deps@, final(queue)@, #[trigger] final(queue)@[p] as int) < head,
        forall|p: int| 0 <= p < final(queue)@.len() ==> deps_done(deps@, done@, #[trigger] final(queue)@[p] as int),
{
    let ghost len0 = queue@.len() as int;
    let n = marks.len();
    let mut j: usize = 0;
    while j < children.len()
        invariant
            n == marks@.len(),
            n == deps@.len(),
            x < n,
            forall|i: int, k: int| 0 <= i < deps@.len() && 0 <= k < deps@[i]@.len() ==> #[trigger] deps@[i]@[k] < n,
            forall|j: int| 0 <= j < children@.len() ==> {
                let c = #[trigger] children@[j];
                c < n && marks@[c as int] && deps@[c as int]@.contains(x)
            },
            j <= children@.len(),
            queue_ok(marks@, deps@, queue@, head as int, done@, queued@),
            forall|i: int| 0 <= i < n && marks@[i] && #[trigger] deps_done(deps@, done@, i)
                ==> queued@[i] || (deps@[i]@.contains(x) && !children@.take(j as int).contains(i as usize)),
            old(queue)@.len() <= queue@.len(),
            len0 == old(queue)@.len(),
            forall|a: int, b: int| 0 <= a < b < children@.len() ==> #[trigger] children@[a] <= #[trigger] children@[b],
            1 <= head <= len0,
            queue@[head - 1] == x,
            queue_sorted(deps@, queue@),
            forall|p: int| 0 <= p < len0 ==> rel_at(deps@, queue@, #[trigger] queue@[p] as int) < head - 1,
            forall|p: int| len0 <= p < queue@.len() ==> rel_at(deps@, queue@, #[trigger] queue@[p] as int) == head - 1
                && exists|t: int| 0 <= t < j && children@[t] == queue@[p],
            forall|p: int| 0 <= p < queue@.len() ==> deps_done(deps@, done@, #[trigger] queue@[p] as int),
        decreases children@.len() - j,
    {
        let c = children[j];
        let ready = !queued[c] && all_processed(&deps[c], done);
        let ghost q0 = queue@;
        let ghost u0 = queued@;
        if ready {
            proof {
                lemma_queue_push(marks@, deps@, q0, head as int, done@, u0, c);
                assert forall|p: int| len0 <= p < q0.len() implies rel_at(deps@, q0, #[trigger] q0[p] as int) == head - 1
                    && q0[p] < c by {
                    let t = choose|t: int| 0 <= t < j && children@[t] == q0[p];
                    assert(children@[t] <= children@[j as int]);
                    assert(u0[q0[p] as int]);
                }
                assert(deps_done(deps@, done@, c as int));
                lemma_sorted_push(marks@, deps@, q0, head as int, done@, u0, c, len0);
            }
            queue.push(c);
            queued.set(c, true);
            proof {
                assert(queue@ == q0.push(c));
                assert forall|p: int| len0 <= p < queue@.len() implies rel_at(deps@, queue@, #[trigger] queue@[p] as int) == head - 1
                    && exists|t: int| 0 <= t < j + 1 && children@[t] == queue@[p] by {
                    if p < q0.len() {
                        assert(queue@[p] == q0[p]);
                        let t = choose|t: int| 0 <= t < j && children@[t] == q0[p];
                    } else {
                        assert(children@[j as int] == queue@[p]);
                    }
                }
            }
        }
        proof {
            assert forall|i: int| 0 <= i < n && marks@[i] && #[trigger] deps_done(deps@, done@, i)
                implies queued@[i] || (deps@[i]@.contains(x) && !children@.take(j + 1).contains(i as usize)) by {
                if i == c as int {
                    if !u0[i] {
                        assert(deps_done(deps@, done@, i));
                    }
                } else {
                    if children@.take(j + 1).contains(i as usize) {
                        let t = choose|t: int| 0 <= t < j + 1 && #[trigger] children@.take(j + 1)[t] == i as usize;
                        assert(t != j);
                        assert(children@.take(j as int)[t] == i as usize);
                    }
                }
            }
        }
        j = j + 1;
    }
    proof {
        assert(children@.take(j as int) =~= children@);
        assert forall|p: int| 0 <= p < queue@.len() implies rel_at(deps@, queue@, #[trigger] queue@[p] as int) < head by {
            if p >= len0 {
                assert(rel_at(deps@, queue@, queue@[p] as int) == head - 1);
            }
        }
    }
}

/// A needed target left unprocessed once the queue runs dry leaves no start
/// order, and lies on or after a dependency cycle of needed targets.
#[verifier::spinoff_prover]
proof fn lemma_unfinished_blocks(
    config: Config,
    roots: Seq<Seq<char>>,
    marks: Seq<bool>,
    deps: Seq<Vec<usize>>,
    queue: Seq<usize>,
    done: Seq<bool>,
    queued: Seq<bool>,
    k: int,
)
    requires
        marks.len() == config.keys().len(),
        config.keys().len() == config.values().len(),
        strictly_sorted(config.keys()),
        positions_ok(config, marks, deps),
        queue_ok(marks, deps, queue, queue.len() as int, done, queued),
        forall|a: int| 0 <= a < marks.len() && marks[a] && #[trigger] deps_done(deps, done, a) ==> queued[a],
        forall|i: int| 0 <= i < marks.len() ==> (#[trigger] marks[i] <==> reachable(config, roots, config.keys()[i])),
        0 <= k < marks.len(),
        marks[k],
        !done[k],
    ensures
        !can_order(config, roots),
        has_needed_cycle(config, roots),
{
    let n = marks.len();
    let q = queue;
    let stuck = |a: int| 0 <= a < n && marks[a] && !done[a];
    assert forall|a: int| #[trigger] stuck(a) implies exists|d: int| stuck(d) && depends_on(config, config.keys()[a], config.keys()[d]) by {
        if deps_done(deps, done, a) {
            let p = choose|p: int| 0 <= p < q.len() && q[p] == a;
            assert(done[q[p] as int]);
        }
        let j = choose|j: int| 0 <= j < deps[a]@.len() && !done[#[trigger] deps[a]@[j] as int];
        let d = deps[a]@[j] as int;
        config.lemma_lookup_at(a);
        assert(names_of(config.values()[a].depends@)[j] == config.keys()[d]);
        assert(stuck(d));
    }
    assert forall|order: Seq<Seq<char>>| #[trigger] is_dependency_order(config, order) implies !(forall|nm: Seq<char>|
        order.contains(nm) <==> reachable(config, roots, nm)) by {
        if forall|nm: Seq<char>| order.contains(nm) <==> reachable(config, roots, nm) {
            lemma_stuck_blocks_order(config, roots, stuck, k, order);
        }
    }
    assert(stuck_steps_on(config, stuck)) by {
        reveal(stuck_steps_on);
    }
    lemma_stuck_has_cycle(config, roots, stuck, k);
}

/// For a marked target, its dependency positions are exactly the positions of
/// the names it depends on.
proof fn lemma_dep_position_iff(cfg: Config, marks: Seq<bool>, deps: Seq<Vec<usize>>, t: int, d: usize)
    requires
        strictly_sorted(cfg.keys()),
        cfg.keys().len() == cfg.values().len(),
        positions_ok(cfg, marks, deps),
        0 <= t < marks.len(),
        marks[t],
        d < marks.len(),
        marks.len() == cfg.keys().len(),
    ensures
        deps[t]@.contains(d) <==> depends_on(cfg, cfg.keys()[t], cfg.keys()[d as int]),
{
    cfg.lemma_lookup_at(t);
    let ds = names_of(cfg.values()[t].depends@);
    assert(deps_of(cfg, cfg.keys()[t]) == ds);
    if deps[t]@.contains(d) {
        let k = choose|k: int| 0 <= k < deps[t]@.len() && deps[t]@[k] == d;
        assert(ds[k] == cfg.values()[t].depends@[k]@);
        assert(cfg.keys()[deps[t]@[k] as int] == cfg.values()[t].depends@[k]@);
        assert(ds[k] == cfg.keys()[d as int]);
    }
    if depends_on(cfg, cfg.keys()[t], cfg.keys()[d as int]) {
        let k = choose|k: int| 0 <= k < ds.len() && ds[k] == cfg.keys()[d as int];
        let e = deps[t]@[k] as int;
        assert(ds[k] == cfg.values()[t].depends@[k]@);
        assert(cfg.keys()[e] == ds[k]);
        if e != d as int {
            lemma_sorted_distinct(cfg.keys(), e, d as int);
        }
        assert(deps[t]@[k] == d);
    }
}

proof fn lemma_rel_names(
    cfg: Config,
    marks: Seq<bool>,
    deps: Seq<Vec<usize>>,
    q: Seq<usize>,
    ord: Seq<Seq<char>>,
    t: int,
    k: int,
)
    requires
        strictly_sorted(cfg.keys()),
        cfg.keys().len() == cfg.values().len(),
        marks.len() == cfg.keys().len(),
        positions_ok(cfg, marks, deps),
        0 <= t < marks.len(),
        marks[t],
        ord.len() == q.len(),
        forall|p: int| 0 <= p < q.len() ==> #[trigger] q[p] < marks.len() && ord[p] == cfg.keys()[q[p] as int],
        0 <= k <= q.len(),
    ensures
        rel_at(deps, q.take(k), t) == release_at(cfg, ord.take(k), cfg.keys()[t]),
    decreases k,
{
    if k > 0 {
        lemma_rel_names(cfg, marks, deps, q, ord, t, k - 1);
        assert(q.take(k).drop_last() =~= q.take(k - 1));
        assert(ord.take(k).drop_last() =~= ord.take(k - 1));
        assert(q.take(k).last() == q[k - 1]);
        assert(ord.take(k).last() == cfg.keys()[q[k - 1] as int]);
        lemma_dep_position_iff(cfg, marks, deps, t, q[k - 1]);
    }
}

/// The queue in start order gives its names in start order.
proof fn lemma_start_order_names(
    cfg: Config,
    marks: Seq<bool>,
    deps: Seq<Vec<usize>>,
    q: Seq<usize>,
    ord: Seq<Seq<char>>,
)
    requires
        strictly_sorted(cfg.keys()),
        cfg.keys().len() == cfg.values().len(),
        marks.len() == cfg.keys().len(),
        positions_ok(cfg, marks, deps),
        ord.len() == q.len(),
        forall|p: int| 0 <= p < q.len() ==> #[trigger] q[p] < marks.len() && marks[q[p] as int] && ord[p]
            == cfg.keys()[q[p] as int],
        queue_sorted(deps, q),
    ensures
        is_start_order(cfg, ord),
{
    assert(q.take(q.len() as int) =~= q);
    assert(ord.take(ord.len() as int) =~= ord);
    assert forall|p: int, r: int| 0 <= p < r < ord.len() implies #[trigger] starts_before(cfg, ord, ord[p], ord[r]) by {
        assert(idx_before(deps, q, p, r));
        lemma_rel_names(cfg, marks, deps, q, ord, q[p] as int, q.len() as int);
        lemma_rel_names(cfg, marks, deps, q, ord, q[r] as int, q.len() as int);
        if q[p] < q[r] {
            assert(lex_lt(cfg.keys()[q[p] as int], cfg.keys()[q[r] as int]));
        }
    }
}

/// The clones of the names at the given positions.
fn names_at(cfg: &Config, idxs: &Vec<usize>) -> (v: Vec<String>)
    requires
        forall|p: int| 0 <= p < idxs@.len() ==> #[trigger] idxs@[p] < cfg.keys().len(),
    ensures
        v@.len() == idxs@.len(),
        forall|p: int| 0 <= p < idxs@.len() ==> #[trigger] names_of(v@)[p] == cfg.keys()[idxs@[p] as int],
{
    let mut v: Vec<String> = Vec::new();
    let mut p: usize = 0;
    while p < idxs.len()
        invariant
            p <= idxs@.len(),
            v@.len() == p,
            forall|p: int| 0 <= p < idxs@.len() ==> #[trigger] idxs@[p] < cfg.keys().len(),
            forall|q: int| 0 <= q < p ==> #[trigger] v@[q]@ == cfg.keys()[idxs@[q] as int],
        decreases idxs@.len() - p,
    {
        v.push(cfg.key_at(idxs[p]).clone());
        p = p + 1;
    }
    v
}

/// The targets that the names in `targets` need, in an order in which each
/// comes after everything it depends on: first the targets that depend on
/// nothing, in name order, then, as each target starts, the targets it makes
/// ready, in name order. Fails on the first unknown name met depth first, or
/// where the needed targets depend on each other in a cycle.
#[verifier::spinoff_prover]
pub fn topological_order(config: &Config, targets: &[String]) -> (r: Result<Vec<String>, GraphError>)
    ensures
        (r matches Err(e) && e@ is UnknownTarget) <==> dfs_visit(*config, Set::empty(), names_of(targets@)) is Err,
        r is Ok <==> can_order(*config, names_of(targets@)),
        r is Ok <==> all_known(*config, names_of(targets@)) && !has_needed_cycle(*config, names_of(targets@)),
        match r {
            Ok(order) => {
                &&& is_dependency_order(*config, names_of(order@))
                &&& is_start_order(*config, names_of(order@))
                &&& forall|nm: Seq<char>| #[trigger] names_of(order@).contains(nm) <==> reachable(
                    *config,
                    names_of(targets@),
                    nm,
                )
            },
            Err(e) => match e@ {
                GraphErrorView::UnknownTarget(n) => reachable(*config, names_of(targets@), n)
                    && !config.has(n) && dfs_visit(*config, Set::empty(), names_of(targets@)) == Err::<
                    Set<Seq<char>>,
                    Seq<char>,
                >(n),
                GraphErrorView::Cycle => all_known(*config, names_of(targets@)) && has_needed_cycle(
                    *config,
                    names_of(targets@),
                ),
                _ => false,
            },
        },
{
    let ghost roots = names_of(targets@);
    let marks = match mark_closure(config, targets) {
        Ok(m) => m,
        Err(e) => {
            return Err(e);
        },
    };
    let n = config.len();
    let deps = dependency_positions(config, &marks);
    proof {
        assert forall|i: int, k: int| 0 <= i < deps@.len() && 0 <= k < deps@[i]@.len() implies #[trigger] deps@[i]@[k] < marks@.len() by {
            if marks@[i] {
            }
        }
    }
    let outgoing = dependents(&marks, &deps);
    let mut queue: Vec<usize> = Vec::new();
    let mut queued = all_false(n);
    let mut done = all_false(n);
    let mut i: usize = 0;
    while i < n
        invariant
            n == marks@.len(),
            dfs_visit(*config, Set::empty(), names_of(targets@)) is Ok,
            n == deps@.len(),
            positions_ok(*config, marks@, deps@),
            forall|a: int| 0 <= a < n ==> !#[trigger] done@[a],
            i <= n,
            queue_ok(marks@, deps@, queue@, 0, done@, queued@),
            forall|a: int| 0 <= a < i && marks@[a] && #[trigger] deps_done(deps@, done@, a) ==> queued@[a],
            forall|a: int| i <= a < n ==> !#[trigger] queued@[a],
            queue_sorted(deps@, queue@),
            forall|p: int| 0 <= p < queue@.len() ==> rel_at(deps@, queue@, #[trigger] queue@[p] as int) < 0,
            forall|p: int| 0 <= p < queue@.len() ==> #[trigger] queue@[p] < i,
            forall|p: int| 0 <= p < queue@.len() ==> deps@[#[trigger] queue@[p] as int]@.len() == 0,
        decreases n - i,
    {
        if marks[i] && all_processed(&deps[i], &done) {
            let ghost q0 = queue@;
            let ghost u0 = queued@;
            proof {
                lemma_queue_push(marks@, deps@, q0, 0, done@, u0, i);
                if deps@[i as int]@.len() > 0 {
                    assert(done@[deps@[i as int]@[0] as int]);
                }
            }
            queue.push(i);
            queued.set(i, true);
            proof {
                assert(queue@ == q0.push(i));
                assert forall|p: int| 0 <= p < q0.len() implies rel_at(deps@, queue@, #[trigger] q0[p] as int) == rel_at(deps@, q0, q0[p] as int) by {
                    lemma_rel_push_other(deps@, q0, q0[p] as int, i);
                }
                lemma_rel_bound(deps@, queue@, i as int, 0);
                assert forall|p: int, r: int| 0 <= p < r < queue@.len() implies #[trigger] idx_before(deps@, queue@, p, r) by {
                    assert(queue@[p] == q0[p]);
                    if r < q0.len() {
                        assert(queue@[r] == q0[r]);
                        assert(idx_before(deps@, q0, p, r));
                    }
                }
                assert forall|p: int| 0 <= p < queue@.len() implies rel_at(deps@, queue@, #[trigger] queue@[p] as int) < 0 by {
                    if p < q0.len() {
                        assert(queue@[p] == q0[p]);
                    }
                }
            }
        }
        i = i + 1;
    }
    let mut head: usize = 0;
    while head < queue.len()
        invariant
            n == marks@.len(),
            dfs_visit(*config, Set::empty(), names_of(targets@)) is Ok,
            n == deps@.len(),
            positions_ok(*config, marks@, deps@),
            dependents_ok(marks@, deps@, outgoing@),
            queue_ok(marks@, deps@, queue@, head as int, done@, queued@),
            forall|a: int| 0 <= a < n && marks@[a] && #[trigger] deps_done(deps@, done@, a) ==> queued@[a],
            queue_sorted(deps@, queue@),
            forall|p: int| 0 <= p < queue@.len() ==> rel_at(deps@, queue@, #[trigger] queue@[p] as int) < head,
            forall|p: int| 0 <= p < queue@.len() ==> deps_done(deps@, done@, #[trigger] queue@[p] as int),
            rows_sorted(outgoing@),
        decreases count_false(done@),
    {
        let x = queue[head];
        let ghost d0 = done@;
        proof {
            lemma_queue_advance(marks@, deps@, queue@, head as int, d0, queued@);
        }
        head = head + 1;
        done.set(x, true);
        proof {
            lemma_count_false_grow(d0, done@, x as int);
            assert forall|a: int| 0 <= a < n && marks@[a] && #[trigger] deps_done(deps@, done@, a)
                implies queued@[a] || deps@[a]@.contains(x) by {
                if !deps@[a]@.contains(x) {
                    assert forall|k: int| 0 <= k < deps@[a]@.len() implies d0[#[trigger] deps@[a]@[k] as int] by {
                        assert(done@[deps@[a]@[k] as int]);
                        assert(deps@[a]@[k] != x);
                    }
                    assert(deps_done(deps@, d0, a));
                }
            }
        }
        let children = &outgoing[x];
        proof {
            assert forall|j: int| 0 <= j < children@.len() implies {
                let c = #[trigger] children@[j];
                c < marks@.len() && marks@[c as int] && deps@[c as int]@.contains(x)
            } by {
                assert(outgoing@[x as int]@[j] == children@[j]);
            }
            assert forall|i: int, k: int| 0 <= i < deps@.len() && 0 <= k < deps@[i]@.len() implies #[trigger] deps@[i]@[k] < marks@.len() by {
                if marks@[i] {
                } else {
                }
            }
        }
        proof {
            assert forall|a: int, b: int| 0 <= a < b < children@.len() implies #[trigger] children@[a] <= #[trigger] children@[b] by {
                assert(outgoing@[x as int]@[a] == children@[a]);
                assert(outgoing@[x as int]@[b] == children@[b]);
            }
            assert forall|p: int| 0 <= p < queue@.len() implies deps_done(deps@, done@, #[trigger] queue@[p] as int) by {
                let t = queue@[p] as int;
                assert(deps_done(deps@, d0, t));
                assert forall|k: int| 0 <= k < deps@[t]@.len() implies done@[#[trigger] deps@[t]@[k] as int] by {
                    assert(d0[deps@[t]@[k] as int]);
                }
            }
        }
        release_dependents(x, children, &marks, &deps, &mut queue, &mut queued, &done, head);
        proof {
            assert forall|a: int| 0 <= a < n && marks@[a] && #[trigger] deps_done(deps@, done@, a) implies queued@[a] by {
                if deps@[a]@.contains(x) {
                    let xi = x as int;
                    assert(deps@[a]@.contains(xi as usize));
                    assert(outgoing@[xi]@.contains(a as usize));
                }
            }
        }
    }
    let mut k: usize = 0;
    while k < n
        invariant
            n == marks@.len(),
            dfs_visit(*config, Set::empty(), names_of(targets@)) is Ok,
            n == done@.len(),
            n == deps@.len(),
            n == config.keys().len(),
            n == config.values().len(),
            strictly_sorted(config.keys()),
            roots == names_of(targets@),
            head == queue@.len(),
            positions_ok(*config, marks@, deps@),
            queue_ok(marks@, deps@, queue@, head as int, done@, queued@),
            forall|a: int| 0 <= a < n && marks@[a] && #[trigger] deps_done(deps@, done@, a) ==> queued@[a],
            forall|i: int| 0 <= i < n ==> (#[trigger] marks@[i] <==> reachable(*config, roots, config.keys()[i])),
            all_known(*config, roots),
            k <= n,
            forall|a: int| 0 <= a < k && #[trigger] marks@[a] ==> done@[a],
            queue_sorted(deps@, queue@),
        decreases n - k,
    {
        if marks[k] && !done[k] {
            proof {
                lemma_unfinished_blocks(*config, roots, marks@, deps@, queue@, done@, queued@, k as int);
            }
            return Err(GraphError::Cycle);
        }
        k = k + 1;
    }
    let order = names_at(config, &queue);
    proof {
        let q = queue@;
        let ord = names_of(order@);
        assert forall|p: int, r: int| 0 <= p < ord.len() && 0 <= r < ord.len() && p != r implies ord[p] != ord[r] by {
            lemma_sorted_distinct(config.keys(), q[p] as int, q[r] as int);
        }
        assert forall|p: int, r: int|
            0 <= p < ord.len() && 0 <= r < ord.len() && depends_on(*config, #[trigger] ord[r], #[trigger] ord[p]) implies p < r by {
            let b = q[r] as int;
            config.lemma_lookup_at(b);
            let ds = names_of(config.values()[b].depends@);
            assert(ord[r] == config.keys()[b]);
            assert(deps_of(*config, ord[r]) == ds);
            let j = choose|j: int| 0 <= j < ds.len() && ds[j] == ord[p];
            assert(marks@[b]);
            assert(deps@[b]@.len() == config.values()[b].depends@.len());
            let d = deps@[b]@[j];
            assert(config.keys()[d as int] == config.values()[b].depends@[j]@);
            assert(config.keys()[d as int] == config.keys()[q[p] as int]);
            if d != q[p] {
                lemma_sorted_distinct(config.keys(), d as int, q[p] as int);
            }
            assert(dep_earlier(deps@, q, r, j));
            let p2 = choose|p2: int| 0 <= p2 < r && q[p2] == deps@[q[r] as int]@[j];
            if p2 < p {
                assert(q[p2] != q[p]);
            } else if p < p2 {
                assert(q[p] != q[p2]);
            }
        }
        assert(is_dependency_order(*config, ord));
        assert forall|nm: Seq<char>| #[trigger] ord.contains(nm) <==> reachable(*config, roots, nm) by {
            if ord.contains(nm) {
                let p = choose|p: int| 0 <= p < ord.len() && ord[p] == nm;
                assert(marks@[q[p] as int]);
            }
            if reachable(*config, roots, nm) {
                assert(config.has(nm));
                let a = config.keys().index_of(nm);
                assert(marks@[a]);
                assert(done@[a]);
                let p = choose|p: int| 0 <= p < q.len() && q[p] == a;
                assert(ord[p] == nm);
            }
        }
        assert(can_order(*config, roots));
        lemma_start_order_names(*config, marks@, deps@, q, ord);
        if has_needed_cycle(*config, roots) {
            let cycle = choose|cycle: Seq<Seq<char>>|
                #[trigger] is_dependency_path(*config, cycle) && cycle.len() > 1 && cycle[0] == cycle.last()
                    && reachable(*config, roots, cycle[0]);
            law_cycle_blocks_order(*config, roots, cycle);
        }
    }
    Ok(order)
}


/// The first problem with one target, in the order the checks are made:
/// an empty command, then more than one readiness strategy, then the first
/// dependency that the configuration lacks.
pub open spec fn target_issue(known: Seq<Seq<char>>, name: Seq<char>, t: Target) -> Option<GraphErrorView> {
    let ds = names_of(t.depends@);
    if t.cmd@.len() == 0 {
        Some(GraphErrorView::MissingCommand(name))
    } else if strategy_count(t.wait_for) > 1 {
        Some(GraphErrorView::ConflictingReadiness(name))
    } else if exists|k: int| 0 <= k < ds.len() && !known.contains(#[trigger] ds[k]) {
        let k = choose|k: int|
            0 <= k < ds.len() && !known.contains(#[trigger] ds[k]) && forall|j: int| 0 <= j < k ==> known.contains(#[trigger] ds[j]);
        Some(GraphErrorView::UnknownDependency(name, ds[k]))
    } else {
        None
    }
}

/// The problem with the target at position `i`, if any.
pub open spec fn issue_at(cfg: Config, i: int) -> Option<GraphErrorView> {
    target_issue(cfg.keys(), cfg.keys()[i], cfg.values()[i])
}

/// No target of the configuration has a problem of its own.
pub open spec fn no_target_issue(cfg: Config) -> bool {
    forall|i: int| 0 <= i < cfg.keys().len() ==> #[trigger] issue_at(cfg, i) is None
}

/// When every dependency names a target, everything reached from targets of
/// the configuration is a target.
proof fn lemma_known_deps_all_known(cfg: Config, roots: Seq<Seq<char>>)
    requires
        strictly_sorted(cfg.keys()),
        cfg.keys().len() == cfg.values().len(),
        forall|r: Seq<char>| #[trigger] roots.contains(r) ==> cfg.has(r),
        forall|i: int, k: int| 0 <= i < cfg.keys().len() && 0 <= k < cfg.values()[i].depends@.len()
            ==> cfg.has(#[trigger] names_of(cfg.values()[i].depends@)[k]),
    ensures
        all_known(cfg, roots),
{
    assert forall|nm: Seq<char>| reachable(cfg, roots, nm) implies cfg.has(nm) by {
        let path = choose|path: Seq<Seq<char>>|
            #[trigger] is_dependency_path(cfg, path) && roots.contains(path[0]) && path.last() == nm;
        if path.len() > 1 {
            let a = path[path.len() - 2];
            assert(depends_on(cfg, a, nm));
            let i = cfg.keys().index_of(a);
            cfg.lemma_lookup_at(i);
            let ds = names_of(cfg.values()[i].depends@);
            let k = choose|k: int| 0 <= k < ds.len() && ds[k] == nm;
            assert(cfg.has(ds[k]));
        }
    }
}

/// The names of all targets, in ascending order.
fn all_names(cfg: &Config) -> (v: Vec<String>)
    ensures
        names_of(v@) == cfg.keys(),
{
    let n = cfg.len();
    let mut v: Vec<String> = Vec::new();
    let mut i: usize = 0;
    while i < n
        invariant
            n == cfg.keys().len(),
            i <= n,
            v@.len() == i,
            names_of(v@) == cfg.keys().take(i as int),
        decreases n - i,
    {
        let ghost prev = v@;
        v.push(cfg.key_at(i).clone());
        proof {
            assert forall|j: int| 0 <= j < i + 1 implies #[trigger] names_of(v@)[j] == cfg.keys().take(i + 1)[j] by {
                if j < i {
                    assert(v@[j] == prev[j]);
                    assert(names_of(prev)[j] == cfg.keys().take(i as int)[j]);
                }
            }
            assert(names_of(v@) =~= cfg.keys().take(i + 1));
        }
        i = i + 1;
    }
    assert(cfg.keys().take(n as int) =~= cfg.keys());
    v
}

/// Checks every target, in name order: it has a command, names at most one
/// readiness strategy and depends only on targets of the configuration; then
/// checks that all targets together admit a start order.
pub fn validate_config(config: &Config) -> (r: Result<(), GraphError>)
    ensures
        (exists|i: int| 0 <= i < config.keys().len() && {
            let w = #[trigger] config.values()[i].wait_for;
            ||| w.port is Some && w.exit_code is Some
            ||| w.port is Some && w.log_pattern is Some
            ||| w.exit_code is Some && w.log_pattern is Some
        }) ==> r is Err,
        r is Ok <==> no_target_issue(*config) && can_order(*config, config.keys()),
        r is Ok <==> no_target_issue(*config) && !has_needed_cycle(*config, config.keys()),
        match r {
            Ok(()) => true,
            Err(e) => {
                ||| exists|i: int| 0 <= i < config.keys().len() && #[trigger] issue_at(*config, i) == Some(e@)
                    && forall|j: int| 0 <= j < i ==> #[trigger] issue_at(*config, j) is None
                ||| no_target_issue(*config) && e@ == GraphErrorView::Cycle && has_needed_cycle(*config, config.keys())
            },
        },
{
    let n = config.len();
    let mut i: usize = 0;
    while i < n
        invariant
            n == config.keys().len(),
            n == config.values().len(),
            strictly_sorted(config.keys()),
            i <= n,
            forall|j: int| 0 <= j < i ==> #[trigger] issue_at(*config, j) is None,
        decreases n - i,
    {
        let name = config.key_at(i);
        let target = config.value_at(i);
        let ghost ds = names_of(target.depends@);
        if target.cmd.len() == 0 {
            let e = GraphError::MissingCommand { target: name.clone() };
            assert(issue_at(*config, i as int) == Some(e@));
            return Err(e);
        }
        let mut strategies: usize = 0;
        if target.wait_for.port.is_some() {
            strategies = strategies + 1;
        }
        if target.wait_for.exit_code.is_some() {
            strategies = strategies + 1;
        }
        if target.wait_for.log_pattern.is_some() {
            strategies = strategies + 1;
        }
        if strategies > 1 {
            let e = GraphError::ConflictingReadiness { target: name.clone() };
            assert(issue_at(*config, i as int) == Some(e@));
            return Err(e);
        }
        assert(strategy_count(target.wait_for) <= 1);
        let mut k: usize = 0;
        while k < target.depends.len()
            invariant
                n == config.keys().len(),
                n == config.values().len(),
                strictly_sorted(config.keys()),
                i < n,
                *target == config.values()[i as int],
                name@ == config.keys()[i as int],
                target.cmd@.len() > 0,
                strategy_count(target.wait_for) <= 1,
                forall|j: int| 0 <= j < i ==> #[trigger] issue_at(*config, j) is None,
                ds == names_of(target.depends@),
                k <= ds.len(),
                forall|j: int| 0 <= j < k ==> config.has(#[trigger] ds[j]),
            decreases ds.len() - k,
        {
            let dep = &target.depends[k];
            assert(ds[k as int] == dep@);
            if !config.contains_key(dep.as_str()) {
                let e = GraphError::UnknownDependency { target: name.clone(), dependency: dep.clone() };
                proof {
                    let kk = k as int;
                    assert(0 <= kk < ds.len() && !config.has(ds[kk]));
                    let c = choose|c: int|
                        0 <= c < ds.len() && !config.keys().contains(#[trigger] ds[c]) && forall|j: int| 0 <= j < c ==> config.keys().contains(#[trigger] ds[j]);
                    if c < kk {
                    } else if c > kk {
                        assert(config.has(ds[kk]));
                    }
                    assert(issue_at(*config, i as int) == Some(e@));
                }
                return Err(e);
            }
            k = k + 1;
        }
        assert(issue_at(*config, i as int) is None);
        i = i + 1;
    }
    let names = all_names(config);
    proof {
        assert forall|a: int, k: int| 0 <= a < config.keys().len() && 0 <= k < config.values()[a].depends@.len()
            implies config.has(#[trigger] names_of(config.values()[a].depends@)[k]) by {
            assert(issue_at(*config, a) is None);
        }
        assert forall|r: Seq<char>| #[trigger] names_of(names@).contains(r) implies config.has(r) by {
        }
        lemma_known_deps_all_known(*config, names_of(names@));
        if exists|i: int| 0 <= i < config.keys().len() && {
            let w = #[trigger] config.values()[i].wait_for;
            ||| w.port is Some && w.exit_code is Some
            ||| w.port is Some && w.log_pattern is Some
            ||| w.exit_code is Some && w.log_pattern is Some
        } {
            let i = choose|i: int| 0 <= i < config.keys().len() && {
                let w = #[trigger] config.values()[i].wait_for;
                ||| w.port is Some && w.exit_code is Some
                ||| w.port is Some && w.log_pattern is Some
                ||| w.exit_code is Some && w.log_pattern is Some
            };
            law_two_strategies_rejected(*config, i);
            assert(issue_at(*config, i) is None);
        }
    }
    match topological_order(config, names.as_slice()) {
        Ok(_) => Ok(()),
        Err(e) => Err(e),
    }
}


/// The names of `o` for which `pred` holds, in the order of `o`.
pub open spec fn keep(o: Seq<Seq<char>>, pred: spec_fn(Seq<char>) -> bool) -> Seq<Seq<char>>
    decreases o.len(),
{
    if o.len() == 0 {
        Seq::empty()
    } else {
        let r = keep(o.drop_last(), pred);
        if pred(o.last()) {
            r.push(o.last())
        } else {
            r
        }
    }
}

/// Entries `p` and `q` of `k` stand in `o` in the same order.
pub open spec fn kept_in_order(o: Seq<Seq<char>>, k: Seq<Seq<char>>, p: int, q: int) -> bool {
    exists|i: int, j: int| 0 <= i < j < o.len() && k[p] == o[i] && k[q] == o[j]
}

proof fn lemma_keep(o: Seq<Seq<char>>, pred: spec_fn(Seq<char>) -> bool)
    ensures
        forall|x: Seq<char>| #[trigger] keep(o, pred).contains(x) <==> o.contains(x) && pred(x),
        forall|p: int, q: int| 0 <= p < q < keep(o, pred).len() ==> #[trigger] kept_in_order(o, keep(o, pred), p, q),
    decreases o.len(),
{
    if o.len() > 0 {
        let prev = o.drop_last();
        lemma_keep(prev, pred);
        let r = keep(prev, pred);
        let k = keep(o, pred);
        assert forall|x: Seq<char>| #[trigger] k.contains(x) <==> o.contains(x) && pred(x) by {
            if k.contains(x) {
                let t = choose|t: int| 0 <= t < k.len() && k[t] == x;
                if t < r.len() {
                    assert(r[t] == x);
                    assert(r.contains(x));
                    let i = choose|i: int| 0 <= i < prev.len() && prev[i] == x;
                    assert(o[i] == x);
                } else {
                    assert(o[o.len() - 1] == x);
                }
            }
            if o.contains(x) && pred(x) {
                let i = choose|i: int| 0 <= i < o.len() && o[i] == x;
                if i < o.len() - 1 {
                    assert(prev[i] == x);
                    assert(r.contains(x));
                    let t = choose|t: int| 0 <= t < r.len() && r[t] == x;
                    assert(k[t] == x);
                } else {
                    assert(k[k.len() - 1] == x);
                }
            }
        }
        assert forall|p: int, q: int| 0 <= p < q < k.len() implies #[trigger] kept_in_order(o, k, p, q) by {
            if q < r.len() {
                assert(k[p] == r[p]);
                assert(k[q] == r[q]);
                assert(kept_in_order(prev, r, p, q));
                let (i, j) = choose|i: int, j: int| 0 <= i < j < prev.len() && r[p] == prev[i] && r[q] == prev[j];
                assert(o[i] == prev[i]);
                assert(o[j] == prev[j]);
            } else {
                assert(k[p] == r[p]);
                assert(r.contains(r[p]));
                let i = choose|i: int| 0 <= i < prev.len() && prev[i] == r[p];
                assert(o[i] == prev[i]);
                assert(k[q] == o[o.len() - 1]);
            }
        }
    }
}

/// When a configuration's targets have no problems of their own and all of
/// them can start in some order, every request made of its target names can
/// be put in a dependency order.
pub proof fn law_valid_config_orders_any_request(cfg: Config, roots: Seq<Seq<char>>)
    requires
        strictly_sorted(cfg.keys()),
        cfg.keys().len() == cfg.values().len(),
        no_target_issue(cfg),
        can_order(cfg, cfg.keys()),
        forall|r: Seq<char>| #[trigger] roots.contains(r) ==> cfg.has(r),
    ensures
        can_order(cfg, roots),
{
    let all = cfg.keys();
    let o = choose|o: Seq<Seq<char>>| #[trigger] is_dependency_order(cfg, o) && forall|nm: Seq<char>|
        o.contains(nm) <==> reachable(cfg, all, nm);
    assert forall|a: int, k: int| 0 <= a < cfg.keys().len() && 0 <= k < cfg.values()[a].depends@.len()
        implies cfg.has(#[trigger] names_of(cfg.values()[a].depends@)[k]) by {
        assert(issue_at(cfg, a) is None);
    }
    lemma_known_deps_all_known(cfg, roots);
    let pred = |nm: Seq<char>| reachable(cfg, roots, nm);
    lemma_keep(o, pred);
    let f = keep(o, pred);
    assert forall|nm: Seq<char>| f.contains(nm) <==> reachable(cfg, roots, nm) by {
        if reachable(cfg, roots, nm) {
            assert(cfg.has(nm));
            let i = cfg.keys().index_of(nm);
            lemma_root_reachable(cfg, all, i);
            assert(o.contains(nm));
        }
    }
    assert forall|p: int, q: int| 0 <= p < f.len() && 0 <= q < f.len() && p != q implies f[p] != f[q] by {
        let (a, b) = if p < q { (p, q) } else { (q, p) };
        assert(kept_in_order(o, f, a, b));
        let (i, j) = choose|i: int, j: int| 0 <= i < j < o.len() && f[a] == o[i] && f[b] == o[j];
    }
    assert forall|p: int, q: int|
        0 <= p < f.len() && 0 <= q < f.len() && depends_on(cfg, #[trigger] f[q], #[trigger] f[p]) implies p < q by {
        if q < p {
            assert(kept_in_order(o, f, q, p));
            let (i, j) = choose|i: int, j: int| 0 <= i < j < o.len() && f[q] == o[i] && f[p] == o[j];
            assert(depends_on(cfg, o[i], o[j]));
        } else if p == q {
            assert(f.contains(f[p]));
            let i = choose|i: int| 0 <= i < o.len() && o[i] == f[p];
            assert(depends_on(cfg, o[i], o[i]));
        }
    }
    assert(is_dependency_order(cfg, f));
}

/// A dependency cycle among the targets that a request needs leaves no
/// dependency order for them.
pub proof fn law_cycle_blocks_order(cfg: Config, roots: Seq<Seq<char>>, cycle: Seq<Seq<char>>)
    requires
        is_dependency_path(cfg, cycle),
        cycle.len() > 1,
        cycle[0] == cycle.last(),
        reachable(cfg, roots, cycle[0]),
    ensures
        !can_order(cfg, roots),
{
    assert forall|i: int| 0 <= i < cycle.len() implies #[trigger] reachable(cfg, roots, cycle[i]) by {
        lemma_path_reach(cfg, roots, cycle, i);
    }
    assert forall|o: Seq<Seq<char>>| #[trigger] is_dependency_order(cfg, o) implies !(forall|nm: Seq<char>|
        o.contains(nm) <==> reachable(cfg, roots, nm)) by {
        if forall|nm: Seq<char>| o.contains(nm) <==> reachable(cfg, roots, nm) {
            lemma_positions_fall(cfg, o, cycle, 0);
            let last = cycle.len() - 1;
            assert(o.contains(cycle[0]));
            let p = choose|p: int| 0 <= p < o.len() && o[p] == cycle[0];
            let r = choose|r: int| 0 <= r < o.len() && o[r] == cycle[last];
            assert(r < p);
        }
    }
}

/// Every name on a path from a reachable name is reachable.
proof fn lemma_path_reach(cfg: Config, roots: Seq<Seq<char>>, path: Seq<Seq<char>>, i: int)
    requires
        is_dependency_path(cfg, path),
        reachable(cfg, roots, path[0]),
        0 <= i < path.len(),
    ensures
        reachable(cfg, roots, path[i]),
    decreases i,
{
    if i > 0 {
        lemma_path_reach(cfg, roots, path, i - 1);
        assert(depends_on(cfg, path[i - 1], path[i]));
        lemma_reach_step(cfg, roots, path[i - 1], path[i]);
    }
}

/// In a dependency order holding a path from position `k` on, each later
/// name of the path stands strictly before name `k`.
proof fn lemma_positions_fall(cfg: Config, o: Seq<Seq<char>>, path: Seq<Seq<char>>, k: int)
    requires
        is_dependency_order(cfg, o),
        is_dependency_path(cfg, path),
        0 <= k < path.len() - 1,
        forall|i: int| 0 <= i < path.len() ==> o.contains(#[trigger] path[i]),
    ensures
        forall|p: int, r: int| 0 <= p < o.len() && 0 <= r < o.len() && o[p] == path[k] && o[r] == path.last() ==> r < p,
    decreases path.len() - k,
{
    assert forall|p: int, r: int| 0 <= p < o.len() && 0 <= r < o.len() && o[p] == path[k] && o[r] == path.last() implies r < p by {
        assert(depends_on(cfg, path[k], path[k + 1]));
        assert(o.contains(path[k + 1]));
        let m = choose|m: int| 0 <= m < o.len() && o[m] == path[k + 1];
        assert(depends_on(cfg, o[p], o[m]));
        assert(m < p);
        if k + 1 < path.len() - 1 {
            lemma_positions_fall(cfg, o, path, k + 1);
        } else {
            if m != r {
                assert(o[m] == o[r]);
            }
        }
    }
}

/// The start order and the expansion of the same request hold the same
/// targets, as many of them.
pub proof fn law_order_matches_expansion(
    cfg: Config,
    roots: Seq<Seq<char>>,
    order: Seq<Seq<char>>,
    expansion: Seq<Seq<char>>,
)
    requires
        is_dependency_order(cfg, order),
        forall|nm: Seq<char>| #[trigger] order.contains(nm) <==> reachable(cfg, roots, nm),
        strictly_sorted(expansion),
        forall|nm: Seq<char>| #[trigger] expansion.contains(nm) <==> reachable(cfg, roots, nm),
    ensures
        order.to_set() == expansion.to_set(),
        order.len() == expansion.len(),
{
    assert(order.to_set() =~= expansion.to_set()) by {
        assert forall|nm: Seq<char>| order.to_set().contains(nm) <==> expansion.to_set().contains(nm) by {
            if order.contains(nm) {
                assert(expansion.contains(nm));
            }
            if expansion.contains(nm) {
                assert(order.contains(nm));
            }
        }
    }
    assert forall|i: int, j: int| 0 <= i < expansion.len() && 0 <= j < expansion.len() && i != j implies expansion[i] != expansion[j] by {
        crate::name_map::lemma_sorted_distinct(expansion, i, j);
    }
    assert(expansion.no_duplicates());
    order.unique_seq_to_set();
    expansion.unique_seq_to_set();
}

/// The last position in `o` of a name that `t` depends on, or -1 where none is.
pub open spec fn release_at(cfg: Config, o: Seq<Seq<char>>, t: Seq<char>) -> int
    decreases o.len(),
{
    if o.len() == 0 {
        -1
    } else if depends_on(cfg, t, o.last()) {
        o.len() - 1
    } else {
        release_at(cfg, o.drop_last(), t)
    }
}

/// `a` starts before `b` in the order `o` is built: a target becomes ready
/// when the last of its dependencies has started, and the targets ready at
/// the same moment start in ascending name order.
pub open spec fn starts_before(cfg: Config, o: Seq<Seq<char>>, a: Seq<char>, b: Seq<char>) -> bool {
    ||| release_at(cfg, o, a) < release_at(cfg, o, b)
    ||| release_at(cfg, o, a) == release_at(cfg, o, b) && lex_lt(a, b)
}

/// Every pair of names of `o` stands in the order `starts_before` gives: the
/// targets that depend on nothing first, in name order, then, for each
/// started target in turn, the targets it makes ready, in name order.
pub open spec fn is_start_order(cfg: Config, o: Seq<Seq<char>>) -> bool {
    forall|p: int, r: int| 0 <= p < r < o.len() ==> #[trigger] starts_before(cfg, o, o[p], o[r])
}

/// Where no position from `k` on holds a dependency of `t`, the prefix up to
/// `k` gives the same release position.
proof fn lemma_release_prefix(cfg: Config, o: Seq<Seq<char>>, t: Seq<char>, k: int)
    requires
        0 <= k <= o.len(),
        forall|p: int| k <= p < o.len() ==> !depends_on(cfg, t, #[trigger] o[p]),
    ensures
        release_at(cfg, o, t) == release_at(cfg, o.take(k), t),
    decreases o.len(),
{
    if o.len() > k {
        assert(!depends_on(cfg, t, o[o.len() - 1]));
        assert(o.drop_last().take(k) =~= o.take(k));
        lemma_release_prefix(cfg, o.drop_last(), t, k);
    } else {
        assert(o.take(k) =~= o);
    }
}

/// In a dependency order, the release position of the name at `r` is the one
/// of the prefix before `r`.
proof fn lemma_release_before(cfg: Config, o: Seq<Seq<char>>, r: int)
    requires
        is_dependency_order(cfg, o),
        0 <= r < o.len(),
    ensures
        release_at(cfg, o, o[r]) == release_at(cfg, o.take(r), o[r]),
{
    assert forall|p: int| r <= p < o.len() implies !depends_on(cfg, o[r], #[trigger] o[p]) by {
        if depends_on(cfg, o[r], o[p]) {
            assert(p < r);
        }
    }
    lemma_release_prefix(cfg, o, o[r], r);
}

/// There is one start order for a given set of targets: two dependency
/// orders in start order that hold the same names are equal.
pub proof fn law_start_order_unique(cfg: Config, o1: Seq<Seq<char>>, o2: Seq<Seq<char>>)
    requires
        is_dependency_order(cfg, o1),
        is_dependency_order(cfg, o2),
        is_start_order(cfg, o1),
        is_start_order(cfg, o2),
        forall|nm: Seq<char>| #[trigger] o1.contains(nm) <==> o2.contains(nm),
    ensures
        o1 == o2,
{
    o1.unique_seq_to_set();
    o2.unique_seq_to_set();
    assert(o1.to_set() =~= o2.to_set()) by {
        assert forall|nm: Seq<char>| o1.to_set().contains(nm) <==> o2.to_set().contains(nm) by {
            if o1.contains(nm) {
                assert(o2.contains(nm));
            }
            if o2.contains(nm) {
                assert(o1.contains(nm));
            }
        }
    }
    if exists|p: int| 0 <= p < o1.len() && o1[p] != o2[p] {
        let p0 = choose|p: int| 0 <= p < o1.len() && o1[p] != o2[p];
        let pred = |p: int| 0 <= p < o1.len() && o1[p] != o2[p];
        let p = lemma_min_index(pred, p0);
        assert(o1.take(p) =~= o2.take(p)) by {
            assert forall|i: int| 0 <= i < p implies o1.take(p)[i] == o2.take(p)[i] by {
                assert(!pred(i));
            }
        }
        let a = o1[p];
        let b = o2[p];
        assert(o2.contains(b));
        assert(o1.contains(b));
        let p1 = choose|p1: int| 0 <= p1 < o1.len() && o1[p1] == b;
        if p1 < p {
            assert(!pred(p1));
            assert(o2[p1] == b);
        }
        assert(o1.contains(a));
        assert(o2.contains(a));
        let p2 = choose|p2: int| 0 <= p2 < o2.len() && o2[p2] == a;
        if p2 < p {
            assert(!pred(p2));
            assert(o1[p2] == a);
        }
        assert(p < p1 && p < p2);
        // the release positions of `a` and `b` come from the shared prefix
        lemma_release_before(cfg, o1, p);
        lemma_release_before(cfg, o2, p);
        assert forall|q: int| p <= q < o2.len() implies !depends_on(cfg, a, #[trigger] o2[q]) by {
            if depends_on(cfg, a, o2[q]) {
                assert(o2.contains(o2[q]));
                assert(o1.contains(o2[q]));
                let q1 = choose|q1: int| 0 <= q1 < o1.len() && o1[q1] == o2[q];
                assert(q1 < p);
                assert(!pred(q1));
                assert(o2[q1] == o2[q]);
            }
        }
        lemma_release_prefix(cfg, o2, a, p);
        assert forall|q: int| p <= q < o1.len() implies !depends_on(cfg, b, #[trigger] o1[q]) by {
            if depends_on(cfg, b, o1[q]) {
                assert(o1.contains(o1[q]));
                assert(o2.contains(o1[q]));
                let q2 = choose|q2: int| 0 <= q2 < o2.len() && o2[q2] == o1[q];
                assert(q2 < p);
                assert(!pred(q2));
                assert(o1[q2] == o1[q]);
            }
        }
        lemma_release_prefix(cfg, o1, b, p);
        assert(starts_before(cfg, o1, o1[p], o1[p1]));
        assert(starts_before(cfg, o2, o2[p], o2[p2]));
        if lex_lt(a, b) {
            crate::text::lemma_lex_asymmetric(a, b);
        }
        assert(false);
    }
    assert(o1 =~= o2);
}

/// Requests that name the same targets, in any order and with any repeats,
/// need the same targets, and get the same start order where one exists.
pub proof fn law_same_names_same_order(
    cfg: Config,
    r1: Seq<Seq<char>>,
    r2: Seq<Seq<char>>,
    o1: Seq<Seq<char>>,
    o2: Seq<Seq<char>>,
)
    requires
        forall|nm: Seq<char>| #[trigger] r1.contains(nm) <==> r2.contains(nm),
        is_dependency_order(cfg, o1),
        is_dependency_order(cfg, o2),
        is_start_order(cfg, o1),
        is_start_order(cfg, o2),
        forall|nm: Seq<char>| #[trigger] o1.contains(nm) <==> reachable(cfg, r1, nm),
        forall|nm: Seq<char>| #[trigger] o2.contains(nm) <==> reachable(cfg, r2, nm),
    ensures
        o1 == o2,
{
    lemma_same_roots_reach(cfg, r1, r2);
    law_start_order_unique(cfg, o1, o2);
}

/// Requests that name the same targets reach the same names.
pub proof fn lemma_same_roots_reach(cfg: Config, r1: Seq<Seq<char>>, r2: Seq<Seq<char>>)
    requires
        forall|nm: Seq<char>| #[trigger] r1.contains(nm) <==> r2.contains(nm),
    ensures
        forall|nm: Seq<char>| #[trigger] reachable(cfg, r1, nm) <==> reachable(cfg, r2, nm),
        all_known(cfg, r1) == all_known(cfg, r2),
        can_order(cfg, r1) == can_order(cfg, r2),
        has_needed_cycle(cfg, r1) == has_needed_cycle(cfg, r2),
{
    assert forall|nm: Seq<char>| #[trigger] reachable(cfg, r1, nm) <==> reachable(cfg, r2, nm) by {
        if reachable(cfg, r1, nm) {
            let path = choose|path: Seq<Seq<char>>|
                #[trigger] is_dependency_path(cfg, path) && r1.contains(path[0]) && path.last() == nm;
            assert(r2.contains(path[0]));
        }
        if reachable(cfg, r2, nm) {
            let path = choose|path: Seq<Seq<char>>|
                #[trigger] is_dependency_path(cfg, path) && r2.contains(path[0]) && path.last() == nm;
            assert(r1.contains(path[0]));
        }
    }
    if can_order(cfg, r1) {
        let o = choose|o: Seq<Seq<char>>| #[trigger] is_dependency_order(cfg, o) && forall|nm: Seq<char>|
            o.contains(nm) <==> reachable(cfg, r1, nm);
        assert(is_dependency_order(cfg, o));
    }
    if can_order(cfg, r2) {
        let o = choose|o: Seq<Seq<char>>| #[trigger] is_dependency_order(cfg, o) && forall|nm: Seq<char>|
            o.contains(nm) <==> reachable(cfg, r2, nm);
        assert(is_dependency_order(cfg, o));
    }
    if has_needed_cycle(cfg, r1) {
        let cy = choose|cy: Seq<Seq<char>>| #[trigger] is_dependency_path(cfg, cy) && cy.len() > 1 && cy[0] == cy.last()
            && reachable(cfg, r1, cy[0]);
        assert(reachable(cfg, r2, cy[0]));
    }
    if has_needed_cycle(cfg, r2) {
        let cy = choose|cy: Seq<Seq<char>>| #[trigger] is_dependency_path(cfg, cy) && cy.len() > 1 && cy[0] == cy.last()
            && reachable(cfg, r2, cy[0]);
        assert(reachable(cfg, r1, cy[0]));
    }
}

/// Two strictly sorted sequences that hold the same names are equal.
pub proof fn lemma_sorted_unique(a: Seq<Seq<char>>, b: Seq<Seq<char>>)
    requires
        strictly_sorted(a),
        strictly_sorted(b),
        forall|nm: Seq<char>| #[trigger] a.contains(nm) <==> b.contains(nm),
    ensures
        a == b,
{
    assert forall|i: int, j: int| 0 <= i < a.len() && 0 <= j < a.len() && i != j implies a[i] != a[j] by {
        lemma_sorted_distinct(a, i, j);
    }
    assert forall|i: int, j: int| 0 <= i < b.len() && 0 <= j < b.len() && i != j implies b[i] != b[j] by {
        lemma_sorted_distinct(b, i, j);
    }
    a.unique_seq_to_set();
    b.unique_seq_to_set();
    assert(a.to_set() =~= b.to_set()) by {
        assert forall|nm: Seq<char>| a.to_set().contains(nm) <==> b.to_set().contains(nm) by {
            if a.contains(nm) {
                assert(b.contains(nm));
            }
            if b.contains(nm) {
                assert(a.contains(nm));
            }
        }
    }
    if exists|p: int| 0 <= p < a.len() && a[p] != b[p] {
        let p0 = choose|p: int| 0 <= p < a.len() && a[p] != b[p];
        let pred = |p: int| 0 <= p < a.len() && a[p] != b[p];
        let p = lemma_min_index(pred, p0);
        crate::text::lemma_lex_total(a[p], b[p]);
        if lex_lt(a[p], b[p]) {
            assert(a.contains(a[p]));
            assert(b.contains(a[p]));
            let q = choose|q: int| 0 <= q < b.len() && b[q] == a[p];
            if q < p {
                assert(!pred(q));
                lemma_sorted_distinct(a, q, p);
            } else {
                assert(lex_lt(b[p], b[q]));
                crate::text::lemma_lex_asymmetric(a[p], b[p]);
            }
        } else {
            assert(b.contains(b[p]));
            assert(a.contains(b[p]));
            let q = choose|q: int| 0 <= q < a.len() && a[q] == b[p];
            if q < p {
                assert(!pred(q));
                lemma_sorted_distinct(b, q, p);
            } else {
                assert(lex_lt(a[p], a[q]));
                crate::text::lemma_lex_asymmetric(b[p], a[p]);
            }
        }
    }
    assert(a =~= b);
}

/// Expanding an expansion gives it back: the names an expansion holds need
/// exactly themselves, and the sorted list of them is the expansion.
pub proof fn law_expansion_is_fixed(cfg: Config, roots: Seq<Seq<char>>, v: Seq<Seq<char>>, w: Seq<Seq<char>>)
    requires
        all_known(cfg, roots),
        strictly_sorted(v),
        forall|nm: Seq<char>| #[trigger] v.contains(nm) <==> reachable(cfg, roots, nm),
        strictly_sorted(w),
        forall|nm: Seq<char>| #[trigger] w.contains(nm) <==> reachable(cfg, v, nm),
    ensures
        all_known(cfg, v),
        forall|nm: Seq<char>| #[trigger] reachable(cfg, v, nm) <==> v.contains(nm),
        w == v,
{
    assert forall|nm: Seq<char>| #[trigger] reachable(cfg, v, nm) <==> v.contains(nm) by {
        if reachable(cfg, v, nm) {
            let path = choose|path: Seq<Seq<char>>|
                #[trigger] is_dependency_path(cfg, path) && v.contains(path[0]) && path.last() == nm;
            assert(reachable(cfg, roots, path[0]));
            lemma_path_reach(cfg, roots, path, path.len() - 1);
        }
        if v.contains(nm) {
            let k = choose|k: int| 0 <= k < v.len() && v[k] == nm;
            lemma_root_reachable(cfg, v, k);
        }
    }
    assert forall|nm: Seq<char>| reachable(cfg, v, nm) implies cfg.has(nm) by {
        assert(v.contains(nm));
        assert(reachable(cfg, roots, nm));
    }
    assert forall|nm: Seq<char>| #[trigger] w.contains(nm) <==> v.contains(nm) by {
        assert(w.contains(nm) <==> reachable(cfg, v, nm));
    }
    lemma_sorted_unique(w, v);
}

/// A target whose `wait_for` sets two of port, exit code and log pattern is
/// a problem of the configuration: reported as a conflict where the target
/// has a command, so no such configuration validates.
pub proof fn law_two_strategies_rejected(cfg: Config, i: int)
    requires
        0 <= i < cfg.keys().len(),
        ({
            let w = cfg.values()[i].wait_for;
            ||| w.port is Some && w.exit_code is Some
            ||| w.port is Some && w.log_pattern is Some
            ||| w.exit_code is Some && w.log_pattern is Some
        }),
    ensures
        issue_at(cfg, i) is Some,
        cfg.values()[i].cmd@.len() > 0 ==> issue_at(cfg, i) == Some(GraphErrorView::ConflictingReadiness(cfg.keys()[i])),
        !no_target_issue(cfg),
{
    assert(strategy_count(cfg.values()[i].wait_for) > 1);
}

} // verus!

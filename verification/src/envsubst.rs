//! `${NAME}` and `${NAME:-default}` expansion in command arguments,
//! working directories and environment values.

use vstd::prelude::*;
use crate::name_map::NameMap;
use crate::text::{chars_of, string_from_chars};

verus! {

/// The process environment as the expansion sees it: variable names with
/// their values.
#[derive(Clone, Debug)]
pub struct Environment {
    vars: NameMap<String>,
}

impl Environment {
    /// The value of the variable `name`, if it is set.
    pub closed spec fn value_of(&self, name: Seq<char>) -> Option<Seq<char>> {
        if self.vars.has(name) {
            Some(self.vars.lookup(name)@)
        } else {
            None
        }
    }

    /// An environment with no variable set.
    pub fn new() -> (env: Environment)
        ensures
            forall|name: Seq<char>| #[trigger] env.value_of(name) is None,
    {
        Environment { vars: NameMap::new() }
    }

    /// Sets the variable `name` to `value`.
    pub fn set(&mut self, name: String, value: String)
        ensures
            final(self).value_of(name@) == Some(value@),
            forall|other: Seq<char>| other != name@ ==> #[trigger] final(self).value_of(other) == old(self).value_of(other),
    {
        let ghost nm = name@;
        let ghost val = value@;
        self.vars.insert(name, value);
        proof {
            assert forall|other: Seq<char>| other != nm implies #[trigger] self.value_of(other) == old(self).value_of(other) by {
                if old(self).vars.has(other) {
                }
            }
        }
    }

    /// The value of the variable `name`, if it is set.
    pub fn get(&self, name: &str) -> (r: Option<&String>)
        ensures
            match r {
                Some(v) => self.value_of(name@) == Some(v@),
                None => self.value_of(name@) is None,
            },
    {
        self.vars.get(name)
    }
}

/// A character that may start a variable name.
pub open spec fn is_name_start(c: char) -> bool {
    ('A' <= c && c <= 'Z') || ('a' <= c && c <= 'z') || c == '_'
}

/// A character that may continue a variable name.
pub open spec fn is_name_char(c: char) -> bool {
    is_name_start(c) || ('0' <= c && c <= '9')
}

/// Where the run of name characters that starts at `j` ends.
pub open spec fn name_end(s: Seq<char>, j: int) -> int
    decreases s.len() - j,
{
    if 0 <= j < s.len() && is_name_char(s[j]) {
        name_end(s, j + 1)
    } else {
        j
    }
}

/// The first `}` at or after `j`, or the length of `s` where there is none.
pub open spec fn close_at(s: Seq<char>, j: int) -> int
    decreases s.len() - j,
{
    if 0 <= j < s.len() && s[j] != '}' {
        close_at(s, j + 1)
    } else {
        j
    }
}

/// The run of name characters from `j` stays within the text and holds only
/// name characters.
pub proof fn lemma_name_end_bounds(s: Seq<char>, j: int)
    requires
        0 <= j <= s.len(),
    ensures
        j <= name_end(s, j) <= s.len(),
        forall|k: int| j <= k < name_end(s, j) ==> is_name_char(#[trigger] s[k]),
    decreases s.len() - j,
{
    if j < s.len() && is_name_char(s[j]) {
        lemma_name_end_bounds(s, j + 1);
    }
}

/// The search for `}` from `j` stays within the text and passes over no `}`.
pub proof fn lemma_close_at_bounds(s: Seq<char>, j: int)
    requires
        0 <= j <= s.len(),
    ensures
        j <= close_at(s, j) <= s.len(),
        forall|k: int| j <= k < close_at(s, j) ==> #[trigger] s[k] != '}',
    decreases s.len() - j,
{
    if j < s.len() && s[j] != '}' {
        lemma_close_at_bounds(s, j + 1);
    }
}

/// A placeholder starting at `i`: `${`, a name, then `}` or `:-`, a default
/// free of `}`, and `}`. Gives where the name ends and where the placeholder
/// ends.
pub open spec fn placeholder_at(s: Seq<char>, i: int) -> Option<(int, int)> {
    if 0 <= i && i + 2 < s.len() && s[i] == '$' && s[i + 1] == '{' && is_name_start(s[i + 2]) {
        let e = name_end(s, i + 2);
        if e < s.len() && s[e] == '}' {
            Some((e, e + 1))
        } else if e + 1 < s.len() && s[e] == ':' && s[e + 1] == '-' && close_at(s, e + 2) < s.len() {
            Some((e, close_at(s, e + 2) + 1))
        } else {
            None
        }
    } else {
        None
    }
}

/// What the placeholder from `i` to `end` with name ending at `e` becomes:
/// the variable's value where it is set, else the default, else nothing.
pub open spec fn replacement(s: Seq<char>, i: int, e: int, end: int, env: Environment) -> Seq<char> {
    match env.value_of(s.subrange(i + 2, e)) {
        Some(v) => v,
        None => if s[e] == ':' {
            s.subrange(e + 2, end - 1)
        } else {
            Seq::empty()
        },
    }
}

/// The expansion of `s` from position `i` on: placeholders are replaced left
/// to right, each scan resuming after the placeholder it replaced.
pub open spec fn expand_from(s: Seq<char>, i: int, env: Environment) -> Seq<char>
    decreases s.len() - i,
{
    if i < 0 || i >= s.len() {
        Seq::empty()
    } else {
        match placeholder_at(s, i) {
            Some((e, end)) => {
                proof {
                    lemma_name_end_bounds(s, i + 2);
                    if e + 1 < s.len() {
                        lemma_close_at_bounds(s, e + 2);
                    }
                }
                replacement(s, i, e, end, env) + expand_from(s, end, env)
            },
            None => seq![s[i]] + expand_from(s, i + 1, env),
        }
    }
}

/// The expansion of the whole text.
pub open spec fn expansion(s: Seq<char>, env: Environment) -> Seq<char> {
    expand_from(s, 0, env)
}

fn name_start(c: char) -> (r: bool)
    ensures
        r == is_name_start(c),
{
    ('A' <= c && c <= 'Z') || ('a' <= c && c <= 'z') || c == '_'
}

fn name_char(c: char) -> (r: bool)
    ensures
        r == is_name_char(c),
{
    name_start(c) || ('0' <= c && c <= '9')
}

/// The placeholder that starts at `i`, if one does.
fn find_placeholder(s: &Vec<char>, i: usize) -> (r: Option<(usize, usize)>)
    requires
        i < s@.len(),
    ensures
        match r {
            Some((e, end)) => placeholder_at(s@, i as int) == Some((e as int, end as int)),
            None => placeholder_at(s@, i as int) is None,
        },
{
    let n = s.len();
    if !(n - i > 2 && s[i] == '$' && s[i + 1] == '{') {
        return None;
    }
    if !name_start(s[i + 2]) {
        return None;
    }
    let mut e: usize = i + 2;
    while e < n && name_char(s[e])
        invariant
            n == s@.len(),
            i + 2 <= e <= n,
            name_end(s@, e as int) == name_end(s@, i + 2),
        decreases n - e,
    {
        e = e + 1;
    }
    if e < n && s[e] == '}' {
        return Some((e, e + 1));
    }
    if e < n && n - e > 1 && s[e] == ':' && s[e + 1] == '-' {
        let mut c = e + 2;
        while c < n && s[c] != '}'
            invariant
                n == s@.len(),
                e + 2 <= c <= n,
                close_at(s@, c as int) == close_at(s@, e + 2),
            decreases n - c,
        {
            c = c + 1;
        }
        if c < n {
            return Some((e, c + 1));
        }
    }
    None
}

/// Replaces each `${NAME}` in `input` by the variable's value (or by nothing
/// where it is unset) and each `${NAME:-default}` by the value or, where the
/// variable is unset, by the default; scans left to right and does not expand
/// what it substituted.
pub fn expand(input: &str, env: &Environment) -> (r: String)
    ensures
        r@ == expansion(input@, *env),
{
    let s = chars_of(input);
    let n = s.len();
    let mut out: Vec<char> = Vec::new();
    let mut i: usize = 0;
    while i < n
        invariant
            n == s@.len(),
            s@ == input@,
            i <= n,
            out@ + expand_from(s@, i as int, *env) == expand_from(s@, 0, *env),
        decreases n - i,
    {
        match find_placeholder(&s, i) {
            Some((e, end)) => {
                proof {
                    lemma_name_end_bounds(s@, i + 2);
                    if e + 1 < n {
                        lemma_close_at_bounds(s@, e + 2);
                    }
                }
                let name = string_from_chars(&slice_chars(&s, i + 2, e));
                let piece: Vec<char> = match env.get(name.as_str()) {
                    Some(v) => chars_of(v.as_str()),
                    None => if s[e] == ':' {
                        slice_chars(&s, e + 2, end - 1)
                    } else {
                        Vec::new()
                    },
                };
                proof {
                    assert(piece@ == replacement(s@, i as int, e as int, end as int, *env));
                }
                let ghost before = out@;
                append_chars(&mut out, &piece);
                proof {
                    assert(out@ + expand_from(s@, end as int, *env) =~= before + (piece@ + expand_from(s@, end as int, *env)));
                }
                i = end;
            },
            None => {
                let ghost before = out@;
                out.push(s[i]);
                proof {
                    assert(out@ + expand_from(s@, i + 1, *env) =~= before + (seq![s@[i as int]] + expand_from(s@, i + 1, *env)));
                }
                i = i + 1;
            },
        }
    }
    assert(out@ =~= out@ + expand_from(s@, i as int, *env));
    string_from_chars(&out)
}

/// The characters of `s` from `from` up to (not including) `to`.
fn slice_chars(s: &Vec<char>, from: usize, to: usize) -> (r: Vec<char>)
    requires
        from <= to <= s@.len(),
    ensures
        r@ == s@.subrange(from as int, to as int),
{
    let mut r: Vec<char> = Vec::new();
    let mut k: usize = from;
    while k < to
        invariant
            from <= k <= to <= s@.len(),
            r@ == s@.subrange(from as int, k as int),
        decreases to - k,
    {
        r.push(s[k]);
        assert(r@ =~= s@.subrange(from as int, k + 1));
        k = k + 1;
    }
    r
}

fn append_chars(out: &mut Vec<char>, more: &Vec<char>)
    ensures
        final(out)@ == old(out)@ + more@,
{
    let mut k: usize = 0;
    while k < more.len()
        invariant
            k <= more@.len(),
            out@ == old(out)@ + more@.subrange(0, k as int),
        decreases more@.len() - k,
    {
        out.push(more[k]);
        assert(out@ =~= old(out)@ + more@.subrange(0, k + 1));
        k = k + 1;
    }
    assert(more@.subrange(0, k as int) =~= more@);
}


/// Text without a `$` is left as it is.
pub proof fn law_plain_text_unchanged(s: Seq<char>, env: Environment)
    requires
        forall|i: int| 0 <= i < s.len() ==> #[trigger] s[i] != '$',
    ensures
        expansion(s, env) == s,
{
    lemma_plain_from(s, env, 0);
    assert(s.skip(0) =~= s);
}

proof fn lemma_plain_from(s: Seq<char>, env: Environment, i: int)
    requires
        forall|k: int| 0 <= k < s.len() ==> #[trigger] s[k] != '$',
        0 <= i <= s.len(),
    ensures
        expand_from(s, i, env) == s.skip(i),
    decreases s.len() - i,
{
    if i < s.len() {
        lemma_plain_from(s, env, i + 1);
        assert(placeholder_at(s, i) is None);
        assert(s.skip(i) =~= seq![s[i]] + s.skip(i + 1));
    } else {
        assert(s.skip(i) =~= Seq::<char>::empty());
    }
}

/// A valid variable name: a name character run that starts like a name.
pub open spec fn is_variable_name(name: Seq<char>) -> bool {
    &&& name.len() > 0
    &&& is_name_start(name[0])
    &&& forall|k: int| 0 <= k < name.len() ==> is_name_char(#[trigger] name[k])
}

proof fn lemma_name_end_of(s: Seq<char>, j: int, e: int)
    requires
        0 <= j <= e <= s.len(),
        forall|k: int| j <= k < e ==> is_name_char(#[trigger] s[k]),
        e == s.len() || !is_name_char(s[e]),
    ensures
        name_end(s, j) == e,
    decreases e - j,
{
    if j < e {
        lemma_name_end_of(s, j + 1, e);
    }
}

proof fn lemma_close_at_of(s: Seq<char>, j: int, c: int)
    requires
        0 <= j <= c < s.len(),
        forall|k: int| j <= k < c ==> #[trigger] s[k] != '}',
        s[c] == '}',
    ensures
        close_at(s, j) == c,
    decreases c - j,
{
    if j < c {
        lemma_close_at_of(s, j + 1, c);
    }
}

/// `${NAME}` becomes the variable's value, or nothing where it is unset.
pub proof fn law_placeholder_value(name: Seq<char>, env: Environment)
    requires
        is_variable_name(name),
    ensures
        expansion(seq!['$', '{'] + name + seq!['}'], env) == match env.value_of(name) {
            Some(v) => v,
            None => Seq::<char>::empty(),
        },
{
    let s = seq!['$', '{'] + name + seq!['}'];
    let e: int = 2 + name.len() as int;
    assert forall|k: int| 2 <= k < e implies is_name_char(#[trigger] s[k]) by {
        assert(s[k] == name[k - 2]);
    }
    assert(s[e] == '}');
    lemma_name_end_of(s, 2, e);
    assert(s.subrange(2, e) =~= name);
    assert(placeholder_at(s, 0) == Some((e, e + 1)));
    assert(expand_from(s, e + 1, env) == Seq::<char>::empty());
    assert(replacement(s, 0, e, e + 1, env) + Seq::<char>::empty() =~= replacement(s, 0, e, e + 1, env));
}

/// `${NAME:-default}` becomes the variable's value, or the default where the
/// variable is unset.
pub proof fn law_placeholder_default(name: Seq<char>, default: Seq<char>, env: Environment)
    requires
        is_variable_name(name),
        forall|k: int| 0 <= k < default.len() ==> #[trigger] default[k] != '}',
    ensures
        expansion(seq!['$', '{'] + name + seq![':', '-'] + default + seq!['}'], env) == match env.value_of(name) {
            Some(v) => v,
            None => default,
        },
{
    let s = seq!['$', '{'] + name + seq![':', '-'] + default + seq!['}'];
    let e: int = 2 + name.len() as int;
    let c: int = e + 2 + default.len() as int;
    assert forall|k: int| 2 <= k < e implies is_name_char(#[trigger] s[k]) by {
        assert(s[k] == name[k - 2]);
    }
    assert(s[e] == ':');
    assert(s[e + 1] == '-');
    lemma_name_end_of(s, 2, e);
    assert forall|k: int| e + 2 <= k < c implies #[trigger] s[k] != '}' by {
        assert(s[k] == default[k - e - 2]);
    }
    assert(s[c] == '}');
    lemma_close_at_of(s, e + 2, c);
    assert(s.subrange(2, e) =~= name);
    assert(s.subrange(e + 2, c) =~= default);
    assert(placeholder_at(s, 0) == Some((e, c + 1)));
    assert(expand_from(s, c + 1, env) == Seq::<char>::empty());
    assert(replacement(s, 0, e, c + 1, env) + Seq::<char>::empty() =~= replacement(s, 0, e, c + 1, env));
}

/// A placeholder `${NAME}` whose name starts with an ASCII letter or `_`
/// and goes on with ASCII letters, digits or `_` gives the variable's value
/// where it is set, and nothing where it is not.
pub proof fn law_placeholder_name_classes(name: Seq<char>, env: Environment)
    requires
        name.len() > 0,
        ('A' <= name[0] && name[0] <= 'Z') || ('a' <= name[0] && name[0] <= 'z') || name[0] == '_',
        forall|k: int| 0 <= k < name.len() ==> {
            let c = #[trigger] name[k];
            ('A' <= c && c <= 'Z') || ('a' <= c && c <= 'z') || ('0' <= c && c <= '9') || c == '_'
        },
    ensures
        env.value_of(name) matches Some(v) ==> expansion(seq!['$', '{'] + name + seq!['}'], env) == v,
        env.value_of(name) is None ==> expansion(seq!['$', '{'] + name + seq!['}'], env) == Seq::<char>::empty(),
{
    assert forall|k: int| 0 <= k < name.len() implies is_name_char(#[trigger] name[k]) by {
        let c = name[k];
        assert(('A' <= c && c <= 'Z') || ('a' <= c && c <= 'z') || ('0' <= c && c <= '9') || c == '_');
    }
    assert(is_variable_name(name));
    law_placeholder_value(name, env);
}

} // verus!

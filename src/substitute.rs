//! `{{ name }}` placeholder substitution.
use vstd::prelude::*;
use crate::error::{Fault, ResolveError};
use crate::text::{chars_of, is_ws, is_ws_exec, occurs_at, occurs_at_exec, slice_of, string_of, trim_end, trail_ws};
use crate::variables::VariableCollection;

verus! {

/// The first position at or after `i` that is not whitespace.
pub open spec fn skip_ws(s: Seq<char>, i: int) -> int
    decreases s.len() - i,
{
    if 0 <= i < s.len() && is_ws(s[i]) {
        skip_ws(s, i + 1)
    } else {
        i
    }
}

/// The first position at or after `i` where `p` occurs.
pub open spec fn find_from(s: Seq<char>, i: int, p: Seq<char>) -> Option<int>
    decreases s.len() + 1 - i,
{
    if i < 0 || i + p.len() > s.len() {
        None
    } else if occurs_at(s, i, p) {
        Some(i)
    } else {
        find_from(s, i + 1, p)
    }
}

/// The placeholder that starts at `i`, if one does: `{{`, optional
/// whitespace, the name up to the first `}}` without its trailing
/// whitespace, `}}`. Gives the name and the position after the `}}`.
pub open spec fn placeholder_at(s: Seq<char>, i: int) -> Option<(Seq<char>, int)> {
    if occurs_at(s, i, seq!['{', '{']) {
        let b = skip_ws(s, i + 2);
        match find_from(s, b, seq!['}', '}']) {
            Some(q) => Some((trim_end(s.subrange(b, q)), q + 2)),
            None => None,
        }
    } else {
        None
    }
}

/// `s[i..]` with each placeholder replaced by its variable's value, or the
/// first name that `vars` lacks. Values are not scanned again.
pub open spec fn subst_from(s: Seq<char>, i: int, vars: Map<Seq<char>, Seq<char>>) -> Result<Seq<char>, Seq<char>>
    decreases s.len() - i,
{
    if i < 0 || i >= s.len() {
        Ok(Seq::empty())
    } else {
        match placeholder_at(s, i) {
            Some((n, e)) => if !vars.contains_key(n) {
                Err(n)
            } else if i < e <= s.len() {
                match subst_from(s, e, vars) {
                    Ok(r) => Ok(vars[n] + r),
                    Err(x) => Err(x),
                }
            } else {
                Ok(Seq::empty())
            },
            None => match subst_from(s, i + 1, vars) {
                Ok(r) => Ok(seq![s[i]] + r),
                Err(x) => Err(x),
            },
        }
    }
}

/// `s` with every placeholder substituted.
pub open spec fn subst(s: Seq<char>, vars: Map<Seq<char>, Seq<char>>) -> Result<Seq<char>, Seq<char>> {
    subst_from(s, 0, vars)
}

/// Each of `v[i..]` substituted, or the first missing name.
pub open spec fn subst_each(v: Seq<Seq<char>>, i: int, vars: Map<Seq<char>, Seq<char>>) -> Result<Seq<Seq<char>>, Seq<char>>
    decreases v.len() - i,
{
    if i < 0 || i >= v.len() {
        Ok(Seq::empty())
    } else {
        match subst(v[i], vars) {
            Err(x) => Err(x),
            Ok(y) => match subst_each(v, i + 1, vars) {
                Ok(r) => Ok(seq![y] + r),
                Err(x) => Err(x),
            },
        }
    }
}

pub proof fn lemma_find_from_ge(s: Seq<char>, i: int, p: Seq<char>)
    ensures
        find_from(s, i, p) matches Some(q) ==> i <= q && occurs_at(s, q, p),
    decreases s.len() + 1 - i,
{
    if !(i < 0 || i + p.len() > s.len()) && !occurs_at(s, i, p) {
        lemma_find_from_ge(s, i + 1, p);
    }
}

pub fn skip_ws_exec(s: &[char], i: usize) -> (r: usize)
    requires
        i <= s.len(),
    ensures
        r == skip_ws(s@, i as int),
        i <= r <= s.len(),
{
    let mut j = i;
    while j < s.len() && is_ws_exec(s[j])
        invariant
            i <= j <= s.len(),
            skip_ws(s@, i as int) == skip_ws(s@, j as int),
        decreases s.len() - j,
    {
        j = j + 1;
    }
    j
}

pub fn find_from_exec(s: &[char], i: usize, p: &[char]) -> (r: Option<usize>)
    requires
        i <= s.len(),
    ensures
        r matches Some(q) ==> find_from(s@, i as int, p@) == Some(q as int),
        r is None ==> find_from(s@, i as int, p@) is None,
{
    let mut j = i;
    while p.len() <= s.len() - j
        invariant
            i <= j <= s.len(),
            find_from(s@, i as int, p@) == find_from(s@, j as int, p@),
        decreases s.len() + 1 - j,
    {
        if occurs_at_exec(s, j, p) {
            return Some(j);
        }
        proof {
            if j == s.len() {
                assert(s@.subrange(j as int, j as int) =~= p@);
            }
        }
        j = j + 1;
    }
    None
}

pub fn trim_end_exec(v: &[char]) -> (r: Vec<char>)
    ensures
        r@ == trim_end(v@),
{
    let mut j: usize = v.len();
    assert(v@ =~= v@.subrange(0, v.len() as int));
    while j > 0 && is_ws_exec(v[j - 1])
        invariant
            j <= v.len(),
            trail_ws(v@) == (v.len() - j) + trail_ws(v@.subrange(0, j as int)),
        decreases j,
    {
        assert(v@.subrange(0, j as int).drop_last() =~= v@.subrange(0, j - 1));
        j = j - 1;
    }
    slice_of(v, 0, j)
}

fn placeholder_at_exec(s: &[char], i: usize) -> (r: Option<(Vec<char>, usize)>)
    requires
        i < s.len(),
    ensures
        r matches Some(x) ==> placeholder_at(s@, i as int) == Some((x.0@, x.1 as int)) && i < x.1 <= s.len(),
        r is None ==> placeholder_at(s@, i as int) is None,
{
    proof {
        assert(['{', '{']@ =~= seq!['{', '{']);
        assert(['}', '}']@ =~= seq!['}', '}']);
    }
    if s.len() - i >= 2 && occurs_at_exec(s, i, &['{', '{']) {
        let b = skip_ws_exec(s, i + 2);
        match find_from_exec(s, b, &['}', '}']) {
            Some(q) => {
                proof {
                    lemma_find_from_ge(s@, b as int, seq!['}', '}']);
                }
                let inner = slice_of(s, b, q);
                let name = trim_end_exec(inner.as_slice());
                Some((name, q + 2))
            },
            None => None,
        }
    } else {
        None
    }
}

/// `names` lists the keys of `m`, each once.
pub open spec fn lists_keys(names: Seq<String>, m: Map<Seq<char>, Seq<char>>) -> bool {
    &&& forall|i: int, j: int| 0 <= i < names.len() && 0 <= j < names.len() && i != j ==> #[trigger] names[i]@ != #[trigger] names[j]@
    &&& forall|k: Seq<char>| m.contains_key(k) <==> exists|i: int| 0 <= i < names.len() && #[trigger] names[i]@ == k
}

/// The names bound in `vars`, each once.
fn available_names(vars: &VariableCollection) -> (r: Vec<String>)
    requires
        vars.wf(),
    ensures
        lists_keys(r@, vars@),
{
    let keys = vars.keys();
    let mut r: Vec<String> = Vec::new();
    let mut i: usize = 0;
    while i < keys.len()
        invariant
            i <= keys.len(),
            r.len() == i,
            forall|j: int| 0 <= j < i ==> #[trigger] r@[j]@ == keys@[j]@,
        decreases keys.len() - i,
    {
        r.push(keys[i].to_owned());
        i = i + 1;
    }
    assert forall|k: Seq<char>| vars@.contains_key(k) <==> exists|i: int| 0 <= i < r.len() && #[trigger] r@[i]@ == k by {
        if exists|i: int| 0 <= i < r.len() && #[trigger] r@[i]@ == k {
            let i = choose|i: int| 0 <= i < r.len() && #[trigger] r@[i]@ == k;
            assert(keys@[i]@ == k);
        }
        if vars@.contains_key(k) {
            let i = choose|i: int| 0 <= i < keys.len() && #[trigger] keys@[i]@ == k;
            assert(r@[i]@ == k);
        }
    }
    assert forall|i: int, j: int| 0 <= i < r.len() && 0 <= j < r.len() && i != j implies #[trigger] r@[i]@ != #[trigger] r@[j]@ by {
        assert(keys@[i]@ != keys@[j]@);
    }
    r
}

/// The value of the variable a placeholder names.
pub fn handle_capture(capture: &str, variables: &VariableCollection) -> (r: Result<String, ResolveError>)
    requires
        variables.wf(),
    ensures
        variables@.contains_key(capture@) ==> (r matches Ok(v) && v@ == variables@[capture@]),
        !variables@.contains_key(capture@) ==> (r matches Err(ResolveError::MissingVariable { name, available }) && name@
            == capture@ && lists_keys(available@, variables@)),
{
    if variables.has(capture) {
        Ok(variables.get(capture).to_owned())
    } else {
        Err(ResolveError::MissingVariable { name: capture.to_owned(), available: available_names(variables) })
    }
}

/// `input` with every `{{ name }}` placeholder replaced by its value.
pub fn replace_variables(input: &str, variables: &VariableCollection) -> (r: Result<String, ResolveError>)
    requires
        variables.wf(),
    ensures
        subst(input@, variables@) matches Ok(t) ==> (r matches Ok(v) && v@ == t),
        subst(input@, variables@) matches Err(n) ==> (r matches Err(e) && e@ == Fault::MissingVariable(n)),
        r matches Err(ResolveError::MissingVariable { available, .. }) ==> lists_keys(available@, variables@),
{
    let s = chars_of(input);
    let mut out: Vec<char> = Vec::new();
    let mut i: usize = 0;
    while i < s.len()
        invariant
            i <= s.len(),
            s@ == input@,
            variables.wf(),
            subst_from(s@, 0, variables@) == (match subst_from(s@, i as int, variables@) {
                Ok(r) => Ok(out@ + r),
                Err(x) => Err(x),
            }),
        decreases s.len() - i,
    {
        match placeholder_at_exec(s.as_slice(), i) {
            Some((name, e)) => {
                let n = string_of(name.as_slice());
                match handle_capture(n.as_str(), variables) {
                    Ok(v) => {
                        let mut vc = chars_of(v.as_str());
                        let ghost before = out@;
                        out.append(&mut vc);
                        proof {
                            match subst_from(s@, e as int, variables@) {
                                Ok(r) => {
                                    assert(before + (v@ + r) =~= out@ + r);
                                },
                                Err(_) => {},
                            }
                        }
                        i = e;
                    },
                    Err(err) => {
                        return Err(err);
                    },
                }
            },
            None => {
                let ghost before = out@;
                out.push(s[i]);
                proof {
                    match subst_from(s@, i + 1, variables@) {
                        Ok(r) => {
                            assert(before + (seq![s@[i as int]] + r) =~= out@ + r);
                        },
                        Err(_) => {},
                    }
                }
                i = i + 1;
            },
        }
    }
    assert(out@ + Seq::<char>::empty() =~= out@);
    Ok(string_of(out.as_slice()))
}

} // verus!

//! The substitution scope: a map from variable names to values.
use vstd::prelude::*;

verus! {

/// The map that a list of entries stands for; a later entry for a key
/// replaces an earlier one.
pub open spec fn entries_map(e: Seq<(String, String)>) -> Map<Seq<char>, Seq<char>>
    decreases e.len(),
{
    if e.len() == 0 {
        Map::empty()
    } else {
        entries_map(e.drop_last()).insert(e.last().0@, e.last().1@)
    }
}

/// No two entries share a key.
pub open spec fn keys_unique(e: Seq<(String, String)>) -> bool {
    forall|i: int, j: int|
        0 <= i < e.len() && 0 <= j < e.len() && i != j ==> #[trigger] e[i].0@ != #[trigger] e[j].0@
}

proof fn lemma_entries_map_index(e: Seq<(String, String)>, i: int)
    requires
        keys_unique(e),
        0 <= i < e.len(),
    ensures
        entries_map(e).contains_key(e[i].0@),
        entries_map(e)[e[i].0@] == e[i].1@,
    decreases e.len(),
{
    if i < e.len() - 1 {
        let p = e.drop_last();
        assert(keys_unique(p));
        assert(p[i] == e[i]);
        lemma_entries_map_index(p, i);
        assert(e[i].0@ != e[e.len() - 1].0@);
    }
}

proof fn lemma_entries_map_dom(e: Seq<(String, String)>, k: Seq<char>)
    ensures
        entries_map(e).contains_key(k) <==> exists|i: int| 0 <= i < e.len() && #[trigger] e[i].0@ == k,
    decreases e.len(),
{
    if e.len() > 0 {
        let p = e.drop_last();
        lemma_entries_map_dom(p, k);
        if entries_map(p).contains_key(k) {
            let i = choose|i: int| 0 <= i < p.len() && #[trigger] p[i].0@ == k;
            assert(e[i].0@ == k);
        }
        if exists|i: int| 0 <= i < e.len() && #[trigger] e[i].0@ == k {
            let i = choose|i: int| 0 <= i < e.len() && #[trigger] e[i].0@ == k;
            if i < e.len() - 1 {
                assert(p[i].0@ == k);
            }
        }
    }
}

proof fn lemma_entries_map_update(e: Seq<(String, String)>, i: int, x: (String, String))
    requires
        keys_unique(e),
        0 <= i < e.len(),
        x.0@ == e[i].0@,
    ensures
        entries_map(e.update(i, x)) == entries_map(e).insert(x.0@, x.1@),
    decreases e.len(),
{
    let u = e.update(i, x);
    if i == e.len() - 1 {
        assert(u.drop_last() =~= e.drop_last());
        assert(entries_map(u) =~= entries_map(e).insert(x.0@, x.1@));
    } else {
        let p = e.drop_last();
        assert(keys_unique(p));
        lemma_entries_map_update(p, i, x);
        assert(u.drop_last() =~= p.update(i, x));
        assert(x.0@ != e.last().0@);
        assert(entries_map(u) =~= entries_map(e).insert(x.0@, x.1@));
    }
}

/// A scope of substitution variables. Each `set` gives back the extended
/// scope; a scope that a caller still holds is never changed.
#[derive(Clone)]
pub struct VariableCollection {
    variables: Vec<(String, String)>,
}

impl View for VariableCollection {
    type V = Map<Seq<char>, Seq<char>>;

    closed spec fn view(&self) -> Map<Seq<char>, Seq<char>> {
        entries_map(self.variables@)
    }
}

impl VariableCollection {
    /// Keys are unique.
    pub closed spec fn wf(&self) -> bool {
        keys_unique(self.variables@)
    }

    /// An empty scope.
    pub fn new() -> (r: VariableCollection)
        ensures
            r.wf(),
            r@ == Map::<Seq<char>, Seq<char>>::empty(),
    {
        VariableCollection { variables: Vec::new() }
    }

    /// The position of `key` among the entries, if any.
    fn find(&self, key: &str) -> (r: Option<usize>)
        requires
            self.wf(),
        ensures
            r is None ==> !self@.contains_key(key@),
            r matches Some(i) ==> i < self.variables.len() && self.variables@[i as int].0@ == key@,
    {
        let k = key.to_owned();
        let mut i: usize = 0;
        while i < self.variables.len()
            invariant
                i <= self.variables.len(),
                k@ == key@,
                forall|j: int| 0 <= j < i ==> #[trigger] self.variables@[j].0@ != key@,
            decreases self.variables.len() - i,
        {
            if self.variables[i].0 == k {
                return Some(i);
            }
            i = i + 1;
        }
        proof {
            lemma_entries_map_dom(self.variables@, key@);
        }
        None
    }

    /// The scope with `key` bound to `value`, replacing any earlier binding.
    pub fn set(self, key: &str, value: &str) -> (r: VariableCollection)
        requires
            self.wf(),
        ensures
            r.wf(),
            r@ == self@.insert(key@, value@),
    {
        let found = self.find(key);
        let mut variables = self.variables;
        let entry = (key.to_owned(), value.to_owned());
        let ghost old_entries = variables@;
        match found {
            Some(i) => {
                proof {
                    lemma_entries_map_update(old_entries, i as int, entry);
                }
                variables.set(i, entry);
                assert(variables@ == old_entries.update(i as int, entry));
            },
            None => {
                proof {
                    lemma_entries_map_dom(old_entries, key@);
                }
                variables.push(entry);
                assert(variables@.drop_last() =~= old_entries);
            },
        }
        VariableCollection { variables }
    }

    /// A copy of this scope.
    pub fn copied(&self) -> (r: VariableCollection)
        requires
            self.wf(),
        ensures
            r.wf(),
            r@ == self@,
    {
        let mut variables: Vec<(String, String)> = Vec::new();
        let mut i: usize = 0;
        while i < self.variables.len()
            invariant
                i <= self.variables.len(),
                variables@ == self.variables@.take(i as int),
            decreases self.variables.len() - i,
        {
            let e = &self.variables[i];
            variables.push((e.0.clone(), e.1.clone()));
            i = i + 1;
            assert(variables@ =~= self.variables@.take(i as int));
        }
        assert(variables@ =~= self.variables@);
        VariableCollection { variables }
    }

    /// The names of all variables, each once.
    pub fn keys(&self) -> (r: Vec<&str>)
        requires
            self.wf(),
        ensures
            forall|i: int, j: int| 0 <= i < r.len() && 0 <= j < r.len() && i != j ==> #[trigger] r@[i]@ != #[trigger] r@[j]@,
            forall|k: Seq<char>| self@.contains_key(k) <==> exists|i: int| 0 <= i < r.len() && #[trigger] r@[i]@ == k,
    {
        let mut r: Vec<&str> = Vec::new();
        let mut i: usize = 0;
        while i < self.variables.len()
            invariant
                i <= self.variables.len(),
                r.len() == i,
                forall|j: int| 0 <= j < i ==> #[trigger] r@[j]@ == self.variables@[j].0@,
            decreases self.variables.len() - i,
        {
            r.push(self.variables[i].0.as_str());
            i = i + 1;
        }
        assert forall|k: Seq<char>| self@.contains_key(k) <==> exists|i: int| 0 <= i < r.len() && #[trigger] r@[i]@ == k by {
            lemma_entries_map_dom(self.variables@, k);
            if exists|i: int| 0 <= i < r.len() && #[trigger] r@[i]@ == k {
                let i = choose|i: int| 0 <= i < r.len() && #[trigger] r@[i]@ == k;
                assert(self.variables@[i].0@ == k);
            }
            if self@.contains_key(k) {
                let i = choose|i: int| 0 <= i < self.variables@.len() && #[trigger] self.variables@[i].0@ == k;
                assert(r@[i]@ == k);
            }
        }
        r
    }

    /// The number of bindings.
    pub closed spec fn size(&self) -> nat {
        self.variables.len() as nat
    }

    pub fn len(&self) -> (r: usize)
        ensures
            r == self.size(),
    {
        self.variables.len()
    }

    /// Whether `key` is bound.
    pub fn has(&self, key: &str) -> (r: bool)
        requires
            self.wf(),
        ensures
            r == self@.contains_key(key@),
    {
        match self.find(key) {
            Some(i) => {
                proof {
                    lemma_entries_map_index(self.variables@, i as int);
                }
                true
            },
            None => false,
        }
    }

    /// The value bound to `key`, or the empty string where it is unbound.
    pub fn get(&self, key: &str) -> (r: &str)
        requires
            self.wf(),
        ensures
            self@.contains_key(key@) ==> r@ == self@[key@],
            !self@.contains_key(key@) ==> r@ == Seq::<char>::empty(),
    {
        match self.find(key) {
            Some(i) => {
                proof {
                    lemma_entries_map_index(self.variables@, i as int);
                }
                self.variables[i].1.as_str()
            },
            None => {
                proof {
                    reveal_strlit("");
                }
                ""
            },
        }
    }
}

} // verus!

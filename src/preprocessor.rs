//! The resolution engine: follows `EXTEND` chains, overlays blocks, expands
//! `INCLUDE`s, substitutes variables and rewrites `COPY`/`ADD` sources.
//!
//! File texts are handed in as a [`SourceSet`] keyed by absolute path. Where
//! a file that resolution needs is not in the set, it stops with
//! `MissingSource` naming the path; the caller reads that file, adds it and
//! runs the resolution again.
use vstd::prelude::*;
use crate::block::{block_regions, has_parent_marker, named, splice, splice_exec, table_get, BlockCollection};
use crate::command::{directive_views, file_directives, space_at_or_after, space_at_or_after_exec, string_views, Command, CommandCollection, DirectiveView};
use crate::error::{Fault, ResolveError};
use crate::path::{comps_from, parent_comps, parent_of, render_abs, render_abs_exec, render_rel, render_rel_exec, resolve_path, resolve_path_exec, within, within_exec};
use crate::substitute::{find_from, find_from_exec, lemma_find_from_ge, replace_variables, skip_ws, skip_ws_exec, subst, subst_each, trim_end_exec};
use crate::text::{chars_of, occurs_at, occurs_at_exec, slice_of, string_of, trim, trim_chars, trim_end, views};
use crate::variables::VariableCollection;

verus! {

pub open spec fn kw_include() -> Seq<char> {
    seq!['I', 'N', 'C', 'L', 'U', 'D', 'E']
}

pub open spec fn kw_copy() -> Seq<char> {
    seq!['C', 'O', 'P', 'Y']
}

pub open spec fn kw_add() -> Seq<char> {
    seq!['A', 'D', 'D']
}

pub open spec fn kw_extend() -> Seq<char> {
    seq!['E', 'X', 'T', 'E', 'N', 'D']
}

pub open spec fn kw_block() -> Seq<char> {
    seq!['B', 'L', 'O', 'C', 'K']
}

pub open spec fn kw_end_block() -> Seq<char> {
    seq!['E', 'N', 'D', 'B', 'L', 'O', 'C', 'K']
}

pub open spec fn kw_with() -> Seq<char> {
    seq!['W', 'I', 'T', 'H']
}

pub open spec fn kw_only() -> Seq<char> {
    seq!['O', 'N', 'L', 'Y']
}

/// What resolution works in: the sandbox root's components and the file
/// texts by absolute path.
pub struct Env {
    pub root: Seq<Seq<char>>,
    pub sources: Map<Seq<char>, Seq<char>>,
    pub paths: Map<Seq<char>, Seq<char>>,
}

/// The canonical components of the absolute path `key`, as `paths` records
/// it: an empty record means that nothing exists there.
pub open spec fn canonical(paths: Map<Seq<char>, Seq<char>>, key: Seq<char>) -> Result<Seq<Seq<char>>, Fault> {
    if !paths.contains_key(key) {
        Err(Fault::UnknownPath(key))
    } else if paths[key].len() == 0 {
        Err(Fault::UnresolvedTarget(key))
    } else {
        Ok(resolve_path(Seq::empty(), paths[key]))
    }
}

/// `a` put in front of a successful result.
pub open spec fn prefixed<T, E>(a: Seq<T>, r: Result<Seq<T>, E>) -> Result<Seq<T>, E> {
    match r {
        Ok(x) => Ok(a + x),
        Err(e) => Err(e),
    }
}

/// The sandboxed form of a `COPY`/`ADD` source: taken relative to `dir`
/// and canonicalized, it must exist and lie under the root, and is given
/// relative to it.
pub open spec fn copy_source(root: Seq<Seq<char>>, paths: Map<Seq<char>, Seq<char>>, dir: Seq<Seq<char>>, token: Seq<char>) -> Result<Seq<char>, Fault> {
    match canonical(paths, render_abs(resolve_path(dir, token))) {
        Err(x) => Err(x),
        Ok(c) => if within(root, c) {
            Ok(render_rel(c.skip(root.len() as int)))
        } else {
            Err(Fault::PathOutsideSandbox(render_abs(c)))
        },
    }
}

/// A `COPY`/`ADD` argument with its first word, the source, sandboxed.
pub open spec fn rewrite_copy(root: Seq<Seq<char>>, paths: Map<Seq<char>, Seq<char>>, dir: Seq<Seq<char>>, arg: Seq<char>) -> Result<Seq<char>, Fault> {
    let k = space_at_or_after(arg, 0);
    let rest = if k < arg.len() { arg.skip(k + 1) } else { Seq::empty() };
    match copy_source(root, paths, dir, arg.take(k)) {
        Ok(src) => Ok(trim(src + seq![' '] + rest)),
        Err(f) => Err(f),
    }
}

/// The directive with its options and `arg` substituted.
pub open spec fn substituted(d: DirectiveView, arg: Seq<char>, vars: Map<Seq<char>, Seq<char>>) -> Result<Seq<DirectiveView>, Fault> {
    match subst_each(d.options, 0, vars) {
        Err(n) => Err(Fault::MissingVariable(n)),
        Ok(os) => match subst(arg, vars) {
            Err(n) => Err(Fault::MissingVariable(n)),
            Ok(a) => Ok(seq![DirectiveView { name: d.name, options: os, argument: a }]),
        },
    }
}

/// The `WITH { … } [ONLY]` clause whose `WITH` stands at `w`, if one does:
/// the text between the braces and whether `ONLY` follows.
pub open spec fn with_clause_at(s: Seq<char>, w: int) -> Option<(Seq<char>, bool)> {
    if occurs_at(s, w, kw_with()) {
        let c = skip_ws(s, w + 4);
        if 0 <= c < s.len() && s[c] == '{' {
            match find_from(s, c + 1, seq!['}']) {
                Some(d) => Some((s.subrange(c + 1, d), occurs_at(s, skip_ws(s, d + 1), kw_only()))),
                None => None,
            }
        } else {
            None
        }
    } else {
        None
    }
}

/// The first `WITH` clause at or after `w`.
pub open spec fn first_with(s: Seq<char>, w: int) -> Option<(int, Seq<char>, bool)>
    decreases s.len() - w,
{
    if w < 0 || w >= s.len() {
        None
    } else {
        match with_clause_at(s, w) {
            Some((t, o)) => Some((w, t, o)),
            None => first_with(s, w + 1),
        }
    }
}

/// The file an `INCLUDE` argument names.
pub open spec fn include_file(arg: Seq<char>) -> Seq<char> {
    match first_with(arg, 0) {
        Some((w, _, _)) => trim_end(arg.take(w)),
        None => arg,
    }
}

pub open spec fn is_key_char(c: char) -> bool {
    c != '"' && c != '?'
}

/// The end of the run of key characters that starts at `i`.
pub open spec fn key_end(t: Seq<char>, i: int) -> int
    decreases t.len() - i,
{
    if 0 <= i < t.len() && is_key_char(t[i]) {
        key_end(t, i + 1)
    } else {
        i
    }
}

/// The `"key": "value"` pair that starts at `i`, and the position after it.
pub open spec fn pair_at(t: Seq<char>, i: int) -> Option<(Seq<char>, Seq<char>, int)> {
    if 0 <= i < t.len() && t[i] == '"' {
        let ke = key_end(t, i + 1);
        let c = skip_ws(t, ke + 1);
        let v = skip_ws(t, c + 1);
        let ve = key_end(t, v + 1);
        if i + 1 < ke < t.len() && t[ke] == '"' && c < t.len() && t[c] == ':' && v < t.len() && t[v] == '"'
            && v + 1 < ve < t.len() && t[ve] == '"' {
            Some((t.subrange(i + 1, ke), t.subrange(v + 1, ve), ve + 1))
        } else {
            None
        }
    } else {
        None
    }
}

/// The pairs of `t[i..]`, in order, each found at the first position where
/// one starts.
pub open spec fn pairs_from(t: Seq<char>, i: int) -> Seq<(Seq<char>, Seq<char>)>
    decreases t.len() - i,
{
    if i < 0 || i >= t.len() {
        Seq::empty()
    } else {
        match pair_at(t, i) {
            Some((k, v, e)) => if i < e <= t.len() {
                seq![(k, v)] + pairs_from(t, e)
            } else {
                Seq::empty()
            },
            None => pairs_from(t, i + 1),
        }
    }
}

/// `m` with the pairs bound in order.
pub open spec fn with_pairs(m: Map<Seq<char>, Seq<char>>, ps: Seq<(Seq<char>, Seq<char>)>) -> Map<Seq<char>, Seq<char>>
    decreases ps.len(),
{
    if ps.len() == 0 {
        m
    } else {
        with_pairs(m, ps.drop_last()).insert(ps.last().0, ps.last().1)
    }
}

/// The scope an `INCLUDE` argument gives its file: the caller's scope, or an
/// empty one under `ONLY`, with the `WITH` pairs bound.
pub open spec fn include_scope(arg: Seq<char>, vars: Map<Seq<char>, Seq<char>>) -> Map<Seq<char>, Seq<char>> {
    match first_with(arg, 0) {
        Some((_, t, only)) => with_pairs(if only { Map::empty() } else { vars }, pairs_from(t, 0)),
        None => vars,
    }
}

/// The position of the first directive at or after `i` named `EXTEND`.
pub open spec fn first_extend(ds: Seq<DirectiveView>, i: int) -> Option<int>
    decreases ds.len() - i,
{
    if i < 0 || i >= ds.len() {
        None
    } else if ds[i].name == kw_extend() {
        Some(i)
    } else {
        first_extend(ds, i + 1)
    }
}

/// What one directive resolves to in directory `dir` under scope `vars`.
pub open spec fn handle(env: Env, f: nat, d: DirectiveView, dir: Seq<Seq<char>>, vars: Map<Seq<char>, Seq<char>>) -> Result<Seq<DirectiveView>, Fault>
    decreases f, 1nat, 0nat,
{
    if d.name == kw_include() {
        resolve(env, f, include_file(d.argument), dir, Seq::empty(), include_scope(d.argument, vars))
    } else if d.name == kw_copy() || d.name == kw_add() {
        match rewrite_copy(env.root, env.paths, dir, d.argument) {
            Err(x) => Err(x),
            Ok(a) => substituted(d, a, vars),
        }
    } else {
        substituted(d, d.argument, vars)
    }
}

/// What `ds[i..]` resolve to, one after another.
pub open spec fn handle_all(env: Env, f: nat, ds: Seq<DirectiveView>, i: int, dir: Seq<Seq<char>>, vars: Map<Seq<char>, Seq<char>>) -> Result<Seq<DirectiveView>, Fault>
    decreases f, 2nat, ds.len() - i,
{
    if i < 0 || i >= ds.len() {
        Ok(Seq::empty())
    } else {
        match handle(env, f, ds[i], dir, vars) {
            Err(x) => Err(x),
            Ok(h) => prefixed(h, handle_all(env, f, ds, i + 1, dir, vars)),
        }
    }
}

/// What the text of a block body resolves to.
pub open spec fn body_handled(env: Env, f: nat, body: Seq<char>, dir: Seq<Seq<char>>, vars: Map<Seq<char>, Seq<char>>) -> Result<Seq<DirectiveView>, Fault>
    decreases f, 3nat, 0nat,
{
    match file_directives(body) {
        Err(l) => Err(Fault::MalformedDirective(l)),
        Ok(ds) => handle_all(env, f, ds, 0, dir, vars),
    }
}

/// The block that a region named `n` with body `body` gives, against the
/// table `parent` that the child passed down.
pub open spec fn block_entry(env: Env, f: nat, n: Seq<char>, body: Seq<char>, parent: Seq<(Seq<char>, Seq<DirectiveView>)>, dir: Seq<Seq<char>>, vars: Map<Seq<char>, Seq<char>>) -> Result<Seq<DirectiveView>, Fault>
    decreases f, 4nat, 0nat,
{
    match table_get(parent, n) {
        Some(pb) => if has_parent_marker(pb) {
            match body_handled(env, f, body, dir, vars) {
                Ok(h) => Ok(splice(pb, h)),
                Err(x) => Err(x),
            }
        } else {
            Ok(pb)
        },
        None => body_handled(env, f, body, dir, vars),
    }
}

/// The block table entries of `regions[i..]` of a file whose child passed
/// down `parent`: where `parent` has a block of the name, its directives,
/// with this file's body spliced in at each `PARENT`; else this file's body.
pub open spec fn blocks_from(env: Env, f: nat, regions: Seq<(Seq<char>, Seq<char>)>, i: int, parent: Seq<(Seq<char>, Seq<DirectiveView>)>, dir: Seq<Seq<char>>, vars: Map<Seq<char>, Seq<char>>) -> Result<Seq<(Seq<char>, Seq<DirectiveView>)>, Fault>
    decreases f, 5nat, regions.len() - i,
{
    if i < 0 || i >= regions.len() {
        Ok(Seq::empty())
    } else {
        let n = regions[i].0;
        match block_entry(env, f, n, regions[i].1, parent, dir, vars) {
            Err(x) => Err(x),
            Ok(b) => prefixed(seq![(n, b)], blocks_from(env, f, regions, i + 1, parent, dir, vars)),
        }
    }
}

/// The output of `ds[i..]` of a file without `EXTEND`, given the open
/// block's name (empty outside a block) and what it has collected.
/// A `BLOCK` seen inside an open block drops what that block collected and
/// opens the new one; an `ENDBLOCK` outside any block emits nothing.
pub open spec fn scan(env: Env, f: nat, ds: Seq<DirectiveView>, i: int, table: Seq<(Seq<char>, Seq<DirectiveView>)>, dir: Seq<Seq<char>>, vars: Map<Seq<char>, Seq<char>>, name: Seq<char>, buf: Seq<DirectiveView>) -> Result<Seq<DirectiveView>, Fault>
    decreases f, 2nat, ds.len() - i,
{
    if i < 0 || i >= ds.len() {
        Ok(Seq::empty())
    } else if ds[i].name == kw_block() {
        scan(env, f, ds, i + 1, table, dir, vars, ds[i].argument, Seq::empty())
    } else if ds[i].name == kw_end_block() {
        let emitted = match table_get(table, name) {
            Some(tb) => splice(tb, buf),
            None => buf,
        };
        prefixed(emitted, scan(env, f, ds, i + 1, table, dir, vars, Seq::empty(), Seq::empty()))
    } else {
        match handle(env, f, ds[i], dir, vars) {
            Err(x) => Err(x),
            Ok(h) => if name.len() > 0 {
                scan(env, f, ds, i + 1, table, dir, vars, name, buf + h)
            } else {
                prefixed(h, scan(env, f, ds, i + 1, table, dir, vars, name, buf))
            },
        }
    }
}

/// What the file `target`, taken relative to `dir`, resolves to, with the
/// block table its child passed down and the scope `vars`. Each level of
/// `EXTEND`/`INCLUDE` nesting takes one unit of `fuel`. Where the file has
/// an `EXTEND`, the first one decides the whole result: nothing else in the
/// file is emitted, only its blocks are passed up.
pub open spec fn resolve(env: Env, fuel: nat, target: Seq<char>, dir: Seq<Seq<char>>, table: Seq<(Seq<char>, Seq<DirectiveView>)>, vars: Map<Seq<char>, Seq<char>>) -> Result<Seq<DirectiveView>, Fault>
    decreases fuel, 0nat, 0nat,
{
    let key = render_abs(resolve_path(dir, target));
    if fuel == 0 {
        Err(Fault::CyclicReference(key))
    } else {
        match canonical(env.paths, key) {
            Err(x) => Err(x),
            Ok(c) => if !env.sources.contains_key(render_abs(c)) {
                Err(Fault::MissingSource(render_abs(c)))
            } else {
                let text = env.sources[render_abs(c)];
                let cur = parent_of(c);
                let f = (fuel - 1) as nat;
                match file_directives(text) {
                    Err(l) => Err(Fault::MalformedDirective(l)),
                    Ok(ds) => match first_extend(ds, 0) {
                        Some(k) => match blocks_from(env, f, block_regions(text), 0, table, cur, vars) {
                            Err(x) => Err(x),
                            Ok(t2) => resolve(env, f, ds[k].argument, cur, t2, vars),
                        },
                        None => scan(env, f, ds, 0, table, cur, vars, Seq::empty(), Seq::empty()),
                    },
                }
            },
        }
    }
}


/// An executable result agrees with the result that contracts speak of.
pub open spec fn agrees(r: Result<CommandCollection, ResolveError>, s: Result<Seq<DirectiveView>, Fault>) -> bool {
    match s {
        Ok(ds) => r matches Ok(c) && c@ == ds,
        Err(f) => r matches Err(e) && e@ == f,
    }
}

pub open spec fn agrees_vec(r: Result<Vec<Command>, ResolveError>, s: Result<Seq<DirectiveView>, Fault>) -> bool {
    match s {
        Ok(ds) => r matches Ok(c) && directive_views(c@) == ds,
        Err(f) => r matches Err(e) && e@ == f,
    }
}

/// What resolution may learn of the disk: file texts by canonical path, and
/// for absolute paths as written, the canonical path each leads to.
pub struct SourceSet {
    files: VariableCollection,
    paths: VariableCollection,
}

impl View for SourceSet {
    type V = Map<Seq<char>, Seq<char>>;

    closed spec fn view(&self) -> Map<Seq<char>, Seq<char>> {
        self.files@
    }
}

impl SourceSet {
    pub closed spec fn wf(&self) -> bool {
        self.files.wf() && self.paths.wf()
    }

    /// For each absolute path as written, its canonical path; empty where
    /// nothing exists there.
    pub closed spec fn paths(&self) -> Map<Seq<char>, Seq<char>> {
        self.paths@
    }

    /// The number of files held.
    pub closed spec fn size(&self) -> nat {
        self.files.size()
    }

    pub fn new() -> (r: SourceSet)
        ensures
            r.wf(),
            r@ == Map::<Seq<char>, Seq<char>>::empty(),
            r.paths() == Map::<Seq<char>, Seq<char>>::empty(),
    {
        SourceSet { files: VariableCollection::new(), paths: VariableCollection::new() }
    }

    /// The set with `text` as the file at the absolute path `path`.
    pub fn add(self, path: &str, text: &str) -> (r: SourceSet)
        requires
            self.wf(),
        ensures
            r.wf(),
            r@ == self@.insert(path@, text@),
            r.paths() == self.paths(),
    {
        SourceSet { files: self.files.set(path, text), paths: self.paths }
    }

    /// The set recording that the absolute path `path` leads to the
    /// canonical path `canonical`.
    pub fn add_path(self, path: &str, canonical: &str) -> (r: SourceSet)
        requires
            self.wf(),
            canonical@.len() > 0,
        ensures
            r.wf(),
            r@ == self@,
            r.paths() == self.paths().insert(path@, canonical@),
    {
        SourceSet { files: self.files, paths: self.paths.set(path, canonical) }
    }

    /// The set recording that nothing exists at the absolute path `path`.
    pub fn add_missing(self, path: &str) -> (r: SourceSet)
        requires
            self.wf(),
        ensures
            r.wf(),
            r@ == self@,
            r.paths() == self.paths().insert(path@, Seq::<char>::empty()),
    {
        let nothing = String::new();
        SourceSet { files: self.files, paths: self.paths.set(path, nothing.as_str()) }
    }

    /// The canonical components of the absolute path `key`.
    fn canonical_of(&self, key: &str) -> (r: Result<Vec<Vec<char>>, ResolveError>)
        requires
            self.wf(),
        ensures
            match canonical(self.paths(), key@) {
                Ok(c) => r matches Ok(v) && views(v@) == c,
                Err(x) => r matches Err(e) && e@ == x,
            },
    {
        if !self.paths.has(key) {
            return Err(ResolveError::UnknownPath { path: key.to_owned() });
        }
        let c = chars_of(self.paths.get(key));
        if c.len() == 0 {
            return Err(ResolveError::UnresolvedTarget { path: key.to_owned() });
        }
        let top: Vec<Vec<char>> = Vec::new();
        assert(views(top@) =~= Seq::<Seq<char>>::empty());
        Ok(resolve_path_exec(&top, c.as_slice()))
    }

    pub fn count(&self) -> (r: usize)
        ensures
            r == self.size(),
    {
        self.files.len()
    }

    /// The text of the file at `path`, if held.
    pub fn lookup(&self, path: &str) -> (r: Option<&str>)
        requires
            self.wf(),
        ensures
            self@.contains_key(path@) ==> (r matches Some(t) && t@ == self@[path@]),
            !self@.contains_key(path@) ==> r is None,
    {
        if self.files.has(path) {
            Some(self.files.get(path))
        } else {
            None
        }
    }
}

/// Resolves directive files under a sandbox root.
pub struct Preprocessor {
    pub root_dir: String,
}

impl Preprocessor {
    /// The sandbox root's components.
    pub open spec fn root(&self) -> Seq<Seq<char>> {
        resolve_path(Seq::empty(), self.root_dir@)
    }

    /// What resolution works in, with these sources.
    pub open spec fn env(&self, sources: &SourceSet) -> Env {
        Env { root: self.root(), sources: sources@, paths: sources.paths() }
    }

    pub fn new(root_dir: String) -> (r: Preprocessor)
        ensures
            r.root_dir == root_dir,
    {
        Preprocessor { root_dir }
    }

    /// Resolves the file at the absolute path `file` with the sandbox root
    /// `root_dir`, the seed scope `variables` and the file texts `sources`.
    /// Nesting deeper than there are files means a file leads back into
    /// itself, which is reported as a cycle.
    pub fn process_file(file: &str, variables: VariableCollection, root_dir: &str, sources: &SourceSet) -> (r: Result<CommandCollection, ResolveError>)
        requires
            variables.wf(),
            sources.wf(),
            sources.size() < usize::MAX,
        ensures
            agrees(r, resolve(Env { root: resolve_path(Seq::empty(), root_dir@), sources: sources@, paths: sources.paths() }, sources.size() + 1, file@, Seq::empty(), Seq::empty(), variables@)),
    {
        let p = Preprocessor::new(root_dir.to_owned());
        let fuel = sources.count() + 1;
        let target = chars_of(file);
        let dir: Vec<Vec<char>> = Vec::new();
        assert(views(dir@) =~= Seq::<Seq<char>>::empty());
        p.process(sources, fuel, target.as_slice(), &BlockCollection::new(), &dir, &variables)
    }

    /// Resolves `target` taken relative to the directory `dir`, with the
    /// block table `blocks` that its child passed down, `fuel` levels of
    /// nesting left, and the scope `variables`.
    pub fn process(&self, sources: &SourceSet, fuel: usize, target: &[char], blocks: &BlockCollection, dir: &Vec<Vec<char>>, variables: &VariableCollection) -> (r: Result<CommandCollection, ResolveError>)
        requires
            sources.wf(),
            variables.wf(),
        ensures
            agrees(r, resolve(self.env(sources), fuel as nat, target@, views(dir@), blocks@, variables@)),
        decreases fuel, 0nat, 0nat,
    {
        let ghost env = self.env(sources);
        let p = resolve_path_exec(dir, target);
        let key = string_of(render_abs_exec(&p).as_slice());
        if fuel == 0 {
            return Err(ResolveError::CyclicReference { path: key });
        }
        let canon = match sources.canonical_of(key.as_str()) {
            Ok(c) => c,
            Err(e) => {
                return Err(e);
            },
        };
        let file = string_of(render_abs_exec(&canon).as_slice());
        let text = match sources.lookup(file.as_str()) {
            Some(t) => t,
            None => {
                return Err(ResolveError::MissingSource { path: file });
            },
        };
        let p = canon;
        let cur = parent_comps(&p);
        let f = fuel - 1;
        let commands = match CommandCollection::from_file(text) {
            Ok(c) => c,
            Err(e) => {
                return Err(e);
            },
        };
        let ghost ds = commands@;
        let extend_kw = ['E', 'X', 'T', 'E', 'N', 'D'];
        let block_kw = ['B', 'L', 'O', 'C', 'K'];
        let end_kw = ['E', 'N', 'D', 'B', 'L', 'O', 'C', 'K'];
        assert(extend_kw@ =~= kw_extend());
        assert(block_kw@ =~= kw_block());
        assert(end_kw@ =~= kw_end_block());
        let mut k: usize = 0;
        while k < commands.commands.len() && !named(&commands.commands[k], &extend_kw)
            invariant
                k <= commands.commands.len(),
                ds == commands@,
                extend_kw@ == kw_extend(),
                first_extend(ds, 0) == first_extend(ds, k as int),
            decreases commands.commands.len() - k,
        {
            k = k + 1;
        }
        if k < commands.commands.len() {
            assert(commands.commands@[k as int]@ == ds[k as int]);
            let table = match BlockCollection::from_file_content(text, blocks, self, sources, f, &cur, variables) {
                Ok(t) => t,
                Err(e) => {
                    return Err(e);
                },
            };
            let parent_target = chars_of(commands.commands[k].line.as_str());
            return self.process(sources, f, parent_target.as_slice(), &table, &cur, variables);
        }
        let ghost whole = resolve(env, fuel as nat, target@, views(dir@), blocks@, variables@);
        assert(whole == scan(env, f as nat, ds, 0, blocks@, views(cur@), variables@, Seq::empty(), Seq::empty()));
        let mut out: Vec<Command> = Vec::new();
        let mut name: Vec<char> = Vec::new();
        let mut buf: Vec<Command> = Vec::new();
        let mut i: usize = 0;
        assert(directive_views(out@) + Seq::<DirectiveView>::empty() =~= Seq::<DirectiveView>::empty());
        assert(name@ =~= Seq::<char>::empty());
        assert(directive_views(buf@) =~= Seq::<DirectiveView>::empty());
        while i < commands.commands.len()
            invariant
                i <= commands.commands.len(),
                ds == commands@,
                sources.wf(),
                variables.wf(),
                env == self.env(sources),
                block_kw@ == kw_block(),
                end_kw@ == kw_end_block(),
                f == fuel - 1,
                whole == resolve(env, fuel as nat, target@, views(dir@), blocks@, variables@),
                whole == scan(env, f as nat, ds, 0, blocks@, views(cur@), variables@, Seq::empty(), Seq::empty()),
                scan(env, f as nat, ds, 0, blocks@, views(cur@), variables@, Seq::empty(), Seq::empty())
                    == prefixed(directive_views(out@), scan(env, f as nat, ds, i as int, blocks@, views(cur@), variables@, name@, directive_views(buf@))),
            decreases commands.commands.len() - i,
        {
            let c = &commands.commands[i];
            assert(c@ == ds[i as int]);
            if named(c, &block_kw) {
                name = chars_of(c.line.as_str());
                buf = Vec::new();
                assert(directive_views(buf@) =~= Seq::<DirectiveView>::empty());
            } else if named(c, &end_kw) {
                let n = string_of(name.as_slice());
                let ghost before = directive_views(out@);
                let mut emitted = if blocks.block_exists(n.as_str()) {
                    let tb = blocks.get_block_commands(n.as_str());
                    splice_exec(&tb, &buf)
                } else {
                    buf
                };
                let ghost ev = directive_views(emitted@);
                out.append(&mut emitted);
                assert(directive_views(out@) =~= before + ev);
                proof {
                    let rest = scan(env, f as nat, ds, i + 1, blocks@, views(cur@), variables@, Seq::empty(), Seq::empty());
                    match rest {
                        Ok(x) => {
                            assert(before + (ev + x) =~= directive_views(out@) + x);
                        },
                        Err(_) => {},
                    }
                }
                name = Vec::new();
                buf = Vec::new();
                assert(name@ =~= Seq::<char>::empty());
                assert(directive_views(buf@) =~= Seq::<DirectiveView>::empty());
            } else {
                let mut h = match self.handle_in(sources, f, c, &cur, variables) {
                    Ok(h) => h,
                    Err(e) => {
                        assert(ds[i as int].name != kw_block() && ds[i as int].name != kw_end_block());
                        assert(handle(env, f as nat, ds[i as int], views(cur@), variables@) == Err::<Seq<DirectiveView>, Fault>(e@));
                        assert(scan(env, f as nat, ds, i as int, blocks@, views(cur@), variables@, name@, directive_views(buf@)) == Err::<Seq<DirectiveView>, Fault>(e@));
                        assert(scan(env, f as nat, ds, 0, blocks@, views(cur@), variables@, Seq::empty(), Seq::empty()) == Err::<Seq<DirectiveView>, Fault>(e@));
                        return Err(e);
                    },
                };
                let ghost hv = directive_views(h@);
                if name.len() > 0 {
                    let ghost before = directive_views(buf@);
                    buf.append(&mut h);
                    assert(directive_views(buf@) =~= before + hv);
                } else {
                    let ghost before = directive_views(out@);
                    out.append(&mut h);
                    assert(directive_views(out@) =~= before + hv);
                    proof {
                        let rest = scan(env, f as nat, ds, i + 1, blocks@, views(cur@), variables@, name@, directive_views(buf@));
                        match rest {
                            Ok(x) => {
                                assert(before + (hv + x) =~= directive_views(out@) + x);
                            },
                            Err(_) => {},
                        }
                    }
                }
            }
            i = i + 1;
        }
        assert(directive_views(out@) + Seq::<DirectiveView>::empty() =~= directive_views(out@));
        Ok(CommandCollection { commands: out })
    }

    /// Resolves one directive in the directory `dir`.
    pub(crate) fn handle_in(&self, sources: &SourceSet, f: usize, command: &Command, dir: &Vec<Vec<char>>, variables: &VariableCollection) -> (r: Result<Vec<Command>, ResolveError>)
        requires
            sources.wf(),
            variables.wf(),
        ensures
            agrees_vec(r, handle(self.env(sources), f as nat, command@, views(dir@), variables@)),
        decreases f, 1nat, 0nat,
    {
        let include_kw = ['I', 'N', 'C', 'L', 'U', 'D', 'E'];
        let copy_kw = ['C', 'O', 'P', 'Y'];
        let add_kw = ['A', 'D', 'D'];
        assert(include_kw@ =~= kw_include());
        assert(copy_kw@ =~= kw_copy());
        assert(add_kw@ =~= kw_add());
        let arg = chars_of(command.line.as_str());
        if named(command, &include_kw) {
            let file = include_target(arg.as_slice());
            let scope = include_variables(arg.as_slice(), variables);
            return match self.process(sources, f, file.as_slice(), &BlockCollection::new(), dir, &scope) {
                Ok(c) => Ok(c.commands),
                Err(e) => Err(e),
            };
        }
        let line = if named(command, &copy_kw) || named(command, &add_kw) {
            match self.rewrite_copy_argument(sources, arg.as_slice(), dir) {
                Ok(a) => a,
                Err(e) => {
                    return Err(e);
                },
            }
        } else {
            arg
        };
        substitute_command(command, line.as_slice(), variables)
    }

    /// Resolves one directive in the directory `current_context` (an
    /// absolute path), with `fuel` levels of nesting left.
    pub fn handle_command(&self, sources: &SourceSet, fuel: usize, old_command: &Command, current_context: &str, variables: &VariableCollection) -> (r: Result<CommandCollection, ResolveError>)
        requires
            sources.wf(),
            variables.wf(),
        ensures
            agrees(r, handle(self.env(sources), fuel as nat, old_command@, resolve_path(Seq::empty(), current_context@), variables@)),
    {
        let top: Vec<Vec<char>> = Vec::new();
        assert(views(top@) =~= Seq::<Seq<char>>::empty());
        let ctx = chars_of(current_context);
        let dir = resolve_path_exec(&top, ctx.as_slice());
        match self.handle_in(sources, fuel, old_command, &dir, variables) {
            Ok(v) => Ok(CommandCollection { commands: v }),
            Err(e) => Err(e),
        }
    }

    /// Resolves `ds`, one after another, in the directory `dir`.
    fn handle_all_in(&self, sources: &SourceSet, f: usize, ds: &Vec<Command>, dir: &Vec<Vec<char>>, variables: &VariableCollection) -> (r: Result<Vec<Command>, ResolveError>)
        requires
            sources.wf(),
            variables.wf(),
        ensures
            agrees_vec(r, handle_all(self.env(sources), f as nat, directive_views(ds@), 0, views(dir@), variables@)),
        decreases f, 2nat, 0nat,
    {
        let ghost env = self.env(sources);
        let ghost dv = directive_views(ds@);
        let mut out: Vec<Command> = Vec::new();
        let mut i: usize = 0;
        assert(directive_views(out@) + Seq::<DirectiveView>::empty() =~= Seq::<DirectiveView>::empty());
        while i < ds.len()
            invariant
                i <= ds.len(),
                sources.wf(),
                variables.wf(),
                env == self.env(sources),
                dv == directive_views(ds@),
                handle_all(env, f as nat, dv, 0, views(dir@), variables@) == prefixed(directive_views(out@), handle_all(env, f as nat, dv, i as int, views(dir@), variables@)),
            decreases ds.len() - i,
        {
            assert(ds@[i as int]@ == dv[i as int]);
            let mut h = match self.handle_in(sources, f, &ds[i], dir, variables) {
                Ok(h) => h,
                Err(e) => {
                    return Err(e);
                },
            };
            let ghost hv = directive_views(h@);
            let ghost before = directive_views(out@);
            out.append(&mut h);
            assert(directive_views(out@) =~= before + hv);
            proof {
                match handle_all(env, f as nat, dv, i + 1, views(dir@), variables@) {
                    Ok(x) => {
                        assert(before + (hv + x) =~= directive_views(out@) + x);
                    },
                    Err(_) => {},
                }
            }
            i = i + 1;
        }
        assert(directive_views(out@) + Seq::<DirectiveView>::empty() =~= directive_views(out@));
        Ok(out)
    }

    /// Resolves the text of a block body in the directory `dir`.
    pub(crate) fn body_handled_in(&self, sources: &SourceSet, f: usize, body: &[char], dir: &Vec<Vec<char>>, variables: &VariableCollection) -> (r: Result<Vec<Command>, ResolveError>)
        requires
            sources.wf(),
            variables.wf(),
        ensures
            agrees_vec(r, body_handled(self.env(sources), f as nat, body@, views(dir@), variables@)),
        decreases f, 3nat, 0nat,
    {
        let text = string_of(body);
        match CommandCollection::from_file(text.as_str()) {
            Ok(c) => self.handle_all_in(sources, f, &c.commands, dir, variables),
            Err(e) => Err(e),
        }
    }

    /// The sandboxed, root-relative form of a `COPY`/`ADD` source `file`
    /// taken relative to the directory `dir` and canonicalized.
    pub fn handle_copy(&self, sources: &SourceSet, file: &[char], dir: &Vec<Vec<char>>) -> (r: Result<Vec<char>, ResolveError>)
        requires
            sources.wf(),
        ensures
            match copy_source(self.root(), sources.paths(), views(dir@), file@) {
                Ok(x) => r matches Ok(v) && v@ == x,
                Err(x) => r matches Err(e) && e@ == x,
            },
    {
        let root_chars = chars_of(self.root_dir.as_str());
        let top: Vec<Vec<char>> = Vec::new();
        assert(views(top@) =~= Seq::<Seq<char>>::empty());
        let root = resolve_path_exec(&top, root_chars.as_slice());
        let written = resolve_path_exec(dir, file);
        let key = string_of(render_abs_exec(&written).as_slice());
        let p = match sources.canonical_of(key.as_str()) {
            Ok(c) => c,
            Err(e) => {
                return Err(e);
            },
        };
        if within_exec(&root, &p) {
            let rel = comps_from(&p, root.len());
            Ok(render_rel_exec(&rel))
        } else {
            Err(ResolveError::PathOutsideSandbox { path: string_of(render_abs_exec(&p).as_slice()) })
        }
    }

    /// A `COPY`/`ADD` argument with its first word sandboxed.
    fn rewrite_copy_argument(&self, sources: &SourceSet, arg: &[char], dir: &Vec<Vec<char>>) -> (r: Result<Vec<char>, ResolveError>)
        requires
            sources.wf(),
        ensures
            match rewrite_copy(self.root(), sources.paths(), views(dir@), arg@) {
                Ok(x) => r matches Ok(v) && v@ == x,
                Err(x) => r matches Err(e) && e@ == x,
            },
    {
        let k = space_at_or_after_exec(arg, 0);
        let token = slice_of(arg, 0, k);
        assert(token@ =~= arg@.take(k as int));
        let mut rest = if k < arg.len() {
            slice_of(arg, k + 1, arg.len())
        } else {
            Vec::new()
        };
        assert(rest@ =~= (if k < arg@.len() { arg@.skip(k + 1) } else { Seq::<char>::empty() }));
        match self.handle_copy(sources, token.as_slice(), dir) {
            Ok(mut src) => {
                let ghost sv = src@;
                let ghost rv = rest@;
                src.push(' ');
                src.append(&mut rest);
                assert(src@ =~= sv + seq![' '] + rv);
                Ok(trim_chars(src.as_slice()))
            },
            Err(e) => Err(e),
        }
    }
}

/// The directive with its options and `arg` substituted.
fn substitute_command(command: &Command, arg: &[char], variables: &VariableCollection) -> (r: Result<Vec<Command>, ResolveError>)
    requires
        variables.wf(),
    ensures
        agrees_vec(r, substituted(command@, arg@, variables@)),
{
    let ghost os = string_views(command.options@);
    let mut options: Vec<String> = Vec::new();
    let mut i: usize = 0;
    while i < command.options.len()
        invariant
            i <= command.options.len(),
            os == string_views(command.options@),
            variables.wf(),
            subst_each(os, 0, variables@) == prefixed(string_views(options@), subst_each(os, i as int, variables@)),
        decreases command.options.len() - i,
    {
        assert(command.options@[i as int]@ == os[i as int]);
        match replace_variables(command.options[i].as_str(), variables) {
            Ok(o) => {
                let ghost before = string_views(options@);
                options.push(o);
                assert(string_views(options@) =~= before.push(o@));
                proof {
                    match subst_each(os, i + 1, variables@) {
                        Ok(x) => {
                            assert(before + (seq![o@] + x) =~= string_views(options@) + x);
                        },
                        Err(_) => {},
                    }
                }
            },
            Err(e) => {
                return Err(e);
            },
        }
        i = i + 1;
    }
    assert(string_views(options@) + Seq::<Seq<char>>::empty() =~= string_views(options@));
    let a = string_of(arg);
    match replace_variables(a.as_str(), variables) {
        Ok(line) => {
            let c = Command { command: command.command.clone(), options, line };
            let mut v: Vec<Command> = Vec::new();
            v.push(c);
            assert(directive_views(v@) =~= seq![c@]);
            Ok(v)
        },
        Err(e) => Err(e),
    }
}

/// The `WITH` clause whose `WITH` stands at `w`, if one does.
fn with_clause_at_exec(s: &[char], w: usize) -> (r: Option<(Vec<char>, bool)>)
    requires
        w < s.len(),
    ensures
        r matches Some(x) ==> with_clause_at(s@, w as int) == Some((x.0@, x.1)),
        r is None ==> with_clause_at(s@, w as int) is None,
{
    let with_kw = ['W', 'I', 'T', 'H'];
    let only_kw = ['O', 'N', 'L', 'Y'];
    let close = ['}'];
    assert(with_kw@ =~= kw_with());
    assert(only_kw@ =~= kw_only());
    assert(close@ =~= seq!['}']);
    if s.len() - w < 4 || !occurs_at_exec(s, w, &with_kw) {
        return None;
    }
    let c = skip_ws_exec(s, w + 4);
    if c < s.len() && s[c] == '{' {
        match find_from_exec(s, c + 1, &close) {
            Some(d) => {
                proof {
                    lemma_find_from_ge(s@, c + 1, seq!['}']);
                }
                let o = skip_ws_exec(s, d + 1);
                let only = occurs_at_exec(s, o, &only_kw);
                Some((slice_of(s, c + 1, d), only))
            },
            None => None,
        }
    } else {
        None
    }
}

/// The first `WITH` clause of `s`: where it stands, its brace text and
/// whether `ONLY` follows.
fn first_with_exec(s: &[char]) -> (r: Option<(usize, Vec<char>, bool)>)
    ensures
        r matches Some(x) ==> first_with(s@, 0) == Some((x.0 as int, x.1@, x.2)) && x.0 < s.len(),
        r is None ==> first_with(s@, 0) is None,
{
    let mut w: usize = 0;
    while w < s.len()
        invariant
            w <= s.len(),
            first_with(s@, 0) == first_with(s@, w as int),
        decreases s.len() - w,
    {
        match with_clause_at_exec(s, w) {
            Some((t, o)) => {
                return Some((w, t, o));
            },
            None => {},
        }
        w = w + 1;
    }
    None
}

/// The file an `INCLUDE` argument names.
fn include_target(arg: &[char]) -> (r: Vec<char>)
    ensures
        r@ == include_file(arg@),
{
    match first_with_exec(arg) {
        Some((w, _, _)) => {
            let head = slice_of(arg, 0, w);
            assert(head@ =~= arg@.take(w as int));
            trim_end_exec(head.as_slice())
        },
        None => slice_of(arg, 0, arg.len()),
    }
}

fn key_end_exec(t: &[char], i: usize) -> (e: usize)
    requires
        i <= t.len(),
    ensures
        e == key_end(t@, i as int),
        i <= e <= t.len(),
{
    let mut j = i;
    while j < t.len() && t[j] != '"' && t[j] != '?'
        invariant
            i <= j <= t.len(),
            key_end(t@, i as int) == key_end(t@, j as int),
        decreases t.len() - j,
    {
        j = j + 1;
    }
    j
}

fn pair_at_exec(t: &[char], i: usize) -> (r: Option<(Vec<char>, Vec<char>, usize)>)
    requires
        i < t.len(),
    ensures
        r matches Some(x) ==> pair_at(t@, i as int) == Some((x.0@, x.1@, x.2 as int)) && i < x.2 <= t.len(),
        r is None ==> pair_at(t@, i as int) is None,
{
    if t[i] != '"' || i + 1 >= t.len() {
        proof {
            if t@[i as int] == '"' {
                assert(key_end(t@, i + 1) == i + 1);
            }
        }
        return None;
    }
    let ke = key_end_exec(t, i + 1);
    if !(i + 1 < ke && ke < t.len() && t[ke] == '"') {
        return None;
    }
    let c = skip_ws_exec(t, ke + 1);
    if !(c < t.len() && t[c] == ':') {
        return None;
    }
    let v = skip_ws_exec(t, c + 1);
    if !(v < t.len() && t[v] == '"') {
        return None;
    }
    let ve = key_end_exec(t, v + 1);
    if !(v + 1 < ve && ve < t.len() && t[ve] == '"') {
        return None;
    }
    Some((slice_of(t, i + 1, ke), slice_of(t, v + 1, ve), ve + 1))
}

/// The scope an `INCLUDE` argument gives its file.
fn include_variables(arg: &[char], variables: &VariableCollection) -> (r: VariableCollection)
    requires
        variables.wf(),
    ensures
        r.wf(),
        r@ == include_scope(arg@, variables@),
{
    match first_with_exec(arg) {
        Some((_, t, only)) => {
            let mut scope = if only {
                VariableCollection::new()
            } else {
                variables.copied()
            };
            let ghost base = scope@;
            let ghost ps = pairs_from(t@, 0);
            let mut i: usize = 0;
            let ghost done: Seq<(Seq<char>, Seq<char>)> = Seq::empty();
            assert(ps =~= done + pairs_from(t@, 0));
            while i < t.len()
                invariant
                    i <= t.len(),
                    scope.wf(),
                    ps == pairs_from(t@, 0),
                    ps == done + pairs_from(t@, i as int),
                    scope@ == with_pairs(base, done),
                decreases t.len() - i,
            {
                match pair_at_exec(t.as_slice(), i) {
                    Some((k, v, e)) => {
                        {
                            let ks = string_of(k.as_slice());
                            let vs = string_of(v.as_slice());
                            scope = scope.set(ks.as_str(), vs.as_str());
                            proof {
                                let nd = done.push((k@, v@));
                                assert(nd.drop_last() =~= done);
                                assert(done + pairs_from(t@, i as int) =~= nd + pairs_from(t@, e as int));
                                done = nd;
                            }
                            i = e;
                        }
                    },
                    None => {
                        i = i + 1;
                    },
                }
            }
            assert(ps =~= done);
            scope
        },
        None => variables.copied(),
    }
}

} // verus!

//! Named `BLOCK … ENDBLOCK` regions and the table of resolved blocks.
use vstd::prelude::*;
use crate::command::{directive_views, Command, DirectiveView};
use crate::error::{Fault, ResolveError};
use crate::path::chars_eq;
use crate::preprocessor::{block_entry, blocks_from, prefixed, Preprocessor, SourceSet};
use crate::text::{string_of, views};
use crate::variables::VariableCollection;
use crate::substitute::{find_from, find_from_exec};
use crate::text::{chars_of, occurs_at, occurs_at_exec, slice_of};

verus! {

pub open spec fn kw_parent() -> Seq<char> {
    seq!['P', 'A', 'R', 'E', 'N', 'T']
}

pub open spec fn kw_block_open() -> Seq<char> {
    seq!['B', 'L', 'O', 'C', 'K', ' ']
}

pub open spec fn kw_endblock() -> Seq<char> {
    seq!['E', 'N', 'D', 'B', 'L', 'O', 'C', 'K']
}

pub open spec fn is_name_char(c: char) -> bool {
    let u = c as u32;
    ('a' as u32 <= u <= 'z' as u32) || ('A' as u32 <= u <= 'Z' as u32) || ('0' as u32 <= u <= '9' as u32)
        || c == '-' || c == '_'
}

/// The end of the run of block-name characters that starts at `i`.
pub open spec fn name_end(s: Seq<char>, i: int) -> int
    decreases s.len() - i,
{
    if 0 <= i < s.len() && is_name_char(s[i]) {
        name_end(s, i + 1)
    } else {
        i
    }
}

/// The region that starts at `i`, if one does: `BLOCK `, a name over
/// `[A-Za-z0-9_-]`, a newline, a non-empty body up to the first `ENDBLOCK`.
/// Gives the name, the body and the position after `ENDBLOCK`.
pub open spec fn region_at(s: Seq<char>, i: int) -> Option<(Seq<char>, Seq<char>, int)> {
    if occurs_at(s, i, kw_block_open()) {
        let ns = i + 6;
        let ne = name_end(s, ns);
        if ns < ne < s.len() && s[ne] == '\n' {
            match find_from(s, ne + 2, kw_endblock()) {
                Some(q) => Some((s.subrange(ns, ne), s.subrange(ne + 1, q), q + 8)),
                None => None,
            }
        } else {
            None
        }
    } else {
        None
    }
}

/// The regions of `s[i..]`, in order and not overlapping, each found at the
/// first position where one starts.
pub open spec fn regions_from(s: Seq<char>, i: int) -> Seq<(Seq<char>, Seq<char>)>
    decreases s.len() - i,
{
    if i < 0 || i >= s.len() {
        Seq::empty()
    } else {
        match region_at(s, i) {
            Some((n, b, e)) => if i < e <= s.len() {
                seq![(n, b)] + regions_from(s, e)
            } else {
                Seq::empty()
            },
            None => regions_from(s, i + 1),
        }
    }
}

/// The block regions of a file's text.
pub open spec fn block_regions(s: Seq<char>) -> Seq<(Seq<char>, Seq<char>)> {
    regions_from(s, 0)
}

/// A block table as contracts speak of it: names and directive lists; a
/// later entry for a name replaces an earlier one.
pub open spec fn table_get(t: Seq<(Seq<char>, Seq<DirectiveView>)>, n: Seq<char>) -> Option<Seq<DirectiveView>>
    decreases t.len(),
{
    if t.len() == 0 {
        None
    } else if t.last().0 == n {
        Some(t.last().1)
    } else {
        table_get(t.drop_last(), n)
    }
}

/// `outer` with each `PARENT` directive replaced by `inner`.
pub open spec fn splice(outer: Seq<DirectiveView>, inner: Seq<DirectiveView>) -> Seq<DirectiveView>
    decreases outer.len(),
{
    if outer.len() == 0 {
        Seq::empty()
    } else {
        splice(outer.drop_last(), inner) + if outer.last().name == kw_parent() {
            inner
        } else {
            seq![outer.last()]
        }
    }
}

/// Whether some directive of `ds` is `PARENT`.
pub open spec fn has_parent_marker(ds: Seq<DirectiveView>) -> bool {
    exists|i: int| 0 <= i < ds.len() && #[trigger] ds[i].name == kw_parent()
}

pub open spec fn region_views(v: Seq<(Vec<char>, Vec<char>)>) -> Seq<(Seq<char>, Seq<char>)> {
    v.map_values(|x: (Vec<char>, Vec<char>)| (x.0@, x.1@))
}

fn name_end_exec(s: &[char], i: usize) -> (e: usize)
    requires
        i <= s.len(),
    ensures
        e == name_end(s@, i as int),
        i <= e <= s.len(),
{
    let mut j = i;
    while j < s.len() && (('a' as u32 <= s[j] as u32 && s[j] as u32 <= 'z' as u32) || ('A' as u32
        <= s[j] as u32 && s[j] as u32 <= 'Z' as u32) || ('0' as u32 <= s[j] as u32 && s[j] as u32
        <= '9' as u32) || s[j] == '-' || s[j] == '_')
        invariant
            i <= j <= s.len(),
            name_end(s@, i as int) == name_end(s@, j as int),
        decreases s.len() - j,
    {
        j = j + 1;
    }
    j
}

fn region_at_exec(s: &[char], i: usize) -> (r: Option<(Vec<char>, Vec<char>, usize)>)
    requires
        i < s.len(),
    ensures
        r matches Some(x) ==> region_at(s@, i as int) == Some((x.0@, x.1@, x.2 as int)),
        r is None ==> region_at(s@, i as int) is None,
{
    let open_kw = ['B', 'L', 'O', 'C', 'K', ' '];
    let end_kw = ['E', 'N', 'D', 'B', 'L', 'O', 'C', 'K'];
    assert(open_kw@ =~= kw_block_open());
    assert(end_kw@ =~= kw_endblock());
    if s.len() - i < 6 || !occurs_at_exec(s, i, &open_kw) {
        return None;
    }
    let ns = i + 6;
    let ne = name_end_exec(s, ns);
    if ns < ne && ne < s.len() && s[ne] == '\n' {
        if s.len() - ne < 2 {
            return None;
        }
        match find_from_exec(s, ne + 2, &end_kw) {
            Some(q) => {
                proof {
                    crate::substitute::lemma_find_from_ge(s@, ne + 2, kw_endblock());
                }
                Some((slice_of(s, ns, ne), slice_of(s, ne + 1, q), q + 8))
            },
            None => None,
        }
    } else {
        None
    }
}

/// The `BLOCK … ENDBLOCK` regions of `text`: names and bodies, in order.
pub fn find_regions(text: &str) -> (r: Vec<(Vec<char>, Vec<char>)>)
    ensures
        region_views(r@) == block_regions(text@),
{
    let s = chars_of(text);
    let mut out: Vec<(Vec<char>, Vec<char>)> = Vec::new();
    let mut i: usize = 0;
    while i < s.len()
        invariant
            i <= s.len(),
            s@ == text@,
            regions_from(s@, 0) == region_views(out@) + regions_from(s@, i as int),
        decreases s.len() - i,
    {
        match region_at_exec(s.as_slice(), i) {
            Some((n, b, e)) => {
                if i < e && e <= s.len() {
                    let ghost before = region_views(out@);
                    let ghost nb = (n@, b@);
                    out.push((n, b));
                    assert(region_views(out@) =~= before.push(nb));
                    assert(regions_from(s@, 0) =~= region_views(out@) + regions_from(s@, e as int));
                    i = e;
                } else {
                    assert(regions_from(s@, 0) =~= region_views(out@));
                    return out;
                }
            },
            None => {
                i = i + 1;
            },
        }
    }
    assert(regions_from(s@, 0) =~= region_views(out@));
    out
}

/// One named block: its resolved directives.
#[derive(Clone)]
pub struct Block {
    pub name: String,
    pub commands: Vec<Command>,
}

impl View for Block {
    type V = (Seq<char>, Seq<DirectiveView>);

    open spec fn view(&self) -> (Seq<char>, Seq<DirectiveView>) {
        (self.name@, directive_views(self.commands@))
    }
}

impl Block {
    pub fn new(name: String, commands: Vec<Command>) -> (r: Block)
        ensures
            r.name == name,
            r.commands == commands,
    {
        Block { name, commands }
    }
}

pub open spec fn block_views(v: Seq<Block>) -> Seq<(Seq<char>, Seq<DirectiveView>)> {
    v.map_values(|b: Block| b@)
}

/// The blocks that a file defines, by name.
#[derive(Clone)]
pub struct BlockCollection {
    blocks: Vec<Block>,
}

impl View for BlockCollection {
    type V = Seq<(Seq<char>, Seq<DirectiveView>)>;

    closed spec fn view(&self) -> Seq<(Seq<char>, Seq<DirectiveView>)> {
        block_views(self.blocks@)
    }
}

/// A copy of a list of directives.
pub fn copy_commands(v: &Vec<Command>) -> (r: Vec<Command>)
    ensures
        directive_views(r@) == directive_views(v@),
{
    let mut r: Vec<Command> = Vec::new();
    let mut i: usize = 0;
    while i < v.len()
        invariant
            i <= v.len(),
            directive_views(r@) == directive_views(v@).take(i as int),
        decreases v.len() - i,
    {
        let ghost before = directive_views(r@);
        let c = v[i].copied();
        r.push(c);
        assert(directive_views(r@) =~= before.push(c@));
        i = i + 1;
        assert(directive_views(r@) =~= directive_views(v@).take(i as int));
    }
    assert(directive_views(v@).take(v.len() as int) =~= directive_views(v@));
    r
}

impl BlockCollection {
    /// An empty table.
    pub fn new() -> (r: BlockCollection)
        ensures
            r@ == Seq::<(Seq<char>, Seq<DirectiveView>)>::empty(),
    {
        let r = BlockCollection { blocks: Vec::new() };
        assert(r@ =~= Seq::<(Seq<char>, Seq<DirectiveView>)>::empty());
        r
    }

    /// The table with `block` added, replacing any block of the same name.
    pub fn add_block(self, block: Block) -> (r: BlockCollection)
        ensures
            r@ == self@.push(block@),
            forall|n: Seq<char>| #[trigger] table_get(r@, n) == if n == block.name@ {
                Some(directive_views(block.commands@))
            } else {
                table_get(self@, n)
            },
    {
        let mut blocks = self.blocks;
        blocks.push(block);
        let r = BlockCollection { blocks };
        assert(r@ =~= self@.push(block@));
        assert forall|n: Seq<char>| #[trigger] table_get(r@, n) == if n == block.name@ {
            Some(directive_views(block.commands@))
        } else {
            table_get(self@, n)
        } by {
            assert(r@.drop_last() =~= self@);
        }
        r
    }

    /// The index of the block that `name` finds, if any.
    fn find(&self, name: &str) -> (r: Option<usize>)
        ensures
            r is None ==> table_get(self@, name@) is None,
            r matches Some(i) ==> i < self.blocks.len() && table_get(self@, name@) == Some(
                directive_views(self.blocks@[i as int].commands@),
            ),
    {
        let n = chars_of(name);
        let mut j: usize = self.blocks.len();
        assert(self@.take(j as int) =~= self@);
        while j > 0
            invariant
                j <= self.blocks.len(),
                n@ == name@,
                table_get(self@, name@) == table_get(self@.take(j as int), name@),
            decreases j,
        {
            let bn = chars_of(self.blocks[j - 1].name.as_str());
            assert(self@.take(j as int).drop_last() =~= self@.take(j - 1));
            if chars_eq(bn.as_slice(), n.as_slice()) {
                return Some(j - 1);
            }
            j = j - 1;
        }
        None
    }

    /// Whether a block of this name is in the table.
    pub fn block_exists(&self, block_name: &str) -> (r: bool)
        ensures
            r == table_get(self@, block_name@) is Some,
    {
        self.find(block_name).is_some()
    }

    /// A copy of the directives of the named block; none where there is no
    /// such block.
    pub fn get_block_commands(&self, block_name: &str) -> (r: Vec<Command>)
        ensures
            table_get(self@, block_name@) matches Some(ds) ==> directive_views(r@) == ds,
            table_get(self@, block_name@) is None ==> r@.len() == 0,
    {
        match self.find(block_name) {
            Some(i) => copy_commands(&self.blocks[i].commands),
            None => Vec::new(),
        }
    }
}


/// Whether the directive is named `kw`.
pub fn named(c: &Command, kw: &[char]) -> (r: bool)
    ensures
        r == (c@.name == kw@),
{
    let n = chars_of(c.command.as_str());
    chars_eq(n.as_slice(), kw)
}

/// `outer` with each `PARENT` directive replaced by `inner`.
pub fn splice_exec(outer: &Vec<Command>, inner: &Vec<Command>) -> (r: Vec<Command>)
    ensures
        directive_views(r@) == splice(directive_views(outer@), directive_views(inner@)),
{
    let parent_kw = ['P', 'A', 'R', 'E', 'N', 'T'];
    assert(parent_kw@ =~= kw_parent());
    let ghost ov = directive_views(outer@);
    let ghost iv = directive_views(inner@);
    let mut r: Vec<Command> = Vec::new();
    let mut i: usize = 0;
    while i < outer.len()
        invariant
            i <= outer.len(),
            ov == directive_views(outer@),
            iv == directive_views(inner@),
            parent_kw@ == kw_parent(),
            directive_views(r@) == splice(ov.take(i as int), iv),
        decreases outer.len() - i,
    {
        assert(ov.take(i + 1).drop_last() =~= ov.take(i as int));
        assert(ov.take(i + 1).last() == outer@[i as int]@);
        let ghost before = directive_views(r@);
        if named(&outer[i], &parent_kw) {
            let mut c = copy_commands(inner);
            r.append(&mut c);
            assert(directive_views(r@) =~= before + iv);
        } else {
            let c = outer[i].copied();
            r.push(c);
            assert(directive_views(r@) =~= before + seq![c@]);
        }
        i = i + 1;
    }
    assert(ov.take(outer.len() as int) =~= ov);
    r
}


/// Whether some directive of `v` is `PARENT`.
pub fn contains_parent(v: &Vec<Command>) -> (r: bool)
    ensures
        r == has_parent_marker(directive_views(v@)),
{
    let parent_kw = ['P', 'A', 'R', 'E', 'N', 'T'];
    assert(parent_kw@ =~= kw_parent());
    let mut i: usize = 0;
    while i < v.len()
        invariant
            i <= v.len(),
            parent_kw@ == kw_parent(),
            forall|k: int| 0 <= k < i ==> #[trigger] directive_views(v@)[k].name != kw_parent(),
        decreases v.len() - i,
    {
        if named(&v[i], &parent_kw) {
            assert(directive_views(v@)[i as int].name == kw_parent());
            return true;
        }
        i = i + 1;
    }
    false
}

impl BlockCollection {
    /// The directives of the block that a region gives.
    fn entry_for(n: &str, body: &[char], parent_blocks: &BlockCollection, resolver: &Preprocessor, sources: &SourceSet, f: usize, current_context: &Vec<Vec<char>>, variables: &VariableCollection) -> (r: Result<Vec<Command>, ResolveError>)
        requires
            sources.wf(),
            variables.wf(),
        ensures
            match block_entry(resolver.env(sources), f as nat, n@, body@, parent_blocks@, views(current_context@), variables@) {
                Ok(t) => r matches Ok(b) && directive_views(b@) == t,
                Err(x) => r matches Err(e) && e@ == x,
            },
        decreases f, 4nat, 0nat,
    {
        if parent_blocks.block_exists(n) {
            let pb = parent_blocks.get_block_commands(n);
            if contains_parent(&pb) {
                match resolver.body_handled_in(sources, f, body, current_context, variables) {
                    Ok(h) => Ok(splice_exec(&pb, &h)),
                    Err(e) => Err(e),
                }
            } else {
                Ok(pb)
            }
        } else {
            resolver.body_handled_in(sources, f, body, current_context, variables)
        }
    }

    /// The block table of a file's text, given the table `parent_blocks`
    /// that its child passed down: for each region, the parent table's block
    /// of that name with this body resolved in at each `PARENT`, or, where
    /// there is none, this body resolved.
    pub fn from_file_content(file_content: &str, parent_blocks: &BlockCollection, resolver: &Preprocessor, sources: &SourceSet, f: usize, current_context: &Vec<Vec<char>>, variables: &VariableCollection) -> (r: Result<BlockCollection, ResolveError>)
        requires
            sources.wf(),
            variables.wf(),
        ensures
            match blocks_from(resolver.env(sources), f as nat, block_regions(file_content@), 0, parent_blocks@, views(current_context@), variables@) {
                Ok(t) => r matches Ok(b) && b@ == t,
                Err(x) => r matches Err(e) && e@ == x,
            },
        decreases f, 5nat, 0nat,
    {
        let ghost env = resolver.env(sources);
        let ghost dir = views(current_context@);
        let regions = find_regions(file_content);
        let ghost rs = block_regions(file_content@);
        let mut table = BlockCollection::new();
        let mut i: usize = 0;
        assert(table@ + Seq::<(Seq<char>, Seq<DirectiveView>)>::empty() =~= table@);
        while i < regions.len()
            invariant
                i <= regions.len(),
                sources.wf(),
                variables.wf(),
                env == resolver.env(sources),
                dir == views(current_context@),
                rs == region_views(regions@),
                rs == block_regions(file_content@),
                blocks_from(env, f as nat, rs, 0, parent_blocks@, dir, variables@) == prefixed(table@, blocks_from(env, f as nat, rs, i as int, parent_blocks@, dir, variables@)),
            decreases regions.len() - i,
        {
            let n = string_of(regions[i].0.as_slice());
            assert(n@ == rs[i as int].0);
            assert(regions@[i as int].1@ == rs[i as int].1);
            let commands = match BlockCollection::entry_for(n.as_str(), regions[i].1.as_slice(), parent_blocks, resolver, sources, f, current_context, variables) {
                Ok(c) => c,
                Err(e) => {
                    assert(blocks_from(env, f as nat, rs, i as int, parent_blocks@, dir, variables@) == Err::<Seq<(Seq<char>, Seq<DirectiveView>)>, Fault>(e@));
                    assert(blocks_from(env, f as nat, rs, 0, parent_blocks@, dir, variables@) == Err::<Seq<(Seq<char>, Seq<DirectiveView>)>, Fault>(e@));
                    return Err(e);
                },
            };
            let ghost before = table@;
            let b = Block::new(n, commands);
            table = table.add_block(b);
            proof {
                match blocks_from(env, f as nat, rs, i + 1, parent_blocks@, dir, variables@) {
                    Ok(x) => {
                        assert(before + (seq![b@] + x) =~= table@ + x);
                    },
                    Err(_) => {},
                }
            }
            i = i + 1;
        }
        Ok(table)
    }
}

} // verus!

//! Lexical path resolution: absolute paths as lists of components.
use vstd::prelude::*;
use crate::text::{slice_of, split_exec, split_seq, views};

verus! {

/// `comps` after one more component of a relative path: `` and `.` stay,
/// `..` goes up (never above the file system root), anything else goes down.
pub open spec fn step(comps: Seq<Seq<char>>, part: Seq<char>) -> Seq<Seq<char>> {
    if part.len() == 0 || part == seq!['.'] {
        comps
    } else if part == seq!['.', '.'] {
        if comps.len() > 0 {
            comps.drop_last()
        } else {
            comps
        }
    } else {
        comps.push(part)
    }
}

pub open spec fn walk(comps: Seq<Seq<char>>, parts: Seq<Seq<char>>) -> Seq<Seq<char>>
    decreases parts.len(),
{
    if parts.len() == 0 {
        comps
    } else {
        step(walk(comps, parts.drop_last()), parts.last())
    }
}

/// The components of `rel` taken relative to the directory `dir`; where
/// `rel` starts with `/` it is taken from the file system root.
pub open spec fn resolve_path(dir: Seq<Seq<char>>, rel: Seq<char>) -> Seq<Seq<char>> {
    walk(if rel.len() > 0 && rel[0] == '/' { Seq::empty() } else { dir }, split_seq(rel, '/'))
}

/// The components joined by `/`.
pub open spec fn join_slash(comps: Seq<Seq<char>>) -> Seq<char>
    decreases comps.len(),
{
    if comps.len() == 0 {
        Seq::empty()
    } else if comps.len() == 1 {
        comps[0]
    } else {
        join_slash(comps.drop_last()) + seq!['/'] + comps.last()
    }
}

/// The absolute path that the components stand for.
pub open spec fn render_abs(comps: Seq<Seq<char>>) -> Seq<char> {
    seq!['/'] + join_slash(comps)
}

/// A relative path for the components; `.` where there are none.
pub open spec fn render_rel(comps: Seq<Seq<char>>) -> Seq<char> {
    if comps.len() == 0 {
        seq!['.']
    } else {
        join_slash(comps)
    }
}

/// The directory that holds `p`; the file system root for itself.
pub open spec fn parent_of(p: Seq<Seq<char>>) -> Seq<Seq<char>> {
    if p.len() > 0 {
        p.drop_last()
    } else {
        p
    }
}

/// Whether `p` lies at or below `root`.
pub open spec fn within(root: Seq<Seq<char>>, p: Seq<Seq<char>>) -> bool {
    root.len() <= p.len() && p.take(root.len() as int) == root
}

fn is_dot(v: &[char]) -> (r: bool)
    ensures
        r == (v@ == seq!['.']),
{
    let r = v.len() == 1 && v[0] == '.';
    proof {
        if v@.len() == 1 && v@[0] == '.' {
            assert(v@ =~= seq!['.']);
        }
    }
    r
}

fn is_dot_dot(v: &[char]) -> (r: bool)
    ensures
        r == (v@ == seq!['.', '.']),
{
    let r = v.len() == 2 && v[0] == '.' && v[1] == '.';
    proof {
        if v@.len() == 2 && v@[0] == '.' && v@[1] == '.' {
            assert(v@ =~= seq!['.', '.']);
        }
    }
    r
}

/// A copy of a list of components.
pub fn copy_comps(v: &Vec<Vec<char>>) -> (r: Vec<Vec<char>>)
    ensures
        views(r@) == views(v@),
{
    let mut r: Vec<Vec<char>> = Vec::new();
    let mut i: usize = 0;
    while i < v.len()
        invariant
            i <= v.len(),
            views(r@) == views(v@).take(i as int),
        decreases v.len() - i,
    {
        let ghost before = views(r@);
        let x = slice_of(v[i].as_slice(), 0, v[i].len());
        assert(x@ =~= v@[i as int]@);
        r.push(x);
        assert(views(r@) =~= before.push(x@));
        i = i + 1;
        assert(views(r@) =~= views(v@).take(i as int));
    }
    assert(views(v@).take(v.len() as int) =~= views(v@));
    r
}

/// Resolves `rel` against the directory `dir`.
pub fn resolve_path_exec(dir: &Vec<Vec<char>>, rel: &[char]) -> (r: Vec<Vec<char>>)
    ensures
        views(r@) == resolve_path(views(dir@), rel@),
{
    let parts = split_exec(rel, '/');
    let mut comps: Vec<Vec<char>> = if rel.len() > 0 && rel[0] == '/' {
        Vec::new()
    } else {
        copy_comps(dir)
    };
    let ghost start = views(comps@);
    assert(start =~= (if rel@.len() > 0 && rel@[0] == '/' { Seq::<Seq<char>>::empty() } else { views(dir@) }));
    let mut i: usize = 0;
    while i < parts.len()
        invariant
            i <= parts.len(),
            views(comps@) == walk(start, views(parts@).take(i as int)),
        decreases parts.len() - i,
    {
        let part = parts[i].as_slice();
        assert(views(parts@).take(i + 1).drop_last() =~= views(parts@).take(i as int));
        assert(part@ == views(parts@).take(i + 1).last());
        let ghost before = views(comps@);
        if part.len() == 0 || is_dot(part) {
        } else if is_dot_dot(part) {
            if comps.len() > 0 {
                comps.pop();
                assert(views(comps@) =~= before.drop_last());
            }
        } else {
            comps.push(slice_of(part, 0, part.len()));
            assert(part@.subrange(0, part@.len() as int) =~= part@);
            assert(views(comps@) =~= before.push(part@));
        }
        i = i + 1;
    }
    assert(views(parts@).take(parts.len() as int) =~= views(parts@));
    comps
}


/// The components joined by `/`.
pub fn join_slash_exec(comps: &Vec<Vec<char>>) -> (r: Vec<char>)
    ensures
        r@ == join_slash(views(comps@)),
{
    let mut out: Vec<char> = Vec::new();
    let mut i: usize = 0;
    while i < comps.len()
        invariant
            i <= comps.len(),
            out@ == join_slash(views(comps@).take(i as int)),
        decreases comps.len() - i,
    {
        let ghost before = out@;
        if i > 0 {
            out.push('/');
        }
        let mut c = slice_of(comps[i].as_slice(), 0, comps[i].len());
        assert(c@ =~= comps@[i as int]@);
        out.append(&mut c);
        i = i + 1;
        proof {
            let vs = views(comps@);
            assert(vs.take(i as int).drop_last() =~= vs.take(i - 1));
            if i == 1 {
                assert(vs.take(1)[0] == vs[0]);
            }
            assert(out@ =~= join_slash(vs.take(i as int)));
        }
    }
    assert(views(comps@).take(comps.len() as int) =~= views(comps@));
    out
}

pub fn chars_eq(a: &[char], b: &[char]) -> (r: bool)
    ensures
        r == (a@ == b@),
{
    if a.len() != b.len() {
        return false;
    }
    let mut i: usize = 0;
    while i < a.len()
        invariant
            a.len() == b.len(),
            i <= a.len(),
            forall|k: int| 0 <= k < i ==> a@[k] == b@[k],
        decreases a.len() - i,
    {
        if a[i] != b[i] {
            return false;
        }
        i = i + 1;
    }
    assert(a@ =~= b@);
    true
}

/// Whether `p` lies at or below `root`.
pub fn within_exec(root: &Vec<Vec<char>>, p: &Vec<Vec<char>>) -> (r: bool)
    ensures
        r == within(views(root@), views(p@)),
{
    if root.len() > p.len() {
        return false;
    }
    let mut i: usize = 0;
    while i < root.len()
        invariant
            root.len() <= p.len(),
            i <= root.len(),
            forall|k: int| 0 <= k < i ==> views(p@)[k] == views(root@)[k],
        decreases root.len() - i,
    {
        if !chars_eq(root[i].as_slice(), p[i].as_slice()) {
            assert(views(p@).take(root.len() as int)[i as int] != views(root@)[i as int]);
            return false;
        }
        i = i + 1;
    }
    assert(views(p@).take(root.len() as int) =~= views(root@));
    true
}


/// The components from position `k` on.
pub fn comps_from(v: &Vec<Vec<char>>, k: usize) -> (r: Vec<Vec<char>>)
    requires
        k <= v.len(),
    ensures
        views(r@) == views(v@).skip(k as int),
{
    let mut r: Vec<Vec<char>> = Vec::new();
    let mut i: usize = k;
    while i < v.len()
        invariant
            k <= i <= v.len(),
            views(r@) == views(v@).subrange(k as int, i as int),
        decreases v.len() - i,
    {
        let ghost before = views(r@);
        let x = slice_of(v[i].as_slice(), 0, v[i].len());
        assert(x@ =~= v@[i as int]@);
        r.push(x);
        assert(views(r@) =~= before.push(x@));
        i = i + 1;
        assert(views(r@) =~= views(v@).subrange(k as int, i as int));
    }
    assert(views(v@).subrange(k as int, v.len() as int) =~= views(v@).skip(k as int));
    r
}

/// The components but the last.
pub fn parent_comps(v: &Vec<Vec<char>>) -> (r: Vec<Vec<char>>)
    ensures
        views(r@) == parent_of(views(v@)),
{
    let mut r = copy_comps(v);
    if r.len() > 0 {
        let ghost before = views(r@);
        r.pop();
        assert(views(r@) =~= before.drop_last());
    }
    r
}

pub fn render_abs_exec(comps: &Vec<Vec<char>>) -> (r: Vec<char>)
    ensures
        r@ == render_abs(views(comps@)),
{
    let mut r: Vec<char> = Vec::new();
    r.push('/');
    let mut j = join_slash_exec(comps);
    r.append(&mut j);
    assert(r@ =~= render_abs(views(comps@)));
    r
}

pub fn render_rel_exec(comps: &Vec<Vec<char>>) -> (r: Vec<char>)
    ensures
        r@ == render_rel(views(comps@)),
{
    if comps.len() == 0 {
        let mut r: Vec<char> = Vec::new();
        r.push('.');
        assert(r@ =~= seq!['.']);
        r
    } else {
        join_slash_exec(comps)
    }
}

} // verus!

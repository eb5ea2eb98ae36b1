//! Laws of resolution, proved over the specifications.
use vstd::prelude::*;
use crate::block::{has_parent_marker, kw_parent, splice, table_get};
use crate::command::{continues, join_logical, keep_lines, piece, flag_end, flag_name_end, is_upper, option_run, parse_line, space_at_or_after, strip_all, upper_run, is_dropped, logical_lines, lemma_keep_lines_kept, file_directives, DirectiveView};
use crate::error::Fault;
use crate::path::{render_abs, render_rel, resolve_path, within, parent_of};
use crate::preprocessor::{
    block_entry, body_handled, blocks_from, canonical, copy_source, first_with, key_end, kw_only, kw_with, pair_at, pairs_from, with_clause_at, first_extend, handle, include_file, include_scope, kw_end_block, kw_include, prefixed,
    resolve, scan, with_pairs, Env,
};
use crate::block::block_regions;
use crate::substitute::{find_from, placeholder_at, skip_ws, subst, subst_from};
use crate::text::{split_seq, trim_start, is_ws, lead_ws, occurs_at, remove_all, trail_ws, trim, trim_end};

verus! {

/// No logical line of a file is blank or a comment.
pub proof fn lemma_no_comment_lines(text: Seq<char>)
    ensures
        forall|i: int| 0 <= i < logical_lines(text).len() ==> !is_dropped(#[trigger] logical_lines(text)[i]),
{
    lemma_keep_lines_kept(crate::command::join_logical(crate::text::split_seq(text, '\n')).0);
}

/// Splicing distributes over concatenation.
pub proof fn lemma_splice_concat(a: Seq<DirectiveView>, b: Seq<DirectiveView>, inner: Seq<DirectiveView>)
    ensures
        splice(a + b, inner) == splice(a, inner) + splice(b, inner),
    decreases b.len(),
{
    if b.len() == 0 {
        assert(a + b =~= a);
        assert(splice(a, inner) + splice(b, inner) =~= splice(a, inner));
    } else {
        lemma_splice_concat(a, b.drop_last(), inner);
        assert((a + b).drop_last() =~= a + b.drop_last());
        assert((a + b).last() == b.last());
        let tail = if b.last().name == kw_parent() { inner } else { seq![b.last()] };
        assert(splice(a, inner) + splice(b.drop_last(), inner) + tail =~= splice(a, inner) + (splice(b.drop_last(), inner) + tail));
    }
}

/// A block without `PARENT` splices to itself.
pub proof fn lemma_splice_without_marker(outer: Seq<DirectiveView>, inner: Seq<DirectiveView>)
    requires
        !has_parent_marker(outer),
    ensures
        splice(outer, inner) == outer,
    decreases outer.len(),
{
    if outer.len() > 0 {
        let p = outer.drop_last();
        assert(!has_parent_marker(p)) by {
            if has_parent_marker(p) {
                let i = choose|i: int| 0 <= i < p.len() && #[trigger] p[i].name == kw_parent();
                assert(outer[i].name == kw_parent());
            }
        }
        lemma_splice_without_marker(p, inner);
        assert(outer.last().name != kw_parent()) by {
            if outer.last().name == kw_parent() {
                assert(outer[outer.len() - 1].name == kw_parent());
            }
        }
        assert(p + seq![outer.last()] =~= outer);
    }
}

/// Override without `PARENT`: where the table that the child passed down
/// has a block of this name without a `PARENT` directive, closing the block
/// emits exactly the child's block; what this file collected never appears.
pub proof fn lemma_override_replaces(env: Env, f: nat, ds: Seq<DirectiveView>, i: int, table: Seq<(Seq<char>, Seq<DirectiveView>)>, dir: Seq<Seq<char>>, vars: Map<Seq<char>, Seq<char>>, name: Seq<char>, buf: Seq<DirectiveView>, child: Seq<DirectiveView>)
    requires
        0 <= i < ds.len(),
        ds[i].name == kw_end_block(),
        table_get(table, name) == Some(child),
        !has_parent_marker(child),
    ensures
        scan(env, f, ds, i, table, dir, vars, name, buf) == prefixed(child, scan(env, f, ds, i + 1, table, dir, vars, Seq::empty(), Seq::empty())),
{
    lemma_splice_without_marker(child, buf);
}

/// Override with `PARENT`: where the child's block is `pre`, `PARENT`,
/// `post` (no other `PARENT`), closing the block emits `pre`, then what this
/// file collected, then `post`.
pub proof fn lemma_override_splices(env: Env, f: nat, ds: Seq<DirectiveView>, i: int, table: Seq<(Seq<char>, Seq<DirectiveView>)>, dir: Seq<Seq<char>>, vars: Map<Seq<char>, Seq<char>>, name: Seq<char>, buf: Seq<DirectiveView>, pre: Seq<DirectiveView>, marker: DirectiveView, post: Seq<DirectiveView>)
    requires
        0 <= i < ds.len(),
        ds[i].name == kw_end_block(),
        marker.name == kw_parent(),
        !has_parent_marker(pre),
        !has_parent_marker(post),
        table_get(table, name) == Some(pre + seq![marker] + post),
    ensures
        scan(env, f, ds, i, table, dir, vars, name, buf) == prefixed(pre + buf + post, scan(env, f, ds, i + 1, table, dir, vars, Seq::empty(), Seq::empty())),
{
    lemma_splice_concat(pre + seq![marker], post, buf);
    lemma_splice_concat(pre, seq![marker], buf);
    lemma_splice_without_marker(pre, buf);
    lemma_splice_without_marker(post, buf);
    let one = seq![marker];
    assert(one.drop_last() =~= Seq::<DirectiveView>::empty());
    assert(one.last() == marker);
    assert(splice(Seq::<DirectiveView>::empty(), buf) == Seq::<DirectiveView>::empty());
    assert(splice(one, buf) =~= buf);
    assert(splice(pre, buf) + buf + post =~= pre + buf + post);
}

/// `EXTEND` ends the file: where a file's first `EXTEND` names a parent, the
/// file resolves to the parent's resolution with this file's blocks laid
/// over the table; nothing else in the file reaches the output.
pub proof fn lemma_extend_short_circuits(env: Env, fuel: nat, target: Seq<char>, dir: Seq<Seq<char>>, table: Seq<(Seq<char>, Seq<DirectiveView>)>, vars: Map<Seq<char>, Seq<char>>, c: Seq<Seq<char>>, ds: Seq<DirectiveView>, k: int)
    requires
        fuel > 0,
        canonical(env.paths, render_abs(resolve_path(dir, target))) == Ok::<Seq<Seq<char>>, Fault>(c),
        env.sources.contains_key(render_abs(c)),
        file_directives(env.sources[render_abs(c)]) == Ok::<Seq<DirectiveView>, Seq<char>>(ds),
        first_extend(ds, 0) == Some(k),
    ensures
        ({
            let text = env.sources[render_abs(c)];
            let f = (fuel - 1) as nat;
            resolve(env, fuel, target, dir, table, vars) == match blocks_from(env, f, block_regions(text), 0, table, parent_of(c), vars) {
                Ok(t2) => resolve(env, f, ds[k].argument, parent_of(c), t2, vars),
                Err(x) => Err(x),
            }
        }),
{
}

/// The scope of an included file holds the pairs of its `WITH` clause over
/// the base scope, the last binding of a key winning.
pub proof fn lemma_with_pairs_binds(m: Map<Seq<char>, Seq<char>>, ps: Seq<(Seq<char>, Seq<char>)>, j: int)
    requires
        0 <= j < ps.len(),
        forall|l: int| j < l < ps.len() ==> #[trigger] ps[l].0 != ps[j].0,
    ensures
        with_pairs(m, ps).contains_key(ps[j].0),
        with_pairs(m, ps)[ps[j].0] == ps[j].1,
    decreases ps.len(),
{
    if j < ps.len() - 1 {
        let p = ps.drop_last();
        assert forall|l: int| j < l < p.len() implies #[trigger] p[l].0 != p[j].0 by {
            assert(ps[l].0 != ps[j].0);
        }
        lemma_with_pairs_binds(m, p, j);
        assert(ps.last().0 != ps[j].0);
    }
}

/// Under `ONLY` the included file sees the `WITH` keys alone; without it,
/// the includer's variables stay visible.
pub proof fn lemma_with_pairs_domain(m: Map<Seq<char>, Seq<char>>, ps: Seq<(Seq<char>, Seq<char>)>, key: Seq<char>)
    ensures
        with_pairs(m, ps).contains_key(key) <==> (m.contains_key(key) || exists|j: int| 0 <= j < ps.len() && #[trigger] ps[j].0 == key),
    decreases ps.len(),
{
    if ps.len() > 0 {
        let p = ps.drop_last();
        lemma_with_pairs_domain(m, p, key);
        if exists|j: int| 0 <= j < p.len() && #[trigger] p[j].0 == key {
            let j = choose|j: int| 0 <= j < p.len() && #[trigger] p[j].0 == key;
            assert(ps[j].0 == key);
        }
        if exists|j: int| 0 <= j < ps.len() && #[trigger] ps[j].0 == key {
            let j = choose|j: int| 0 <= j < ps.len() && #[trigger] ps[j].0 == key;
            if j < ps.len() - 1 {
                assert(p[j].0 == key);
            }
        }
    }
}

/// An `INCLUDE` resolves its file afresh, with no blocks passed down, in the
/// scope that its argument gives.
pub proof fn lemma_include_scope(env: Env, f: nat, d: DirectiveView, dir: Seq<Seq<char>>, vars: Map<Seq<char>, Seq<char>>)
    requires
        d.name == kw_include(),
    ensures
        handle(env, f, d, dir, vars) == resolve(env, f, include_file(d.argument), dir, Seq::empty(), include_scope(d.argument, vars)),
{
}

/// Sandboxing: a `COPY`/`ADD` source that exists fails exactly when its
/// canonical path lies outside the root, and otherwise becomes that path
/// relative to the root; a source that does not exist fails.
pub proof fn lemma_copy_sandbox(root: Seq<Seq<char>>, paths: Map<Seq<char>, Seq<char>>, dir: Seq<Seq<char>>, token: Seq<char>)
    requires
        paths.contains_key(render_abs(resolve_path(dir, token))),
    ensures
        ({
            let key = render_abs(resolve_path(dir, token));
            let c = resolve_path(Seq::empty(), paths[key]);
            let r = copy_source(root, paths, dir, token);
            &&& paths[key].len() == 0 ==> r == Err::<Seq<char>, Fault>(Fault::UnresolvedTarget(key))
            &&& paths[key].len() > 0 && !within(root, c) ==> r == Err::<Seq<char>, Fault>(Fault::PathOutsideSandbox(render_abs(c)))
            &&& paths[key].len() > 0 && within(root, c) ==> r == Ok::<Seq<char>, Fault>(render_rel(c.skip(root.len() as int)))
        }),
{
}

proof fn lemma_find_close(s: Seq<char>, i: int, q: int)
    requires
        0 <= i <= q,
        occurs_at(s, q, seq!['}', '}']),
        forall|j: int| i <= j < q ==> s[j] != '}',
    ensures
        find_from(s, i, seq!['}', '}']) == Some(q),
    decreases q - i,
{
    if i < q {
        assert(s.subrange(i, i + 2)[0] == s[i]);
        assert(!occurs_at(s, i, seq!['}', '}']));
        lemma_find_close(s, i + 1, q);
    }
}

/// Substitution round trip: `{{ name }}` renders as the value bound to
/// `name`, and fails naming `name` where nothing is bound to it.
pub proof fn lemma_placeholder_round_trip(name: Seq<char>, vars: Map<Seq<char>, Seq<char>>)
    requires
        name.len() > 0,
        !is_ws(name[0]),
        !is_ws(name.last()),
        forall|i: int| 0 <= i < name.len() ==> name[i] != '}',
    ensures
        vars.contains_key(name) ==> subst(seq!['{', '{', ' '] + name + seq![' ', '}', '}'], vars) == Ok::<Seq<char>, Seq<char>>(vars[name]),
        !vars.contains_key(name) ==> subst(seq!['{', '{', ' '] + name + seq![' ', '}', '}'], vars) == Err::<Seq<char>, Seq<char>>(name),
{
    let s = seq!['{', '{', ' '] + name + seq![' ', '}', '}'];
    let n = name.len() as int;
    assert(s.len() == n + 6);
    assert(s.subrange(0, 2) =~= seq!['{', '{']);
    assert(s[2] == ' ');
    assert(is_ws(' '));
    assert(s[3] == name[0]);
    assert(skip_ws(s, 3) == 3);
    assert(skip_ws(s, 2) == 3);
    assert(s.subrange(n + 4, n + 6) =~= seq!['}', '}']);
    assert forall|j: int| 3 <= j < n + 4 implies s[j] != '}' by {
        if j < n + 3 {
            assert(s[j] == name[j - 3]);
        }
    }
    lemma_find_close(s, 3, n + 4);
    let inner = s.subrange(3, n + 4);
    assert(inner =~= name.push(' '));
    assert(inner.drop_last() =~= name);
    assert(trail_ws(name) == 0);
    assert(trail_ws(inner) == 1);
    assert(trim_end(inner) =~= name);
    assert(placeholder_at(s, 0) == Some((name, n + 6)));
    assert(subst_from(s, n + 6, vars) == Ok::<Seq<char>, Seq<char>>(Seq::empty()));
    if vars.contains_key(name) {
        assert(vars[name] + Seq::<char>::empty() =~= vars[name]);
    }
}


proof fn lemma_upper_prefix(name: Seq<char>, tail: Seq<char>)
    requires
        forall|i: int| 0 <= i < name.len() ==> is_upper(#[trigger] name[i]),
        tail.len() > 0,
        !is_upper(tail[0]),
    ensures
        upper_run(name + tail) == name.len(),
    decreases name.len(),
{
    let s = name + tail;
    if name.len() == 0 {
        assert(s =~= tail);
    } else {
        assert(s[0] == name[0]);
        assert(s.skip(1) =~= name.skip(1) + tail);
        assert forall|i: int| 0 <= i < name.skip(1).len() implies is_upper(#[trigger] name.skip(1)[i]) by {
            assert(name.skip(1)[i] == name[i + 1]);
        }
        lemma_upper_prefix(name.skip(1), tail);
    }
}

/// `p` occurs nowhere in `s` where no character equal to `p[0]` is
/// followed by `p[1]`.
proof fn lemma_remove_absent(s: Seq<char>, p: Seq<char>)
    requires
        p.len() == 2,
        forall|j: int| 0 <= j < s.len() - 1 && #[trigger] s[j] == p[0] ==> s[j + 1] != p[1],
    ensures
        remove_all(s, p) == s,
    decreases s.len(),
{
    if s.len() >= 2 {
        assert(s.take(2)[0] == s[0] && s.take(2)[1] == s[1]);
        if s[0] == p[0] {
            assert(s.take(2) != p);
        }
        assert forall|j: int| 0 <= j < s.skip(1).len() - 1 && #[trigger] s.skip(1)[j] == p[0] implies s.skip(1)[j + 1] != p[1] by {
            assert(s.skip(1)[j] == s[j + 1]);
            assert(s.skip(1)[j + 1] == s[j + 2]);
        }
        lemma_remove_absent(s.skip(1), p);
        assert(seq![s[0]] + s.skip(1) =~= s);
    }
}

/// A directive line of the shape `NAME -a --b=c rest of text`, whatever
/// the upper-case name, parses into that name, the options `-a` and
/// `--b=c`, and the argument `rest of text`.
pub proof fn lemma_parse_flags_line(name: Seq<char>)
    requires
        name.len() > 0,
        forall|i: int| 0 <= i < name.len() ==> is_upper(#[trigger] name[i]),
    ensures
        parse_line(name + seq![' ', '-', 'a', ' ', '-', '-', 'b', '=', 'c', ' ', 'r', 'e', 's', 't', ' ', 'o', 'f', ' ', 't', 'e', 'x', 't'])
            == Some(DirectiveView {
                name,
                options: seq![seq!['-', 'a'], seq!['-', '-', 'b', '=', 'c']],
                argument: seq!['r', 'e', 's', 't', ' ', 'o', 'f', ' ', 't', 'e', 'x', 't'],
            }),
{
    let text = seq!['r', 'e', 's', 't', ' ', 'o', 'f', ' ', 't', 'e', 'x', 't'];
    let tail = seq![' ', '-', 'a', ' ', '-', '-', 'b', '=', 'c', ' '] + text;
    assert(tail =~= seq![' ', '-', 'a', ' ', '-', '-', 'b', '=', 'c', ' ', 'r', 'e', 's', 't', ' ', 'o', 'f', ' ', 't', 'e', 'x', 't']);
    let l = name + tail;
    lemma_upper_prefix(name, tail);
    let n = name.len() as int;
    assert(l.skip(n) =~= tail);
    assert(l.take(n) =~= name);
    let a = seq!['-', 'a'];
    let b = seq!['-', '-', 'b', '=', 'c'];
    // the option run
    assert(flag_end(tail, 1) == Some(3int));
    assert(tail.subrange(1, 3) =~= a);
    assert(flag_name_end(tail, 7) == 7);
    assert(flag_name_end(tail, 6) == 7);
    assert(space_at_or_after(tail, 9) == 9);
    assert(space_at_or_after(tail, 8) == 9);
    assert(space_at_or_after(tail, 7) == 9);
    assert(space_at_or_after(tail, 6) == 9);
    assert(space_at_or_after(tail, 5) == 9);
    assert(space_at_or_after(tail, 4) == 9);
    assert(flag_end(tail, 4) == Some(9int));
    assert(tail.subrange(4, 9) =~= b);
    assert(flag_end(tail, 10) is None);
    assert(option_run(tail, 10) =~= Seq::<Seq<char>>::empty());
    assert(option_run(tail, 9) =~= Seq::<Seq<char>>::empty());
    assert(option_run(tail, 4) =~= seq![b]);
    assert(option_run(tail, 3) =~= seq![b]);
    assert(option_run(tail, 1) =~= seq![a, b]);
    assert(option_run(tail, 0) =~= seq![a, b]);
    let opts = seq![a, b];
    // stripping `-a`
    let rest1 = seq![' ', '-', '-', 'b', '=', 'c', ' '] + text;
    assert(tail.take(2) != a) by {
        assert(tail.take(2)[0] == ' ');
    }
    assert(tail.skip(1).take(2) =~= a);
    assert(tail.skip(1).skip(2) =~= rest1);
    assert forall|j: int| 0 <= j < rest1.len() - 1 && #[trigger] rest1[j] == a[0] implies rest1[j + 1] != a[1] by {
        assert(rest1.len() == 19);
    }
    lemma_remove_absent(rest1, a);
    assert(remove_all(tail.skip(1), a) == rest1);
    let s1 = seq![' '] + rest1;
    assert(remove_all(tail, a) =~= s1);
    // stripping `--b=c`
    let rest2 = seq![' '] + text;
    assert(s1.take(5) != b) by {
        assert(s1.take(5)[0] == ' ');
    }
    assert(s1.skip(1).take(5) != b) by {
        assert(s1.skip(1).take(5)[0] == ' ');
    }
    assert(s1.skip(2).take(5) =~= b);
    assert(s1.skip(2).skip(5) =~= rest2);
    lemma_remove_no_dash(rest2, b);
    assert(remove_all(s1.skip(2), b) == rest2);
    assert(s1.skip(1).skip(1) =~= s1.skip(2));
    assert(s1.skip(1)[0] == ' ');
    assert(s1.skip(1).len() >= b.len());
    assert(remove_all(s1.skip(1), b) =~= seq![' '] + rest2);
    assert(remove_all(s1, b) =~= seq![' ', ' '] + rest2);
    let s2 = seq![' ', ' ', ' '] + text;
    assert(seq![' ', ' '] + rest2 =~= s2);
    assert(strip_all(tail, opts, 0) == strip_all(s1, opts, 1));
    assert(strip_all(s1, opts, 1) == strip_all(s2, opts, 2));
    assert(strip_all(tail, opts, 0) == s2);
    // trimming
    assert(lead_ws(s2.skip(3)) == 0) by {
        assert(s2.skip(3) =~= text);
    }
    assert(lead_ws(s2.skip(2)) == 1) by {
        assert(s2.skip(2).skip(1) =~= s2.skip(3));
    }
    assert(lead_ws(s2.skip(1)) == 2) by {
        assert(s2.skip(1).skip(1) =~= s2.skip(2));
    }
    assert(lead_ws(s2) == 3) by {
        assert(s2.skip(1) =~= s2.skip(1));
    }
    assert(s2.skip(3) =~= text);
    assert(trail_ws(text) == 0);
    assert(text.take(text.len() as int) =~= text);
    assert(trim(s2) =~= text);
}

/// Nothing is removed from a text in which the pattern's first character
/// does not occur.
proof fn lemma_remove_no_dash(s: Seq<char>, p: Seq<char>)
    requires
        p.len() > 0,
        forall|j: int| 0 <= j < s.len() ==> s[j] != p[0],
    ensures
        remove_all(s, p) == s,
    decreases s.len(),
{
    if s.len() >= p.len() {
        assert(s.take(p.len() as int)[0] == s[0]);
        assert forall|j: int| 0 <= j < s.skip(1).len() implies s.skip(1)[j] != p[0] by {
            assert(s.skip(1)[j] == s[j + 1]);
        }
        lemma_remove_no_dash(s.skip(1), p);
        assert(seq![s[0]] + s.skip(1) =~= s);
    }
}


proof fn lemma_with_clause_parts(s: Seq<char>)
    requires
        s.len() >= 16,
        s.take(16) =~= seq!['a', ' ', 'W', 'I', 'T', 'H', ' ', '{', '"', 'k', '"', ':', '"', 'v', '"', '}'],
    ensures
        first_with(s, 0) == Some((2int, seq!['"', 'k', '"', ':', '"', 'v', '"'], occurs_at(s, skip_ws(s, 16), kw_only()))),
        include_file(s) == seq!['a'],
        pairs_from(seq!['"', 'k', '"', ':', '"', 'v', '"'], 0) == seq![(seq!['k'], seq!['v'])],
{
    assert(s[0] == 'a' && s[1] == ' ' && s[2] == 'W' && s[6] == ' ' && s[7] == '{');
    assert(s[8] == '"' && s[9] == 'k' && s[10] == '"' && s[11] == ':' && s[12] == '"' && s[13] == 'v' && s[14] == '"' && s[15] == '}');
    assert(s.subrange(0, 4)[0] == 'a');
    assert(!occurs_at(s, 0, kw_with()));
    assert(s.subrange(1, 5)[0] == ' ');
    assert(!occurs_at(s, 1, kw_with()));
    assert(s.subrange(2, 6) =~= kw_with());
    assert(skip_ws(s, 7) == 7);
    assert(is_ws(' '));
    assert(skip_ws(s, 6) == 7);
    let close = seq!['}'];
    assert(s.subrange(15, 16) =~= close);
    assert(find_from(s, 15, close) == Some(15int));
    assert(s.subrange(14, 15)[0] == '"');
    assert(find_from(s, 14, close) == Some(15int));
    assert(s.subrange(13, 14)[0] == 'v');
    assert(find_from(s, 13, close) == Some(15int));
    assert(s.subrange(12, 13)[0] == '"');
    assert(find_from(s, 12, close) == Some(15int));
    assert(s.subrange(11, 12)[0] == ':');
    assert(find_from(s, 11, close) == Some(15int));
    assert(s.subrange(10, 11)[0] == '"');
    assert(find_from(s, 10, close) == Some(15int));
    assert(s.subrange(9, 10)[0] == 'k');
    assert(find_from(s, 9, close) == Some(15int));
    assert(s.subrange(8, 9)[0] == '"');
    assert(find_from(s, 8, close) == Some(15int));
    let t = seq!['"', 'k', '"', ':', '"', 'v', '"'];
    assert(s.subrange(8, 15) =~= t);
    assert(with_clause_at(s, 0) is None);
    assert(with_clause_at(s, 1) is None);
    assert(with_clause_at(s, 2) == Some((t, occurs_at(s, skip_ws(s, 16), kw_only()))));
    assert(first_with(s, 1) == first_with(s, 2));
    assert(first_with(s, 0) == first_with(s, 1));
    // the file name
    let head = s.take(2);
    assert(head =~= seq!['a', ' ']);
    assert(head.drop_last() =~= seq!['a']);
    assert(trail_ws(seq!['a']) == 0);
    assert(trail_ws(head) == 1);
    assert(trim_end(head) =~= seq!['a']);
    // the pair
    assert(key_end(t, 2) == 2);
    assert(key_end(t, 1) == 2);
    assert(skip_ws(t, 3) == 3);
    assert(skip_ws(t, 4) == 4);
    assert(key_end(t, 6) == 6);
    assert(key_end(t, 5) == 6);
    assert(t.subrange(1, 2) =~= seq!['k']);
    assert(t.subrange(5, 6) =~= seq!['v']);
    assert(pair_at(t, 0) == Some((seq!['k'], seq!['v'], 7int)));
    assert(pairs_from(t, 7) =~= Seq::<(Seq<char>, Seq<char>)>::empty());
    assert(pairs_from(t, 0) =~= seq![(seq!['k'], seq!['v'])]);
}

/// `INCLUDE a WITH {"k":"v"}` resolves `a` with the includer's scope and
/// `k` bound to `v`.
pub proof fn lemma_include_with(env: Env, f: nat, d: DirectiveView, dir: Seq<Seq<char>>, vars: Map<Seq<char>, Seq<char>>)
    requires
        d.name == kw_include(),
        d.argument == seq!['a', ' ', 'W', 'I', 'T', 'H', ' ', '{', '"', 'k', '"', ':', '"', 'v', '"', '}'],
    ensures
        handle(env, f, d, dir, vars) == resolve(env, f, seq!['a'], dir, Seq::empty(), vars.insert(seq!['k'], seq!['v'])),
{
    let s = d.argument;
    lemma_with_clause_parts(s);
    assert(skip_ws(s, 16) == 16);
    assert(!occurs_at(s, 16, kw_only()));
    let ps = seq![(seq!['k'], seq!['v'])];
    assert(ps.drop_last() =~= Seq::<(Seq<char>, Seq<char>)>::empty());
    assert(with_pairs(vars, ps.drop_last()) == vars);
    assert(ps.last() == (seq!['k'], seq!['v']));
    assert(with_pairs(vars, ps) == vars.insert(seq!['k'], seq!['v']));
    assert(include_scope(s, vars) == with_pairs(vars, ps));
    assert(include_file(s) == seq!['a']);
}

/// `INCLUDE a WITH {"k":"v"} ONLY` resolves `a` with `k` bound to `v` and
/// nothing else in scope.
pub proof fn lemma_include_with_only(env: Env, f: nat, d: DirectiveView, dir: Seq<Seq<char>>, vars: Map<Seq<char>, Seq<char>>)
    requires
        d.name == kw_include(),
        d.argument == seq!['a', ' ', 'W', 'I', 'T', 'H', ' ', '{', '"', 'k', '"', ':', '"', 'v', '"', '}', ' ', 'O', 'N', 'L', 'Y'],
    ensures
        handle(env, f, d, dir, vars) == resolve(env, f, seq!['a'], dir, Seq::empty(), Map::<Seq<char>, Seq<char>>::empty().insert(seq!['k'], seq!['v'])),
{
    let s = d.argument;
    assert(s.take(16) =~= seq!['a', ' ', 'W', 'I', 'T', 'H', ' ', '{', '"', 'k', '"', ':', '"', 'v', '"', '}']);
    lemma_with_clause_parts(s);
    assert(is_ws(' '));
    assert(skip_ws(s, 17) == 17);
    assert(skip_ws(s, 16) == 17);
    assert(s.subrange(17, 21) =~= kw_only());
    let ps = seq![(seq!['k'], seq!['v'])];
    assert(ps.drop_last() =~= Seq::<(Seq<char>, Seq<char>)>::empty());
    let m = Map::<Seq<char>, Seq<char>>::empty();
    assert(with_pairs(m, ps.drop_last()) == m);
    assert(ps.last() == (seq!['k'], seq!['v']));
    assert(with_pairs(m, ps) == m.insert(seq!['k'], seq!['v']));
    assert(include_scope(s, vars) == with_pairs(m, ps));
    assert(include_file(s) == seq!['a']);
}


/// A block that the passed-down table lacks is this file's body, resolved:
/// the child's content wholly stands for the block.
pub proof fn lemma_block_entry_fresh(env: Env, f: nat, n: Seq<char>, body: Seq<char>, parent: Seq<(Seq<char>, Seq<DirectiveView>)>, dir: Seq<Seq<char>>, vars: Map<Seq<char>, Seq<char>>)
    requires
        table_get(parent, n) is None,
    ensures
        block_entry(env, f, n, body, parent, dir, vars) == body_handled(env, f, body, dir, vars),
{
}

/// A passed-down block without `PARENT` is kept as it is; this file's body
/// never enters it.
pub proof fn lemma_block_entry_kept(env: Env, f: nat, n: Seq<char>, body: Seq<char>, parent: Seq<(Seq<char>, Seq<DirectiveView>)>, dir: Seq<Seq<char>>, vars: Map<Seq<char>, Seq<char>>, child: Seq<DirectiveView>)
    requires
        table_get(parent, n) == Some(child),
        !has_parent_marker(child),
    ensures
        block_entry(env, f, n, body, parent, dir, vars) == Ok::<Seq<DirectiveView>, Fault>(child),
{
}

/// A passed-down block `pre`, `PARENT`, `post` (no other `PARENT`) gets this
/// file's resolved body at the position of `PARENT`.
pub proof fn lemma_block_entry_splices(env: Env, f: nat, n: Seq<char>, body: Seq<char>, parent: Seq<(Seq<char>, Seq<DirectiveView>)>, dir: Seq<Seq<char>>, vars: Map<Seq<char>, Seq<char>>, pre: Seq<DirectiveView>, marker: DirectiveView, post: Seq<DirectiveView>)
    requires
        marker.name == kw_parent(),
        !has_parent_marker(pre),
        !has_parent_marker(post),
        table_get(parent, n) == Some(pre + seq![marker] + post),
    ensures
        block_entry(env, f, n, body, parent, dir, vars) == match body_handled(env, f, body, dir, vars) {
            Ok(h) => Ok::<Seq<DirectiveView>, Fault>(pre + h + post),
            Err(x) => Err(x),
        },
{
    let pb = pre + seq![marker] + post;
    assert(pb[pre.len() as int] == marker);
    assert(has_parent_marker(pb));
    match body_handled(env, f, body, dir, vars) {
        Ok(h) => {
            lemma_splice_concat(pre + seq![marker], post, h);
            lemma_splice_concat(pre, seq![marker], h);
            lemma_splice_without_marker(pre, h);
            lemma_splice_without_marker(post, h);
            let one = seq![marker];
            assert(one.drop_last() =~= Seq::<DirectiveView>::empty());
            assert(one.last() == marker);
            assert(splice(Seq::<DirectiveView>::empty(), h) == Seq::<DirectiveView>::empty());
            assert(splice(one, h) =~= h);
            assert(splice(pb, h) =~= pre + h + post);
        },
        Err(_) => {},
    }
}


proof fn lemma_split_nonempty(x: Seq<char>, sep: char)
    ensures
        split_seq(x, sep).len() >= 1,
    decreases x.len(),
{
    if x.len() > 0 {
        lemma_split_nonempty(x.drop_last(), sep);
    }
}

proof fn lemma_split_append(x: Seq<char>, y: Seq<char>, sep: char)
    requires
        forall|i: int| 0 <= i < y.len() ==> y[i] != sep,
    ensures
        split_seq(x + y, sep) == split_seq(x, sep).update(split_seq(x, sep).len() - 1, split_seq(x, sep).last() + y),
    decreases y.len(),
{
    lemma_split_nonempty(x, sep);
    let r = split_seq(x, sep);
    if y.len() == 0 {
        assert(x + y =~= x);
        assert(r.last() + y =~= r.last());
        assert(r.update(r.len() - 1, r.last()) =~= r);
    } else {
        let y0 = y.drop_last();
        assert forall|i: int| 0 <= i < y0.len() implies y0[i] != sep by {
            assert(y0[i] == y[i]);
        }
        assert(y[y.len() - 1] != sep);
        lemma_split_append(x, y0, sep);
        assert((x + y).drop_last() =~= x + y0);
        assert((x + y).last() == y.last());
        let big = split_seq(x + y0, sep);
        assert(big.len() == r.len());
        assert(big.last() == r.last() + y0);
        assert(split_seq(x + y, sep) == big.update(big.len() - 1, big.last().push((x + y).last())));
        assert(big.last().push(y.last()) =~= r.last() + y);
        assert((x + y).drop_last() =~= x + y0);
        assert((x + y).last() == y.last());
        assert(r.last() + y0 + seq![y.last()] =~= r.last() + y);
        assert(split_seq(x + y, sep) =~= r.update(r.len() - 1, r.last() + y));
    }
}

proof fn lemma_remove_last(s: Seq<char>, c: char)
    requires
        forall|i: int| 0 <= i < s.len() ==> s[i] != c,
    ensures
        remove_all(s.push(c), seq![c]) == s,
    decreases s.len(),
{
    let t = s.push(c);
    assert(seq![c].len() == 1);
    if s.len() == 0 {
        assert(t.take(1) =~= seq![c]);
        assert(t.skip(1) =~= Seq::<char>::empty());
        assert(remove_all(Seq::<char>::empty(), seq![c]) == Seq::<char>::empty());
        assert(remove_all(t, seq![c]) == remove_all(t.skip(1), seq![c]));
    } else {
        assert(t[0] == s[0]);
        assert(t.take(1)[0] == s[0]);
        assert(s[0] != c);
        assert(t.take(1) != seq![c]) by {
            assert(seq![c][0] == c);
        }
        assert(t.skip(1) =~= s.skip(1).push(c));
        assert forall|i: int| 0 <= i < s.skip(1).len() implies s.skip(1)[i] != c by {
            assert(s.skip(1)[i] == s[i + 1]);
        }
        lemma_remove_last(s.skip(1), c);
        assert(remove_all(t, seq![c]) == seq![t[0]] + remove_all(t.skip(1), seq![c]));
        assert(seq![s[0]] + s.skip(1) =~= s);
    }
}

proof fn lemma_lead_facts(s: Seq<char>)
    ensures
        lead_ws(s) <= s.len(),
        lead_ws(s) < s.len() ==> !is_ws(s[lead_ws(s) as int]),
        forall|i: int| 0 <= i < lead_ws(s) ==> is_ws(#[trigger] s[i]),
    decreases s.len(),
{
    if s.len() > 0 && is_ws(s[0]) {
        lemma_lead_facts(s.skip(1));
        assert forall|i: int| 0 <= i < lead_ws(s) implies is_ws(#[trigger] s[i]) by {
            if i > 0 {
                assert(s[i] == s.skip(1)[i - 1]);
            }
        }
    }
}

proof fn lemma_trail_facts(s: Seq<char>)
    ensures
        trail_ws(s) <= s.len(),
        trail_ws(s) < s.len() ==> !is_ws(s[s.len() - 1 - trail_ws(s)]),
    decreases s.len(),
{
    if s.len() > 0 && is_ws(s.last()) {
        lemma_trail_facts(s.drop_last());
    }
}

/// A trimmed, non-empty text starts and ends with a non-whitespace character.
proof fn lemma_trim_ends(s: Seq<char>)
    ensures
        trim(s).len() > 0 ==> !is_ws(trim(s)[0]) && !is_ws(trim(s).last()),
{
    let t = trim_start(s);
    lemma_lead_facts(s);
    lemma_trail_facts(t);
    if trim(s).len() > 0 {
        assert(trim(s)[0] == t[0]);
        assert(t[0] == s[lead_ws(s) as int]);
        assert(trim(s).last() == t[t.len() - 1 - trail_ws(t)]);
    }
}

/// A text that starts and ends with a non-whitespace character is its own trim.
proof fn lemma_trim_fixed(s: Seq<char>)
    requires
        s.len() > 0,
        !is_ws(s[0]),
        !is_ws(s.last()),
    ensures
        trim(s) == s,
{
    assert(lead_ws(s) == 0);
    assert(s.skip(0) =~= s);
    assert(trail_ws(s) == 0);
    assert(s.take(s.len() as int) =~= s);
}

/// Line continuation: a line ending in a backslash and the line after it
/// form one logical line, their trimmed texts joined by one space.
pub proof fn lemma_line_continuation(a: Seq<char>, b: Seq<char>)
    requires
        forall|i: int| 0 <= i < a.len() ==> a[i] != '\n' && a[i] != '\\',
        forall|i: int| 0 <= i < b.len() ==> b[i] != '\n' && b[i] != '\\',
        !is_dropped(a),
        trim(b).len() > 0,
    ensures
        logical_lines(a + seq!['\\', '\n'] + b) == seq![trim(a) + seq![' '] + trim(b)],
{
    let x1 = a.push('\\');
    assert forall|i: int| 0 <= i < x1.len() implies x1[i] != '\n' by {
        if i < a.len() {
            assert(x1[i] == a[i]);
        }
    }
    assert(a + seq!['\\', '\n'] + b =~= x1.push('\n') + b);
    // physical lines
    lemma_split_append(Seq::<char>::empty(), x1, '\n');
    assert(Seq::<char>::empty() + x1 =~= x1);
    assert(split_seq(Seq::<char>::empty(), '\n') =~= seq![Seq::<char>::empty()]);
    assert(split_seq(x1, '\n') =~= seq![x1]);
    assert(x1.push('\n').drop_last() =~= x1);
    assert(split_seq(x1.push('\n'), '\n') =~= seq![x1, Seq::<char>::empty()]);
    assert forall|i: int| 0 <= i < b.len() implies b[i] != '\n' by {}
    lemma_split_append(x1.push('\n'), b, '\n');
    let segs = seq![x1, b];
    assert(Seq::<char>::empty() + b =~= b);
    assert(split_seq(x1.push('\n') + b, '\n') =~= segs);
    // pieces
    lemma_remove_last(a, '\\');
    assert(piece(x1) == trim(a));
    lemma_remove_no_dash(b, seq!['\\']);
    assert(piece(b) == trim(b));
    // the first line asks for continuation
    lemma_lead_facts(x1);
    assert(!is_ws('\\'));
    assert(lead_ws(x1) < x1.len());
    let t1 = trim_start(x1);
    assert(t1.last() == '\\');
    assert(trail_ws(t1) == 0);
    assert(t1.take(t1.len() as int) =~= t1);
    assert(continues(x1));
    // joining
    assert(segs.drop_last() =~= seq![x1]);
    assert(seq![x1].drop_last() =~= Seq::<Seq<char>>::empty());
    let ta = trim(a);
    lemma_trim_ends(a);
    lemma_trim_fixed(ta);
    let line = ta + seq![' '] + trim(b);
    assert(join_logical(Seq::<Seq<char>>::empty()) == (Seq::<Seq<char>>::empty(), false));
    assert(seq![x1].last() == x1);
    assert(join_logical(seq![x1]) == (seq![ta], continues(x1)));
    assert(segs.last() == b);
    assert(join_logical(seq![x1]).0 =~= seq![ta]);
    assert(join_logical(segs).0 =~= seq![line]);
    // keeping
    lemma_trim_ends(b);
    assert(line[0] == ta[0]);
    assert(line.last() == trim(b).last());
    lemma_trim_fixed(line);
    assert(line.len() >= 2 && line[1] != '/' ==> !(line[0] == '/' && line[1] == '/'));
    if ta.len() == 1 {
        assert(line[1] == ' ');
    } else {
        assert(line[1] == ta[1]);
    }
    assert(!is_dropped(line));
    assert(seq![line].drop_last() =~= Seq::<Seq<char>>::empty());
    assert(keep_lines(Seq::<Seq<char>>::empty()) == Seq::<Seq<char>>::empty());
    assert(seq![line].last() == line);
    assert(keep_lines(seq![line]) =~= seq![line]);
}

} // verus!

//! Directives: parsing one logical line, and building the directive sequence
//! of a file's text (line continuation and comment stripping).
use vstd::prelude::*;
use crate::error::ResolveError;
use crate::text::{chars_of, split_exec, split_seq, remove_all, remove_all_exec, slice_of, string_of, trim, trim_chars, views};

verus! {

/// A directive as contracts speak of it.
pub struct DirectiveView {
    pub name: Seq<char>,
    pub options: Seq<Seq<char>>,
    pub argument: Seq<char>,
}

pub open spec fn is_upper(c: char) -> bool {
    'A' as u32 <= c as u32 <= 'Z' as u32
}

pub open spec fn is_lower_or_digit(c: char) -> bool {
    ('a' as u32 <= c as u32 <= 'z' as u32) || ('0' as u32 <= c as u32 <= '9' as u32)
}

pub open spec fn is_lower_or_dash(c: char) -> bool {
    ('a' as u32 <= c as u32 <= 'z' as u32) || c == '-'
}

/// Length of the leading run of upper-case letters.
pub open spec fn upper_run(s: Seq<char>) -> nat
    decreases s.len(),
{
    if s.len() > 0 && is_upper(s[0]) {
        1 + upper_run(s.skip(1))
    } else {
        0
    }
}

/// The first position at or after `i` that holds a space, or the length.
pub open spec fn space_at_or_after(r: Seq<char>, i: int) -> int
    decreases r.len() - i,
{
    if i < 0 || i >= r.len() || r[i] == ' ' {
        if i < 0 { 0 } else { i }
    } else {
        space_at_or_after(r, i + 1)
    }
}

/// The end of the run of `[a-z-]` characters that starts at `i`.
pub open spec fn flag_name_end(r: Seq<char>, i: int) -> int
    decreases r.len() - i,
{
    if 0 <= i < r.len() && is_lower_or_dash(r[i]) {
        flag_name_end(r, i + 1)
    } else {
        i
    }
}

/// Where the flag that starts at `i` ends, if a flag starts there: `-x` with
/// `x` a lower-case letter or digit; `--name` with `name` over `[a-z-]`,
/// then the rest of its word, or, where `--name` stands alone as a word, the
/// following word as its value.
pub open spec fn flag_end(r: Seq<char>, i: int) -> Option<int> {
    if 0 <= i && i + 1 < r.len() && r[i] == '-' && is_lower_or_digit(r[i + 1]) {
        Some(i + 2)
    } else if 0 <= i && i + 2 < r.len() && r[i] == '-' && r[i + 1] == '-' && is_lower_or_dash(r[i + 2]) {
        let e = flag_name_end(r, i + 2);
        let t = space_at_or_after(r, i);
        if t == e && r.len() - e > 1 && r[e] == ' ' && r[e + 1] != ' ' {
            Some(space_at_or_after(r, e + 1))
        } else {
            Some(t)
        }
    } else {
        None
    }
}

/// The flags of the option run that starts at `i`: flags separated by
/// spaces, up to the first word that is not a flag.
pub open spec fn option_run(r: Seq<char>, i: int) -> Seq<Seq<char>>
    decreases r.len() - i,
{
    if i < 0 || i >= r.len() {
        Seq::empty()
    } else if r[i] == ' ' {
        option_run(r, i + 1)
    } else {
        match flag_end(r, i) {
            Some(e) => if i < e <= r.len() {
                seq![r.subrange(i, e)] + option_run(r, e)
            } else {
                Seq::empty()
            },
            None => Seq::empty(),
        }
    }
}

/// `s` with every occurrence of each of `opts[i..]` removed, one after another.
pub open spec fn strip_all(s: Seq<char>, opts: Seq<Seq<char>>, i: int) -> Seq<char>
    decreases opts.len() - i,
{
    if i < 0 || i >= opts.len() {
        s
    } else {
        strip_all(remove_all(s, opts[i]), opts, i + 1)
    }
}

/// The directive that one logical line stands for, or `None` where the line
/// does not start with an upper-case name. The option run must be separated
/// from the name by a space; the argument is what remains once the name and
/// every occurrence of each option's text are taken out, trimmed.
pub open spec fn parse_line(l: Seq<char>) -> Option<DirectiveView> {
    let n = upper_run(l) as int;
    if n == 0 {
        None
    } else {
        let rest = l.skip(n);
        let opts = if rest.len() > 0 && rest[0] == ' ' {
            option_run(rest, 0)
        } else {
            Seq::empty()
        };
        Some(DirectiveView { name: l.take(n), options: opts, argument: trim(strip_all(rest, opts, 0)) })
    }
}

/// The options joined with single spaces.
pub open spec fn join_spaced(s: Seq<Seq<char>>) -> Seq<char>
    decreases s.len(),
{
    if s.len() == 0 {
        Seq::empty()
    } else if s.len() == 1 {
        s[0]
    } else {
        join_spaced(s.drop_last()) + seq![' '] + s.last()
    }
}

/// The text line of a directive: the name, then the options, then the argument.
pub open spec fn format_directive(d: DirectiveView) -> Seq<char> {
    if d.options.len() == 0 {
        d.name + seq![' '] + d.argument
    } else {
        d.name + seq![' '] + join_spaced(d.options) + seq![' '] + d.argument
    }
}

pub open spec fn string_views(v: Seq<String>) -> Seq<Seq<char>> {
    v.map_values(|s: String| s@)
}

/// One parsed directive line.
#[derive(Clone)]
pub struct Command {
    pub command: String,
    pub options: Vec<String>,
    pub line: String,
}

impl View for Command {
    type V = DirectiveView;

    open spec fn view(&self) -> DirectiveView {
        DirectiveView { name: self.command@, options: string_views(self.options@), argument: self.line@ }
    }
}

pub open spec fn directive_views(v: Seq<Command>) -> Seq<DirectiveView> {
    v.map_values(|c: Command| c@)
}

fn upper_run_exec(v: &[char]) -> (r: usize)
    ensures
        r == upper_run(v@),
        r <= v.len(),
{
    let mut i: usize = 0;
    assert(v@.skip(0) =~= v@);
    while i < v.len() && 'A' as u32 <= v[i] as u32 && v[i] as u32 <= 'Z' as u32
        invariant
            i <= v.len(),
            upper_run(v@) == i + upper_run(v@.skip(i as int)),
        decreases v.len() - i,
    {
        assert(v@.skip(i as int).skip(1) =~= v@.skip(i + 1));
        i = i + 1;
    }
    i
}

pub fn space_at_or_after_exec(r: &[char], i: usize) -> (e: usize)
    requires
        i <= r.len(),
    ensures
        e == space_at_or_after(r@, i as int),
        i <= e <= r.len(),
{
    let mut j = i;
    while j < r.len() && r[j] != ' '
        invariant
            i <= j <= r.len(),
            space_at_or_after(r@, i as int) == space_at_or_after(r@, j as int),
        decreases r.len() - j,
    {
        j = j + 1;
    }
    j
}

fn flag_name_end_exec(r: &[char], i: usize) -> (e: usize)
    requires
        i <= r.len(),
    ensures
        e == flag_name_end(r@, i as int),
        i <= e <= r.len(),
{
    let mut j = i;
    while j < r.len() && (('a' as u32 <= r[j] as u32 && r[j] as u32 <= 'z' as u32) || r[j] == '-')
        invariant
            i <= j <= r.len(),
            flag_name_end(r@, i as int) == flag_name_end(r@, j as int),
        decreases r.len() - j,
    {
        j = j + 1;
    }
    j
}

fn flag_end_exec(r: &[char], i: usize) -> (e: Option<usize>)
    requires
        i < r.len(),
    ensures
        e matches Some(x) ==> flag_end(r@, i as int) == Some(x as int),
        e is None ==> flag_end(r@, i as int) is None,
{
    let lod = |c: char| -> (b: bool)
        ensures
            b == is_lower_or_digit(c),
        { ('a' as u32 <= c as u32 && c as u32 <= 'z' as u32) || ('0' as u32 <= c as u32 && c as u32 <= '9' as u32) };
    if r.len() - i > 1 && r[i] == '-' && lod(r[i + 1]) {
        Some(i + 2)
    } else if r.len() - i > 2 && r[i] == '-' && r[i + 1] == '-' && (('a' as u32 <= r[i + 2] as u32
        && r[i + 2] as u32 <= 'z' as u32) || r[i + 2] == '-') {
        let e = flag_name_end_exec(r, i + 2);
        let t = space_at_or_after_exec(r, i);
        if t == e && r.len() - e > 1 && r[e] == ' ' && r[e + 1] != ' ' {
            Some(space_at_or_after_exec(r, e + 1))
        } else {
            Some(t)
        }
    } else {
        None
    }
}

fn option_run_exec(r: &[char]) -> (opts: Vec<Vec<char>>)
    ensures
        views(opts@) == option_run(r@, 0),
{
    let mut opts: Vec<Vec<char>> = Vec::new();
    let mut i: usize = 0;
    while i < r.len()
        invariant
            i <= r.len(),
            option_run(r@, 0) == views(opts@) + option_run(r@, i as int),
        decreases r.len() - i,
    {
        if r[i] == ' ' {
            i = i + 1;
        } else {
            match flag_end_exec(r, i) {
                Some(e) => {
                    if i < e && e <= r.len() {
                        let tok = slice_of(r, i, e);
                        let ghost old_opts = views(opts@);
                        opts.push(tok);
                        assert(views(opts@) =~= old_opts.push(tok@));
                        assert(option_run(r@, 0) =~= views(opts@) + option_run(r@, e as int));
                        i = e;
                    } else {
                        return opts;
                    }
                },
                None => {
                    assert(views(opts@) + option_run(r@, i as int) =~= views(opts@));
                    return opts;
                },
            }
        }
    }
    assert(views(opts@) + option_run(r@, i as int) =~= views(opts@));
    opts
}

impl Command {
    /// A copy of this directive.
    pub fn copied(&self) -> (r: Command)
        ensures
            r@ == self@,
    {
        let mut options: Vec<String> = Vec::new();
        let mut i: usize = 0;
        while i < self.options.len()
            invariant
                i <= self.options.len(),
                string_views(options@) == string_views(self.options@).take(i as int),
            decreases self.options.len() - i,
        {
            let ghost before = string_views(options@);
            let o = self.options[i].clone();
            options.push(o);
            assert(string_views(options@) =~= before.push(o@));
            i = i + 1;
            assert(string_views(options@) =~= string_views(self.options@).take(i as int));
        }
        assert(string_views(self.options@).take(self.options.len() as int) =~= string_views(self.options@));
        Command { command: self.command.clone(), options, line: self.line.clone() }
    }

    pub fn new(command: String, options: Vec<String>, line: String) -> (r: Command)
        ensures
            r.command == command,
            r.options == options,
            r.line == line,
    {
        Command { command, options, line }
    }

    /// Parses one logical line; fails where the line does not start with an
    /// upper-case directive name.
    pub fn from_line(line: &str) -> (r: Result<Command, ResolveError>)
        ensures
            parse_line(line@) matches Some(d) ==> (r matches Ok(c) && c@ == d),
            parse_line(line@) is None ==> (r matches Err(e) && e@ == crate::error::Fault::MalformedDirective(line@)),
    {
        let l = chars_of(line);
        let n = upper_run_exec(l.as_slice());
        if n == 0 {
            return Err(ResolveError::MalformedDirective { line: line.to_owned() });
        }
        let rest = slice_of(l.as_slice(), n, l.len());
        assert(rest@ =~= l@.skip(n as int));
        let opts = if rest.len() > 0 && rest[0] == ' ' {
            option_run_exec(rest.as_slice())
        } else {
            Vec::new()
        };
        let mut cut = rest;
        let mut options: Vec<String> = Vec::new();
        let mut k: usize = 0;
        while k < opts.len()
            invariant
                k <= opts.len(),
                strip_all(l@.skip(n as int), views(opts@), 0) == strip_all(cut@, views(opts@), k as int),
                string_views(options@) == views(opts@).take(k as int),
            decreases opts.len() - k,
        {
            cut = remove_all_exec(cut.as_slice(), opts[k].as_slice());
            let o = string_of(opts[k].as_slice());
            assert(o@ == views(opts@)[k as int]);
            let ghost before = string_views(options@);
            options.push(o);
            assert(string_views(options@) =~= before.push(o@));
            k = k + 1;
            assert(string_views(options@) =~= views(opts@).take(k as int));
        }
        assert(string_views(options@) =~= views(opts@));
        let name = slice_of(l.as_slice(), 0, n);
        let arg = trim_chars(cut.as_slice());
        let c = Command { command: string_of(name.as_slice()), options, line: string_of(arg.as_slice()) };
        assert(name@ =~= l@.take(n as int));
        proof {
            if !(l@.skip(n as int).len() > 0 && l@.skip(n as int)[0] == ' ') {
                assert(views(opts@) =~= Seq::<Seq<char>>::empty());
            }
        }
        Ok(c)
    }

    /// The directive as one line of text: name, options, argument.
    pub fn format(&self) -> (r: String)
        ensures
            r@ == format_directive(self@),
    {
        let mut out = chars_of(self.command.as_str());
        out.push(' ');
        if self.options.len() > 0 {
            let mut k: usize = 0;
            while k < self.options.len()
                invariant
                    1 <= self.options.len(),
                    k <= self.options.len(),
                    k == 0 ==> out@ == self.command@ + seq![' '],
                    k > 0 ==> out@ == self.command@ + seq![' '] + join_spaced(string_views(self.options@).take(k as int)),
                decreases self.options.len() - k,
            {
                let ghost before = out@;
                if k > 0 {
                    out.push(' ');
                }
                let mut o = chars_of(self.options[k].as_str());
                out.append(&mut o);
                k = k + 1;
                proof {
                    let sv = string_views(self.options@);
                    assert(sv.take(k as int).drop_last() =~= sv.take(k - 1));
                    if k == 1 {
                        assert(sv.take(1) =~= seq![sv[0]]);
                    }
                    assert(out@ =~= self.command@ + seq![' '] + join_spaced(sv.take(k as int)));
                }
            }
            out.push(' ');
            assert(string_views(self.options@).take(self.options.len() as int) =~= string_views(self.options@));
        }
        let mut a = chars_of(self.line.as_str());
        out.append(&mut a);
        let r = string_of(out.as_slice());
        assert(r@ =~= format_directive(self@));
        r
    }
}


/// One physical line with its backslashes removed, trimmed.
pub open spec fn piece(raw: Seq<char>) -> Seq<char> {
    trim(remove_all(raw, seq!['\\']))
}

/// Whether a physical line ends, once trimmed, in a backslash.
pub open spec fn continues(raw: Seq<char>) -> bool {
    trim(raw).len() > 0 && trim(raw).last() == '\\'
}

/// The logical lines that the physical lines form: a line whose trimmed text
/// ends in a backslash takes the next line onto it, joined by one space.
/// Also says whether the last line asks for continuation.
pub open spec fn join_logical(segs: Seq<Seq<char>>) -> (Seq<Seq<char>>, bool)
    decreases segs.len(),
{
    if segs.len() == 0 {
        (Seq::empty(), false)
    } else {
        let (ls, cont) = join_logical(segs.drop_last());
        let p = piece(segs.last());
        let joined = if cont && ls.len() > 0 {
            ls.drop_last().push(trim(ls.last()) + seq![' '] + p)
        } else {
            ls.push(p)
        };
        (joined, continues(segs.last()))
    }
}

/// A line that is blank, or a comment (`#` or `//` once trimmed).
pub open spec fn is_dropped(l: Seq<char>) -> bool {
    let t = trim(l);
    t.len() == 0 || t[0] == '#' || (t.len() >= 2 && t[0] == '/' && t[1] == '/')
}

/// The lines that are not dropped, in order.
pub open spec fn keep_lines(ls: Seq<Seq<char>>) -> Seq<Seq<char>>
    decreases ls.len(),
{
    if ls.len() == 0 {
        Seq::empty()
    } else if is_dropped(ls.last()) {
        keep_lines(ls.drop_last())
    } else {
        keep_lines(ls.drop_last()).push(ls.last())
    }
}

/// The logical, non-comment, non-blank lines of a file's text.
pub open spec fn logical_lines(text: Seq<char>) -> Seq<Seq<char>> {
    keep_lines(join_logical(split_seq(text, '\n')).0)
}

/// The directives of `ls[i..]`, or the first line that does not parse.
pub open spec fn parse_lines(ls: Seq<Seq<char>>, i: int) -> Result<Seq<DirectiveView>, Seq<char>>
    decreases ls.len() - i,
{
    if i < 0 || i >= ls.len() {
        Ok(Seq::empty())
    } else {
        match parse_line(ls[i]) {
            None => Err(ls[i]),
            Some(d) => match parse_lines(ls, i + 1) {
                Ok(r) => Ok(seq![d] + r),
                Err(e) => Err(e),
            },
        }
    }
}

/// The directive sequence of a file's text, or the first malformed line.
pub open spec fn file_directives(text: Seq<char>) -> Result<Seq<DirectiveView>, Seq<char>> {
    parse_lines(logical_lines(text), 0)
}

/// The text of a directive sequence: one formatted directive per line.
pub open spec fn format_all(ds: Seq<DirectiveView>) -> Seq<char>
    decreases ds.len(),
{
    if ds.len() == 0 {
        Seq::empty()
    } else {
        format_all(ds.drop_last()) + format_directive(ds.last()) + seq!['\n']
    }
}

pub proof fn lemma_keep_lines_kept(ls: Seq<Seq<char>>)
    ensures
        forall|i: int| 0 <= i < keep_lines(ls).len() ==> !is_dropped(#[trigger] keep_lines(ls)[i]),
    decreases ls.len(),
{
    if ls.len() > 0 {
        let p = ls.drop_last();
        lemma_keep_lines_kept(p);
        assert forall|i: int| 0 <= i < keep_lines(ls).len() implies !is_dropped(#[trigger] keep_lines(ls)[i]) by {
            if i < keep_lines(p).len() {
                assert(keep_lines(ls)[i] == keep_lines(p)[i]);
            }
        }
    }
}

fn is_dropped_exec(l: &[char]) -> (r: bool)
    ensures
        r == is_dropped(l@),
{
    let t = trim_chars(l);
    t.len() == 0 || t[0] == '#' || (t.len() >= 2 && t[0] == '/' && t[1] == '/')
}

fn trimmed_ends_in_backslash(l: &[char]) -> (r: bool)
    ensures
        r == continues(l@),
{
    let t = trim_chars(l);
    t.len() > 0 && t[t.len() - 1] == '\\'
}

/// A list of directives, in source order.
pub struct CommandCollection {
    pub commands: Vec<Command>,
}

impl View for CommandCollection {
    type V = Seq<DirectiveView>;

    open spec fn view(&self) -> Seq<DirectiveView> {
        directive_views(self.commands@)
    }
}

impl CommandCollection {
    pub fn new() -> (r: CommandCollection)
        ensures
            r@ == Seq::<DirectiveView>::empty(),
    {
        CommandCollection { commands: Vec::new() }
    }

    pub fn from_vec(commands: Vec<Command>) -> (r: CommandCollection)
        ensures
            r.commands == commands,
    {
        CommandCollection { commands }
    }

    /// The collection with `command` appended.
    pub fn add(self, command: Command) -> (r: CommandCollection)
        ensures
            r@ == self@.push(command@),
    {
        let mut commands = self.commands;
        commands.push(command);
        let r = CommandCollection { commands };
        assert(r@ =~= self@.push(command@));
        r
    }

    /// Parses a file's text into its directives: continued lines are
    /// joined, blank and comment lines dropped, each line parsed.
    pub fn from_file(dockerfile_content: &str) -> (r: Result<CommandCollection, ResolveError>)
        ensures
            file_directives(dockerfile_content@) matches Ok(ds) ==> (r matches Ok(c) && c@ == ds),
            file_directives(dockerfile_content@) matches Err(l) ==> (r matches Err(e) && e@
                == crate::error::Fault::MalformedDirective(l)),
    {
        let lines = CommandCollection::cleanup_file(dockerfile_content);
        let ghost ls = logical_lines(dockerfile_content@);
        let mut out: Vec<Command> = Vec::new();
        let mut i: usize = 0;
        while i < lines.len()
            invariant
                i <= lines.len(),
                string_views(lines@) == ls,
                ls == logical_lines(dockerfile_content@),
                parse_lines(ls, 0) == (match parse_lines(ls, i as int) {
                    Ok(rest) => Ok(directive_views(out@) + rest),
                    Err(e) => Err(e),
                }),
            decreases lines.len() - i,
        {
            assert(lines@[i as int]@ == ls[i as int]);
            match Command::from_line(lines[i].as_str()) {
                Ok(c) => {
                    let ghost before = directive_views(out@);
                    out.push(c);
                    assert(directive_views(out@) =~= before.push(c@));
                    proof {
                        match parse_lines(ls, i + 1) {
                            Ok(rest) => {
                                assert(before + (seq![c@] + rest) =~= directive_views(out@) + rest);
                            },
                            Err(_) => {},
                        }
                    }
                    i = i + 1;
                },
                Err(e) => {
                    assert(parse_line(ls[i as int]) is None);
                    assert(parse_lines(ls, i as int) == Err::<Seq<DirectiveView>, Seq<char>>(ls[i as int]));
                    assert(parse_lines(ls, 0) == Err::<Seq<DirectiveView>, Seq<char>>(ls[i as int]));
                    assert(file_directives(dockerfile_content@) == Err::<Seq<DirectiveView>, Seq<char>>(ls[i as int]));
                    return Err(e);
                },
            }
        }
        assert(directive_views(out@) + Seq::<DirectiveView>::empty() =~= directive_views(out@));
        Ok(CommandCollection { commands: out })
    }

    /// The directives as text, one per line, each line ended by a newline.
    pub fn format(&self) -> (r: String)
        ensures
            r@ == format_all(self@),
    {
        let mut out: Vec<char> = Vec::new();
        let mut i: usize = 0;
        while i < self.commands.len()
            invariant
                i <= self.commands.len(),
                out@ == format_all(self@.take(i as int)),
            decreases self.commands.len() - i,
        {
            let f = self.commands[i].format();
            let mut fc = chars_of(f.as_str());
            out.append(&mut fc);
            out.push('\n');
            i = i + 1;
            assert(self@.take(i as int).drop_last() =~= self@.take(i - 1));
            assert(out@ =~= format_all(self@.take(i as int)));
        }
        assert(self@.take(i as int) =~= self@);
        string_of(out.as_slice())
    }

    /// The logical lines of a file's text: continued lines joined, blank and
    /// comment lines dropped.
    pub fn cleanup_file(dockerfile_content: &str) -> (r: Vec<String>)
        ensures
            string_views(r@) == logical_lines(dockerfile_content@),
            forall|i: int| 0 <= i < r.len() ==> !is_dropped(#[trigger] r@[i]@),
    {
        let text = chars_of(dockerfile_content);
        let segs = split_exec(text.as_slice(), '\n');
        let ghost sv = split_seq(text@, '\n');
        let mut joined: Vec<Vec<char>> = Vec::new();
        let mut cont = false;
        let mut i: usize = 0;
        while i < segs.len()
            invariant
                i <= segs.len(),
                views(segs@) == sv,
                join_logical(sv.take(i as int)) == (views(joined@), cont),
            decreases segs.len() - i,
        {
            let seg = segs[i].as_slice();
            assert(seg@ == sv[i as int]);
            assert(sv.take(i + 1).drop_last() =~= sv.take(i as int));
            let stripped = remove_all_exec(seg, &['\\']);
            proof {
                assert(seq!['\\'] =~= [ '\\' ]@);
            }
            let p = trim_chars(stripped.as_slice());
            let ghost before = views(joined@);
            if cont && joined.len() > 0 {
                let last = joined.pop().unwrap();
                assert(views(joined@) =~= before.drop_last());
                assert(last@ == before.last());
                let mut line = trim_chars(last.as_slice());
                line.push(' ');
                let ghost pv = p@;
                let mut pc = p;
                line.append(&mut pc);
                assert(line@ =~= trim(before.last()) + seq![' '] + pv);
                let ghost lv = line@;
                let ghost mid = views(joined@);
                joined.push(line);
                assert(views(joined@) =~= mid.push(lv));
                assert(views(joined@) =~= before.drop_last().push(trim(before.last()) + seq![' '] + pv));
            } else {
                joined.push(p);
                assert(views(joined@) =~= before.push(p@));
            }
            cont = trimmed_ends_in_backslash(seg);
            i = i + 1;
        }
        assert(sv.take(segs.len() as int) =~= sv);
        let ghost js = views(joined@);
        let mut kept: Vec<String> = Vec::new();
        let mut k: usize = 0;
        while k < joined.len()
            invariant
                k <= joined.len(),
                js == views(joined@),
                string_views(kept@) == keep_lines(js.take(k as int)),
            decreases joined.len() - k,
        {
            assert(js.take(k + 1).drop_last() =~= js.take(k as int));
            assert(joined@[k as int]@ == js[k as int]);
            if !is_dropped_exec(joined[k].as_slice()) {
                let ghost before = string_views(kept@);
                let l = string_of(joined[k].as_slice());
                kept.push(l);
                assert(string_views(kept@) =~= before.push(js[k as int]));
            }
            k = k + 1;
        }
        assert(js.take(joined.len() as int) =~= js);
        proof {
            lemma_keep_lines_kept(js);
            assert forall|i: int| 0 <= i < kept.len() implies !is_dropped(#[trigger] kept@[i]@) by {
                assert(kept@[i]@ == string_views(kept@)[i]);
            }
        }
        kept
    }
}

} // verus!

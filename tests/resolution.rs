use dockerfile_preprocessor::command::{Command, CommandCollection};
use dockerfile_preprocessor::error::ResolveError;
use dockerfile_preprocessor::preprocessor::{Preprocessor, SourceSet};
use dockerfile_preprocessor::substitute::{handle_capture, replace_variables};
use dockerfile_preprocessor::variables::VariableCollection;

fn sources(files: &[(&str, &str)], paths: &[(&str, &str)]) -> SourceSet {
    let mut s = SourceSet::new();
    for (path, text) in files {
        s = s.add(path, text).add_path(path, path);
    }
    for (path, canonical) in paths {
        s = if canonical.is_empty() { s.add_missing(path) } else { s.add_path(path, canonical) };
    }
    s
}

fn run_with(file: &str, vars: VariableCollection, files: &[(&str, &str)], paths: &[(&str, &str)]) -> Result<String, ResolveError> {
    Preprocessor::process_file(file, vars, "/w", &sources(files, paths)).map(|c| c.format())
}

fn run(file: &str, vars: VariableCollection, files: &[(&str, &str)]) -> Result<String, ResolveError> {
    run_with(file, vars, files, &[])
}

#[test]
fn parses_name_options_and_argument() {
    let c = Command::from_line("RUN -a --b=c rest of text").unwrap();
    assert_eq!(c.command, "RUN");
    assert_eq!(c.options, vec!["-a".to_string(), "--b=c".to_string()]);
    assert_eq!(c.line, "rest of text");
    let c = Command::from_line("COPY -a --b=c rest of text").unwrap();
    assert_eq!(c.command, "COPY");
    assert_eq!(c.options, vec!["-a".to_string(), "--b=c".to_string()]);
    assert_eq!(c.line, "rest of text");
}

#[test]
fn long_flag_takes_following_word_as_value() {
    let c = Command::from_line("COPY --from builder /src /dst").unwrap();
    assert_eq!(c.options, vec!["--from builder".to_string()]);
    assert_eq!(c.line, "/src /dst");
}

#[test]
fn option_text_is_stripped_everywhere() {
    let c = Command::from_line("RUN -a echo -a").unwrap();
    assert_eq!(c.options, vec!["-a".to_string()]);
    assert_eq!(c.line, "echo");
}

#[test]
fn lowercase_line_is_malformed() {
    assert!(matches!(
        Command::from_line("run echo"),
        Err(ResolveError::MalformedDirective { ref line }) if line == "run echo"
    ));
}

#[test]
fn line_continuation_joins_lines() {
    let a = CommandCollection::from_file("RUN foo \\\nbar").unwrap();
    let b = CommandCollection::from_file("RUN foo bar").unwrap();
    assert_eq!(a.format(), b.format());
    assert_eq!(a.format(), "RUN foo bar\n");
}

#[test]
fn comments_and_blank_lines_are_dropped() {
    let lines = CommandCollection::cleanup_file("# c\nFROM a\n\n  // d\nRUN b\n   \n");
    assert_eq!(lines, vec!["FROM a".to_string(), "RUN b".to_string()]);
    let c = CommandCollection::from_file("# c\nFROM a\n// d\n").unwrap();
    assert_eq!(c.format(), "FROM a\n");
}

#[test]
fn format_puts_options_between_name_and_argument() {
    let c = Command::from_line("RUN --mount=type=cache make").unwrap();
    assert_eq!(c.format(), "RUN --mount=type=cache make");
    let c = Command::from_line("FROM alpine").unwrap();
    assert_eq!(c.format(), "FROM alpine");
}

#[test]
fn variables_set_has_get_keys() {
    let v = VariableCollection::new().set("a", "1").set("b", "2").set("a", "3");
    assert!(v.has("a"));
    assert!(!v.has("c"));
    assert_eq!(v.get("a"), "3");
    assert_eq!(v.get("c"), "");
    let mut k = v.keys();
    k.sort();
    assert_eq!(k, vec!["a", "b"]);
}

#[test]
fn substitution_round_trip() {
    let v = VariableCollection::new().set("name", "v");
    assert_eq!(replace_variables("{{ name }}", &v).unwrap(), "v");
    assert_eq!(replace_variables("x{{name}}y {{  name  }}", &v).unwrap(), "xvy v");
    assert_eq!(handle_capture("name", &v).unwrap(), "v");
    assert!(matches!(
        replace_variables("{{ missing }}", &v),
        Err(ResolveError::MissingVariable { ref name, ref available }) if name == "missing" && available == &vec!["name".to_string()]
    ));
    let two = VariableCollection::new().set("a", "1").set("b", "2");
    match handle_capture("c", &two) {
        Err(ResolveError::MissingVariable { name, mut available }) => {
            available.sort();
            assert_eq!(name, "c");
            assert_eq!(available, vec!["a".to_string(), "b".to_string()]);
        }
        _ => panic!("expected a missing variable"),
    }
}

#[test]
fn substitution_is_not_recursive() {
    let v = VariableCollection::new().set("a", "{{ b }}");
    assert_eq!(replace_variables("{{ a }}", &v).unwrap(), "{{ b }}");
}

const BASE: &str = "FROM a\nBLOCK x\nRUN parent\nENDBLOCK\nRUN end\n";

#[test]
fn block_override_without_parent_replaces() {
    let out = run(
        "/w/child.file",
        VariableCollection::new(),
        &[("/w/base.file", BASE), ("/w/child.file", "EXTEND base.file\nBLOCK x\nRUN child\nENDBLOCK\n")],
    )
    .unwrap();
    assert_eq!(out, "FROM a\nRUN child\nRUN end\n");
}

#[test]
fn block_override_with_parent_splices() {
    let out = run(
        "/w/child.file",
        VariableCollection::new(),
        &[("/w/base.file", BASE), ("/w/child.file", "EXTEND base.file\nBLOCK x\nRUN c1\nPARENT\nRUN c2\nENDBLOCK\n")],
    )
    .unwrap();
    assert_eq!(out, "FROM a\nRUN c1\nRUN parent\nRUN c2\nRUN end\n");
}

#[test]
fn base_without_child_keeps_its_blocks() {
    let out = run("/w/base.file", VariableCollection::new(), &[("/w/base.file", BASE)]).unwrap();
    assert_eq!(out, "FROM a\nRUN parent\nRUN end\n");
}

#[test]
fn three_level_chain_passes_blocks_down() {
    let out = run(
        "/w/c.file",
        VariableCollection::new(),
        &[
            ("/w/base.file", BASE),
            ("/w/mid.file", "EXTEND base.file\nBLOCK x\nRUN mid\nPARENT\nENDBLOCK\n"),
            ("/w/c.file", "EXTEND mid.file\nBLOCK x\nPARENT\nRUN leaf\nENDBLOCK\n"),
        ],
    )
    .unwrap();
    assert_eq!(out, "FROM a\nRUN mid\nRUN parent\nRUN leaf\nRUN end\n");
}

#[test]
fn extend_ignores_what_follows() {
    let out = run(
        "/w/child.file",
        VariableCollection::new(),
        &[("/w/base.file", BASE), ("/w/child.file", "EXTEND base.file\nRUN after\n")],
    )
    .unwrap();
    assert_eq!(out, "FROM a\nRUN parent\nRUN end\n");
}

#[test]
fn include_with_adds_to_scope() {
    let vars = VariableCollection::new().set("other", "o");
    let out = run(
        "/w/main.file",
        vars,
        &[("/w/main.file", "INCLUDE inc.file WITH {\"k\": \"v\"}\n"), ("/w/inc.file", "RUN {{ k }} {{ other }}\n")],
    )
    .unwrap();
    assert_eq!(out, "RUN v o\n");
}

#[test]
fn include_with_only_isolates_scope() {
    let vars = VariableCollection::new().set("other", "o");
    let files = [("/w/main.file", "INCLUDE inc.file WITH {\"k\":\"v\"} ONLY\n"), ("/w/inc.file", "RUN {{ k }} {{ other }}\n")];
    assert!(matches!(run("/w/main.file", vars, &files), Err(ResolveError::MissingVariable { ref name, .. }) if name == "other"));
    let vars = VariableCollection::new().set("other", "o");
    let files = [("/w/main.file", "INCLUDE inc.file WITH {\"k\":\"v\"} ONLY\n"), ("/w/inc.file", "RUN {{ k }}\n")];
    assert_eq!(run("/w/main.file", vars, &files).unwrap(), "RUN v\n");
}

#[test]
fn include_without_clause_inherits_scope() {
    let vars = VariableCollection::new().set("k", "z");
    let files = [("/w/main.file", "FROM x\nINCLUDE sub/inc.file\n"), ("/w/sub/inc.file", "RUN {{ k }}\n")];
    assert_eq!(run("/w/main.file", vars, &files).unwrap(), "FROM x\nRUN z\n");
}

#[test]
fn copy_outside_root_is_refused() {
    let files = [("/w/main.file", "COPY ../../etc/passwd dest\n")];
    assert!(matches!(
        run_with("/w/main.file", VariableCollection::new(), &files, &[("/etc/passwd", "/etc/passwd")]),
        Err(ResolveError::PathOutsideSandbox { ref path }) if path == "/etc/passwd"
    ));
}

#[test]
fn copy_through_symlink_out_of_root_is_refused() {
    let files = [("/w/main.file", "COPY link/passwd dest\n")];
    assert!(matches!(
        run_with("/w/main.file", VariableCollection::new(), &files, &[("/w/link/passwd", "/etc/passwd")]),
        Err(ResolveError::PathOutsideSandbox { ref path }) if path == "/etc/passwd"
    ));
}

#[test]
fn copy_of_missing_source_fails() {
    let files = [("/w/main.file", "COPY gone.txt dest\n")];
    assert!(matches!(
        run_with("/w/main.file", VariableCollection::new(), &files, &[("/w/gone.txt", "")]),
        Err(ResolveError::UnresolvedTarget { ref path }) if path == "/w/gone.txt"
    ));
}

#[test]
fn copy_source_not_yet_looked_up_is_asked_for() {
    let files = [("/w/main.file", "COPY new.txt dest\n")];
    assert!(matches!(
        run("/w/main.file", VariableCollection::new(), &files),
        Err(ResolveError::UnknownPath { ref path }) if path == "/w/new.txt"
    ));
}

#[test]
fn include_through_symlink_uses_real_directory() {
    let files = [("/w/main.file", "INCLUDE l/inc.file\n"), ("/w/real/inc.file", "COPY f.txt /f\n")];
    let paths = [("/w/l/inc.file", "/w/real/inc.file"), ("/w/real/f.txt", "/w/real/f.txt")];
    assert_eq!(run_with("/w/main.file", VariableCollection::new(), &files, &paths).unwrap(), "COPY real/f.txt /f\n");
}

#[test]
fn copy_inside_root_is_rewritten() {
    let files = [("/w/main.file", "COPY ./sub/file dest\nADD --chown=a sub/../x {{ d }}\n")];
    let vars = VariableCollection::new().set("d", "/opt");
    let paths = [("/w/sub/file", "/w/sub/file"), ("/w/x", "/w/x")];
    assert_eq!(run_with("/w/main.file", vars, &files, &paths).unwrap(), "COPY sub/file dest\nADD --chown=a x /opt\n");
}

#[test]
fn copy_from_nested_directory_is_root_relative() {
    let files = [("/w/main.file", "INCLUDE d/inc.file\n"), ("/w/d/inc.file", "COPY f.txt /f\n")];
    assert_eq!(run_with("/w/main.file", VariableCollection::new(), &files, &[("/w/d/f.txt", "/w/d/f.txt")]).unwrap(), "COPY d/f.txt /f\n");
}

#[test]
fn missing_source_names_the_path() {
    let files = [("/w/main.file", "EXTEND other.file\n")];
    assert!(matches!(
        run_with("/w/main.file", VariableCollection::new(), &files, &[("/w/other.file", "/w/o/other.file")]),
        Err(ResolveError::MissingSource { ref path }) if path == "/w/o/other.file"
    ));
    assert!(matches!(
        run_with("/w/main.file", VariableCollection::new(), &files, &[("/w/other.file", "")]),
        Err(ResolveError::UnresolvedTarget { ref path }) if path == "/w/other.file"
    ));
}

#[test]
fn cyclic_extend_is_reported() {
    let files = [("/w/a.file", "EXTEND b.file\n"), ("/w/b.file", "EXTEND a.file\n")];
    assert!(matches!(
        run("/w/a.file", VariableCollection::new(), &files),
        Err(ResolveError::CyclicReference { .. })
    ));
}

#[test]
fn malformed_line_in_file_is_reported() {
    let files = [("/w/main.file", "FROM a\nrun b\n")];
    assert!(matches!(
        run("/w/main.file", VariableCollection::new(), &files),
        Err(ResolveError::MalformedDirective { ref line }) if line == "run b"
    ));
}

#[test]
fn handle_command_resolves_one_directive() {
    let p = Preprocessor::new("/w".to_string());
    let c = Command::from_line("COPY a/b {{ t }}").unwrap();
    let v = VariableCollection::new().set("t", "/dst");
    let out = p.handle_command(&sources(&[], &[("/w/x/a/b", "/w/x/a/b")]), 1, &c, "/w/x", &v).unwrap();
    assert_eq!(out.format(), "COPY x/a/b /dst\n");
}

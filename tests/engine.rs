use mkrs::{
    exit_if_failed, print_bullet, print_end_fence, print_fence, print_file_target, print_list_file_target,
    print_list_target, print_target, print_up_to_date, process_target, split_commands, BuildError, Config,
    FileStates, Resolved, Step,
};

fn config(doc: &str) -> Config {
    Config::from(&vec![doc.to_string()], "proj")
}

fn target_names(cfg: &Config) -> Vec<String> {
    (0..cfg.len()).map(|i| cfg.at(i).name.clone()).collect()
}

fn commands_of(cfg: &Config, name: &str) -> Vec<String> {
    let t = cfg.at(cfg.index_of(name).unwrap());
    t.run(0, false)
        .into_iter()
        .flatten()
        .map(|i| i.command)
        .collect()
}

fn files(entries: &[(&str, Option<u128>)]) -> FileStates {
    let mut fs = FileStates::new();
    for (p, t) in entries {
        fs.add(p.to_string(), *t);
    }
    fs
}

fn unknown(e: &BuildError) -> bool {
    matches!(e, BuildError::UnknownTarget(_))
}

#[test]
fn end_to_end_two_commands() {
    let cfg = config("# all\n\n```\necho one\necho two\n```\n");
    let fs = FileStates::new();
    let mut done = vec![];
    let order = cfg.schedule("all", false, &fs, &mut done).unwrap();
    assert_eq!(order, vec!["all".to_string()]);
    match process_target("all", &cfg, false, &fs).unwrap() {
        Step::Run(k) => {
            let cmds: Vec<String> = cfg.at(k).run(0, false).into_iter().flatten().map(|i| i.command).collect();
            assert_eq!(cmds, vec!["echo one".to_string(), "echo two".to_string()]);
        }
        other => panic!("unexpected {other:?}"),
    }
}

#[test]
fn parses_kinds_dependencies_and_recipes() {
    let doc = "# all\n\n* `out.txt`\n* clean\n\n# `out.txt`\n\n* `in.txt`\n\n```\ncp in.txt {target}\n```\n\n# clean\n\n```\nrm -f out.txt\n```\n";
    let cfg = config(doc);
    assert_eq!(target_names(&cfg), vec!["all", "out.txt", "clean", "in.txt"]);
    let all = cfg.at(0);
    assert!(!all.is_file);
    assert_eq!(all.dependencies, vec!["out.txt".to_string(), "clean".to_string()]);
    let out = cfg.at(1);
    assert!(out.is_file);
    assert_eq!(out.dependencies, vec!["in.txt".to_string()]);
    assert_eq!(commands_of(&cfg, "out.txt"), vec!["cp in.txt out.txt".to_string()]);
    let derived = cfg.at(3);
    assert!(derived.is_file && derived.dependencies.is_empty() && derived.recipes.is_empty());
}

#[test]
fn dependencies_run_first_in_declared_order() {
    let doc = "# all\n\n* a\n* b\n\n```\necho all\n```\n\n# a\n\n```\necho a\n```\n\n# b\n\n```\necho b\n```\n";
    let cfg = config(doc);
    let mut done = vec![];
    let order = cfg.schedule("all", false, &FileStates::new(), &mut done).unwrap();
    assert_eq!(order, vec!["a".to_string(), "b".to_string(), "all".to_string()]);
    assert_eq!(done, order);
}

#[test]
fn shared_dependency_runs_once() {
    let doc = "# all\n\n* a\n* b\n\n# a\n\n* c\n\n# b\n\n* c\n\n# c\n\n```\necho c\n```\n";
    let cfg = config(doc);
    let mut done = vec![];
    let order = cfg.schedule("all", false, &FileStates::new(), &mut done).unwrap();
    assert_eq!(order, vec!["c", "a", "b", "all"]);
    let again = cfg.schedule("b", false, &FileStates::new(), &mut done).unwrap();
    assert!(again.is_empty());
}

#[test]
fn schedule_is_repeatable() {
    let doc = "# all\n\n* x\n* y\n\n# x\n\n* y\n\n# y\n\n```\necho y\n```\n";
    let cfg = config(doc);
    let fs = FileStates::new();
    let first = cfg.schedule("all", false, &fs, &mut vec![]).unwrap();
    let second = cfg.schedule("all", false, &fs, &mut vec![]).unwrap();
    assert_eq!(first, second);
    assert_eq!(first, vec!["y", "x", "all"]);
}

#[test]
fn stale_when_dependency_newer() {
    let doc = "# `out`\n\n* `in`\n\n```\nbuild\n```\n";
    let cfg = config(doc);
    let out = cfg.at(0);
    let newer = files(&[("out", Some(100)), ("in", Some(200))]);
    assert!(out.outdated(100, &cfg, &newer));
    let older = files(&[("out", Some(300)), ("in", Some(200))]);
    assert!(!out.outdated(300, &cfg, &older));
    let equal = files(&[("out", Some(200)), ("in", Some(200))]);
    assert!(!out.outdated(200, &cfg, &equal));
}

#[test]
fn stale_through_transitive_dependency() {
    let doc = "# `out`\n\n* `mid`\n\n```\nbuild out\n```\n\n# `mid`\n\n* `in`\n\n```\nbuild mid\n```\n";
    let cfg = config(doc);
    let fs = files(&[("out", Some(100)), ("mid", Some(50)), ("in", Some(150))]);
    assert!(cfg.at(0).outdated(100, &cfg, &fs));
    let mut done = vec![];
    let order = cfg.schedule("out", false, &fs, &mut done).unwrap();
    assert_eq!(order, vec!["in", "mid", "out"]);
}

#[test]
fn phony_dependency_does_not_make_file_stale() {
    let doc = "# `out`\n\n* prep\n\n```\nbuild\n```\n\n# prep\n\n```\necho prep\n```\n";
    let cfg = config(doc);
    let fs = files(&[("out", Some(100))]);
    assert!(!cfg.at(0).outdated(100, &cfg, &fs));
}

#[test]
fn fresh_file_runs_nothing() {
    let doc = "# `out`\n\n* `in`\n\n```\nbuild\n```\n";
    let cfg = config(doc);
    let fs = files(&[("out", Some(300)), ("in", Some(200))]);
    let order = cfg.schedule("out", false, &fs, &mut vec![]).unwrap();
    assert_eq!(order, vec!["out"]);
    assert!(matches!(process_target("out", &cfg, false, &fs).unwrap(), Step::UpToDate));
    assert!(matches!(process_target("out", &cfg, true, &fs).unwrap(), Step::Run(0)));
}

#[test]
fn pattern_rule_derives_target() {
    let doc = "# `*.o`\n\n* `*.c`\n\n```\ncc -c {0} -o {target}\n```\n";
    let mut cfg = config(doc);
    let fs = files(&[("a.c", Some(10))]);
    assert_eq!(cfg.resolve("a.o", false, &fs).unwrap(), Resolved::Derived);
    let order = cfg.schedule("a.o", false, &fs, &mut vec![]).unwrap();
    assert_eq!(order, vec!["a.c", "a.o"]);
    assert!(matches!(process_target("a.c", &cfg, false, &fs).unwrap(), Step::Nothing));
    assert_eq!(commands_of(&cfg, "a.o"), vec!["cc -c a.c -o a.o".to_string()]);
}

#[test]
fn pattern_rule_fresh_target_needs_nothing() {
    let doc = "# `*.o`\n\n* `*.c`\n\n```\ncc -c {0} -o {target}\n```\n";
    let mut cfg = config(doc);
    let fs = files(&[("a.c", Some(10)), ("a.o", Some(20))]);
    assert_eq!(cfg.resolve("a.o", false, &fs).unwrap(), Resolved::Fresh);
    assert_eq!(cfg.resolve("a.o", true, &fs).unwrap(), Resolved::Derived);
}

#[test]
fn missing_file_dependency_stops_with_three() {
    let doc = "# all\n\n* `missing.txt`\n\n```\necho hi\n```\n";
    let cfg = config(doc);
    let fs = FileStates::new();
    let order = cfg.schedule("all", false, &fs, &mut vec![]).unwrap();
    assert_eq!(order, vec!["missing.txt", "all"]);
    let err = process_target("missing.txt", &cfg, false, &fs).unwrap_err();
    assert!(matches!(err, BuildError::MissingRequiredFile(ref n) if n == "missing.txt"));
    assert_eq!(err.exit_code(), 3);
}

#[test]
fn unknown_target_stops_with_five() {
    let mut cfg = config("# all\n\n```\necho hi\n```\n");
    let fs = FileStates::new();
    let err = cfg.resolve("nope", false, &fs).unwrap_err();
    assert!(unknown(&err));
    assert_eq!(err.exit_code(), 5);
    assert!(unknown(&cfg.schedule("nope", false, &fs, &mut vec![]).unwrap_err()));
}

#[test]
fn dry_run_never_fails() {
    assert_eq!(exit_if_failed(None, &vec![0], true), None);
    assert_eq!(exit_if_failed(Some(0), &vec![0], true), None);
    assert_eq!(exit_if_failed(None, &vec![0], false), Some(1));
}

#[test]
fn failing_command_stops_with_its_status() {
    assert_eq!(exit_if_failed(Some(2), &vec![0], false), Some(2));
    assert_eq!(exit_if_failed(Some(2), &vec![0, 2], false), None);
    assert_eq!(BuildError::RecipeFailure(7).exit_code(), 7);
    assert_eq!(BuildError::ConfigSourceMissing("x".to_string()).exit_code(), 1);
    assert_eq!(BuildError::ConfigSourceUnreadable("x".to_string()).exit_code(), 2);
}

#[test]
fn plain_block_joins_continuations_and_drops_comments() {
    let cmds = split_commands("make \\\nall\n\n# note\necho done\r\n");
    assert_eq!(cmds, vec!["make all".to_string(), "echo done".to_string()]);
}

#[test]
fn shell_block_is_one_script() {
    let cfg = config("# hello\n\n```python\nprint(1)\nprint(2)\n```\n");
    let t = cfg.at(0);
    assert_eq!(t.recipes[0].shell, Some("python".to_string()));
    let runs = t.run(0, false);
    assert_eq!(runs[0].len(), 1);
    assert_eq!(runs[0][0].command, "python");
    assert_eq!(runs[0][0].stdin, Some("print(1)\nprint(2)".to_string()));
}

#[test]
fn script_mode_runs_block_through_bash() {
    let cfg = config("# all\n\n```\necho one\necho two\n```\n");
    let runs = cfg.at(0).run(0, true);
    assert_eq!(runs[0][0].command, "bash -eo pipefail");
    assert_eq!(runs[0][0].stdin, Some("echo one\necho two".to_string()));
    assert_eq!(cfg.at(0).run(1, true)[0][0].command, "bash -xeo pipefail");
}

#[test]
fn substitutes_dirname_and_first_dependency() {
    let cfg = config("# `{dirname}.tar`\n\n* `src-{dirname}`\n\n```\ntar cf {target} {0} # {dirname}\n```\n");
    assert_eq!(cfg.at(0).name, "proj.tar");
    assert_eq!(cfg.at(0).dependencies, vec!["src-proj".to_string()]);
    assert_eq!(commands_of(&cfg, "proj.tar"), vec!["tar cf proj.tar src-proj # proj".to_string()]);
}

#[test]
fn later_document_overrides_earlier() {
    let docs = vec!["# a\n\n```\necho one\n```\n\n# b\n\n```\necho b\n```\n".to_string(), "# a\n\n```\necho two\n```\n".to_string()];
    let cfg = Config::from(&docs, "proj");
    assert_eq!(target_names(&cfg), vec!["a", "b"]);
    assert_eq!(commands_of(&cfg, "a"), vec!["echo two".to_string()]);
}

#[test]
fn unmatched_glob_dependency_kept_literally() {
    let cfg = config("# all\n\n* `no-such-file-*.zzz`\n");
    assert_eq!(cfg.at(0).dependencies, vec!["no-such-file-*.zzz".to_string()]);
}

#[test]
fn report_text() {
    assert_eq!(print_file_target("a.txt"), "# `a.txt`\n\n");
    assert_eq!(print_target("all"), "# all\n\n");
    assert_eq!(print_bullet(2), "        * ");
    assert_eq!(print_list_file_target("f", 1), ("    * ".to_string(), "`f`\n".to_string()));
    assert_eq!(print_list_target("all", 0), ("* ".to_string(), "all\n".to_string()));
    assert_eq!(print_up_to_date(), "*Up to date*\n");
    assert_eq!(print_fence(), "```");
    assert_eq!(print_end_fence(), "```\n\n");
}

#[test]
fn listing_skips_bare_files() {
    let cfg = config("# all\n\n* `in.txt`\n\n# `out`\n\n```\nbuild\n```\n");
    assert_eq!(cfg.list_targets(), vec![0, 1]);
    assert_eq!(cfg.print_list_file_targets("all", 0, 8), vec![(0, 0), (2, 1)]);
}

#[test]
fn glob_dependency_expands_to_matches() {
    let cfg = config("# all\n\n* `/proc/self/sta?`\n");
    assert_eq!(cfg.at(0).dependencies, vec!["/proc/self/stat".to_string()]);
}

#[test]
fn pattern_dependency_is_not_globbed() {
    let cfg = config("# `*.lock`\n\n* `/proc/self/sta?`\n");
    assert_eq!(cfg.at(0).dependencies, vec!["/proc/self/sta?".to_string()]);
    assert!(cfg.at(0).is_pattern);
}

#[test]
fn home_is_expanded_in_dependency() {
    let cfg = config("# all\n\n* `~/some-file`\n");
    let dep = &cfg.at(0).dependencies[0];
    assert!(dep.ends_with("some-file"));
}

#[test]
fn recipe_text_is_trimmed() {
    let cfg = config("# all\n\n```sh\n\n   echo hi   \n\n```\n");
    assert_eq!(cfg.at(0).recipes[0].commands, vec!["echo hi".to_string()]);
}

#[test]
fn plain_text_dependency_kept_verbatim() {
    let cfg = config("# all\n\n* ~/x*\n");
    assert_eq!(cfg.at(0).dependencies, vec!["~/x*".to_string()]);
}

#[test]
fn first_matching_pattern_wins() {
    let doc = "# `*.o`\n\n* `*.c`\n\n```\ncc {0}\n```\n\n# `*.o`\n\n* `*.s`\n\n```\nas {0}\n```\n";
    let mut cfg = config(doc);
    assert_eq!(cfg.resolve("x.o", false, &FileStates::new()).unwrap(), Resolved::Derived);
    assert_eq!(commands_of(&cfg, "x.o"), vec!["as x.s".to_string()]);
    let doc2 = "# `*.o`\n\n* `*.c`\n\n```\ncc {0}\n```\n\n# `*.[o]`\n\n* `*.s`\n\n```\nas {0}\n```\n";
    let mut cfg2 = config(doc2);
    assert_eq!(cfg2.resolve("y.o", false, &FileStates::new()).unwrap(), Resolved::Derived);
    assert_eq!(commands_of(&cfg2, "y.o"), vec!["cc y.c".to_string()]);
}

#[test]
fn file_states_last_observation_counts() {
    let mut fs = FileStates::new();
    fs.add("a".to_string(), Some(5));
    fs.add("a".to_string(), None);
    fs.add("b".to_string(), Some(9));
    assert_eq!(fs.modified("a"), None);
    assert!(!fs.is_present("a"));
    assert_eq!(fs.mtime("b"), 9);
    assert_eq!(fs.mtime("c"), 0);
    assert!(mkrs::outdated(&fs, "b", "a"));
    assert!(!mkrs::outdated(&fs, "a", "b"));
}

#[test]
fn cycle_is_scheduled_once() {
    let doc = "# a\n\n* b\n\n# b\n\n* a\n";
    let cfg = config(doc);
    let order = cfg.schedule("a", false, &FileStates::new(), &mut vec![]).unwrap();
    assert_eq!(order, vec!["b", "a"]);
}

#[test]
fn requests_checked_before_running() {
    let cfg = config("# all\n\n```\necho hi\n```\n\n# `*.o`\n\n* `*.c`\n\n```\ncc {0}\n```\n");
    assert_eq!(cfg.requested_targets(&vec![]).unwrap(), vec!["all".to_string()]);
    let ok = vec!["all".to_string(), "x.o".to_string()];
    assert_eq!(cfg.requested_targets(&ok).unwrap(), ok);
    let bad = vec!["all".to_string(), "nope".to_string(), "worse".to_string()];
    let err = cfg.requested_targets(&bad).unwrap_err();
    assert!(matches!(err, BuildError::UnknownTarget(ref n) if n == "nope"));
    assert_eq!(err.exit_code(), 5);
    let empty = Config::from(&vec![], "proj");
    assert!(unknown(&empty.requested_targets(&vec![]).unwrap_err()));
}

#[test]
fn derived_target_keeps_earlier_entries() {
    let doc = "# all\n\n```\necho hi\n```\n\n# `*.o`\n\n* `*.c`\n\n```\ncc {0}\n```\n";
    let mut cfg = config(doc);
    let before = target_names(&cfg);
    assert_eq!(cfg.resolve("m.o", false, &FileStates::new()).unwrap(), Resolved::Derived);
    let after = target_names(&cfg);
    assert_eq!(&after[..before.len()], &before[..]);
    assert_eq!(after[before.len()..].to_vec(), vec!["m.c".to_string(), "m.o".to_string()]);
}

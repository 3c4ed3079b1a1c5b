use dam::paths::{apply_rule_files, load_ancestor_rules};
use dam::rules::{
    any_rule_matches, conflict_outcome, config_with_preference, evaluate_and_push, load_rules,
    preference_answer, priority_for_run, resolve_config_priority, rule_source, ConflictOutcome,
    Rule, RuleSet, RuleSource,
};
use dam::scan::{
    check_single_file, dir_action, enter_dir, is_inside_dam, rule_file_display, rule_file_kind,
    scan_name_exec, skips_rule_scan, DirAction, RuleFileKind,
};

fn rule(p: &str, b: &str) -> Rule {
    Rule { pattern: p.to_string(), base_dir: b.to_string() }
}

fn rules(p: Vec<Rule>, i: Vec<Rule>) -> RuleSet {
    RuleSet { purities: p, impurities: i, dynamic_purities: true, dynamic_impurities: true }
}

#[test]
fn rule_matching_with_globs() {
    assert!(rule("*.txt", "").matches("a.txt"));
    assert!(rule("*.txt", "").matches("dir/a.txt"));
    assert!(!rule("*.txt", "").matches("a.rs"));
    assert!(rule("build/", "").matches("build/out/x.o"));
    assert!(!rule("build/", "").matches("src/build.rs"));
}

#[test]
fn rule_matching_under_base_dir() {
    assert!(rule("*.rs", "src/").matches("src/main.rs"));
    assert!(!rule("*.rs", "src/").matches("main.rs"));
    assert!(!rule("*.rs", "src/").matches("lib/main.rs"));
}

#[test]
fn bad_glob_matches_nothing() {
    assert!(!rule("[", "").matches("["));
    assert!(!any_rule_matches(&vec![rule("[", "")], "a"));
    assert!(any_rule_matches(&vec![rule("[", ""), rule("a", "")], "a"));
}

#[test]
fn loading_rule_files() {
    let mut v: Vec<Rule> = Vec::new();
    load_rules("# comment\n\n  *.log  \r\nsub\\dir/\n", "pkg/", &mut v);
    assert_eq!(v.len(), 2);
    assert_eq!(v[0].pattern, "*.log");
    assert_eq!(v[0].base_dir, "pkg/");
    assert_eq!(v[1].pattern, "sub/dir/");
}

#[test]
fn verdicts_of_scanned_paths() {
    let mut items: Vec<String> = Vec::new();
    let mut conflicts: Vec<String> = Vec::new();
    let only_block = rules(vec![], vec![rule("*.log", "")]);
    evaluate_and_push("a.txt", &mut items, &mut conflicts, &only_block);
    evaluate_and_push("a.log", &mut items, &mut conflicts, &only_block);
    assert_eq!(items, vec!["a.txt".to_string()]);
    assert!(conflicts.is_empty());

    let both = rules(vec![rule("*.txt", ""), rule("*.log", "")], vec![rule("*.log", "")]);
    let mut items2: Vec<String> = Vec::new();
    let mut conflicts2: Vec<String> = Vec::new();
    evaluate_and_push("a.txt", &mut items2, &mut conflicts2, &both);
    evaluate_and_push("a.log", &mut items2, &mut conflicts2, &both);
    evaluate_and_push("a.rs", &mut items2, &mut conflicts2, &both);
    assert_eq!(items2, vec!["a.txt".to_string()]);
    assert_eq!(conflicts2, vec!["a.log".to_string()]);
}

#[test]
fn config_priority_lines() {
    let (p, i, m) = resolve_config_priority("purities_overrides_impurities = true\n");
    assert!(p && !i);
    assert_eq!(m, "Reservoir Config: Purities automatically win");
    let (p, i, m) = resolve_config_priority("impurities_overrides_purities = true\n");
    assert!(!p && i);
    assert_eq!(m, "Reservoir Config: Impurities silently win (Files excluded)");
    let (p, i, m) = resolve_config_priority("");
    assert!(!p && !i);
    assert_eq!(m, "Unset (Will warn on conflict)");
}

#[test]
fn run_priority_from_flag_or_config() {
    let (p, i, m, unknown) = priority_for_run(Some("PURITIES"), "");
    assert!(p && !i && !unknown);
    assert_eq!(m, "CLI Override: Purities always win conflicts");
    let (p, i, m, unknown) = priority_for_run(Some("impurities"), "");
    assert!(!p && i && !unknown);
    assert_eq!(m, "CLI Override: Impurities always win conflicts");
    let (p, i, _, unknown) = priority_for_run(Some("both"), "impurities_overrides_purities = true");
    assert!(!p && i && unknown);
    let (p, i, _, unknown) = priority_for_run(None, "");
    assert!(!p && !i && !unknown);
}

#[test]
fn law_saved_preference_is_read_back() {
    let before = "[reservoir]\npurities_overrides_impurities = true\nname = \"x\"\n";
    let after = config_with_preference(before, false, true);
    assert_eq!(
        after,
        "[reservoir]\nname = \"x\"\npurities_overrides_impurities = false\nimpurities_overrides_purities = true\n"
    );
    let (p, i, _) = resolve_config_priority(&after);
    assert!(!p && i);
    let again = config_with_preference(&after, true, false);
    let (p, i, _) = resolve_config_priority(&again);
    assert!(p && !i);
}

#[test]
fn rule_sources_of_overrides() {
    assert!(matches!(rule_source(None), RuleSource::Dynamic));
    assert!(matches!(rule_source(Some("")), RuleSource::Bypassed));
    match rule_source(Some("rules.txt")) {
        RuleSource::Static(f) => assert_eq!(f, "rules.txt"),
        _ => panic!("expected a static source"),
    }
}

#[test]
fn conflict_outcomes() {
    assert!(matches!(conflict_outcome(true, false), ConflictOutcome::Include));
    assert!(matches!(conflict_outcome(true, true), ConflictOutcome::Include));
    assert!(matches!(conflict_outcome(false, true), ConflictOutcome::Exclude));
    assert!(matches!(conflict_outcome(false, false), ConflictOutcome::Ask));
    assert_eq!(preference_answer(" P\n"), Some((true, false)));
    assert_eq!(preference_answer("i"), Some((false, true)));
    assert_eq!(preference_answer("n"), None);
}

#[test]
fn scan_names() {
    assert_eq!((scan_name_exec("./src\\lib.rs")).iter().collect::<String>(), "src/lib.rs");
    assert_eq!((scan_name_exec(".")).iter().collect::<String>(), "");
    assert_eq!((scan_name_exec("a/b")).iter().collect::<String>(), "a/b");
}

#[test]
fn dam_directories() {
    assert!(is_inside_dam("./.dam/objects"));
    assert!(!is_inside_dam("./src/dam"));
    assert!(skips_rule_scan("./a/.git/hooks"));
    assert!(!skips_rule_scan("./a/git"));
}

#[test]
fn rule_file_names() {
    assert_eq!(rule_file_kind(".purities"), Some(RuleFileKind::Purities));
    assert_eq!(rule_file_kind(".impurities"), Some(RuleFileKind::Impurities));
    assert_eq!(rule_file_kind("purities"), None);
    assert_eq!(rule_file_display("./sub\\.purities"), "sub/.purities");
    assert_eq!(rule_file_display("x/.impurities"), "x/.impurities");
}

#[test]
fn directory_actions() {
    let blocked = rules(vec![], vec![rule("target/", "")]);
    assert_eq!(dir_action(&blocked, "src", false), DirAction::Enter);
    assert_eq!(dir_action(&blocked, "target", false), DirAction::Skip);
    assert_eq!(dir_action(&blocked, "target", true), DirAction::AskImpure);
    assert_eq!(dir_action(&blocked, "", true), DirAction::Enter);

    let allow = rules(vec![rule("src/*.rs", "")], vec![]);
    assert_eq!(dir_action(&allow, "src", false), DirAction::Enter);
    assert_eq!(dir_action(&allow, "docs", false), DirAction::Skip);
    assert_eq!(dir_action(&allow, "docs", true), DirAction::AskNotPure);
}

#[test]
fn entering_a_directory() {
    let base = rules(vec![rule("*.rs", "")], vec![rule("*.log", "")]);
    let (kept, reqs) = enter_dir(&base, "./src", "src", false);
    assert_eq!(kept.purities.len(), 1);
    assert_eq!(kept.impurities.len(), 1);
    assert_eq!(reqs.len(), 2);
    assert_eq!(reqs[0].file, "./src/.purities");
    assert_eq!(reqs[0].base_dir, "src/");
    assert!(reqs[0].purities);
    assert_eq!(reqs[1].file, "./src/.impurities");
    assert!(!reqs[1].purities);

    let (cleared, _) = enter_dir(&base, "./src", "src", true);
    assert!(cleared.purities.is_empty() && cleared.impurities.is_empty());
}

#[test]
fn single_file_checks() {
    let r = rules(vec![rule("*.rs", "")], vec![rule("gen*", "")]);
    let ok = check_single_file("./src\\main.rs", &r);
    assert_eq!(ok.clean_path, "src/main.rs");
    assert!(ok.passes && !ok.not_pure && !ok.impure);
    let gen = check_single_file("gen.rs", &r);
    assert!(!gen.passes && gen.impure && !gen.not_pure);
    let txt = check_single_file("notes.txt", &r);
    assert!(!txt.passes && txt.not_pure);
}

#[test]
fn ancestor_rule_files_of_a_target() {
    let r = rules(vec![], vec![]);
    let reqs = load_ancestor_rules("a/b/c.txt", &r);
    let files: Vec<String> = reqs.iter().map(|q| q.file.clone()).collect();
    assert_eq!(
        files,
        vec![
            ".purities".to_string(),
            ".impurities".to_string(),
            "a/.purities".to_string(),
            "a/.impurities".to_string(),
            "a/b/.purities".to_string(),
            "a/b/.impurities".to_string(),
        ]
    );
    assert_eq!(reqs[2].base_dir, "a/");
    assert_eq!(reqs[4].base_dir, "a/b/");
    let none = RuleSet { purities: vec![], impurities: vec![], dynamic_purities: false, dynamic_impurities: false };
    assert!(load_ancestor_rules("a/b/c.txt", &none).is_empty());
}

#[test]
fn law_ancestor_rules_load_root_first() {
    let mut r = rules(vec![rule("keep", "")], vec![]);
    r.dynamic_impurities = false;
    let reqs = load_ancestor_rules("./a/b/c.txt", &r);
    assert_eq!(reqs.len(), 3);
    let contents = vec![Some("root*\n# note\n".to_string()), None, Some(" deep\\x \n\nmore".to_string())];
    apply_rule_files(&reqs, &contents, &mut r);
    let got: Vec<(String, String)> = r.purities.iter().map(|x| (x.pattern.clone(), x.base_dir.clone())).collect();
    assert_eq!(
        got,
        vec![
            ("keep".to_string(), "".to_string()),
            ("root*".to_string(), "".to_string()),
            ("deep/x".to_string(), "a/b/".to_string()),
            ("more".to_string(), "a/b/".to_string()),
        ]
    );
    assert!(r.impurities.is_empty());
    assert!(r.dynamic_purities && !r.dynamic_impurities);
    let root = load_ancestor_rules("./", &r);
    assert!(root.is_empty());
}

#[test]
fn law_judgements_only_append() {
    let mut items = vec!["kept".to_string()];
    let mut conflicts = vec!["old".to_string()];
    let allow = rules(vec![rule("*.rs", "")], vec![rule("bad*", "")]);
    let block = rules(vec![], vec![rule("*.log", "")]);
    evaluate_and_push("a.rs", &mut items, &mut conflicts, &allow);
    evaluate_and_push("bad.rs", &mut items, &mut conflicts, &allow);
    evaluate_and_push("c.txt", &mut items, &mut conflicts, &allow);
    evaluate_and_push("d.log", &mut items, &mut conflicts, &block);
    evaluate_and_push("e.md", &mut items, &mut conflicts, &block);
    assert_eq!(items, vec!["kept".to_string(), "a.rs".to_string(), "e.md".to_string()]);
    assert_eq!(conflicts, vec!["old".to_string(), "bad.rs".to_string()]);
}

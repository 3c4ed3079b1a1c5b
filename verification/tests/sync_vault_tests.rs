use dam::credentials::{
    add_alias, credential_kind, decrypt_vault, delete_credential, encrypt_vault, global_dir,
    index_path, new_credential, remove_alias, save_credential, Credential, Vault,
};
use dam::lineage::{SealGraph, SealLink};
use dam::platforms::{pr_choice, pr_list_line, pr_safety_message, PrChoice};
use dam::reservoir::{pick_reservoirs, reservoir_config_path, search_dirs};
use dam::seal::FileEntry;
use dam::stream::{
    default_priority, get_or_create_meta, new_stream_meta, stream_list_line, stream_meta_path,
    stream_report, StreamMeta,
};
use dam::sync::{
    apply_remote_change, auth_from_choice, auth_from_legacy, commits_before_known,
    conflict_choice, diff_counts, extract_seal_id, first_parent_chain, parse_repo,
    pulled_seal, pulled_seal_id, push_changes, sync_action, sync_commit_message, sync_offer,
    AuthMethod, RemoteChange, SyncAction, SyncOffer,
};

fn s(x: &str) -> String {
    x.to_string()
}

fn strings(xs: &[&str]) -> Vec<String> {
    xs.iter().map(|x| x.to_string()).collect()
}

fn fe(p: &str, h: &str) -> FileEntry {
    FileEntry { path: s(p), hash: s(h), is_dir: false }
}

fn cred(alias: &str, secret: &str) -> Credential {
    Credential { alias: s(alias), cred_type: s("Generic"), secret: s(secret), extra: None }
}

#[test]
fn law_pushed_seal_id_is_read_back() {
    let m = sync_commit_message("seal_ab12cd34", "fix: things [really]");
    assert_eq!(m, "DAM Sync [seal_ab12cd34]: fix: things [really]");
    assert_eq!(extract_seal_id(&m), Some(s("seal_ab12cd34")));
}

#[test]
fn seal_ids_in_commit_messages() {
    assert_eq!(extract_seal_id("Merge pull request #3"), None);
    assert_eq!(extract_seal_id("prefix DAM Sync [x]"), Some(s("x")));
    assert_eq!(extract_seal_id("DAM Sync [unterminated"), None);
    assert_eq!(pulled_seal_id("DAM Sync [seal_1]: m", "0123456789abcdef"), "seal_1");
    assert_eq!(pulled_seal_id("native commit", "0123456789abcdef"), "seal_git_01234567");
    assert_eq!(pulled_seal_id("DAM Sync [seal_2]: m", "ab"), "seal_2");
}

#[test]
fn divergence_counts() {
    let local = strings(&["l3", "l2", "c1", "c0"]);
    let remote = strings(&["", "r1", "c1", "c0"]);
    assert_eq!(diff_counts(&local, &remote), (2, 2));
    assert_eq!(diff_counts(&strings(&["a"]), &vec![]), (1, 0));
    assert_eq!(diff_counts(&vec![], &strings(&["x", ""])), (0, 2));
}

#[test]
fn first_parent_history() {
    let g = SealGraph {
        links: vec![
            SealLink { id: s("c"), parents: strings(&["b", "x"]) },
            SealLink { id: s("b"), parents: strings(&["a"]) },
            SealLink { id: s("a"), parents: vec![] },
        ],
    };
    assert_eq!(first_parent_chain(&g, &s("c")), strings(&["c", "b", "a"]));
    let loop_g = SealGraph {
        links: vec![
            SealLink { id: s("p"), parents: strings(&["q"]) },
            SealLink { id: s("q"), parents: strings(&["p"]) },
        ],
    };
    assert_eq!(first_parent_chain(&loop_g, &s("p")), strings(&["p", "q"]));
}

#[test]
fn what_a_push_uploads() {
    let latest = vec![fe("a", "1"), fe("b", "2"), fe(".dam/x", "9"), fe("new", "5")];
    let base = vec![fe("a", "1"), fe("b", "1"), fe("gone", "3"), fe(".dam/y", "4")];
    let (changed, deleted) = push_changes(&latest, &base);
    let c: Vec<String> = changed.iter().map(|f| f.path.clone()).collect();
    let d: Vec<String> = deleted.iter().map(|f| f.path.clone()).collect();
    assert_eq!(c, strings(&["b", "new"]));
    assert_eq!(d, strings(&["gone"]));
}

#[test]
fn pulled_changes_update_files() {
    let files = vec![fe("a", "1"), fe("b", "2")];
    let removed = apply_remote_change(files.clone(), &RemoteChange { path: s("a"), removed: true, previous: None, new_hash: None });
    assert_eq!(removed.len(), 1);
    assert_eq!(removed[0].path, "b");
    let renamed = apply_remote_change(
        files.clone(),
        &RemoteChange { path: s("c"), removed: false, previous: Some(s("b")), new_hash: Some(s("7")) },
    );
    let got: Vec<(String, String)> = renamed.iter().map(|f| (f.path.clone(), f.hash.clone())).collect();
    assert_eq!(got, vec![(s("a"), s("1")), (s("c"), s("7"))]);
    let internal = apply_remote_change(
        files.clone(),
        &RemoteChange { path: s(".dam/z"), removed: true, previous: None, new_hash: None },
    );
    assert_eq!(internal.len(), 2);
    let unfetched = apply_remote_change(
        files,
        &RemoteChange { path: s("a"), removed: false, previous: None, new_hash: None },
    );
    assert_eq!(unfetched.len(), 2);
}

#[test]
fn repository_setting() {
    assert_eq!(parse_repo("octo/cat"), Some((s("octo"), s("cat"))));
    assert_eq!(parse_repo("octo/"), None);
    assert_eq!(parse_repo("a/b/c"), None);
    assert_eq!(parse_repo("plain"), None);
}

#[test]
fn authentication_choices() {
    assert!(matches!(auth_from_legacy("  tok \n"), Some(AuthMethod::ClassicToken { token }) if token == "tok"));
    assert!(auth_from_legacy(" \n").is_none());
    assert!(matches!(auth_from_choice("1", " t1 "), AuthMethod::FineGrainedToken { token } if token == "t1"));
    assert!(matches!(auth_from_choice("2", "t2"), AuthMethod::ClassicToken { token } if token == "t2"));
    assert!(matches!(auth_from_choice(" 3\n", "~/.ssh/k "), AuthMethod::SshKey { key_path, passphrase: None } if key_path == "~/.ssh/k"));
    assert_eq!(AuthMethod::ClassicToken { token: s("t") }.bearer_token(), Some(s("t")));
    assert_eq!(AuthMethod::SshKey { key_path: s("k"), passphrase: None }.bearer_token(), None);
}

#[test]
fn sync_decisions() {
    assert_eq!(sync_action("PUSH"), Some(SyncAction::Push));
    assert_eq!(sync_action("pull"), Some(SyncAction::Pull));
    assert_eq!(sync_action("merge"), None);
    assert_eq!(sync_offer(0, 0), SyncOffer::UpToDate);
    assert_eq!(sync_offer(2, 1), SyncOffer::Conflict);
    assert_eq!(sync_offer(2, 0), SyncOffer::OfferPush);
    assert_eq!(sync_offer(0, 3), SyncOffer::OfferPull);
    assert_eq!(conflict_choice(" 1\n"), Some(SyncAction::Pull));
    assert_eq!(conflict_choice("2"), Some(SyncAction::Push));
    assert_eq!(conflict_choice("skip"), None);
    assert_eq!(commits_before_known(&vec![false, false, true, false]), 2);
    assert_eq!(commits_before_known(&vec![false]), 1);
    let p = pulled_seal(s("i"), s("m"), s("t"), vec![], "dev", Some(s("prev")));
    assert_eq!(p.parents, strings(&["prev"]));
    assert_eq!(p.stream, "dev");
    assert!(pulled_seal(s("i"), s("m"), s("t"), vec![], "dev", None).parents.is_empty());
}

#[test]
fn law_vault_read_after_write() {
    let mut v = Vault::new();
    let mut aliases: Vec<String> = Vec::new();
    save_credential(&mut v, &mut aliases, cred("gh", "one"));
    save_credential(&mut v, &mut aliases, cred("ci", "two"));
    save_credential(&mut v, &mut aliases, cred("gh", "three"));
    assert_eq!(v.get("gh").unwrap().secret, "three");
    assert_eq!(v.get("ci").unwrap().secret, "two");
    assert_eq!(aliases, strings(&["gh", "ci"]));
    assert_eq!(v.get("none").err(), Some(s("Alias not found in vault")));
    assert_eq!(v.entries.len(), 2);
    assert_eq!(v.entries[1].key, "gh");
}

#[test]
fn deleting_credentials() {
    let mut v = Vault::new();
    let mut aliases: Vec<String> = Vec::new();
    save_credential(&mut v, &mut aliases, cred("gh", "one"));
    save_credential(&mut v, &mut aliases, cred("ci", "two"));
    assert!(delete_credential(&mut v, &mut aliases, "gh"));
    assert!(v.get("gh").is_err());
    assert_eq!(v.get("ci").unwrap().secret, "two");
    assert_eq!(aliases, strings(&["ci"]));
    assert!(!delete_credential(&mut v, &mut aliases, "gh"));
    assert_eq!(aliases, strings(&["ci"]));
}

#[test]
fn alias_index() {
    let mut a: Vec<String> = Vec::new();
    assert!(add_alias(&mut a, "x"));
    assert!(!add_alias(&mut a, "x"));
    assert!(add_alias(&mut a, "y"));
    remove_alias(&mut a, "x");
    assert_eq!(a, strings(&["y"]));
}

#[test]
fn credential_menu() {
    assert_eq!(credential_kind("1"), "FineGrainedToken");
    assert_eq!(credential_kind(" 2 "), "ClassicToken");
    assert_eq!(credential_kind("3\n"), "SshKey");
    assert_eq!(credential_kind("9"), "Generic");
    let c = new_credential("gh", "ClassicToken", "  secret\n");
    assert_eq!(c.secret, "secret");
    assert_eq!(c.extra, None);
}

#[test]
fn config_locations() {
    assert_eq!(global_dir(Some("/home/u"), Some("C:/Users/u")), "/home/u/.damconfig");
    assert_eq!(global_dir(None, Some("C:/Users/u")), "C:/Users/u/.damconfig");
    assert_eq!(global_dir(None, None), "./.damconfig");
    assert_eq!(index_path("/home/u/.damconfig"), "/home/u/.damconfig/aliases.json");
}

#[test]
fn vault_round_trip() {
    let data = "{\"gh\":{\"alias\":\"gh\"}}";
    let bytes = encrypt_vault(data, "pw");
    assert!(bytes.len() >= 28);
    assert_eq!(decrypt_vault(&bytes, "pw"), Ok(s(data)));
}

#[test]
fn vault_wrong_password() {
    let bytes = encrypt_vault("secret text", "right");
    assert_eq!(decrypt_vault(&bytes, "wrong"), Err(s("Invalid password or corrupted vault")));
}

#[test]
fn vault_without_room_for_the_tag() {
    assert_eq!(decrypt_vault(&[0u8; 27], "pw"), Err(s("Invalid vault data")));
    assert_eq!(decrypt_vault(&[0u8; 28], "pw"), Err(s("Invalid password or corrupted vault")));
    assert_eq!(decrypt_vault(&[0u8; 43], "pw"), Err(s("Invalid password or corrupted vault")));
    assert_eq!(encrypt_vault("abc", "pw").len(), 28 + 3 + 16);
    assert_eq!(encrypt_vault("", "pw").len(), 44);
}

#[test]
fn vault_too_short() {
    assert_eq!(decrypt_vault(&[0u8; 10], "pw"), Err(s("Invalid vault data")));
}

#[test]
fn vault_salts_differ() {
    let a = encrypt_vault("x", "pw");
    let b = encrypt_vault("x", "pw");
    assert_ne!(a, b);
}

#[test]
fn stream_metadata() {
    assert_eq!(default_priority("main"), "High");
    assert_eq!(default_priority("dev"), "Normal");
    let m = new_stream_meta("dev", s("ann"));
    assert_eq!(m.name, "dev");
    assert_eq!(m.owner, "ann");
    assert_eq!(m.priority, "Normal");
    assert_eq!(m.status, "Active");
    assert_eq!(m.target, "main");
    assert!(m.goals.is_empty() && m.latest_seal.is_none());
    let fresh = get_or_create_meta("main", None, None);
    assert_eq!(fresh.owner, "Unknown");
    assert_eq!(fresh.priority, "High");
    let kept = get_or_create_meta("main", Some(m.clone()), None);
    assert_eq!(kept.name, "dev");
    assert_eq!(stream_meta_path("dev"), ".dam/streams/dev");
}

fn meta() -> StreamMeta {
    StreamMeta {
        name: s("dev"),
        description: s("d"),
        owner: s("o"),
        priority: s("High"),
        status: s("Active"),
        created_at: s("t"),
        target: s("main"),
        goals: strings(&["ship", "test"]),
        latest_seal: Some(s("seal_1")),
    }
}

#[test]
fn stream_reports() {
    let r = stream_report(&meta());
    assert_eq!(
        r,
        strings(&[
            "\nCurrent Stream",
            "dev",
            "──────────────",
            "Description : d",
            "Owner       : o",
            "Priority    : High",
            "Target      : main",
            "Status      : Active",
            "Latest Seal : seal_1",
            "\nGoals",
            "─────",
            "1. ship",
            "2. test",
            "",
        ])
    );
    let mut bare = meta();
    bare.goals = vec![];
    bare.latest_seal = None;
    let r2 = stream_report(&bare);
    assert_eq!(r2[8], "Latest Seal : (None)");
    assert_eq!(r2[9], "\nGoals: None configured. Use 'dam stream set-goal' to add one.");
    assert_eq!(r2.len(), 11);
}

#[test]
fn stream_list_lines() {
    assert_eq!(stream_list_line("dev", &meta(), "dev\n"), "  * dev (active) - [Active Priority: High]");
    assert_eq!(stream_list_line("dev", &meta(), "main"), "    dev - [Active Priority: High]");
}

#[test]
fn reservoir_search() {
    assert_eq!(search_dirs("/home/u/p"), strings(&["/home/u/p", "/home/u", "/home", "/"]));
    assert_eq!(search_dirs("/"), strings(&["/"]));
    assert_eq!(search_dirs("a/b"), strings(&["a/b", "a", ""]));
    assert_eq!(pick_reservoirs(&vec![false, true, false, true]), (Some(1), Some(3)));
    assert_eq!(pick_reservoirs(&vec![true, false]), (Some(0), None));
    assert_eq!(pick_reservoirs(&vec![false, false]), (None, None));
    assert_eq!(reservoir_config_path("/home/u/p"), "/home/u/p/.dam/config.toml");
}

#[test]
fn pull_request_prompt_answers() {
    assert!(matches!(pr_choice("  \n"), PrChoice::Cancel));
    assert!(matches!(pr_choice("42\n"), PrChoice::Number(42)));
    assert!(matches!(pr_choice("+7"), PrChoice::Number(7)));
    assert!(matches!(pr_choice("18446744073709551615"), PrChoice::Number(u64::MAX)));
    assert!(matches!(pr_choice(" -1 "), PrChoice::Invalid(ref t) if t == "-1"));
    assert!(matches!(pr_choice("18446744073709551616"), PrChoice::Invalid(_)));
    assert!(matches!(pr_choice("4a"), PrChoice::Invalid(_)));
    assert!(matches!(pr_choice("+"), PrChoice::Invalid(_)));
    for text in ["0", "007", "+0", "99999999999999999999", "1 2", "٣", "+-1", "12345678901234567890"] {
        let expected = text.parse::<u64>().ok();
        let got = match pr_choice(text) {
            PrChoice::Number(n) => Some(n),
            _ => None,
        };
        assert_eq!(got, expected, "parsing {:?}", text);
    }
}

#[test]
fn pull_request_lines() {
    assert_eq!(pr_list_line(7, "Fix", "ann", "fix-1"), format!("  #{:<5} {}  (by {}, branch '{}')", 7, "Fix", "ann", "fix-1"));
    assert_eq!(pr_list_line(7, "Fix", "ann", "fix-1"), "  #7     Fix  (by ann, branch 'fix-1')");
    assert_eq!(pr_list_line(1234567, "T", "a", "b"), "  #1234567 T  (by a, branch 'b')");
    assert_eq!(pr_safety_message(12), "Safety seal before checking out PR #12");
}

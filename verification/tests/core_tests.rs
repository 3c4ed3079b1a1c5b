use dam::answers::{
    answer_or_default, confirmation_matches, confirms_yes, declines, is_yes, is_yes_or_blank,
};
use dam::config::{
    config_value, config_with_value, config_version, confirmation_word, initial_config, is_supported_version,
    project_name_from_config, suppresses_nested_warning, upgrade_config,
};
use dam::drain::DrainTarget;
use dam::objects::{
    base64_text,
    blob_upload_content, content_hash, decode_object, encode_object, ingest_blob, seal_id,
};
use dam::paths::adjust_path;
use dam::providers::{get_provider, ProviderKind};
use dam::platforms::platform_recognized;
use dam::staging::{lex_less, merge_into_staging};
use dam::text::{chars_of, decimal_exec, trim_end_exec};

fn s(x: &str) -> String {
    x.to_string()
}

fn strings(xs: &[&str]) -> Vec<String> {
    xs.iter().map(|x| x.to_string()).collect()
}

#[test]
fn drain_target_accepts_collection_in_any_case() {
    assert!(matches!(DrainTarget::from_str("collection"), Some(DrainTarget::Collection)));
    assert!(matches!(DrainTarget::from_str("COLLECTION"), Some(DrainTarget::Collection)));
    assert!(matches!(DrainTarget::from_str("Collection"), Some(DrainTarget::Collection)));
    assert!(DrainTarget::from_str("cache").is_none());
    assert!(DrainTarget::from_str("").is_none());
    assert!(DrainTarget::from_str(" collection").is_none());
}

#[test]
fn provider_by_name() {
    assert_eq!(get_provider("flutter"), ProviderKind::Flutter);
    assert_eq!(get_provider("FireBase"), ProviderKind::Firebase);
    assert_eq!(get_provider("python"), ProviderKind::Python);
    assert_eq!(get_provider("rust"), ProviderKind::Custom);
    assert_eq!(get_provider(""), ProviderKind::Custom);
}

#[test]
fn platform_names() {
    assert!(platform_recognized("github"));
    assert!(platform_recognized("GitHub"));
    assert!(!platform_recognized("gitlab"));
}

#[test]
fn answers_to_prompts() {
    assert!(is_yes("y"));
    assert!(is_yes("  Y \n"));
    assert!(!is_yes("yes"));
    assert!(!is_yes(""));
    assert!(declines("n"));
    assert!(declines(" N\n"));
    assert!(!declines(""));
    assert!(!declines("no"));
    assert!(is_yes_or_blank(""));
    assert!(is_yes_or_blank("  \n"));
    assert!(is_yes_or_blank("y"));
    assert!(!is_yes_or_blank("n"));
    assert!(confirms_yes("YES"));
    assert!(confirms_yes(" yes \n"));
    assert!(!confirms_yes("y"));
    assert!(confirmation_matches("myproj\n", "myproj"));
    assert!(!confirmation_matches("MyProj", "myproj"));
    assert_eq!(answer_or_default("  \n", "main"), "main");
    assert_eq!(answer_or_default(" dev \n", "main"), "dev");
}

#[test]
fn decimal_text() {
    assert_eq!((decimal_exec(0)).iter().collect::<String>(), "0");
    assert_eq!((decimal_exec(7)).iter().collect::<String>(), "7");
    assert_eq!((decimal_exec(42)).iter().collect::<String>(), "42");
    assert_eq!((decimal_exec(1000)).iter().collect::<String>(), "1000");
    assert_eq!((decimal_exec(u64::MAX)).iter().collect::<String>(), u64::MAX.to_string());
}

#[test]
fn trim_end_keeps_leading_space() {
    let t = trim_end_exec(&chars_of("  a b \t\n"));
    assert_eq!(t.iter().collect::<String>(), "  a b");
    assert_eq!((trim_end_exec(&chars_of("│   ●   "))).iter().collect::<String>(), "│   ●");
}

#[test]
fn content_hash_is_sha256_hex() {
    assert_eq!(
        content_hash(b"hello"),
        "2cf24dba5fb0a30e26e83b2ac5b9e29e1b161e5c1fa7425e73043362938b9824"
    );
    assert_eq!(
        content_hash(b""),
        "e3b0c44298fc1c149afbf4c8996fb92427ae41e4649b934ca495991b7852b855"
    );
}

#[test]
fn stored_object_round_trip() {
    let raw = b"some file content\nwith lines\n".to_vec();
    let o = encode_object(&raw);
    assert_eq!(o.hash, content_hash(&raw));
    assert_ne!(o.compressed, raw);
    assert_eq!(decode_object(&o.compressed), Some(raw));
}

#[test]
fn decode_object_rejects_garbage() {
    assert_eq!(decode_object(b"definitely not zlib"), None);
}

#[test]
fn blob_round_trip_through_base64() {
    let o = encode_object(b"hello");
    let content = blob_upload_content(&o.compressed).unwrap();
    assert_eq!(content, "aGVsbG8=");
    let back = ingest_blob(&content).unwrap();
    assert_eq!(back.hash, o.hash);
    assert_eq!(decode_object(&back.compressed), Some(b"hello".to_vec()));
}

#[test]
fn ingest_blob_drops_line_breaks() {
    let o = ingest_blob("aGVs\nbG8=\n").unwrap();
    assert_eq!(o.hash, content_hash(b"hello"));
    assert_eq!(decode_object(&o.compressed), Some(b"hello".to_vec()));
}

#[test]
fn ingest_blob_rejects_bad_base64() {
    assert!(ingest_blob("***").is_none());
    assert!(blob_upload_content(b"not zlib").is_none());
}

#[test]
fn seal_id_digests_message_time_parents_and_paths() {
    let id = seal_id("msg", "2024-01-01T00:00:00Z", &strings(&["p1"]), &strings(&["a.txt"]));
    assert_eq!(id, "seal_278287ba");
    let other = seal_id("msg", "2024-01-01T00:00:00Z", &strings(&[]), &strings(&["a.txt"]));
    assert_ne!(other, id);
}

#[test]
fn staging_is_sorted_and_deduplicated() {
    let r = merge_into_staging(strings(&["b", "d"]), strings(&["c", "a", "b", "a"]));
    assert_eq!(r, strings(&["a", "b", "c", "d"]));
    assert_eq!(merge_into_staging(vec![], vec![]), Vec::<String>::new());
}

#[test]
fn lexical_order() {
    assert!(lex_less("a", "b"));
    assert!(lex_less("a", "ab"));
    assert!(!lex_less("ab", "a"));
    assert!(!lex_less("x", "x"));
    assert!(lex_less("", "a"));
    assert!(lex_less("Z", "a"));
}

#[test]
fn adjust_path_relative_to_root() {
    assert_eq!(adjust_path("/home/u/proj/src", "/home/u/proj", "main.rs"), "src/main.rs");
    assert_eq!(adjust_path("/home/u/proj", "/home/u/proj", "."), ".");
    assert_eq!(adjust_path("/home/u/proj/src", "/home/u/proj", "/etc/x"), "/etc/x");
}

#[test]
fn config_version_reading() {
    assert_eq!(config_version("[reservoir]\nversion = \"0.5.0\"\n"), "0.5.0");
    assert_eq!(config_version("version=\"1.2.3\""), "1.2.3");
    assert_eq!(config_version("name = \"x\"\n"), "0.1.0");
    assert_eq!(config_version("version = \"1\"\nversion = \"2\"\n"), "2");
    assert_eq!(config_version("version = a = b\n"), "0.1.0");
}

#[test]
fn supported_versions() {
    assert!(is_supported_version("0.5.0", "0.6.0"));
    assert!(is_supported_version("0.6.0", "0.6.0"));
    assert!(!is_supported_version("0.1.0", "0.6.0"));
}

#[test]
fn new_config_text() {
    let c = initial_config("0.5.0", "demo", true, false, true, false);
    assert_eq!(
        c,
        "[reservoir]\nversion = \"0.5.0\"\ntype = \"native\"\nname = \"demo\"\nsuppress_nested_warning = true\npurities_overrides_impurities = false\nimpurities_overrides_purities = true\nenforce_password_on_project_import = false\n"
    );
}

#[test]
fn law_new_config_reads_back_version_and_name() {
    let c = initial_config("0.5.0", "demo project", false, false, false, true);
    assert_eq!(config_version(&c), "0.5.0");
    assert_eq!(project_name_from_config(&c), Some(s("demo project")));
    assert!(is_supported_version(&config_version(&c), "0.5.0"));
}

#[test]
fn project_name_lines() {
    assert_eq!(project_name_from_config("name = \"abc\"\n"), Some(s("abc")));
    assert_eq!(project_name_from_config("  name=abc  \n"), Some(s("abc")));
    assert_eq!(project_name_from_config("name = \"\"\nname = \"b\"\n"), Some(s("b")));
    assert_eq!(project_name_from_config("namespace = \"x\"\n"), None);
    assert_eq!(project_name_from_config(""), None);
}

#[test]
fn confirmation_words() {
    assert_eq!(confirmation_word(&Some(s("proj")), true), "proj");
    assert_eq!(confirmation_word(&None, true), "ARCHIVE");
    assert_eq!(confirmation_word(&None, false), "DESTROY");
}

#[test]
fn nested_warning_setting() {
    assert!(suppresses_nested_warning("x\nsuppress_nested_warning = true\n"));
    assert!(!suppresses_nested_warning("suppress_nested_warning = false\n"));
}

#[test]
fn upgrade_replaces_version_lines() {
    let c = upgrade_config("[reservoir]\nversion = \"0.1.0\"\nname = \"x\"\n", "0.6.0");
    assert_eq!(
        c,
        "[reservoir]\nversion = \"0.6.0\"\nname = \"x\"\nenforce_password_on_project_import = false\n"
    );
    assert_eq!(config_version(&c), "0.6.0");
}

#[test]
fn upgrade_appends_missing_version() {
    let c = upgrade_config("[reservoir]\nenforce_password_on_project_import = true\n", "0.6.0");
    assert_eq!(
        c,
        "[reservoir]\nenforce_password_on_project_import = true\n\nversion = \"0.6.0\"\n"
    );
    assert_eq!(config_version(&c), "0.6.0");
}

#[test]
fn law_upgrade_reaches_current_version() {
    for c in [
        "",
        "[reservoir]\n",
        "[reservoir]\r\nversion = \"0.1.0\"\r\nname = \"x\"\r\n",
        "version=\"0.2.0\"\nversion = \"0.3.0\"\n",
        "version = \"0.1.0\"\n# notes\n",
    ] {
        let up = upgrade_config(c, "0.6.0");
        assert_eq!(config_version(&up), "0.6.0", "upgrading {:?}", c);
    }
}

#[test]
fn upgrade_leaves_a_commented_version_alone() {
    let up = upgrade_config("name = \"x\"\n# version = 1\n", "0.6.0");
    assert_eq!(config_version(&up), "0.1.0");
}

#[test]
fn config_values() {
    let c = "[reservoir]\ngithub_repo = \"octo/cat\"\ngithub_repo = \"x/y\"\n";
    assert_eq!(config_value(c, "github_repo"), Some(s("octo/cat")));
    assert_eq!(config_value("name = \"a\"\n", "github_repo"), None);
    assert_eq!(config_value("github_repo=plain\n", "github_repo"), Some(s("plain")));
}

#[test]
fn law_set_value_is_read_back() {
    let c = "[reservoir]\ngithub_repo = \"bad\"\r\nname = \"x\"\n  github_repo=\"old\"";
    let updated = config_with_value(c, "github_repo", "octo/cat");
    assert_eq!(updated, "[reservoir]\nname = \"x\"\ngithub_repo = \"octo/cat\"\n");
    assert_eq!(config_value(&updated, "github_repo"), Some(s("octo/cat")));
    let fresh = config_with_value("", "github_repo", " spaced ");
    assert_eq!(config_value(&fresh, "github_repo"), Some(s(" spaced ")));
}

#[test]
fn base64_of_text() {
    assert_eq!(base64_text("hi"), "aGk=");
    assert_eq!(base64_text(""), "");
    assert_eq!(base64_text("Initialized by DAM Cloud Sync."), "SW5pdGlhbGl6ZWQgYnkgREFNIENsb3VkIFN5bmMu");
}

#[test]
fn law_adjusted_path_names_the_same_place() {
    let cases = [
        ("/home/u/proj/src", "/home/u/proj", "main.rs"),
        ("/home/u/proj/src", "/home/u/proj/", "./lib/../x.rs"),
        ("/home/u/proj", "/home/u/proj", "."),
        ("/home/u/proj/a", "/home/u/proj", "b//c/"),
        ("/home/u/proj/a", "/", "b"),
    ];
    for (cwd, root, user) in cases {
        let adjusted = adjust_path(cwd, root, user);
        let from_root: Vec<_> = std::path::Path::new(root).join(&adjusted).components().collect::<Vec<_>>().iter().map(|c| c.as_os_str().to_owned()).collect();
        let from_cwd: Vec<_> = std::path::Path::new(cwd).join(user).components().collect::<Vec<_>>().iter().map(|c| c.as_os_str().to_owned()).collect();
        assert_eq!(from_root, from_cwd, "{} {} {}", cwd, root, user);
    }
}

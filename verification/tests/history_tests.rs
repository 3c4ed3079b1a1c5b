use dam::lineage::{find_common_ancestor, SealGraph, SealLink};
use dam::merge::{entry_paths, merge_message, plan_merge, three_way_merge};
use dam::seal::{
    create_seal, default_stream, dir_entry, export_name, export_plan, file_entry, import_format,
    staged_kind, unpacked_entry, ArchiveMember, FileEntry, ImportFormat, Seal, StagedKind,
    UnpackedEntry,
};
use dam::objects::{content_hash, decode_object, seal_id};
use dam::timeline::{
    chronological_order, clean_time, edge_line, history_line, previous_in_history,
    render_ascii_dag, stream_columns, timeline_entry,
};

fn s(x: &str) -> String {
    x.to_string()
}

fn strings(xs: &[&str]) -> Vec<String> {
    xs.iter().map(|x| x.to_string()).collect()
}

fn fe(p: &str, h: &str) -> FileEntry {
    FileEntry { path: s(p), hash: s(h), is_dir: false }
}

fn link(id: &str, parents: &[&str]) -> SealLink {
    SealLink { id: s(id), parents: strings(parents) }
}

fn seal(id: &str, ts: &str, stream: &str, parents: &[&str], msg: &str) -> Seal {
    Seal {
        id: s(id),
        message: s(msg),
        timestamp: s(ts),
        files: vec![],
        stream: s(stream),
        parents: strings(parents),
    }
}

#[test]
fn common_ancestor_of_two_branches() {
    let g = SealGraph {
        links: vec![
            link("r", &[]),
            link("a1", &["r"]),
            link("a2", &["a1"]),
            link("b1", &["r"]),
            link("m", &["a2", "b1"]),
        ],
    };
    assert_eq!(find_common_ancestor("a2", "b1", &g), Some(s("r")));
    assert_eq!(find_common_ancestor("m", "a1", &g), Some(s("a1")));
    assert_eq!(find_common_ancestor("a2", "a2", &g), Some(s("a2")));
}

#[test]
fn no_common_ancestor_between_separate_roots() {
    let g = SealGraph { links: vec![link("x", &[]), link("y", &[])] };
    assert_eq!(find_common_ancestor("x", "y", &g), None);
}

#[test]
fn common_ancestor_survives_a_cycle() {
    let g = SealGraph { links: vec![link("p", &["q"]), link("q", &["p"]), link("z", &[])] };
    assert_eq!(find_common_ancestor("p", "z", &g), None);
    assert_eq!(find_common_ancestor("p", "q", &g), Some(s("q")));
}

#[test]
fn three_way_merge_cases() {
    let base = vec![fe("same", "1"), fe("src_changed", "1"), fe("act_changed", "1"), fe("both", "1"), fe("src_deleted", "1")];
    let active = vec![fe("same", "1"), fe("src_changed", "1"), fe("act_changed", "2"), fe("both", "2"), fe("src_deleted", "1"), fe("new_a", "9")];
    let source = vec![fe("same", "1"), fe("src_changed", "3"), fe("act_changed", "1"), fe("both", "3"), fe("new_s", "8")];
    let (files, conflicts) = three_way_merge(&base, &active, &source);
    let got: Vec<(String, String)> = files.iter().map(|f| (f.path.clone(), f.hash.clone())).collect();
    assert_eq!(
        got,
        vec![
            (s("same"), s("1")),
            (s("src_changed"), s("3")),
            (s("act_changed"), s("2")),
            (s("both"), s("2")),
            (s("new_a"), s("9")),
            (s("new_s"), s("8")),
        ]
    );
    assert_eq!(conflicts, strings(&["both"]));
}

#[test]
fn law_merge_of_identical_heads_has_no_conflict() {
    let base = vec![fe("a", "1")];
    let head = vec![fe("a", "2"), fe("b", "3")];
    let (files, conflicts) = three_way_merge(&base, &head, &head);
    assert_eq!(entry_paths(&files), strings(&["a", "b"]));
    assert_eq!(files[0].hash, "2");
    assert!(conflicts.is_empty());
}

#[test]
fn law_merge_from_unchanged_source_keeps_active() {
    let base = vec![fe("a", "1"), fe("b", "1")];
    let active = vec![fe("a", "5"), fe("c", "7")];
    let (files, conflicts) = three_way_merge(&base, &active, &base);
    let got: Vec<(String, String)> = files.iter().map(|f| (f.path.clone(), f.hash.clone())).collect();
    assert_eq!(got, vec![(s("a"), s("5")), (s("c"), s("7"))]);
    assert!(conflicts.is_empty());
}

#[test]
fn new_file_on_both_sides_with_different_content_conflicts() {
    let (files, conflicts) = three_way_merge(&vec![], &vec![fe("n", "1")], &vec![fe("n", "2")]);
    assert_eq!(files.len(), 1);
    assert_eq!(files[0].hash, "1");
    assert_eq!(conflicts, strings(&["n"]));
}

#[test]
fn merge_plan_and_message() {
    let p = plan_merge("feature", "main", Some(s("base")), "f1", "m1", &vec![], &vec![fe("a", "1")], &vec![fe("b", "2")]);
    assert_eq!(p.source_stream, "feature");
    assert_eq!(p.target_stream, "main");
    assert_eq!(p.base_seal, Some(s("base")));
    assert_eq!(p.source_seal, "f1");
    assert_eq!(p.target_seal, "m1");
    assert_eq!(entry_paths(&p.files), strings(&["a", "b"]));
    assert_eq!(merge_message(&p), "Merge stream 'feature' into 'main'");
}

#[test]
fn seal_creation() {
    let staged = strings(&["a.txt"]);
    let files = vec![fe("a.txt", "h")];
    let new = create_seal("first", &staged, files, "main", Some(s("seal_prev")), &strings(&["seal_x"]));
    assert_eq!(new.parents, strings(&["seal_prev", "seal_x"]));
    assert_eq!(new.message, "first");
    assert_eq!(new.stream, "main");
    assert_eq!(new.id, seal_id("first", &new.timestamp, &new.parents, &staged));
    assert!(new.id.starts_with("seal_") && new.id.len() == 13);
    let root = create_seal("root", &staged, vec![], "dev", None, &vec![]);
    assert!(root.parents.is_empty());
}

#[test]
fn seal_entries() {
    assert_eq!(default_stream(), "main");
    let d = dir_entry("docs");
    assert!(d.is_dir && d.path == "docs" && d.hash == "dir");
    let (e, o) = file_entry("a.txt", b"abc");
    assert_eq!(e.path, "a.txt");
    assert!(!e.is_dir);
    assert_eq!(e.hash, content_hash(b"abc"));
    assert_eq!(o.hash, e.hash);
    assert_eq!(decode_object(&o.compressed), Some(b"abc".to_vec()));
    assert_eq!(staged_kind("x", true, false), StagedKind::Dir);
    assert_eq!(staged_kind("x/", false, false), StagedKind::Dir);
    assert_eq!(staged_kind("x", false, true), StagedKind::File);
    assert_eq!(staged_kind("x", false, false), StagedKind::Missing);
}

#[test]
fn import_and_unpack_kinds() {
    assert_eq!(import_format("p.dam"), ImportFormat::Project);
    assert_eq!(import_format("s.seal"), ImportFormat::Seal);
    assert_eq!(import_format("z.zip"), ImportFormat::Zip);
    assert_eq!(import_format("t.tar"), ImportFormat::Unsupported);
    assert_eq!(unpacked_entry("seal_1.json", false), UnpackedEntry::SealRecord);
    assert_eq!(unpacked_entry("objects", false), UnpackedEntry::Objects);
    assert_eq!(unpacked_entry("objects", true), UnpackedEntry::Other);
    assert_eq!(unpacked_entry("x.txt", false), UnpackedEntry::Other);
}

#[test]
fn export_plans() {
    let mut sl = seal("seal_1", "t", "main", &[], "m");
    sl.files = vec![FileEntry { path: s("d"), hash: s(""), is_dir: true }, fe("d/a.txt", "h1")];
    assert_eq!(export_name("seal_1", true), "seal_1.zip");
    assert_eq!(export_name("seal_1", false), "seal_1.seal");
    let z = export_plan(&sl, true);
    assert_eq!(z.len(), 3);
    assert!(matches!(&z[0], ArchiveMember::Record(n) if n == "seal_1.json"));
    assert!(matches!(&z[1], ArchiveMember::Directory(n) if n == "d"));
    assert!(matches!(&z[2], ArchiveMember::Object { name, hash } if name == "d/a.txt" && hash == "h1"));
    let t = export_plan(&sl, false);
    assert_eq!(t.len(), 2);
    assert!(matches!(&t[1], ArchiveMember::Object { name, hash } if name == "objects/h1" && hash == "h1"));
}

#[test]
fn chronological_order_is_stable() {
    let ts = strings(&["2024-03", "2024-01", "2024-02", "2024-01"]);
    assert_eq!(chronological_order(&ts), vec![1, 3, 2, 0]);
    assert_eq!(chronological_order(&vec![]), Vec::<usize>::new());
}

#[test]
fn columns_by_first_appearance() {
    let (cols, idx) = stream_columns(&strings(&["main", "dev", "main", "fix", "dev"]));
    assert_eq!(cols, strings(&["main", "dev", "fix"]));
    assert_eq!(idx, vec![0, 1, 0, 2, 1]);
}

#[test]
fn time_display() {
    assert_eq!(clean_time("2024-05-01T10:20:30.123+00:00", '.'), "2024-05-01 10:20:30");
    assert_eq!(clean_time("2024-05-01T10:20:30+02:00", '+'), "2024-05-01 10:20:30");
    assert_eq!(clean_time("plain", '.'), "plain");
}

#[test]
fn edge_lines() {
    assert_eq!((edge_line(2, 0, false)).iter().collect::<String>(), "│   │");
    assert_eq!((edge_line(2, 1, true)).iter().collect::<String>(), "│   ⏽ ╲");
    assert_eq!((edge_line(0, 0, true)).iter().collect::<String>(), "");
}

#[test]
fn ascii_dag_of_two_streams() {
    let seals = vec![
        seal("s3", "2024-01-03T00:00:00.5+00:00", "main", &["s1"], "next"),
        seal("s1", "2024-01-01T00:00:00.5+00:00", "main", &[], "root"),
        seal("s2", "2024-01-02T00:00:00.5+00:00", "dev", &["s1", "s0"], "work"),
    ];
    let lines = render_ascii_dag(&seals, "main");
    assert_eq!(
        lines,
        strings(&[
            "●   │ s3 (2024-01-03 00:00:00) - [main] \"next\"",
            "│   ⏽ ╲",
            "│   ○ s2 (2024-01-02 00:00:00) - [dev] \"work\"",
            "│   │",
            "●   │ s1 (2024-01-01 00:00:00) - [main] \"root\"",
        ])
    );
    assert!(render_ascii_dag(&vec![], "main").is_empty());
}

#[test]
fn history_lines() {
    let a = seal("s2", "2024-01-02T03:04:05.6+00:00", "main", &["s1", "s0"], "second");
    assert_eq!(history_line(&a), "  s2 | 2024-01-02 03:04:05.6 | parents: [s1, s0] | \"second\"");
    let r = seal("s1", "t", "main", &[], "first");
    assert_eq!(history_line(&r), "  s1 | t | parents: [root] | \"first\"");
    assert_eq!(previous_in_history(&a), Some(s("s1")));
    assert_eq!(previous_in_history(&r), None);
}

#[test]
fn timeline_entries() {
    let mut a = seal("s2", "T", "main", &["s1"], "msg");
    a.files = vec![fe("a", "1"), fe("b", "2")];
    assert_eq!(
        timeline_entry(&a),
        strings(&[
            "\n[s2] - T",
            "  Parents: s1",
            "  Stream: main",
            "  Message: msg",
            "  Tracked Files: a, b",
            "--------------------------------------------",
        ])
    );
    let r = seal("s1", "T", "main", &[], "m");
    assert_eq!(timeline_entry(&r).len(), 5);
}

#[test]
fn common_ancestor_is_the_first_met_breadth_first() {
    let g = SealGraph {
        links: vec![link("A", &["x", "y"]), link("B", &["x", "y"]), link("x", &[]), link("y", &[])],
    };
    assert_eq!(find_common_ancestor("A", "B", &g), Some(s("x")));
    let g2 = SealGraph {
        links: vec![link("A", &["x", "y"]), link("B", &["y", "x"]), link("x", &[]), link("y", &[])],
    };
    assert_eq!(find_common_ancestor("A", "B", &g2), Some(s("y")));
}

#[test]
fn common_ancestor_prefers_the_nearer_seal() {
    let g = SealGraph {
        links: vec![link("A", &["R"]), link("R", &[]), link("X", &["R"]), link("B", &["A", "X"])],
    };
    assert_eq!(find_common_ancestor("A", "B", &g), Some(s("A")));
    let deep = SealGraph {
        links: vec![
            link("B", &["X", "A"]),
            link("X", &["Y"]),
            link("Y", &["R"]),
            link("A", &["R"]),
            link("R", &[]),
        ],
    };
    assert_eq!(find_common_ancestor("A", "B", &deep), Some(s("A")));
}

#[test]
fn law_import_reads_export() {
    let mut sl = seal("seal_9", "t", "main", &[], "m");
    sl.files = vec![fe("a.txt", "h1"), FileEntry { path: s("d"), hash: s("dir"), is_dir: true }, fe("d/b.txt", "h2")];
    for zip in [true, false] {
        let plan = export_plan(&sl, zip);
        match &plan[0] {
            ArchiveMember::Record(n) => assert_eq!(unpacked_entry(n, zip), UnpackedEntry::SealRecord),
            _ => panic!("the record comes first"),
        }
        for m in &plan[1..] {
            match m {
                ArchiveMember::Object { name, hash } => {
                    let e = sl.files.iter().find(|f| &f.hash == hash && !f.is_dir).unwrap();
                    if zip {
                        assert_eq!(name, &e.path);
                    } else {
                        assert_eq!(name, &format!("objects/{}", hash));
                        assert_eq!(unpacked_entry(name.split('/').next().unwrap(), false), UnpackedEntry::Objects);
                    }
                }
                ArchiveMember::Directory(p) => {
                    assert!(zip);
                    assert!(sl.files.iter().any(|f| f.is_dir && &f.path == p));
                }
                ArchiveMember::Record(_) => panic!("only one record"),
            }
        }
    }
}

#[test]
fn law_chronological_order_is_unique_on_ties() {
    let ts = strings(&["b", "a", "b", "a", "c"]);
    assert_eq!(chronological_order(&ts), vec![1, 3, 0, 2, 4]);
    assert_eq!(chronological_order(&ts), chronological_order(&ts.clone()));
}

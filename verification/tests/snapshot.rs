use dirdump::content::{
    concatenate_contents, file_block, join_label, path_label, snapshot, write_file_content,
};
use dirdump::rules::{
    any_equal, any_inside, is_excluded, matches_rules, parse_list, text_of, ExclusionRules,
};
use dirdump::tree::{
    build_tree, entry_line, generate_tree_structure, inner_prefix, last_included, name_to_show, Node,
};

fn rules(folders: &[&str], files: &[&str], extensions: &[&str]) -> ExclusionRules {
    ExclusionRules {
        folders: folders.iter().map(|s| s.to_string()).collect(),
        files: files.iter().map(|s| s.to_string()).collect(),
        extensions: extensions.iter().map(|s| s.to_string()).collect(),
    }
}

fn file(path: &str, content: &str) -> Node {
    Node::File { path: path.to_string(), content: content.to_string() }
}

fn dir(path: &str, children: Vec<Node>) -> Node {
    Node::Dir { path: path.to_string(), children }
}

fn proj() -> Node {
    dir(
        "proj",
        vec![
            dir("proj/sub", vec![file("proj/sub/c.txt", "gamma")]),
            file("proj/a.txt", "alpha"),
            file("proj/b.py", "print(1)"),
        ],
    )
}

fn count(text: &str, needle: &str) -> usize {
    text.matches(needle).count()
}

#[test]
fn tree_of_project_without_exclusions() {
    let tree = generate_tree_structure(&proj(), &rules(&[], &[], &[]));
    assert_eq!(
        tree,
        "└── 📁proj\n    ├── 📁sub\n    │   └── c.txt\n    ├── a.txt\n    └── b.py\n"
    );
}

#[test]
fn every_name_appears_once() {
    let tree = generate_tree_structure(&proj(), &rules(&[], &[], &[]));
    assert_eq!(count(&tree, "proj"), 1);
    assert_eq!(count(&tree, "sub"), 1);
    assert_eq!(count(&tree, "a.txt"), 1);
    assert_eq!(count(&tree, "b.py"), 1);
    assert_eq!(count(&tree, "c.txt"), 1);
    assert_eq!(tree.lines().count(), 5);
}

#[test]
fn tree_in_the_other_listing_order() {
    let root = dir(
        "proj",
        vec![
            file("proj/a.txt", ""),
            file("proj/b.py", ""),
            dir("proj/sub", vec![file("proj/sub/c.txt", "")]),
        ],
    );
    let tree = generate_tree_structure(&root, &rules(&[], &[], &[]));
    assert_eq!(
        tree,
        "└── 📁proj\n    ├── a.txt\n    ├── b.py\n    └── 📁sub\n        └── c.txt\n"
    );
}

#[test]
fn excluded_extension_leaves_both_outputs() {
    let r = rules(&[], &[], &["py"]);
    let tree = generate_tree_structure(&proj(), &r);
    assert_eq!(tree, "└── 📁proj\n    ├── 📁sub\n    │   └── c.txt\n    └── a.txt\n");
    let text = concatenate_contents(&proj(), &r);
    assert_eq!(
        text,
        "Path: proj/sub/c.txt\nContent:\n```\ngamma\n```\n\nPath: proj/a.txt\nContent:\n```\nalpha\n```\n\n"
    );
    assert!(!text.contains("b.py"));
}

#[test]
fn excluded_folder_removes_its_subtree() {
    let r = rules(&["sub"], &[], &[]);
    let tree = generate_tree_structure(&proj(), &r);
    assert_eq!(tree, "└── 📁proj\n    ├── a.txt\n    └── b.py\n");
    let text = concatenate_contents(&proj(), &r);
    assert_eq!(
        text,
        "Path: proj/a.txt\nContent:\n```\nalpha\n```\n\nPath: proj/b.py\nContent:\n```\nprint(1)\n```\n\n"
    );
    assert!(!text.contains("c.txt"));
}

#[test]
fn last_branch_is_taken_over_included_entries_only() {
    let root = dir(
        "proj",
        vec![file("proj/a.txt", ""), file("proj/b.txt", ""), file("proj/z.log", "")],
    );
    let tree = generate_tree_structure(&root, &rules(&[], &[], &["log"]));
    assert_eq!(tree, "└── 📁proj\n    ├── a.txt\n    └── b.txt\n");
}

#[test]
fn one_last_glyph_per_directory() {
    let root = dir(
        "d",
        vec![file("d/1", ""), file("d/2", ""), file("d/3", ""), file("d/4", "")],
    );
    let tree = generate_tree_structure(&root, &rules(&[], &[], &[]));
    let below: Vec<&str> = tree.lines().skip(1).collect();
    assert_eq!(below.len(), 4);
    assert_eq!(below.iter().filter(|l| l.starts_with("    └── ")).count(), 1);
    assert_eq!(below.iter().filter(|l| l.starts_with("    ├── ")).count(), 3);
    assert!(below[3].starts_with("    └── "));
}

#[test]
fn nested_indentation_accumulates() {
    let root = dir(
        "r",
        vec![
            dir("r/x", vec![dir("r/x/y", vec![file("r/x/y/f", "")]), file("r/x/g", "")]),
            dir("r/z", vec![file("r/z/h", "")]),
        ],
    );
    let tree = generate_tree_structure(&root, &rules(&[], &[], &[]));
    assert_eq!(
        tree,
        "└── 📁r\n    ├── 📁x\n    │   ├── 📁y\n    │   │   └── f\n    │   └── g\n    └── 📁z\n        └── h\n"
    );
}

#[test]
fn empty_directory_is_one_line() {
    let tree = generate_tree_structure(&dir("empty", vec![]), &rules(&[], &[], &[]));
    assert_eq!(tree, "└── 📁empty\n");
}

#[test]
fn excluded_root_gives_nothing() {
    let r = rules(&["proj"], &[], &[]);
    assert_eq!(generate_tree_structure(&proj(), &r), "");
    assert_eq!(concatenate_contents(&proj(), &r), "");
    assert_eq!(snapshot(&proj(), &r), "\n");
}

#[test]
fn root_without_final_name_is_drawn_by_its_path() {
    let root = dir(".", vec![file("./a.txt", "alpha")]);
    let r = rules(&[], &[], &[]);
    assert_eq!(generate_tree_structure(&root, &r), "└── 📁.\n    └── a.txt\n");
    assert_eq!(concatenate_contents(&root, &r), "Path: /a.txt\nContent:\n```\nalpha\n```\n\n");
    let up = dir("..", vec![dir("../d", vec![file("../d/f", "")]), file("../g", "")]);
    assert_eq!(
        generate_tree_structure(&up, &r),
        "└── 📁..\n    ├── 📁d\n    │   └── f\n    └── g\n"
    );
    assert_eq!(generate_tree_structure(&dir("/", vec![]), &r), "└── 📁/\n");
    assert_eq!(name_to_show("."), ".");
    assert_eq!(name_to_show("a/b/"), "b");
    assert_eq!(name_to_show("a/b.txt"), "b.txt");
}

#[test]
fn entry_line_has_the_exact_form() {
    assert_eq!(entry_line("", true, true, "proj"), "└── 📁proj\n");
    assert_eq!(entry_line("│   ", false, false, "a.txt"), "│   ├── a.txt\n");
    assert_eq!(entry_line("    ", true, false, ""), "    └── \n");
    assert_eq!(entry_line("x", false, true, "d"), "x├── 📁d\n");
    assert_eq!(inner_prefix("", true), "    ");
    assert_eq!(inner_prefix("│   ", false), "│   │   ");
    assert_eq!(inner_prefix("    ", true), "        ");
}

#[test]
fn join_label_puts_a_slash_between() {
    assert_eq!(join_label("proj", "sub/c.txt"), "proj/sub/c.txt");
    assert_eq!(join_label("", "a.txt"), "/a.txt");
    assert_eq!(join_label("proj", ""), "proj/");
}

#[test]
fn one_line_for_each_entry() {
    let root = dir(
        "r",
        vec![
            dir("r/x", vec![dir("r/x/y", vec![file("r/x/y/f", "")]), file("r/x/g", "")]),
            dir("r/z", vec![]),
            file("r/h", ""),
        ],
    );
    let tree = generate_tree_structure(&root, &ExclusionRules::from_lists("", "", ""));
    assert_eq!(tree.lines().count(), 7);
    let fewer = generate_tree_structure(&root, &rules(&["r/x"], &[], &[]));
    assert_eq!(fewer.lines().count(), 3);
}

#[test]
fn build_tree_appends_behind_prefix() {
    let mut out = String::from("head\n");
    build_tree(&file("p/a.txt", ""), &mut out, "│   ", false, &rules(&[], &[], &[]));
    assert_eq!(out, "head\n│   ├── a.txt\n");
    build_tree(&file("p/b.txt", ""), &mut out, "│   ", true, &rules(&[], &[], &[]));
    assert_eq!(out, "head\n│   ├── a.txt\n│   └── b.txt\n");
}

#[test]
fn last_included_skips_excluded_tail() {
    let kids = vec![file("d/a.rs", ""), file("d/b.rs", ""), file("d/c.tmp", "")];
    assert_eq!(last_included(&kids, &rules(&[], &[], &["tmp"])), Some(1));
    assert_eq!(last_included(&kids, &rules(&[], &[], &[])), Some(2));
    assert_eq!(last_included(&kids, &rules(&["d/"], &[], &[])), None);
    assert_eq!(last_included(&Vec::new(), &rules(&[], &[], &[])), None);
}

#[test]
fn folder_rule_is_a_substring_of_the_whole_path() {
    let r = rules(&["venv"], &[], &[]);
    assert!(is_excluded("proj/venv/lib.py", &r));
    assert!(is_excluded("proj/myvenv-notes", &r));
    assert!(is_excluded("venv", &r));
    assert!(!is_excluded("proj/ven/v", &r));
    assert!(!is_excluded("proj/src", &r));
}

#[test]
fn file_rule_is_the_exact_final_name() {
    let r = rules(&[], &["Cargo.lock"], &[]);
    assert!(is_excluded("proj/Cargo.lock", &r));
    assert!(is_excluded("Cargo.lock", &r));
    assert!(!is_excluded("proj/Cargo.lock.bak", &r));
    assert!(!is_excluded("proj/cargo.lock", &r));
    assert!(!is_excluded("proj/Cargo.lock/inner", &r));
    assert!(!is_excluded("proj/xCargo.lock", &r));
}

#[test]
fn extension_rule_is_exact_and_case_sensitive() {
    let r = rules(&[], &[], &["py"]);
    assert!(is_excluded("proj/b.py", &r));
    assert!(is_excluded("proj/a.b.py", &r));
    assert!(!is_excluded("proj/b.PY", &r));
    assert!(!is_excluded("proj/b.pyc", &r));
    assert!(!is_excluded("proj/b.p", &r));
    assert!(!is_excluded("proj/py", &r));
    assert!(!is_excluded("proj.py/readme", &r));
    let tar = rules(&[], &[], &["tar.gz"]);
    assert!(!is_excluded("proj/a.tar.gz", &tar));
    assert!(is_excluded("proj/a.tar.gz", &rules(&[], &[], &["gz"])));
}

#[test]
fn leading_dot_is_no_extension() {
    let r = rules(&[], &[], &["gitignore"]);
    assert!(!is_excluded("proj/.gitignore", &r));
    assert!(is_excluded("proj/x.gitignore", &r));
    assert!(is_excluded("proj/.gitignore", &rules(&[], &[".gitignore"], &[])));
}

#[test]
fn empty_entries_match_nothing() {
    let r = rules(&[""], &[""], &[""]);
    assert!(!is_excluded("proj/a.txt", &r));
    assert!(!is_excluded("proj/Makefile", &r));
    assert!(!is_excluded("proj", &r));
    assert!(!is_excluded("", &r));
    assert!(!is_excluded("..", &r));
    assert!(!is_excluded("/", &r));
    let tree = generate_tree_structure(&proj(), &r);
    assert_eq!(tree.lines().count(), 5);
    let mixed = rules(&["", "sub"], &["", "a.txt"], &["", "py"]);
    assert!(is_excluded("proj/sub", &mixed));
    assert!(is_excluded("proj/a.txt", &mixed));
    assert!(is_excluded("proj/b.py", &mixed));
    assert!(!is_excluded("proj/Makefile", &mixed));
}

#[test]
fn exclusion_is_repeatable() {
    let r = rules(&["target"], &["x.lock"], &["o"]);
    for path in ["a/target/b", "a/x.lock", "a/b.o", "a/b.c", ""] {
        let first = is_excluded(path, &r);
        assert_eq!(is_excluded(path, &r), first);
        assert_eq!(is_excluded(path, &r), first);
    }
    assert!(is_excluded("a/target/b", &r));
    assert!(!is_excluded("a/b.c", &r));
}

#[test]
fn matches_rules_reads_its_three_texts() {
    let r = rules(&["out"], &["notes"], &["md"]);
    assert!(matches_rules("x/out/y", "y", "", &r));
    assert!(matches_rules("x/y", "notes", "", &r));
    assert!(matches_rules("x/y", "y", "md", &r));
    assert!(!matches_rules("x/y", "y", "", &r));
    assert!(!matches_rules("x/notes", "y", "", &r));
    assert!(!matches_rules("x/y.md", "y", "txt", &r));
    assert!(!matches_rules("x/y", "out", "out", &r));
}

#[test]
fn list_searches() {
    let list = vec!["".to_string(), "ab".to_string(), "xyz".to_string()];
    assert!(any_inside("cabd", &list));
    assert!(any_inside("xyz", &list));
    assert!(!any_inside("a-b", &list));
    assert!(!any_inside("", &list));
    assert!(any_equal("ab", &list));
    assert!(!any_equal("cabd", &list));
    assert!(!any_equal("", &list));
    assert!(!any_equal("ab", &Vec::new()));
    assert_eq!(text_of(None), "");
    assert_eq!(text_of(Some("t".to_string())), "t");
}

#[test]
fn block_has_the_exact_form() {
    assert_eq!(
        file_block("proj/a.txt", "line one\nline two"),
        "Path: proj/a.txt\nContent:\n```\nline one\nline two\n```\n"
    );
    assert_eq!(file_block("l", ""), "Path: l\nContent:\n```\n\n```\n");
}

#[test]
fn label_is_root_name_and_relative_path() {
    assert_eq!(path_label("/home/u/proj", "/home/u/proj/sub/c.txt"), "proj/sub/c.txt");
    assert_eq!(path_label("proj", "proj/a.txt"), "proj/a.txt");
    assert_eq!(path_label("proj/", "proj/a.txt"), "proj/a.txt");
    assert_eq!(path_label("/home/u/proj", "/elsewhere/a.txt"), "proj//elsewhere/a.txt");
    assert_eq!(path_label(".", "./a.txt"), "/a.txt");
    assert_eq!(path_label("proj", "proj"), "proj/");
}

#[test]
fn write_file_content_appends_block_and_break() {
    let mut out = String::from("tree\n");
    let block = write_file_content(&mut out, "/w/proj/a.txt", "/w/proj", "alpha");
    assert_eq!(block, "Path: proj/a.txt\nContent:\n```\nalpha\n```\n");
    assert_eq!(out, "tree\nPath: proj/a.txt\nContent:\n```\nalpha\n```\n\n");
}

#[test]
fn snapshot_is_tree_then_blocks() {
    let r = rules(&[], &[], &["py"]);
    let text = snapshot(&proj(), &r);
    let mut expected = generate_tree_structure(&proj(), &r);
    expected.push('\n');
    expected.push_str(&concatenate_contents(&proj(), &r));
    assert_eq!(text, expected);
    assert!(text.starts_with("└── 📁proj\n"));
    assert!(text.ends_with("alpha\n```\n\n"));
}

#[test]
fn diagram_and_blocks_show_the_same_files() {
    for r in [
        rules(&[], &[], &[]),
        rules(&[], &[], &["py"]),
        rules(&["sub"], &[], &[]),
        rules(&[], &["a.txt"], &["txt"]),
    ] {
        let tree = generate_tree_structure(&proj(), &r);
        let text = concatenate_contents(&proj(), &r);
        for (name, label) in
            [("a.txt", "proj/a.txt"), ("b.py", "proj/b.py"), ("c.txt", "proj/sub/c.txt")]
        {
            let in_tree = tree.lines().any(|l| l.ends_with(&format!("── {}", name)));
            let in_text = text.contains(&format!("Path: {}\n", label));
            assert_eq!(in_tree, in_text);
        }
    }
}

#[test]
fn splitting_on_the_marker_recovers_each_content() {
    let root = dir(
        "proj",
        vec![
            file("proj/a.txt", "alpha\nbeta\n"),
            file("proj/e", ""),
            file("proj/b.py", "  indented ``` fence\n\n"),
        ],
    );
    let text = concatenate_contents(&root, &rules(&[], &[], &[]));
    let parts: Vec<&str> = text.split("Path: ").collect();
    assert_eq!(parts.len(), 4);
    assert_eq!(parts[0], "");
    let expected = [
        ("proj/a.txt", "alpha\nbeta\n"),
        ("proj/e", ""),
        ("proj/b.py", "  indented ``` fence\n\n"),
    ];
    for (part, (label, content)) in parts[1..].iter().zip(expected) {
        let head = format!("{}\nContent:\n```\n", label);
        assert!(part.starts_with(&head));
        assert!(part.ends_with("\n```\n\n"));
        assert_eq!(&part[head.len()..part.len() - "\n```\n\n".len()], content);
    }
}

#[test]
fn node_accessors() {
    let f = file("p/a", "x");
    let d = dir("p", vec![]);
    assert_eq!(f.path(), "p/a");
    assert_eq!(d.path(), "p");
    assert!(!f.is_dir());
    assert!(d.is_dir());
}

#[test]
fn list_is_cut_at_commas() {
    assert_eq!(parse_list("a,b,c"), vec!["a", "b", "c"]);
    assert_eq!(parse_list("target"), vec!["target"]);
    assert_eq!(parse_list(""), vec![""]);
    assert_eq!(parse_list(","), vec!["", ""]);
    assert_eq!(parse_list("a,,b,"), vec!["a", "", "b", ""]);
    assert_eq!(parse_list(" a, b"), vec![" a", " b"]);
    assert_eq!(parse_list("säge,📁x"), vec!["säge", "📁x"]);
    for text in ["", "a", "a,b", ",a,,b,", "x.y,z"] {
        let pieces = parse_list(text);
        assert!(pieces.iter().all(|p| !p.contains(',')));
        assert_eq!(pieces.join(","), text);
    }
}

#[test]
fn rules_from_empty_lists_exclude_nothing() {
    let r = ExclusionRules::from_lists("", "", "");
    assert_eq!(r.folders, vec![""]);
    assert_eq!(r.files, vec![""]);
    assert_eq!(r.extensions, vec![""]);
    let tree = generate_tree_structure(&proj(), &r);
    assert_eq!(
        tree,
        "└── 📁proj\n    ├── 📁sub\n    │   └── c.txt\n    ├── a.txt\n    └── b.py\n"
    );
    assert_eq!(concatenate_contents(&proj(), &r).matches("Path: ").count(), 3);
}

#[test]
fn rules_from_lists() {
    let r = ExclusionRules::from_lists("sub,target", "a.txt", "py,rs");
    assert_eq!(r.folders, vec!["sub", "target"]);
    assert_eq!(r.files, vec!["a.txt"]);
    assert_eq!(r.extensions, vec!["py", "rs"]);
    assert_eq!(generate_tree_structure(&proj(), &r), "└── 📁proj\n");
    assert_eq!(concatenate_contents(&proj(), &r), "");
}

#[test]
fn a_run_of_writes_splits_at_the_marker() {
    let files = [
        ("/w/proj/a.txt", "alpha"),
        ("/w/proj/sub/Path.rs", "let p = \"Path:\";\n"),
        ("/w/proj/empty", ""),
        ("/w/proj/P", "P\nPa\nPath\nPath:\n"),
    ];
    let labels = ["proj/a.txt", "proj/sub/Path.rs", "proj/empty", "proj/P"];
    let mut out = String::new();
    for (path, text) in files {
        write_file_content(&mut out, path, "/w/proj", text);
    }
    let parts: Vec<&str> = out.split("Path: ").collect();
    assert_eq!(parts.len(), files.len() + 1);
    assert_eq!(parts[0], "");
    for (i, part) in parts[1..].iter().enumerate() {
        let head = format!("{}\nContent:\n```\n", labels[i]);
        assert!(part.starts_with(&head));
        assert!(part.ends_with("\n```\n\n"));
        assert_eq!(&part[head.len()..part.len() - "\n```\n\n".len()], files[i].1);
    }
}

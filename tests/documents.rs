use pacdec::catalog::{collect_categories, default_first};
use pacdec::diff::{get_declared_pkg_list, get_exp_pkg_list, get_pkg_diff};
use pacdec::edit::{add_pkgs, generate_changes, remove_pkgs, EditError, Placement, RemoveMode};
use pacdec::package::{Category, Package};
use pacdec::persist::{backup_file_name, changed_files, document_text, stamped_name};
use pacdec::store::{parse_document, LoadError, LoadStep, Loader};
use pacdec::tree::{Document, Node};

fn doc(path: &str, text: &str) -> Document {
    parse_document(path.to_string(), text).expect("well-formed")
}

fn pkgs(v: &[&str]) -> Vec<Package> {
    v.iter().map(|s| Package::from_str(s)).collect()
}

fn texts(v: &[Package]) -> Vec<String> {
    v.iter().map(|p| p.to_text()).collect()
}

fn strings(v: &[&str]) -> Vec<String> {
    v.iter().map(|s| s.to_string()).collect()
}

fn count(nodes: &[Node]) -> usize {
    nodes.iter().map(|n| 1 + n.children.as_ref().map_or(0, |c| count(c))).sum()
}

/// Loads `root` from an in-memory set of files, resolving includes against
/// the including file's directory.
fn load(files: &[(&str, &str)], root: &str) -> Result<Vec<Document>, LoadError> {
    let read = |path: &str| -> Document {
        let text = files.iter().find(|(p, _)| *p == path).expect("file exists").1;
        doc(path, text)
    };
    let mut loader = Loader::new();
    loader.enter(read(root))?;
    loop {
        match loader.step() {
            LoadStep::Open { from, target } => {
                let dir = &from[..from.rfind('/').unwrap()];
                let path = format!("{}/{}", dir, target);
                loader.enter(read(&path))?;
            }
            LoadStep::Done => break,
        }
    }
    Ok(loader.finish())
}

#[test]
fn malformed_text_is_a_parse_error() {
    match parse_document("/d/bad.kdl".to_string(), "node {") {
        Err(LoadError::Parse { path, .. }) => assert_eq!(path, "/d/bad.kdl"),
        other => panic!("unexpected {:?}", other),
    }
}

#[test]
fn parse_takes_names_arguments_and_children() {
    let d = doc("/d/a.kdl", "cat:dev {\n    neovim \"editor\" 3\n}\n");
    assert_eq!(d.nodes.len(), 1);
    assert_eq!(d.nodes[0].name, "cat:dev");
    let kids = d.nodes[0].children.as_ref().unwrap();
    assert_eq!(kids[0].name, "neovim");
    assert_eq!(kids[0].args, vec![Some("editor".to_string()), None]);
    assert_eq!(kids[0].leading, "\n    ");
}

#[test]
fn untouched_document_renders_as_read() {
    let text = "// mine\ncat:dev {\n    neovim \"editor\"\n    \"aur/paru\"\n}\n";
    assert_eq!(document_text(&doc("/d/a.kdl", text)), text);
}

#[test]
fn declared_packages_walk_all_categories() {
    let d = doc("/d/a.kdl", "cat:dev {\n    neovim\n    cat:rust { cargo-edit }\n}\nhtop\n@include \"b.kdl\"\n");
    assert_eq!(texts(&get_declared_pkg_list(&vec![d])), strings(&["neovim", "cargo-edit", "htop"]));
}

#[test]
fn declared_packages_are_a_set() {
    let d = doc("/d/a.kdl", "foo\n\"aur/foo\"\nbar\nfoo\n");
    assert_eq!(texts(&get_declared_pkg_list(&vec![d])), strings(&["foo", "bar"]));
}

#[test]
fn diff_of_equal_sets_is_empty() {
    let docs = vec![doc("/d/a.kdl", "cat:uncat {\n    foo\n    bar\n}\n")];
    let (to_add, to_remove) = get_pkg_diff(&docs, &pkgs(&["bar", "foo"]));
    assert!(to_add.is_empty());
    assert!(to_remove.is_empty());
}

#[test]
fn diff_keeps_install_order_and_declaration_order() {
    let docs = vec![doc("/d/a.kdl", "cat:uncat {\n    zed\n    \"aur/yay\"\n    htop\n}\n")];
    let installed = get_exp_pkg_list(
        &strings(&["foo", "bar", "baz", "htop"]),
        &strings(&["[t] [ALPM] installed bar (1)", "[t] [ALPM] installed foo (1)"]),
    );
    let (to_add, to_remove) = get_pkg_diff(&docs, &installed);
    assert_eq!(texts(&to_add), strings(&["baz", "bar", "foo"]));
    assert_eq!(texts(&to_remove), strings(&["zed", "aur/yay"]));
}

#[test]
fn qualified_declaration_matches_plain_installed_name() {
    let docs = vec![doc("/d/a.kdl", "\"aur/paru\"\n")];
    let (to_add, to_remove) = get_pkg_diff(&docs, &pkgs(&["paru"]));
    assert!(to_add.is_empty() && to_remove.is_empty());
}

#[test]
fn insert_into_unique_category() {
    let mut docs = vec![doc("/d/a.kdl", "other\ncat:uncat {\n    foo\n}\nlast\n")];
    let before: Vec<(String, String)> =
        docs[0].nodes.iter().map(|n| (n.name.clone(), n.leading.clone())).collect();
    assert_eq!(add_pkgs(&mut docs, &Category::from_str("uncat"), &pkgs(&["bar"])), Ok(Placement::Unique));
    let after: Vec<(String, String)> =
        docs[0].nodes.iter().map(|n| (n.name.clone(), n.leading.clone())).collect();
    assert_eq!(before, after);
    let kids = docs[0].nodes[1].children.as_ref().unwrap();
    assert_eq!(kids.iter().map(|n| n.name.clone()).collect::<Vec<_>>(), strings(&["foo", "bar"]));
    assert_eq!(kids[1].leading, "    ");
    assert_eq!(document_text(&docs[0]), "other\ncat:uncat {\n    foo\n    bar\n}\nlast\n");
}

#[test]
fn insert_into_missing_category_fails() {
    let mut docs = vec![doc("/d/a.kdl", "cat:uncat {\n    foo\n}\n")];
    let text = document_text(&docs[0]);
    assert_eq!(add_pkgs(&mut docs, &Category::from_str("dev"), &pkgs(&["bar"])), Err(EditError::NoSuchCategory));
    assert_eq!(document_text(&docs[0]), text);
}

#[test]
fn insert_into_ambiguous_category_takes_first() {
    let mut docs = vec![
        doc("/d/a.kdl", "cat:a {\n    cat:tools {\n        x\n    }\n}\n"),
        doc("/d/b.kdl", "cat:tools {\n    y\n}\n"),
    ];
    assert_eq!(add_pkgs(&mut docs, &Category::from_str("tools"), &pkgs(&["z"])), Ok(Placement::Ambiguous));
    let first = docs[0].nodes[0].children.as_ref().unwrap()[0].children.as_ref().unwrap();
    assert_eq!(first.iter().map(|n| n.name.clone()).collect::<Vec<_>>(), strings(&["x", "z"]));
    assert_eq!(first[1].leading, "        ");
    let second = docs[1].nodes[0].children.as_ref().unwrap();
    assert_eq!(second.len(), 1);
}

#[test]
fn insert_with_path_picks_that_place() {
    let mut docs = vec![doc("/d/a.kdl", "cat:tools { x }\ncat:a {\n    cat:tools { y }\n}\n")];
    assert_eq!(add_pkgs(&mut docs, &Category::from_str("a/tools"), &pkgs(&["z"])), Ok(Placement::Unique));
    assert_eq!(docs[0].nodes[0].children.as_ref().unwrap().len(), 1);
    let inner = docs[0].nodes[1].children.as_ref().unwrap()[0].children.as_ref().unwrap();
    assert_eq!(inner.len(), 2);
    assert_eq!(inner[1].name, "z");
}

#[test]
fn insert_keeps_tags_and_repository() {
    let mut docs = vec![doc("/d/a.kdl", "cat:uncat\n")];
    let mut p = Package::from_str("aur/paru");
    p.tags.push("helper".to_string());
    assert_eq!(add_pkgs(&mut docs, &Category::from_str("uncat"), &vec![p]), Ok(Placement::Unique));
    let kids = docs[0].nodes[0].children.as_ref().unwrap();
    assert_eq!(kids[0].name, "aur/paru");
    assert_eq!(kids[0].args, vec![Some("helper".to_string())]);
    let again = doc("/d/a.kdl", &document_text(&docs[0]));
    assert_eq!(texts(&get_declared_pkg_list(&vec![again])), strings(&["aur/paru"]));
}

#[test]
fn comment_mode_keeps_every_node() {
    let mut docs = vec![doc("/d/a.kdl", "cat:uncat {\n    foo\n    bar\n}\nfoo\n")];
    let n = count(&docs[0].nodes);
    remove_pkgs(&mut docs, &pkgs(&["foo"]), RemoveMode::Comment);
    assert_eq!(count(&docs[0].nodes), n);
    let text = document_text(&docs[0]);
    assert_eq!(text, "cat:uncat {\n    /- foo\n    bar\n}\n/- foo\n");
    let again = doc("/d/a.kdl", &text);
    assert_eq!(texts(&get_declared_pkg_list(&vec![again])), strings(&["bar"]));
}

#[test]
fn delete_mode_removes_exactly_the_matches() {
    let mut docs = vec![doc("/d/a.kdl", "cat:uncat {\n    foo\n    \"core/bar\"\n    baz\n}\n\"aur/bar\"\n")];
    remove_pkgs(&mut docs, &pkgs(&["aur/bar"]), RemoveMode::Delete);
    let kids = docs[0].nodes[0].children.as_ref().unwrap();
    assert_eq!(kids.iter().map(|n| n.name.clone()).collect::<Vec<_>>(), strings(&["foo", "core/bar", "baz"]));
    assert_eq!(docs[0].nodes.len(), 1);
    assert_eq!(count(&docs[0].nodes), 4);
}

#[test]
fn categories_carry_their_paths() {
    let docs = vec![
        doc("/d/a.kdl", "cat:dev {\n    cat:rust { cargo }\n}\ncat:uncat\n"),
        doc("/d/b.kdl", "cat:dev\n"),
    ];
    let cats = collect_categories(&docs);
    assert_eq!(cats.iter().map(|c| c.full_path()).collect::<Vec<_>>(), strings(&["dev", "dev/rust", "uncat"]));
}

#[test]
fn default_category_comes_first() {
    let cats = vec![Category::from_str("dev"), Category::from_str("uncat"), Category::from_str("x/uncat")];
    let ordered = default_first(&cats, &Category::from_str("uncat"));
    assert_eq!(ordered.iter().map(|c| c.full_path()).collect::<Vec<_>>(), strings(&["uncat", "dev", "x/uncat"]));
    let same = default_first(&cats, &Category::from_str("none"));
    assert_eq!(same.len(), 3);
}

#[test]
fn include_cycle_fails() {
    let files = [("/d/a.kdl", "@include \"b.kdl\"\nfoo\n"), ("/d/b.kdl", "@include \"a.kdl\"\nbar\n")];
    match load(&files, "/d/a.kdl") {
        Err(LoadError::Cycle { path }) => assert_eq!(path, "/d/a.kdl"),
        other => panic!("unexpected {:?}", other),
    }
}

#[test]
fn diamond_include_loads_and_counts_once() {
    let files = [
        ("/d/a.kdl", "@include \"b.kdl\"\n@include \"b.kdl\"\nfoo\n"),
        ("/d/b.kdl", "bar\n"),
    ];
    let docs = load(&files, "/d/a.kdl").expect("no cycle");
    assert_eq!(docs.iter().map(|d| d.path.clone()).collect::<Vec<_>>(), strings(&["/d/b.kdl", "/d/b.kdl", "/d/a.kdl"]));
    assert_eq!(texts(&get_declared_pkg_list(&docs)), strings(&["bar", "foo"]));
}

#[test]
fn nested_includes_come_before_their_includer() {
    let files = [
        ("/d/a.kdl", "@include \"sub/b.kdl\"\nfoo\n"),
        ("/d/sub/b.kdl", "@include \"c.kdl\"\nbar\n"),
        ("/d/sub/c.kdl", "baz\n"),
    ];
    let docs = load(&files, "/d/a.kdl").expect("no cycle");
    assert_eq!(docs.iter().map(|d| d.path.clone()).collect::<Vec<_>>(), strings(&["/d/sub/c.kdl", "/d/sub/b.kdl", "/d/a.kdl"]));
}

#[test]
fn self_include_is_a_cycle() {
    let files = [("/d/a.kdl", "@include \"a.kdl\"\n")];
    assert!(matches!(load(&files, "/d/a.kdl"), Err(LoadError::Cycle { .. })));
}

#[test]
fn end_to_end_generate() {
    let mut docs = vec![doc("/d/a.kdl", "cat:uncat {\n    foo\n}\n")];
    let installed = get_exp_pkg_list(&strings(&["foo", "bar"]), &strings(&["[t] [ALPM] installed bar (1)"]));
    let (to_add, to_remove) = get_pkg_diff(&docs, &installed);
    assert_eq!(texts(&to_add), strings(&["bar"]));
    assert!(to_remove.is_empty());
    let r = generate_changes(&mut docs, &to_add, &to_remove, &Category::from_str("uncat"));
    assert_eq!(r, Ok(Placement::Unique));
    assert_eq!(document_text(&docs[0]), "cat:uncat {\n    foo\n    bar\n}\n");
    assert_eq!(texts(&get_declared_pkg_list(&docs)), strings(&["foo", "bar"]));
}

#[test]
fn generate_comments_out_and_adds() {
    let mut docs = vec![doc("/d/a.kdl", "cat:uncat {\n    old\n}\n")];
    let r = generate_changes(&mut docs, &pkgs(&["new"]), &pkgs(&["old"]), &Category::from_str("uncat"));
    assert_eq!(r, Ok(Placement::Unique));
    assert_eq!(document_text(&docs[0]), "cat:uncat {\n    /- old\n    new\n}\n");
}

#[test]
fn only_changed_files_are_written() {
    let docs = vec![doc("/d/a.kdl", "foo\n"), doc("/d/b.kdl", "bar\n"), doc("/d/c.kdl", "baz\n")];
    let on_disk = vec![Some("foo\n".to_string()), Some("changed\n".to_string()), None];
    let writes = changed_files(&docs, &on_disk);
    assert_eq!(writes.iter().map(|w| w.path.clone()).collect::<Vec<_>>(), strings(&["/d/b.kdl", "/d/c.kdl"]));
    assert_eq!(writes[0].text, "bar\n");
}

#[test]
fn backup_names_carry_stamp_and_file_name() {
    assert_eq!(stamped_name("20240301_101500", "packages.kdl"), "20240301_101500_packages.kdl");
    let name = backup_file_name("packages.kdl");
    assert!(name.ends_with("_packages.kdl"));
    assert!(name.len() > "_packages.kdl".len());
}

#[test]
fn include_and_unknown_subtrees_are_skipped() {
    let d = doc("/d/a.kdl", "@include \"b.kdl\" {\n    hidden\n}\nx-cat:y {\n    inner\n}\nfoo {\n    bar\n}\n");
    assert_eq!(texts(&get_declared_pkg_list(&vec![d])), strings(&["foo", "bar"]));
}

#[test]
fn a_file_read_twice_is_written_once() {
    let mut docs = vec![
        doc("/d/b.kdl", "cat:uncat\n"),
        doc("/d/b.kdl", "cat:uncat\n"),
        doc("/d/a.kdl", "foo\n"),
    ];
    assert_eq!(add_pkgs(&mut docs, &Category::from_str("uncat"), &pkgs(&["bar"])), Ok(Placement::Ambiguous));
    let on_disk = vec![Some("cat:uncat\n".to_string()), Some("cat:uncat\n".to_string()), Some("foo\n".to_string())];
    let writes = changed_files(&docs, &on_disk);
    assert_eq!(writes.len(), 1);
    assert_eq!(writes[0].path, "/d/b.kdl");
    assert!(writes[0].text.contains("bar"));
}

#[test]
fn indentation_ignores_comments_above() {
    let mut docs = vec![doc("/d/a.kdl", "// packages I want\ncat:uncat {\n    foo\n}\n")];
    assert_eq!(add_pkgs(&mut docs, &Category::from_str("uncat"), &pkgs(&["bar"])), Ok(Placement::Unique));
    let kids = docs[0].nodes[0].children.as_ref().unwrap();
    assert_eq!(kids[1].leading, "    ");
}

#[test]
fn backup_stamp_has_the_time_shape() {
    let name = backup_file_name("packages.kdl");
    let stamp: Vec<char> = name[..name.len() - "_packages.kdl".len()].chars().collect();
    assert!(stamp.len() >= 15);
    assert!(stamp.iter().all(|c| c.is_ascii_digit() || *c == '_' || *c == '+'));
    assert_eq!(stamp[stamp.len() - 7], '_');
}

use pacdec::package::{Category, Package};
use pacdec::tree::{node_kind, NodeKind};

fn pkg(name: &str, repo: Option<&str>) -> Package {
    Package { name: name.to_string(), repository: repo.map(|r| r.to_string()), tags: Vec::new() }
}

#[test]
fn package_reads_repository_before_last_slash() {
    let p = Package::from_str("aur/foo");
    assert_eq!(p.name, "foo");
    assert_eq!(p.repository.as_deref(), Some("aur"));
    assert!(p.tags.is_empty());
}

#[test]
fn package_without_slash_has_no_repository() {
    let p = Package::from_str("firefox");
    assert_eq!(p.name, "firefox");
    assert_eq!(p.repository, None);
}

#[test]
fn package_with_several_slashes_keeps_all_but_last_in_repository() {
    let p = Package::from_str("a/b/c");
    assert_eq!(p.name, "c");
    assert_eq!(p.repository.as_deref(), Some("a/b"));
}

#[test]
fn package_text_form() {
    assert_eq!(pkg("foo", Some("aur")).to_text(), "aur/foo");
    assert_eq!(pkg("foo", None).to_text(), "foo");
}

#[test]
fn package_text_round_trip() {
    for p in [pkg("foo", Some("aur")), pkg("bar", None), pkg("baz", Some("x/y"))] {
        let back = Package::from_str(&p.to_text());
        assert_eq!(back.name, p.name);
        assert_eq!(back.repository, p.repository);
        assert!(back == p);
    }
}

#[test]
fn unqualified_package_equals_any_repository() {
    assert!(pkg("foo", None) == pkg("foo", Some("aur")));
    assert!(pkg("foo", Some("core")) == pkg("foo", None));
    assert!(pkg("foo", None) == pkg("foo", None));
}

#[test]
fn conflicting_repositories_differ() {
    assert!(pkg("foo", Some("core")) != pkg("foo", Some("aur")));
    assert!(pkg("foo", None) != pkg("bar", None));
}

#[test]
fn tags_take_no_part_in_equality() {
    let mut a = pkg("foo", None);
    a.tags.push("gui".to_string());
    assert!(a == pkg("foo", None));
}

#[test]
fn category_reads_path_and_name() {
    let c = Category::from_str("dev/rust/tools");
    assert_eq!(c.name, "tools");
    assert_eq!(c.path, vec!["dev".to_string(), "rust".to_string()]);
    let plain = Category::from_str("uncat");
    assert_eq!(plain.name, "uncat");
    assert!(plain.path.is_empty());
}

#[test]
fn category_full_path() {
    let c = Category { name: "tools".to_string(), path: vec!["dev".to_string(), "rust".to_string()] };
    assert_eq!(c.full_path(), "dev/rust/tools");
    let plain = Category { name: "uncat".to_string(), path: Vec::new() };
    assert_eq!(plain.full_path(), "uncat");
    assert_eq!(Category::from_str("a/b").full_path(), "a/b");
}

#[test]
fn node_names_classify() {
    assert_eq!(node_kind("cat:dev"), NodeKind::Category);
    assert_eq!(node_kind("@include"), NodeKind::Include);
    assert_eq!(node_kind("@includes"), NodeKind::Other);
    assert_eq!(node_kind("firefox"), NodeKind::Package);
    assert_eq!(node_kind("aur/paru"), NodeKind::Package);
    assert_eq!(node_kind("aur/"), NodeKind::Other);
    assert_eq!(node_kind("x-cat:y"), NodeKind::Other);
}

#[test]
fn packages_order_by_name_then_repository() {
    assert!(pkg("a", None) < pkg("b", None));
    assert!(pkg("ab", None) > pkg("a", Some("zzz")));
    assert!(pkg("foo", None) < pkg("foo", Some("aur")));
    assert!(pkg("foo", Some("aur")) < pkg("foo", Some("core")));
    assert_eq!(pkg("foo", Some("aur")).partial_cmp(&pkg("foo", Some("aur"))), Some(std::cmp::Ordering::Equal));
}

#[test]
fn equal_packages_hash_alike() {
    let mut set = std::collections::HashSet::new();
    set.insert(pkg("foo", None));
    set.insert(pkg("foo", Some("aur")));
    set.insert(pkg("bar", None));
    assert_eq!(set.len(), 2);
}

#[test]
fn categories_compare_by_name_and_path() {
    assert!(Category::from_str("a/b") == Category::from_str("a/b"));
    assert!(Category::from_str("a/b") != Category::from_str("b"));
    assert!(Category::from_str("x/b") != Category::from_str("a/b"));
}

use pacdec::diff::get_exp_pkg_list;
use pacdec::log::{log_installed_name, split_words};

fn strings(v: &[&str]) -> Vec<String> {
    v.iter().map(|s| s.to_string()).collect()
}

fn names(v: &[pacdec::package::Package]) -> Vec<String> {
    v.iter().map(|p| p.to_text()).collect()
}

#[test]
fn log_line_names_installed_package() {
    let line = "[2024-03-01T10:00:00+0100] [ALPM] installed firefox (123.0-1)";
    assert_eq!(log_installed_name(line).as_deref(), Some("firefox"));
}

#[test]
fn log_line_without_version() {
    let line = "[2024-03-01T10:00:00+0100] [ALPM] installed htop";
    assert_eq!(log_installed_name(line).as_deref(), Some("htop"));
}

#[test]
fn log_line_with_attached_version() {
    let line = "[2024-03-01T10:00:00+0100] [ALPM] installed htop(3.3.0-1)";
    assert_eq!(log_installed_name(line).as_deref(), Some("htop"));
}

#[test]
fn other_log_lines_name_nothing() {
    assert_eq!(log_installed_name("[2024-03-01T10:00:00+0100] [ALPM] upgraded firefox (1 -> 2)"), None);
    assert_eq!(log_installed_name("[ALPM] installed"), None);
    assert_eq!(log_installed_name(""), None);
}

#[test]
fn words_split_on_any_whitespace() {
    assert_eq!(split_words("  a\tbb  c\n"), strings(&["a", "bb", "c"]));
    assert!(split_words("   ").is_empty());
}

#[test]
fn install_order_follows_first_install() {
    let explicit = strings(&["foo", "bar", "baz"]);
    let log = strings(&[
        "[t] [ALPM] installed glibc (2.39-1)",
        "[t] [ALPM] installed bar (1.0-1)",
        "[t] [ALPM] installed foo (2.0-1)",
        "[t] [ALPM] installed bar (1.1-1)",
    ]);
    let order = get_exp_pkg_list(&explicit, &log);
    assert_eq!(names(&order), strings(&["baz", "bar", "foo"]));
}

#[test]
fn reinstall_keeps_first_position() {
    let explicit = strings(&["a", "b"]);
    let log = strings(&[
        "[t] [ALPM] installed b (1)",
        "[t] [ALPM] installed a (1)",
        "[t] [ALPM] installed b (2)",
    ]);
    assert_eq!(names(&get_exp_pkg_list(&explicit, &log)), strings(&["b", "a"]));
}

#[test]
fn unlogged_packages_keep_given_order_and_appear_once() {
    let explicit = strings(&["z", "y", "z"]);
    assert_eq!(names(&get_exp_pkg_list(&explicit, &Vec::new())), strings(&["z", "y"]));
}

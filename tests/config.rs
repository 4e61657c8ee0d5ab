use pacdec::config::{BackupMode, Config};

#[test]
fn default_config() {
    let c = Config::default();
    assert_eq!(c.package_manager, "paru");
    assert_eq!(c.pacman_log_file, "/var/log/pacman.log");
    assert_eq!(c.default_category.full_path(), "uncat");
    assert!(!c.dry_run);
    assert_eq!(c.backup.dir, ".backups");
    assert_eq!(c.backup.mode, BackupMode::Basic);
    assert!(c.declaration_file.ends_with("/.config/pacdec/packages.kdl"));
    assert!(c.packages.whitelist.is_empty() && c.packages.blacklist.is_empty());
}

#[test]
fn only_basic_mode_copies() {
    assert!(BackupMode::Basic.copies_before_write());
    assert!(!BackupMode::Off.copies_before_write());
    assert!(!BackupMode::Git.copies_before_write());
}

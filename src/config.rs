use vstd::prelude::*;

use crate::package::{Category, Package};

verus! {

/// Where the files and the tools are, and how edits are written back.
pub struct Config {
    pub declaration_file: String,
    pub pacman_log_file: String,
    pub default_category: Category,
    pub package_manager: String,
    pub dry_run: bool,
    pub backup: BackupConfig,
    pub packages: PackagesConfig,
}

/// Packages always wanted, and packages never wanted.
pub struct PackagesConfig {
    pub whitelist: Vec<Package>,
    pub blacklist: Vec<Package>,
}

/// Where backup copies go (a directory beside the file) and how they are
/// kept.
pub struct BackupConfig {
    pub dir: String,
    pub mode: BackupMode,
}

#[derive(PartialEq, Eq, Structural, Clone, Copy, Debug)]
pub enum BackupMode {
    Off,
    Basic,
    Git,
}

impl BackupMode {
    /// Whether a file is copied aside before it is rewritten.
    pub fn copies_before_write(&self) -> (r: bool)
        ensures
            r == (*self == BackupMode::Basic),
    {
        match self {
            BackupMode::Basic => true,
            _ => false,
        }
    }
}

/// Relies on shellexpand's `tilde`: a leading `~` (alone, or before `/`)
/// becomes the home directory when one is known; any other text is left as
/// it is.
#[verifier::external_body]
fn expand_home(path: &str) -> (r: String)
    ensures
        (path@.len() == 0 || path@[0] != '~') ==> r@ == path@,
        path@.len() >= 2 && path@[0] == '~' && path@[1] != '/' ==> r@ == path@,
        path@.len() >= 1 && path@[0] == '~' ==> exists|home: Seq<char>|
            r@ == home + path@.subrange(1, path@.len() as int),
{
    shellexpand::tilde(path).into_owned()
}

impl Default for PackagesConfig {
    fn default() -> (r: PackagesConfig)
        ensures
            r.whitelist@.len() == 0,
            r.blacklist@.len() == 0,
    {
        PackagesConfig { whitelist: Vec::new(), blacklist: Vec::new() }
    }
}

impl Default for Config {
    fn default() -> (r: Config)
        ensures
            r.default_category.name@ == "uncat"@,
            r.default_category.path@.len() == 0,
            r.package_manager@ == "paru"@,
            r.pacman_log_file@ == "/var/log/pacman.log"@,
            !r.dry_run,
            r.backup.dir@ == ".backups"@,
            r.backup.mode == BackupMode::Basic,
            exists|home: Seq<char>| r.declaration_file@ == home + "/.config/pacdec/packages.kdl"@,
            r.packages.whitelist@.len() == 0,
            r.packages.blacklist@.len() == 0,
    {
        let declaration_file = expand_home("~/.config/pacdec/packages.kdl");
        proof {
            reveal_strlit("~/.config/pacdec/packages.kdl");
            reveal_strlit("/.config/pacdec/packages.kdl");
            assert("~/.config/pacdec/packages.kdl"@.subrange(1, 29) =~= "/.config/pacdec/packages.kdl"@);
        }
        Config {
            declaration_file,
            pacman_log_file: String::from_str("/var/log/pacman.log"),
            default_category: Category { name: String::from_str("uncat"), path: Vec::new() },
            package_manager: String::from_str("paru"),
            dry_run: false,
            backup: BackupConfig { dir: String::from_str(".backups"), mode: BackupMode::Basic },
            packages: PackagesConfig { whitelist: Vec::new(), blacklist: Vec::new() },
        }
    }
}

} // verus!

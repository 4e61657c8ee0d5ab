use vstd::prelude::*;

use crate::package::{Category, Package};

verus! {

/// The command line: a command, and the paths that override the defaults.
pub struct Cli {
    pub command: Commands,
    pub config: Option<String>,
    pub declare: Option<String>,
    pub pacman_log_file: Option<String>,
}

pub enum Commands {
    /// Bring the installed packages in line with the declaration.
    Sync(SyncArgs),
    /// Bring the declaration in line with the installed packages.
    Generate(GenerateArgs),
    /// Declare packages.
    Add(AddArgs),
    /// Take packages out of the declaration.
    Remove(RemoveArgs),
    /// Install packages and declare them.
    Install(InstallArgs),
    /// Uninstall packages and take them out of the declaration.
    Uninstall(UninstallArgs),
    /// Pick packages interactively.
    Search(SearchArgs),
    /// Restore the declaration from before the last change.
    Revert(RevertArgs),
}

pub struct SyncArgs {
    pub dry_run: bool,
    pub force: bool,
}

pub struct GenerateArgs {
    pub dry_run: bool,
    pub force: bool,
}

pub struct AddArgs {
    pub packages: Option<Vec<Package>>,
    pub category: Option<Category>,
    pub tags: Option<Vec<String>>,
}

pub struct InstallArgs {
    pub packages: Option<Vec<Package>>,
    pub category: Option<Category>,
    pub tags: Option<Vec<String>>,
}

pub struct RemoveArgs {
    pub packages: Option<Vec<Package>>,
    pub comment: bool,
}

pub struct UninstallArgs {
    pub packages: Option<Vec<Package>>,
    pub comment: bool,
}

pub struct SearchArgs {
    pub explicit: bool,
    pub all: bool,
    pub chronological: bool,
}

pub struct RevertArgs {}

} // verus!

//! Options of a report, as the command line gives them.

use vstd::prelude::*;

verus! {

/// Column on which the report is sorted, and in which direction.
#[derive(Clone, Copy, Debug, PartialEq, Eq, Structural)]
pub enum SortColumn {
    NameAscending,
    NameDescending,
    InstalledSizeAscending,
    InstalledSizeDescending,
}

/// Options of a report.
#[derive(Clone, Debug)]
pub struct Arguments {
    /// Pattern that selects packages by name; all packages when absent.
    pub pkgname_pattern: Option<String>,
    /// Patterns that exclude packages by name.
    pub exclude_pattern: Option<Vec<String>>,
    /// Read the patterns as regular expressions rather than globs.
    pub regex: bool,
    /// Add every package that the selected ones require, directly or not.
    pub recursive_depends_on: bool,
    pub sort: SortColumn,
    /// Show each package's description.
    pub description: bool,
    /// Show sizes in powers of 1000 rather than 1024.
    pub si_unit: bool,
    /// Append a grand total.
    pub total: bool,
    /// Show only the grand total.
    pub quiet: bool,
}

} // verus!

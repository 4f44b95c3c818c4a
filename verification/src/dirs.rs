//! Per-user base directories, following the XDG conventions (and the macOS
//! ones): which variable names a directory, and what stands in when it is
//! missing or not absolute.

use vstd::prelude::*;

verus! {

/// A per-user base directory with a home-relative default.
#[derive(Debug, Clone, Copy, PartialEq, Eq, Structural)]
pub enum BaseDir {
    Data,
    Config,
    Cache,
}

/// The environment variable that names `which`.
pub open spec fn variable_text(which: BaseDir) -> Seq<char> {
    match which {
        BaseDir::Data => "XDG_DATA_HOME"@,
        BaseDir::Config => "XDG_CONFIG_HOME"@,
        BaseDir::Cache => "XDG_CACHE_HOME"@,
    }
}

/// Where `which` lies under the home directory when its variable is of no
/// use.
pub open spec fn home_subdir_text(which: BaseDir, on_macos: bool) -> Seq<char> {
    match which {
        BaseDir::Data => if on_macos {
            "Library/Application Support"@
        } else {
            ".local/share"@
        },
        BaseDir::Config => if on_macos {
            "Library/Application Support"@
        } else {
            ".config"@
        },
        BaseDir::Cache => if on_macos {
            "Library/Caches"@
        } else {
            ".cache"@
        },
    }
}

/// The environment variable that names `which`.
pub fn variable_name(which: BaseDir) -> (r: &'static str)
    ensures
        r@ == variable_text(which),
{
    match which {
        BaseDir::Data => "XDG_DATA_HOME",
        BaseDir::Config => "XDG_CONFIG_HOME",
        BaseDir::Cache => "XDG_CACHE_HOME",
    }
}

/// The path, relative to the home directory, where `which` lies by default.
pub fn home_subdir(which: BaseDir, on_macos: bool) -> (r: &'static str)
    ensures
        r@ == home_subdir_text(which, on_macos),
{
    match which {
        BaseDir::Data => if on_macos {
            "Library/Application Support"
        } else {
            ".local/share"
        },
        BaseDir::Config => if on_macos {
            "Library/Application Support"
        } else {
            ".config"
        },
        BaseDir::Cache => if on_macos {
            "Library/Caches"
        } else {
            ".cache"
        },
    }
}

/// Where a base directory is found.
#[derive(Debug, Clone, Copy, PartialEq, Eq)]
pub enum DirChoice {
    /// The path the environment variable holds.
    Variable,
    /// The home directory with this relative path joined to it.
    UnderHome(&'static str),
    /// Nowhere: neither a usable variable nor a home directory.
    Unknown,
}

/// Whether the home directory variable is used: only when it is set and its
/// path is absolute, so that every directory found from it is absolute too.
/// `home_absolute` is `None` when the variable is unset, and otherwise says
/// whether its path is absolute.
pub fn use_home_dir(home_absolute: Option<bool>) -> (r: bool)
    ensures
        r == (home_absolute == Some(true)),
{
    is_set_absolute(home_absolute)
}

/// Chooses where `which` is found.  Outside macOS: the variable's path when
/// it is set and absolute.  Otherwise (and always on macOS): the default
/// under the home directory, when that is set and absolute; else nowhere.
/// So a directory found is never relative.  `variable_absolute` and
/// `home_absolute` are `None` when the variable is unset, and otherwise say
/// whether its path is absolute.
pub fn choose_base_dir(
    which: BaseDir,
    on_macos: bool,
    variable_absolute: Option<bool>,
    home_absolute: Option<bool>,
) -> (c: DirChoice)
    ensures
        !on_macos && variable_absolute == Some(true) ==> c == DirChoice::Variable,
        (on_macos || variable_absolute != Some(true)) && home_absolute == Some(true) ==> (
        c matches DirChoice::UnderHome(sub) && sub@ == home_subdir_text(which, on_macos)),
        (on_macos || variable_absolute != Some(true)) && home_absolute != Some(true) ==> c
            == DirChoice::Unknown,
{
    if !on_macos && is_set_absolute(variable_absolute) {
        return DirChoice::Variable;
    }
    if is_set_absolute(home_absolute) {
        DirChoice::UnderHome(home_subdir(which, on_macos))
    } else {
        DirChoice::Unknown
    }
}

/// Whether a variable is set to an absolute path.
fn is_set_absolute(variable_absolute: Option<bool>) -> (r: bool)
    ensures
        r == (variable_absolute == Some(true)),
{
    match variable_absolute {
        Some(abs) => abs,
        None => false,
    }
}

/// Whether the runtime directory variable is used: outside macOS, only when
/// it is set and its path is absolute; never on macOS, which has no standard
/// runtime directory; there is no default.
pub fn use_runtime_dir(on_macos: bool, variable_absolute: Option<bool>) -> (r: bool)
    ensures
        r == (!on_macos && variable_absolute == Some(true)),
{
    !on_macos && is_set_absolute(variable_absolute)
}

} // verus!

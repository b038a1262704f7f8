//! Finding the game's table files next to the program or in the working
//! directory.
use vstd::prelude::*;

verus! {

/// Where a file was found.
#[derive(Debug, Clone, Copy, PartialEq, Eq, Structural)]
pub enum PathChoice {
    /// Next to the program.
    ExeSibling,
    /// In the current working directory.
    CwdChild,
}

/// Chooses where to read a file from. Each argument says whether the file
/// exists there, and is `None` when that directory could not be found. The
/// program's directory is preferred.
pub fn path_in_cwd_or_exedir(exe_sibling: Option<bool>, cwd_child: Option<bool>) -> (r: Option<
    PathChoice,
>)
    ensures
        r == (if exe_sibling == Some(true) {
            Some(PathChoice::ExeSibling)
        } else if cwd_child == Some(true) {
            Some(PathChoice::CwdChild)
        } else {
            None
        }),
{
    if let Some(true) = exe_sibling {
        return Some(PathChoice::ExeSibling);
    }
    if let Some(true) = cwd_child {
        return Some(PathChoice::CwdChild);
    }
    None
}

/// The message for a file found in neither place.
pub fn not_found_message(path: &str) -> (r: String)
    ensures
        r@ == "Failed to find '"@ + path@
            + "' relative to chronobot's exe or the current working directory"@,
{
    let mut m = String::from_str("Failed to find '");
    m.append(path);
    m.append("' relative to chronobot's exe or the current working directory");
    m
}

} // verus!

//! The command-line options and what they select.
use vstd::prelude::*;

verus! {

/// The launcher's command-line options.
#[derive(Debug, Clone, Copy, PartialEq, Eq, Structural)]
pub struct Config {
    /// Show entries from ~/Desktop instead of XDG application directories.
    pub desktop_mode: bool,
    /// Open the run dialog for shell commands.
    pub command: bool,
}

/// The window that the launcher opens.
#[derive(Debug, Clone, Copy, PartialEq, Eq, Structural)]
pub enum WindowKind {
    /// The run dialog.
    Command,
    /// The list of applications from the XDG application directories.
    Applications,
    /// The list of entries from ~/Desktop.
    Desktop,
}

impl Config {
    /// The window these options open: the run dialog when asked for, otherwise the
    /// list of desktop entries or of applications.
    pub fn window_kind(&self) -> (k: WindowKind)
        ensures
            k == (if self.command {
                WindowKind::Command
            } else if self.desktop_mode {
                WindowKind::Desktop
            } else {
                WindowKind::Applications
            }),
    {
        if self.command {
            WindowKind::Command
        } else if self.desktop_mode {
            WindowKind::Desktop
        } else {
            WindowKind::Applications
        }
    }
}

/// The title of the entry list window.
pub fn window_title(desktop_mode: bool) -> (r: &'static str)
    ensures
        r@ == (if desktop_mode {
            "Desktop"@
        } else {
            "Waylauncher"@
        }),
{
    if desktop_mode {
        "Desktop"
    } else {
        "Waylauncher"
    }
}

/// The placeholder text of the search entry.
pub fn search_placeholder(desktop_mode: bool) -> (r: &'static str)
    ensures
        r@ == (if desktop_mode {
            "Search desktop entries..."@
        } else {
            "Search applications..."@
        }),
{
    if desktop_mode {
        "Search desktop entries..."
    } else {
        "Search applications..."
    }
}

/// The accessible label of the entry list.
pub fn list_label(desktop_mode: bool) -> (r: &'static str)
    ensures
        r@ == (if desktop_mode {
            "Desktop entries"@
        } else {
            "Applications"@
        }),
{
    if desktop_mode {
        "Desktop entries"
    } else {
        "Applications"
    }
}

} // verus!

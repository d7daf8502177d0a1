//! Where state is kept between runs.

use vstd::prelude::*;

verus! {

/// The directory below which state is kept.
#[derive(Copy, Clone, Debug, PartialEq, Eq, Structural)]
pub enum StateRoot {
    /// The one that `XDG_STATE_HOME` names.
    XdgStateHome,
    /// The home directory.
    Home,
    /// The current directory.
    CurrentDir,
}

/// Chooses the directory by what the environment offers.
pub fn state_root(xdg_state_home: bool, home: bool) -> (root: StateRoot)
    ensures
        root == if xdg_state_home {
            StateRoot::XdgStateHome
        } else if home {
            StateRoot::Home
        } else {
            StateRoot::CurrentDir
        },
{
    if xdg_state_home {
        StateRoot::XdgStateHome
    } else if home {
        StateRoot::Home
    } else {
        StateRoot::CurrentDir
    }
}

/// The path of the pairing directory below the root.
pub fn homekit_path(root: StateRoot) -> (path: &'static str)
    ensures
        path@ == if root == StateRoot::XdgStateHome {
            "led_remote/homekit"@
        } else {
            ".local/state/led_remote/homekit"@
        },
{
    match root {
        StateRoot::XdgStateHome => "led_remote/homekit",
        _ => ".local/state/led_remote/homekit",
    }
}

/// The path of the counter file below the root.
pub fn counter_path(root: StateRoot) -> (path: &'static str)
    ensures
        path@ == if root == StateRoot::XdgStateHome {
            "led_remote/counter"@
        } else {
            ".local/state/led_remote/counter"@
        },
{
    match root {
        StateRoot::XdgStateHome => "led_remote/counter",
        _ => ".local/state/led_remote/counter",
    }
}

} // verus!

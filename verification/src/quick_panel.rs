//! Decisions of the quick-redact panel that the global shortcut summons.

use vstd::prelude::*;

use crate::text::{all_whitespace, is_blank};

verus! {

/// What the shortcut does to the quick panel.
#[derive(Debug, Clone, Copy, PartialEq, Eq, Structural)]
pub enum QuickToggle {
    /// The panel is showing: hide it.
    Hide,
    /// The panel exists but is hidden: show it again.
    Present,
    /// There is no panel yet: build it, then show it.
    Create,
}

/// The shortcut hides a visible panel, shows a hidden one, and builds the
/// panel the first time. `visible` is `None` where the window could not be
/// asked, which counts as hidden.
pub fn toggle_action(window_exists: bool, visible: Option<bool>) -> (a: QuickToggle)
    ensures
        !window_exists ==> a == QuickToggle::Create,
        window_exists && visible == Some(true) ==> a == QuickToggle::Hide,
        window_exists && visible != Some(true) ==> a == QuickToggle::Present,
{
    if !window_exists {
        QuickToggle::Create
    } else if visible.unwrap_or(false) {
        QuickToggle::Hide
    } else {
        QuickToggle::Present
    }
}

/// The clipboard text handed to the panel: none where the clipboard holds
/// no text or only white space.
pub fn clipboard_offer(text: Option<String>) -> (r: Option<String>)
    ensures
        match text {
            Some(t) => if all_whitespace(t@) {
                r is None
            } else {
                r == Some(t)
            },
            None => r is None,
        },
{
    match text {
        Some(t) => {
            if is_blank(t.as_str()) {
                None
            } else {
                Some(t)
            }
        },
        None => None,
    }
}

/// The application to give focus back to when the panel hides: the one that
/// was frontmost when it was summoned, or none (0) where that was this
/// application itself or could not be learned.
pub fn app_to_restore(front_pid: Option<i32>, own_pid: i32) -> (pid: i32)
    ensures
        pid == match front_pid {
            Some(p) => if p == own_pid {
                0
            } else {
                p
            },
            None => 0,
        },
{
    let pid = front_pid.unwrap_or(0);
    if pid == own_pid {
        0
    } else {
        pid
    }
}

} // verus!

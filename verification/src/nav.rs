//! The toolbar's and the menu's page actions.
use vstd::prelude::*;

use crate::text::{chars_of, is_text};

verus! {

/// What a navigation command does to the active tab.
#[derive(Clone, Copy, PartialEq, Eq, Structural, Debug)]
pub enum NavAction {
    Back,
    Forward,
    Reload,
    Stop,
    /// Opens the find bar.
    Find,
    /// 1 zooms in, -1 out, 0 back to 100%.
    Zoom(i32),
    /// 1 goes to the next match, -1 to the previous one.
    FindStep(i32),
}

/// The action a command name stands for.
pub open spec fn spec_nav_action(a: Seq<char>) -> Option<NavAction> {
    if a == "back"@ {
        Some(NavAction::Back)
    } else if a == "forward"@ {
        Some(NavAction::Forward)
    } else if a == "reload"@ {
        Some(NavAction::Reload)
    } else if a == "stop"@ {
        Some(NavAction::Stop)
    } else if a == "find"@ {
        Some(NavAction::Find)
    } else if a == "zoom_in"@ {
        Some(NavAction::Zoom(1i32))
    } else if a == "zoom_out"@ {
        Some(NavAction::Zoom(-1i32))
    } else if a == "zoom_reset"@ {
        Some(NavAction::Zoom(0))
    } else if a == "find_next"@ {
        Some(NavAction::FindStep(1))
    } else if a == "find_prev"@ {
        Some(NavAction::FindStep(-1i32))
    } else {
        None
    }
}

/// The action a command name stands for; other names do nothing.
pub fn nav_action(action: &str) -> (r: Option<NavAction>)
    ensures
        r == spec_nav_action(action@),
{
    let a = chars_of(action);
    let a = a.as_slice();
    if is_text(a, "back") {
        Some(NavAction::Back)
    } else if is_text(a, "forward") {
        Some(NavAction::Forward)
    } else if is_text(a, "reload") {
        Some(NavAction::Reload)
    } else if is_text(a, "stop") {
        Some(NavAction::Stop)
    } else if is_text(a, "find") {
        Some(NavAction::Find)
    } else if is_text(a, "zoom_in") {
        Some(NavAction::Zoom(1))
    } else if is_text(a, "zoom_out") {
        Some(NavAction::Zoom(-1i32))
    } else if is_text(a, "zoom_reset") {
        Some(NavAction::Zoom(0))
    } else if is_text(a, "find_next") {
        Some(NavAction::FindStep(1))
    } else if is_text(a, "find_prev") {
        Some(NavAction::FindStep(-1i32))
    } else {
        None
    }
}

/// What an item of the app menu does.
#[derive(Clone, Copy, PartialEq, Eq, Structural, Debug)]
pub enum MenuAction {
    NewTab,
    CloseTab,
    ReopenTab,
    Downloads,
    FocusAddress,
    Settings,
    /// Any other item is a page action, by its name (see `nav_action`).
    Nav,
}

/// The action of the menu item `id`.
pub open spec fn spec_menu_action(id: Seq<char>) -> MenuAction {
    if id == "new_tab"@ {
        MenuAction::NewTab
    } else if id == "close_tab"@ {
        MenuAction::CloseTab
    } else if id == "reopen_tab"@ {
        MenuAction::ReopenTab
    } else if id == "downloads"@ {
        MenuAction::Downloads
    } else if id == "focus_address"@ {
        MenuAction::FocusAddress
    } else if id == "settings"@ {
        MenuAction::Settings
    } else {
        MenuAction::Nav
    }
}

/// What choosing the menu item `id` does.
pub fn menu_action(id: &str) -> (r: MenuAction)
    ensures
        r == spec_menu_action(id@),
{
    let a = chars_of(id);
    let a = a.as_slice();
    if is_text(a, "new_tab") {
        MenuAction::NewTab
    } else if is_text(a, "close_tab") {
        MenuAction::CloseTab
    } else if is_text(a, "reopen_tab") {
        MenuAction::ReopenTab
    } else if is_text(a, "downloads") {
        MenuAction::Downloads
    } else if is_text(a, "focus_address") {
        MenuAction::FocusAddress
    } else if is_text(a, "settings") {
        MenuAction::Settings
    } else {
        MenuAction::Nav
    }
}

} // verus!

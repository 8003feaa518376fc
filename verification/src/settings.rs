//! The user's settings: layout, search engine, home page, tab sleeping, session and history.
use vstd::prelude::*;

verus! {

/// How the toolbar and the page share the window.
#[derive(Clone, Copy, PartialEq, Eq, Structural, Debug)]
pub enum Mode {
    /// A strip above the page, painted with the page's top-edge color.
    Strip,
    /// The page fills the window; the island floats over it.
    Float,
    /// Like float, but the island hides until the cursor reaches the top edge.
    Autohide,
    /// Classic tab row and address bar.
    Chrome,
    /// Vertical tabs in a sidebar on the left.
    Arc,
    /// The island floats at the bottom of the window.
    Bottom,
}

/// The search engine that typed text which is not an address goes to.
#[derive(Clone, Copy, PartialEq, Eq, Structural, Debug)]
pub enum Search {
    Google,
    Duckduckgo,
    Bing,
    Yandex,
}

impl Search {
    /// The engine's front page.
    pub open spec fn spec_home(self) -> Seq<char> {
        match self {
            Search::Google => "https://www.google.com/"@,
            Search::Duckduckgo => "https://duckduckgo.com/"@,
            Search::Bing => "https://www.bing.com/"@,
            Search::Yandex => "https://ya.ru/"@,
        }
    }

    /// The engine's results page, to be followed by the encoded query.
    pub open spec fn spec_query(self) -> Seq<char> {
        match self {
            Search::Google => "https://www.google.com/search?q="@,
            Search::Duckduckgo => "https://duckduckgo.com/?q="@,
            Search::Bing => "https://www.bing.com/search?q="@,
            Search::Yandex => "https://ya.ru/search/?text="@,
        }
    }

    /// The engine's front page.
    pub fn home(self) -> (r: &'static str)
        ensures
            r@ == self.spec_home(),
    {
        match self {
            Search::Google => "https://www.google.com/",
            Search::Duckduckgo => "https://duckduckgo.com/",
            Search::Bing => "https://www.bing.com/",
            Search::Yandex => "https://ya.ru/",
        }
    }

    /// The engine's results page, to be followed by the encoded query.
    pub fn query(self) -> (r: &'static str)
        ensures
            r@ == self.spec_query(),
    {
        match self {
            Search::Google => "https://www.google.com/search?q=",
            Search::Duckduckgo => "https://duckduckgo.com/?q=",
            Search::Bing => "https://www.bing.com/search?q=",
            Search::Yandex => "https://ya.ru/search/?text=",
        }
    }
}

/// The settings page's choices.
pub struct Settings {
    pub mode: Mode,
    pub search: Search,
    /// New tabs open this; empty means the search engine's home page.
    pub home: String,
    /// Background tabs sleep after this many minutes; 0 turns sleeping off.
    pub sleep_minutes: u64,
    /// Reopen the tabs from last time on start.
    pub restore_session: bool,
    pub save_history: bool,
}

impl Clone for Settings {
    fn clone(&self) -> (r: Self)
        ensures
            r.mode == self.mode,
            r.search == self.search,
            r.home@ == self.home@,
            r.sleep_minutes == self.sleep_minutes,
            r.restore_session == self.restore_session,
            r.save_history == self.save_history,
    {
        Settings {
            mode: self.mode,
            search: self.search,
            home: self.home.clone(),
            sleep_minutes: self.sleep_minutes,
            restore_session: self.restore_session,
            save_history: self.save_history,
        }
    }
}

impl Default for Settings {
    /// The strip layout, Google, the engine's home page, sleeping after ten
    /// minutes, and both the session and the history kept.
    fn default() -> (r: Self)
        ensures
            r.mode == Mode::Strip,
            r.search == Search::Google,
            r.home@ == Seq::<char>::empty(),
            r.sleep_minutes == 10,
            r.restore_session,
            r.save_history,
    {
        Settings {
            mode: Mode::Strip,
            search: Search::Google,
            home: String::new(),
            sleep_minutes: 10,
            restore_session: true,
            save_history: true,
        }
    }
}

} // verus!

//! The logic of a small desktop web browser: what the address bar makes of
//! typed text, which pages are the browser's own, Chrome Web Store extension
//! ids and packages, the tab, history and download state, the settings, and
//! what the browser's scripts exchange with pages.
pub mod text;
pub mod extensions;
pub mod settings;
pub mod urls;
pub mod browser;
pub mod history;
pub mod downloads;
pub mod files;
pub mod suggest;
pub mod nav;
pub mod script;
pub mod updater;
pub mod clock;

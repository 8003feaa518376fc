# browser

A small desktop web browser built on Tauri, with its decision logic written in
Verus and proved against its contracts.

- `src/` is the verified library:
  - `urls` — what the address bar makes of typed text, the browser's own pages
    (`browser://settings`, `browser://downloads`), where the app serves them,
    page-load events, and the PDF viewer's addresses;
  - `browser` — tabs, activation, closing and reopening, sleeping tabs, the
    saved session, page colors, the island, and what the periodic save writes;
  - `history`, `downloads`, `suggest` — the history (bounded, one entry per
    address), the downloads list, and address-bar suggestions;
  - `extensions` — Chrome Web Store ids, the store's download link, CRX
    packages, manifests and localized names, and the extension list's order;
  - `files`, `nav`, `script`, `settings`, `updater`, `text` — file names,
    menu and page actions, what scripts exchange with pages, the settings, and
    character helpers.
- `tests/` runs the library on concrete values.
- `app/` is the program around it: windows and webviews, files, the network,
  the clock, and the floating-point window geometry, zoom factors and
  suggestion scores.

Calls into `url`, `serde_json` and `str::to_lowercase` stand behind small
trusted wrappers whose contracts say what the library relies on.

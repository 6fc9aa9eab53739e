# aries

The core of a terminal Gemini browser, verified with Verus.

- `src/text.rs`: characters of strings, words (`split_whitespace`), lines
  (`lines`), joining words.
- `src/gemtext.rs`: the gemtext parser (`Parser`), the two-letter link labels,
  and what the parser guarantees about headings and labels.
- `src/request.rs`: URL normalisation and request preparation.
- `src/links.rs`: the page's links by label.
- `src/browser.rs`: the browser state machine: key presses, requests, what a
  page displays.
- `src/layout.rs`: screen placement and wrapped page height.
- `app/`: the terminal program (ratatui, crossterm, tui-input,
  tui-scrollview) and the network (openssl).

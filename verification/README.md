# mako_rs

A lightweight Wayland notification daemon, with its decision logic verified
with Verus.

- `src/` is the verified library:
  - `config` – the integer settings (box width and heights, margins, gap,
    how many notifications are stacked, default lifetime, sweep interval);
  - `timeout` – the lifetime a notification gets from its `expire_timeout`
    and urgency;
  - `text` – splitting text into paragraphs and words, wrapping words into
    lines that fit, cutting a word too wide for a line, ending a line with an
    ellipsis; widths are measured by a `fits` test that the caller supplies;
  - `text_laws` – what holds of wrapping whatever the width test: no visible
    character is lost or added, cut words are spelled by their pieces, pieces
    are taken greedily, a cut line fits;
  - `layout` – the lines and height of one notification, and how lines are
    dropped or cut to fit the tallest box;
  - `stack` – the notifications on screen and the queue behind them; every
    operation returns the surface actions (create, destroy, move) to carry out;
  - `stack_laws` – what holds across the stack's operations: the order of
    notifications, closing undoing a show, sweeps leaving nothing expired,
    boxes never overlapping;
  - `server` – what the daemon answers about itself.
- `app/main.rs` is the program: the D-Bus server, Wayland surfaces, cairo
  measuring and drawing, and the event loop that carries out the library's
  actions.
- `tests/` run the library on concrete values.

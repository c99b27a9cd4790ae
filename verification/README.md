# qr-gen

An offline QR code generator: text, URLs and vCards to PNG or SVG, one at a
time or in batches from `.txt` and `.csv` files. The library is written and
proved with Verus; the command line around it is plain Rust.

## Layout

- `src/` — the verified library.
  - `color.rs` — hex colour parsing (`#rgb`, `#rgba`, `#rrggbb`, `#rrggbbaa`,
    `black`, `white`) and `#rrggbb` printing.
  - `vcard.rs` — vCard 3.0 text from `key=value` pairs, with RFC 6350 escaping.
  - `batch.rs` — plain-text and CSV batches, slugs, indexed and sanitized
    file stems.
  - `render.rs` — QR symbols (from the `qrcode` crate) laid out as RGBA pixels
    and encoded to PNG (with the `image` crate), or written out as SVG.
  - `cli.rs` — the command line's decisions: output format, `key=value`
    splitting, output names, option checks and mode.
  - `text.rs` — character helpers (trimming, lowercasing, decimal digits).
- `app/main.rs` — argument parsing with `clap`, file I/O and error messages.
- `tests/` — tests, including PNGs decoded back with `rqrr`.

## What is proved

Every public function states its result exactly, over spec functions on
character sequences. Where an outside crate does the work (QR encoding, PNG
encoding, CSV reading), its result is named and the library's contract is
exact in terms of that name. Proved laws include: printing a colour and
parsing it back keeps its red, green and blue; a second pass of `slugify`
changes nothing; batch stems are distinct, start with their index, sort in
input order and are always non-empty and filesystem-safe; the names tried
for one output file never coincide; escaped vCard values never hold a line
break; PNGs and SVG viewports reach the requested size, with or without a
quiet zone.

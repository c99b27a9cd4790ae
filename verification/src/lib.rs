//! qr-gen core: colour parsing, vCard text, batch input, and QR rendering to
//! PNG or SVG. Everything here works offline.
pub mod batch;
pub mod cli;
pub mod color;
pub mod render;
mod text;
pub mod vcard;

pub use color::{parse_hex, Rgba};
pub use render::{render_png, render_svg, Ecc, RenderOpts};
pub use vcard::build_vcard;

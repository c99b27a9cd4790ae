//! QR rendering: payload text to PNG bytes or an SVG document.
use vstd::prelude::*;
use vstd::string::StringSliceAdditionalSpecFns;

use image::ImageEncoder;

use crate::color::{hex_text, Rgba};
use crate::text::{chars_to_string, decimal, lower_chars, push_decimal, push_str, str_to_chars, trim_chars};

verus! {

/// Error-correction level.
#[derive(Debug, Clone, Copy, PartialEq, Eq, Structural)]
pub enum Ecc {
    Low,
    Medium,
    Quartile,
    High,
}

/// An `--ecc` value that names no level (carried trimmed and lowercased).
#[derive(Debug, Clone, PartialEq, Eq)]
pub struct InvalidEcc(pub String);

/// Everything needed to render one QR code.
#[derive(Debug, Clone)]
pub struct RenderOpts {
    /// Target minimum image edge in pixels: modules are scaled up by a whole
    /// number of pixels to reach at least this.
    pub size: u32,
    pub ecc: Ecc,
    pub fg: Rgba,
    pub bg: Rgba,
    /// Quiet-zone width in modules; 0 disables it.
    pub quiet_zone: u32,
}

/// Why no image was produced.
#[derive(Debug, Clone, Copy, PartialEq, Eq, Structural)]
pub enum RenderError {
    /// The payload is empty.
    EmptyPayload,
    /// The payload does not fit in one QR code at the chosen level.
    TooLarge,
    /// The PNG encoder failed.
    Png,
}

/// The default options: 512 px, medium correction, black on white, a
/// four-module quiet zone.
pub open spec fn default_opts() -> RenderOpts {
    RenderOpts {
        size: 512,
        ecc: Ecc::Medium,
        fg: Rgba { r: 0, g: 0, b: 0, a: 255 },
        bg: Rgba { r: 255, g: 255, b: 255, a: 255 },
        quiet_zone: 4,
    }
}

impl Default for RenderOpts {
    fn default() -> (r: RenderOpts)
        ensures
            r == default_opts(),
    {
        RenderOpts { size: 512, ecc: Ecc::Medium, fg: Rgba::black(), bg: Rgba::white(), quiet_zone: 4 }
    }
}

/// The level a (trimmed, lowercased) `--ecc` value names.
pub open spec fn ecc_named(s: Seq<char>) -> Option<Ecc> {
    if s == "l"@ || s == "low"@ {
        Some(Ecc::Low)
    } else if s == "m"@ || s == "medium"@ {
        Some(Ecc::Medium)
    } else if s == "q"@ || s == "quartile"@ {
        Some(Ecc::Quartile)
    } else if s == "h"@ || s == "high"@ {
        Some(Ecc::High)
    } else {
        None
    }
}

fn is_lit(v: &Vec<char>, lit: &str) -> (b: bool)
    ensures
        b == (v@ == lit@),
{
    crate::color::chars_eq(v, &str_to_chars(lit))
}

impl Ecc {
    /// Parses `l`/`low`, `m`/`medium`, `q`/`quartile` or `h`/`high`, in any
    /// case, surrounding whitespace ignored.
    pub fn parse(s: &str) -> (r: Result<Ecc, InvalidEcc>)
        ensures
            match ecc_named(crate::text::lower_seq(crate::text::trim(s@))) {
                Some(e) => r == Ok::<Ecc, InvalidEcc>(e),
                None => r matches Err(InvalidEcc(v)) && v@ == crate::text::lower_seq(crate::text::trim(s@)),
            },
    {
        let v = lower_chars(&trim_chars(&str_to_chars(s)));
        if is_lit(&v, "l") || is_lit(&v, "low") {
            Ok(Ecc::Low)
        } else if is_lit(&v, "m") || is_lit(&v, "medium") {
            Ok(Ecc::Medium)
        } else if is_lit(&v, "q") || is_lit(&v, "quartile") {
            Ok(Ecc::Quartile)
        } else if is_lit(&v, "h") || is_lit(&v, "high") {
            Ok(Ecc::High)
        } else {
            Err(InvalidEcc(chars_to_string(&v)))
        }
    }
}

impl core::str::FromStr for Ecc {
    type Err = InvalidEcc;

    fn from_str(s: &str) -> (r: Result<Ecc, InvalidEcc>)
        ensures
            match ecc_named(crate::text::lower_seq(crate::text::trim(s@))) {
                Some(e) => r == Ok::<Ecc, InvalidEcc>(e),
                None => r matches Err(InvalidEcc(v)) && v@ == crate::text::lower_seq(crate::text::trim(s@)),
            },
    {
        Ecc::parse(s)
    }
}

// ---------------------------------------------------------------------------
// The `qrcode` crate encodes the symbol; what it yields is named here.

#[verifier::external_type_specification]
#[verifier::external_body]
pub struct ExQrCode(qrcode::QrCode);

#[verifier::external_type_specification]
#[verifier::external_body]
pub struct ExQrError(qrcode::types::QrError);

/// The modules of a QR symbol, row by row, `true` for dark.
pub uninterp spec fn qr_modules(code: qrcode::QrCode) -> Seq<bool>;

/// The number of modules per side of a QR symbol.
pub uninterp spec fn qr_width(code: qrcode::QrCode) -> nat;

/// The symbol `qrcode` builds for the bytes at the level (modules per side
/// and modules), or `None` when they do not fit.
pub uninterp spec fn qr_symbol(data: Seq<u8>, ecc: Ecc) -> Option<(nat, Seq<bool>)>;

/// `QrCode::with_error_correction_level`: the smallest normal QR symbol
/// (version 1 to 40, so 21 to 177 modules per side) that holds the bytes.
#[verifier::external_body]
fn qr_encode(data: &[u8], ecc: Ecc) -> (res: Result<qrcode::QrCode, qrcode::types::QrError>)
    ensures
        res matches Ok(c) ==> qr_symbol(data@, ecc) == Some((qr_width(c), qr_modules(c))),
        res matches Ok(c) ==> 21 <= qr_width(c) <= 177 && qr_modules(c).len() == qr_width(c) * qr_width(c),
        res is Err ==> qr_symbol(data@, ecc) is None,
{
    let level = match ecc {
        Ecc::Low => qrcode::EcLevel::L,
        Ecc::Medium => qrcode::EcLevel::M,
        Ecc::Quartile => qrcode::EcLevel::Q,
        Ecc::High => qrcode::EcLevel::H,
    };
    qrcode::QrCode::with_error_correction_level(data, level)
}

/// `QrCode::width`: modules per side, quiet zone excluded.
#[verifier::external_body]
fn qr_side(code: &qrcode::QrCode) -> (w: usize)
    ensures
        w == qr_width(*code),
{
    code.width()
}

/// `QrCode`'s index `code[(x, y)]`, read as dark (not `Color::Light`).
#[verifier::external_body]
fn qr_dark(code: &qrcode::QrCode, x: usize, y: usize) -> (d: bool)
    requires
        x < qr_width(*code),
        y < qr_width(*code),
    ensures
        d == qr_modules(*code)[y * qr_width(*code) + x],
{
    code[(x, y)] != qrcode::Color::Light
}

// ---------------------------------------------------------------------------
// Geometry

/// The whole number of pixels per module that makes `total` modules at
/// least `size` pixels wide, and at least 1 (`size.div_ceil(total).max(1)`).
pub open spec fn unit_for(size: nat, total: nat) -> nat {
    if (size + total - 1) / (total as int) >= 1 {
        ((size + total - 1) / (total as int)) as nat
    } else {
        1
    }
}

/// Whether module (mx, my) of the bordered grid is dark: inside the border
/// of `qz` modules and dark in the symbol.
pub open spec fn module_at(n: nat, m: Seq<bool>, qz: nat, mx: nat, my: nat) -> bool {
    &&& qz <= mx < qz + n
    &&& qz <= my < qz + n
    &&& m[(my - qz) * n + (mx - qz)]
}

/// The four bytes of pixel (px, py).
pub open spec fn pixel(n: nat, m: Seq<bool>, qz: nat, unit: nat, px: nat, py: nat, fg: Seq<u8>, bg: Seq<u8>) -> Seq<u8> {
    if module_at(n, m, qz, px / unit, py / unit) {
        fg
    } else {
        bg
    }
}

/// The first `k` pixels of row `py`.
pub open spec fn raster_row(n: nat, m: Seq<bool>, qz: nat, unit: nat, py: nat, k: nat, fg: Seq<u8>, bg: Seq<u8>) -> Seq<u8>
    decreases k,
{
    if k == 0 {
        seq![]
    } else {
        raster_row(n, m, qz, unit, py, (k - 1) as nat, fg, bg) + pixel(n, m, qz, unit, (k - 1) as nat, py, fg, bg)
    }
}

/// The first `k` rows of a `dim`-pixel-wide image.
pub open spec fn raster_rows(n: nat, m: Seq<bool>, qz: nat, unit: nat, dim: nat, k: nat, fg: Seq<u8>, bg: Seq<u8>) -> Seq<u8>
    decreases k,
{
    if k == 0 {
        seq![]
    } else {
        raster_rows(n, m, qz, unit, dim, (k - 1) as nat, fg, bg) + raster_row(n, m, qz, unit, (k - 1) as nat, dim, fg, bg)
    }
}

/// The RGBA pixels, row by row, of the symbol with a `qz`-module border and
/// `unit` pixels per module: each module a `unit`-square of `fg` (dark) or
/// `bg` (light).
pub open spec fn raster(n: nat, m: Seq<bool>, qz: nat, unit: nat, fg: Seq<u8>, bg: Seq<u8>) -> Seq<u8> {
    raster_rows(n, m, qz, unit, (n + 2 * qz) * unit, (n + 2 * qz) * unit, fg, bg)
}

/// The border the `qrcode` renderer draws: four modules, or none.
pub open spec fn quiet_modules(quiet: bool) -> nat {
    if quiet {
        4
    } else {
        0
    }
}

/// Sizes that keep every pixel coordinate within `u32`.
pub open spec fn opts_fit(opts: RenderOpts) -> bool {
    opts.size + 2 * opts.quiet_zone + 184 <= u32::MAX
}

/// `QrCode::render::<Rgba<u8>>()` with `quiet_zone(quiet)`, then
/// `min_dimensions(size, size)`, `dark_color`, `light_color`, `build`, and
/// `ImageBuffer::into_raw`. `min_dimensions` counts the border chosen before
/// it, so the module size is `size` over the modules across (symbol plus
/// border) rounded up, and at least 1.
#[verifier::external_body]
fn qr_render_rgba(code: &qrcode::QrCode, size: u32, quiet: bool, dark: [u8; 4], light: [u8; 4]) -> (img: (u32, Vec<u8>))
    requires
        size + 184 <= u32::MAX,
        21 <= qr_width(*code) <= 177,
        qr_modules(*code).len() == qr_width(*code) * qr_width(*code),
    ensures
        img.0 == (qr_width(*code) + 2 * quiet_modules(quiet)) * unit_for(
            size as nat,
            qr_width(*code) + 2 * quiet_modules(quiet),
        ),
        img.1@ == raster(
            qr_width(*code),
            qr_modules(*code),
            quiet_modules(quiet),
            unit_for(size as nat, qr_width(*code) + 2 * quiet_modules(quiet)),
            dark@,
            light@,
        ),
{
    let img = code.render::<image::Rgba<u8>>().quiet_zone(quiet).min_dimensions(size, size).dark_color(
        image::Rgba(dark),
    ).light_color(image::Rgba(light)).build();
    (img.width(), img.into_raw())
}

// ---------------------------------------------------------------------------
// PNG encoding by the `image` crate.

#[verifier::external_type_specification]
#[verifier::external_body]
pub struct ExImageError(image::ImageError);

/// The PNG file `image` writes for RGBA pixels of the given size (`None`
/// when it reports an error).
pub uninterp spec fn png_file(raw: Seq<u8>, width: u32, height: u32) -> Option<Seq<u8>>;

/// `PngEncoder::write_image` of 8-bit RGBA pixels into a byte vector.
#[verifier::external_body]
fn png_encode(raw: &[u8], width: u32, height: u32) -> (res: Result<Vec<u8>, image::ImageError>)
    requires
        raw@.len() == width * height * 4,
    ensures
        res matches Ok(b) ==> png_file(raw@, width, height) == Some(b@),
        res is Err ==> png_file(raw@, width, height) is None,
{
    let mut bytes: Vec<u8> = Vec::new();
    match image::codecs::png::PngEncoder::new(&mut bytes).write_image(
        raw,
        width,
        height,
        image::ExtendedColorType::Rgba8,
    ) {
        Ok(()) => Ok(bytes),
        Err(e) => Err(e),
    }
}

// ---------------------------------------------------------------------------
// Rendering

/// `rows` hold the `n × n` modules `m` row by row.
pub open spec fn matrix_of(rows: Seq<Vec<bool>>, n: nat, m: Seq<bool>) -> bool {
    &&& rows.len() == n
    &&& forall|y: int| 0 <= y < n ==> (#[trigger] rows[y])@.len() == n
    &&& forall|y: int, x: int| #![trigger rows[y]@[x]] 0 <= y < n && 0 <= x < n ==> rows[y]@[x] == m[y * n + x]
}

/// The modules of the symbol as a square matrix (`true` for dark), without
/// the quiet zone.
fn module_matrix(code: &qrcode::QrCode) -> (rows: Vec<Vec<bool>>)
    requires
        21 <= qr_width(*code) <= 177,
    ensures
        matrix_of(rows@, qr_width(*code), qr_modules(*code)),
{
    let width = qr_side(code);
    let mut rows: Vec<Vec<bool>> = Vec::new();
    for y in 0..width
        invariant
            width == qr_width(*code),
            rows@.len() == y,
            forall|k: int| 0 <= k < y ==> (#[trigger] rows@[k])@.len() == width,
            forall|k: int, x: int|
                #![trigger rows@[k]@[x]]
                0 <= k < y && 0 <= x < width ==> rows@[k]@[x] == qr_modules(*code)[k * width + x],
    {
        let mut row: Vec<bool> = Vec::new();
        for x in 0..width
            invariant
                width == qr_width(*code),
                y < width,
                row@.len() == x,
                forall|j: int| 0 <= j < x ==> row@[j] == qr_modules(*code)[y * width + j],
        {
            row.push(qr_dark(code, x, y));
        }
        rows.push(row);
    }
    rows
}

/// The symbol for a non-empty payload.
fn encode(payload: &str, ecc: Ecc) -> (res: Result<qrcode::QrCode, RenderError>)
    ensures
        payload@.len() == 0 ==> res == Err::<qrcode::QrCode, RenderError>(RenderError::EmptyPayload),
        payload@.len() > 0 && qr_symbol(payload.spec_bytes(), ecc) is None ==> res == Err::<
            qrcode::QrCode,
            RenderError,
        >(RenderError::TooLarge),
        payload@.len() > 0 ==> (qr_symbol(payload.spec_bytes(), ecc) matches Some(s) ==> (res matches Ok(c)
            && s == (qr_width(c), qr_modules(c)) && 21 <= qr_width(c) <= 177 && qr_modules(c).len()
            == qr_width(c) * qr_width(c))),
{
    if payload.is_empty() {
        return Err(RenderError::EmptyPayload);
    }
    match qr_encode(payload.as_bytes(), ecc) {
        Ok(c) => Ok(c),
        Err(_) => Err(RenderError::TooLarge),
    }
}

proof fn lemma_unit_bounds(size: nat, total: nat)
    requires
        total >= 1,
    ensures
        unit_for(size, total) >= 1,
        unit_for(size, total) * total <= size + total,
        unit_for(size, total) * total >= size,
{
    let q = (size + total - 1) / (total as int);
    assert(q * total <= size + total - 1) by (nonlinear_arith)
        requires
            q == (size + total - 1) / (total as int),
            total >= 1,
            size >= 0,
    ;
    assert(q * total >= size) by (nonlinear_arith)
        requires
            q == (size + total - 1) / (total as int),
            total >= 1,
            size >= 0,
    ;
}

proof fn lemma_raster_len(n: nat, m: Seq<bool>, qz: nat, unit: nat, fg: Seq<u8>, bg: Seq<u8>)
    requires
        fg.len() == 4,
        bg.len() == 4,
    ensures
        raster(n, m, qz, unit, fg, bg).len() == ((n + 2 * qz) * unit) * ((n + 2 * qz) * unit) * 4,
{
    let dim = (n + 2 * qz) * unit;
    assert forall|py: nat, k: nat| #[trigger] raster_row(n, m, qz, unit, py, k, fg, bg).len() == k * 4 by {
        lemma_row_len(n, m, qz, unit, py, k, fg, bg);
    }
    lemma_rows_len(n, m, qz, unit, dim, dim, fg, bg);
}

proof fn lemma_row_len(n: nat, m: Seq<bool>, qz: nat, unit: nat, py: nat, k: nat, fg: Seq<u8>, bg: Seq<u8>)
    requires
        fg.len() == 4,
        bg.len() == 4,
    ensures
        raster_row(n, m, qz, unit, py, k, fg, bg).len() == k * 4,
    decreases k,
{
    if k > 0 {
        lemma_row_len(n, m, qz, unit, py, (k - 1) as nat, fg, bg);
    }
}

proof fn lemma_rows_len(n: nat, m: Seq<bool>, qz: nat, unit: nat, dim: nat, k: nat, fg: Seq<u8>, bg: Seq<u8>)
    requires
        fg.len() == 4,
        bg.len() == 4,
    ensures
        raster_rows(n, m, qz, unit, dim, k, fg, bg).len() == k * dim * 4,
    decreases k,
{
    if k > 0 {
        lemma_rows_len(n, m, qz, unit, dim, (k - 1) as nat, fg, bg);
        lemma_row_len(n, m, qz, unit, (k - 1) as nat, dim, fg, bg);
        let k1 = (k - 1) as nat;
        assert(k1 * dim * 4 + dim * 4 == k * dim * 4) by (nonlinear_arith)
            requires
                k1 + 1 == k,
        ;
        assert(raster_rows(n, m, qz, unit, dim, k, fg, bg) == raster_rows(n, m, qz, unit, dim, k1, fg, bg)
            + raster_row(n, m, qz, unit, k1, dim, fg, bg));
    } else {
        assert(k * dim * 4 == 0) by (nonlinear_arith)
            requires
                k == 0,
        ;
    }
}

/// Lays the modules out as RGBA pixels with an exact `qz`-module border.
fn paint(
    rows: &Vec<Vec<bool>>,
    n: u32,
    qz: u32,
    unit: u32,
    dim: u32,
    fg: [u8; 4],
    bg: [u8; 4],
    Ghost(m): Ghost<Seq<bool>>,
) -> (raw: Vec<u8>)
    requires
        matrix_of(rows@, n as nat, m),
        1 <= n <= 177,
        unit >= 1,
        qz + n <= u32::MAX,
        dim == (n + 2 * qz) * unit,
    ensures
        raw@ == raster(n as nat, m, qz as nat, unit as nat, fg@, bg@),
{
    let mut raw: Vec<u8> = Vec::new();
    for py in 0..dim
        invariant
            raw@ == raster_rows(n as nat, m, qz as nat, unit as nat, dim as nat, py as nat, fg@, bg@),
            matrix_of(rows@, n as nat, m),
            1 <= n <= 177,
            unit >= 1,
            qz + n <= u32::MAX,
    {
        let ghost before_row = raw@;
        for px in 0..dim
            invariant
                raw@ == before_row + raster_row(n as nat, m, qz as nat, unit as nat, py as nat, px as nat, fg@, bg@),
                matrix_of(rows@, n as nat, m),
                1 <= n <= 177,
                unit >= 1,
                qz + n <= u32::MAX,
        {
            let mx = px / unit;
            let my = py / unit;
            let dark = qz <= mx && mx < qz + n && qz <= my && my < qz + n && rows[(my - qz) as usize][(mx
                - qz) as usize];
            let ghost before = raw@;
            let c = if dark {
                fg
            } else {
                bg
            };
            raw.push(c[0]);
            raw.push(c[1]);
            raw.push(c[2]);
            raw.push(c[3]);
            proof {
                assert(dark == module_at(n as nat, m, qz as nat, (px / unit) as nat, (py / unit) as nat));
                assert(raw@ =~= before + c@);
                assert(raw@ =~= before_row + raster_row(n as nat, m, qz as nat, unit as nat, py as nat, (px + 1) as nat, fg@, bg@));
            }
        }
        assert(raw@ =~= raster_rows(n as nat, m, qz as nat, unit as nat, dim as nat, (py + 1) as nat, fg@, bg@));
    }
    raw
}


/// Hand-lays the PNG pixels with an exact quiet zone of `quiet_zone`
/// modules (used when it differs from the `qrcode` renderer's fixed one).
fn render_png_custom_quiet(code: &qrcode::QrCode, opts: &RenderOpts) -> (img: (u32, Vec<u8>))
    requires
        opts_fit(*opts),
        opts.quiet_zone != 0,
        21 <= qr_width(*code) <= 177,
        qr_modules(*code).len() == qr_width(*code) * qr_width(*code),
    ensures
        img.0 == png_side(qr_width(*code), *opts),
        img.1@ == png_pixels(qr_width(*code), qr_modules(*code), *opts),
{
    let ghost m = qr_modules(*code);
    let rows = module_matrix(code);
    let n = qr_side(code);
    let qz = opts.quiet_zone;
    let total: u32 = n as u32 + 2 * qz;
    proof {
        lemma_unit_bounds(opts.size as nat, total as nat);
    }
    let q = (opts.size + total - 1) / total;
    let unit = if q >= 1 {
        q
    } else {
        1
    };
    assert(unit == unit_for(opts.size as nat, total as nat));
    assert(unit * total <= opts.size + total);
    assert(total * unit <= u32::MAX) by (nonlinear_arith)
        requires
            unit * total <= opts.size + total,
            opts.size + total <= u32::MAX,
    ;
    let dim = total * unit;
    let fg = opts.fg.to_array();
    let bg = opts.bg.to_array();
    let raw = paint(&rows, n as u32, qz, unit, dim, fg, bg, Ghost(m));
    (dim, raw)
}

/// The four bytes of a colour.
pub open spec fn rgba_bytes(c: Rgba) -> Seq<u8> {
    seq![c.r, c.g, c.b, c.a]
}

/// Pixels per module in the PNG: the whole image, border included, is at
/// least `size` wide.
pub open spec fn png_unit(n: nat, opts: RenderOpts) -> nat {
    unit_for(opts.size as nat, (n + 2 * opts.quiet_zone) as nat)
}

/// The PNG's edge length in pixels.
pub open spec fn png_side(n: nat, opts: RenderOpts) -> nat {
    ((n + 2 * opts.quiet_zone) * png_unit(n, opts)) as nat
}

/// The PNG's RGBA pixels for an `n × n` symbol `m`.
pub open spec fn png_pixels(n: nat, m: Seq<bool>, opts: RenderOpts) -> Seq<u8> {
    raster(n, m, opts.quiet_zone as nat, png_unit(n, opts), rgba_bytes(opts.fg), rgba_bytes(opts.bg))
}

/// Renders the payload as PNG bytes: the QR symbol with a quiet zone of
/// `quiet_zone` modules, each module a square of whole pixels, dark modules
/// in `fg` and the rest in `bg`.
pub fn render_png(payload: &str, opts: &RenderOpts) -> (res: Result<Vec<u8>, RenderError>)
    requires
        opts_fit(*opts),
    ensures
        payload@.len() == 0 ==> res == Err::<Vec<u8>, RenderError>(RenderError::EmptyPayload),
        payload@.len() > 0 && qr_symbol(payload.spec_bytes(), opts.ecc) is None ==> res == Err::<
            Vec<u8>,
            RenderError,
        >(RenderError::TooLarge),
        payload@.len() > 0 ==> (qr_symbol(payload.spec_bytes(), opts.ecc) matches Some((n, m)) ==> match png_file(
            png_pixels(n, m, *opts),
            png_side(n, *opts) as u32,
            png_side(n, *opts) as u32,
        ) {
            Some(b) => res matches Ok(v) && v@ == b,
            None => res == Err::<Vec<u8>, RenderError>(RenderError::Png),
        }),
{
    let code = match encode(payload, opts.ecc) {
        Ok(c) => c,
        Err(e) => {
            return Err(e);
        },
    };
    let ghost n_s = qr_width(code);
    let ghost m = qr_modules(code);
    let qz = opts.quiet_zone;
    let fg = opts.fg.to_array();
    let bg = opts.bg.to_array();
    assert(fg@ == rgba_bytes(opts.fg));
    assert(bg@ == rgba_bytes(opts.bg));
    let (dim, raw) = if qz != 4 && qz != 0 {
        render_png_custom_quiet(&code, opts)
    } else {
        proof {
            lemma_unit_bounds(opts.size as nat, n_s + 2 * quiet_modules(qz > 0));
        }
        qr_render_rgba(&code, opts.size, qz > 0, fg, bg)
    };
    proof {
        lemma_raster_len(n_s, m, qz as nat, png_unit(n_s, *opts), fg@, bg@);
    }
    assert(dim == png_side(n_s, *opts));
    assert(raw@ == png_pixels(n_s, m, *opts));
    match png_encode(raw.as_slice(), dim, dim) {
        Ok(b) => Ok(b),
        Err(_) => Err(RenderError::Png),
    }
}

/// The PNG is at least `size` pixels wide, as `--size` promises, with or
/// without a quiet zone.
pub proof fn lemma_png_reaches_size(n: nat, opts: RenderOpts)
    requires
        n >= 1,
    ensures
        png_side(n, opts) >= opts.size,
{
    let t = (n + 2 * opts.quiet_zone) as nat;
    lemma_unit_bounds(opts.size as nat, t);
    let u = png_unit(n, opts);
    assert(t * u == u * t) by (nonlinear_arith);
}

/// The SVG viewport is always at least `size` pixels wide.
pub proof fn lemma_svg_reaches_size(n: nat, opts: RenderOpts)
    requires
        n >= 1,
    ensures
        (n + 2 * opts.quiet_zone) * svg_scale(n, opts) >= opts.size,
{
    let t = (n + 2 * opts.quiet_zone) as nat;
    lemma_unit_bounds(opts.size as nat, t);
    let u = svg_scale(n, opts);
    assert(t * u == u * t) by (nonlinear_arith);
}

/// The PNG and the SVG of one payload have the same edge length and the
/// same module size.
pub proof fn lemma_png_svg_same_geometry(n: nat, opts: RenderOpts)
    ensures
        png_unit(n, opts) == svg_scale(n, opts),
        png_side(n, opts) == (n + 2 * opts.quiet_zone) * svg_scale(n, opts),
{
}

/// The decimal text of a number.
pub open spec fn dec(n: nat) -> Seq<char> {
    decimal(n)
}

/// The XML declaration and the `<svg>` start tag for a `dim`-pixel square.
pub open spec fn svg_head(dim: nat) -> Seq<char> {
    "<?xml version=\"1.0\" encoding=\"UTF-8\"?>\n<svg xmlns=\"http://www.w3.org/2000/svg\" width=\""@
        + dec(dim) + "\" height=\""@ + dec(dim) + "\" viewBox=\"0 0 "@ + dec(dim) + " "@ + dec(dim)
        + "\" shape-rendering=\"crispEdges\">\n"@
}

/// The background rectangle.
pub open spec fn svg_background(dim: nat, bg: Seq<char>) -> Seq<char> {
    "<rect x=\"0\" y=\"0\" width=\""@ + dec(dim) + "\" height=\""@ + dec(dim) + "\" fill=\""@ + bg
        + "\"/>\n"@
}

/// One dark module's square.
pub open spec fn svg_module(px: nat, py: nat, scale: nat) -> Seq<char> {
    "<rect x=\""@ + dec(px) + "\" y=\""@ + dec(py) + "\" width=\""@ + dec(scale) + "\" height=\""@
        + dec(scale) + "\"/>\n"@
}

/// The squares of the dark modules among the first `k` of row `y`.
pub open spec fn svg_row(n: nat, m: Seq<bool>, qz: nat, scale: nat, y: nat, k: nat) -> Seq<char>
    decreases k,
{
    if k == 0 {
        seq![]
    } else {
        let x = (k - 1) as nat;
        svg_row(n, m, qz, scale, y, x) + if m[(y * n + x) as int] {
            svg_module((qz + x) * scale, (qz + y) * scale, scale)
        } else {
            seq![]
        }
    }
}

/// The squares of the dark modules in the first `k` rows.
pub open spec fn svg_rows(n: nat, m: Seq<bool>, qz: nat, scale: nat, k: nat) -> Seq<char>
    decreases k,
{
    if k == 0 {
        seq![]
    } else {
        svg_rows(n, m, qz, scale, (k - 1) as nat) + svg_row(n, m, qz, scale, (k - 1) as nat, n)
    }
}

/// The SVG document: a background square and one square per dark module,
/// grouped under the foreground fill.
pub open spec fn svg_text(n: nat, m: Seq<bool>, qz: nat, scale: nat, fg: Seq<char>, bg: Seq<char>) -> Seq<char> {
    let dim = (n + 2 * qz) * scale;
    svg_head(dim) + svg_background(dim, bg) + "<g fill=\""@ + fg + "\">\n"@ + svg_rows(n, m, qz, scale, n)
        + "</g>\n</svg>\n"@
}

/// The squares of the dark modules among the first `i` modules of an
/// `n`-wide symbol counted row by row: module `k` sits in row `k / n`,
/// column `k % n`, and its square is `scale` pixels wide at the module's
/// place inside a `qz`-module border.
pub open spec fn dark_squares(n: nat, m: Seq<bool>, qz: nat, scale: nat, i: nat) -> Seq<char>
    decreases i,
{
    if i == 0 || n == 0 {
        seq![]
    } else {
        let k = (i - 1) as nat;
        dark_squares(n, m, qz, scale, k) + if m[k as int] {
            "<rect x=\""@ + decimal((qz + k % n) * scale) + "\" y=\""@ + decimal((qz + k / n) * scale)
                + "\" width=\""@ + decimal(scale) + "\" height=\""@ + decimal(scale) + "\"/>\n"@
        } else {
            seq![]
        }
    }
}

proof fn lemma_squares_by_rows(n: nat, m: Seq<bool>, qz: nat, scale: nat, y: nat, x: nat)
    requires
        n > 0,
        x <= n,
    ensures
        dark_squares(n, m, qz, scale, y * n + x) == svg_rows(n, m, qz, scale, y) + svg_row(n, m, qz, scale, y, x),
    decreases y, x,
{
    if x == 0 {
        if y == 0 {
            assert(svg_rows(n, m, qz, scale, 0) + svg_row(n, m, qz, scale, 0, 0) =~= Seq::<char>::empty());
        } else {
            let y1 = (y - 1) as nat;
            lemma_squares_by_rows(n, m, qz, scale, y1, n);
            assert(y1 * n + n == y * n + x) by (nonlinear_arith)
                requires
                    y1 + 1 == y,
                    x == 0,
            ;
            assert(svg_rows(n, m, qz, scale, y) + svg_row(n, m, qz, scale, y, 0) =~= svg_rows(n, m, qz, scale, y));
        }
    } else {
        let x1 = (x - 1) as nat;
        lemma_squares_by_rows(n, m, qz, scale, y, x1);
        let k = y * n + x1;
        assert(k + 1 == y * n + x);
        vstd::arithmetic::div_mod::lemma_fundamental_div_mod_converse(k as int, n as int, y as int, x1 as int);
        assert(k % n == x1 && k / n == y);
        let sq = if m[k as int] {
            svg_module((qz + x1) * scale, (qz + y) * scale, scale)
        } else {
            seq![]
        };
        assert(svg_row(n, m, qz, scale, y, x) == svg_row(n, m, qz, scale, y, x1) + sq);
        assert(dark_squares(n, m, qz, scale, y * n + x) == dark_squares(n, m, qz, scale, k) + sq);
        assert((svg_rows(n, m, qz, scale, y) + svg_row(n, m, qz, scale, y, x1)) + sq =~= svg_rows(n, m, qz, scale, y)
            + (svg_row(n, m, qz, scale, y, x1) + sq));
    }
}

/// The SVG document holds, between the opening of the foreground group and
/// the closing tags, exactly one square per dark module of the symbol, all
/// `n × n` modules taken row by row, and nothing else.
pub proof fn lemma_svg_squares(n: nat, m: Seq<bool>, qz: nat, scale: nat, fg: Seq<char>, bg: Seq<char>)
    ensures
        svg_text(n, m, qz, scale, fg, bg) == svg_head((n + 2 * qz) * scale) + svg_background((n + 2 * qz) * scale, bg)
            + "<g fill=\""@ + fg + "\">\n"@ + dark_squares(n, m, qz, scale, n * n) + "</g>\n</svg>\n"@,
{
    if n > 0 {
        lemma_squares_by_rows(n, m, qz, scale, n, 0);
        assert(svg_rows(n, m, qz, scale, n) + svg_row(n, m, qz, scale, n, 0) =~= svg_rows(n, m, qz, scale, n));
    } else {
        assert(n * n == 0);
        assert(svg_rows(n, m, qz, scale, n) == Seq::<char>::empty());
    }
}

/// `t` occurs in `s`.
pub open spec fn occurs(s: Seq<char>, t: Seq<char>) -> bool {
    exists|i: int| 0 <= i && i + t.len() <= s.len() && #[trigger] s.subrange(i, i + t.len()) == t
}

proof fn lemma_occurs_extend(a: Seq<char>, b: Seq<char>, t: Seq<char>)
    ensures
        occurs(a, t) ==> occurs(a + b, t),
        occurs(b, t) ==> occurs(a + b, t),
{
    if occurs(a, t) {
        let i = choose|i: int| 0 <= i && i + t.len() <= a.len() && #[trigger] a.subrange(i, i + t.len()) == t;
        assert((a + b).subrange(i, i + t.len()) =~= a.subrange(i, i + t.len()));
    }
    if occurs(b, t) {
        let i = choose|i: int| 0 <= i && i + t.len() <= b.len() && #[trigger] b.subrange(i, i + t.len()) == t;
        let j = a.len() + i;
        assert((a + b).subrange(j, j + t.len()) =~= b.subrange(i, i + t.len()));
    }
}

proof fn lemma_row_draws(n: nat, m: Seq<bool>, qz: nat, scale: nat, y: nat, k: nat, x: nat)
    requires
        x < k,
        m[(y * n + x) as int],
    ensures
        occurs(svg_row(n, m, qz, scale, y, k), svg_module((qz + x) * scale, (qz + y) * scale, scale)),
    decreases k,
{
    let k1 = (k - 1) as nat;
    let t = svg_module((qz + x) * scale, (qz + y) * scale, scale);
    let sq = if m[(y * n + k1) as int] {
        svg_module((qz + k1) * scale, (qz + y) * scale, scale)
    } else {
        seq![]
    };
    assert(svg_row(n, m, qz, scale, y, k) == svg_row(n, m, qz, scale, y, k1) + sq);
    lemma_occurs_extend(svg_row(n, m, qz, scale, y, k1), sq, t);
    if x == k1 {
        assert(sq == t);
        assert(sq.subrange(0int, 0int + t.len()) =~= t);
        assert(occurs(sq, t));
    } else {
        lemma_row_draws(n, m, qz, scale, y, k1, x);
    }
}

proof fn lemma_rows_draw(n: nat, m: Seq<bool>, qz: nat, scale: nat, k: nat, x: nat, y: nat)
    requires
        x < n,
        y < k,
        m[(y * n + x) as int],
    ensures
        occurs(svg_rows(n, m, qz, scale, k), svg_module((qz + x) * scale, (qz + y) * scale, scale)),
    decreases k,
{
    let k1 = (k - 1) as nat;
    let t = svg_module((qz + x) * scale, (qz + y) * scale, scale);
    lemma_occurs_extend(svg_rows(n, m, qz, scale, k1), svg_row(n, m, qz, scale, k1, n), t);
    if y == k1 {
        lemma_row_draws(n, m, qz, scale, y, n, x);
    } else {
        lemma_rows_draw(n, m, qz, scale, k1, x, y);
    }
}

/// Every dark module (x, y) of the symbol, in every row and column, has its
/// square in the SVG: `scale` pixels wide at ((qz + x)·scale, (qz + y)·scale).
pub proof fn lemma_svg_draws_dark_modules(
    n: nat,
    m: Seq<bool>,
    qz: nat,
    scale: nat,
    fg: Seq<char>,
    bg: Seq<char>,
    x: nat,
    y: nat,
)
    requires
        x < n,
        y < n,
        m[(y * n + x) as int],
    ensures
        occurs(
            svg_text(n, m, qz, scale, fg, bg),
            "<rect x=\""@ + decimal((qz + x) * scale) + "\" y=\""@ + decimal((qz + y) * scale) + "\" width=\""@
                + decimal(scale) + "\" height=\""@ + decimal(scale) + "\"/>\n"@,
        ),
{
    let dim = (n + 2 * qz) * scale;
    let t = svg_module((qz + x) * scale, (qz + y) * scale, scale);
    lemma_rows_draw(n, m, qz, scale, n, x, y);
    let pre = svg_head(dim) + svg_background(dim, bg) + "<g fill=\""@ + fg + "\">\n"@;
    let rows = svg_rows(n, m, qz, scale, n);
    lemma_occurs_extend(pre, rows, t);
    lemma_occurs_extend(pre + rows, "</g>\n</svg>\n"@, t);
}

/// Pixels per module in the SVG: the viewport is at least `size` wide.
pub open spec fn svg_scale(n: nat, opts: RenderOpts) -> nat {
    unit_for(opts.size as nat, (n + 2 * opts.quiet_zone) as nat)
}

fn push_dec(out: &mut Vec<char>, n: u32)
    ensures
        final(out)@ == old(out)@ + dec(n as nat),
{
    push_decimal(out, n as u64);
}

/// Renders the payload as an SVG document: a background square and one
/// square per dark module, with an exact quiet zone of `quiet_zone` modules.
pub fn render_svg(payload: &str, opts: &RenderOpts) -> (res: Result<String, RenderError>)
    requires
        opts_fit(*opts),
    ensures
        payload@.len() == 0 ==> res == Err::<String, RenderError>(RenderError::EmptyPayload),
        payload@.len() > 0 && qr_symbol(payload.spec_bytes(), opts.ecc) is None ==> res == Err::<
            String,
            RenderError,
        >(RenderError::TooLarge),
        payload@.len() > 0 ==> (qr_symbol(payload.spec_bytes(), opts.ecc) matches Some((n, m)) ==> (res matches Ok(
            s,
        ) && s@ == svg_text(
            n,
            m,
            opts.quiet_zone as nat,
            svg_scale(n, *opts),
            hex_text(opts.fg),
            hex_text(opts.bg),
        ))),
{
    let code = match encode(payload, opts.ecc) {
        Ok(c) => c,
        Err(e) => {
            return Err(e);
        },
    };
    let ghost m = qr_modules(code);
    let rows = module_matrix(&code);
    let n = qr_side(&code);
    let n32 = n as u32;
    let qz = opts.quiet_zone;
    let total: u32 = n32 + 2 * qz;
    proof {
        lemma_unit_bounds(opts.size as nat, total as nat);
    }
    let q = (opts.size + total - 1) / total;
    let scale = if q >= 1 {
        q
    } else {
        1
    };
    assert(scale == svg_scale(n as nat, *opts));
    assert(scale * total <= opts.size + total);
    assert(total * scale <= u32::MAX) by (nonlinear_arith)
        requires
            scale * total <= opts.size + total,
            opts.size + total <= u32::MAX,
    ;
    let dim = total * scale;
    let fg = str_to_chars(opts.fg.to_hex().as_str());
    let bg = str_to_chars(opts.bg.to_hex().as_str());
    let mut svg: Vec<char> = Vec::new();
    push_str(&mut svg, "<?xml version=\"1.0\" encoding=\"UTF-8\"?>\n<svg xmlns=\"http://www.w3.org/2000/svg\" width=\"");
    push_dec(&mut svg, dim);
    push_str(&mut svg, "\" height=\"");
    push_dec(&mut svg, dim);
    push_str(&mut svg, "\" viewBox=\"0 0 ");
    push_dec(&mut svg, dim);
    push_str(&mut svg, " ");
    push_dec(&mut svg, dim);
    push_str(&mut svg, "\" shape-rendering=\"crispEdges\">\n");
    push_str(&mut svg, "<rect x=\"0\" y=\"0\" width=\"");
    push_dec(&mut svg, dim);
    push_str(&mut svg, "\" height=\"");
    push_dec(&mut svg, dim);
    push_str(&mut svg, "\" fill=\"");
    crate::text::push_chars(&mut svg, &bg);
    push_str(&mut svg, "\"/>\n");
    push_str(&mut svg, "<g fill=\"");
    crate::text::push_chars(&mut svg, &fg);
    push_str(&mut svg, "\">\n");
    let ghost head = svg_head(dim as nat) + svg_background(dim as nat, bg@) + "<g fill=\""@ + fg@ + "\">\n"@;
    assert(svg@ =~= head);
    for y in 0..n
        invariant
            svg@ == head + svg_rows(n as nat, m, qz as nat, scale as nat, y as nat),
            matrix_of(rows@, n as nat, m),
            n <= 177,
            n32 == n,
            qz + n32 <= total,
            total * scale <= u32::MAX,
    {
        let ghost before_row = svg@;
        for x in 0..n
            invariant
                svg@ == before_row + svg_row(n as nat, m, qz as nat, scale as nat, y as nat, x as nat),
                matrix_of(rows@, n as nat, m),
                y < n,
                n <= 177,
                n32 == n,
                qz + n32 <= total,
                total * scale <= u32::MAX,
        {
            let ghost before = svg@;
            if rows[y][x] {
                assert((qz + x) * scale <= total * scale && (qz + y) * scale <= total * scale) by (nonlinear_arith)
                    requires
                        qz + x <= total,
                        qz + y <= total,
                ;
                let px: u32 = (qz + x as u32) * scale;
                let py: u32 = (qz + y as u32) * scale;
                push_str(&mut svg, "<rect x=\"");
                push_dec(&mut svg, px);
                push_str(&mut svg, "\" y=\"");
                push_dec(&mut svg, py);
                push_str(&mut svg, "\" width=\"");
                push_dec(&mut svg, scale);
                push_str(&mut svg, "\" height=\"");
                push_dec(&mut svg, scale);
                push_str(&mut svg, "\"/>\n");
                assert(svg@ =~= before + svg_module(px as nat, py as nat, scale as nat));
            }
            assert(svg@ =~= before_row + svg_row(n as nat, m, qz as nat, scale as nat, y as nat, (x + 1) as nat));
        }
        assert(svg@ =~= head + svg_rows(n as nat, m, qz as nat, scale as nat, (y + 1) as nat));
    }
    push_str(&mut svg, "</g>\n</svg>\n");
    assert(svg@ =~= svg_text(n as nat, m, qz as nat, scale as nat, fg@, bg@));
    Ok(chars_to_string(&svg))
}

} // verus!

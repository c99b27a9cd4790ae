use qr_gen::color::Rgba;
use qr_gen::render::{render_png, render_svg, Ecc, InvalidEcc, RenderError, RenderOpts};

#[test]
fn ecc_parses() {
    assert_eq!("l".parse::<Ecc>().unwrap(), Ecc::Low);
    assert_eq!("M".parse::<Ecc>().unwrap(), Ecc::Medium);
    assert_eq!("quartile".parse::<Ecc>().unwrap(), Ecc::Quartile);
    assert_eq!("H".parse::<Ecc>().unwrap(), Ecc::High);
    assert!("z".parse::<Ecc>().is_err());
}

#[test]
fn png_is_valid_and_nonempty() {
    let opts = RenderOpts::default();
    let png = render_png("https://example.com", &opts).unwrap();
    assert!(png.len() > 100);
    // PNG magic bytes.
    assert_eq!(&png[0..8], b"\x89PNG\r\n\x1a\n");
}

#[test]
fn svg_contains_markup() {
    let opts = RenderOpts::default();
    let svg = render_svg("https://example.com", &opts).unwrap();
    assert!(svg.contains("<svg"));
    assert!(svg.contains("<rect"));
    assert!(svg.contains("</svg>"));
}

#[test]
fn empty_payload_errors() {
    assert!(render_png("", &RenderOpts::default()).is_err());
    assert!(render_svg("", &RenderOpts::default()).is_err());
}

#[test]
fn custom_quiet_zone_changes_size() {
    let small = RenderOpts { quiet_zone: 0, ..Default::default() };
    let big = RenderOpts { quiet_zone: 10, ..Default::default() };
    let a = render_png("hello", &small).unwrap();
    let b = render_png("hello", &big).unwrap();
    assert_ne!(a.len(), b.len());
}

fn png_size(png: &[u8]) -> (u32, u32) {
    let img = image::load_from_memory(png).unwrap();
    (img.width(), img.height())
}

#[test]
fn default_options() {
    let o = RenderOpts::default();
    assert_eq!(o.size, 512);
    assert_eq!(o.ecc, Ecc::Medium);
    assert_eq!(o.fg, Rgba::black());
    assert_eq!(o.bg, Rgba::white());
    assert_eq!(o.quiet_zone, 4);
}

#[test]
fn ecc_aliases_and_error() {
    assert_eq!(Ecc::parse(" Low "), Ok(Ecc::Low));
    assert_eq!(Ecc::parse("MEDIUM"), Ok(Ecc::Medium));
    assert_eq!(Ecc::parse("q"), Ok(Ecc::Quartile));
    assert_eq!(Ecc::parse("high"), Ok(Ecc::High));
    assert_eq!(Ecc::parse(" X "), Err(InvalidEcc("x".to_string())));
}

#[test]
fn render_error_variants() {
    let opts = RenderOpts::default();
    assert_eq!(render_png("", &opts), Err(RenderError::EmptyPayload));
    assert_eq!(render_svg("", &opts), Err(RenderError::EmptyPayload));
    let huge = "x".repeat(5000);
    assert_eq!(render_png(&huge, &opts), Err(RenderError::TooLarge));
    assert_eq!(render_svg(&huge, &opts), Err(RenderError::TooLarge));
}

#[test]
fn png_geometry() {
    // "hello" at level M is a version-1 symbol: 21 modules per side.
    let p = |qz: u32, size: u32| {
        png_size(&render_png("hello", &RenderOpts { quiet_zone: qz, size, ..Default::default() }).unwrap())
    };
    // Default quiet zone: 29 modules of ceil(512 / 29) = 18 px.
    assert_eq!(p(4, 512), (522, 522));
    // No quiet zone: 21 modules of ceil(512 / 21) = 25 px, still at least 512.
    assert_eq!(p(0, 512), (525, 525));
    // Exact custom zone: 21 + 20 = 41 modules of ceil(512 / 41) = 13 px.
    assert_eq!(p(10, 512), (533, 533));
    assert_eq!(p(1, 0), (23, 23));
}

#[test]
fn svg_geometry_and_squares() {
    let svg = render_svg("hello", &RenderOpts { quiet_zone: 1, size: 46, ..Default::default() }).unwrap();
    // 23 modules of 2 px.
    assert!(svg.starts_with(
        "<?xml version=\"1.0\" encoding=\"UTF-8\"?>\n<svg xmlns=\"http://www.w3.org/2000/svg\" \
         width=\"46\" height=\"46\" viewBox=\"0 0 46 46\" shape-rendering=\"crispEdges\">\n\
         <rect x=\"0\" y=\"0\" width=\"46\" height=\"46\" fill=\"#ffffff\"/>\n<g fill=\"#000000\">\n"
    ));
    // The top-left finder pattern starts at module (1, 1).
    assert!(svg.contains("<rect x=\"2\" y=\"2\" width=\"2\" height=\"2\"/>\n"));
    assert!(svg.ends_with("</g>\n</svg>\n"));
}

#[test]
fn png_pixels_follow_the_modules() {
    let opts = RenderOpts {
        quiet_zone: 2,
        size: 50,
        fg: Rgba { r: 10, g: 20, b: 30, a: 255 },
        bg: Rgba { r: 200, g: 210, b: 220, a: 255 },
        ..Default::default()
    };
    let png = render_png("hello", &opts).unwrap();
    let img = image::load_from_memory(&png).unwrap().to_rgba8();
    // 25 modules of 2 px: the border is background, the finder corner foreground.
    assert_eq!(img.width(), 50);
    assert_eq!(img.get_pixel(0, 0).0, [200, 210, 220, 255]);
    assert_eq!(img.get_pixel(4, 4).0, [10, 20, 30, 255]);
    assert_eq!(img.get_pixel(5, 5).0, [10, 20, 30, 255]);
}

#[test]
fn png_and_svg_share_geometry() {
    let opts = RenderOpts { quiet_zone: 10, ..Default::default() };
    let (w, h) = png_size(&render_png("hello", &opts).unwrap());
    assert_eq!((w, h), (533, 533));
    let svg = render_svg("hello", &opts).unwrap();
    assert!(svg.contains("width=\"533\" height=\"533\" viewBox=\"0 0 533 533\""));
    assert!(svg.contains("<rect x=\"130\" y=\"130\" width=\"13\" height=\"13\"/>\n"));
}

#[test]
fn png_reaches_size_without_quiet_zone() {
    for size in [1u32, 100, 512, 1000] {
        let opts = RenderOpts { quiet_zone: 0, size, ..Default::default() };
        let (w, _) = png_size(&render_png("https://example.com", &opts).unwrap());
        assert!(w >= size, "{w} < {size}");
        let svg = render_svg("https://example.com", &opts).unwrap();
        assert!(svg.contains(&format!("width=\"{w}\" height=\"{w}\"")));
    }
}

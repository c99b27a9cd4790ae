use qr_gen::cli::{
    candidate_name, default_extension, default_output, parse_kv_pairs, plan_run, resolve_format, Format,
    Mode, NotKeyValue, RunError,
};
use qr_gen::color::ColorError;
use qr_gen::batch::parse_batch;
use qr_gen::render::{render_png, render_svg, Ecc, RenderOpts};
use qr_gen::vcard::build_vcard;

fn decode(png: &[u8]) -> String {
    let img = image::load_from_memory(png).unwrap().to_luma8();
    let mut prep = rqrr::PreparedImage::prepare(img);
    let grids = prep.detect_grids();
    assert!(!grids.is_empty());
    grids[0].decode().expect("decode").1
}

/// Renders one payload in the format a run picks, as the command line does.
fn render_as(payload: &str, fmt: Format, opts: &RenderOpts) -> Vec<u8> {
    match fmt {
        Format::Png => render_png(payload, opts).unwrap(),
        Format::Svg => render_svg(payload, opts).unwrap().into_bytes(),
    }
}

#[test]
fn format_inference_from_extension() {
    assert_eq!(resolve_format(false, Some("a.svg")), Format::Svg);
    assert_eq!(resolve_format(false, Some("a.SVG")), Format::Svg);
    assert_eq!(resolve_format(false, Some("a.png")), Format::Png);
    assert_eq!(resolve_format(false, None), Format::Png);
    // --svg flag overrides a .png extension.
    assert_eq!(resolve_format(true, Some("a.png")), Format::Svg);
}

#[test]
fn kv_parsing() {
    let p = parse_kv_pairs(&["name=Jane Doe".into(), "email=a@b.com".into()]).unwrap();
    assert_eq!(p[0], ("name".into(), "Jane Doe".into()));
    assert_eq!(p[1], ("email".into(), "a@b.com".into()));
    assert!(parse_kv_pairs(&["noequals".into()]).is_err());
}

#[test]
fn value_with_equals_sign_preserved() {
    let p = parse_kv_pairs(&["url=https://x.com/?a=b".into()]).unwrap();
    assert_eq!(p[0].1, "https://x.com/?a=b");
}

#[test]
fn kv_key_trimmed_value_kept() {
    let p = parse_kv_pairs(&[" name =  Jane ".into(), "=x".into()]).unwrap();
    assert_eq!(p[0], ("name".into(), "  Jane ".into()));
    assert_eq!(p[1], ("".into(), "x".into()));
    assert_eq!(
        parse_kv_pairs(&["a=1".into(), "bad".into(), "worse".into()]),
        Err(NotKeyValue("bad".to_string()))
    );
}

#[test]
fn output_names() {
    assert_eq!(default_extension(Format::Png), "png");
    assert_eq!(default_extension(Format::Svg), "svg");
    assert_eq!(default_output(false, Format::Png), "qr.png");
    assert_eq!(default_output(true, Format::Svg), "vcard.svg");
    assert_eq!(candidate_name("alpha", "png", 1), "alpha.png");
    assert_eq!(candidate_name("alpha", "png", 2), "alpha-2.png");
    assert_eq!(candidate_name("alpha", "svg", 9999), "alpha-9999.svg");
}

#[test]
fn format_inference_edge_cases() {
    assert_eq!(resolve_format(false, Some("out/.svg")), Format::Png);
    assert_eq!(resolve_format(false, Some("dir.svg/out")), Format::Png);
    assert_eq!(resolve_format(false, Some("x.Svg/")), Format::Svg);
}

#[test]
fn invalid_hex_color_exits_nonzero_with_clear_stderr() {
    let r = plan_run("#zzzzzz", "#ffffff", 512, Ecc::Medium, 4, false, false, true);
    assert_eq!(r.unwrap_err(), RunError::Fg(ColorError::NotHex));
}

#[test]
fn no_input_exits_nonzero() {
    let r = plan_run("#000000", "#ffffff", 512, Ecc::Medium, 4, false, false, false);
    assert_eq!(r.unwrap_err(), RunError::NoInput);
}

#[test]
fn bad_ecc_value_rejected_by_clap() {
    assert!("z".parse::<Ecc>().is_err());
}

#[test]
fn zero_size_rejected() {
    let r = plan_run("#000000", "#ffffff", 0, Ecc::Medium, 4, false, false, true);
    assert_eq!(r.unwrap_err(), RunError::ZeroSize);
}

#[test]
fn vcard_mode_writes_and_decodes() {
    let pairs =
        parse_kv_pairs(&["name=Jane Doe".into(), "email=jane@x.com".into(), "phone=+15551234".into()]).unwrap();
    let (opts, mode) = plan_run("#000000", "#ffffff", 512, Ecc::Medium, 4, true, false, false).unwrap();
    assert_eq!(mode, Mode::Vcard);
    let vcard = build_vcard(&pairs).unwrap();
    let png = render_png(&vcard, &opts).unwrap();
    let decoded = decode(&png);
    assert!(decoded.starts_with("BEGIN:VCARD"));
    assert!(decoded.contains("FN:Jane Doe"));
    assert!(decoded.contains("jane@x.com"));
}

#[test]
fn run_plan_order_and_modes() {
    assert_eq!(
        plan_run("#000", "nope", 0, Ecc::Low, 4, true, true, true).unwrap_err(),
        RunError::Bg(ColorError::NotHex)
    );
    let (o, m) = plan_run("black", "#eee", 300, Ecc::High, 2, false, true, true).unwrap();
    assert_eq!(m, Mode::Batch);
    assert_eq!(o.size, 300);
    assert_eq!(o.ecc, Ecc::High);
    assert_eq!(o.quiet_zone, 2);
    assert_eq!(o.bg.to_hex(), "#eeeeee");
    let (_, m) = plan_run("black", "white", 1, Ecc::Low, 0, false, false, true).unwrap();
    assert_eq!(m, Mode::Single);
}

#[test]
fn single_png_via_cli_decodes_back() {
    let payload = "https://cli.example.com/abc";
    let (opts, mode) = plan_run("#000000", "#ffffff", 512, Ecc::Medium, 4, false, false, true).unwrap();
    assert_eq!(mode, Mode::Single);
    let fmt = resolve_format(false, Some("out.png"));
    assert_eq!(fmt, Format::Png);
    let png = render_as(payload, fmt, &opts);
    assert!(!png.is_empty());
    assert_eq!(decode(&png), payload);
}

#[test]
fn svg_inferred_from_extension() {
    let fmt = resolve_format(false, Some("dir/out.svg"));
    assert_eq!(fmt, Format::Svg);
    let content = String::from_utf8(render_as("hello-svg", fmt, &RenderOpts::default())).unwrap();
    assert!(content.contains("<svg"));
    assert!(content.contains("</svg>"));
    assert!(content.len() > 50);
}

#[test]
fn svg_flag_forces_svg_even_with_png_name() {
    let fmt = resolve_format(true, Some("forced.png"));
    assert_eq!(fmt, Format::Svg);
    let content = String::from_utf8(render_as("force-svg", fmt, &RenderOpts::default())).unwrap();
    assert!(content.starts_with("<?xml"));
}

#[test]
fn batch_txt_produces_one_file_per_line() {
    let data = "https://a.example\n\n# comment, skipped\nhttps://b.example\nhttps://c.example\n";
    let items = parse_batch("lines.txt", data).unwrap();
    assert_eq!(items.len(), 3);
    let ext = default_extension(resolve_format(false, None));
    let names: Vec<String> = items.iter().map(|it| candidate_name(&it.stem, ext, 1)).collect();
    assert_eq!(names, ["0001-https-a-example.png", "0002-https-b-example.png", "0003-https-c-example.png"]);
}

#[test]
fn batch_csv_with_filename_column() {
    let data = "text,filename\nhttps://one.example,alpha\nhttps://two.example,beta\n";
    let items = parse_batch("data.csv", data).unwrap();
    assert_eq!(items.len(), 2);
    assert_eq!(candidate_name(&items[0].stem, "png", 1), "alpha.png");
    assert_eq!(candidate_name(&items[1].stem, "png", 1), "beta.png");
    let png = render_png(&items[0].payload, &RenderOpts::default()).unwrap();
    assert_eq!(decode(&png), "https://one.example");
}

#[test]
fn batch_svg_flag_emits_svg_files() {
    let items = parse_batch("lines.txt", "https://a.example\nhttps://b.example\n").unwrap();
    assert_eq!(items.len(), 2);
    let fmt = resolve_format(true, None);
    let ext = default_extension(fmt);
    assert_eq!(candidate_name(&items[0].stem, ext, 1), "0001-https-a-example.svg");
    let body = String::from_utf8(render_as(&items[0].payload, fmt, &RenderOpts::default())).unwrap();
    assert!(body.contains("<svg"));
}

#[test]
fn batch_names_follow_the_documented_pattern() {
    let items = parse_batch("lines.txt", "https://example.com\nhello world\n").unwrap();
    assert_eq!(candidate_name(&items[0].stem, "png", 1), "0001-https-example-com.png");
    assert_eq!(candidate_name(&items[1].stem, "png", 1), "0002-hello-world.png");
}

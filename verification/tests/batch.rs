use qr_gen::batch::{
    indexed_slug, is_csv, items_from_table, parse_batch, parse_csv, parse_lines, slugify, BatchError,
};

#[test]
fn parses_lines_skipping_blanks_and_comments() {
    let data = "https://a.com\n\n  # a comment\nhttps://b.com\n   \nplain text\n";
    let items = parse_lines(data);
    assert_eq!(items.len(), 3);
    assert_eq!(items[0].payload, "https://a.com");
    assert_eq!(items[1].payload, "https://b.com");
    assert_eq!(items[2].payload, "plain text");
    assert!(items[0].stem.starts_with("0001-"));
    assert!(items[2].stem.starts_with("0003-"));
}

#[test]
fn slugify_basics() {
    assert_eq!(slugify("https://example.com"), "https-example-com");
    assert_eq!(slugify("Hello, World!"), "hello-world");
    assert_eq!(slugify("   "), "");
    assert_eq!(slugify("a"), "a");
}

#[test]
fn csv_with_text_and_filename_columns() {
    let data = "text,filename\nhttps://a.com,alpha\nhttps://b.com,beta\n";
    let items = parse_csv(data).unwrap();
    assert_eq!(items.len(), 2);
    assert_eq!(items[0].payload, "https://a.com");
    assert_eq!(items[0].stem, "alpha");
    assert_eq!(items[1].stem, "beta");
}

#[test]
fn csv_text_only_column() {
    let data = "text\nhttps://a.com\nhttps://b.com\n";
    let items = parse_csv(data).unwrap();
    assert_eq!(items.len(), 2);
    assert!(items[0].stem.starts_with("0001-"));
}

#[test]
fn csv_no_header_uses_first_column() {
    // No recognizable header -> first row is data, col 0 is payload.
    let data = "https://a.com\nhttps://b.com\n";
    let items = parse_csv(data).unwrap();
    assert_eq!(items.len(), 2);
    assert_eq!(items[0].payload, "https://a.com");
}

#[test]
fn csv_filename_sanitized_no_traversal() {
    let data = "text,filename\nhi,../../etc/passwd\n";
    let items = parse_csv(data).unwrap();
    assert_eq!(items.len(), 1);
    assert_eq!(items[0].stem, "passwd");
}

#[test]
fn empty_csv_errors() {
    assert!(parse_csv("text\n\n").is_err());
}

#[test]
fn lines_with_crlf_and_indexing() {
    let items = parse_lines("  Hello World  \r\n#skip\r\n\r\n***\r\nlast");
    assert_eq!(items.len(), 3);
    assert_eq!(items[0].payload, "Hello World");
    assert_eq!(items[0].stem, "0001-hello-world");
    assert_eq!(items[1].payload, "***");
    assert_eq!(items[1].stem, "0002-qr");
    assert_eq!(items[2].payload, "last");
    assert_eq!(items[2].stem, "0003-last");
    assert!(parse_lines("").is_empty());
    assert!(parse_lines("\n\n # x\n").is_empty());
}

#[test]
fn indexed_slug_forms() {
    assert_eq!(indexed_slug("Hi There", 7), "0007-hi-there");
    assert_eq!(indexed_slug("!!!", 12), "0012-qr");
    assert_eq!(indexed_slug("x", 12345), "12345-x");
    assert_ne!(indexed_slug("a", 1), indexed_slug("a", 10));
}

#[test]
fn slug_is_capped_and_collapsed() {
    let long = "ABCDEFGHIJ-abcdefghij-0123456789-zyxwvutsrq-more";
    let s = slugify(long);
    assert_eq!(s, "abcdefghij-abcdefghij-0123456789-zyxwvut");
    assert_eq!(s.len(), 40);
    assert_eq!(slugify("--a  b__c--"), "a-b-c");
    // Cutting at 40 characters may leave a dash at the end: it is trimmed.
    assert_eq!(slugify("aaaaaaaaaaaaaaaaaaaaaaaaaaaaaaaaaaaaaaa b"), "aaaaaaaaaaaaaaaaaaaaaaaaaaaaaaaaaaaaaaa");
    assert_eq!(slugify("Ünïcode ok"), "n-code-ok");
}

#[test]
fn csv_detection_by_extension() {
    assert!(is_csv("data.csv"));
    assert!(is_csv("dir/DATA.CSV"));
    assert!(is_csv("dir/data.csv/"));
    assert!(!is_csv("data.txt"));
    assert!(!is_csv(".csv"));
    assert!(!is_csv("csv"));
    assert!(!is_csv("a.csv/.."));
    assert!(!is_csv(""));
}

#[test]
fn csv_columns_and_stems() {
    let items = parse_csv("Name, URL\nalpha.png,https://a\n,https://b\n../x/..,https://c\n,\n").unwrap();
    assert_eq!(items.len(), 3);
    assert_eq!(items[0].payload, "https://a");
    assert_eq!(items[0].stem, "alpha");
    assert_eq!(items[1].payload, "https://b");
    assert_eq!(items[1].stem, "0002-https-b");
    // `..` has no file name: the text itself is sanitized, dots kept.
    assert_eq!(items[2].stem, "..-x-.");
    let items = parse_csv("payload,file\nhi,my file!.svg\n").unwrap();
    assert_eq!(items[0].stem, "my-file");
    let items = parse_csv("a,b\nc,d\n").unwrap();
    assert_eq!(items.len(), 2);
    assert_eq!(items[0].payload, "a");
    assert_eq!(items[1].payload, "c");
}

#[test]
fn batch_error_variants() {
    assert_eq!(parse_csv("text\n\n"), Err(BatchError::NoRows));
    assert_eq!(parse_csv(""), Err(BatchError::NoRows));
}

#[test]
fn table_items_directly() {
    let header = vec!["TEXT ".to_string(), "filename".to_string()];
    let rows = vec![
        vec!["p1".to_string(), "stem/one.txt".to_string()],
        vec!["p2".to_string()],
        vec!["  ".to_string(), "z".to_string()],
    ];
    let items = items_from_table(&header, &rows).unwrap();
    assert_eq!(items.len(), 2);
    assert_eq!(items[0].stem, "one");
    assert_eq!(items[1].stem, "0002-p2");
    assert_eq!(items_from_table(&header, &[]), Err(BatchError::NoRows));
}

#[test]
fn batch_dispatch_by_path() {
    let items = parse_batch("in.CSV", "text,name\nhello,greeting\n").unwrap();
    assert_eq!(items[0].stem, "greeting");
    let items = parse_batch("in.txt", "text,name\nhello,greeting\n").unwrap();
    assert_eq!(items.len(), 2);
    assert_eq!(items[0].payload, "text,name");
}

#[test]
fn indexed_stems_sort_in_input_order() {
    assert!(indexed_slug("zzz", 9) < indexed_slug("aaa", 10));
    assert!(indexed_slug("!", 9) < indexed_slug("?", 10));
    assert!(indexed_slug("b", 99) < indexed_slug("a", 100));
    // A payload without a slug keeps its index first too.
    assert!(indexed_slug("", 1) < indexed_slug("b", 2));
    assert!(indexed_slug("a", 1) < indexed_slug("!!!", 2));
}

#[test]
fn every_stem_is_non_empty_and_safe() {
    let safe = |s: &str| {
        !s.is_empty() && s.chars().all(|c| c.is_ascii_alphanumeric() || c == '.' || c == '-' || c == '_')
    };
    let csv = "text,filename\n!!!,///\nhi,/etc/\nyo,.hidden\n€€€,a b/c d.e.f\n";
    for item in parse_csv(csv).unwrap() {
        assert!(safe(&item.stem), "unsafe stem {:?}", item.stem);
    }
    for item in parse_lines("???\n../../x\n  spaced out  \n") {
        assert!(safe(&item.stem), "unsafe stem {:?}", item.stem);
    }
    let items = parse_csv(csv).unwrap();
    assert_eq!(items[0].stem, "0001-qr");
    assert_eq!(items[1].stem, "etc");
    assert_eq!(items[2].stem, "0003-yo");
    assert_eq!(items[3].stem, "c-d.e");
}

#[test]
fn stem_keeps_dots_dashes_and_underscores() {
    let items = parse_csv("text,filename\nhi,my.report.pdf\nyo,dir/a_b-c.v2.txt\n").unwrap();
    assert_eq!(items[0].stem, "my.report");
    assert_eq!(items[1].stem, "a_b-c.v2");
}

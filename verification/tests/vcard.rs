use qr_gen::vcard::{build_vcard, VcardError};

fn pairs(kvs: &[(&str, &str)]) -> Vec<(String, String)> {
    kvs.iter().map(|(k, v)| (k.to_string(), v.to_string())).collect()
}

#[test]
fn builds_minimal_vcard() {
    let vc = build_vcard(&pairs(&[("name", "Jane Doe")])).unwrap();
    assert!(vc.starts_with("BEGIN:VCARD\r\n"));
    assert!(vc.contains("VERSION:3.0\r\n"));
    assert!(vc.contains("FN:Jane Doe\r\n"));
    assert!(vc.contains("N:Doe;Jane;;;\r\n"));
    assert!(vc.ends_with("END:VCARD\r\n"));
}

#[test]
fn builds_full_vcard() {
    let vc = build_vcard(&pairs(&[
        ("name", "Jane Doe"),
        ("email", "jane@x.com"),
        ("phone", "+15551234"),
        ("org", "Acme"),
    ]))
    .unwrap();
    assert!(vc.contains("EMAIL;TYPE=INTERNET:jane@x.com\r\n"));
    assert!(vc.contains("TEL;TYPE=CELL:+15551234\r\n"));
    assert!(vc.contains("ORG:Acme\r\n"));
}

#[test]
fn requires_name() {
    assert!(build_vcard(&pairs(&[("email", "a@b.com")])).is_err());
    assert!(build_vcard(&pairs(&[("name", "")])).is_err());
}

#[test]
fn rejects_unknown_field() {
    assert!(build_vcard(&pairs(&[("name", "X"), ("bogus", "y")])).is_err());
}

#[test]
fn escapes_special_chars() {
    let vc = build_vcard(&pairs(&[("name", "Doe, John; Jr")])).unwrap();
    assert!(vc.contains("FN:Doe\\, John\\; Jr\r\n"));
}

#[test]
fn single_word_name() {
    let vc = build_vcard(&pairs(&[("name", "Cher")])).unwrap();
    assert!(vc.contains("N:;Cher;;;\r\n"));
    assert!(vc.contains("FN:Cher\r\n"));
}

#[test]
fn exact_text_in_field_order() {
    let vc = build_vcard(&pairs(&[
        ("NOTE", "line1\nline2\r"),
        ("adr", "1 Main St"),
        ("Website", "https://x.com"),
        ("role", "CTO"),
        ("company", "Acme"),
        ("tel", "123"),
        ("mail", "a@b.c"),
        ("fn", "  Ada  Lovelace King "),
    ]))
    .unwrap();
    assert_eq!(
        vc,
        "BEGIN:VCARD\r\nVERSION:3.0\r\nN:King;Ada  Lovelace;;;\r\nFN:Ada  Lovelace King\r\n\
         ORG:Acme\r\nTITLE:CTO\r\nTEL;TYPE=CELL:123\r\nEMAIL;TYPE=INTERNET:a@b.c\r\n\
         URL:https://x.com\r\nADR;TYPE=HOME:;;1 Main St;;;;\r\nNOTE:line1\\nline2\r\nEND:VCARD\r\n"
    );
}

#[test]
fn vcard_error_variants() {
    assert_eq!(
        build_vcard(&pairs(&[("name", "X"), ("Bogus", "y"), ("other", "z")])),
        Err(VcardError::UnknownField("bogus".to_string()))
    );
    assert_eq!(build_vcard(&pairs(&[("email", "a@b.com")])), Err(VcardError::MissingName));
    assert_eq!(build_vcard(&pairs(&[("name", "   ")])), Err(VcardError::MissingName));
    assert_eq!(build_vcard(&[]), Err(VcardError::MissingName));
}

#[test]
fn later_pair_wins_and_empty_fields_are_left_out() {
    let vc = build_vcard(&pairs(&[("name", "A"), ("name", "B C"), ("org", " "), ("e", "x\\y")])).unwrap();
    assert_eq!(
        vc,
        "BEGIN:VCARD\r\nVERSION:3.0\r\nN:C;B;;;\r\nFN:B C\r\nEMAIL;TYPE=INTERNET:x\\\\y\r\nEND:VCARD\r\n"
    );
}

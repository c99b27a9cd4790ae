//! vCard 3.0 text built from `key=value` pairs.
use vstd::prelude::*;

use crate::color::chars_eq;
use crate::text::{last_index_of, lemma_last_index_prefix, chars_to_string, copy_range, lower_chars, lower_seq, push_chars, push_str, str_to_chars, trim, trim_chars};

verus! {

/// Why no vCard could be built.
#[derive(Debug, Clone, PartialEq, Eq)]
pub enum VcardError {
    /// A key that names no supported field (carried lowercased).
    UnknownField(String),
    /// No `name` field, or an empty one.
    MissingName,
}

/// The field a (lowercased) key sets: 0 name, 1 email, 2 phone, 3 org,
/// 4 title, 5 url, 6 address, 7 note.
pub open spec fn field_slot(key: Seq<char>) -> Option<nat> {
    if key == "name"@ || key == "n"@ || key == "fn"@ {
        Some(0)
    } else if key == "email"@ || key == "e"@ || key == "mail"@ {
        Some(1)
    } else if key == "phone"@ || key == "tel"@ || key == "p"@ {
        Some(2)
    } else if key == "org"@ || key == "organization"@ || key == "company"@ {
        Some(3)
    } else if key == "title"@ || key == "role"@ {
        Some(4)
    } else if key == "url"@ || key == "website"@ || key == "web"@ {
        Some(5)
    } else if key == "address"@ || key == "adr"@ {
        Some(6)
    } else if key == "note"@ {
        Some(7)
    } else {
        None
    }
}

/// The eight fields after reading `pairs` left to right (a later pair for the
/// same field wins, values are trimmed), or the first unknown key, lowercased.
pub open spec fn collect_fields(pairs: Seq<(Seq<char>, Seq<char>)>) -> Result<Seq<Option<Seq<char>>>, Seq<char>>
    decreases pairs.len(),
{
    if pairs.len() == 0 {
        Ok(Seq::new(8, |_i: int| None))
    } else {
        match collect_fields(pairs.drop_last()) {
            Err(k) => Err(k),
            Ok(f) => {
                let key = lower_seq(pairs.last().0);
                match field_slot(key) {
                    Some(i) => Ok(f.update(i as int, Some(trim(pairs.last().1)))),
                    None => Err(key),
                }
            },
        }
    }
}

/// The escape of one character (RFC 6350 §3.4); a bare CR is dropped.
pub open spec fn esc_char(c: char) -> Seq<char> {
    if c == '\\' {
        seq!['\\', '\\']
    } else if c == ',' {
        seq!['\\', ',']
    } else if c == ';' {
        seq!['\\', ';']
    } else if c == '\n' {
        seq!['\\', 'n']
    } else if c == '\r' {
        seq![]
    } else {
        seq![c]
    }
}

/// `s` with backslash, comma, semicolon and newline escaped and CR dropped.
pub open spec fn escaped(s: Seq<char>) -> Seq<char>
    decreases s.len(),
{
    if s.len() == 0 {
        seq![]
    } else {
        escaped(s.drop_last()) + esc_char(s.last())
    }
}

/// (given, family): split at the last space of the trimmed name; without a
/// space the whole name is the given name.
pub open spec fn split_name_spec(full: Seq<char>) -> (Seq<char>, Seq<char>) {
    let t = trim(full);
    match last_index_of(t, ' ') {
        Some(i) => (trim(t.subrange(0, i as int)), trim(t.subrange(i + 1int, t.len() as int))),
        None => (t, seq![]),
    }
}


/// Escaped text never holds a line feed or a carriage return, so a value
/// cannot break a vCard line: CRLF only ever ends a property.
pub proof fn lemma_escaped_has_no_line_breaks(s: Seq<char>)
    ensures
        forall|i: int| 0 <= i < escaped(s).len() ==> #[trigger] escaped(s)[i] != '\n' && escaped(s)[i] != '\r',
    decreases s.len(),
{
    if s.len() > 0 {
        lemma_escaped_has_no_line_breaks(s.drop_last());
        let a = escaped(s.drop_last());
        let b = esc_char(s.last());
        assert forall|i: int| 0 <= i < escaped(s).len() implies #[trigger] escaped(s)[i] != '\n' && escaped(s)[i] != '\r' by {
            if i < a.len() {
                assert(escaped(s)[i] == a[i]);
            } else {
                assert(escaped(s)[i] == b[i - a.len()]);
            }
        }
    }
}

/// One optional property line: present only for a non-empty value.
pub open spec fn opt_line(prefix: Seq<char>, value: Option<Seq<char>>, suffix: Seq<char>) -> Seq<char> {
    match value {
        Some(v) => if v.len() > 0 {
            prefix + escaped(v) + suffix
        } else {
            seq![]
        },
        None => seq![],
    }
}

/// The vCard text for the collected fields (slot 0 holds the name).
pub open spec fn vcard_text(f: Seq<Option<Seq<char>>>) -> Seq<char> {
    let name = f[0].unwrap();
    let (given, family) = split_name_spec(name);
    "BEGIN:VCARD\r\n"@ + "VERSION:3.0\r\n"@ + "N:"@ + escaped(family) + ";"@ + escaped(given) + ";;;\r\n"@
        + "FN:"@ + escaped(name) + "\r\n"@ + opt_line("ORG:"@, f[3], "\r\n"@) + opt_line(
        "TITLE:"@,
        f[4],
        "\r\n"@,
    ) + opt_line("TEL;TYPE=CELL:"@, f[2], "\r\n"@) + opt_line("EMAIL;TYPE=INTERNET:"@, f[1], "\r\n"@)
        + opt_line("URL:"@, f[5], "\r\n"@) + opt_line("ADR;TYPE=HOME:;;"@, f[6], ";;;;\r\n"@)
        + opt_line("NOTE:"@, f[7], "\r\n"@) + "END:VCARD\r\n"@
}

/// The pairs as text.
pub open spec fn pairs_view(pairs: Seq<(String, String)>) -> Seq<(Seq<char>, Seq<char>)> {
    pairs.map_values(|p: (String, String)| (p.0@, p.1@))
}

/// What `build_vcard` gives for the pairs: the unknown key, a missing name, or the text.
pub open spec fn build_vcard_spec(pairs: Seq<(Seq<char>, Seq<char>)>) -> Result<Seq<char>, Option<Seq<char>>> {
    match collect_fields(pairs) {
        Err(k) => Err(Some(k)),
        Ok(f) => if f[0] is Some && f[0].unwrap().len() > 0 {
            Ok(vcard_text(f))
        } else {
            Err(None)
        },
    }
}

/// The keys `build_vcard` documents (compared lowercased).
pub open spec fn documented_key(k: Seq<char>) -> bool {
    ||| k == "name"@ || k == "n"@ || k == "fn"@
    ||| k == "email"@ || k == "e"@ || k == "mail"@
    ||| k == "phone"@ || k == "tel"@ || k == "p"@
    ||| k == "org"@ || k == "organization"@ || k == "company"@
    ||| k == "title"@ || k == "role"@
    ||| k == "url"@ || k == "website"@ || k == "web"@
    ||| k == "address"@ || k == "adr"@
    ||| k == "note"@
}

/// The keys that set the name.
pub open spec fn name_key(k: Seq<char>) -> bool {
    k == "name"@ || k == "n"@ || k == "fn"@
}

/// Pairs whose keys, in any letter case, are all documented are never
/// refused for an unknown field.
pub proof fn lemma_documented_keys_known(pairs: Seq<(Seq<char>, Seq<char>)>)
    requires
        forall|i: int| 0 <= i < pairs.len() ==> documented_key(lower_seq(#[trigger] pairs[i].0)),
    ensures
        collect_fields(pairs) is Ok,
        !(build_vcard_spec(pairs) matches Err(Some(_))),
    decreases pairs.len(),
{
    if pairs.len() > 0 {
        let d = pairs.drop_last();
        assert forall|i: int| 0 <= i < d.len() implies documented_key(lower_seq(#[trigger] d[i].0)) by {
            assert(d[i] == pairs[i]);
        }
        lemma_documented_keys_known(d);
        assert(documented_key(lower_seq(pairs[pairs.len() - 1].0)));
        assert(field_slot(lower_seq(pairs.last().0)) is Some);
    }
}

/// The property line a (lowercased) key other than a name key gives a
/// value: `EMAIL;TYPE=INTERNET:`, `TEL;TYPE=CELL:`, `ORG:`, `TITLE:`, `URL:`,
/// `ADR;TYPE=HOME:;;` (street slot) or `NOTE:`, the escaped value, CRLF.
pub open spec fn property_line(k: Seq<char>, v: Seq<char>) -> Option<Seq<char>> {
    if k == "email"@ || k == "e"@ || k == "mail"@ {
        Some("EMAIL;TYPE=INTERNET:"@ + escaped(v) + "\r\n"@)
    } else if k == "phone"@ || k == "tel"@ || k == "p"@ {
        Some("TEL;TYPE=CELL:"@ + escaped(v) + "\r\n"@)
    } else if k == "org"@ || k == "organization"@ || k == "company"@ {
        Some("ORG:"@ + escaped(v) + "\r\n"@)
    } else if k == "title"@ || k == "role"@ {
        Some("TITLE:"@ + escaped(v) + "\r\n"@)
    } else if k == "url"@ || k == "website"@ || k == "web"@ {
        Some("URL:"@ + escaped(v) + "\r\n"@)
    } else if k == "address"@ || k == "adr"@ {
        Some("ADR;TYPE=HOME:;;"@ + escaped(v) + ";;;;\r\n"@)
    } else if k == "note"@ {
        Some("NOTE:"@ + escaped(v) + "\r\n"@)
    } else {
        None
    }
}

/// A name and one other documented field give exactly: the header lines,
/// the `N` and `FN` lines of the trimmed name, the field's property line
/// with its trimmed value, and the end line.
pub proof fn lemma_name_and_one_field(nk: Seq<char>, name: Seq<char>, k: Seq<char>, v: Seq<char>)
    requires
        name_key(lower_seq(nk)),
        !name_key(lower_seq(k)),
        property_line(lower_seq(k), trim(v)) is Some,
        trim(name).len() > 0,
        trim(v).len() > 0,
    ensures
        build_vcard_spec(seq![(nk, name), (k, v)]) == Ok::<Seq<char>, Option<Seq<char>>>(
            "BEGIN:VCARD\r\nVERSION:3.0\r\n"@ + "N:"@ + escaped(split_name_spec(trim(name)).1) + ";"@ + escaped(
                split_name_spec(trim(name)).0,
            ) + ";;;\r\n"@ + "FN:"@ + escaped(trim(name)) + "\r\n"@ + property_line(lower_seq(k), trim(v)).unwrap()
                + "END:VCARD\r\n"@,
        ),
{
    let ps = seq![(nk, name), (k, v)];
    let key = lower_seq(k);
    let tv = trim(v);
    let e = Seq::<Option<Seq<char>>>::new(8, |_i: int| None);
    assert(ps.drop_last() =~= seq![(nk, name)]);
    assert(seq![(nk, name)].drop_last() =~= Seq::<(Seq<char>, Seq<char>)>::empty());
    let f0 = e.update(0, Some(trim(name)));
    let one = seq![(nk, name)];
    assert(collect_fields(Seq::<(Seq<char>, Seq<char>)>::empty()) == Ok::<Seq<Option<Seq<char>>>, Seq<char>>(e));
    assert(one.last() == (nk, name));
    assert(field_slot(lower_seq(nk)) == Some(0nat));
    assert(collect_fields(one) == Ok::<Seq<Option<Seq<char>>>, Seq<char>>(f0));
    let slot = field_slot(key).unwrap();
    assert(field_slot(key) is Some);
    let f = f0.update(slot as int, Some(tv));
    assert(collect_fields(ps) == Ok::<Seq<Option<Seq<char>>>, Seq<char>>(f));
    assert(1 <= slot < 8);
    assert(f[0] == Some(trim(name)));
    let head = "BEGIN:VCARD\r\n"@ + "VERSION:3.0\r\n"@ + "N:"@ + escaped(split_name_spec(trim(name)).1) + ";"@
        + escaped(split_name_spec(trim(name)).0) + ";;;\r\n"@ + "FN:"@ + escaped(trim(name)) + "\r\n"@;
    let line = property_line(key, tv).unwrap();
    let t = vcard_text(f);
    if slot == 1 {
        assert(t =~= head + line + "END:VCARD\r\n"@);
    } else if slot == 2 {
        assert(t =~= head + line + "END:VCARD\r\n"@);
    } else if slot == 3 {
        assert(t =~= head + line + "END:VCARD\r\n"@);
    } else if slot == 4 {
        assert(t =~= head + line + "END:VCARD\r\n"@);
    } else if slot == 5 {
        assert(t =~= head + line + "END:VCARD\r\n"@);
    } else if slot == 6 {
        assert(t =~= head + line + "END:VCARD\r\n"@);
    } else {
        assert(t =~= head + line + "END:VCARD\r\n"@);
    }
    assert("BEGIN:VCARD\r\nVERSION:3.0\r\n"@ + "N:"@ =~= "BEGIN:VCARD\r\n"@ + "VERSION:3.0\r\n"@ + "N:"@) by {
        reveal_strlit("BEGIN:VCARD\r\nVERSION:3.0\r\n");
        reveal_strlit("BEGIN:VCARD\r\n");
        reveal_strlit("VERSION:3.0\r\n");
    }
}

fn is_lit(v: &Vec<char>, lit: &str) -> (b: bool)
    ensures
        b == (v@ == lit@),
{
    chars_eq(v, &str_to_chars(lit))
}

fn field_slot_exec(key: &Vec<char>) -> (r: Option<usize>)
    ensures
        r matches Some(i) ==> field_slot(key@) == Some(i as nat) && i < 8,
        r is None ==> field_slot(key@) is None,
{
    if is_lit(key, "name") || is_lit(key, "n") || is_lit(key, "fn") {
        Some(0)
    } else if is_lit(key, "email") || is_lit(key, "e") || is_lit(key, "mail") {
        Some(1)
    } else if is_lit(key, "phone") || is_lit(key, "tel") || is_lit(key, "p") {
        Some(2)
    } else if is_lit(key, "org") || is_lit(key, "organization") || is_lit(key, "company") {
        Some(3)
    } else if is_lit(key, "title") || is_lit(key, "role") {
        Some(4)
    } else if is_lit(key, "url") || is_lit(key, "website") || is_lit(key, "web") {
        Some(5)
    } else if is_lit(key, "address") || is_lit(key, "adr") {
        Some(6)
    } else if is_lit(key, "note") {
        Some(7)
    } else {
        None
    }
}

/// Escapes vCard special characters per RFC 6350 §3.4: backslash, comma,
/// semicolon and newline; a bare CR is dropped.
fn esc(s: &Vec<char>) -> (r: Vec<char>)
    ensures
        r@ == escaped(s@),
{
    let mut out: Vec<char> = Vec::new();
    for i in 0..s.len()
        invariant
            out@ == escaped(s@.take(i as int)),
    {
        let c = s[i];
        assert(s@.take(i + 1).drop_last() =~= s@.take(i as int));
        if c == '\\' {
            out.push('\\');
            out.push('\\');
        } else if c == ',' {
            out.push('\\');
            out.push(',');
        } else if c == ';' {
            out.push('\\');
            out.push(';');
        } else if c == '\n' {
            out.push('\\');
            out.push('n');
        } else if c == '\r' {
        } else {
            out.push(c);
        }
        assert(out@ =~= escaped(s@.take(i as int)) + esc_char(c));
    }
    assert(s@.take(s.len() as int) =~= s@);
    out
}

proof fn lemma_collect_err_persists(s: Seq<(Seq<char>, Seq<char>)>, j: int, k: Seq<char>)
    requires
        0 <= j <= s.len(),
        collect_fields(s.take(j)) == Err::<Seq<Option<Seq<char>>>, Seq<char>>(k),
    ensures
        collect_fields(s) == Err::<Seq<Option<Seq<char>>>, Seq<char>>(k),
    decreases s.len() - j,
{
    if j < s.len() {
        assert(s.drop_last().take(j) =~= s.take(j));
        lemma_collect_err_persists(s.drop_last(), j, k);
    } else {
        assert(s.take(j) =~= s);
    }
}

/// Splits a full name into (given, family) at its last space.
fn split_name(full: &Vec<char>) -> (r: (Vec<char>, Vec<char>))
    ensures
        (r.0@, r.1@) == split_name_spec(full@),
{
    let t = trim_chars(full);
    let mut j: usize = t.len();
    while j > 0 && t[j - 1] != ' '
        invariant
            j <= t.len(),
            forall|k: int| j <= k < t.len() ==> t@[k] != ' ',
        decreases j,
    {
        j -= 1;
    }
    proof {
        lemma_last_index_prefix(t@, ' ', j as int);
    }
    if j == 0 {
        assert(t@.take(0) =~= Seq::<char>::empty());
        (t, Vec::new())
    } else {
        assert(t@.take(j as int).last() == ' ');
        let before = copy_range(&t, 0, j - 1);
        let after = copy_range(&t, j, t.len());
        (trim_chars(&before), trim_chars(&after))
    }
}

/// Appends an optional property line to `out`.
fn push_opt_line(out: &mut Vec<char>, prefix: &str, value: &Option<Vec<char>>, suffix: &str)
    ensures
        final(out)@ == old(out)@ + opt_line(
            prefix@,
            match value {
                Some(v) => Some(v@),
                None => None,
            },
            suffix@,
        ),
{
    match value {
        Some(v) => {
            if v.len() > 0 {
                push_str(out, prefix);
                let e = esc(v);
                push_chars(out, &e);
                push_str(out, suffix);
                assert(out@ =~= old(out)@ + (prefix@ + escaped(v@) + suffix@));
            } else {
                assert(out@ =~= old(out)@ + Seq::<char>::empty());
            }
        },
        None => {
            assert(out@ =~= old(out)@ + Seq::<char>::empty());
        },
    }
}

/// The fields as text.
pub open spec fn fields_view(f: Seq<Option<Vec<char>>>) -> Seq<Option<Seq<char>>> {
    f.map_values(
        |o: Option<Vec<char>>|
            match o {
                Some(v) => Some(v@),
                None => None,
            },
    )
}

/// Builds a vCard 3.0 text (CRLF line ends) from `key=value` pairs.
///
/// Keys are case-insensitive: `name`/`n`/`fn`, `email`/`e`/`mail`,
/// `phone`/`tel`/`p`, `org`/`organization`/`company`, `title`/`role`,
/// `url`/`website`/`web`, `address`/`adr`, `note`. `name` is required.
pub fn build_vcard(pairs: &[(String, String)]) -> (res: Result<String, VcardError>)
    ensures
        match build_vcard_spec(pairs_view(pairs@)) {
            Ok(text) => res matches Ok(s) && s@ == text,
            Err(Some(k)) => res matches Err(VcardError::UnknownField(u)) && u@ == k,
            Err(None) => res == Err::<String, VcardError>(VcardError::MissingName),
        },
{
    let ghost pv = pairs_view(pairs@);
    let mut fields: Vec<Option<Vec<char>>> = Vec::new();
    for _k in 0..8usize
        invariant
            fields@.len() == _k,
            forall|m: int| 0 <= m < fields@.len() ==> fields@[m] is None,
    {
        fields.push(None);
    }
    assert(fields_view(fields@) =~= Seq::new(8, |_i: int| None::<Seq<char>>));
    for i in 0..pairs.len()
        invariant
            pv == pairs_view(pairs@),
            fields@.len() == 8,
            collect_fields(pv.take(i as int)) == Ok::<Seq<Option<Seq<char>>>, Seq<char>>(
                fields_view(fields@),
            ),
    {
        let key = lower_chars(&str_to_chars(pairs[i].0.as_str()));
        let value = trim_chars(&str_to_chars(pairs[i].1.as_str()));
        assert(pv.take(i + 1).drop_last() =~= pv.take(i as int));
        assert(pv.take(i + 1).last() == pv[i as int]);
        match field_slot_exec(&key) {
            Some(slot) => {
                let ghost before = fields@;
                fields.set(slot, Some(value));
                assert(fields_view(fields@) =~= fields_view(before).update(slot as int, Some(value@)));
            },
            None => {
                proof {
                    lemma_collect_err_persists(pv, i + 1, key@);
                }
                let k = chars_to_string(&key);
                return Err(VcardError::UnknownField(k));
            },
        }
    }
    assert(pv.take(pairs.len() as int) =~= pv);
    let name = match &fields[0] {
        Some(n) if n.len() > 0 => copy_range(n, 0, n.len()),
        _ => {
            return Err(VcardError::MissingName);
        },
    };
    let mut out: Vec<char> = Vec::new();
    push_str(&mut out, "BEGIN:VCARD\r\n");
    push_str(&mut out, "VERSION:3.0\r\n");
    let (given, family) = split_name(&name);
    push_str(&mut out, "N:");
    push_chars(&mut out, &esc(&family));
    push_str(&mut out, ";");
    push_chars(&mut out, &esc(&given));
    push_str(&mut out, ";;;\r\n");
    push_str(&mut out, "FN:");
    push_chars(&mut out, &esc(&name));
    push_str(&mut out, "\r\n");
    let ghost f = fields_view(fields@);
    assert(f[0] == Some(name@));
    let ghost head = "BEGIN:VCARD\r\n"@ + "VERSION:3.0\r\n"@ + "N:"@ + escaped(family@) + ";"@ + escaped(given@)
        + ";;;\r\n"@ + "FN:"@ + escaped(name@) + "\r\n"@;
    assert(out@ =~= head);
    assert(f[1] == match fields@[1] { Some(v) => Some(v@), None => None::<Seq<char>> });
    assert(f[2] == match fields@[2] { Some(v) => Some(v@), None => None::<Seq<char>> });
    assert(f[3] == match fields@[3] { Some(v) => Some(v@), None => None::<Seq<char>> });
    assert(f[4] == match fields@[4] { Some(v) => Some(v@), None => None::<Seq<char>> });
    assert(f[5] == match fields@[5] { Some(v) => Some(v@), None => None::<Seq<char>> });
    assert(f[6] == match fields@[6] { Some(v) => Some(v@), None => None::<Seq<char>> });
    assert(f[7] == match fields@[7] { Some(v) => Some(v@), None => None::<Seq<char>> });
    push_opt_line(&mut out, "ORG:", &fields[3], "\r\n");
    push_opt_line(&mut out, "TITLE:", &fields[4], "\r\n");
    push_opt_line(&mut out, "TEL;TYPE=CELL:", &fields[2], "\r\n");
    push_opt_line(&mut out, "EMAIL;TYPE=INTERNET:", &fields[1], "\r\n");
    push_opt_line(&mut out, "URL:", &fields[5], "\r\n");
    push_opt_line(&mut out, "ADR;TYPE=HOME:;;", &fields[6], ";;;;\r\n");
    push_opt_line(&mut out, "NOTE:", &fields[7], "\r\n");
    push_str(&mut out, "END:VCARD\r\n");
    assert(out@ =~= head + opt_line("ORG:"@, f[3], "\r\n"@) + opt_line("TITLE:"@, f[4], "\r\n"@)
        + opt_line("TEL;TYPE=CELL:"@, f[2], "\r\n"@) + opt_line("EMAIL;TYPE=INTERNET:"@, f[1], "\r\n"@)
        + opt_line("URL:"@, f[5], "\r\n"@) + opt_line("ADR;TYPE=HOME:;;"@, f[6], ";;;;\r\n"@)
        + opt_line("NOTE:"@, f[7], "\r\n"@) + "END:VCARD\r\n"@);
    assert(out@ =~= vcard_text(f));
    Ok(chars_to_string(&out))
}

} // verus!

//! The decisions of the command line: output format, `key=value` arguments,
//! output names, and which mode a run takes.
use vstd::prelude::*;

use crate::batch::{path_extension, path_extension_exec};
use crate::color::{chars_eq, parse_hex, parse_hex_spec, ColorError, Rgba};
use crate::render::{Ecc, RenderOpts};
use crate::text::{
    chars_to_string, copy_range, decimal, lemma_decimal_value, lower_chars, lower_seq, push_decimal, push_str, str_to_chars, trim,
    trim_chars,
};

verus! {

/// Output format of a QR code.
#[derive(Debug, Clone, Copy, PartialEq, Eq, Structural)]
pub enum Format {
    Png,
    Svg,
}

/// The format for the `--svg` flag and the output path: the flag wins, else
/// a `.svg` extension (any case) means SVG, else PNG.
pub open spec fn resolve_format_spec(svg_flag: bool, output: Option<Seq<char>>) -> Format {
    if svg_flag {
        Format::Svg
    } else {
        match output {
            Some(p) => match path_extension(p) {
                Some(e) => if lower_seq(e) == "svg"@ {
                    Format::Svg
                } else {
                    Format::Png
                },
                None => Format::Png,
            },
            None => Format::Png,
        }
    }
}

/// Decides the output format from the explicit flag and the output path.
pub fn resolve_format(svg_flag: bool, output: Option<&str>) -> (f: Format)
    ensures
        f == resolve_format_spec(
            svg_flag,
            match output {
                Some(p) => Some(p@),
                None => None,
            },
        ),
{
    if svg_flag {
        return Format::Svg;
    }
    match output {
        Some(p) => match path_extension_exec(p) {
            Some(e) => {
                if chars_eq(&lower_chars(&e), &str_to_chars("svg")) {
                    Format::Svg
                } else {
                    Format::Png
                }
            },
            None => Format::Png,
        },
        None => Format::Png,
    }
}

/// The file extension of a format.
pub fn default_extension(fmt: Format) -> (e: &'static str)
    ensures
        fmt == Format::Png ==> e@ == "png"@,
        fmt == Format::Svg ==> e@ == "svg"@,
{
    match fmt {
        Format::Png => "png",
        Format::Svg => "svg",
    }
}

/// The position of the first `c` in `s`.
pub open spec fn first_index_of(s: Seq<char>, c: char) -> Option<nat>
    decreases s.len(),
{
    if s.len() == 0 {
        None
    } else if s[0] == c {
        Some(0)
    } else {
        match first_index_of(s.drop_first(), c) {
            Some(i) => Some(i + 1),
            None => None,
        }
    }
}

proof fn lemma_first_index_of(s: Seq<char>, c: char)
    ensures
        first_index_of(s, c) matches Some(i) ==> i < s.len() && s[i as int] == c && forall|k: int|
            0 <= k < i ==> s[k] != c,
        first_index_of(s, c) is None ==> forall|k: int| 0 <= k < s.len() ==> s[k] != c,
    decreases s.len(),
{
    if s.len() > 0 && s[0] != c {
        lemma_first_index_of(s.drop_first(), c);
        assert forall|k: int| 1 <= k < s.len() implies s[k] == s.drop_first()[k - 1] by {}
    }
}

proof fn lemma_first_index_unique(s: Seq<char>, c: char, i: int)
    requires
        0 <= i < s.len(),
        s[i] == c,
        forall|k: int| 0 <= k < i ==> s[k] != c,
    ensures
        first_index_of(s, c) == Some(i as nat),
    decreases s.len(),
{
    if i > 0 {
        lemma_first_index_unique(s.drop_first(), c, i - 1);
    }
}

/// A `key=value` argument split at its first `=`: the key trimmed, the value
/// as written.
pub open spec fn split_kv(s: Seq<char>) -> Option<(Seq<char>, Seq<char>)> {
    match first_index_of(s, '=') {
        Some(i) => Some((trim(s.take(i as int)), s.subrange(i + 1int, s.len() as int))),
        None => None,
    }
}

/// A `key=value` argument without `=` (carried as written).
#[derive(Debug, Clone, PartialEq, Eq)]
pub struct NotKeyValue(pub String);

/// Every argument split (`split_kv`), in order.
pub open spec fn kv_pairs_ok(raw: Seq<String>, pairs: Seq<(String, String)>) -> bool {
    &&& pairs.len() == raw.len()
    &&& forall|k: int|
        0 <= k < raw.len() ==> split_kv((#[trigger] raw[k])@) == Some((pairs[k].0@, pairs[k].1@))
}

/// Splits `key=value` arguments; the first argument without `=` is an error.
pub fn parse_kv_pairs(raw: &[String]) -> (res: Result<Vec<(String, String)>, NotKeyValue>)
    ensures
        res matches Ok(pairs) ==> kv_pairs_ok(raw@, pairs@),
        (forall|k: int| 0 <= k < raw@.len() ==> (#[trigger] split_kv(raw@[k]@)) is Some) ==> res is Ok,
        res matches Err(NotKeyValue(item)) ==> exists|k: int|
            0 <= k < raw@.len() && item@ == raw@[k]@ && (#[trigger] split_kv(raw@[k]@)) is None && forall|
                j: int,
            |
                0 <= j < k ==> (#[trigger] split_kv(raw@[j]@)) is Some,
{
    let mut pairs: Vec<(String, String)> = Vec::new();
    for i in 0..raw.len()
        invariant
            pairs@.len() == i,
            forall|k: int| 0 <= k < i ==> split_kv((#[trigger] raw@[k])@) == Some((pairs@[k].0@, pairs@[k].1@)),
    {
        let s = str_to_chars(raw[i].as_str());
        let mut j: usize = 0;
        while j < s.len() && s[j] != '='
            invariant
                j <= s.len(),
                forall|k: int| 0 <= k < j ==> s@[k] != '=',
            decreases s.len() - j,
        {
            j += 1;
        }
        if j == s.len() {
            proof {
                lemma_first_index_of(s@, '=');
                if let Some(q) = first_index_of(s@, '=') {
                    assert(s@[q as int] == '=');
                }
                assert(split_kv(raw@[i as int]@) is None);
                assert forall|k: int| 0 <= k < i implies (#[trigger] split_kv(raw@[k]@)) is Some by {}
            }
            return Err(NotKeyValue(chars_to_string(&s)));
        }
        proof {
            lemma_first_index_unique(s@, '=', j as int);
        }
        let key = chars_to_string(&trim_chars(&copy_range(&s, 0, j)));
        let value = chars_to_string(&copy_range(&s, j + 1, s.len()));
        assert(s@.take(j as int) =~= s@.subrange(0, j as int));
        pairs.push((key, value));
    }
    Ok(pairs)
}

/// The `n`-th name tried for an output file: `stem.ext`, then
/// `stem-2.ext`, `stem-3.ext`, ...
pub open spec fn candidate_spec(stem: Seq<char>, ext: Seq<char>, n: nat) -> Seq<char> {
    if n < 2 {
        stem + seq!['.'] + ext
    } else {
        stem + seq!['-'] + decimal(n) + seq!['.'] + ext
    }
}

proof fn lemma_decimal_injective(a: nat, b: nat)
    requires
        decimal(a) == decimal(b),
    ensures
        a == b,
{
    lemma_decimal_value(a);
    lemma_decimal_value(b);
}

/// The names tried for one stem and extension are all different, so a file
/// written under one never overwrites a file written under another.
pub proof fn lemma_candidates_distinct(stem: Seq<char>, ext: Seq<char>, n1: nat, n2: nat)
    requires
        1 <= n1 < n2,
    ensures
        candidate_spec(stem, ext, n1) != candidate_spec(stem, ext, n2),
{
    let a = candidate_spec(stem, ext, n1);
    let b = candidate_spec(stem, ext, n2);
    let s = stem.len() as int;
    let d2 = decimal(n2);
    lemma_decimal_value(n2);
    assert(b[s] == '-');
    if n1 == 1 {
        assert(a[s] == '.');
    } else {
        let d1 = decimal(n1);
        lemma_decimal_value(n1);
        if d1.len() < d2.len() {
            assert(a[s + 1 + d1.len()] == '.');
            assert(b[s + 1 + d1.len()] == d2[d1.len() as int]);
        } else if d2.len() < d1.len() {
            assert(b[s + 1 + d2.len()] == '.');
            assert(a[s + 1 + d2.len()] == d1[d2.len() as int]);
        } else if a == b {
            assert(a.subrange(s + 1, s + 1 + d1.len()) =~= d1);
            assert(b.subrange(s + 1, s + 1 + d2.len()) =~= d2);
            lemma_decimal_injective(n1, n2);
        }
    }
}

/// The `n`-th file name tried for `stem` (see `candidate_spec`).
pub fn candidate_name(stem: &str, ext: &str, n: usize) -> (r: String)
    ensures
        r@ == candidate_spec(stem@, ext@, n as nat),
{
    let mut out: Vec<char> = Vec::new();
    push_str(&mut out, stem);
    if n >= 2 {
        out.push('-');
        push_decimal(&mut out, n as u64);
    }
    out.push('.');
    push_str(&mut out, ext);
    assert(out@ =~= candidate_spec(stem@, ext@, n as nat));
    chars_to_string(&out)
}

/// The default output name in single and vCard mode: `qr.<ext>` or
/// `vcard.<ext>`.
pub fn default_output(vcard: bool, fmt: Format) -> (r: String)
    ensures
        r@ == (if vcard {
            "vcard"@
        } else {
            "qr"@
        }) + seq!['.'] + (if fmt == Format::Png {
            "png"@
        } else {
            "svg"@
        }),
{
    let stem = if vcard {
        "vcard"
    } else {
        "qr"
    };
    candidate_name(stem, default_extension(fmt), 1)
}

/// What a run does, once its options are checked.
#[derive(Debug, Clone, Copy, PartialEq, Eq, Structural)]
pub enum Mode {
    Vcard,
    Batch,
    Single,
}

/// Why a run stops before any output.
#[derive(Debug, Clone, Copy, PartialEq, Eq, Structural)]
pub enum RunError {
    /// The `--fg` colour is invalid.
    Fg(ColorError),
    /// The `--bg` colour is invalid.
    Bg(ColorError),
    /// `--size` is 0.
    ZeroSize,
    /// No payload, `--batch` or `--vcard` was given.
    NoInput,
}

/// Checks the options of a run in the order the command line does (colours
/// first, then the size) and picks the mode: vCard, else batch, else a
/// single payload.
pub fn plan_run(
    fg: &str,
    bg: &str,
    size: u32,
    ecc: Ecc,
    quiet_zone: u32,
    has_vcard: bool,
    has_batch: bool,
    has_payload: bool,
) -> (res: Result<(RenderOpts, Mode), RunError>)
    ensures
        parse_hex_spec(fg@) matches Err(e) ==> res == Err::<(RenderOpts, Mode), RunError>(RunError::Fg(e)),
        parse_hex_spec(fg@) is Ok ==> (parse_hex_spec(bg@) matches Err(e) ==> res == Err::<
            (RenderOpts, Mode),
            RunError,
        >(RunError::Bg(e))),
        parse_hex_spec(fg@) is Ok && parse_hex_spec(bg@) is Ok && size == 0 ==> res == Err::<
            (RenderOpts, Mode),
            RunError,
        >(RunError::ZeroSize),
        parse_hex_spec(fg@) is Ok && parse_hex_spec(bg@) is Ok && size > 0 && !has_vcard && !has_batch
            && !has_payload ==> res == Err::<(RenderOpts, Mode), RunError>(RunError::NoInput),
        res matches Ok((opts, mode)) ==> {
            &&& parse_hex_spec(fg@) == Ok::<Rgba, ColorError>(opts.fg)
            &&& parse_hex_spec(bg@) == Ok::<Rgba, ColorError>(opts.bg)
            &&& opts.size == size && size > 0
            &&& opts.ecc == ecc
            &&& opts.quiet_zone == quiet_zone
            &&& mode == if has_vcard {
                Mode::Vcard
            } else if has_batch {
                Mode::Batch
            } else {
                Mode::Single
            }
            &&& (has_vcard || has_batch || has_payload)
        },
        parse_hex_spec(fg@) is Ok && parse_hex_spec(bg@) is Ok && size > 0 && (has_vcard || has_batch
            || has_payload) ==> res is Ok,
{
    let fg_c = match parse_hex(fg) {
        Ok(c) => c,
        Err(e) => {
            return Err(RunError::Fg(e));
        },
    };
    let bg_c = match parse_hex(bg) {
        Ok(c) => c,
        Err(e) => {
            return Err(RunError::Bg(e));
        },
    };
    if size == 0 {
        return Err(RunError::ZeroSize);
    }
    let opts = RenderOpts { size, ecc, fg: fg_c, bg: bg_c, quiet_zone };
    if has_vcard {
        Ok((opts, Mode::Vcard))
    } else if has_batch {
        Ok((opts, Mode::Batch))
    } else if has_payload {
        Ok((opts, Mode::Single))
    } else {
        Err(RunError::NoInput)
    }
}

} // verus!

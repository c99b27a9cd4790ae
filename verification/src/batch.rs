//! Batch input: plain text (one payload per line) and CSV, with the file
//! stems the outputs are written under.
use vstd::prelude::*;
use vstd::string::StringSliceAdditionalSpecFns;

use crate::color::chars_eq;
use crate::text::{
    ascii_lower, ascii_lower_exec, last_index_exec, last_index_of, lemma_last_index_of, chars_to_string, copy_range, decimal, lower_chars, lower_seq,
    lemma_decimal_len_bound, lemma_padded_value, lemma_value4, pow10, push_chars, trim_end, trim_start, push_padded_decimal, push_str, str_to_chars, trim, trim_chars, zero_pad,
};

verus! {

/// One item to encode: the payload and the base file name (no extension) it
/// is written under.
#[derive(Debug, Clone, PartialEq, Eq)]
pub struct BatchItem {
    pub payload: String,
    /// Base file name without extension; the parsers only give non-empty
    /// stems of letters, digits, `.`, `-` and `_` (`safe_stem`).
    pub stem: String,
}

// ---------------------------------------------------------------------------
// Paths

/// The last component of a `/`-separated path, as `Path::file_name` gives it:
/// trailing separators and `.` components are skipped; a path that ends in
/// `..`, or has no normal component, has none.
pub open spec fn file_name(p: Seq<char>) -> Option<Seq<char>>
    decreases p.len(),
{
    if p.len() == 0 {
        None
    } else if p.last() == '/' {
        file_name(p.drop_last())
    } else {
        proof {
            lemma_last_index_of(p, '/');
        }
        let start: int = match last_index_of(p, '/') {
            Some(i) => i as int + 1,
            None => 0,
        };
        let seg = p.subrange(start, p.len() as int);
        if seg == seq!['.'] {
            if start == 0 {
                None
            } else {
                file_name(p.subrange(0, start))
            }
        } else if seg == seq!['.', '.'] {
            None
        } else {
            Some(seg)
        }
    }
}

/// The extension of a file name, as `Path::extension` gives it: the text
/// after the last `.`, unless that `.` starts the name.
pub open spec fn name_extension(name: Seq<char>) -> Option<Seq<char>> {
    match last_index_of(name, '.') {
        Some(i) => if i == 0 {
            None
        } else {
            Some(name.subrange(i + 1int, name.len() as int))
        },
        None => None,
    }
}

/// The extension of a path.
pub open spec fn path_extension(p: Seq<char>) -> Option<Seq<char>> {
    match file_name(p) {
        Some(n) => name_extension(n),
        None => None,
    }
}

fn is_lit(v: &Vec<char>, lit: &str) -> (b: bool)
    ensures
        b == (v@ == lit@),
{
    chars_eq(v, &str_to_chars(lit))
}

fn file_name_exec(p: &Vec<char>) -> (r: Option<Vec<char>>)
    ensures
        r matches Some(n) ==> file_name(p@) == Some(n@),
        r is None ==> file_name(p@) is None,
    decreases p.len(),
{
    if p.len() == 0 {
        return None;
    }
    if p[p.len() - 1] == '/' {
        let q = copy_range(p, 0, p.len() - 1);
        assert(q@ =~= p@.drop_last());
        return file_name_exec(&q);
    }
    proof {
        lemma_last_index_of(p@, '/');
    }
    let start = match last_index_exec(p, '/') {
        Some(i) => i + 1,
        None => 0,
    };
    let seg = copy_range(p, start, p.len());
    if seg.len() == 1 && seg[0] == '.' {
        assert(seg@ =~= seq!['.']);
        if start == 0 {
            None
        } else {
            let q = copy_range(p, 0, start);
            file_name_exec(&q)
        }
    } else if seg.len() == 2 && seg[0] == '.' && seg[1] == '.' {
        assert(seg@ =~= seq!['.', '.']);
        None
    } else {
        assert(seg@ != seq!['.']);
        assert(seg@ != seq!['.', '.']);
        Some(seg)
    }
}

fn name_extension_exec(name: &Vec<char>) -> (r: Option<Vec<char>>)
    ensures
        r matches Some(e) ==> name_extension(name@) == Some(e@),
        r is None ==> name_extension(name@) is None,
{
    proof {
        lemma_last_index_of(name@, '.');
    }
    match last_index_exec(name, '.') {
        Some(i) => if i == 0 {
            None
        } else {
            Some(copy_range(name, i + 1, name.len()))
        },
        None => None,
    }
}

/// The extension of the path `p`, as `Path::extension` computes it.
pub fn path_extension_exec(p: &str) -> (r: Option<Vec<char>>)
    ensures
        r matches Some(e) ==> path_extension(p@) == Some(e@),
        r is None ==> path_extension(p@) is None,
{
    match file_name_exec(&str_to_chars(p)) {
        Some(n) => name_extension_exec(&n),
        None => None,
    }
}

/// The path has the extension `csv`, in any letter case.
pub open spec fn is_csv_path(p: Seq<char>) -> bool {
    path_extension(p) matches Some(e) && lower_seq(e) == "csv"@
}

/// Whether the path has the extension `csv`, in any letter case.
pub fn is_csv(path: &str) -> (b: bool)
    ensures
        b == is_csv_path(path@),
{
    match path_extension_exec(path) {
        Some(e) => is_lit(&lower_chars(&e), "csv"),
        None => false,
    }
}

// ---------------------------------------------------------------------------
// Slugs and stems

/// ASCII letters and digits, as `char::is_ascii_alphanumeric`.
pub open spec fn is_alnum(c: char) -> bool {
    ('0' <= c <= '9') || ('a' <= c <= 'z') || ('A' <= c <= 'Z')
}

fn is_alnum_exec(c: char) -> (b: bool)
    ensures
        b == is_alnum(c),
{
    ('0' <= c && c <= '9') || ('a' <= c && c <= 'z') || ('A' <= c && c <= 'Z')
}

/// `s` without leading `c`s.
pub open spec fn strip_start(s: Seq<char>, c: char) -> Seq<char>
    decreases s.len(),
{
    if s.len() > 0 && s[0] == c {
        strip_start(s.drop_first(), c)
    } else {
        s
    }
}

/// `s` without trailing `c`s.
pub open spec fn strip_end(s: Seq<char>, c: char) -> Seq<char>
    decreases s.len(),
{
    if s.len() > 0 && s.last() == c {
        strip_end(s.drop_last(), c)
    } else {
        s
    }
}

/// `s` without `c` at either end, as `str::trim_matches(c)`.
pub open spec fn strip_both(s: Seq<char>, c: char) -> Seq<char> {
    strip_end(strip_start(s, c), c)
}

proof fn lemma_strip_start_skip(s: Seq<char>, c: char, i: int)
    requires
        0 <= i <= s.len(),
        forall|k: int| 0 <= k < i ==> #[trigger] s[k] == c,
    ensures
        strip_start(s, c) == strip_start(s.subrange(i, s.len() as int), c),
    decreases i,
{
    if i > 0 {
        assert(s.drop_first().subrange(i - 1, s.drop_first().len() as int) =~= s.subrange(
            i,
            s.len() as int,
        ));
        lemma_strip_start_skip(s.drop_first(), c, i - 1);
    } else {
        assert(s.subrange(0, s.len() as int) =~= s);
    }
}

proof fn lemma_strip_end_skip(s: Seq<char>, c: char, j: int)
    requires
        0 <= j <= s.len(),
        forall|k: int| j <= k < s.len() ==> #[trigger] s[k] == c,
    ensures
        strip_end(s, c) == strip_end(s.subrange(0, j), c),
    decreases s.len() - j,
{
    if j < s.len() {
        assert(s.drop_last().subrange(0, j) =~= s.subrange(0, j));
        lemma_strip_end_skip(s.drop_last(), c, j);
    } else {
        assert(s.subrange(0, j) =~= s);
    }
}

/// The copy of `v` without `c` at either end.
fn strip_exec(v: &Vec<char>, c: char) -> (r: Vec<char>)
    ensures
        r@ == strip_both(v@, c),
{
    let mut i: usize = 0;
    while i < v.len() && v[i] == c
        invariant
            i <= v.len(),
            forall|k: int| 0 <= k < i ==> #[trigger] v@[k] == c,
        decreases v.len() - i,
    {
        i += 1;
    }
    proof {
        lemma_strip_start_skip(v@, c, i as int);
    }
    let ghost mid = v@.subrange(i as int, v@.len() as int);
    assert(strip_start(mid, c) == mid);
    let mut j: usize = v.len();
    while j > i && v[j - 1] == c
        invariant
            i <= j <= v.len(),
            forall|k: int| j <= k < v.len() ==> #[trigger] v@[k] == c,
        decreases j,
    {
        j -= 1;
    }
    proof {
        assert forall|k: int| j - i <= k < mid.len() implies #[trigger] mid[k] == c by {
            assert(mid[k] == v@[k + i]);
        }
        lemma_strip_end_skip(mid, c, j - i);
        assert(mid.subrange(0, j - i) =~= v@.subrange(i as int, j as int));
        let m2 = v@.subrange(i as int, j as int);
        if m2.len() > 0 {
            assert(m2.last() == v@[j - 1]);
        }
    }
    copy_range(v, i, j)
}

/// The first `n` characters of `v` (all of it if shorter).
fn take_exec(v: &Vec<char>, n: usize) -> (r: Vec<char>)
    ensures
        r@ == if v@.len() > n {
            v@.take(n as int)
        } else {
            v@
        },
{
    if v.len() > n {
        copy_range(v, 0, n)
    } else {
        copy_range(v, 0, v.len())
    }
}

/// Letters lowercased, each run of other characters made one dash.
pub open spec fn slug_raw(s: Seq<char>) -> Seq<char>
    decreases s.len(),
{
    if s.len() == 0 {
        seq![]
    } else {
        let r = slug_raw(s.drop_last());
        let c = s.last();
        if is_alnum(c) {
            r.push(ascii_lower(c))
        } else if r.len() > 0 && r.last() == '-' {
            r
        } else {
            r.push('-')
        }
    }
}

/// At most `n` characters of `s`.
pub open spec fn cap(s: Seq<char>, n: nat) -> Seq<char> {
    if s.len() > n {
        s.take(n as int)
    } else {
        s
    }
}

/// What `slugify` gives: lowercased ASCII letters and digits, other runs made
/// single dashes, dashes trimmed, capped at 40 characters, trimmed again.
pub open spec fn slugify_spec(s: Seq<char>) -> Seq<char> {
    strip_both(cap(strip_both(slug_raw(s), '-'), 40), '-')
}

/// A character a slug may hold.
pub open spec fn is_slug_char(c: char) -> bool {
    ('0' <= c <= '9') || ('a' <= c <= 'z') || c == '-'
}

/// Only slug characters, and never two dashes in a row.
pub open spec fn dash_clean(s: Seq<char>) -> bool {
    &&& forall|i: int| 0 <= i < s.len() ==> is_slug_char(#[trigger] s[i])
    &&& forall|i: int| 0 <= i < s.len() - 1 ==> !(#[trigger] s[i] == '-' && s[i + 1] == '-')
}

/// The shape every slug has: lowercase letters, digits and single dashes,
/// no dash at either end, at most 40 characters.
pub open spec fn is_slug(s: Seq<char>) -> bool {
    &&& dash_clean(s)
    &&& s.len() <= 40
    &&& s.len() > 0 ==> s[0] != '-' && s.last() != '-'
}

proof fn lemma_slug_raw_clean(s: Seq<char>)
    ensures
        dash_clean(slug_raw(s)),
    decreases s.len(),
{
    if s.len() > 0 {
        lemma_slug_raw_clean(s.drop_last());
        let r = slug_raw(s.drop_last());
        let t = slug_raw(s);
        assert forall|i: int| 0 <= i < t.len() implies is_slug_char(#[trigger] t[i]) by {
            if i < r.len() {
                assert(t[i] == r[i]);
            }
        }
        assert forall|i: int| 0 <= i < t.len() - 1 implies !(#[trigger] t[i] == '-' && t[i + 1]
            == '-') by {
            if i + 1 < r.len() {
                assert(t[i] == r[i] && t[i + 1] == r[i + 1]);
            }
        }
    }
}

proof fn lemma_clean_subrange(s: Seq<char>, a: int, b: int)
    requires
        dash_clean(s),
        0 <= a <= b <= s.len(),
    ensures
        dash_clean(s.subrange(a, b)),
{
    let t = s.subrange(a, b);
    assert forall|i: int| 0 <= i < t.len() implies is_slug_char(#[trigger] t[i]) by {
        assert(t[i] == s[i + a]);
    }
    assert forall|i: int| 0 <= i < t.len() - 1 implies !(#[trigger] t[i] == '-' && t[i + 1] == '-') by {
        assert(t[i] == s[i + a] && t[i + 1] == s[i + 1 + a]);
    }
}

proof fn lemma_strip_start_sub(s: Seq<char>, c: char)
    ensures
        exists|a: int| 0 <= a <= s.len() && strip_start(s, c) == s.subrange(a, s.len() as int),
        strip_start(s, c).len() > 0 ==> strip_start(s, c)[0] != c,
    decreases s.len(),
{
    if s.len() > 0 && s[0] == c {
        lemma_strip_start_sub(s.drop_first(), c);
        let a = choose|a: int|
            0 <= a <= s.drop_first().len() && strip_start(s.drop_first(), c)
                == s.drop_first().subrange(a, s.drop_first().len() as int);
        assert(s.drop_first().subrange(a, s.drop_first().len() as int) =~= s.subrange(
            a + 1,
            s.len() as int,
        ));
    } else {
        assert(s.subrange(0, s.len() as int) =~= s);
    }
}

proof fn lemma_strip_end_sub(s: Seq<char>, c: char)
    ensures
        exists|b: int| 0 <= b <= s.len() && strip_end(s, c) == s.subrange(0, b),
        strip_end(s, c).len() > 0 ==> strip_end(s, c).last() != c && strip_end(s, c)[0] == s[0],
    decreases s.len(),
{
    if s.len() > 0 && s.last() == c {
        lemma_strip_end_sub(s.drop_last(), c);
        let b = choose|b: int|
            0 <= b <= s.drop_last().len() && strip_end(s.drop_last(), c) == s.drop_last().subrange(
                0,
                b,
            );
        assert(s.drop_last().subrange(0, b) =~= s.subrange(0, b));
    } else {
        assert(s.subrange(0, s.len() as int) =~= s);
    }
}

proof fn lemma_strip_both_clean(s: Seq<char>)
    requires
        dash_clean(s),
    ensures
        dash_clean(strip_both(s, '-')),
        strip_both(s, '-').len() <= s.len(),
        strip_both(s, '-').len() > 0 ==> strip_both(s, '-')[0] != '-' && strip_both(s, '-').last()
            != '-',
{
    lemma_strip_start_sub(s, '-');
    let x = strip_start(s, '-');
    let a = choose|a: int| 0 <= a <= s.len() && x == s.subrange(a, s.len() as int);
    lemma_clean_subrange(s, a, s.len() as int);
    lemma_strip_end_sub(x, '-');
    let b = choose|b: int| 0 <= b <= x.len() && strip_end(x, '-') == x.subrange(0, b);
    lemma_clean_subrange(x, 0, b);
}

/// Every slug has the documented shape.
pub proof fn lemma_slug_shape(s: Seq<char>)
    ensures
        is_slug(slugify_spec(s)),
{
    lemma_slug_raw_clean(s);
    let t = strip_both(slug_raw(s), '-');
    lemma_strip_both_clean(slug_raw(s));
    let u = cap(t, 40);
    if t.len() > 40 {
        lemma_clean_subrange(t, 0, 40);
    }
    lemma_strip_both_clean(u);
}

/// Lowercases, replaces each run of characters other than ASCII letters and
/// digits with one dash, trims dashes, and caps the length at 40.
pub fn slugify(s: &str) -> (r: String)
    ensures
        r@ == slugify_spec(s@),
        is_slug(r@),
{
    let chars = str_to_chars(s);
    let mut out: Vec<char> = Vec::new();
    let mut prev_dash = false;
    for i in 0..chars.len()
        invariant
            out@ == slug_raw(chars@.take(i as int)),
            prev_dash == (out@.len() > 0 && out@.last() == '-'),
    {
        let c = chars[i];
        assert(chars@.take(i + 1).drop_last() =~= chars@.take(i as int));
        if is_alnum_exec(c) {
            out.push(ascii_lower_exec(c));
            prev_dash = false;
        } else if !prev_dash {
            out.push('-');
            prev_dash = true;
        }
    }
    assert(chars@.take(chars.len() as int) =~= chars@);
    let t = strip_exec(&out, '-');
    let u = take_exec(&t, 40);
    let v = strip_exec(&u, '-');
    proof {
        lemma_slug_shape(s@);
    }
    chars_to_string(&v)
}

proof fn lemma_strip_none(s: Seq<char>, c: char)
    requires
        s.len() > 0 ==> s[0] != c && s.last() != c,
    ensures
        strip_both(s, c) == s,
{
}

proof fn lemma_slug_raw_fixed(t: Seq<char>)
    requires
        dash_clean(t),
    ensures
        slug_raw(t) == t,
    decreases t.len(),
{
    if t.len() > 0 {
        let n = t.len() as int;
        let d = t.drop_last();
        lemma_clean_subrange(t, 0, n - 1);
        assert(d =~= t.subrange(0, n - 1));
        lemma_slug_raw_fixed(d);
        let c = t.last();
        assert(is_slug_char(t[n - 1]));
        if n >= 2 {
            assert(!(t[n - 2] == '-' && t[n - 1] == '-'));
            assert(d.last() == t[n - 2]);
        }
        assert(d.push(c) =~= t);
    }
}

/// Slugging a slug changes nothing.
pub proof fn lemma_slugify_idempotent(s: Seq<char>)
    ensures
        slugify_spec(slugify_spec(s)) == slugify_spec(s),
{
    lemma_slug_shape(s);
    let t = slugify_spec(s);
    lemma_slug_raw_fixed(t);
    lemma_strip_none(t, '-');
    assert(cap(t, 40) == t);
}

/// The part of an indexed stem after the index: the payload's slug, or `qr`
/// when the payload has none.
pub open spec fn stem_tail(payload: Seq<char>) -> Seq<char> {
    if slugify_spec(payload).len() == 0 {
        seq!['q', 'r']
    } else {
        slugify_spec(payload)
    }
}

/// What `indexed_slug` gives: the index zero-padded to four digits, a dash,
/// and the slug (`qr` when the slug is empty).
pub open spec fn indexed_slug_spec(payload: Seq<char>, idx: nat) -> Seq<char> {
    zero_pad(decimal(idx), 4) + seq!['-'] + stem_tail(payload)
}

/// Every indexed stem starts with its zero-padded index; up to 9999 that is
/// its first four characters.
pub proof fn lemma_indexed_stem_prefix(payload: Seq<char>, idx: nat)
    ensures
        indexed_slug_spec(payload, idx).take(zero_pad(decimal(idx), 4).len() as int) == zero_pad(decimal(idx), 4),
        idx <= 9999 ==> zero_pad(decimal(idx), 4).len() == 4 && indexed_slug_spec(payload, idx).take(4) == zero_pad(
            decimal(idx),
            4,
        ),
{
    let num = zero_pad(decimal(idx), 4);
    let s = indexed_slug_spec(payload, idx);
    assert(s.take(num.len() as int) =~= num);
    if idx <= 9999 {
        assert(pow10(4) == 10000) by {
            reveal_with_fuel(pow10, 5);
        }
        lemma_decimal_len_bound(idx, 4);
    }
}

/// Distinct indices give distinct stems, whatever the payloads: batch output
/// files never collide.
pub proof fn lemma_indexed_stems_distinct(p1: Seq<char>, i1: nat, p2: Seq<char>, i2: nat)
    requires
        i1 != i2,
    ensures
        indexed_slug_spec(p1, i1) != indexed_slug_spec(p2, i2),
{
    let n1 = zero_pad(decimal(i1), 4);
    let n2 = zero_pad(decimal(i2), 4);
    lemma_padded_value(i1, 4);
    lemma_padded_value(i2, 4);
    let s1 = indexed_slug_spec(p1, i1);
    let s2 = indexed_slug_spec(p2, i2);
    if s1 == s2 {
        if n1.len() < n2.len() {
            assert(s1[n1.len() as int] == '-');
            assert(s2[n1.len() as int] == n2[n1.len() as int]);
        } else if n2.len() < n1.len() {
            assert(s2[n2.len() as int] == '-');
            assert(s1[n2.len() as int] == n1[n2.len() as int]);
        } else {
            assert(s1.subrange(0, n1.len() as int) =~= n1);
            assert(s2.subrange(0, n2.len() as int) =~= n2);
        }
    }
}

/// `a` comes before `b` in character order: they first differ at a
/// position where `a` has the smaller character.
pub open spec fn sorts_before(a: Seq<char>, b: Seq<char>) -> bool {
    exists|k: int|
        0 <= k < a.len() && k < b.len() && (#[trigger] a[k]) < b[k] && forall|m: int| 0 <= m < k ==> a[m] == b[m]
}

proof fn lemma_pad4_sorts(i: nat, j: nat)
    requires
        i < j < 10000,
    ensures
        zero_pad(decimal(i), 4).len() == 4,
        zero_pad(decimal(j), 4).len() == 4,
        exists|k: int|
            0 <= k < 4 && (#[trigger] zero_pad(decimal(i), 4)[k]) < zero_pad(decimal(j), 4)[k] && forall|m: int|
                0 <= m < k ==> zero_pad(decimal(i), 4)[m] == zero_pad(decimal(j), 4)[m],
{
    let a = zero_pad(decimal(i), 4);
    let b = zero_pad(decimal(j), 4);
    assert(pow10(4) == 10000) by {
        reveal_with_fuel(pow10, 5);
    }
    lemma_decimal_len_bound(i, 4);
    lemma_decimal_len_bound(j, 4);
    lemma_padded_value(i, 4);
    lemma_padded_value(j, 4);
    lemma_value4(a);
    lemma_value4(b);
    assert('0' <= a[0] <= '9' && '0' <= a[1] <= '9' && '0' <= a[2] <= '9' && '0' <= a[3] <= '9');
    assert('0' <= b[0] <= '9' && '0' <= b[1] <= '9' && '0' <= b[2] <= '9' && '0' <= b[3] <= '9');
    if a[0] != b[0] {
        assert(a[0] < b[0]);
        assert(a[0] < b[0] && forall|m: int| 0 <= m < 0 ==> a[m] == b[m]);
    } else if a[1] != b[1] {
        assert(a[1] < b[1]);
        assert(forall|m: int| 0 <= m < 1 ==> a[m] == b[m]);
    } else if a[2] != b[2] {
        assert(a[2] < b[2]);
        assert(forall|m: int| 0 <= m < 2 ==> a[m] == b[m]);
    } else {
        assert(a[3] < b[3]);
        assert(forall|m: int| 0 <= m < 3 ==> a[m] == b[m]);
    }
}

/// Stems sort in input order: for indices up to 9999, the stem of an
/// earlier payload comes first, whatever the payloads.
pub proof fn lemma_indexed_stems_sort(p1: Seq<char>, i: nat, p2: Seq<char>, j: nat)
    requires
        i < j <= 9999,
    ensures
        sorts_before(indexed_slug_spec(p1, i), indexed_slug_spec(p2, j)),
{
    lemma_pad4_sorts(i, j);
    let a = zero_pad(decimal(i), 4);
    let b = zero_pad(decimal(j), 4);
    let k = choose|k: int| 0 <= k < 4 && (#[trigger] a[k]) < b[k] && forall|m: int| 0 <= m < k ==> a[m] == b[m];
    let s1 = indexed_slug_spec(p1, i);
    let s2 = indexed_slug_spec(p2, j);
    assert(s1[k] == a[k] && s2[k] == b[k]);
    assert forall|m: int| 0 <= m < k implies s1[m] == s2[m] by {
        assert(s1[m] == a[m] && s2[m] == b[m]);
    }
}

/// A file stem for the `idx`-th payload: a zero-padded index and the
/// payload's slug, so files sort in input order and never collide.
pub fn indexed_slug(payload: &str, idx: usize) -> (r: String)
    ensures
        r@ == indexed_slug_spec(payload@, idx as nat),
{
    let slug = str_to_chars(slugify(payload).as_str());
    let mut out: Vec<char> = Vec::new();
    push_padded_decimal(&mut out, idx as u64, 4);
    out.push('-');
    if slug.len() == 0 {
        out.push('q');
        out.push('r');
    } else {
        push_chars(&mut out, &slug);
    }
    assert(out@ =~= indexed_slug_spec(payload@, idx as nat));
    chars_to_string(&out)
}


/// A character a sanitized stem keeps: letters, digits, `.`, `-` and `_`.
pub open spec fn is_stem_char(c: char) -> bool {
    is_alnum(c) || c == '.' || c == '-' || c == '_'
}

/// Stem characters kept, each run of other characters made one dash; the
/// flag tells whether the last character came from such a run.
pub open spec fn sanitize_raw(s: Seq<char>) -> (Seq<char>, bool)
    decreases s.len(),
{
    if s.len() == 0 {
        (seq![], false)
    } else {
        let (r, prev) = sanitize_raw(s.drop_last());
        let c = s.last();
        if is_stem_char(c) {
            (r.push(c), false)
        } else if !prev {
            (r.push('-'), true)
        } else {
            (r, true)
        }
    }
}

/// The file-name part of a path, or the whole text when it has none.
pub open spec fn base_name(name: Seq<char>) -> Seq<char> {
    match file_name(name) {
        Some(n) => n,
        None => name,
    }
}

/// The text before the last `.`, or all of it.
pub open spec fn drop_extension(b: Seq<char>) -> Seq<char> {
    match last_index_of(b, '.') {
        Some(i) => b.take(i as int),
        None => b,
    }
}

/// What `sanitize_stem` gives: the file name only, extension dropped, other
/// characters than letters, digits, `.`, `-` and `_` made single dashes,
/// dashes trimmed, capped at 60 characters.
pub open spec fn sanitize_stem_spec(name: Seq<char>) -> Seq<char> {
    cap(strip_both(sanitize_raw(drop_extension(base_name(name))).0, '-'), 60)
}

proof fn lemma_sanitize_raw_chars(s: Seq<char>)
    ensures
        forall|i: int| 0 <= i < sanitize_raw(s).0.len() ==> is_stem_char(#[trigger] sanitize_raw(s).0[i]),
    decreases s.len(),
{
    if s.len() > 0 {
        lemma_sanitize_raw_chars(s.drop_last());
        let r = sanitize_raw(s.drop_last()).0;
        let t = sanitize_raw(s).0;
        assert forall|i: int| 0 <= i < t.len() implies is_stem_char(#[trigger] t[i]) by {
            if i < r.len() {
                assert(t[i] == r[i]);
            }
        }
    }
}

/// A sanitized stem holds only letters, digits, `.`, `-` and `_` (so no
/// path separator: it names a file in the output directory), and at most 60
/// characters.
pub proof fn lemma_stem_is_safe(name: Seq<char>)
    ensures
        forall|i: int|
            0 <= i < sanitize_stem_spec(name).len() ==> is_stem_char(#[trigger] sanitize_stem_spec(name)[i]),
        sanitize_stem_spec(name).len() <= 60,
{
    let raw = sanitize_raw(drop_extension(base_name(name))).0;
    lemma_sanitize_raw_chars(drop_extension(base_name(name)));
    lemma_strip_start_sub(raw, '-');
    let x = strip_start(raw, '-');
    let a = choose|a: int| 0 <= a <= raw.len() && x == raw.subrange(a, raw.len() as int);
    lemma_strip_end_sub(x, '-');
    let y = strip_end(x, '-');
    let b = choose|b: int| 0 <= b <= x.len() && y == x.subrange(0, b);
    let z = cap(y, 60);
    assert forall|i: int| 0 <= i < z.len() implies is_stem_char(#[trigger] z[i]) by {
        assert(z[i] == y[i]);
        assert(y[i] == x[i]);
        assert(x[i] == raw[i + a]);
    }
}

/// A stem that is safe as a file name: non-empty, and only letters, digits,
/// `.`, `-` and `_` (so no path separator: `stem.ext` names a file in the
/// output directory).
pub open spec fn safe_stem(s: Seq<char>) -> bool {
    &&& s.len() > 0
    &&& forall|i: int| 0 <= i < s.len() ==> is_stem_char(#[trigger] s[i])
}

/// Every item's stem is safe.
pub open spec fn stems_safe(items: Seq<BatchItem>) -> bool {
    forall|k: int| 0 <= k < items.len() ==> safe_stem((#[trigger] items[k]).stem@)
}

/// Every indexed slug is a safe stem.
pub proof fn lemma_indexed_slug_safe(payload: Seq<char>, idx: nat)
    ensures
        safe_stem(indexed_slug_spec(payload, idx)),
{
    let tail = stem_tail(payload);
    let num = zero_pad(decimal(idx), 4);
    lemma_padded_value(idx, 4);
    lemma_slug_shape(payload);
    let s = indexed_slug_spec(payload, idx);
    assert forall|i: int| 0 <= i < s.len() implies is_stem_char(#[trigger] s[i]) by {
        if i < num.len() {
            assert(s[i] == num[i]);
        } else if i > num.len() {
            assert(s[i] == tail[i - num.len() - 1]);
            if slugify_spec(payload).len() > 0 {
                assert(is_slug_char(slugify_spec(payload)[i - num.len() - 1]));
            }
        }
    }
}

proof fn lemma_rows_items_safe(recs: Seq<Seq<Seq<char>>>, pcol: nat, fcol: Option<nat>)
    ensures
        forall|k: int| 0 <= k < rows_items(recs, pcol, fcol).len() ==> safe_stem(#[trigger] rows_items(recs, pcol, fcol)[k].1),
    decreases recs.len(),
{
    if recs.len() > 0 {
        lemma_rows_items_safe(recs.drop_last(), pcol, fcol);
        let acc = rows_items(recs.drop_last(), pcol, fcol);
        let r = recs.last();
        let payload = trim(field_or_empty(r, pcol));
        if payload.len() > 0 {
            let idx = (acc.len() + 1) as nat;
            lemma_indexed_slug_safe(payload, idx);
            match fcol {
                Some(c) => {
                    if c < r.len() {
                        lemma_stem_is_safe(trim(r[c as int]));
                    }
                },
                None => {},
            }
            let all = rows_items(recs, pcol, fcol);
            assert(all == acc.push((payload, row_stem(r, fcol, payload, idx))));
            assert forall|k: int| 0 <= k < all.len() implies safe_stem(#[trigger] all[k].1) by {
                if k < acc.len() {
                    assert(all[k] == acc[k]);
                }
            }
        }
    }
}

/// Every stem of a CSV table's items is safe.
pub proof fn lemma_table_stems_safe(header: Seq<Seq<char>>, rows: Seq<Seq<Seq<char>>>)
    ensures
        forall|k: int| 0 <= k < table_items(header, rows).len() ==> safe_stem(#[trigger] table_items(header, rows)[k].1),
{
    let tcol = text_column(header);
    let fcol = file_column(header);
    let pcol: nat = match tcol {
        Some(i) => i,
        None => 0,
    };
    lemma_rows_items_safe(seq![header] + rows, pcol, fcol);
    lemma_rows_items_safe(rows, pcol, fcol);
}

/// Makes a user-supplied file name safe as a stem: directories and the
/// extension are dropped, and other characters than letters, digits, `.`,
/// `-` and `_` become single dashes.
fn sanitize_stem(name: &str) -> (r: Vec<char>)
    ensures
        r@ == sanitize_stem_spec(name@),
{
    let chars = str_to_chars(name);
    let base = match file_name_exec(&chars) {
        Some(n) => n,
        None => chars,
    };
    proof {
        lemma_last_index_of(base@, '.');
    }
    let base = match last_index_exec(&base, '.') {
        Some(i) => copy_range(&base, 0, i),
        None => base,
    };
    let mut out: Vec<char> = Vec::new();
    let mut prev_dash = false;
    for i in 0..base.len()
        invariant
            (out@, prev_dash) == sanitize_raw(base@.take(i as int)),
    {
        let c = base[i];
        assert(base@.take(i + 1).drop_last() =~= base@.take(i as int));
        if is_alnum_exec(c) || c == '.' || c == '-' || c == '_' {
            out.push(c);
            prev_dash = false;
        } else if !prev_dash {
            out.push('-');
            prev_dash = true;
        }
    }
    assert(base@.take(base.len() as int) =~= base@);
    let t = strip_exec(&out, '-');
    take_exec(&t, 60)
}

// ---------------------------------------------------------------------------
// Plain-text batches

/// The text split at each newline (the last piece may be empty).
pub open spec fn split_lines(s: Seq<char>) -> Seq<Seq<char>>
    decreases s.len(),
{
    proof {
        lemma_last_index_of(s, '\n');
    }
    match last_index_of(s, '\n') {
        None => seq![s],
        Some(i) => split_lines(s.take(i as int)).push(s.subrange(i + 1int, s.len() as int)),
    }
}

/// A line that yields a payload: not blank, not a `#` comment.
pub open spec fn kept(line: Seq<char>) -> bool {
    trim(line).len() > 0 && trim(line)[0] != '#'
}

/// The trimmed kept lines, in order.
pub open spec fn line_payloads(lines: Seq<Seq<char>>) -> Seq<Seq<char>>
    decreases lines.len(),
{
    if lines.len() == 0 {
        seq![]
    } else {
        let p = line_payloads(lines.drop_last());
        if kept(lines.last()) {
            p.push(trim(lines.last()))
        } else {
            p
        }
    }
}

/// The payloads a plain-text batch yields: each line trimmed (so a CRLF line
/// end counts as a newline), blank lines and `#` comments skipped.
pub open spec fn text_payloads(data: Seq<char>) -> Seq<Seq<char>> {
    line_payloads(split_lines(data))
}

/// `items` are the payloads numbered from 1, each under its indexed slug.
pub open spec fn numbered_items(items: Seq<BatchItem>, payloads: Seq<Seq<char>>) -> bool {
    &&& items.len() == payloads.len()
    &&& forall|k: int|
        0 <= k < items.len() ==> (#[trigger] items[k]).payload@ == payloads[k] && items[k].stem@
            == indexed_slug_spec(payloads[k], (k + 1) as nat)
}

proof fn lemma_split_push(s: Seq<char>, c: char)
    ensures
        split_lines(s).len() >= 1,
        c == '\n' ==> split_lines(s.push(c)) == split_lines(s).push(seq![]),
        c != '\n' ==> split_lines(s.push(c)) == split_lines(s).drop_last().push(
            split_lines(s).last().push(c),
        ),
    decreases s.len(),
{
    let t = s.push(c);
    lemma_last_index_of(s, '\n');
    lemma_last_index_of(t, '\n');
    assert(t.drop_last() =~= s);
    if c == '\n' {
        assert(t.take(s.len() as int) =~= s);
        assert(t.subrange(s.len() + 1int, t.len() as int) =~= Seq::<char>::empty());
    } else {
        assert(last_index_of(t, '\n') == last_index_of(s, '\n'));
        match last_index_of(s, '\n') {
            None => {
                assert(split_lines(t) =~= seq![t]);
            },
            Some(i) => {
                assert(t.take(i as int) =~= s.take(i as int));
                assert(t.subrange(i + 1int, t.len() as int) =~= s.subrange(i + 1int, s.len() as int).push(c));
                assert(split_lines(s) == split_lines(s.take(i as int)).push(s.subrange(i + 1int, s.len() as int)));
                assert(split_lines(s).drop_last() =~= split_lines(s.take(i as int)));
            },
        }
    }
}

proof fn lemma_split_concat(a: Seq<char>, b: Seq<char>)
    ensures
        split_lines(a + seq!['\n'] + b) == split_lines(a) + split_lines(b),
    decreases b.len(),
{
    lemma_last_index_of(Seq::<char>::empty(), '\n');
    if b.len() == 0 {
        lemma_split_push(a, '\n');
        assert(a + seq!['\n'] + b =~= a.push('\n'));
        assert(b =~= Seq::<char>::empty());
        assert(split_lines(b) =~= seq![Seq::<char>::empty()]);
        assert(split_lines(a).push(Seq::<char>::empty()) =~= split_lines(a) + split_lines(b));
    } else {
        let b1 = b.drop_last();
        let c = b.last();
        let t = a + seq!['\n'] + b1;
        lemma_split_concat(a, b1);
        lemma_split_push(t, c);
        lemma_split_push(b1, c);
        assert(t.push(c) =~= a + seq!['\n'] + b);
        assert(b1.push(c) =~= b);
        let sa = split_lines(a);
        let sb = split_lines(b1);
        if c == '\n' {
            assert((sa + sb).push(Seq::<char>::empty()) =~= sa + sb.push(Seq::<char>::empty()));
        } else {
            assert((sa + sb).drop_last() =~= sa + sb.drop_last());
            assert((sa + sb).last() == sb.last());
            assert((sa + sb).drop_last().push((sa + sb).last().push(c)) =~= sa + sb.drop_last().push(
                sb.last().push(c),
            ));
        }
    }
}

proof fn lemma_line_payloads_concat(x: Seq<Seq<char>>, y: Seq<Seq<char>>)
    ensures
        line_payloads(x + y) == line_payloads(x) + line_payloads(y),
    decreases y.len(),
{
    if y.len() == 0 {
        assert(x + y =~= x);
        assert(line_payloads(x) + line_payloads(y) =~= line_payloads(x));
    } else {
        lemma_line_payloads_concat(x, y.drop_last());
        assert((x + y).drop_last() =~= x + y.drop_last());
        assert((x + y).last() == y.last());
        let px = line_payloads(x);
        let py = line_payloads(y.drop_last());
        assert((px + py).push(trim(y.last())) =~= px + py.push(trim(y.last())));
    }
}

/// A text without a line break is one line: it yields its trimmed text when
/// that is not blank and does not start with `#`, and nothing otherwise.
pub proof fn lemma_one_line_payloads(s: Seq<char>)
    requires
        forall|i: int| 0 <= i < s.len() ==> s[i] != '\n',
    ensures
        text_payloads(s) == if trim(s).len() > 0 && trim(s)[0] != '#' {
            seq![trim(s)]
        } else {
            Seq::<Seq<char>>::empty()
        },
{
    lemma_last_index_of(s, '\n');
    assert(last_index_of(s, '\n') is None);
    let ls = seq![s];
    assert(split_lines(s) == ls);
    assert(ls.drop_last() =~= Seq::<Seq<char>>::empty());
    assert(line_payloads(ls.drop_last()) == Seq::<Seq<char>>::empty());
    assert(ls.last() == s);
    if trim(s).len() > 0 && trim(s)[0] != '#' {
        assert(Seq::<Seq<char>>::empty().push(trim(s)) =~= seq![trim(s)]);
    }
}

/// Lines are read one by one: the payloads of two texts joined by a newline
/// are those of the first followed by those of the second.
pub proof fn lemma_payloads_concat(a: Seq<char>, b: Seq<char>)
    ensures
        text_payloads(a + seq!['\n'] + b) == text_payloads(a) + text_payloads(b),
{
    lemma_split_concat(a, b);
    lemma_line_payloads_concat(split_lines(a), split_lines(b));
}

/// Adds the item for `line` to `items` if the line is kept.
fn take_line(items: &mut Vec<BatchItem>, line: &Vec<char>, Ghost(done): Ghost<Seq<Seq<char>>>)
    requires
        numbered_items(old(items)@, line_payloads(done)),
        old(items)@.len() + line@.len() <= usize::MAX,
    ensures
        numbered_items(final(items)@, line_payloads(done.push(line@))),
        final(items)@.len() <= old(items)@.len() + 1,
        final(items)@.len() > old(items)@.len() ==> line@.len() > 0,
{
    assert(done.push(line@).drop_last() =~= done);
    let t = trim_chars(line);
    proof {
        if line@.len() == 0 {
            assert(trim_start(line@) == line@);
            assert(trim_end(line@) == line@);
        }
    }
    if t.len() > 0 && t[0] != '#' {
        let idx = items.len() + 1;
        let payload = chars_to_string(&t);
        let stem = indexed_slug(payload.as_str(), idx);
        items.push(BatchItem { payload, stem });
    }
}

/// Parses plain text: one payload per non-blank line, trimmed; lines whose
/// first non-blank character is `#` are comments and skipped.
pub fn parse_lines(data: &str) -> (items: Vec<BatchItem>)
    ensures
        numbered_items(items@, text_payloads(data@)),
        stems_safe(items@),
{
    let chars = str_to_chars(data);
    let mut items: Vec<BatchItem> = Vec::new();
    let mut cur: Vec<char> = Vec::new();
    let ghost mut done: Seq<Seq<char>> = seq![];
    assert(chars@.take(0) =~= Seq::<char>::empty());
    assert(split_lines(Seq::<char>::empty()) =~= seq![Seq::<char>::empty()]) by {
        lemma_last_index_of(Seq::<char>::empty(), '\n');
    }
    for i in 0..chars.len()
        invariant
            split_lines(chars@.take(i as int)) == done.push(cur@),
            numbered_items(items@, line_payloads(done)),
            items@.len() + cur@.len() <= i,
    {
        let c = chars[i];
        proof {
            lemma_split_push(chars@.take(i as int), c);
            assert(chars@.take(i + 1) =~= chars@.take(i as int).push(c));
            assert(done.push(cur@).drop_last() =~= done);
        }
        if c == '\n' {
            take_line(&mut items, &cur, Ghost(done));
            proof {
                done = done.push(cur@);
            }
            cur = Vec::new();
            assert(split_lines(chars@.take(i + 1)) =~= done.push(cur@));
        } else {
            cur.push(c);
            assert(split_lines(chars@.take(i + 1)) =~= done.push(cur@));
        }
    }
    assert(chars@.take(chars.len() as int) =~= chars@);
    take_line(&mut items, &cur, Ghost(done));
    proof {
        let ps = text_payloads(data@);
        assert forall|k: int| 0 <= k < items@.len() implies safe_stem((#[trigger] items@[k]).stem@) by {
            lemma_indexed_slug_safe(ps[k], (k + 1) as nat);
        }
    }
    items
}

// ---------------------------------------------------------------------------
// CSV batches

/// Why a batch gave no items.
#[derive(Debug, Clone, Copy, PartialEq, Eq, Structural)]
pub enum BatchError {
    /// The CSV header row could not be read.
    CsvHeader,
    /// A CSV row after the header could not be read.
    CsvRow,
    /// The CSV has no row with a non-empty payload.
    NoRows,
}

/// Header names of the payload column (compared trimmed and lowercased).
pub open spec fn is_text_header(h: Seq<char>) -> bool {
    h == "text"@ || h == "payload"@ || h == "data"@ || h == "url"@
}

/// Header names of the file-name column (compared trimmed and lowercased).
pub open spec fn is_file_header(h: Seq<char>) -> bool {
    h == "filename"@ || h == "file"@ || h == "name"@
}

/// The first header (trimmed, lowercased) that names the payload column.
pub open spec fn text_column(hs: Seq<Seq<char>>) -> Option<nat>
    decreases hs.len(),
{
    if hs.len() == 0 {
        None
    } else {
        match text_column(hs.drop_last()) {
            Some(i) => Some(i),
            None => if is_text_header(lower_seq(trim(hs.last()))) {
                Some((hs.len() - 1) as nat)
            } else {
                None
            },
        }
    }
}

/// The first header (trimmed, lowercased) that names the file-name column.
pub open spec fn file_column(hs: Seq<Seq<char>>) -> Option<nat>
    decreases hs.len(),
{
    if hs.len() == 0 {
        None
    } else {
        match file_column(hs.drop_last()) {
            Some(i) => Some(i),
            None => if is_file_header(lower_seq(trim(hs.last()))) {
                Some((hs.len() - 1) as nat)
            } else {
                None
            },
        }
    }
}

/// Field `i` of a record, or empty text when the record is shorter.
pub open spec fn field_or_empty(r: Seq<Seq<char>>, i: nat) -> Seq<char> {
    if i < r.len() {
        r[i as int]
    } else {
        seq![]
    }
}

/// The stem for a CSV row: its sanitized file-name field when that is
/// non-empty, else the indexed slug of the payload.
pub open spec fn row_stem(r: Seq<Seq<char>>, fcol: Option<nat>, payload: Seq<char>, idx: nat) -> Seq<char> {
    match fcol {
        Some(c) => if c < r.len() && trim(r[c as int]).len() > 0 && sanitize_stem_spec(
            trim(r[c as int]),
        ).len() > 0 {
            sanitize_stem_spec(trim(r[c as int]))
        } else {
            indexed_slug_spec(payload, idx)
        },
        None => indexed_slug_spec(payload, idx),
    }
}

/// (payload, stem) for each record with a non-empty payload, numbered from 1.
pub open spec fn rows_items(recs: Seq<Seq<Seq<char>>>, pcol: nat, fcol: Option<nat>) -> Seq<(Seq<char>, Seq<char>)>
    decreases recs.len(),
{
    if recs.len() == 0 {
        seq![]
    } else {
        let acc = rows_items(recs.drop_last(), pcol, fcol);
        let r = recs.last();
        let payload = trim(field_or_empty(r, pcol));
        if payload.len() == 0 {
            acc
        } else {
            acc.push((payload, row_stem(r, fcol, payload, (acc.len() + 1) as nat)))
        }
    }
}

/// The items of a CSV table: the payload column is the first `text`,
/// `payload`, `data` or `url` header, the stem column the first `filename`,
/// `file` or `name` header; with neither header the header row is data and
/// column 0 is the payload.
pub open spec fn table_items(header: Seq<Seq<char>>, rows: Seq<Seq<Seq<char>>>) -> Seq<(Seq<char>, Seq<char>)> {
    let tcol = text_column(header);
    let fcol = file_column(header);
    let pcol: nat = match tcol {
        Some(i) => i,
        None => 0,
    };
    if tcol is None && fcol is None {
        rows_items(seq![header] + rows, pcol, fcol)
    } else {
        rows_items(rows, pcol, fcol)
    }
}

/// A header cell that names the payload column: `text`, `payload`, `data` or
/// `url`, in any letter case, surrounding whitespace ignored.
pub open spec fn names_payload(h: Seq<char>) -> bool {
    let k = lower_seq(trim(h));
    k == "text"@ || k == "payload"@ || k == "data"@ || k == "url"@
}

/// A header cell that names the file-name column: `filename`, `file` or
/// `name`, in any letter case, surrounding whitespace ignored.
pub open spec fn names_file(h: Seq<char>) -> bool {
    let k = lower_seq(trim(h));
    k == "filename"@ || k == "file"@ || k == "name"@
}

/// The trimmed, non-empty cells of column `c`, row by row (a row without
/// that column counts as empty).
pub open spec fn column_payloads(rows: Seq<Seq<Seq<char>>>, c: nat) -> Seq<Seq<char>>
    decreases rows.len(),
{
    if rows.len() == 0 {
        seq![]
    } else {
        let r = rows.last();
        let v = if c < r.len() {
            trim(r[c as int])
        } else {
            seq![]
        };
        if v.len() > 0 {
            column_payloads(rows.drop_last(), c).push(v)
        } else {
            column_payloads(rows.drop_last(), c)
        }
    }
}

/// The payloads of a list of (payload, stem) pairs.
pub open spec fn payloads_of(items: Seq<(Seq<char>, Seq<char>)>) -> Seq<Seq<char>> {
    items.map_values(|p: (Seq<char>, Seq<char>)| p.0)
}

proof fn lemma_text_column_first(hs: Seq<Seq<char>>, j: int)
    requires
        0 <= j <= hs.len(),
        forall|k: int| 0 <= k < j ==> !names_payload(#[trigger] hs[k]),
        j < hs.len() ==> names_payload(hs[j]),
    ensures
        j < hs.len() ==> text_column(hs) == Some(j as nat),
        j == hs.len() ==> text_column(hs) is None,
    decreases hs.len(),
{
    if hs.len() > 0 {
        let d = hs.drop_last();
        if j < hs.len() - 1 {
            lemma_text_column_first(d, j);
        } else {
            assert forall|k: int| 0 <= k < d.len() implies !names_payload(#[trigger] d[k]) by {
                assert(d[k] == hs[k]);
            }
            lemma_text_column_first(d, d.len() as int);
            if j == hs.len() {
                assert(!names_payload(hs[hs.len() - 1]));
            }
        }
    }
}

proof fn lemma_file_column_first(hs: Seq<Seq<char>>, j: int)
    requires
        0 <= j <= hs.len(),
        forall|k: int| 0 <= k < j ==> !names_file(#[trigger] hs[k]),
        j < hs.len() ==> names_file(hs[j]),
    ensures
        j < hs.len() ==> file_column(hs) == Some(j as nat),
        j == hs.len() ==> file_column(hs) is None,
    decreases hs.len(),
{
    if hs.len() > 0 {
        let d = hs.drop_last();
        if j < hs.len() - 1 {
            lemma_file_column_first(d, j);
        } else {
            assert forall|k: int| 0 <= k < d.len() implies !names_file(#[trigger] d[k]) by {
                assert(d[k] == hs[k]);
            }
            lemma_file_column_first(d, d.len() as int);
            if j == hs.len() {
                assert(!names_file(hs[hs.len() - 1]));
            }
        }
    }
}

proof fn lemma_rows_payloads(recs: Seq<Seq<Seq<char>>>, pcol: nat, fcol: Option<nat>)
    ensures
        payloads_of(rows_items(recs, pcol, fcol)) == column_payloads(recs, pcol),
    decreases recs.len(),
{
    if recs.len() > 0 {
        lemma_rows_payloads(recs.drop_last(), pcol, fcol);
        let acc = rows_items(recs.drop_last(), pcol, fcol);
        let r = recs.last();
        let payload = trim(field_or_empty(r, pcol));
        if payload.len() > 0 {
            let it = (payload, row_stem(r, fcol, payload, (acc.len() + 1) as nat));
            assert(payloads_of(acc.push(it)) =~= payloads_of(acc).push(payload));
        }
    }
}

/// With a `text`, `payload`, `data` or `url` header, the header row is no
/// item and the payloads are the trimmed, non-empty cells of the first such
/// column, in row order.
pub proof fn lemma_payload_header(header: Seq<Seq<char>>, rows: Seq<Seq<Seq<char>>>, j: nat)
    requires
        j < header.len(),
        names_payload(header[j as int]),
        forall|k: int| 0 <= k < j ==> !names_payload(#[trigger] header[k]),
    ensures
        payloads_of(table_items(header, rows)) == column_payloads(rows, j),
{
    lemma_text_column_first(header, j as int);
    lemma_rows_payloads(rows, j, file_column(header));
}

/// With a `filename`, `file` or `name` header but no payload header, the
/// header row is no item and the payloads come from the first column.
pub proof fn lemma_file_header_only(header: Seq<Seq<char>>, rows: Seq<Seq<Seq<char>>>, j: nat)
    requires
        j < header.len(),
        names_file(header[j as int]),
        forall|k: int| 0 <= k < j ==> !names_file(#[trigger] header[k]),
        forall|k: int| 0 <= k < header.len() ==> !names_payload(#[trigger] header[k]),
    ensures
        payloads_of(table_items(header, rows)) == column_payloads(rows, 0),
{
    lemma_text_column_first(header, header.len() as int);
    lemma_file_column_first(header, j as int);
    lemma_rows_payloads(rows, 0, file_column(header));
}

/// With no recognised header at all, the header row is data: the payloads
/// are the trimmed, non-empty cells of the first column of every row,
/// header row first.
pub proof fn lemma_no_header(header: Seq<Seq<char>>, rows: Seq<Seq<Seq<char>>>)
    requires
        forall|k: int| 0 <= k < header.len() ==> !names_payload(#[trigger] header[k]) && !names_file(header[k]),
    ensures
        payloads_of(table_items(header, rows)) == column_payloads(seq![header] + rows, 0),
{
    lemma_text_column_first(header, header.len() as int);
    lemma_file_column_first(header, header.len() as int);
    lemma_rows_payloads(seq![header] + rows, 0, None);
}

/// `items` hold exactly the expected (payload, stem) pairs.
pub open spec fn items_are(items: Seq<BatchItem>, expect: Seq<(Seq<char>, Seq<char>)>) -> bool {
    &&& items.len() == expect.len()
    &&& forall|k: int|
        0 <= k < items.len() ==> (#[trigger] items[k]).payload@ == expect[k].0 && items[k].stem@
            == expect[k].1
}

pub open spec fn strings_view(v: Seq<String>) -> Seq<Seq<char>> {
    v.map_values(|s: String| s@)
}

pub open spec fn table_view(rows: Seq<Vec<String>>) -> Seq<Seq<Seq<char>>> {
    rows.map_values(|r: Vec<String>| strings_view(r@))
}

fn lowered_headers(header: &[String]) -> (r: Vec<Vec<char>>)
    ensures
        r@.len() == header@.len(),
        forall|k: int| 0 <= k < header@.len() ==> (#[trigger] r@[k])@ == lower_seq(trim(header@[k]@)),
{
    let mut r: Vec<Vec<char>> = Vec::new();
    for i in 0..header.len()
        invariant
            r@.len() == i,
            forall|k: int| 0 <= k < i ==> (#[trigger] r@[k])@ == lower_seq(trim(header@[k]@)),
    {
        r.push(lower_chars(&trim_chars(&str_to_chars(header[i].as_str()))));
    }
    r
}

proof fn lemma_columns_prefix(hs: Seq<Seq<char>>, j: int)
    requires
        0 <= j < hs.len(),
    ensures
        text_column(hs.take(j + 1)) == match text_column(hs.take(j)) {
            Some(i) => Some(i),
            None => if is_text_header(lower_seq(trim(hs[j]))) {
                Some(j as nat)
            } else {
                None
            },
        },
        file_column(hs.take(j + 1)) == match file_column(hs.take(j)) {
            Some(i) => Some(i),
            None => if is_file_header(lower_seq(trim(hs[j]))) {
                Some(j as nat)
            } else {
                None
            },
        },
{
    assert(hs.take(j + 1).drop_last() =~= hs.take(j));
}

fn is_lit_any(v: &Vec<char>, a: &str, b: &str, c: &str, d: &str) -> (r: bool)
    ensures
        r == (v@ == a@ || v@ == b@ || v@ == c@ || v@ == d@),
{
    is_lit(v, a) || is_lit(v, b) || is_lit(v, c) || is_lit(v, d)
}

/// The payload and file-name columns of a header row.
fn find_columns(header: &[String]) -> (r: (Option<usize>, Option<usize>))
    ensures
        r.0 matches Some(i) ==> text_column(strings_view(header@)) == Some(i as nat),
        r.0 is None ==> text_column(strings_view(header@)) is None,
        r.1 matches Some(i) ==> file_column(strings_view(header@)) == Some(i as nat),
        r.1 is None ==> file_column(strings_view(header@)) is None,
{
    let low = lowered_headers(header);
    let ghost hs = strings_view(header@);
    let mut tcol: Option<usize> = None;
    let mut fcol: Option<usize> = None;
    for j in 0..low.len()
        invariant
            low@.len() == header@.len(),
            hs == strings_view(header@),
            forall|k: int| 0 <= k < header@.len() ==> (#[trigger] low@[k])@ == lower_seq(trim(hs[k])),
            tcol matches Some(i) ==> text_column(hs.take(j as int)) == Some(i as nat),
            tcol is None ==> text_column(hs.take(j as int)) is None,
            fcol matches Some(i) ==> file_column(hs.take(j as int)) == Some(i as nat),
            fcol is None ==> file_column(hs.take(j as int)) is None,
    {
        proof {
            lemma_columns_prefix(hs, j as int);
        }
        if tcol.is_none() && is_lit_any(&low[j], "text", "payload", "data", "url") {
            tcol = Some(j);
        }
        if fcol.is_none() && (is_lit(&low[j], "filename") || is_lit(&low[j], "file") || is_lit(&low[j], "name")) {
            fcol = Some(j);
        }
    }
    assert(hs.take(low.len() as int) =~= hs);
    (tcol, fcol)
}

/// Adds the item for one CSV record, if its payload is non-empty.
fn take_record(
    items: &mut Vec<BatchItem>,
    rec: &[String],
    pcol: usize,
    fcol: Option<usize>,
    Ghost(done): Ghost<Seq<Seq<Seq<char>>>>,
)
    requires
        items_are(old(items)@, rows_items(done, pcol as nat, opt_nat(fcol))),
        old(items)@.len() < usize::MAX,
    ensures
        items_are(final(items)@, rows_items(done.push(strings_view(rec@)), pcol as nat, opt_nat(fcol))),
        final(items)@.len() <= old(items)@.len() + 1,
{
    let ghost r = strings_view(rec@);
    assert(done.push(r).drop_last() =~= done);
    let raw: Vec<char> = if pcol < rec.len() {
        str_to_chars(rec[pcol].as_str())
    } else {
        Vec::new()
    };
    assert(raw@ == field_or_empty(r, pcol as nat));
    let payload = trim_chars(&raw);
    if payload.len() == 0 {
        return;
    }
    let idx = items.len() + 1;
    let payload_s = chars_to_string(&payload);
    let slug = indexed_slug(payload_s.as_str(), idx);
    let stem: String = match fcol {
        Some(c) => {
            if c < rec.len() {
                let name = trim_chars(&str_to_chars(rec[c].as_str()));
                if name.len() > 0 {
                    let s = sanitize_stem(chars_to_string(&name).as_str());
                    if s.len() > 0 {
                        chars_to_string(&s)
                    } else {
                        slug
                    }
                } else {
                    slug
                }
            } else {
                slug
            }
        },
        None => slug,
    };
    items.push(BatchItem { payload: payload_s, stem });
}

pub open spec fn opt_nat(o: Option<usize>) -> Option<nat> {
    match o {
        Some(i) => Some(i as nat),
        None => None,
    }
}

/// The items of a CSV table given its header row and the rows after it (see
/// `table_items`); fails when no row has a non-empty payload.
pub fn items_from_table(header: &[String], rows: &[Vec<String>]) -> (res: Result<Vec<BatchItem>, BatchError>)
    requires
        rows@.len() < usize::MAX,
    ensures
        table_items(strings_view(header@), table_view(rows@)).len() > 0 ==> (res matches Ok(items)
            && items_are(items@, table_items(strings_view(header@), table_view(rows@)))),
        table_items(strings_view(header@), table_view(rows@)).len() == 0 ==> res == Err::<
            Vec<BatchItem>,
            BatchError,
        >(BatchError::NoRows),
        res matches Ok(items) ==> stems_safe(items@),
{
    let ghost hs = strings_view(header@);
    let ghost rv = table_view(rows@);
    let (tcol, fcol) = find_columns(header);
    let header_is_data = tcol.is_none() && fcol.is_none();
    let pcol: usize = match tcol {
        Some(i) => i,
        None => 0,
    };
    let ghost recs = if header_is_data {
        seq![hs] + rv
    } else {
        rv
    };
    let mut items: Vec<BatchItem> = Vec::new();
    let ghost mut done: Seq<Seq<Seq<char>>> = seq![];
    if header_is_data {
        take_record(&mut items, header, pcol, fcol, Ghost(done));
        proof {
            done = done.push(hs);
        }
    }
    assert(done =~= recs.take(if header_is_data { 1int } else { 0int }));
    for i in 0..rows.len()
        invariant
            rv == table_view(rows@),
            recs == if header_is_data {
                seq![hs] + rv
            } else {
                rv
            },
            done == recs.take(i + if header_is_data { 1int } else { 0int }),
            items_are(items@, rows_items(done, pcol as nat, opt_nat(fcol))),
            items@.len() <= i + if header_is_data { 1int } else { 0int },
            rows@.len() < usize::MAX,
    {
        take_record(&mut items, rows[i].as_slice(), pcol, fcol, Ghost(done));
        proof {
            let off: int = if header_is_data { 1 } else { 0 };
            assert(recs[i + off] == rv[i as int]);
            done = done.push(rv[i as int]);
            assert(done =~= recs.take(i + 1 + off));
        }
    }
    assert(done =~= recs);
    if items.len() == 0 {
        return Err(BatchError::NoRows);
    }
    proof {
        let expect = table_items(hs, rv);
        lemma_table_stems_safe(hs, rv);
        assert forall|k: int| 0 <= k < items@.len() implies safe_stem((#[trigger] items@[k]).stem@) by {
            assert(items@[k].stem@ == expect[k].1);
        }
    }
    Ok(items)
}

// The `csv` crate parses the table; what it yields is named here.

#[verifier::external_type_specification]
#[verifier::external_body]
#[verifier::reject_recursive_types(R)]
pub struct ExCsvReader<R>(csv::Reader<R>);

#[verifier::external_type_specification]
#[verifier::external_body]
pub struct ExStringRecord(csv::StringRecord);

#[verifier::external_type_specification]
#[verifier::external_body]
pub struct ExCsvError(csv::Error);

/// The bytes a CSV reader reads.
pub uninterp spec fn csv_source(r: csv::Reader<&[u8]>) -> Seq<u8>;

/// How far a CSV reader has come: 0 before the header row is read, then one
/// more than the number of records read after it.
pub uninterp spec fn csv_cursor(r: csv::Reader<&[u8]>) -> nat;

/// The fields of a CSV record.
pub uninterp spec fn csv_fields(rec: csv::StringRecord) -> Seq<Seq<char>>;

/// The header row `csv` reads from the bytes (`None`: it reports an error).
pub uninterp spec fn csv_header_row(data: Seq<u8>) -> Option<Seq<Seq<char>>>;

/// The records `csv` reads from the bytes after the header row, and whether
/// it reports an error after them.
pub uninterp spec fn csv_body(data: Seq<u8>) -> (Seq<Seq<Seq<char>>>, bool);

/// `csv::ReaderBuilder::from_reader`, with a header row and rows of any
/// length (`has_headers(true)`, `flexible(true)`). Each record the reader
/// yields spans at least one input byte (empty lines are skipped), so there
/// are fewer records than bytes.
#[verifier::external_body]
fn csv_open<'a>(data: &'a [u8]) -> (r: csv::Reader<&'a [u8]>)
    ensures
        csv_source(r) == data@,
        csv_cursor(r) == 0,
        csv_body(csv_source(r)).0.len() == 0 || csv_body(csv_source(r)).0.len() < csv_source(r).len(),
{
    csv::ReaderBuilder::new().has_headers(true).flexible(true).from_reader(data)
}

/// `csv::Reader::headers`: the first row, cloned (`StringRecord::clone`).
#[verifier::external_body]
fn csv_headers(r: &mut csv::Reader<&[u8]>) -> (res: Result<csv::StringRecord, csv::Error>)
    requires
        csv_cursor(*old(r)) == 0,
    ensures
        csv_source(*final(r)) == csv_source(*old(r)),
        csv_cursor(*final(r)) == 1,
        res matches Ok(h) ==> csv_header_row(csv_source(*old(r))) == Some(csv_fields(h)),
        res is Err ==> csv_header_row(csv_source(*old(r))) is None,
{
    match r.headers() {
        Ok(h) => Ok(h.clone()),
        Err(e) => Err(e),
    }
}

/// `csv::StringRecord::new`: an empty record to read into.
#[verifier::external_body]
fn csv_new_record() -> (rec: csv::StringRecord)
    ensures
        csv_fields(rec) == Seq::<Seq<char>>::empty(),
{
    csv::StringRecord::new()
}

/// `csv::Reader::read_record`: the next record after the header row.
#[verifier::external_body]
fn csv_read_record(r: &mut csv::Reader<&[u8]>, rec: &mut csv::StringRecord) -> (res: Result<bool, csv::Error>)
    requires
        csv_cursor(*old(r)) >= 1,
    ensures
        csv_source(*final(r)) == csv_source(*old(r)),
        ({
            let body = csv_body(csv_source(*old(r)));
            let k = csv_cursor(*old(r)) - 1;
            &&& k < body.0.len() ==> (res matches Ok(true) && csv_fields(*final(rec)) == body.0[k]
                && csv_cursor(*final(r)) == csv_cursor(*old(r)) + 1)
            &&& k >= body.0.len() && body.1 ==> res is Err
            &&& k >= body.0.len() && !body.1 ==> res matches Ok(false)
        }),
{
    r.read_record(rec)
}

/// `csv::StringRecord::len`.
#[verifier::external_body]
fn record_len(rec: &csv::StringRecord) -> (n: usize)
    ensures
        n == csv_fields(*rec).len(),
{
    rec.len()
}

/// `csv::StringRecord::get`.
#[verifier::external_body]
fn record_get(rec: &csv::StringRecord, i: usize) -> (f: Option<&str>)
    ensures
        f is Some <==> i < csv_fields(*rec).len(),
        f matches Some(s) ==> s@ == csv_fields(*rec)[i as int],
{
    rec.get(i)
}

/// The fields of a record as strings.
fn record_strings(rec: &csv::StringRecord) -> (v: Vec<String>)
    ensures
        strings_view(v@) == csv_fields(*rec),
{
    let n = record_len(rec);
    let mut v: Vec<String> = Vec::new();
    for i in 0..n
        invariant
            n == csv_fields(*rec).len(),
            strings_view(v@) == csv_fields(*rec).take(i as int),
    {
        match record_get(rec, i) {
            Some(s) => {
                let ghost before = v@;
                let t = chars_to_string(&str_to_chars(s));
                assert(t@ == csv_fields(*rec)[i as int]);
                v.push(t);
                assert(v@ == before.push(t));
                assert(strings_view(v@) =~= strings_view(before).push(t@));
                assert(csv_fields(*rec).take(i + 1) =~= csv_fields(*rec).take(i as int).push(
                    csv_fields(*rec)[i as int],
                ));
            },
            None => {},
        }
    }
    assert(csv_fields(*rec).take(n as int) =~= csv_fields(*rec));
    v
}

/// What `parse_csv` gives for the text, in terms of what `csv` reads from its
/// bytes: the header or row error, or the table's items (`NoRows` if none).
pub open spec fn parse_csv_spec(data: Seq<u8>) -> Result<Seq<(Seq<char>, Seq<char>)>, BatchError> {
    match csv_header_row(data) {
        None => Err(BatchError::CsvHeader),
        Some(h) => if csv_body(data).1 {
            Err(BatchError::CsvRow)
        } else if table_items(h, csv_body(data).0).len() == 0 {
            Err(BatchError::NoRows)
        } else {
            Ok(table_items(h, csv_body(data).0))
        },
    }
}

/// Parses a CSV batch (see `table_items` for how columns are chosen).
pub fn parse_csv(data: &str) -> (res: Result<Vec<BatchItem>, BatchError>)
    ensures
        match parse_csv_spec(data.spec_bytes()) {
            Ok(expect) => res matches Ok(items) && items_are(items@, expect),
            Err(e) => res == Err::<Vec<BatchItem>, BatchError>(e),
        },
        res matches Ok(items) ==> stems_safe(items@),
{
    let bytes = data.as_bytes();
    let ghost src = bytes@;
    let nbytes = bytes.len();
    assert(src.len() == nbytes);
    let mut rdr = csv_open(bytes);
    let header = match csv_headers(&mut rdr) {
        Ok(h) => h,
        Err(_) => {
            return Err(BatchError::CsvHeader);
        },
    };
    let header_v = record_strings(&header);
    let mut rows: Vec<Vec<String>> = Vec::new();
    let mut rec = csv_new_record();
    loop
        invariant_except_break
            csv_source(rdr) == src,
            csv_header_row(src) is Some,
            src == data.spec_bytes(),
            csv_cursor(rdr) == rows@.len() + 1,
            rows@.len() <= csv_body(src).0.len(),
            table_view(rows@) == csv_body(src).0.take(rows@.len() as int),
        ensures
            !csv_body(src).1,
            table_view(rows@) == csv_body(src).0,
        decreases csv_body(src).0.len() - rows@.len(),
    {
        match csv_read_record(&mut rdr, &mut rec) {
            Ok(true) => {
                let ghost before = rows@;
                rows.push(record_strings(&rec));
                assert(table_view(rows@) =~= csv_body(src).0.take(rows@.len() as int));
            },
            Ok(false) => {
                assert(table_view(rows@) =~= csv_body(src).0);
                break ;
            },
            Err(_) => {
                assert(csv_body(src).1);
                assert(src == data.spec_bytes());
                return Err(BatchError::CsvRow);
            },
        }
    }
    assert(csv_body(src).0.len() == 0 || csv_body(src).0.len() < nbytes);
    assert(rows@.len() < usize::MAX);
    items_from_table(header_v.as_slice(), rows.as_slice())
}

/// Parses a batch whose file path and text are given: CSV when the path has
/// the `csv` extension, plain text otherwise.
pub fn parse_batch(path: &str, data: &str) -> (res: Result<Vec<BatchItem>, BatchError>)
    ensures
        is_csv_path(path@) ==> match parse_csv_spec(data.spec_bytes()) {
            Ok(expect) => res matches Ok(items) && items_are(items@, expect),
            Err(e) => res == Err::<Vec<BatchItem>, BatchError>(e),
        },
        !is_csv_path(path@) ==> (res matches Ok(items) && numbered_items(items@, text_payloads(data@))),
        res matches Ok(items) ==> stems_safe(items@),
{
    if is_csv(path) {
        parse_csv(data)
    } else {
        Ok(parse_lines(data))
    }
}

} // verus!

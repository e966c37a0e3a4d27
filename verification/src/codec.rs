//! The metadata document format: a fixed sequence of `key = value` lines,
//! one per record field, with quoted text values, a bracketed list of
//! quoted tags, and decimal counters. `parse_spec` is the definition of
//! the format; the executable parser and serializer are proved against it.

use vstd::prelude::*;

use crate::record::Frontmatter;
use crate::record::FrontmatterError;
use crate::record::RecordView;
use crate::record::text_ok;
use crate::record::tags_ok;
use crate::record::valid_record;

verus! {

// ---------------------------------------------------------------------------
// Decimal numerals
// ---------------------------------------------------------------------------

pub open spec fn is_digit(c: char) -> bool {
    48 <= c as int <= 57
}

pub open spec fn digit_val(c: char) -> nat {
    (c as int - 48) as nat
}

pub open spec fn digit_char(d: nat) -> char {
    if d == 0 { '0' }
    else if d == 1 { '1' }
    else if d == 2 { '2' }
    else if d == 3 { '3' }
    else if d == 4 { '4' }
    else if d == 5 { '5' }
    else if d == 6 { '6' }
    else if d == 7 { '7' }
    else if d == 8 { '8' }
    else { '9' }
}

/// The canonical decimal numeral of `n`: no sign, no leading zero.
pub open spec fn dec_digits(n: nat) -> Seq<char>
    decreases n,
{
    if n < 10 {
        seq![digit_char(n)]
    } else {
        dec_digits(n / 10).push(digit_char(n % 10))
    }
}

/// The value of a digit string, most significant digit first.
pub open spec fn digits_val(ds: Seq<char>) -> nat
    decreases ds.len(),
{
    if ds.len() == 0 {
        0
    } else {
        digits_val(ds.drop_last()) * 10 + digit_val(ds.last())
    }
}

// ---------------------------------------------------------------------------
// Serialized shape of one record
// ---------------------------------------------------------------------------

/// One `key = "value"` line; `prefix` carries the key, the equals sign and
/// the opening quote.
pub open spec fn str_line(prefix: Seq<char>, val: Seq<char>) -> Seq<char> {
    prefix + val + seq!['"', '\n']
}

/// One `key = n` line for a counter field.
pub open spec fn int_line(prefix: Seq<char>, n: nat) -> Seq<char> {
    prefix + dec_digits(n) + seq!['\n']
}

/// The comma-separated quoted tags, without the surrounding brackets.
pub open spec fn tags_inner(ts: Seq<Seq<char>>) -> Seq<char>
    decreases ts.len(),
{
    if ts.len() == 0 {
        Seq::empty()
    } else if ts.len() == 1 {
        seq!['"'] + ts[0] + seq!['"']
    } else {
        seq!['"'] + ts[0] + seq!['"', ',', ' '] + tags_inner(ts.drop_first())
    }
}

/// The canonical document of a record: eight lines in a fixed order.
pub open spec fn doc_of(v: RecordView) -> Seq<char> {
    str_line("title = \""@, v.title) + str_line("file_name = \""@, v.file_name) + str_line(
        "description = \""@,
        v.description,
    ) + str_line("posted = \""@, v.posted) + ("tags = ["@ + tags_inner(v.tags) + seq![']', '\n'])
        + str_line("author = \""@, v.author) + int_line(
        "estimated_reading_time = "@,
        v.estimated_reading_time,
    ) + int_line("order = "@, v.order)
}

// ---------------------------------------------------------------------------
// Parsing, specified
// ---------------------------------------------------------------------------

/// The characters of `p` stand in `s` at position `i`.
pub open spec fn match_at(s: Seq<char>, i: int, p: Seq<char>) -> bool {
    0 <= i && i + p.len() <= s.len() && s.subrange(i, i + p.len()) == p
}

/// Position of the closing quote at or after `i`, scanning within the line.
pub open spec fn find_quote(s: Seq<char>, i: int) -> Option<int>
    decreases s.len() - i,
{
    if i < 0 || i >= s.len() {
        None
    } else if s[i] == '"' {
        Some(i)
    } else if s[i] == '\n' {
        None
    } else {
        find_quote(s, i + 1)
    }
}

/// End of the digit run that starts at `i`.
pub open spec fn digits_end(s: Seq<char>, i: int) -> int
    decreases s.len() - i,
{
    if 0 <= i < s.len() && is_digit(s[i]) {
        digits_end(s, i + 1)
    } else {
        i
    }
}

/// The closing quote, where found, lies at or after the scan's start:
/// the format definition's recursion steps forward past it.
pub proof fn lemma_find_quote_ge(s: Seq<char>, i: int)
    ensures
        find_quote(s, i) matches Some(q) ==> i <= q < s.len() && s[q] == '"',
    decreases s.len() - i,
{
    if 0 <= i < s.len() && s[i] != '"' && s[i] != '\n' {
        lemma_find_quote_ge(s, i + 1);
    }
}

/// A quoted text value followed by a line break: the step that reads one
/// string field's value and the end of its line.
pub open spec fn parse_str_field(s: Seq<char>, i: int, prefix: Seq<char>) -> Option<(Seq<char>, int)> {
    if match_at(s, i, prefix) {
        let j = i + prefix.len();
        match find_quote(s, j) {
            Some(q) => if q + 1 < s.len() && s[q + 1] == '\n' {
                Some((s.subrange(j, q), q + 2))
            } else {
                None
            },
            None => None,
        }
    } else {
        None
    }
}

/// A decimal counter followed by a line break. The numeral may not be
/// empty and its value must fit the field width.
pub open spec fn parse_int_field(s: Seq<char>, i: int, prefix: Seq<char>) -> Option<(nat, int)> {
    if match_at(s, i, prefix) {
        let j = i + prefix.len();
        let e = digits_end(s, j);
        if e > j && digits_val(s.subrange(j, e)) <= u32::MAX && e < s.len() && s[e] == '\n' {
            Some((digits_val(s.subrange(j, e)), e + 1))
        } else {
            None
        }
    } else {
        None
    }
}

/// One or more quoted tags separated by `", "`, ending right after the
/// closing bracket.
pub open spec fn parse_tag_items(s: Seq<char>, i: int) -> Option<(Seq<Seq<char>>, int)>
    decreases s.len() - i,
{
    if 0 <= i < s.len() && s[i] == '"' {
        match find_quote(s, i + 1) {
            Some(q) => {
                let t = s.subrange(i + 1, q);
                if q + 1 < s.len() && s[q + 1] == ']' {
                    Some((seq![t], q + 2))
                } else if q + 2 < s.len() && s[q + 1] == ',' && s[q + 2] == ' ' {
                    proof {
                        lemma_find_quote_ge(s, i + 1);
                    }
                    match parse_tag_items(s, q + 3) {
                        Some(r) => Some((seq![t] + r.0, r.1)),
                        None => None,
                    }
                } else {
                    None
                }
            },
            None => None,
        }
    } else {
        None
    }
}

/// The whole tags line after its prefix (which ends with the opening
/// bracket): either an immediately closed empty list or quoted items.
pub open spec fn parse_tags_field(s: Seq<char>, i: int, prefix: Seq<char>) -> Option<
    (Seq<Seq<char>>, int),
> {
    if match_at(s, i, prefix) {
        let j = i + prefix.len();
        if j + 1 < s.len() && s[j] == ']' && s[j + 1] == '\n' {
            Some((Seq::empty(), j + 2))
        } else {
            match parse_tag_items(s, j) {
                Some(r) => if r.1 < s.len() && s[r.1] == '\n' {
                    Some((r.0, r.1 + 1))
                } else {
                    None
                },
                None => None,
            }
        }
    } else {
        None
    }
}

/// The document format. A character sequence is a well-formed metadata
/// document exactly when this function accepts it, and the record it
/// denotes is the one returned.
pub open spec fn parse_spec(s: Seq<char>) -> Option<RecordView> {
    match parse_str_field(s, 0, "title = \""@) {
        None => None,
        Some((title, i1)) => match parse_str_field(s, i1, "file_name = \""@) {
            None => None,
            Some((file_name, i2)) => match parse_str_field(s, i2, "description = \""@) {
                None => None,
                Some((description, i3)) => match parse_str_field(s, i3, "posted = \""@) {
                    None => None,
                    Some((posted, i4)) => match parse_tags_field(s, i4, "tags = ["@) {
                        None => None,
                        Some((tags, i5)) => match parse_str_field(s, i5, "author = \""@) {
                            None => None,
                            Some((author, i6)) => match parse_int_field(
                                s,
                                i6,
                                "estimated_reading_time = "@,
                            ) {
                                None => None,
                                Some((ert, i7)) => match parse_int_field(s, i7, "order = "@) {
                                    None => None,
                                    Some((order, i8)) => if i8 == s.len() {
                                        Some(
                                            RecordView {
                                                title,
                                                file_name,
                                                description,
                                                posted,
                                                tags,
                                                author,
                                                estimated_reading_time: ert,
                                                order,
                                            },
                                        )
                                    } else {
                                        None
                                    },
                                },
                            },
                        },
                    },
                },
            },
        },
    }
}

// ---------------------------------------------------------------------------
// Parsing, executed
// ---------------------------------------------------------------------------

/// Do the characters of `p` stand in `s` at position `i`?
fn match_at_exec(s: &str, i: usize, p: &str) -> (r: bool)
    ensures
        r == match_at(s@, i as int, p@),
{
    let n = s.unicode_len();
    let m = p.unicode_len();
    if i > n || m > n - i {
        return false;
    }
    let mut k: usize = 0;
    while k < m
        invariant
            i + m <= n,
            n == s@.len(),
            m == p@.len(),
            k <= m,
            forall|t: int| 0 <= t < k ==> s@[i + t] == p@[t],
        decreases m - k,
    {
        if s.get_char(i + k) != p.get_char(k) {
            proof {
                assert(s@.subrange(i as int, i + m) != p@) by {
                    assert(s@.subrange(i as int, i + m)[k as int] == s@[i + k]);
                }
            }
            return false;
        }
        k += 1;
    }
    proof {
        assert(s@.subrange(i as int, i + m) =~= p@);
    }
    true
}

/// Position of the closing quote at or after `i`, within the line.
fn find_quote_exec(s: &str, i: usize) -> (r: Option<usize>)
    requires
        i <= s@.len(),
    ensures
        match r {
            Some(q) => find_quote(s@, i as int) == Some(q as int) && i <= q < s@.len(),
            None => find_quote(s@, i as int) is None,
        },
    decreases s@.len() - i,
{
    if i == s.unicode_len() {
        None
    } else {
        let c = s.get_char(i);
        if c == '"' {
            Some(i)
        } else if c == '\n' {
            None
        } else {
            find_quote_exec(s, i + 1)
        }
    }
}

/// End of the digit run that starts at `i`.
fn digits_end_exec(s: &str, i: usize) -> (r: usize)
    requires
        i <= s@.len(),
    ensures
        r as int == digits_end(s@, i as int),
        i <= r <= s@.len(),
        forall|t: int| i <= t < r ==> is_digit(s@[t]),
    decreases s@.len() - i,
{
    if i == s.unicode_len() {
        i
    } else {
        let cv = s.get_char(i) as u32;
        if 48 <= cv && cv <= 57 {
            digits_end_exec(s, i + 1)
        } else {
            i
        }
    }
}

proof fn lemma_digits_val_extend(s: Seq<char>, j: int, m: int, e: int)
    requires
        0 <= j <= m <= e <= s.len(),
    ensures
        digits_val(s.subrange(j, e)) >= digits_val(s.subrange(j, m)),
    decreases e - m,
{
    if m < e {
        lemma_digits_val_extend(s, j, m, e - 1);
        assert(s.subrange(j, e).drop_last() =~= s.subrange(j, e - 1));
    } else {
        assert(s.subrange(j, e) =~= s.subrange(j, m));
    }
}

/// The value of the digit run `s[j..e]`, or `None` where it exceeds the
/// field width.
fn read_uint(s: &str, j: usize, e: usize) -> (r: Option<u32>)
    requires
        j <= e <= s@.len(),
        forall|t: int| j <= t < e ==> is_digit(s@[t]),
    ensures
        match r {
            Some(v) => digits_val(s@.subrange(j as int, e as int)) == v,
            None => digits_val(s@.subrange(j as int, e as int)) > u32::MAX,
        },
{
    let mut val: u64 = 0;
    let mut k: usize = j;
    while k < e
        invariant
            j <= k <= e <= s@.len(),
            forall|t: int| j <= t < e ==> is_digit(s@[t]),
            val == digits_val(s@.subrange(j as int, k as int)),
            val <= u32::MAX,
        decreases e - k,
    {
        let d: u32 = s.get_char(k) as u32 - 48;
        let nv: u64 = val * 10 + d as u64;
        proof {
            assert(s@.subrange(j as int, k + 1).drop_last() =~= s@.subrange(j as int, k as int));
            assert(s@.subrange(j as int, k + 1).last() == s@[k as int]);
        }
        if nv > u32::MAX as u64 {
            proof {
                lemma_digits_val_extend(s@, j as int, k + 1, e as int);
            }
            return None;
        }
        val = nv;
        k += 1;
    }
    proof {
        assert(s@.subrange(j as int, k as int) =~= s@.subrange(j as int, e as int));
    }
    Some(val as u32)
}

/// One string field's value and the position after its line.
fn parse_str_field_exec(s: &str, i: usize, prefix: &str) -> (r: Option<(String, usize)>)
    requires
        i <= s@.len(),
    ensures
        match r {
            Some(p) => parse_str_field(s@, i as int, prefix@) == Some((p.0@, p.1 as int)) && i < p.1
                <= s@.len(),
            None => parse_str_field(s@, i as int, prefix@) is None,
        },
{
    let n = s.unicode_len();
    if !match_at_exec(s, i, prefix) {
        return None;
    }
    let j = i + prefix.unicode_len();
    match find_quote_exec(s, j) {
        Some(q) => {
            if q + 1 < n && s.get_char(q + 1) == '\n' {
                let val = String::from_str(s.substring_char(j, q));
                Some((val, q + 2))
            } else {
                None
            }
        },
        None => None,
    }
}

/// One counter field's value and the position after its line.
fn parse_int_field_exec(s: &str, i: usize, prefix: &str) -> (r: Option<(u32, usize)>)
    requires
        i <= s@.len(),
    ensures
        match r {
            Some(p) => parse_int_field(s@, i as int, prefix@) == Some((p.0 as nat, p.1 as int)) && i
                < p.1 <= s@.len(),
            None => parse_int_field(s@, i as int, prefix@) is None,
        },
{
    let n = s.unicode_len();
    if !match_at_exec(s, i, prefix) {
        return None;
    }
    let j = i + prefix.unicode_len();
    let e = digits_end_exec(s, j);
    if e == j {
        return None;
    }
    if !(e < n && s.get_char(e) == '\n') {
        return None;
    }
    match read_uint(s, j, e) {
        Some(v) => Some((v, e + 1)),
        None => None,
    }
}

/// The quoted tag items and the position after the closing bracket.
fn parse_tag_items_exec(s: &str, i: usize) -> (r: Option<(Vec<String>, usize)>)
    requires
        i <= s@.len(),
    ensures
        match r {
            Some(p) => parse_tag_items(s@, i as int) == Some((p.0.deep_view(), p.1 as int)) && i
                < p.1 <= s@.len(),
            None => parse_tag_items(s@, i as int) is None,
        },
    decreases s@.len() - i,
{
    let n = s.unicode_len();
    if !(i < n && s.get_char(i) == '"') {
        return None;
    }
    match find_quote_exec(s, i + 1) {
        Some(q) => {
            let t = String::from_str(s.substring_char(i + 1, q));
            if q + 1 < n && s.get_char(q + 1) == ']' {
                let mut items: Vec<String> = Vec::new();
                items.push(t);
                proof {
                    assert(items.deep_view() =~= seq![s@.subrange(i + 1, q as int)]);
                }
                Some((items, q + 2))
            } else if q + 1 < n && s.get_char(q + 1) == ',' && q + 2 < n && s.get_char(q + 2)
                == ' ' {
                match parse_tag_items_exec(s, q + 3) {
                    Some((rest, k)) => {
                        let ghost rest0 = rest.deep_view();
                        let mut items = rest;
                        items.insert(0, t);
                        proof {
                            assert(items.deep_view() =~= seq![s@.subrange(i + 1, q as int)]
                                + rest0);
                        }
                        Some((items, k))
                    },
                    None => None,
                }
            } else {
                None
            }
        },
        None => None,
    }
}

/// The whole tags line after its prefix.
fn parse_tags_field_exec(s: &str, i: usize, prefix: &str) -> (r: Option<(Vec<String>, usize)>)
    requires
        i <= s@.len(),
    ensures
        match r {
            Some(p) => parse_tags_field(s@, i as int, prefix@) == Some(
                (p.0.deep_view(), p.1 as int),
            ) && i < p.1 <= s@.len(),
            None => parse_tags_field(s@, i as int, prefix@) is None,
        },
{
    let n = s.unicode_len();
    if !match_at_exec(s, i, prefix) {
        return None;
    }
    let j = i + prefix.unicode_len();
    if j < n && s.get_char(j) == ']' && j + 1 < n && s.get_char(j + 1) == '\n' {
        let items: Vec<String> = Vec::new();
        proof {
            assert(items.deep_view() =~= Seq::<Seq<char>>::empty());
        }
        return Some((items, j + 2));
    }
    match parse_tag_items_exec(s, j) {
        Some((items, k)) => {
            if k < n && s.get_char(k) == '\n' {
                Some((items, k + 1))
            } else {
                None
            }
        },
        None => None,
    }
}

// ---------------------------------------------------------------------------
// Serialization
// ---------------------------------------------------------------------------

fn digit_str(d: u32) -> (r: &'static str)
    requires
        d < 10,
    ensures
        r@ == seq![digit_char(d as nat)],
{
    proof {
        reveal_strlit("0");
        reveal_strlit("1");
        reveal_strlit("2");
        reveal_strlit("3");
        reveal_strlit("4");
        reveal_strlit("5");
        reveal_strlit("6");
        reveal_strlit("7");
        reveal_strlit("8");
        reveal_strlit("9");
        assert("0"@ =~= seq!['0']);
        assert("1"@ =~= seq!['1']);
        assert("2"@ =~= seq!['2']);
        assert("3"@ =~= seq!['3']);
        assert("4"@ =~= seq!['4']);
        assert("5"@ =~= seq!['5']);
        assert("6"@ =~= seq!['6']);
        assert("7"@ =~= seq!['7']);
        assert("8"@ =~= seq!['8']);
        assert("9"@ =~= seq!['9']);
    }
    match d {
        0 => "0",
        1 => "1",
        2 => "2",
        3 => "3",
        4 => "4",
        5 => "5",
        6 => "6",
        7 => "7",
        8 => "8",
        _ => "9",
    }
}

/// Append the canonical decimal numeral of `n`.
fn push_uint(out: &mut String, n: u32)
    ensures
        final(out)@ == old(out)@ + dec_digits(n as nat),
    decreases n,
{
    if n < 10 {
        out.append(digit_str(n));
    } else {
        let ghost mid = out@;
        push_uint(out, n / 10);
        out.append(digit_str(n % 10));
        proof {
            assert(final(out)@ =~= mid + dec_digits(n as nat));
        }
    }
}

/// Is every character of `s` allowed inside a quoted document value?
fn text_ok_exec(s: &str) -> (r: bool)
    ensures
        r == text_ok(s@),
{
    let n = s.unicode_len();
    let mut k: usize = 0;
    while k < n
        invariant
            n == s@.len(),
            k <= n,
            forall|t: int| 0 <= t < k ==> s@[t] != '"' && s@[t] != '\n',
        decreases n - k,
    {
        let c = s.get_char(k);
        if c == '"' || c == '\n' {
            return false;
        }
        k += 1;
    }
    true
}

/// Append one quoted tag, with its separator when more follow; the result
/// extends `out` by the serialized form of the tags from `k` on.
fn push_tags(out: &mut String, tags: &Vec<String>, k: usize)
    requires
        k <= tags@.len(),
    ensures
        final(out)@ == old(out)@ + tags_inner(tags.deep_view().skip(k as int)),
    decreases tags@.len() - k,
{
    proof {
        reveal_strlit("\"");
        reveal_strlit(", ");
    }
    if k == tags.len() {
        proof {
            assert(tags.deep_view().skip(k as int) =~= Seq::<Seq<char>>::empty());
            assert(final(out)@ =~= old(out)@ + tags_inner(tags.deep_view().skip(k as int)));
        }
        return ;
    }
    out.append("\"");
    out.append(tags[k].as_str());
    out.append("\"");
    if k + 1 < tags.len() {
        out.append(", ");
    }
    let ghost mid = out@;
    push_tags(out, tags, k + 1);
    proof {
        let dv = tags.deep_view();
        assert(dv[k as int] == tags@[k as int]@);
        assert(dv.skip(k as int)[0] == dv[k as int]);
        assert(dv.skip(k as int).drop_first() =~= dv.skip(k + 1));
        assert("\""@ =~= seq!['"']);
        assert(", "@ =~= seq![',', ' ']);
        if k + 1 == tags@.len() {
            assert(dv.skip(k as int).len() == 1);
            assert(final(out)@ =~= old(out)@ + tags_inner(dv.skip(k as int)));
        } else {
            assert(dv.skip(k as int).len() > 1);
            assert(final(out)@ =~= old(out)@ + tags_inner(dv.skip(k as int)));
        }
    }
}

/// Serialize a record to its canonical document. Succeeds exactly when
/// every text field can stand between its line's delimiters.
pub fn to_document(f: &Frontmatter) -> (r: Result<String, FrontmatterError>)
    ensures
        match r {
            Ok(s) => valid_record(f@) && s@ == doc_of(f@),
            Err(e) => !valid_record(f@) && e matches FrontmatterError::OtherError(_),
        },
{
    let mut fields_ok = text_ok_exec(f.title.as_str()) && text_ok_exec(f.file_name.as_str())
        && text_ok_exec(f.description.as_str()) && text_ok_exec(f.posted.as_str()) && text_ok_exec(
        f.author.as_str(),
    );
    let mut k: usize = 0;
    while k < f.tags.len()
        invariant
            k <= f.tags@.len(),
            fields_ok ==> (forall|t: int|
                0 <= t < k ==> text_ok(#[trigger] f.tags.deep_view()[t])),
            fields_ok == (text_ok(f@.title) && text_ok(f@.file_name) && text_ok(f@.description)
                && text_ok(f@.posted) && text_ok(f@.author) && (forall|t: int|
                0 <= t < k ==> text_ok(#[trigger] f.tags.deep_view()[t]))),
        decreases f.tags@.len() - k,
    {
        let tag_ok = text_ok_exec(f.tags[k].as_str());
        proof {
            assert(f.tags.deep_view()[k as int] == f.tags@[k as int]@);
        }
        fields_ok = fields_ok && tag_ok;
        k += 1;
    }
    if !fields_ok {
        return Err(
            FrontmatterError::OtherError(
                String::from_str("a field holds a quote or a line break"),
            ),
        );
    }
    proof {
        reveal_strlit("\"\n");
        reveal_strlit("]\n");
        reveal_strlit("\n");
        assert("\"\n"@ =~= seq!['"', '\n']);
        assert("]\n"@ =~= seq![']', '\n']);
        assert("\n"@ =~= seq!['\n']);
    }
    let mut out = String::new();
    out.append("title = \"");
    out.append(f.title.as_str());
    out.append("\"\n");
    out.append("file_name = \"");
    out.append(f.file_name.as_str());
    out.append("\"\n");
    out.append("description = \"");
    out.append(f.description.as_str());
    out.append("\"\n");
    out.append("posted = \"");
    out.append(f.posted.as_str());
    out.append("\"\n");
    out.append("tags = [");
    push_tags(&mut out, &f.tags, 0);
    out.append("]\n");
    out.append("author = \"");
    out.append(f.author.as_str());
    out.append("\"\n");
    out.append("estimated_reading_time = ");
    push_uint(&mut out, f.estimated_reading_time);
    out.append("\n");
    out.append("order = ");
    push_uint(&mut out, f.order);
    out.append("\n");
    proof {
        assert(f.tags.deep_view().skip(0) =~= f.tags.deep_view());
        assert(out@ =~= doc_of(f@));
    }
    Ok(out)
}

// ---------------------------------------------------------------------------
// Round trip: a serialized record parses back to itself
// ---------------------------------------------------------------------------

proof fn lemma_find_quote_clean(s: Seq<char>, i: int, e: int)
    requires
        0 <= i <= e < s.len(),
        s[e] == '"',
        forall|k: int| i <= k < e ==> s[k] != '"' && s[k] != '\n',
    ensures
        find_quote(s, i) == Some(e),
    decreases e - i,
{
    if i < e {
        lemma_find_quote_clean(s, i + 1, e);
    }
}

proof fn lemma_match_at_char(s: Seq<char>, i: int, p: Seq<char>, d: int)
    requires
        match_at(s, i, p),
        0 <= d < p.len(),
    ensures
        s[i + d] == p[d],
{
    assert(s.subrange(i, i + p.len())[d] == s[i + d]);
}

proof fn lemma_match_at_within(s: Seq<char>, i: int, p: Seq<char>, d: int, q: Seq<char>)
    requires
        match_at(s, i, p),
        0 <= d,
        d + q.len() <= p.len(),
        q == p.subrange(d, d + q.len()),
    ensures
        match_at(s, i + d, q),
{
    let sub = s.subrange(i + d, i + d + q.len());
    assert forall|k: int| 0 <= k < q.len() implies #[trigger] sub[k] == q[k] by {
        assert(sub[k] == s[i + d + k]);
        assert(p.subrange(d, d + q.len())[k] == p[d + k]);
        assert(s.subrange(i, i + p.len())[d + k] == s[i + (d + k)]);
    }
    assert(sub =~= q);
}

proof fn lemma_clean_region(s: Seq<char>, j: int, val: Seq<char>)
    requires
        text_ok(val),
        match_at(s, j, val),
    ensures
        forall|k: int| j <= k < j + val.len() ==> s[k] != '"' && s[k] != '\n',
{
    assert forall|k: int| j <= k < j + val.len() implies s[k] != '"' && s[k] != '\n' by {
        assert(s.subrange(j, j + val.len())[k - j] == s[k]);
        assert(val[k - j] != '"' && val[k - j] != '\n');
    }
}

proof fn lemma_parse_str_field_at(s: Seq<char>, i: int, prefix: Seq<char>, val: Seq<char>)
    requires
        text_ok(val),
        match_at(s, i, str_line(prefix, val)),
    ensures
        parse_str_field(s, i, prefix) == Some((val, i + str_line(prefix, val).len())),
{
    let line = str_line(prefix, val);
    assert(prefix =~= line.subrange(0, prefix.len() as int));
    lemma_match_at_within(s, i, line, 0, prefix);
    let j = i + prefix.len();
    let e = j + val.len();
    assert(val =~= line.subrange(prefix.len() as int, (prefix.len() + val.len()) as int));
    lemma_match_at_within(s, i, line, prefix.len() as int, val);
    lemma_clean_region(s, j, val);
    lemma_match_at_char(s, i, line, prefix.len() + val.len() as int);
    assert(line[prefix.len() + val.len() as int] == '"');
    lemma_find_quote_clean(s, j, e);
    lemma_match_at_char(s, i, line, prefix.len() + val.len() + 1int);
    assert(line[prefix.len() + val.len() + 1int] == '\n');
    assert(s.subrange(j, e) == val);
}

proof fn lemma_dec_digits(n: nat)
    ensures
        dec_digits(n).len() >= 1,
        forall|k: int| 0 <= k < dec_digits(n).len() ==> is_digit(#[trigger] dec_digits(n)[k]),
        digits_val(dec_digits(n)) == n,
    decreases n,
{
    if n < 10 {
        assert(digit_val(digit_char(n)) == n);
        assert(is_digit(digit_char(n)));
        assert(dec_digits(n).drop_last() =~= Seq::<char>::empty());
        assert(digits_val(Seq::<char>::empty()) == 0);
        assert(dec_digits(n).last() == digit_char(n));
    } else {
        lemma_dec_digits(n / 10);
        assert(digit_val(digit_char(n % 10)) == n % 10);
        assert(is_digit(digit_char(n % 10)));
        assert(dec_digits(n).drop_last() =~= dec_digits(n / 10));
        assert(dec_digits(n).last() == digit_char(n % 10));
        assert(digits_val(dec_digits(n)) == (n / 10) * 10 + n % 10);
        assert((n / 10) * 10 + n % 10 == n) by (nonlinear_arith);
    }
}

proof fn lemma_digits_end_run(s: Seq<char>, i: int, e: int)
    requires
        0 <= i <= e <= s.len(),
        forall|k: int| i <= k < e ==> is_digit(s[k]),
        e == s.len() || !is_digit(s[e]),
    ensures
        digits_end(s, i) == e,
    decreases e - i,
{
    if i < e {
        lemma_digits_end_run(s, i + 1, e);
    }
}

proof fn lemma_parse_int_field_at(s: Seq<char>, i: int, prefix: Seq<char>, n: nat)
    requires
        n <= u32::MAX,
        match_at(s, i, int_line(prefix, n)),
    ensures
        parse_int_field(s, i, prefix) == Some((n, i + int_line(prefix, n).len())),
{
    let line = int_line(prefix, n);
    let dd = dec_digits(n);
    lemma_dec_digits(n);
    assert(prefix =~= line.subrange(0, prefix.len() as int));
    lemma_match_at_within(s, i, line, 0, prefix);
    let j = i + prefix.len();
    let e = j + dd.len();
    assert(dd =~= line.subrange(prefix.len() as int, (prefix.len() + dd.len()) as int));
    lemma_match_at_within(s, i, line, prefix.len() as int, dd);
    assert forall|k: int| j <= k < e implies is_digit(s[k]) by {
        assert(s.subrange(j, e)[k - j] == s[k]);
        assert(is_digit(dd[k - j]));
    }
    lemma_match_at_char(s, i, line, prefix.len() + dd.len() as int);
    assert(line[prefix.len() + dd.len() as int] == '\n');
    assert(!is_digit('\n'));
    lemma_digits_end_run(s, j, e);
    assert(s.subrange(j, e) == dd);
}

proof fn lemma_parse_tag_items_at(s: Seq<char>, i: int, ts: Seq<Seq<char>>)
    requires
        tags_ok(ts),
        ts.len() >= 1,
        match_at(s, i, tags_inner(ts) + seq![']']),
    ensures
        parse_tag_items(s, i) == Some((ts, i + tags_inner(ts).len() + 1)),
    decreases ts.len(),
{
    let inner = tags_inner(ts) + seq![']'];
    let t0 = ts[0];
    assert(text_ok(t0));
    let e = i + 1 + t0.len();
    lemma_match_at_char(s, i, inner, 0);
    assert(inner[0] == '"');
    assert(t0 =~= inner.subrange(1, 1 + t0.len() as int));
    lemma_match_at_within(s, i, inner, 1, t0);
    lemma_clean_region(s, i + 1, t0);
    lemma_match_at_char(s, i, inner, 1 + t0.len() as int);
    assert(inner[1 + t0.len() as int] == '"');
    lemma_find_quote_clean(s, i + 1, e);
    assert(s.subrange(i + 1, e) == t0);
    if ts.len() == 1 {
        lemma_match_at_char(s, i, inner, 2 + t0.len() as int);
        assert(inner[2 + t0.len() as int] == ']');
        assert(seq![t0] =~= ts);
    } else {
        lemma_match_at_char(s, i, inner, 2 + t0.len() as int);
        assert(inner[2 + t0.len() as int] == ',');
        lemma_match_at_char(s, i, inner, 3 + t0.len() as int);
        assert(inner[3 + t0.len() as int] == ' ');
        let rest = ts.drop_first();
        let ri = e + 3;
        let rinner = tags_inner(rest) + seq![']'];
        assert(rinner =~= inner.subrange(4 + t0.len() as int, 4 + t0.len() + rinner.len() as int));
        lemma_match_at_within(s, i, inner, 4 + t0.len() as int, rinner);
        assert(tags_ok(rest)) by {
            assert(forall|k: int| 0 <= k < rest.len() ==> #[trigger] rest[k] == ts[k + 1]);
        }
        lemma_parse_tag_items_at(s, ri, rest);
        assert(seq![t0] + rest =~= ts);
    }
}

proof fn lemma_parse_tags_field_at(s: Seq<char>, i: int, prefix: Seq<char>, ts: Seq<Seq<char>>)
    requires
        tags_ok(ts),
        match_at(s, i, prefix + tags_inner(ts) + seq![']', '\n']),
    ensures
        parse_tags_field(s, i, prefix) == Some(
            (ts, i + prefix.len() + tags_inner(ts).len() + 2),
        ),
{
    let seg = prefix + tags_inner(ts) + seq![']', '\n'];
    assert(prefix =~= seg.subrange(0, prefix.len() as int));
    lemma_match_at_within(s, i, seg, 0, prefix);
    let j = i + prefix.len();
    if ts.len() == 0 {
        assert(tags_inner(ts) == Seq::<char>::empty());
        lemma_match_at_char(s, i, seg, prefix.len() as int);
        assert(seg[prefix.len() as int] == ']');
        lemma_match_at_char(s, i, seg, prefix.len() + 1int);
        assert(seg[prefix.len() + 1int] == '\n');
        assert(ts =~= Seq::<Seq<char>>::empty());
    } else {
        let inner = tags_inner(ts) + seq![']'];
        assert(inner =~= seg.subrange(prefix.len() as int, (prefix.len() + inner.len()) as int));
        lemma_match_at_within(s, i, seg, prefix.len() as int, inner);
        lemma_match_at_char(s, i, seg, prefix.len() as int);
        assert(seg[prefix.len() as int] == '"');
        lemma_parse_tag_items_at(s, j, ts);
        let k = j + tags_inner(ts).len() + 1;
        lemma_match_at_char(s, i, seg, prefix.len() + tags_inner(ts).len() + 1int);
        assert(seg[prefix.len() + tags_inner(ts).len() + 1int] == '\n');
        assert(s[k] == '\n');
    }
}

/// A record serialized to the document format parses back to an equal
/// record: the format loses nothing.
#[verifier::rlimit(100)]
pub proof fn lemma_round_trip(v: RecordView)
    requires
        valid_record(v),
    ensures
        parse_spec(doc_of(v)) == Some(v),
{
    let s = doc_of(v);
    let l1 = str_line("title = \""@, v.title);
    let l2 = str_line("file_name = \""@, v.file_name);
    let l3 = str_line("description = \""@, v.description);
    let l4 = str_line("posted = \""@, v.posted);
    let l5 = "tags = ["@ + tags_inner(v.tags) + seq![']', '\n'];
    let l6 = str_line("author = \""@, v.author);
    let l7 = int_line("estimated_reading_time = "@, v.estimated_reading_time);
    let l8 = int_line("order = "@, v.order);
    assert(s =~= l1 + l2 + l3 + l4 + l5 + l6 + l7 + l8);
    let p1 = l1.len() as int;
    let p2 = p1 + l2.len();
    let p3 = p2 + l3.len();
    let p4 = p3 + l4.len();
    let p5 = p4 + l5.len();
    let p6 = p5 + l6.len();
    let p7 = p6 + l7.len();
    let p8 = p7 + l8.len();
    assert(s.subrange(0, p1) =~= l1);
    assert(s.subrange(p1, p2) =~= l2);
    assert(s.subrange(p2, p3) =~= l3);
    assert(s.subrange(p3, p4) =~= l4);
    assert(s.subrange(p4, p5) =~= l5);
    assert(s.subrange(p5, p6) =~= l6);
    assert(s.subrange(p6, p7) =~= l7);
    assert(s.subrange(p7, p8) =~= l8);
    lemma_parse_str_field_at(s, 0, "title = \""@, v.title);
    lemma_parse_str_field_at(s, p1, "file_name = \""@, v.file_name);
    lemma_parse_str_field_at(s, p2, "description = \""@, v.description);
    lemma_parse_str_field_at(s, p3, "posted = \""@, v.posted);
    lemma_parse_tags_field_at(s, p4, "tags = ["@, v.tags);
    lemma_parse_str_field_at(s, p5, "author = \""@, v.author);
    lemma_parse_int_field_at(s, p6, "estimated_reading_time = "@, v.estimated_reading_time);
    lemma_parse_int_field_at(s, p7, "order = "@, v.order);
    assert(p8 == s.len());
    assert(parse_spec(s) == Some(v));
}

fn parse_error() -> (r: FrontmatterError)
    ensures
        r matches FrontmatterError::TomlError(_),
{
    FrontmatterError::TomlError(String::from_str("malformed frontmatter document"))
}

/// Parse one metadata document. Succeeds exactly on the character
/// sequences that `parse_spec` accepts, and returns the record that the
/// document denotes.
pub fn parse_document(s: &str) -> (r: Result<Frontmatter, FrontmatterError>)
    ensures
        match r {
            Ok(f) => parse_spec(s@) == Some(f@),
            Err(e) => parse_spec(s@) is None && e matches FrontmatterError::TomlError(_),
        },
{
    let (title, i1) = match parse_str_field_exec(s, 0, "title = \"") {
        Some(p) => p,
        None => {
            return Err(parse_error());
        },
    };
    let (file_name, i2) = match parse_str_field_exec(s, i1, "file_name = \"") {
        Some(p) => p,
        None => {
            return Err(parse_error());
        },
    };
    let (description, i3) = match parse_str_field_exec(s, i2, "description = \"") {
        Some(p) => p,
        None => {
            return Err(parse_error());
        },
    };
    let (posted, i4) = match parse_str_field_exec(s, i3, "posted = \"") {
        Some(p) => p,
        None => {
            return Err(parse_error());
        },
    };
    let (tags, i5) = match parse_tags_field_exec(s, i4, "tags = [") {
        Some(p) => p,
        None => {
            return Err(parse_error());
        },
    };
    let (author, i6) = match parse_str_field_exec(s, i5, "author = \"") {
        Some(p) => p,
        None => {
            return Err(parse_error());
        },
    };
    let (ert, i7) = match parse_int_field_exec(s, i6, "estimated_reading_time = ") {
        Some(p) => p,
        None => {
            return Err(parse_error());
        },
    };
    let (order, i8) = match parse_int_field_exec(s, i7, "order = ") {
        Some(p) => p,
        None => {
            return Err(parse_error());
        },
    };
    if i8 != s.unicode_len() {
        return Err(parse_error());
    }
    Ok(
        Frontmatter {
            title,
            file_name,
            description,
            posted,
            tags,
            author,
            estimated_reading_time: ert,
            order,
        },
    )
}

} // verus!

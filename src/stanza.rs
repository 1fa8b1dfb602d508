//! Control-file style package indexes: stanzas of `key: value` lines, each
//! stanza closed by a blank line.
//!
//! ```text
//! key        := byte+ , without ':' and not starting with '\n'
//! separator  := ':' horizontal-space*
//! value      := byte* up to the next '\n'
//! key_value  := key separator value
//! stanza     := (key_value '\n')+
//! record     := stanza '\n'
//! ```

use vstd::prelude::*;
use vstd::slice::slice_subrange;
use crate::primitives::{
    find, is_suffix, lemma_find_some, lemma_first_occurrence_unique, lemma_suffix_trans, matches_at,
    occurs_at, lemma_take_until_suffix, spec_take_until, take_until, ParseError,
    ParseResult, SpecParse, COLON, NEWLINE, SPACE, TAB,
};

verus! {

/// A key and its value, as bytes.
pub type Field = (Seq<u8>, Seq<u8>);

pub open spec fn is_hspace(b: u8) -> bool {
    b == SPACE || b == TAB
}

/// The first index at or after `i` that holds no horizontal whitespace.
pub open spec fn hspace_end(s: Seq<u8>, i: int) -> int
    decreases s.len() - i,
{
    if 0 <= i < s.len() && is_hspace(s[i]) {
        hspace_end(s, i + 1)
    } else {
        i
    }
}

pub open spec fn spec_key_name(s: Seq<u8>) -> SpecParse<Seq<u8>> {
    match spec_take_until(s, seq![COLON]) {
        Ok((rest, key)) => if key.len() > 0 && key[0] != NEWLINE {
            Ok((rest, key))
        } else {
            Err(ParseError::Syntax(s.len() as usize))
        },
        Err(e) => Err(e),
    }
}

pub open spec fn spec_separator(s: Seq<u8>) -> SpecParse<()> {
    if s.len() > 0 && s[0] == COLON {
        Ok((s.subrange(hspace_end(s, 1), s.len() as int), ()))
    } else {
        Err(ParseError::Syntax(s.len() as usize))
    }
}

pub open spec fn spec_single_line(s: Seq<u8>) -> SpecParse<Seq<u8>> {
    spec_take_until(s, seq![NEWLINE])
}

pub open spec fn spec_key_value(s: Seq<u8>) -> SpecParse<Field> {
    match spec_key_name(s) {
        Ok((r1, key)) => match spec_separator(r1) {
            Ok((r2, _)) => match spec_single_line(r2) {
                Ok((r3, value)) => Ok((r3, (key, value))),
                Err(e) => Err(e),
            },
            Err(e) => Err(e),
        },
        Err(e) => Err(e),
    }
}

/// A `key_value` with the newline that ends its line.
pub open spec fn spec_line(s: Seq<u8>) -> SpecParse<Field> {
    match spec_key_value(s) {
        Ok((r, kv)) => if r.len() > 0 && r[0] == NEWLINE {
            Ok((r.drop_first(), kv))
        } else {
            Err(ParseError::Syntax(r.len() as usize))
        },
        Err(e) => Err(e),
    }
}

/// As many lines as match from the start of `s`, and what is left after them.
pub open spec fn spec_lines(s: Seq<u8>) -> (Seq<u8>, Seq<Field>)
    decreases s.len(),
    via lemma_lines_decreases
{
    match spec_line(s) {
        Ok((rest, kv)) => {
            let (left, more) = spec_lines(rest);
            (left, seq![kv] + more)
        },
        Err(_) => (s, Seq::empty()),
    }
}

/// A stanza is one or more lines; where not even the first matches, its
/// failure is the stanza's.
pub open spec fn spec_stanza(s: Seq<u8>) -> SpecParse<Seq<Field>> {
    match spec_line(s) {
        Ok(_) => Ok(spec_lines(s)),
        Err(e) => Err(e),
    }
}

#[via_fn]
proof fn lemma_lines_decreases(s: Seq<u8>) {
    lemma_line_shrinks(s);
}

pub proof fn lemma_hspace_end(s: Seq<u8>, i: int)
    requires
        0 <= i <= s.len(),
    ensures
        i <= hspace_end(s, i) <= s.len(),
        forall|k: int| i <= k < hspace_end(s, i) ==> is_hspace(s[k]),
        hspace_end(s, i) < s.len() ==> !is_hspace(s[hspace_end(s, i)]),
    decreases s.len() - i,
{
    if i < s.len() && is_hspace(s[i]) {
        lemma_hspace_end(s, i + 1);
    }
}

/// What a key-value match leaves is a suffix of its input that starts with
/// the newline ending the line.
pub proof fn lemma_key_value_suffix(s: Seq<u8>)
    ensures
        spec_key_value(s) matches Ok((r, _)) ==> is_suffix(r, s) && r.len() > 0 && r[0] == NEWLINE,
{
    lemma_take_until_suffix(s, seq![COLON]);
    if let Ok((r1, _)) = spec_key_name(s) {
        if let Ok((r2, _)) = spec_separator(r1) {
            lemma_hspace_end(r1, 1);
            assert(is_suffix(r2, r1)) by {
                assert(r2 =~= r1.subrange(r1.len() - r2.len(), r1.len() as int));
            }
            lemma_suffix_trans(r2, r1, s);
            lemma_take_until_suffix(r2, seq![NEWLINE]);
            if let Ok((r3, _)) = spec_single_line(r2) {
                lemma_suffix_trans(r3, r2, s);
                assert(r3[0] == r3.subrange(0, 1)[0]);
            }
        }
    }
}

/// A matched line consumes at least its newline.
pub proof fn lemma_line_shrinks(s: Seq<u8>)
    ensures
        spec_line(s) matches Ok((r, _)) ==> is_suffix(r, s) && r.len() < s.len(),
{
    lemma_key_value_suffix(s);
    if let Ok((r, _)) = spec_key_value(s) {
        assert(is_suffix(r.drop_first(), s)) by {
            assert(r.drop_first() =~= s.subrange(s.len() - r.len() + 1, s.len() as int));
        }
    }
}

fn colon_pattern() -> (r: &'static [u8])
    ensures
        r@ == seq![COLON],
{
    let p = ":".as_bytes();
    proof {
        reveal_strlit(":");
        vstd::string::is_ascii_spec_bytes(":");
    }
    assert(p@ =~= seq![COLON]);
    p
}

fn newline_pattern() -> (r: &'static [u8])
    ensures
        r@ == seq![NEWLINE],
{
    let p = "\n".as_bytes();
    proof {
        reveal_strlit("\n");
        vstd::string::is_ascii_spec_bytes("\n");
    }
    assert(p@ =~= seq![NEWLINE]);
    p
}

/// Takes a key: the bytes up to the first `:`, at least one of them, the first
/// not a newline. The remainder starts with the `:`.
pub fn key_name<'a>(input: &'a [u8]) -> (r: ParseResult<'a, &'a [u8]>)
    ensures
        match r {
            Ok((rest, key)) => spec_key_name(input@) == Ok::<_, ParseError>((rest@, key@)),
            Err(e) => spec_key_name(input@) == Err::<(Seq<u8>, Seq<u8>), _>(e),
        },
{
    let (rest, key) = take_until(input, colon_pattern())?;
    if key.len() > 0 && key[0] != NEWLINE {
        Ok((rest, key))
    } else {
        Err(ParseError::Syntax(input.len()))
    }
}

/// Consumes a `:` and the spaces and tabs that follow it.
pub fn separator(input: &[u8]) -> (r: ParseResult<()>)
    ensures
        match r {
            Ok((rest, u)) => spec_separator(input@) == Ok::<_, ParseError>((rest@, u)),
            Err(e) => spec_separator(input@) == Err::<(Seq<u8>, ()), _>(e),
        },
{
    if input.len() == 0 || input[0] != COLON {
        return Err(ParseError::Syntax(input.len()));
    }
    let mut i: usize = 1;
    while i < input.len() && (input[i] == SPACE || input[i] == TAB)
        invariant
            1 <= i <= input@.len(),
            hspace_end(input@, 1) == hspace_end(input@, i as int),
        decreases input.len() - i,
    {
        i = i + 1;
    }
    Ok((slice_subrange(input, i, input.len()), ()))
}

/// Takes the bytes up to the next newline; the remainder starts with it.
pub fn single_line<'a>(input: &'a [u8]) -> (r: ParseResult<'a, &'a [u8]>)
    ensures
        match r {
            Ok((rest, line)) => spec_single_line(input@) == Ok::<_, ParseError>((rest@, line@)),
            Err(e) => spec_single_line(input@) == Err::<(Seq<u8>, Seq<u8>), _>(e),
        },
{
    take_until(input, newline_pattern())
}

/// Takes `key: value` up to, not including, the newline that ends the line.
pub fn key_value<'a>(input: &'a [u8]) -> (r: ParseResult<'a, (&'a [u8], &'a [u8])>)
    ensures
        match r {
            Ok((rest, (k, v))) => spec_key_value(input@) == Ok::<_, ParseError>((rest@, (k@, v@))),
            Err(e) => spec_key_value(input@) == Err::<(Seq<u8>, Field), _>(e),
        },
{
    let (r1, key) = key_name(input)?;
    let (r2, _) = separator(r1)?;
    let (r3, value) = single_line(r2)?;
    Ok((r3, (key, value)))
}

/// The fields of a parsed stanza, as bytes.
pub open spec fn fields_view<'a>(v: Seq<(&'a [u8], &'a [u8])>) -> Seq<Field> {
    v.map_values(|p: (&'a [u8], &'a [u8])| (p.0@, p.1@))
}

/// The byte strings of a list of slices.
pub open spec fn values_view<'a>(v: Seq<&'a [u8]>) -> Seq<Seq<u8>> {
    v.map_values(|p: &'a [u8]| p@)
}

/// What the lines of a stanza leave is a suffix of the input.
pub proof fn lemma_lines_suffix(s: Seq<u8>)
    ensures
        is_suffix(spec_lines(s).0, s),
    decreases s.len(),
{
    lemma_line_shrinks(s);
    if let Ok((rest, _)) = spec_line(s) {
        lemma_lines_suffix(rest);
        lemma_suffix_trans(spec_lines(rest).0, rest, s);
    } else {
        assert(s =~= s.subrange(0, s.len() as int));
    }
}

/// Takes one stanza: one or more `key: value` lines, each with its newline.
/// The remainder starts where the first line that does not match starts.
pub fn single_package<'a>(input: &'a [u8]) -> (r: ParseResult<'a, Vec<(&'a [u8], &'a [u8])>>)
    ensures
        match r {
            Ok((rest, fields)) => spec_stanza(input@) == Ok::<_, ParseError>((rest@, fields_view(fields@))),
            Err(e) => spec_stanza(input@) == Err::<(Seq<u8>, Seq<Field>), _>(e),
        },
{
    let mut cur: &'a [u8] = input;
    let mut fields: Vec<(&'a [u8], &'a [u8])> = Vec::new();
    let mut failure = ParseError::Syntax(input.len());
    loop
        invariant
            spec_lines(input@) == (spec_lines(cur@).0, fields_view(fields@) + spec_lines(cur@).1),
            fields@.len() == 0 ==> cur@ == input@,
            fields@.len() > 0 ==> spec_line(input@) is Ok,
        ensures
            spec_line(cur@) == Err::<(Seq<u8>, Field), _>(failure),
        decreases cur@.len(),
    {
        match key_value(cur) {
            Ok((r, kv)) => {
                if r.len() > 0 && r[0] == NEWLINE {
                    let next = slice_subrange(r, 1, r.len());
                    proof {
                        lemma_line_shrinks(cur@);
                        assert(next@ =~= r@.drop_first());
                        let tail = spec_lines(next@).1;
                        assert(fields_view(fields@) + (seq![(kv.0@, kv.1@)] + tail)
                            =~= fields_view(fields@.push(kv)) + tail);
                    }
                    fields.push(kv);
                    cur = next;
                } else {
                    failure = ParseError::Syntax(r.len());
                    break;
                }
            },
            Err(e) => {
                failure = e;
                break;
            },
        }
    }
    assert(fields_view(fields@) + spec_lines(cur@).1 =~= fields_view(fields@));
    if fields.len() > 0 {
        Ok((cur, fields))
    } else {
        Err(failure)
    }
}

/// `i` is the first field of `fields` whose key is `key`.
pub open spec fn is_first_key(fields: Seq<Field>, key: Seq<u8>, i: int) -> bool {
    &&& 0 <= i < fields.len()
    &&& fields[i].0 == key
    &&& forall|j: int| 0 <= j < i ==> fields[j].0 != key
}

/// The value of the first field named `key`.
pub open spec fn lookup(fields: Seq<Field>, key: Seq<u8>) -> Option<Seq<u8>> {
    if exists|i: int| is_first_key(fields, key, i) {
        Some(fields[choose|i: int| is_first_key(fields, key, i)].1)
    } else {
        None
    }
}

/// One stanza, reduced to the value of its first field named `key`.
pub open spec fn spec_extract_field(s: Seq<u8>, key: Seq<u8>) -> SpecParse<Seq<u8>> {
    match spec_stanza(s) {
        Ok((rest, fields)) => match lookup(fields, key) {
            Some(v) => Ok((rest, v)),
            None => Err(ParseError::MissingField),
        },
        Err(e) => Err(e),
    }
}

/// A record: a stanza that has the field, then the blank line that closes it.
pub open spec fn spec_record(s: Seq<u8>, key: Seq<u8>) -> SpecParse<Seq<u8>> {
    match spec_extract_field(s, key) {
        Ok((r, v)) => if r.len() > 0 && r[0] == NEWLINE {
            Ok((r.drop_first(), v))
        } else {
            Err(ParseError::Syntax(r.len() as usize))
        },
        Err(e) => Err(e),
    }
}

/// The values of `key` in the records from the start of `s` that match in
/// full, in order, and what is left after the last of them.
pub open spec fn spec_records(s: Seq<u8>, key: Seq<u8>) -> (Seq<u8>, Seq<Seq<u8>>)
    decreases s.len(),
    via lemma_records_decreases
{
    match spec_record(s, key) {
        Ok((rest, v)) => {
            let (left, more) = spec_records(rest, key);
            (left, seq![v] + more)
        },
        Err(_) => (s, Seq::empty()),
    }
}

#[via_fn]
proof fn lemma_records_decreases(s: Seq<u8>, key: Seq<u8>) {
    lemma_record_shrinks(s, key);
}

/// A matched record consumes at least its closing blank line.
pub proof fn lemma_record_shrinks(s: Seq<u8>, key: Seq<u8>)
    ensures
        spec_record(s, key) matches Ok((r, _)) ==> is_suffix(r, s) && r.len() < s.len(),
{
    lemma_lines_suffix(s);
    if let Ok((r, _)) = spec_extract_field(s, key) {
        if r.len() > 0 && r[0] == NEWLINE {
            assert(r.drop_first() =~= s.subrange(s.len() - r.len() + 1, s.len() as int));
        }
    }
}

/// Whether two byte strings are equal.
pub fn bytes_eq(a: &[u8], b: &[u8]) -> (r: bool)
    ensures
        r == (a@ == b@),
{
    if a.len() != b.len() {
        return false;
    }
    let r = matches_at(a, b, 0);
    assert(a@.subrange(0, a@.len() as int) =~= a@);
    r
}

/// Takes one stanza and returns the value of its first field named `key`.
/// A stanza without that field is a `MissingField` failure, told apart from a
/// stanza that does not parse.
pub fn extract_field<'a>(input: &'a [u8], key: &[u8]) -> (r: ParseResult<'a, &'a [u8]>)
    ensures
        match r {
            Ok((rest, v)) => spec_extract_field(input@, key@) == Ok::<_, ParseError>((rest@, v@)),
            Err(e) => spec_extract_field(input@, key@) == Err::<(Seq<u8>, Seq<u8>), _>(e),
        },
{
    let (rest, fields) = match single_package(input) {
        Ok(parsed) => parsed,
        Err(e) => {
            return Err(e);
        },
    };
    let mut i: usize = 0;
    while i < fields.len()
        invariant
            spec_stanza(input@) == Ok::<_, ParseError>((rest@, fields_view(fields@))),
            i <= fields@.len(),
            forall|j: int| 0 <= j < i ==> fields_view(fields@)[j].0 != key@,
        decreases fields.len() - i,
    {
        let (k, v) = fields[i];
        if bytes_eq(k, key) {
            proof {
                let fv = fields_view(fields@);
                assert(fv[i as int] == (k@, v@));
                assert(is_first_key(fv, key@, i as int));
                let c = choose|c: int| is_first_key(fv, key@, c);
                assert(c == i) by {
                    if c < i {
                        assert(fv[c].0 != key@);
                    }
                    if i < c {
                        assert(fv[i as int].0 != key@);
                    }
                }
            }
            assert(lookup(fields_view(fields@), key@) == Some(v@));
            return Ok((rest, v));
        }
        i = i + 1;
    }
    Err(ParseError::MissingField)
}

/// Takes records one after the other and collects the value of `key` from
/// each. It stops, without failing, at the first record that does not match
/// in full (a malformed stanza, a missing field, a missing blank line, the end
/// of the input), and returns what is left from there.
pub fn extract_field_all<'a>(input: &'a [u8], key: &[u8]) -> (r: (&'a [u8], Vec<&'a [u8]>))
    ensures
        spec_records(input@, key@) == (r.0@, values_view(r.1@)),
{
    let mut cur: &'a [u8] = input;
    let mut values: Vec<&'a [u8]> = Vec::new();
    loop
        invariant
            spec_records(input@, key@) == (spec_records(cur@, key@).0, values_view(values@)
                + spec_records(cur@, key@).1),
        ensures
            spec_records(cur@, key@) == (cur@, Seq::<Seq<u8>>::empty()),
        decreases cur@.len(),
    {
        match extract_field(cur, key) {
            Ok((r, v)) => {
                if r.len() > 0 && r[0] == NEWLINE {
                    let next = slice_subrange(r, 1, r.len());
                    proof {
                        lemma_record_shrinks(cur@, key@);
                        assert(next@ =~= r@.drop_first());
                        let tail = spec_records(next@, key@).1;
                        assert(values_view(values@) + (seq![v@] + tail) =~= values_view(
                            values@.push(v),
                        ) + tail);
                    }
                    values.push(v);
                    cur = next;
                } else {
                    break;
                }
            },
            Err(_) => {
                break;
            },
        }
    }
    assert(values_view(values@) + Seq::<Seq<u8>>::empty() =~= values_view(values@));
    (cur, values)
}

/// The bytes of the key `Package`.
pub open spec fn package_key() -> Seq<u8> {
    seq![80u8, 97u8, 99u8, 107u8, 97u8, 103u8, 101u8]
}

fn package_pattern() -> (r: &'static [u8])
    ensures
        r@ == package_key(),
{
    let p = "Package".as_bytes();
    proof {
        reveal_strlit("Package");
        vstd::string::is_ascii_spec_bytes("Package");
    }
    assert(p@ =~= package_key());
    p
}

/// `extract_field` for the key `Package`.
pub fn extract_name<'a>(input: &'a [u8]) -> (r: ParseResult<'a, &'a [u8]>)
    ensures
        match r {
            Ok((rest, v)) => spec_extract_field(input@, package_key()) == Ok::<_, ParseError>(
                (rest@, v@),
            ),
            Err(e) => spec_extract_field(input@, package_key()) == Err::<(Seq<u8>, Seq<u8>), _>(e),
        },
{
    extract_field(input, package_pattern())
}

/// `extract_field_all` for the key `Package`: the package names of an index,
/// and what is left unparsed.
pub fn extract_all_names<'a>(input: &'a [u8]) -> (r: (&'a [u8], Vec<&'a [u8]>))
    ensures
        spec_records(input@, package_key()) == (r.0@, values_view(r.1@)),
{
    extract_field_all(input, package_pattern())
}

/// A key that reads back as itself: not empty, not starting with a newline,
/// without `:`.
pub open spec fn valid_key(k: Seq<u8>) -> bool {
    &&& k.len() > 0
    &&& k[0] != NEWLINE
    &&& forall|i: int| 0 <= i < k.len() ==> k[i] != COLON
}

/// A value that reads back as itself: without newline, and not starting with
/// the whitespace that the separator takes.
pub open spec fn valid_value(v: Seq<u8>) -> bool {
    &&& forall|i: int| 0 <= i < v.len() ==> v[i] != NEWLINE
    &&& v.len() > 0 ==> !is_hspace(v[0])
}

pub open spec fn valid_field(f: Field) -> bool {
    valid_key(f.0) && valid_value(f.1)
}

pub open spec fn all_hspace(ws: Seq<u8>) -> bool {
    forall|i: int| 0 <= i < ws.len() ==> is_hspace(ws[i])
}

/// The line `key: value` with its newline.
pub open spec fn serialize_field(f: Field) -> Seq<u8> {
    f.0 + seq![COLON, SPACE] + f.1 + seq![NEWLINE]
}

/// The lines of `fields`, one after the other.
pub open spec fn serialize_stanza(fields: Seq<Field>) -> Seq<u8>
    decreases fields.len(),
{
    if fields.len() == 0 {
        Seq::empty()
    } else {
        serialize_field(fields[0]) + serialize_stanza(fields.drop_first())
    }
}

/// Each stanza followed by a blank line.
pub open spec fn serialize_document(records: Seq<Seq<Field>>) -> Seq<u8>
    decreases records.len(),
{
    if records.len() == 0 {
        Seq::empty()
    } else {
        serialize_stanza(records[0]) + seq![NEWLINE] + serialize_document(records.drop_first())
    }
}

/// Taking up to a byte `b` that first stands at `i`.
proof fn lemma_take_until_byte(s: Seq<u8>, b: u8, i: int)
    requires
        0 <= i < s.len(),
        s[i] == b,
        forall|j: int| 0 <= j < i ==> s[j] != b,
    ensures
        spec_take_until(s, seq![b]) == Ok::<_, ParseError>(
            (s.subrange(i, s.len() as int), s.subrange(0, i)),
        ),
{
    assert(s.subrange(i, i + 1) =~= seq![b]);
    assert forall|j: int| 0 <= j < i implies !occurs_at(s, seq![b], j) by {
        if occurs_at(s, seq![b], j) {
            assert(s.subrange(j, j + 1)[0] == s[j]);
        }
    }
    lemma_first_occurrence_unique(s, seq![b], i);
}

/// What is taken before the first `b` holds no `b`.
proof fn lemma_taken_lacks_byte(s: Seq<u8>, b: u8)
    ensures
        spec_take_until(s, seq![b]) matches Ok((_, taken)) ==> forall|j: int|
            0 <= j < taken.len() ==> taken[j] != b,
{
    if let Ok((_, taken)) = spec_take_until(s, seq![b]) {
        lemma_find_some(s, seq![b]);
        let i = find(s, seq![b])->Some_0;
        assert forall|j: int| 0 <= j < taken.len() implies taken[j] != b by {
            assert(taken[j] == s[j]);
            if s[j] == b {
                assert(s.subrange(j, j + 1) =~= seq![b]);
                assert(occurs_at(s, seq![b], j));
            }
        }
    }
}

proof fn lemma_hspace_end_run(s: Seq<u8>, i: int, e: int)
    requires
        0 <= i <= e <= s.len(),
        forall|k: int| i <= k < e ==> is_hspace(s[k]),
        e == s.len() || !is_hspace(s[e]),
    ensures
        hspace_end(s, i) == e,
    decreases e - i,
{
    if i < e {
        lemma_hspace_end_run(s, i + 1, e);
    }
}

/// A key can start neither an empty input nor one that starts with a newline.
pub proof fn lemma_no_line_at_blank(s: Seq<u8>)
    requires
        s.len() == 0 || s[0] == NEWLINE,
    ensures
        spec_key_name(s) is Err,
        spec_line(s) is Err,
        spec_lines(s) == (s, Seq::<Field>::empty()),
        spec_stanza(s) is Err,
{
    if let Ok((_, taken)) = spec_take_until(s, seq![COLON]) {
        lemma_take_until_suffix(s, seq![COLON]);
        if taken.len() > 0 {
            assert(taken[0] == s[0]);
        }
    }
}

/// The separator takes the `:` and every space and tab after it, however
/// many, and nothing more.
pub proof fn lemma_separator_strips_whitespace(ws: Seq<u8>, rest: Seq<u8>)
    requires
        all_hspace(ws),
        rest.len() == 0 || !is_hspace(rest[0]),
    ensures
        spec_separator(seq![COLON] + ws + rest) == Ok::<_, ParseError>((rest, ())),
{
    let s = seq![COLON] + ws + rest;
    lemma_hspace_end_run(s, 1, 1 + ws.len() as int);
    assert(s.subrange(1 + ws.len() as int, s.len() as int) =~= rest);
}

/// `key:`, any run of spaces and tabs, then a value and a newline: the key and
/// the value come back exactly, whatever the length of the run.
pub proof fn lemma_key_value_of(k: Seq<u8>, ws: Seq<u8>, v: Seq<u8>, tail: Seq<u8>)
    requires
        valid_key(k),
        valid_value(v),
        all_hspace(ws),
        tail.len() > 0,
        tail[0] == NEWLINE,
    ensures
        spec_key_value(k + seq![COLON] + ws + v + tail) == Ok::<_, ParseError>((tail, (k, v))),
        spec_line(k + seq![COLON] + ws + v + tail) == Ok::<_, ParseError>((tail.drop_first(), (k, v))),
{
    let s = k + seq![COLON] + ws + v + tail;
    let r1 = seq![COLON] + ws + v + tail;
    let r2 = v + tail;
    lemma_take_until_byte(s, COLON, k.len() as int);
    assert(s.subrange(k.len() as int, s.len() as int) =~= r1);
    assert(s.subrange(0, k.len() as int) =~= k);
    assert(r1 =~= seq![COLON] + ws + r2);
    lemma_separator_strips_whitespace(ws, r2);
    lemma_take_until_byte(r2, NEWLINE, v.len() as int);
    assert(r2.subrange(v.len() as int, r2.len() as int) =~= tail);
    assert(r2.subrange(0, v.len() as int) =~= v);
}

/// The lines written from valid fields read back as those fields, up to a
/// tail that no line can start.
pub proof fn lemma_lines_round_trip(fields: Seq<Field>, tail: Seq<u8>)
    requires
        forall|i: int| 0 <= i < fields.len() ==> valid_field(#[trigger] fields[i]),
        tail.len() == 0 || tail[0] == NEWLINE,
    ensures
        spec_lines(serialize_stanza(fields) + tail) == (tail, fields),
    decreases fields.len(),
{
    if fields.len() == 0 {
        assert(serialize_stanza(fields) + tail =~= tail);
        lemma_no_line_at_blank(tail);
        assert(fields =~= Seq::<Field>::empty());
    } else {
        let f = fields[0];
        assert(valid_field(f));
        let more = fields.drop_first();
        assert forall|i: int| 0 <= i < more.len() implies valid_field(#[trigger] more[i]) by {
            assert(more[i] == fields[i + 1]);
        }
        lemma_lines_round_trip(more, tail);
        let x = serialize_stanza(more) + tail;
        let s = serialize_stanza(fields) + tail;
        assert(s =~= f.0 + seq![COLON] + seq![SPACE] + f.1 + (seq![NEWLINE] + x));
        lemma_key_value_of(f.0, seq![SPACE], f.1, seq![NEWLINE] + x);
        assert((seq![NEWLINE] + x).drop_first() =~= x);
        assert(seq![(f.0, f.1)] + more =~= fields);
    }
}

/// Valid fields written as `key: value` lines parse back to the same fields,
/// with the tail left over.
pub proof fn lemma_stanza_round_trip(fields: Seq<Field>, tail: Seq<u8>)
    requires
        fields.len() > 0,
        forall|i: int| 0 <= i < fields.len() ==> valid_field(#[trigger] fields[i]),
        tail.len() == 0 || tail[0] == NEWLINE,
    ensures
        spec_stanza(serialize_stanza(fields) + tail) == Ok::<_, ParseError>((tail, fields)),
{
    lemma_lines_round_trip(fields, tail);
}

/// A parsed line is a valid field.
pub proof fn lemma_line_valid(s: Seq<u8>)
    ensures
        spec_line(s) matches Ok((_, f)) ==> valid_field(f),
{
    if let Ok((r1, k)) = spec_key_name(s) {
        lemma_taken_lacks_byte(s, COLON);
        if let Ok((r2, _)) = spec_separator(r1) {
            lemma_hspace_end(r1, 1);
            lemma_taken_lacks_byte(r2, NEWLINE);
            if let Ok((_, v)) = spec_single_line(r2) {
                lemma_take_until_suffix(r2, seq![NEWLINE]);
                if v.len() > 0 {
                    assert(v[0] == r2[0]);
                    assert(r2[0] == r1[hspace_end(r1, 1)]);
                }
            }
        }
    }
}

/// Every field of parsed lines is valid.
pub proof fn lemma_lines_valid(s: Seq<u8>)
    ensures
        forall|i: int| 0 <= i < spec_lines(s).1.len() ==> valid_field(#[trigger] spec_lines(s).1[i]),
    decreases s.len(),
{
    lemma_line_valid(s);
    lemma_line_shrinks(s);
    if let Ok((rest, f)) = spec_line(s) {
        lemma_lines_valid(rest);
        let fs = spec_lines(s).1;
        assert forall|i: int| 0 <= i < fs.len() implies valid_field(#[trigger] fs[i]) by {
            if i > 0 {
                assert(fs[i] == spec_lines(rest).1[i - 1]);
            }
        }
    }
}

/// Parsing a stanza, writing its fields back as `key: value` lines and parsing
/// those again gives the same fields.
pub proof fn lemma_reparse_stanza(s: Seq<u8>)
    requires
        spec_stanza(s) is Ok,
    ensures
        spec_stanza(serialize_stanza(spec_stanza(s)->Ok_0.1)) == Ok::<_, ParseError>(
            (Seq::<u8>::empty(), spec_stanza(s)->Ok_0.1),
        ),
{
    let fields = spec_lines(s).1;
    lemma_lines_valid(s);
    lemma_stanza_round_trip(fields, Seq::empty());
    assert(serialize_stanza(fields) + Seq::<u8>::empty() =~= serialize_stanza(fields));
}

/// Where no record matches at the start of the input, nothing is extracted
/// and the whole input is left.
pub proof fn lemma_no_record_extracts_nothing(s: Seq<u8>, key: Seq<u8>)
    requires
        spec_record(s, key) is Err,
    ensures
        spec_records(s, key) == (s, Seq::<Seq<u8>>::empty()),
{
}

/// A stanza that parses but lacks the key fails with `MissingField`; one that
/// does not parse fails with `Syntax`, at the place where the stanza stops
/// matching.
pub proof fn lemma_missing_field_is_distinct(s: Seq<u8>, key: Seq<u8>)
    ensures
        spec_stanza(s) is Err ==> spec_stanza(s)->Err_0 is Syntax && spec_extract_field(s, key)
            == Err::<(Seq<u8>, Seq<u8>), _>(spec_stanza(s)->Err_0),
        spec_stanza(s) matches Ok((_, fields)) && (forall|i: int|
            0 <= i < fields.len() ==> fields[i].0 != key) ==> spec_extract_field(s, key) == Err::<
            (Seq<u8>, Seq<u8>),
            _,
        >(ParseError::MissingField),
{
}

/// A document of records written from valid fields, each with `key`, gives
/// the value of `key` of every record, in order, and leaves nothing.
pub proof fn lemma_document_values(records: Seq<Seq<Field>>, key: Seq<u8>)
    requires
        forall|r: int| 0 <= r < records.len() ==> (#[trigger] records[r]).len() > 0,
        forall|r: int, i: int|
            0 <= r < records.len() && 0 <= i < records[r].len() ==> valid_field(
                #[trigger] records[r][i],
            ),
        forall|r: int| 0 <= r < records.len() ==> lookup(#[trigger] records[r], key) is Some,
    ensures
        spec_records(serialize_document(records), key) == (
            Seq::<u8>::empty(),
            records.map_values(|r: Seq<Field>| lookup(r, key)->Some_0),
        ),
    decreases records.len(),
{
    let vals = records.map_values(|r: Seq<Field>| lookup(r, key)->Some_0);
    if records.len() == 0 {
        lemma_no_line_at_blank(Seq::<u8>::empty());
        assert(vals =~= Seq::<Seq<u8>>::empty());
    } else {
        let first = records[0];
        let more = records.drop_first();
        assert forall|r: int| 0 <= r < more.len() implies (#[trigger] more[r]).len() > 0 by {
            assert(more[r] == records[r + 1]);
        }
        assert forall|r: int, i: int| 0 <= r < more.len() && 0 <= i < more[r].len() implies valid_field(
            #[trigger] more[r][i],
        ) by {
            assert(more[r] == records[r + 1]);
        }
        assert forall|r: int| 0 <= r < more.len() implies lookup(#[trigger] more[r], key) is Some by {
            assert(more[r] == records[r + 1]);
        }
        lemma_document_values(more, key);
        let rest = serialize_document(more);
        assert forall|i: int| 0 <= i < first.len() implies valid_field(#[trigger] first[i]) by {
            assert(valid_field(records[0][i]));
        }
        assert(lookup(records[0], key) is Some);
        lemma_stanza_round_trip(first, seq![NEWLINE] + rest);
        assert(serialize_document(records) =~= serialize_stanza(first) + (seq![NEWLINE] + rest));
        assert((seq![NEWLINE] + rest).drop_first() =~= rest);
        assert(vals =~= seq![lookup(first, key)->Some_0] + more.map_values(
            |r: Seq<Field>| lookup(r, key)->Some_0,
        ));
    }
}

} // verus!

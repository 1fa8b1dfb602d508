//! Locating a free-form section inside a longer document: a heading line, the
//! underline below it, blank lines, then the body up to an end marker.

use vstd::prelude::*;
use vstd::slice::slice_subrange;
use crate::primitives::{
    find, is_first_occurrence, is_suffix, lemma_find_some, lemma_suffix_occurrence,
    lemma_suffix_trans, lemma_take_until_suffix, occurs, occurs_at, spec_take_until, take_until,
    ParseError, ParseResult, SpecParse, NEWLINE,
};
use crate::stanza::single_line;

verus! {

/// The underline character of a markdown heading.
pub const DASH: u8 = 45;

/// The bytes of `Topic Description`.
pub open spec fn topic_marker() -> Seq<u8> {
    seq![
        84u8, 111u8, 112u8, 105u8, 99u8, 32u8, 68u8, 101u8, 115u8, 99u8, 114u8, 105u8, 112u8,
        116u8, 105u8, 111u8, 110u8,
    ]
}

/// The bytes of a newline followed by `Package(s) Affected`.
pub open spec fn affected_marker() -> Seq<u8> {
    seq![
        10u8, 80u8, 97u8, 99u8, 107u8, 97u8, 103u8, 101u8, 40u8, 115u8, 41u8, 32u8, 65u8, 102u8,
        102u8, 101u8, 99u8, 116u8, 101u8, 100u8,
    ]
}

/// The first index at or after `i` that holds no newline.
pub open spec fn newline_end(s: Seq<u8>, i: int) -> int
    decreases s.len() - i,
{
    if 0 <= i < s.len() && s[i] == NEWLINE {
        newline_end(s, i + 1)
    } else {
        i
    }
}

/// Past the start marker, past the first `underline` byte after it, past the
/// rest of that line and the newlines that follow it.
pub open spec fn spec_section_start(s: Seq<u8>, start: Seq<u8>, underline: u8) -> SpecParse<()> {
    match spec_take_until(s, start) {
        Ok((r1, _)) => match spec_take_until(r1, seq![underline]) {
            Ok((r2, _)) => match spec_take_until(r2, seq![NEWLINE]) {
                Ok((r3, _)) => Ok((r3.subrange(newline_end(r3, 0), r3.len() as int), ())),
                Err(e) => Err(e),
            },
            Err(e) => Err(e),
        },
        Err(e) => Err(e),
    }
}

/// The section's body: from the end of its start up to the end marker. The
/// remainder starts with the end marker.
pub open spec fn spec_section(s: Seq<u8>, start: Seq<u8>, underline: u8, end: Seq<u8>) -> SpecParse<
    Seq<u8>,
> {
    match spec_section_start(s, start, underline) {
        Ok((r, _)) => spec_take_until(r, end),
        Err(e) => Err(e),
    }
}

pub proof fn lemma_newline_end(s: Seq<u8>, i: int)
    requires
        0 <= i <= s.len(),
    ensures
        i <= newline_end(s, i) <= s.len(),
        forall|k: int| i <= k < newline_end(s, i) ==> s[k] == NEWLINE,
        newline_end(s, i) < s.len() ==> s[newline_end(s, i)] != NEWLINE,
    decreases s.len() - i,
{
    if i < s.len() && s[i] == NEWLINE {
        lemma_newline_end(s, i + 1);
    }
}

/// Where the section's body starts, it lies at or after the first start
/// marker.
pub proof fn lemma_section_start_after_marker(s: Seq<u8>, start: Seq<u8>, underline: u8)
    ensures
        spec_section_start(s, start, underline) matches Ok((r, _)) ==> {
            &&& is_suffix(r, s)
            &&& find(s, start) is Some
            &&& s.len() - r.len() >= find(s, start)->Some_0
        },
{
    lemma_take_until_suffix(s, start);
    if let Ok((r1, _)) = spec_take_until(s, start) {
        lemma_take_until_suffix(r1, seq![underline]);
        if let Ok((r2, _)) = spec_take_until(r1, seq![underline]) {
            lemma_suffix_trans(r2, r1, s);
            lemma_take_until_suffix(r2, seq![NEWLINE]);
            if let Ok((r3, _)) = spec_take_until(r2, seq![NEWLINE]) {
                lemma_suffix_trans(r3, r2, s);
                lemma_newline_end(r3, 0);
                let r4 = r3.subrange(newline_end(r3, 0), r3.len() as int);
                assert(is_suffix(r4, r3)) by {
                    assert(r4 =~= r3.subrange(r3.len() - r4.len(), r3.len() as int));
                }
                lemma_suffix_trans(r4, r3, s);
            }
        }
    }
}

/// The section is not found when the start marker is absent, or when the end
/// marker stands nowhere at or after the first start marker: in particular
/// when it is absent, or stands only before the start marker.
pub proof fn lemma_section_not_found(s: Seq<u8>, start: Seq<u8>, underline: u8, end: Seq<u8>)
    requires
        !occurs(s, start) || exists|a: int|
            is_first_occurrence(s, start, a) && forall|i: int| occurs_at(s, end, i) ==> i < a,
    ensures
        spec_section(s, start, underline, end) is Err,
{
    lemma_section_start_after_marker(s, start, underline);
    if let Ok((r, _)) = spec_section_start(s, start, underline) {
        lemma_find_some(s, start);
        let a = find(s, start)->Some_0;
        if let Ok((_, _)) = spec_take_until(r, end) {
            lemma_find_some(r, end);
            let j = find(r, end)->Some_0;
            lemma_suffix_occurrence(r, s, end, j);
            if !occurs(s, start) {
                assert(occurs_at(s, start, a));
            } else {
                let b = choose|b: int|
                    is_first_occurrence(s, start, b) && forall|i: int| occurs_at(s, end, i) ==> i < b;
                if b < a {
                    assert(!occurs_at(s, start, b));
                }
                if a < b {
                    assert(!occurs_at(s, start, a));
                }
                assert(occurs_at(s, end, s.len() - r.len() + j));
            }
        }
    }
}

fn topic_pattern() -> (r: &'static [u8])
    ensures
        r@ == topic_marker(),
{
    let p = "Topic Description".as_bytes();
    proof {
        reveal_strlit("Topic Description");
        vstd::string::is_ascii_spec_bytes("Topic Description");
    }
    assert(p@ =~= topic_marker());
    p
}

fn affected_pattern() -> (r: &'static [u8])
    ensures
        r@ == affected_marker(),
{
    let p = "\nPackage(s) Affected".as_bytes();
    proof {
        reveal_strlit("\nPackage(s) Affected");
        vstd::string::is_ascii_spec_bytes("\nPackage(s) Affected");
    }
    assert(p@ =~= affected_marker());
    p
}

/// Consumes the newlines at the start of `input`, at least one.
fn newlines1(input: &[u8]) -> (r: ParseResult<()>)
    requires
        input@.len() > 0,
        input@[0] == NEWLINE,
    ensures
        r matches Ok((rest, _)) && rest@ == input@.subrange(newline_end(input@, 0), input@.len() as int),
{
    let mut i: usize = 0;
    while i < input.len() && input[i] == NEWLINE
        invariant
            i <= input@.len(),
            newline_end(input@, 0) == newline_end(input@, i as int),
        decreases input.len() - i,
    {
        i = i + 1;
    }
    Ok((slice_subrange(input, i, input.len()), ()))
}

/// Skips to the start marker, to the first `underline` byte after it, past the
/// rest of that line and the newlines that follow it.
pub fn section_start<'a>(input: &'a [u8], start: &[u8], underline: u8) -> (r: ParseResult<'a, ()>)
    ensures
        match r {
            Ok((rest, u)) => spec_section_start(input@, start@, underline) == Ok::<_, ParseError>(
                (rest@, u),
            ),
            Err(e) => spec_section_start(input@, start@, underline) == Err::<(Seq<u8>, ()), _>(e),
        },
{
    let (r1, _) = take_until(input, start)?;
    let under: [u8; 1] = [underline];
    assert(under@ =~= seq![underline]);
    let (r2, _) = take_until(r1, under.as_slice())?;
    let (r3, _) = single_line(r2)?;
    proof {
        lemma_take_until_suffix(r2@, seq![NEWLINE]);
        assert(r3@[0] == r3@.subrange(0, 1)[0]);
    }
    newlines1(r3)
}

/// Returns the body of the section that starts at the first `start` marker:
/// after the first `underline` byte that follows the marker, the rest of that
/// line and the newlines after it are skipped, and the body runs up to,
/// not including, the next `end` marker. The remainder starts with `end`.
pub fn extract_section<'a>(input: &'a [u8], start: &[u8], underline: u8, end: &[u8]) -> (r:
    ParseResult<'a, &'a [u8]>)
    ensures
        match r {
            Ok((rest, body)) => spec_section(input@, start@, underline, end@) == Ok::<_, ParseError>(
                (rest@, body@),
            ),
            Err(e) => spec_section(input@, start@, underline, end@) == Err::<
                (Seq<u8>, Seq<u8>),
                _,
            >(e),
        },
{
    let (r, _) = section_start(input, start, underline)?;
    take_until(r, end)
}

/// Takes everything before the `Topic Description` heading.
pub fn desc_title<'a>(input: &'a [u8]) -> (r: ParseResult<'a, &'a [u8]>)
    ensures
        match r {
            Ok((rest, v)) => spec_take_until(input@, topic_marker()) == Ok::<_, ParseError>(
                (rest@, v@),
            ),
            Err(e) => spec_take_until(input@, topic_marker()) == Err::<(Seq<u8>, Seq<u8>), _>(e),
        },
{
    take_until(input, topic_pattern())
}

/// Takes everything before the first `-`.
pub fn desc_separator<'a>(input: &'a [u8]) -> (r: ParseResult<'a, &'a [u8]>)
    ensures
        match r {
            Ok((rest, v)) => spec_take_until(input@, seq![DASH]) == Ok::<_, ParseError>((rest@, v@)),
            Err(e) => spec_take_until(input@, seq![DASH]) == Err::<(Seq<u8>, Seq<u8>), _>(e),
        },
{
    let dash: [u8; 1] = [DASH];
    assert(dash@ =~= seq![DASH]);
    take_until(input, dash.as_slice())
}

/// Skips the `Topic Description` heading, its underline and the blank lines
/// below it.
pub fn desc_start(input: &[u8]) -> (r: ParseResult<()>)
    ensures
        match r {
            Ok((rest, u)) => spec_section_start(input@, topic_marker(), DASH) == Ok::<_, ParseError>(
                (rest@, u),
            ),
            Err(e) => spec_section_start(input@, topic_marker(), DASH) == Err::<(Seq<u8>, ()), _>(e),
        },
{
    section_start(input, topic_pattern(), DASH)
}

/// Takes everything before the line `Package(s) Affected`, leaving the newline
/// that precedes it in the remainder.
pub fn desc_end<'a>(input: &'a [u8]) -> (r: ParseResult<'a, &'a [u8]>)
    ensures
        match r {
            Ok((rest, v)) => spec_take_until(input@, affected_marker()) == Ok::<_, ParseError>(
                (rest@, v@),
            ),
            Err(e) => spec_take_until(input@, affected_marker()) == Err::<(Seq<u8>, Seq<u8>), _>(e),
        },
{
    take_until(input, affected_pattern())
}

/// The topic description of a pull-request body: the section under the
/// `Topic Description` heading, up to the line `Package(s) Affected`.
pub fn extract_topic_description<'a>(input: &'a [u8]) -> (r: ParseResult<'a, &'a [u8]>)
    ensures
        match r {
            Ok((rest, body)) => spec_section(input@, topic_marker(), DASH, affected_marker()) == Ok::<
                _,
                ParseError,
            >((rest@, body@)),
            Err(e) => spec_section(input@, topic_marker(), DASH, affected_marker()) == Err::<
                (Seq<u8>, Seq<u8>),
                _,
            >(e),
        },
{
    extract_section(input, topic_pattern(), DASH, affected_pattern())
}

} // verus!

//! Byte-level scanning shared by the parsers: locating the first occurrence
//! of a pattern and splitting the input there.

use vstd::prelude::*;
use vstd::slice::slice_subrange;

verus! {

/// Why a parser did not match.
#[derive(Debug, Clone, Copy, PartialEq, Eq, Structural)]
pub enum ParseError {
    /// The input does not follow the grammar where this many bytes of it
    /// were left.
    Syntax(usize),
    /// A stanza parsed, but it lacks the field that was asked for.
    MissingField,
}

/// A parse yields the unconsumed remainder and a value, or an error.
pub type ParseResult<'a, T> = Result<(&'a [u8], T), ParseError>;

/// The model of a parse: remainder and value, or an error.
pub type SpecParse<T> = Result<(Seq<u8>, T), ParseError>;

pub const NEWLINE: u8 = 10;

pub const TAB: u8 = 9;

pub const SPACE: u8 = 32;

pub const COLON: u8 = 58;

/// `pat` stands in `s` starting at index `i`.
pub open spec fn occurs_at(s: Seq<u8>, pat: Seq<u8>, i: int) -> bool {
    0 <= i && i + pat.len() <= s.len() && s.subrange(i, i + pat.len()) == pat
}

pub open spec fn occurs(s: Seq<u8>, pat: Seq<u8>) -> bool {
    exists|i: int| occurs_at(s, pat, i)
}

/// `i` is where `pat` first stands in `s`.
pub open spec fn is_first_occurrence(s: Seq<u8>, pat: Seq<u8>, i: int) -> bool {
    &&& occurs_at(s, pat, i)
    &&& forall|j: int| 0 <= j < i ==> !occurs_at(s, pat, j)
}

/// The index of the first occurrence of `pat` in `s`, if any.
pub open spec fn find(s: Seq<u8>, pat: Seq<u8>) -> Option<int> {
    if exists|i: int| is_first_occurrence(s, pat, i) {
        Some(choose|i: int| is_first_occurrence(s, pat, i))
    } else {
        None
    }
}

/// Everything before the first occurrence of `pat` is taken; the remainder
/// starts with `pat`. No occurrence is a syntax failure at the start of `s`.
pub open spec fn spec_take_until(s: Seq<u8>, pat: Seq<u8>) -> SpecParse<Seq<u8>> {
    match find(s, pat) {
        Some(i) => Ok((s.subrange(i, s.len() as int), s.subrange(0, i))),
        None => Err(ParseError::Syntax(s.len() as usize)),
    }
}

/// `r` is what is left of `s` after a prefix was consumed.
pub open spec fn is_suffix(r: Seq<u8>, s: Seq<u8>) -> bool {
    r.len() <= s.len() && r == s.subrange(s.len() - r.len(), s.len() as int)
}

pub proof fn lemma_first_occurrence_unique(s: Seq<u8>, pat: Seq<u8>, i: int)
    requires
        is_first_occurrence(s, pat, i),
    ensures
        find(s, pat) == Some(i),
{
    let k = choose|k: int| is_first_occurrence(s, pat, k);
    assert(is_first_occurrence(s, pat, k));
    if k < i {
        assert(!occurs_at(s, pat, k));
    }
    if i < k {
        assert(!occurs_at(s, pat, i));
    }
}

/// A found occurrence is the first one, so none comes earlier.
pub proof fn lemma_find_some(s: Seq<u8>, pat: Seq<u8>)
    requires
        find(s, pat) is Some,
    ensures
        is_first_occurrence(s, pat, find(s, pat)->Some_0),
{
}

/// The remainder of `spec_take_until` is a suffix of its input.
pub proof fn lemma_take_until_suffix(s: Seq<u8>, pat: Seq<u8>)
    ensures
        spec_take_until(s, pat) matches Ok((rest, taken)) ==> {
            &&& is_suffix(rest, s)
            &&& s == taken + rest
            &&& rest.len() >= pat.len()
            &&& rest.subrange(0, pat.len() as int) == pat
        },
{
    if let Ok((rest, taken)) = spec_take_until(s, pat) {
        lemma_find_some(s, pat);
        assert(s =~= taken + rest);
        assert(rest =~= s.subrange(s.len() - rest.len(), s.len() as int));
        assert(rest.subrange(0, pat.len() as int) =~= pat);
    }
}

/// A suffix of a suffix is a suffix.
pub proof fn lemma_suffix_trans(a: Seq<u8>, b: Seq<u8>, c: Seq<u8>)
    requires
        is_suffix(a, b),
        is_suffix(b, c),
    ensures
        is_suffix(a, c),
{
    assert(a =~= c.subrange(c.len() - a.len(), c.len() as int));
}

/// An occurrence in a suffix is an occurrence in the whole.
pub proof fn lemma_suffix_occurrence(r: Seq<u8>, s: Seq<u8>, pat: Seq<u8>, j: int)
    requires
        is_suffix(r, s),
        occurs_at(r, pat, j),
    ensures
        occurs_at(s, pat, s.len() - r.len() + j),
{
    let off = s.len() - r.len();
    assert(s.subrange(off + j, off + j + pat.len()) =~= r.subrange(j, j + pat.len()));
}

/// Whether `pat` stands in `s` at index `i`.
pub fn matches_at(s: &[u8], pat: &[u8], i: usize) -> (r: bool)
    ensures
        r == occurs_at(s@, pat@, i as int),
{
    if pat.len() > s.len() || i > s.len() - pat.len() {
        return false;
    }
    let mut k: usize = 0;
    while k < pat.len()
        invariant
            s@.len() <= usize::MAX,
            i + pat@.len() <= s@.len(),
            k <= pat@.len(),
            forall|m: int| 0 <= m < k ==> s@[i + m] == pat@[m],
        decreases pat.len() - k,
    {
        if s[i + k] != pat[k] {
            assert(s@.subrange(i as int, i + pat@.len())[k as int] != pat@[k as int]);
            return false;
        }
        k = k + 1;
    }
    assert(s@.subrange(i as int, i + pat@.len()) =~= pat@);
    true
}

/// The index of the first occurrence of `pat` in `s`.
pub fn find_first(s: &[u8], pat: &[u8]) -> (r: Option<usize>)
    ensures
        match r {
            Some(i) => find(s@, pat@) == Some(i as int),
            None => find(s@, pat@) is None && !occurs(s@, pat@),
        },
{
    if pat.len() > s.len() {
        return None;
    }
    if pat.len() == 0 {
        proof {
            assert(s@.subrange(0, 0) =~= pat@);
            lemma_first_occurrence_unique(s@, pat@, 0);
        }
        return Some(0);
    }
    let last = s.len() - pat.len();
    let mut i: usize = 0;
    while i <= last
        invariant
            s@.len() <= usize::MAX,
            last + pat@.len() == s@.len(),
            pat@.len() > 0,
            i <= last + 1,
            forall|j: int| 0 <= j < i ==> !occurs_at(s@, pat@, j),
        decreases last + 1 - i,
    {
        if matches_at(s, pat, i) {
            proof {
                lemma_first_occurrence_unique(s@, pat@, i as int);
            }
            return Some(i);
        }
        i = i + 1;
    }
    None
}

/// Splits `input` before the first occurrence of `pat`: the remainder comes
/// first, then what was taken.
pub fn take_until<'a>(input: &'a [u8], pat: &[u8]) -> (r: ParseResult<'a, &'a [u8]>)
    ensures
        match r {
            Ok((rest, taken)) => spec_take_until(input@, pat@) == Ok::<_, ParseError>((rest@, taken@)),
            Err(e) => spec_take_until(input@, pat@) == Err::<(Seq<u8>, Seq<u8>), _>(e),
        },
{
    match find_first(input, pat) {
        Some(i) => Ok((slice_subrange(input, i, input.len()), slice_subrange(input, 0, i))),
        None => Err(ParseError::Syntax(input.len())),
    }
}

} // verus!

use vstd::prelude::*;

verus! {

/// Whether a character has the Unicode `White_Space` property.
pub uninterp spec fn white_space(c: char) -> bool;

/// Whether a character is alphabetic or numeric in the Unicode sense.
pub uninterp spec fn alphanumeric(c: char) -> bool;

/// Relies on `char::is_whitespace`: true exactly for `White_Space` characters,
/// a property of the character alone.
#[verifier::external_body]
fn is_whitespace(c: char) -> (r: bool)
    ensures
        r == white_space(c),
{
    c.is_whitespace()
}

/// Relies on `char::is_alphanumeric`: true exactly for alphabetic or numeric
/// characters, a property of the character alone.
#[verifier::external_body]
fn is_alphanumeric(c: char) -> (r: bool)
    ensures
        r == alphanumeric(c),
{
    c.is_alphanumeric()
}

/// A character of the input together with the two classes the scanner asks about.
#[derive(Clone, Copy, Debug, PartialEq, Eq, Structural)]
pub struct ClassifiedChar {
    pub ch: char,
    pub whitespace: bool,
    pub alphanumeric: bool,
}

/// The classification of one character.
pub open spec fn classified(c: char) -> ClassifiedChar {
    ClassifiedChar { ch: c, whitespace: white_space(c), alphanumeric: alphanumeric(c) }
}

/// The classification of every character of a text, in order.
pub open spec fn classified_text(s: Seq<char>) -> Seq<ClassifiedChar> {
    s.map_values(|c: char| classified(c))
}

/// The characters of a classified text.
pub open spec fn chars_of(t: Seq<ClassifiedChar>) -> Seq<char> {
    t.map_values(|c: ClassifiedChar| c.ch)
}

/// Classifies each character of `input`.
pub fn classify(input: &str) -> (r: Vec<ClassifiedChar>)
    ensures
        r@ == classified_text(input@),
{
    let mut r: Vec<ClassifiedChar> = Vec::new();
    for c in it: input.chars()
        invariant
            it.seq() == input@,
            r@ == classified_text(it.seq().take(it.index() as int)),
    {
        let entry = ClassifiedChar { ch: c, whitespace: is_whitespace(c), alphanumeric: is_alphanumeric(c) };
        let ghost done = it.seq().take(it.index() as int);
        r.push(entry);
        proof {
            assert(it.seq().take(it.index() + 1) =~= done.push(c));
            assert(classified_text(done.push(c)) =~= classified_text(done).push(classified(c)));
        }
    }
    r
}

} // verus!

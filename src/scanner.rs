use vstd::prelude::*;

use crate::chars::{chars_of, classified_text, white_space, ClassifiedChar};
use crate::chars::classify;
use crate::number::{decimal_literal, is_decimal_literal, parse_radix, radix_number};
use crate::token::{Numeral, Token, TokenType};

verus! {

/// The kind of a token that is always one character wide.
pub open spec fn single_kind(c: char) -> Option<TokenType> {
    if c == '(' {
        Some(TokenType::LeftParen)
    } else if c == ')' {
        Some(TokenType::RightParen)
    } else if c == '[' {
        Some(TokenType::LeftSquare)
    } else if c == ']' {
        Some(TokenType::RightSquare)
    } else if c == '{' {
        Some(TokenType::LeftBrace)
    } else if c == '}' {
        Some(TokenType::RightBrace)
    } else if c == ',' {
        Some(TokenType::Comma)
    } else if c == '.' {
        Some(TokenType::Dot)
    } else if c == '+' {
        Some(TokenType::Plus)
    } else if c == '-' {
        Some(TokenType::Minus)
    } else if c == '*' {
        Some(TokenType::Star)
    } else if c == '/' {
        Some(TokenType::Slash)
    } else if c == ';' {
        Some(TokenType::Semicolon)
    } else {
        None
    }
}

/// For an operator character that may take a following `=`, its kind alone
/// and its kind with the `=`. `<` and `>` pair with `Greater` and `Less`
/// respectively.
pub open spec fn operator_kinds(c: char) -> Option<(TokenType, TokenType)> {
    if c == '!' {
        Some((TokenType::Bang, TokenType::BangEqual))
    } else if c == '=' {
        Some((TokenType::Equal, TokenType::DoubleEqual))
    } else if c == '<' {
        Some((TokenType::Greater, TokenType::GreaterEqual))
    } else if c == '>' {
        Some((TokenType::Less, TokenType::LessEqual))
    } else {
        None
    }
}

/// The keyword that `w` spells, or `Ident` where it spells none.
pub open spec fn keyword_kind(w: Seq<char>) -> TokenType {
    if w == seq!['a', 'n', 'd'] {
        TokenType::And
    } else if w == seq!['o', 'r'] {
        TokenType::Or
    } else if w == seq!['s', 'e', 'l', 'f'] {
        TokenType::Self_
    } else if w == seq!['s', 't', 'r', 'u', 'c', 't'] {
        TokenType::Struct
    } else if w == seq!['t', 'r', 'u', 'e'] {
        TokenType::True
    } else if w == seq!['f', 'a', 'l', 's', 'e'] {
        TokenType::False
    } else if w == seq!['f', 'n'] {
        TokenType::Fn
    } else if w == seq!['i', 'f'] {
        TokenType::If
    } else if w == seq!['e', 'l', 's', 'e'] {
        TokenType::Else
    } else if w == seq!['n', 'i', 'l'] {
        TokenType::Nil
    } else if w == seq!['p', 'r', 'i', 'n', 't'] {
        TokenType::Print
    } else if w == seq!['r', 'e', 't', 'u', 'r', 'n'] {
        TokenType::Return
    } else if w == seq!['s', 'u', 'p', 'e', 'r'] {
        TokenType::Super
    } else if w == seq!['l', 'e', 't'] {
        TokenType::Let
    } else if w == seq!['w', 'h', 'i', 'l', 'e'] {
        TokenType::While
    } else if w == seq!['f', 'o', 'r'] {
        TokenType::For
    } else {
        TokenType::Ident
    }
}

/// Whether `w` starts with `0` followed by `lower` in either case.
pub open spec fn has_prefix(w: Seq<char>, lower: char, upper: char) -> bool {
    w.len() >= 2 && w[0] == '0' && (w[1] == lower || w[1] == upper)
}

/// The kind of a word: a prefixed hexadecimal or binary integer, a decimal
/// literal, a keyword or an identifier. A prefixed word whose digits do not
/// read as a 64-bit integer is unrecognized.
pub open spec fn word_kind(w: Seq<char>) -> TokenType {
    if has_prefix(w, 'x', 'X') {
        match radix_number(w.skip(2), 16) {
            Some(n) => TokenType::Number(Numeral::Integer(n)),
            None => TokenType::Unrecognized,
        }
    } else if has_prefix(w, 'b', 'B') {
        match radix_number(w.skip(2), 2) {
            Some(n) => TokenType::Number(Numeral::Integer(n)),
            None => TokenType::Unrecognized,
        }
    } else if decimal_literal(w) {
        TokenType::Number(Numeral::Decimal)
    } else {
        keyword_kind(w)
    }
}

/// The first index from `i` on that holds no whitespace, or the length of `t`.
pub open spec fn next_nonspace(t: Seq<ClassifiedChar>, i: int) -> int
    decreases t.len() - i,
{
    if i >= t.len() || !t[i].whitespace {
        i
    } else {
        next_nonspace(t, i + 1)
    }
}

/// Whether a character may continue a word.
pub open spec fn continues_word(c: ClassifiedChar) -> bool {
    c.alphanumeric || c.ch == '_'
}

/// The first index from `i` on that cannot continue a word.
pub open spec fn word_end(t: Seq<ClassifiedChar>, i: int) -> int
    decreases t.len() - i,
{
    if i >= t.len() || !continues_word(t[i]) {
        i
    } else {
        word_end(t, i + 1)
    }
}

/// The index just past the closing quote of a string whose contents start at
/// `i`, or the length of `t` where no quote closes it. A backslash takes the
/// character after it into the string unread.
pub open spec fn string_end(t: Seq<ClassifiedChar>, i: int) -> int
    decreases t.len() + 1 - i,
{
    if i >= t.len() {
        t.len() as int
    } else if t[i].ch == '"' {
        i + 1
    } else if t[i].ch == '\\' {
        string_end(t, i + 2)
    } else {
        string_end(t, i + 1)
    }
}

/// The token that starts at index `start`, a character that is no whitespace.
pub open spec fn token_at(t: Seq<ClassifiedChar>, start: int) -> Token {
    let c = t[start].ch;
    if single_kind(c) is Some {
        Token { ttype: single_kind(c)->0, start: start as usize, end: (start + 1) as usize }
    } else if operator_kinds(c) is Some {
        let (alone, with_equal) = operator_kinds(c)->0;
        if start + 1 < t.len() && t[start + 1].ch == '=' {
            Token { ttype: with_equal, start: start as usize, end: (start + 2) as usize }
        } else {
            Token { ttype: alone, start: start as usize, end: (start + 1) as usize }
        }
    } else if t[start].alphanumeric {
        let end = word_end(t, start + 1);
        Token {
            ttype: word_kind(chars_of(t).subrange(start, end)),
            start: start as usize,
            end: end as usize,
        }
    } else if c == '"' {
        Token { ttype: TokenType::String, start: start as usize, end: string_end(t, start + 1) as usize }
    } else {
        Token { ttype: TokenType::Unrecognized, start: start as usize, end: (start + 1) as usize }
    }
}

proof fn lemma_next_nonspace(t: Seq<ClassifiedChar>, i: int)
    requires
        0 <= i <= t.len(),
    ensures
        i <= next_nonspace(t, i) <= t.len(),
        next_nonspace(t, i) < t.len() ==> !t[next_nonspace(t, i)].whitespace,
        forall|k: int| i <= k < next_nonspace(t, i) ==> #[trigger] t[k].whitespace,
    decreases t.len() - i,
{
    if i < t.len() && t[i].whitespace {
        lemma_next_nonspace(t, i + 1);
    }
}

proof fn lemma_word_end(t: Seq<ClassifiedChar>, i: int)
    requires
        0 <= i <= t.len(),
    ensures
        i <= word_end(t, i) <= t.len(),
    decreases t.len() - i,
{
    if i < t.len() && continues_word(t[i]) {
        lemma_word_end(t, i + 1);
    }
}

proof fn lemma_string_end(t: Seq<ClassifiedChar>, i: int)
    requires
        0 <= i,
    ensures
        string_end(t, i) <= t.len(),
        i <= t.len() ==> i <= string_end(t, i),
    decreases t.len() + 1 - i,
{
    if i < t.len() && t[i].ch != '"' {
        if t[i].ch == '\\' {
            lemma_string_end(t, i + 2);
        } else {
            lemma_string_end(t, i + 1);
        }
    }
}

/// A token taken at a non-whitespace index lies within the text and holds at
/// least that index.
proof fn lemma_token_at(t: Seq<ClassifiedChar>, start: int)
    requires
        0 <= start < t.len() <= usize::MAX,
    ensures
        token_at(t, start).start == start,
        start < token_at(t, start).end <= t.len(),
{
    lemma_word_end(t, start + 1);
    lemma_string_end(t, start + 1);
}

/// The tokens of `t` from index `pos` on.
pub open spec fn lex_from(t: Seq<ClassifiedChar>, pos: int) -> Seq<Token>
    decreases t.len() - pos,
    via lex_from_decreases
{
    let s = next_nonspace(t, pos);
    if s >= t.len() || pos < 0 || t.len() > usize::MAX {
        seq![]
    } else {
        let tok = token_at(t, s);
        seq![tok].add(lex_from(t, tok.end as int))
    }
}

#[via_fn]
proof fn lex_from_decreases(t: Seq<ClassifiedChar>, pos: int) {
    let s = next_nonspace(t, pos);
    if pos >= 0 && pos <= t.len() {
        lemma_next_nonspace(t, pos);
        if s < t.len() && t.len() <= usize::MAX {
            lemma_token_at(t, s);
        }
    }
}

/// The tokens of a classified text, in order.
pub open spec fn lex(t: Seq<ClassifiedChar>) -> Seq<Token> {
    lex_from(t, 0)
}

fn single_token_kind(c: char) -> (r: Option<TokenType>)
    ensures
        r == single_kind(c),
{
    match c {
        '(' => Some(TokenType::LeftParen),
        ')' => Some(TokenType::RightParen),
        '[' => Some(TokenType::LeftSquare),
        ']' => Some(TokenType::RightSquare),
        '{' => Some(TokenType::LeftBrace),
        '}' => Some(TokenType::RightBrace),
        ',' => Some(TokenType::Comma),
        '.' => Some(TokenType::Dot),
        '+' => Some(TokenType::Plus),
        '-' => Some(TokenType::Minus),
        '*' => Some(TokenType::Star),
        '/' => Some(TokenType::Slash),
        ';' => Some(TokenType::Semicolon),
        _ => None,
    }
}

fn operator_token_kinds(c: char) -> (r: Option<(TokenType, TokenType)>)
    ensures
        r == operator_kinds(c),
{
    match c {
        '!' => Some((TokenType::Bang, TokenType::BangEqual)),
        '=' => Some((TokenType::Equal, TokenType::DoubleEqual)),
        '<' => Some((TokenType::Greater, TokenType::GreaterEqual)),
        '>' => Some((TokenType::Less, TokenType::LessEqual)),
        _ => None,
    }
}

fn word_is(w: &Vec<char>, k: &[char]) -> (r: bool)
    ensures
        r == (w@ == k@),
{
    if w.len() != k.len() {
        return false;
    }
    let mut i: usize = 0;
    while i < w.len()
        invariant
            i <= w.len() == k@.len(),
            forall|j: int| 0 <= j < i ==> w@[j] == k@[j],
        decreases w.len() - i,
    {
        if w[i] != k[i] {
            return false;
        }
        i = i + 1;
    }
    assert(w@ =~= k@);
    true
}

/// The keyword that `w` spells, or `Ident`.
fn keyword(w: &Vec<char>) -> (r: TokenType)
    ensures
        r == keyword_kind(w@),
{
    if word_is(w, &['a', 'n', 'd']) {
        TokenType::And
    } else if word_is(w, &['o', 'r']) {
        TokenType::Or
    } else if word_is(w, &['s', 'e', 'l', 'f']) {
        TokenType::Self_
    } else if word_is(w, &['s', 't', 'r', 'u', 'c', 't']) {
        TokenType::Struct
    } else if word_is(w, &['t', 'r', 'u', 'e']) {
        TokenType::True
    } else if word_is(w, &['f', 'a', 'l', 's', 'e']) {
        TokenType::False
    } else if word_is(w, &['f', 'n']) {
        TokenType::Fn
    } else if word_is(w, &['i', 'f']) {
        TokenType::If
    } else if word_is(w, &['e', 'l', 's', 'e']) {
        TokenType::Else
    } else if word_is(w, &['n', 'i', 'l']) {
        TokenType::Nil
    } else if word_is(w, &['p', 'r', 'i', 'n', 't']) {
        TokenType::Print
    } else if word_is(w, &['r', 'e', 't', 'u', 'r', 'n']) {
        TokenType::Return
    } else if word_is(w, &['s', 'u', 'p', 'e', 'r']) {
        TokenType::Super
    } else if word_is(w, &['l', 'e', 't']) {
        TokenType::Let
    } else if word_is(w, &['w', 'h', 'i', 'l', 'e']) {
        TokenType::While
    } else if word_is(w, &['f', 'o', 'r']) {
        TokenType::For
    } else {
        TokenType::Ident
    }
}

/// Classifies a word of letters, digits and underscores.
pub fn classify_word(w: &Vec<char>) -> (r: TokenType)
    ensures
        r == word_kind(w@),
{
    let prefixed = w.len() >= 2 && w[0] == '0';
    if prefixed && (w[1] == 'x' || w[1] == 'X') {
        match parse_radix(w, 2, 16) {
            Some(n) => TokenType::Number(Numeral::Integer(n)),
            None => TokenType::Unrecognized,
        }
    } else if prefixed && (w[1] == 'b' || w[1] == 'B') {
        match parse_radix(w, 2, 2) {
            Some(n) => TokenType::Number(Numeral::Integer(n)),
            None => TokenType::Unrecognized,
        }
    } else if is_decimal_literal(w) {
        TokenType::Number(Numeral::Decimal)
    } else {
        keyword(w)
    }
}

fn skip_space(t: &Vec<ClassifiedChar>, from: usize) -> (r: usize)
    requires
        from <= t.len(),
    ensures
        r == next_nonspace(t@, from as int),
{
    let mut i = from;
    while i < t.len() && t[i].whitespace
        invariant
            from <= i <= t.len(),
            next_nonspace(t@, i as int) == next_nonspace(t@, from as int),
        decreases t.len() - i,
    {
        i = i + 1;
    }
    i
}

fn scan_word(t: &Vec<ClassifiedChar>, from: usize) -> (r: usize)
    requires
        from <= t.len(),
    ensures
        r == word_end(t@, from as int),
{
    let mut i = from;
    while i < t.len() && (t[i].alphanumeric || t[i].ch == '_')
        invariant
            from <= i <= t.len(),
            word_end(t@, i as int) == word_end(t@, from as int),
        decreases t.len() - i,
    {
        i = i + 1;
    }
    i
}

fn scan_string(t: &Vec<ClassifiedChar>, from: usize) -> (r: usize)
    requires
        from <= t.len(),
    ensures
        r == string_end(t@, from as int),
{
    let mut i = from;
    while i < t.len()
        invariant
            from <= i <= t.len(),
            string_end(t@, i as int) == string_end(t@, from as int),
        decreases t.len() - i,
    {
        if t[i].ch == '"' {
            return i + 1;
        }
        if t[i].ch == '\\' {
            if i + 1 == t.len() {
                assert(string_end(t@, i + 2) == t.len());
                return t.len();
            }
            i = i + 2;
        } else {
            i = i + 1;
        }
    }
    i
}

/// The characters of `t` at indices `start..end`.
fn word_at(t: &Vec<ClassifiedChar>, start: usize, end: usize) -> (w: Vec<char>)
    requires
        start <= end <= t.len(),
    ensures
        w@ == chars_of(t@).subrange(start as int, end as int),
{
    let mut w: Vec<char> = Vec::new();
    let mut i = start;
    while i < end
        invariant
            start <= i <= end <= t.len(),
            w@ == chars_of(t@).subrange(start as int, i as int),
        decreases end - i,
    {
        w.push(t[i].ch);
        i = i + 1;
        assert(w@ =~= chars_of(t@).subrange(start as int, i as int));
    }
    w
}

/// Scans the token that starts at `start`, a character that is no whitespace.
fn next_token(t: &Vec<ClassifiedChar>, start: usize) -> (tok: Token)
    requires
        start < t.len(),
    ensures
        tok == token_at(t@, start as int),
{
    let c = t[start].ch;
    if let Some(kind) = single_token_kind(c) {
        return Token { ttype: kind, start, end: start + 1 };
    }
    if let Some((alone, with_equal)) = operator_token_kinds(c) {
        if start + 1 < t.len() && t[start + 1].ch == '=' {
            return Token { ttype: with_equal, start, end: start + 2 };
        }
        return Token { ttype: alone, start, end: start + 1 };
    }
    if t[start].alphanumeric {
        let end = scan_word(t, start + 1);
        proof {
            lemma_word_end(t@, start + 1);
        }
        let w = word_at(t, start, end);
        return Token { ttype: classify_word(&w), start, end };
    }
    if c == '"' {
        return Token { ttype: TokenType::String, start, end: scan_string(t, start + 1) };
    }
    Token { ttype: TokenType::Unrecognized, start, end: start + 1 }
}

/// Splits a classified text into its tokens, in order.
pub fn scan(t: &Vec<ClassifiedChar>) -> (tokens: Vec<Token>)
    ensures
        tokens@ == lex(t@),
{
    let mut tokens: Vec<Token> = Vec::new();
    let mut pos: usize = 0;
    loop
        invariant
            pos <= t.len(),
            tokens@ + lex_from(t@, pos as int) == lex(t@),
        decreases t.len() - pos,
    {
        let start = skip_space(t, pos);
        proof {
            lemma_next_nonspace(t@, pos as int);
        }
        if start == t.len() {
            assert(tokens@ + lex_from(t@, pos as int) =~= tokens@);
            return tokens;
        }
        let tok = next_token(t, start);
        proof {
            lemma_token_at(t@, start as int);
            assert(lex_from(t@, pos as int) == seq![tok] + lex_from(t@, tok.end as int));
            assert(tokens@.push(tok) + lex_from(t@, tok.end as int) =~= tokens@ + lex_from(
                t@,
                pos as int,
            ));
        }
        tokens.push(tok);
        pos = tok.end;
    }
}

/// Splits `input` into its tokens, in order. Offsets count characters.
pub fn tokenize(input: &str) -> (tokens: Vec<Token>)
    ensures
        tokens@ == lex(classified_text(input@)),
{
    let text = classify(input);
    scan(&text)
}

/// Whether `toks`, in order, cover the text `t` from index `from` on: each
/// token is a non-empty slice that starts at or after the previous one's end,
/// and every character outside the tokens is whitespace.
pub open spec fn tiles(t: Seq<ClassifiedChar>, toks: Seq<Token>, from: int) -> bool
    decreases toks.len(),
{
    if toks.len() == 0 {
        forall|k: int| from <= k < t.len() ==> #[trigger] t[k].whitespace
    } else {
        &&& from <= toks[0].start < toks[0].end <= t.len()
        &&& forall|k: int| from <= k < toks[0].start ==> #[trigger] t[k].whitespace
        &&& tiles(t, toks.drop_first(), toks[0].end as int)
    }
}

/// The text rebuilt from `toks` from index `from` on: each run skipped before
/// a token, then the token's slice, and finally the run after the last token.
pub open spec fn rebuild(s: Seq<char>, toks: Seq<Token>, from: int) -> Seq<char>
    decreases toks.len(),
{
    if toks.len() == 0 {
        s.subrange(from, s.len() as int)
    } else {
        s.subrange(from, toks[0].start as int) + s.subrange(toks[0].start as int, toks[0].end as int)
            + rebuild(s, toks.drop_first(), toks[0].end as int)
    }
}

proof fn lemma_lex_from_tiles(t: Seq<ClassifiedChar>, pos: int)
    requires
        0 <= pos <= t.len() <= usize::MAX,
    ensures
        tiles(t, lex_from(t, pos), pos),
        rebuild(chars_of(t), lex_from(t, pos), pos) == chars_of(t).subrange(pos, t.len() as int),
        forall|i: int|
            0 <= i < lex_from(t, pos).len() ==> pos <= (#[trigger] lex_from(t, pos)[i]).start
                < lex_from(t, pos)[i].end <= t.len(),
    decreases t.len() - pos,
{
    let s = next_nonspace(t, pos);
    let cs = chars_of(t);
    lemma_next_nonspace(t, pos);
    if s < t.len() {
        let tok = token_at(t, s);
        lemma_token_at(t, s);
        let rest = lex_from(t, tok.end as int);
        lemma_lex_from_tiles(t, tok.end as int);
        let toks = lex_from(t, pos);
        assert(toks == seq![tok] + rest);
        assert(toks.drop_first() =~= rest);
        assert(cs.subrange(pos, s) + cs.subrange(s, tok.end as int) + cs.subrange(
            tok.end as int,
            t.len() as int,
        ) =~= cs.subrange(pos, t.len() as int));
        assert forall|i: int| 0 <= i < toks.len() implies pos <= (#[trigger] toks[i]).start
            < toks[i].end <= t.len() by {
            if i > 0 {
                assert(toks[i] == rest[i - 1]);
            }
        }
    } else {
        assert(cs.subrange(pos, t.len() as int) =~= cs.subrange(pos, t.len() as int));
    }
}

/// A text made only of whitespace has no tokens.
pub proof fn whitespace_only_has_no_tokens(s: Seq<char>)
    requires
        forall|i: int| 0 <= i < s.len() ==> #[trigger] white_space(s[i]),
    ensures
        lex(classified_text(s)) == Seq::<Token>::empty(),
{
    let t = classified_text(s);
    lemma_next_nonspace(t, 0);
    if next_nonspace(t, 0) < t.len() {
        assert(white_space(s[next_nonspace(t, 0)]));
    }
    assert(lex(t) =~= Seq::<Token>::empty());
}

/// Every token is a non-empty slice of the text; the tokens come in order of
/// position; what lies outside them is whitespace; and the skipped runs and the
/// tokens' slices, joined in order, give back the text.
pub proof fn tokens_rebuild_text(s: Seq<char>)
    requires
        s.len() <= usize::MAX,
    ensures
        forall|i: int|
            0 <= i < lex(classified_text(s)).len() ==> (#[trigger] lex(classified_text(s))[i]).start
                < lex(classified_text(s))[i].end <= s.len(),
        tiles(classified_text(s), lex(classified_text(s)), 0),
        rebuild(s, lex(classified_text(s)), 0) == s,
{
    let t = classified_text(s);
    lemma_lex_from_tiles(t, 0);
    assert(chars_of(t) =~= s);
    assert(s.subrange(0, s.len() as int) =~= s);
}

} // verus!

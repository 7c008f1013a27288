use vstd::prelude::*;
use crate::ast::ParseError;

verus! {

/// One lexical token of the RON grammar. Literal text is kept verbatim,
/// delimiters included, so the emitter can reproduce it exactly.
pub enum Token {
    /// `[`
    LBrack,
    /// `]`
    RBrack,
    /// `{`
    LBrace,
    /// `}`
    RBrace,
    /// `(`
    LParen,
    /// `)`
    RParen,
    /// `,`
    Comma,
    /// `:`
    Colon,
    /// A bare atom or identifier: boolean, number, unit variant, name.
    Word(Vec<u8>),
    /// A string or character literal, quotes included.
    Quoted(Vec<u8>),
    /// A line or block comment, markers included. `standalone` records
    /// whether it was the first thing on its line.
    Comment { text: Vec<u8>, standalone: bool },
    /// A whole `#![enable(a, b)]` header block, reduced to its identifiers.
    Ext(Vec<Vec<u8>>),
}

pub enum TokenV {
    LBrack,
    RBrack,
    LBrace,
    RBrace,
    LParen,
    RParen,
    Comma,
    Colon,
    Word(Seq<u8>),
    Quoted(Seq<u8>),
    Comment { text: Seq<u8>, standalone: bool },
    Ext(Seq<Seq<u8>>),
}

pub open spec fn token_view(t: Token) -> TokenV {
    match t {
        Token::LBrack => TokenV::LBrack,
        Token::RBrack => TokenV::RBrack,
        Token::LBrace => TokenV::LBrace,
        Token::RBrace => TokenV::RBrace,
        Token::LParen => TokenV::LParen,
        Token::RParen => TokenV::RParen,
        Token::Comma => TokenV::Comma,
        Token::Colon => TokenV::Colon,
        Token::Word(w) => TokenV::Word(w@),
        Token::Quoted(q) => TokenV::Quoted(q@),
        Token::Comment { text, standalone } => TokenV::Comment { text: text@, standalone },
        Token::Ext(ids) => TokenV::Ext(crate::ast::texts_view(ids@)),
    }
}

pub open spec fn tokens_view(s: Seq<Token>) -> Seq<TokenV>
    decreases s,
{
    if s.len() == 0 {
        Seq::empty()
    } else {
        seq![token_view(s[0])] + tokens_view(s.drop_first())
    }
}

pub proof fn lemma_tokens_view(s: Seq<Token>)
    ensures
        tokens_view(s).len() == s.len(),
        forall|i: int| 0 <= i < s.len() ==> tokens_view(s)[i] == token_view(s[i]),
    decreases s,
{
    if s.len() > 0 {
        lemma_tokens_view(s.drop_first());
    }
}

pub proof fn lemma_tokens_view_push(s: Seq<Token>, t: Token)
    ensures
        tokens_view(s.push(t)) == tokens_view(s) + seq![token_view(t)],
{
    lemma_tokens_view(s);
    lemma_tokens_view(s.push(t));
    assert(s.push(t)[s.len() as int] == t);
    assert(forall|i: int| 0 <= i < s.len() ==> s.push(t)[i] == s[i]);
    assert(tokens_view(s.push(t)) =~= tokens_view(s) + seq![token_view(t)]);
}

// ------------------------------------------------------------------
// Byte classes.
// ------------------------------------------------------------------

/// Space, tab, carriage return or newline.
pub open spec fn is_ws(b: u8) -> bool {
    b == 32 || b == 9 || b == 13 || b == 10
}

/// A byte that may stand inside a bare word: ASCII letters and digits,
/// `_`, `.`, `+`, `-`, and every non-ASCII byte. Signs, dots and exponent
/// letters keep signed integers and floats in one token.
pub open spec fn is_word_byte(b: u8) -> bool {
    (97 <= b && b <= 122) || (65 <= b && b <= 90) || (48 <= b && b <= 57) || b == 95 || b == 46
        || b == 43 || b == 45 || b >= 128
}

fn ws_byte(b: u8) -> (r: bool)
    ensures
        r == is_ws(b),
{
    b == 32 || b == 9 || b == 13 || b == 10
}

fn word_byte(b: u8) -> (r: bool)
    ensures
        r == is_word_byte(b),
{
    (97 <= b && b <= 122) || (65 <= b && b <= 90) || (48 <= b && b <= 57) || b == 95 || b == 46
        || b == 43 || b == 45 || b >= 128
}

// ------------------------------------------------------------------
// Scanners: where each kind of token ends.
// ------------------------------------------------------------------

/// First newline at or after `i`, or the end of input.
pub open spec fn scan_to_eol(s: Seq<u8>, i: nat) -> nat
    decreases s.len() - i,
{
    if i >= s.len() {
        s.len()
    } else if s[i as int] == 10 {
        i
    } else {
        scan_to_eol(s, i + 1)
    }
}

pub proof fn lemma_scan_to_eol_bounds(s: Seq<u8>, i: nat)
    requires
        i <= s.len(),
    ensures
        i <= scan_to_eol(s, i) <= s.len(),
    decreases s.len() - i,
{
    if i < s.len() && s[i as int] != 10 {
        lemma_scan_to_eol_bounds(s, i + 1);
    }
}

/// Position just after the closing delimiter of a block comment whose
/// body starts at `i`, if it closes at all.
pub open spec fn scan_block_end(s: Seq<u8>, i: nat) -> Option<nat>
    decreases s.len() - i,
{
    if i + 2 > s.len() {
        None
    } else if s[i as int] == 42 && s[i as int + 1] == 47 {
        Some(i + 2)
    } else {
        scan_block_end(s, i + 1)
    }
}

pub proof fn lemma_scan_block_end_bounds(s: Seq<u8>, i: nat)
    ensures
        match scan_block_end(s, i) {
            Some(e) => i + 2 <= e <= s.len(),
            None => true,
        },
    decreases s.len() - i,
{
    if i + 2 <= s.len() && !(s[i as int] == 42 && s[i as int + 1] == 47) {
        lemma_scan_block_end_bounds(s, i + 1);
    }
}

/// Position just after the closing quote `q` of a literal whose body
/// starts at `i`; a backslash escapes the next byte.
pub open spec fn scan_quoted(s: Seq<u8>, i: nat, q: u8) -> Option<nat>
    decreases s.len() - i,
{
    if i >= s.len() {
        None
    } else if s[i as int] == 92 {
        if i + 2 <= s.len() {
            scan_quoted(s, i + 2, q)
        } else {
            None
        }
    } else if s[i as int] == q {
        Some(i + 1)
    } else {
        scan_quoted(s, i + 1, q)
    }
}

pub proof fn lemma_scan_quoted_bounds(s: Seq<u8>, i: nat, q: u8)
    ensures
        match scan_quoted(s, i, q) {
            Some(e) => i < e <= s.len(),
            None => true,
        },
    decreases s.len() - i,
{
    if i < s.len() {
        if s[i as int] == 92 {
            if i + 2 <= s.len() {
                lemma_scan_quoted_bounds(s, i + 2, q);
            }
        } else if s[i as int] != q {
            lemma_scan_quoted_bounds(s, i + 1, q);
        }
    }
}

/// End of the maximal word run starting at `i`.
pub open spec fn scan_word_end(s: Seq<u8>, i: nat) -> nat
    decreases s.len() - i,
{
    if i >= s.len() {
        i
    } else if is_word_byte(s[i as int]) {
        scan_word_end(s, i + 1)
    } else {
        i
    }
}

pub proof fn lemma_scan_word_end_bounds(s: Seq<u8>, i: nat)
    requires
        i <= s.len(),
    ensures
        i <= scan_word_end(s, i) <= s.len(),
    decreases s.len() - i,
{
    if i < s.len() && is_word_byte(s[i as int]) {
        lemma_scan_word_end_bounds(s, i + 1);
    }
}

/// A word run ends exactly where the word bytes stop.
pub proof fn lemma_scan_word_end_run(s: Seq<u8>, i: nat, e: nat)
    requires
        i <= e <= s.len(),
        forall|k: int| i <= k < e ==> is_word_byte(#[trigger] s[k]),
        e == s.len() || !is_word_byte(s[e as int]),
    ensures
        scan_word_end(s, i) == e,
    decreases e - i,
{
    if i < e {
        lemma_scan_word_end_run(s, i + 1, e);
    }
}

/// End of the whitespace run starting at `i`.
pub open spec fn skip_spaces(s: Seq<u8>, i: nat) -> nat
    decreases s.len() - i,
{
    if i >= s.len() {
        i
    } else if is_ws(s[i as int]) {
        skip_spaces(s, i + 1)
    } else {
        i
    }
}

pub proof fn lemma_skip_spaces_bounds(s: Seq<u8>, i: nat)
    requires
        i <= s.len(),
    ensures
        i <= skip_spaces(s, i) <= s.len(),
    decreases s.len() - i,
{
    if i < s.len() && is_ws(s[i as int]) {
        lemma_skip_spaces_bounds(s, i + 1);
    }
}

/// The identifier list of an extension block, read from just after its
/// opening parenthesis: whitespace-separated identifiers joined by commas,
/// closed by `)]`. Returns the identifiers and the position after `]`.
pub open spec fn scan_ext_idents(s: Seq<u8>, i: nat) -> Option<(Seq<Seq<u8>>, nat)>
    decreases s.len() - i,
    via scan_ext_idents_decreases
{
    if i > s.len() {
        None
    } else {
        let j = skip_spaces(s, i);
        if j >= s.len() {
            None
        } else if s[j as int] == 41 {
            if j + 2 <= s.len() && s[j as int + 1] == 93 {
                Some((Seq::empty(), j + 2))
            } else {
                None
            }
        } else if is_word_byte(s[j as int]) {
            let e = scan_word_end(s, j);
            let k = skip_spaces(s, e);
            if k >= s.len() {
                None
            } else if s[k as int] == 44 {
                match scan_ext_idents(s, k + 1) {
                    Some((rest, end)) => Some(
                        (seq![s.subrange(j as int, e as int)] + rest, end),
                    ),
                    None => None,
                }
            } else if s[k as int] == 41 {
                if k + 2 <= s.len() && s[k as int + 1] == 93 {
                    Some((seq![s.subrange(j as int, e as int)], k + 2))
                } else {
                    None
                }
            } else {
                None
            }
        } else {
            None
        }
    }
}

#[via_fn]
proof fn scan_ext_idents_decreases(s: Seq<u8>, i: nat) {
    if i <= s.len() {
        lemma_skip_spaces_bounds(s, i);
        let j = skip_spaces(s, i);
        if j < s.len() && s[j as int] != 41 && is_word_byte(s[j as int]) {
            lemma_scan_word_end_bounds(s, j);
            lemma_skip_spaces_bounds(s, scan_word_end(s, j));
        }
    }
}

pub proof fn lemma_scan_ext_idents_bounds(s: Seq<u8>, i: nat)
    requires
        i <= s.len(),
    ensures
        match scan_ext_idents(s, i) {
            Some((ids, e)) => i < e <= s.len(),
            None => true,
        },
    decreases s.len() - i,
{
    lemma_skip_spaces_bounds(s, i);
    let j = skip_spaces(s, i);
    if j < s.len() && s[j as int] != 41 && is_word_byte(s[j as int]) {
        lemma_scan_word_end_bounds(s, j);
        let e = scan_word_end(s, j);
        lemma_skip_spaces_bounds(s, e);
        let k = skip_spaces(s, e);
        if k < s.len() && s[k as int] == 44 {
            lemma_scan_ext_idents_bounds(s, k + 1);
        }
    }
}

// ------------------------------------------------------------------
// The lexer itself.
// ------------------------------------------------------------------

/// True when the ten bytes at `i` read `#![enable(`.
pub open spec fn ext_opener_at(s: Seq<u8>, i: nat) -> bool {
    &&& i + 10 <= s.len()
    &&& s[i as int] == 35
    &&& s[i as int + 1] == 33
    &&& s[i as int + 2] == 91
    &&& s[i as int + 3] == 101
    &&& s[i as int + 4] == 110
    &&& s[i as int + 5] == 97
    &&& s[i as int + 6] == 98
    &&& s[i as int + 7] == 108
    &&& s[i as int + 8] == 101
    &&& s[i as int + 9] == 40
}

/// The text of the line comment starting at `i`, up to the line end, with
/// a trailing carriage return trimmed.
pub open spec fn line_comment_text(s: Seq<u8>, i: nat) -> Seq<u8> {
    let e = scan_to_eol(s, i);
    if e > i && s[e as int - 1] == 13 {
        s.subrange(i as int, e as int - 1)
    } else {
        s.subrange(i as int, e as int)
    }
}

/// The token stream of `s[i..]`. `at_start` records whether nothing but
/// whitespace has come before on the current line; a comment first on its
/// line is standalone, any other comment trails what precedes it.
pub open spec fn lex_from(s: Seq<u8>, i: nat, at_start: bool) -> Result<Seq<TokenV>, ParseError>
    decreases s.len() - i,
    via lex_from_decreases
{
    if i >= s.len() {
        Ok(Seq::empty())
    } else {
        let b = s[i as int];
        if b == 10 {
            lex_from(s, i + 1, true)
        } else if b == 32 || b == 9 || b == 13 {
            lex_from(s, i + 1, at_start)
        } else if b == 47 {
            if i + 2 <= s.len() && s[i as int + 1] == 47 {
                let e = scan_to_eol(s, i);
                lex_cons(
                    TokenV::Comment { text: line_comment_text(s, i), standalone: at_start },
                    lex_from(s, e, false),
                )
            } else if i + 2 <= s.len() && s[i as int + 1] == 42 {
                match scan_block_end(s, i + 2) {
                    Some(e) => lex_cons(
                        TokenV::Comment {
                            text: s.subrange(i as int, e as int),
                            standalone: at_start,
                        },
                        lex_from(s, e, false),
                    ),
                    None => Err(ParseError::UnterminatedComment { pos: i as usize }),
                }
            } else {
                Err(ParseError::UnexpectedByte { pos: i as usize })
            }
        } else if b == 35 {
            if ext_opener_at(s, i) {
                match scan_ext_idents(s, i + 10) {
                    Some((ids, e)) => lex_cons(TokenV::Ext(ids), lex_from(s, e, false)),
                    None => Err(ParseError::MalformedExtension { pos: i as usize }),
                }
            } else {
                Err(ParseError::MalformedExtension { pos: i as usize })
            }
        } else if b == 34 || b == 39 {
            match scan_quoted(s, i + 1, b) {
                Some(e) => lex_cons(
                    TokenV::Quoted(s.subrange(i as int, e as int)),
                    lex_from(s, e, false),
                ),
                None => Err(ParseError::UnterminatedLiteral { pos: i as usize }),
            }
        } else if is_word_byte(b) {
            let e = scan_word_end(s, i);
            lex_cons(TokenV::Word(s.subrange(i as int, e as int)), lex_from(s, e, false))
        } else if b == 91 {
            lex_cons(TokenV::LBrack, lex_from(s, i + 1, false))
        } else if b == 93 {
            lex_cons(TokenV::RBrack, lex_from(s, i + 1, false))
        } else if b == 123 {
            lex_cons(TokenV::LBrace, lex_from(s, i + 1, false))
        } else if b == 125 {
            lex_cons(TokenV::RBrace, lex_from(s, i + 1, false))
        } else if b == 40 {
            lex_cons(TokenV::LParen, lex_from(s, i + 1, false))
        } else if b == 41 {
            lex_cons(TokenV::RParen, lex_from(s, i + 1, false))
        } else if b == 44 {
            lex_cons(TokenV::Comma, lex_from(s, i + 1, false))
        } else if b == 58 {
            lex_cons(TokenV::Colon, lex_from(s, i + 1, false))
        } else {
            Err(ParseError::UnexpectedByte { pos: i as usize })
        }
    }
}

pub open spec fn lex_cons(t: TokenV, rest: Result<Seq<TokenV>, ParseError>) -> Result<
    Seq<TokenV>,
    ParseError,
> {
    match rest {
        Ok(ts) => Ok(seq![t] + ts),
        Err(e) => Err(e),
    }
}

#[via_fn]
proof fn lex_from_decreases(s: Seq<u8>, i: nat, at_start: bool) {
    if i < s.len() {
        let b = s[i as int];
        if b != 10 {
            lemma_scan_to_eol_bounds(s, i + 1);
            assert(scan_to_eol(s, i) == scan_to_eol(s, i + 1));
            assert(scan_to_eol(s, i) > i);
        }
        if b == 47 && i + 2 <= s.len() && s[i as int + 1] == 42 {
            lemma_scan_block_end_bounds(s, i + 2);
        }
        if b == 35 && ext_opener_at(s, i) {
            lemma_scan_ext_idents_bounds(s, i + 10);
        }
        if b == 34 || b == 39 {
            lemma_scan_quoted_bounds(s, i + 1, b);
        }
        if is_word_byte(b) {
            lemma_scan_word_end_bounds(s, i + 1);
            assert(scan_word_end(s, i) == scan_word_end(s, i + 1));
            assert(scan_word_end(s, i) > i);
        }
    }
}

/// The token stream of a whole input.
pub open spec fn lex_spec(s: Seq<u8>) -> Result<Seq<TokenV>, ParseError> {
    lex_from(s, 0, true)
}

// ------------------------------------------------------------------
// Executable scanners.
// ------------------------------------------------------------------

/// Copies `s[a..b]` into a fresh vector.
fn copy_range(s: &Vec<u8>, a: usize, b: usize) -> (r: Vec<u8>)
    requires
        a <= b <= s@.len(),
    ensures
        r@ == s@.subrange(a as int, b as int),
{
    let mut r: Vec<u8> = Vec::new();
    let mut k: usize = a;
    while k < b
        invariant
            a <= k <= b <= s@.len(),
            r@ == s@.subrange(a as int, k as int),
        decreases b - k,
    {
        r.push(s[k]);
        assert(s@.subrange(a as int, k + 1) =~= s@.subrange(a as int, k as int).push(
            s@[k as int],
        ));
        k = k + 1;
    }
    r
}

fn exec_scan_to_eol(s: &Vec<u8>, i: usize) -> (r: usize)
    requires
        i <= s@.len(),
    ensures
        r == scan_to_eol(s@, i as nat),
        i <= r <= s@.len(),
    decreases s@.len() - i,
{
    proof {
        lemma_scan_to_eol_bounds(s@, i as nat);
    }
    if i < s.len() {
        if s[i] == 10 {
            i
        } else {
            exec_scan_to_eol(s, i + 1)
        }
    } else {
        i
    }
}

fn exec_scan_block_end(s: &Vec<u8>, i: usize) -> (r: Option<usize>)
    requires
        i <= s@.len(),
    ensures
        match r {
            Some(e) => scan_block_end(s@, i as nat) == Some(e as nat) && i + 2 <= e <= s@.len(),
            None => scan_block_end(s@, i as nat) is None,
        },
    decreases s@.len() - i,
{
    proof {
        lemma_scan_block_end_bounds(s@, i as nat);
    }
    if s.len() < 2 || i > s.len() - 2 {
        None
    } else if s[i] == 42 && s[i + 1] == 47 {
        Some(i + 2)
    } else {
        exec_scan_block_end(s, i + 1)
    }
}

fn exec_scan_quoted(s: &Vec<u8>, i: usize, q: u8) -> (r: Option<usize>)
    requires
        i <= s@.len(),
    ensures
        match r {
            Some(e) => scan_quoted(s@, i as nat, q) == Some(e as nat) && i < e <= s@.len(),
            None => scan_quoted(s@, i as nat, q) is None,
        },
    decreases s@.len() - i,
{
    proof {
        lemma_scan_quoted_bounds(s@, i as nat, q);
    }
    if i >= s.len() {
        None
    } else if s[i] == 92 {
        if s.len() >= 2 && i <= s.len() - 2 {
            exec_scan_quoted(s, i + 2, q)
        } else {
            None
        }
    } else if s[i] == q {
        Some(i + 1)
    } else {
        exec_scan_quoted(s, i + 1, q)
    }
}

fn exec_scan_word_end(s: &Vec<u8>, i: usize) -> (r: usize)
    requires
        i <= s@.len(),
    ensures
        r == scan_word_end(s@, i as nat),
        i <= r <= s@.len(),
    decreases s@.len() - i,
{
    proof {
        lemma_scan_word_end_bounds(s@, i as nat);
    }
    if i < s.len() && word_byte(s[i]) {
        exec_scan_word_end(s, i + 1)
    } else {
        i
    }
}

fn exec_skip_spaces(s: &Vec<u8>, i: usize) -> (r: usize)
    requires
        i <= s@.len(),
    ensures
        r == skip_spaces(s@, i as nat),
        i <= r <= s@.len(),
    decreases s@.len() - i,
{
    proof {
        lemma_skip_spaces_bounds(s@, i as nat);
    }
    if i < s.len() && ws_byte(s[i]) {
        exec_skip_spaces(s, i + 1)
    } else {
        i
    }
}

fn exec_scan_ext_idents(s: &Vec<u8>, i: usize) -> (r: Option<(Vec<Vec<u8>>, usize)>)
    requires
        i <= s@.len(),
    ensures
        match r {
            Some((ids, e)) => scan_ext_idents(s@, i as nat) == Some(
                (crate::ast::texts_view(ids@), e as nat),
            ) && i < e <= s@.len(),
            None => scan_ext_idents(s@, i as nat) is None,
        },
    decreases s@.len() - i,
{
    proof {
        lemma_scan_ext_idents_bounds(s@, i as nat);
    }
    let j = exec_skip_spaces(s, i);
    if j >= s.len() {
        None
    } else if s[j] == 41 {
        if s.len() >= 2 && j <= s.len() - 2 && s[j + 1] == 93 {
            let ids: Vec<Vec<u8>> = Vec::new();
            assert(crate::ast::texts_view(ids@) =~= Seq::<Seq<u8>>::empty());
            Some((ids, j + 2))
        } else {
            None
        }
    } else if word_byte(s[j]) {
        proof {
            lemma_scan_word_end_bounds(s@, j as nat + 1);
        }
        let e = exec_scan_word_end(s, j);
        assert(e > j);
        let k = exec_skip_spaces(s, e);
        if k >= s.len() {
            None
        } else if s[k] == 44 {
            match exec_scan_ext_idents(s, k + 1) {
                Some((rest, end)) => {
                    let ident = copy_range(s, j, e);
                    let mut ids: Vec<Vec<u8>> = Vec::new();
                    ids.push(ident);
                    let ghost first = ids@;
                    let mut rest = rest;
                    let ghost tail = rest@;
                    ids.append(&mut rest);
                    proof {
                        assert(ids@ == first + tail);
                        lemma_texts_view_concat(first, tail);
                        assert(first.len() == 1);
                        assert(first[0] == ident);
                        assert(first.drop_first() =~= Seq::<Vec<u8>>::empty());
                        assert(crate::ast::texts_view(first) == seq![first[0]@]
                            + crate::ast::texts_view(Seq::<Vec<u8>>::empty()));
                        assert(crate::ast::texts_view(first) =~= seq![
                            s@.subrange(j as int, e as int),
                        ]);
                    }
                    Some((ids, end))
                },
                None => None,
            }
        } else if s[k] == 41 {
            if s.len() >= 2 && k <= s.len() - 2 && s[k + 1] == 93 {
                let ident = copy_range(s, j, e);
                let mut ids: Vec<Vec<u8>> = Vec::new();
                ids.push(ident);
                proof {
                    assert(ids@.len() == 1);
                    assert(ids@[0]@ == s@.subrange(j as int, e as int));
                    assert(ids@.drop_first() =~= Seq::<Vec<u8>>::empty());
                    assert(crate::ast::texts_view(ids@) == seq![ids@[0]@]
                        + crate::ast::texts_view(Seq::<Vec<u8>>::empty()));
                    assert(crate::ast::texts_view(ids@) =~= seq![s@.subrange(j as int, e as int)]);
                }
                Some((ids, k + 2))
            } else {
                None
            }
        } else {
            None
        }
    } else {
        None
    }
}

pub proof fn lemma_texts_view_concat(a: Seq<Vec<u8>>, b: Seq<Vec<u8>>)
    ensures
        crate::ast::texts_view(a + b) == crate::ast::texts_view(a) + crate::ast::texts_view(b),
    decreases a,
{
    if a.len() == 0 {
        assert(a + b =~= b);
        assert(crate::ast::texts_view(a + b) =~= crate::ast::texts_view(a) + crate::ast::texts_view(
            b,
        ));
    } else {
        assert((a + b)[0] == a[0]);
        assert((a + b).drop_first() =~= a.drop_first() + b);
        lemma_texts_view_concat(a.drop_first(), b);
        assert(crate::ast::texts_view(a + b) =~= crate::ast::texts_view(a) + crate::ast::texts_view(
            b,
        ));
    }
}

// ------------------------------------------------------------------
// The executable lexer.
// ------------------------------------------------------------------

/// The continuation of the whole lex from position `i` onward: what
/// `lex_spec` yields once the tokens before `i` are fixed.
pub open spec fn lex_tail_matches(
    s: Seq<u8>,
    tokens: Seq<Token>,
    i: nat,
    at_start: bool,
) -> bool {
    lex_spec(s) == (match lex_from(s, i, at_start) {
        Ok(rest) => Ok(tokens_view(tokens) + rest),
        Err(e) => Err::<Seq<TokenV>, ParseError>(e),
    })
}

/// Splits the input into tokens, exactly as `lex_spec` describes: the
/// result is `Ok` on precisely the inputs the token grammar accepts, and
/// each failure carries the error `lex_spec` assigns it.
pub fn tokenize(input: &Vec<u8>) -> (r: Result<Vec<Token>, ParseError>)
    ensures
        match r {
            Ok(tokens) => lex_spec(input@) == Ok::<Seq<TokenV>, ParseError>(
                tokens_view(tokens@),
            ),
            Err(e) => lex_spec(input@) == Err::<Seq<TokenV>, ParseError>(e),
        },
{
    let mut tokens: Vec<Token> = Vec::new();
    let mut i: usize = 0;
    let mut at_start: bool = true;
    assert(tokens_view(tokens@) =~= Seq::<TokenV>::empty());
    while i < input.len()
        invariant
            i <= input@.len(),
            lex_tail_matches(input@, tokens@, i as nat, at_start),
        decreases input@.len() - i,
    {
        let ghost toks0 = tokens@;
        let ghost i0 = i as nat;
        let ghost start0 = at_start;
        let b = input[i];
        if b == 10 {
            i = i + 1;
            at_start = true;
        } else if b == 32 || b == 9 || b == 13 {
            i = i + 1;
        } else if b == 47 {
            if input.len() >= 2 && i <= input.len() - 2 && input[i + 1] == 47 {
                proof {
                    lemma_scan_to_eol_bounds(input@, i as nat + 1);
                }
                let e = exec_scan_to_eol(input, i);
                assert(e > i);
                let text = if e > i && input[e - 1] == 13 {
                    copy_range(input, i, e - 1)
                } else {
                    copy_range(input, i, e)
                };
                let tok = Token::Comment { text, standalone: at_start };
                proof {
                    lemma_tokens_view_push(toks0, tok);
                    assert(token_view(tok) == TokenV::Comment {
                        text: line_comment_text(input@, i0),
                        standalone: start0,
                    });
                }
                tokens.push(tok);
                i = e;
                at_start = false;
                proof {
                    lex_step(input@, toks0, tokens@, i0, start0, i as nat, at_start);
                }
            } else if input.len() >= 2 && i <= input.len() - 2 && input[i + 1] == 42 {
                match exec_scan_block_end(input, i + 2) {
                    Some(e) => {
                        let text = copy_range(input, i, e);
                        let tok = Token::Comment { text, standalone: at_start };
                        proof {
                            lemma_tokens_view_push(toks0, tok);
                        }
                        tokens.push(tok);
                        i = e;
                        at_start = false;
                        proof {
                            lex_step(input@, toks0, tokens@, i0, start0, i as nat, at_start);
                        }
                    },
                    None => {
                        return Err(ParseError::UnterminatedComment { pos: i });
                    },
                }
            } else {
                return Err(ParseError::UnexpectedByte { pos: i });
            }
        } else if b == 35 {
            let opener = input.len() >= 10 && i <= input.len() - 10 && input[i + 1] == 33 && input[i + 2] == 91
                && input[i + 3] == 101 && input[i + 4] == 110 && input[i + 5] == 97 && input[i
                + 6] == 98 && input[i + 7] == 108 && input[i + 8] == 101 && input[i + 9] == 40;
            assert(opener == ext_opener_at(input@, i0));
            if opener {
                match exec_scan_ext_idents(input, i + 10) {
                    Some((ids, e)) => {
                        let tok = Token::Ext(ids);
                        proof {
                            lemma_tokens_view_push(toks0, tok);
                        }
                        tokens.push(tok);
                        i = e;
                        at_start = false;
                        proof {
                            lex_step(input@, toks0, tokens@, i0, start0, i as nat, at_start);
                        }
                    },
                    None => {
                        return Err(ParseError::MalformedExtension { pos: i });
                    },
                }
            } else {
                return Err(ParseError::MalformedExtension { pos: i });
            }
        } else if b == 34 || b == 39 {
            match exec_scan_quoted(input, i + 1, b) {
                Some(e) => {
                    let text = copy_range(input, i, e);
                    let tok = Token::Quoted(text);
                    proof {
                        lemma_tokens_view_push(toks0, tok);
                    }
                    tokens.push(tok);
                    i = e;
                    at_start = false;
                    proof {
                        lex_step(input@, toks0, tokens@, i0, start0, i as nat, at_start);
                    }
                },
                None => {
                    return Err(ParseError::UnterminatedLiteral { pos: i });
                },
            }
        } else if word_byte(b) {
            proof {
                lemma_scan_word_end_bounds(input@, i as nat + 1);
            }
            let e = exec_scan_word_end(input, i);
            assert(e > i);
            let text = copy_range(input, i, e);
            let tok = Token::Word(text);
            proof {
                lemma_tokens_view_push(toks0, tok);
            }
            tokens.push(tok);
            i = e;
            at_start = false;
            proof {
                lex_step(input@, toks0, tokens@, i0, start0, i as nat, at_start);
            }
        } else if b == 91 || b == 93 || b == 123 || b == 125 || b == 40 || b == 41 || b == 44
            || b == 58 {
            let tok = if b == 91 {
                Token::LBrack
            } else if b == 93 {
                Token::RBrack
            } else if b == 123 {
                Token::LBrace
            } else if b == 125 {
                Token::RBrace
            } else if b == 40 {
                Token::LParen
            } else if b == 41 {
                Token::RParen
            } else if b == 44 {
                Token::Comma
            } else {
                Token::Colon
            };
            proof {
                lemma_tokens_view_push(toks0, tok);
            }
            tokens.push(tok);
            i = i + 1;
            at_start = false;
            proof {
                lex_step(input@, toks0, tokens@, i0, start0, i as nat, at_start);
            }
        } else {
            return Err(ParseError::UnexpectedByte { pos: i });
        }
    }
    assert(lex_from(input@, i as nat, at_start) == Ok::<Seq<TokenV>, ParseError>(Seq::empty()));
    assert(tokens_view(tokens@) + Seq::<TokenV>::empty() =~= tokens_view(tokens@));
    Ok(tokens)
}

/// One unfolding of `lex_from` at a token boundary: appending the token
/// the spec takes at `i0` keeps the tail invariant.
proof fn lex_step(
    s: Seq<u8>,
    toks0: Seq<Token>,
    toks1: Seq<Token>,
    i0: nat,
    start0: bool,
    i1: nat,
    start1: bool,
)
    requires
        lex_tail_matches(s, toks0, i0, start0),
        toks1.len() == toks0.len() + 1,
        tokens_view(toks1) == tokens_view(toks0) + seq![token_view(toks1.last())],
        lex_from(s, i0, start0) == lex_cons(token_view(toks1.last()), lex_from(s, i1, start1)),
    ensures
        lex_tail_matches(s, toks1, i1, start1),
{
    match lex_from(s, i1, start1) {
        Ok(rest) => {
            assert(tokens_view(toks0) + (seq![token_view(toks1.last())] + rest) =~= tokens_view(
                toks1,
            ) + rest);
        },
        Err(e) => {},
    }
}

} // verus!

use vstd::prelude::*;
use crate::ast::{
    FileText, FileTextV, Item, ItemV, ParseError, RonValue, RonValueV, TextFragment, TextFragmentV,
    entries_width, entries_view, extensions_wf, fields_width, fields_view, file_view, file_wf,
    frag_view, frag_wf, ident_len, item_view, items_view, items_width, lemma_entries_view,
    lemma_fields_view, lemma_items_view, lemma_texts_view, lex_lt, opt_text_view, texts_view,
};
use crate::ast::value_has_trivia;
use crate::config::Config;
use crate::display::{render_doc, value_trivia};
use crate::lexer::{Token, TokenV, lemma_tokens_view, lex_spec, tokenize, tokens_view};

verus! {

// ------------------------------------------------------------------
// The token grammar, as one spec-level recursive descent. The
// executable parser below returns exactly what these functions
// describe, so its contract says precisely which token streams are
// accepted and what tree each one builds.
// ------------------------------------------------------------------

/// First index at or after `i` that does not hold a comment token.
pub open spec fn sp_skip_comments(t: Seq<TokenV>, i: nat) -> nat
    decreases t.len() - i,
{
    if i >= t.len() {
        i
    } else if t[i as int] is Comment {
        sp_skip_comments(t, i + 1)
    } else {
        i
    }
}

pub proof fn lemma_sp_skip_comments_bounds(t: Seq<TokenV>, i: nat)
    requires
        i <= t.len(),
    ensures
        i <= sp_skip_comments(t, i) <= t.len(),
    decreases t.len() - i,
{
    if i < t.len() && t[i as int] is Comment {
        lemma_sp_skip_comments_bounds(t, i + 1);
    }
}

/// The texts of the comment run starting at `i`.
pub open spec fn sp_comments(t: Seq<TokenV>, i: nat) -> Seq<Seq<u8>>
    decreases t.len() - i,
{
    if i >= t.len() {
        Seq::empty()
    } else {
        match t[i as int] {
            TokenV::Comment { text, standalone } => seq![text] + sp_comments(t, i + 1),
            _ => Seq::empty(),
        }
    }
}

/// A trailing comment at `i` becomes the `eol` of the value just parsed;
/// yields the comment text and the next position.
pub open spec fn sp_eol(t: Seq<TokenV>, i: nat) -> (Option<Seq<u8>>, nat) {
    if i < t.len() {
        match t[i as int] {
            TokenV::Comment { text, standalone } => if !standalone {
                (Some(text), i + 1)
            } else {
                (None, i)
            },
            _ => (None, i),
        }
    } else {
        (None, i)
    }
}

/// Largest width a fragment can store.
pub open spec fn width_cap() -> nat {
    usize::MAX as nat
}

/// One value starting at token `i`: an atom, a quoted literal, a
/// collection, or a name followed by a parenthesized body.
pub open spec fn sp_value(t: Seq<TokenV>, i: nat) -> Result<(TextFragmentV, nat), ParseError>
    decreases t.len() - i, 0nat,
{
    if i >= t.len() {
        Err(ParseError::UnexpectedEnd)
    } else {
        match t[i as int] {
            TokenV::Word(w) => if i + 1 < t.len() && t[i as int + 1] is LParen {
                sp_paren(t, i + 2, Some(w))
            } else {
                Ok((TextFragmentV { minimum_length: w.len(), ron_value: RonValueV::Atom(w) }, i + 1))
            },
            TokenV::Quoted(q) => Ok(
                (TextFragmentV { minimum_length: q.len(), ron_value: RonValueV::Atom(q) }, i + 1),
            ),
            TokenV::LBrack => match sp_elements(t, i + 1, TokenV::RBrack) {
                Ok((elems, dangling, e)) => {
                    let w = items_width(elems);
                    if w > width_cap() {
                        Err(ParseError::WidthOverflow)
                    } else {
                        Ok(
                            (
                                TextFragmentV {
                                    minimum_length: w,
                                    ron_value: RonValueV::List(elems),
                                },
                                e,
                            ),
                        )
                    }
                },
                Err(e) => Err(e),
            },
            TokenV::LBrace => match sp_map_entries(t, i + 1) {
                Ok((entries, dangling, e)) => {
                    let w = entries_width(entries);
                    if w > width_cap() {
                        Err(ParseError::WidthOverflow)
                    } else {
                        Ok(
                            (
                                TextFragmentV {
                                    minimum_length: w,
                                    ron_value: RonValueV::MapType(entries),
                                },
                                e,
                            ),
                        )
                    }
                },
                Err(e) => Err(e),
            },
            TokenV::LParen => sp_paren(t, i + 1, None),
            _ => Err(ParseError::UnexpectedToken { index: i as usize }),
        }
    }
}

/// A parenthesized body starting at `i` (just after `(`), with an
/// optional name before the parenthesis. An empty anonymous body is the
/// unit atom `()`; a first entry of the shape `ident:` makes it a record;
/// anything else makes it a tuple.
pub open spec fn sp_paren(t: Seq<TokenV>, i: nat, name: Option<Seq<u8>>) -> Result<
    (TextFragmentV, nat),
    ParseError,
>
    decreases t.len() - i, 2nat,
    via sp_paren_decreases
{
    if i > t.len() {
        Err(ParseError::UnexpectedEnd)
    } else {
        let j = sp_skip_comments(t, i);
        if j >= t.len() {
            Err(ParseError::UnexpectedEnd)
        } else if t[j as int] is RParen && name is None && j == i {
            Ok(
                (
                    TextFragmentV {
                        minimum_length: 2,
                        ron_value: RonValueV::Atom(seq![40u8, 41u8]),
                    },
                    j + 1,
                ),
            )
        } else if t[j as int] is Word && j + 1 < t.len() && t[j as int + 1] is Colon {
            match sp_fields(t, i) {
                Ok((fields, dangling, e)) => {
                    let w = ident_len(name) + fields_width(fields);
                    if w > width_cap() {
                        Err(ParseError::WidthOverflow)
                    } else {
                        Ok(
                            (
                                TextFragmentV {
                                    minimum_length: w,
                                    ron_value: RonValueV::FieldsType { maybe_ident: name, fields },
                                },
                                e,
                            ),
                        )
                    }
                },
                Err(e) => Err(e),
            }
        } else {
            match sp_elements(t, i, TokenV::RParen) {
                Ok((elems, dangling, e)) => {
                    let w = ident_len(name) + items_width(elems);
                    if w > width_cap() {
                        Err(ParseError::WidthOverflow)
                    } else {
                        Ok(
                            (
                                TextFragmentV {
                                    minimum_length: w,
                                    ron_value: RonValueV::TupleType { maybe_ident: name, elements: elems },
                                },
                                e,
                            ),
                        )
                    }
                },
                Err(e) => Err(e),
            }
        }
    }
}

#[via_fn]
proof fn sp_paren_decreases(t: Seq<TokenV>, i: nat, name: Option<Seq<u8>>) {
    if i <= t.len() {
        lemma_sp_skip_comments_bounds(t, i);
    }
}

/// The elements of a list or tuple from `i` to the closing token: a run
/// of comments becomes the next element's `pre`; a run with no element
/// after it is handed back to the caller (the previous element's `post`,
/// or lost when the collection is empty). A comma follows every element
/// except possibly the last; a non-standalone comment right after the
/// comma (or after the last element) becomes that element's `eol`.
pub open spec fn sp_elements(t: Seq<TokenV>, i: nat, closer: TokenV) -> Result<
    (Seq<ItemV>, Seq<Seq<u8>>, nat),
    ParseError,
>
    decreases t.len() - i, 1nat,
    via sp_elements_decreases
{
    if i > t.len() {
        Err(ParseError::UnexpectedEnd)
    } else {
        let c = sp_comments(t, i);
        let j = sp_skip_comments(t, i);
        if j >= t.len() {
            Err(ParseError::UnexpectedEnd)
        } else if t[j as int] == closer {
            Ok((Seq::empty(), c, j + 1))
        } else {
            match sp_value(t, j) {
                // a value never ends where it starts; the guard only keeps
                // the recursion visibly well-founded
                Ok((frag, k)) => if k <= j {
                    Err(ParseError::UnexpectedToken { index: j as usize })
                } else if k < t.len() && t[k as int] is Comma {
                    let (eol, k2) = sp_eol(t, k + 1);
                    match sp_elements(t, k2, closer) {
                        Ok((rest, dangling, e)) => {
                            let item = ItemV {
                                pre: c,
                                fragment: frag,
                                eol,
                                post: if rest.len() == 0 {
                                    dangling
                                } else {
                                    Seq::empty()
                                },
                            };
                            Ok((seq![item] + rest, Seq::empty(), e))
                        },
                        Err(e) => Err(e),
                    }
                } else {
                    // no comma: this is the final element
                    let (eol, k2) = sp_eol(t, k);
                    let c2 = sp_comments(t, k2);
                    let j2 = sp_skip_comments(t, k2);
                    if j2 >= t.len() {
                        Err(ParseError::UnexpectedEnd)
                    } else if t[j2 as int] == closer {
                        let item = ItemV { pre: c, fragment: frag, eol, post: c2 };
                        Ok((seq![item], Seq::empty(), j2 + 1))
                    } else {
                        Err(ParseError::UnexpectedToken { index: j2 as usize })
                    }
                },
                Err(e) => Err(e),
            }
        }
    }
}

#[via_fn]
proof fn sp_elements_decreases(t: Seq<TokenV>, i: nat, closer: TokenV) {
    if i <= t.len() {
        lemma_sp_skip_comments_bounds(t, i);
    }
}

/// Map entries from `i` (just after `{`) to the closing brace: each is a
/// key value, a colon, and a value; trivia attaches to the entry's value.
pub open spec fn sp_map_entries(t: Seq<TokenV>, i: nat) -> Result<
    (Seq<(TextFragmentV, ItemV)>, Seq<Seq<u8>>, nat),
    ParseError,
>
    decreases t.len() - i, 1nat,
    via sp_map_entries_decreases
{
    if i > t.len() {
        Err(ParseError::UnexpectedEnd)
    } else {
        let c = sp_comments(t, i);
        let j = sp_skip_comments(t, i);
        if j >= t.len() {
            Err(ParseError::UnexpectedEnd)
        } else if t[j as int] is RBrace {
            Ok((Seq::empty(), c, j + 1))
        } else {
            match sp_value(t, j) {
                Ok((key, k)) => if k <= j {
                    Err(ParseError::UnexpectedToken { index: j as usize })
                } else if value_has_trivia(key.ron_value) {
                    // keys never carry trivia; a comment inside one has no
                    // place in the model and is refused outright
                    Err(ParseError::CommentInMapKey { index: j as usize })
                } else if k < t.len() && t[k as int] is Colon {
                    match sp_value(t, k + 1) {
                        Ok((vf, m)) => if m <= k + 1 {
                            Err(ParseError::UnexpectedToken { index: k as usize })
                        } else if m < t.len() && t[m as int] is Comma {
                            let (eol, m2) = sp_eol(t, m + 1);
                            match sp_map_entries(t, m2) {
                                Ok((rest, dangling, e)) => {
                                    let item = ItemV {
                                        pre: c,
                                        fragment: vf,
                                        eol,
                                        post: if rest.len() == 0 {
                                            dangling
                                        } else {
                                            Seq::empty()
                                        },
                                    };
                                    Ok((seq![(key, item)] + rest, Seq::empty(), e))
                                },
                                Err(e) => Err(e),
                            }
                        } else {
                            let (eol, m2) = sp_eol(t, m);
                            let c2 = sp_comments(t, m2);
                            let j2 = sp_skip_comments(t, m2);
                            if j2 >= t.len() {
                                Err(ParseError::UnexpectedEnd)
                            } else if t[j2 as int] is RBrace {
                                let item = ItemV { pre: c, fragment: vf, eol, post: c2 };
                                Ok((seq![(key, item)], Seq::empty(), j2 + 1))
                            } else {
                                Err(ParseError::UnexpectedToken { index: j2 as usize })
                            }
                        },
                        Err(e) => Err(e),
                    }
                } else if k >= t.len() {
                    Err(ParseError::UnexpectedEnd)
                } else {
                    Err(ParseError::UnexpectedToken { index: k as usize })
                },
                Err(e) => Err(e),
            }
        }
    }
}

#[via_fn]
proof fn sp_map_entries_decreases(t: Seq<TokenV>, i: nat) {
    if i <= t.len() {
        lemma_sp_skip_comments_bounds(t, i);
    }
}

/// Record fields from `i` (just after the opening parenthesis): each is
/// an identifier key, a colon, and a value.
pub open spec fn sp_fields(t: Seq<TokenV>, i: nat) -> Result<
    (Seq<(Seq<u8>, ItemV)>, Seq<Seq<u8>>, nat),
    ParseError,
>
    decreases t.len() - i, 1nat,
    via sp_fields_decreases
{
    if i > t.len() {
        Err(ParseError::UnexpectedEnd)
    } else {
        let c = sp_comments(t, i);
        let j = sp_skip_comments(t, i);
        if j >= t.len() {
            Err(ParseError::UnexpectedEnd)
        } else if t[j as int] is RParen {
            Ok((Seq::empty(), c, j + 1))
        } else {
            match t[j as int] {
                TokenV::Word(key) => if j + 1 < t.len() && t[j as int + 1] is Colon {
                    match sp_value(t, j + 2) {
                        Ok((vf, m)) => if m <= j + 2 {
                            Err(ParseError::UnexpectedToken { index: j as usize })
                        } else if m < t.len() && t[m as int] is Comma {
                            let (eol, m2) = sp_eol(t, m + 1);
                            match sp_fields(t, m2) {
                                Ok((rest, dangling, e)) => {
                                    let item = ItemV {
                                        pre: c,
                                        fragment: vf,
                                        eol,
                                        post: if rest.len() == 0 {
                                            dangling
                                        } else {
                                            Seq::empty()
                                        },
                                    };
                                    Ok((seq![(key, item)] + rest, Seq::empty(), e))
                                },
                                Err(e) => Err(e),
                            }
                        } else {
                            let (eol, m2) = sp_eol(t, m);
                            let c2 = sp_comments(t, m2);
                            let j2 = sp_skip_comments(t, m2);
                            if j2 >= t.len() {
                                Err(ParseError::UnexpectedEnd)
                            } else if t[j2 as int] is RParen {
                                let item = ItemV { pre: c, fragment: vf, eol, post: c2 };
                                Ok((seq![(key, item)], Seq::empty(), j2 + 1))
                            } else {
                                Err(ParseError::UnexpectedToken { index: j2 as usize })
                            }
                        },
                        Err(e) => Err(e),
                    }
                } else {
                    Err(ParseError::UnexpectedToken { index: j as usize })
                },
                _ => Err(ParseError::UnexpectedToken { index: j as usize }),
            }
        }
    }
}

#[via_fn]
proof fn sp_fields_decreases(t: Seq<TokenV>, i: nat) {
    if i <= t.len() {
        lemma_sp_skip_comments_bounds(t, i);
    }
}

/// Document scope from `i` to the end of the tokens: extension blocks
/// are collected in order, a comment run attaches to the value after it
/// (or is handed back when no value follows), a non-standalone comment
/// right after a value becomes its `eol`.
pub open spec fn sp_top(t: Seq<TokenV>, i: nat) -> Result<
    (Seq<Seq<u8>>, Seq<ItemV>, Seq<Seq<u8>>),
    ParseError,
>
    decreases t.len() - i, 4nat,
    via sp_top_decreases
{
    if i >= t.len() {
        Ok((Seq::empty(), Seq::empty(), Seq::empty()))
    } else {
        match t[i as int] {
            TokenV::Ext(ids) => match sp_top(t, i + 1) {
                Ok((exts, items, dangling)) => Ok((ids + exts, items, dangling)),
                Err(e) => Err(e),
            },
            TokenV::Comment { text, standalone } => match sp_top(t, i + 1) {
                Ok((exts, items, dangling)) => if items.len() == 0 {
                    Ok((exts, items, seq![text] + dangling))
                } else {
                    let first = items[0];
                    let first2 = ItemV {
                        pre: seq![text] + first.pre,
                        fragment: first.fragment,
                        eol: first.eol,
                        post: first.post,
                    };
                    Ok((exts, seq![first2] + items.drop_first(), dangling))
                },
                Err(e) => Err(e),
            },
            _ => match sp_value(t, i) {
                // as in `sp_elements`, the bounds guard cannot fire; it
                // keeps the recursion visibly well-founded
                Ok((frag, k)) => if k <= i || k > t.len() {
                    Err(ParseError::UnexpectedToken { index: i as usize })
                } else {
                    let (eol, k2) = sp_eol(t, k);
                    match sp_top(t, k2) {
                        Ok((exts, items, dangling)) => {
                            let item = ItemV {
                                pre: Seq::empty(),
                                fragment: frag,
                                eol,
                                post: if items.len() == 0 {
                                    dangling
                                } else {
                                    Seq::empty()
                                },
                            };
                            Ok(
                                (
                                    exts,
                                    seq![item] + items,
                                    if items.len() == 0 {
                                        Seq::empty()
                                    } else {
                                        dangling
                                    },
                                ),
                            )
                        },
                        Err(e) => Err(e),
                    }
                },
                Err(e) => Err(e),
            },
        }
    }
}

#[via_fn]
proof fn sp_top_decreases(t: Seq<TokenV>, i: nat) {
    if i < t.len() {
        match sp_value(t, i) {
            Ok((frag, k)) => {
                let (eol, k2) = sp_eol(t, k);
                assert(k2 >= k);
            },
            Err(e) => {},
        }
    }
}

// ------------------------------------------------------------------
// The extension set: insertion in strict byte-lexicographic order.
// ------------------------------------------------------------------

pub open spec fn insert_sorted(s: Seq<Seq<u8>>, x: Seq<u8>) -> Seq<Seq<u8>>
    decreases s,
{
    if s.len() == 0 {
        seq![x]
    } else if lex_lt(x, s[0]) {
        seq![x] + s
    } else if x == s[0] {
        s
    } else {
        seq![s[0]] + insert_sorted(s.drop_first(), x)
    }
}

/// The declared extensions folded, left to right, into a sorted set.
pub open spec fn sort_dedup(s: Seq<Seq<u8>>) -> Seq<Seq<u8>>
    decreases s,
{
    if s.len() == 0 {
        Seq::empty()
    } else {
        insert_sorted(sort_dedup(s.drop_last()), s.last())
    }
}

/// The whole parse of a token stream.
pub open spec fn sp_parse(t: Seq<TokenV>) -> Result<FileTextV, ParseError> {
    match sp_top(t, 0) {
        Ok((exts, items, dangling)) => Ok(
            FileTextV { extensions: sort_dedup(exts), items },
        ),
        Err(e) => Err(e),
    }
}

/// The whole parse of raw input bytes: tokens, then the grammar above.
pub open spec fn parse_spec(s: Seq<u8>) -> Result<FileTextV, ParseError> {
    match lex_spec(s) {
        Ok(toks) => sp_parse(toks),
        Err(e) => Err(e),
    }
}

/// What formatting an input yields: its parse rendered canonically.
pub open spec fn format_spec(s: Seq<u8>, c: Config) -> Result<Seq<u8>, ParseError> {
    match parse_spec(s) {
        Ok(d) => Ok(render_doc(d, c)),
        Err(e) => Err(e),
    }
}

// ------------------------------------------------------------------
// Small executable helpers.
// ------------------------------------------------------------------

/// A fresh vector with the same bytes.
fn dup_bytes(v: &Vec<u8>) -> (r: Vec<u8>)
    ensures
        r@ == v@,
{
    let mut r: Vec<u8> = Vec::new();
    let mut k: usize = 0;
    while k < v.len()
        invariant
            k <= v@.len(),
            r@ == v@.take(k as int),
        decreases v@.len() - k,
    {
        r.push(v[k]);
        assert(v@.take(k + 1) =~= v@.take(k as int).push(v@[k as int]));
        k = k + 1;
    }
    assert(v@.take(v@.len() as int) =~= v@);
    r
}

/// A fresh vector of fresh byte vectors, with the same view.
fn dup_texts(v: &Vec<Vec<u8>>) -> (r: Vec<Vec<u8>>)
    ensures
        texts_view(r@) == texts_view(v@),
        r@.len() == v@.len(),
{
    proof {
        lemma_texts_view(v@);
    }
    let mut r: Vec<Vec<u8>> = Vec::new();
    let mut k: usize = 0;
    while k < v.len()
        invariant
            k <= v@.len(),
            r@.len() == k,
            forall|q: int| 0 <= q < k ==> r@[q]@ == v@[q]@,
        decreases v@.len() - k,
    {
        let b = dup_bytes(&v[k]);
        r.push(b);
        k = k + 1;
    }
    proof {
        lemma_texts_view(r@);
        assert(texts_view(r@) =~= texts_view(v@));
    }
    r
}

pub proof fn lemma_texts_view_cons(x: Vec<u8>, s: Seq<Vec<u8>>)
    ensures
        texts_view(seq![x] + s) == seq![x@] + texts_view(s),
{
    assert((seq![x] + s)[0] == x);
    assert((seq![x] + s).drop_first() =~= s);
    assert(texts_view(seq![x] + s) =~= seq![x@] + texts_view(s));
}

pub proof fn lemma_items_view_cons(x: Item, s: Seq<Item>)
    ensures
        items_view(seq![x] + s) == seq![item_view(x)] + items_view(s),
{
    assert((seq![x] + s)[0] == x);
    assert((seq![x] + s).drop_first() =~= s);
    assert(items_view(seq![x] + s) =~= seq![item_view(x)] + items_view(s));
}

pub proof fn lemma_entries_view_cons(x: (TextFragment, Item), s: Seq<(TextFragment, Item)>)
    ensures
        entries_view(seq![x] + s) == seq![(frag_view(x.0), item_view(x.1))] + entries_view(s),
{
    assert((seq![x] + s)[0] == x);
    assert((seq![x] + s).drop_first() =~= s);
    assert(entries_view(seq![x] + s) =~= seq![(frag_view(x.0), item_view(x.1))] + entries_view(s));
}

pub proof fn lemma_fields_view_cons(x: (Vec<u8>, Item), s: Seq<(Vec<u8>, Item)>)
    ensures
        fields_view(seq![x] + s) == seq![(x.0@, item_view(x.1))] + fields_view(s),
{
    assert((seq![x] + s)[0] == x);
    assert((seq![x] + s).drop_first() =~= s);
    assert(fields_view(seq![x] + s) =~= seq![(x.0@, item_view(x.1))] + fields_view(s));
}

/// First index at or after `i` without a comment token, executable.
fn skip_comments_exec(t: &Vec<Token>, i: usize) -> (r: usize)
    requires
        i <= t@.len(),
    ensures
        r == sp_skip_comments(tokens_view(t@), i as nat),
        i <= r <= t@.len(),
    decreases t@.len() - i,
{
    proof {
        lemma_tokens_view(t@);
        lemma_sp_skip_comments_bounds(tokens_view(t@), i as nat);
    }
    if i < t.len() {
        let com = match &t[i] {
            Token::Comment { text, standalone } => true,
            _ => false,
        };
        if com {
            skip_comments_exec(t, i + 1)
        } else {
            i
        }
    } else {
        i
    }
}

/// The comment run's texts, executable.
fn collect_comments(t: &Vec<Token>, i: usize) -> (r: Vec<Vec<u8>>)
    requires
        i <= t@.len(),
    ensures
        texts_view(r@) == sp_comments(tokens_view(t@), i as nat),
    decreases t@.len() - i,
{
    proof {
        lemma_tokens_view(t@);
    }
    if i < t.len() {
        match &t[i] {
            Token::Comment { text, standalone } => {
                let tx = dup_bytes(text);
                let mut rest = collect_comments(t, i + 1);
                let ghost before = rest@;
                rest.insert(0, tx);
                proof {
                    assert(rest@ =~= seq![tx] + before);
                    lemma_texts_view_cons(tx, before);
                    assert(texts_view(rest@) =~= sp_comments(tokens_view(t@), i as nat));
                }
                rest
            },
            _ => {
                let r: Vec<Vec<u8>> = Vec::new();
                assert(texts_view(r@) =~= sp_comments(tokens_view(t@), i as nat));
                r
            },
        }
    } else {
        let r: Vec<Vec<u8>> = Vec::new();
        assert(texts_view(r@) =~= sp_comments(tokens_view(t@), i as nat));
        r
    }
}

/// The trailing comment after a value, executable.
fn get_eol(t: &Vec<Token>, i: usize) -> (r: (Option<Vec<u8>>, usize))
    requires
        i <= t@.len(),
    ensures
        sp_eol(tokens_view(t@), i as nat) == (opt_text_view(r.0), r.1 as nat),
        i <= r.1 <= t@.len(),
    decreases t@.len() - i,
{
    proof {
        lemma_tokens_view(t@);
    }
    if i < t.len() {
        match &t[i] {
            Token::Comment { text, standalone } => {
                if !*standalone {
                    (Some(dup_bytes(text)), i + 1)
                } else {
                    (None, i)
                }
            },
            _ => (None, i),
        }
    } else {
        (None, i)
    }
}

// ------------------------------------------------------------------
// Width sums with an overflow gate.
// ------------------------------------------------------------------

fn items_width_exec(items: &Vec<Item>, k: usize) -> (r: Option<usize>)
    requires
        k <= items@.len(),
        forall|q: int|
            0 <= q < items@.len() ==> frag_wf(#[trigger] item_view(items@[q]).fragment),
    ensures
        match r {
            Some(w) => w as nat == items_width(items_view(items@).skip(k as int)),
            None => items_width(items_view(items@).skip(k as int)) > width_cap(),
        },
    decreases items@.len() - k,
{
    proof {
        lemma_items_view(items@);
    }
    if k < items.len() {
        match items_width_exec(items, k + 1) {
            Some(rest) => {
                let ml = items[k].fragment.minimum_length;
                proof {
                    assert(items_view(items@).skip(k as int).drop_first() =~= items_view(
                        items@,
                    ).skip(k + 1));
                    assert(items_view(items@).skip(k as int)[0] == items_view(items@)[k as int]);
                }
                if (ml as u128) + 2 + (rest as u128) > (usize::MAX as u128) {
                    None
                } else {
                    Some(ml + 2 + rest)
                }
            },
            None => {
                proof {
                    assert(items_view(items@).skip(k as int).drop_first() =~= items_view(
                        items@,
                    ).skip(k + 1));
                }
                None
            },
        }
    } else {
        assert(items_view(items@).skip(k as int).len() == 0);
        Some(0)
    }
}

fn entries_width_exec(entries: &Vec<(TextFragment, Item)>, k: usize) -> (r: Option<usize>)
    requires
        k <= entries@.len(),
        forall|q: int|
            0 <= q < entries@.len() ==> frag_wf(#[trigger] frag_view(entries@[q].0)) && frag_wf(
                item_view(entries@[q].1).fragment,
            ),
    ensures
        match r {
            Some(w) => w as nat == entries_width(entries_view(entries@).skip(k as int)),
            None => entries_width(entries_view(entries@).skip(k as int)) > width_cap(),
        },
    decreases entries@.len() - k,
{
    proof {
        lemma_entries_view(entries@);
    }
    if k < entries.len() {
        match entries_width_exec(entries, k + 1) {
            Some(rest) => {
                let kml = entries[k].0.minimum_length;
                let vml = entries[k].1.fragment.minimum_length;
                proof {
                    assert(entries_view(entries@).skip(k as int).drop_first() =~= entries_view(
                        entries@,
                    ).skip(k + 1));
                    assert(entries_view(entries@).skip(k as int)[0] == entries_view(entries@)[k as int]);
                }
                if (kml as u128) + (vml as u128) + 4 + (rest as u128) > (usize::MAX as u128) {
                    None
                } else {
                    Some(kml + vml + 4 + rest)
                }
            },
            None => {
                proof {
                    assert(entries_view(entries@).skip(k as int).drop_first() =~= entries_view(
                        entries@,
                    ).skip(k + 1));
                }
                None
            },
        }
    } else {
        assert(entries_view(entries@).skip(k as int).len() == 0);
        Some(0)
    }
}

fn fields_width_exec(fields: &Vec<(Vec<u8>, Item)>, k: usize) -> (r: Option<usize>)
    requires
        k <= fields@.len(),
        forall|q: int|
            0 <= q < fields@.len() ==> frag_wf(#[trigger] item_view(fields@[q].1).fragment),
    ensures
        match r {
            Some(w) => w as nat == fields_width(fields_view(fields@).skip(k as int)),
            None => fields_width(fields_view(fields@).skip(k as int)) > width_cap(),
        },
    decreases fields@.len() - k,
{
    proof {
        lemma_fields_view(fields@);
    }
    if k < fields.len() {
        match fields_width_exec(fields, k + 1) {
            Some(rest) => {
                let kl = fields[k].0.len();
                let vml = fields[k].1.fragment.minimum_length;
                proof {
                    assert(fields_view(fields@).skip(k as int).drop_first() =~= fields_view(
                        fields@,
                    ).skip(k + 1));
                    assert(fields_view(fields@).skip(k as int)[0] == fields_view(fields@)[k as int]);
                }
                if (kl as u128) + (vml as u128) + 4 + (rest as u128) > (usize::MAX as u128) {
                    None
                } else {
                    Some(kl + vml + 4 + rest)
                }
            },
            None => {
                proof {
                    assert(fields_view(fields@).skip(k as int).drop_first() =~= fields_view(
                        fields@,
                    ).skip(k + 1));
                }
                None
            },
        }
    } else {
        assert(fields_view(fields@).skip(k as int).len() == 0);
        Some(0)
    }
}

// ------------------------------------------------------------------
// Byte-lexicographic order: executable comparison and its laws.
// ------------------------------------------------------------------

fn lex_less_from(a: &Vec<u8>, b: &Vec<u8>, k: usize) -> (r: bool)
    requires
        k <= a@.len(),
        k <= b@.len(),
    ensures
        r == lex_lt(a@.skip(k as int), b@.skip(k as int)),
    decreases a@.len() - k,
{
    proof {
        assert(a@.skip(k as int).len() == a@.len() - k);
        assert(b@.skip(k as int).len() == b@.len() - k);
    }
    if k >= b.len() {
        false
    } else if k >= a.len() {
        true
    } else if a[k] < b[k] {
        assert(a@.skip(k as int)[0] == a@[k as int]);
        assert(b@.skip(k as int)[0] == b@[k as int]);
        true
    } else if a[k] > b[k] {
        assert(a@.skip(k as int)[0] == a@[k as int]);
        assert(b@.skip(k as int)[0] == b@[k as int]);
        false
    } else {
        let r = lex_less_from(a, b, k + 1);
        proof {
            assert(a@.skip(k as int)[0] == a@[k as int]);
            assert(b@.skip(k as int)[0] == b@[k as int]);
            assert(a@.skip(k as int).drop_first() =~= a@.skip(k + 1));
            assert(b@.skip(k as int).drop_first() =~= b@.skip(k + 1));
        }
        r
    }
}

/// Strict byte-lexicographic comparison.
fn lex_less(a: &Vec<u8>, b: &Vec<u8>) -> (r: bool)
    ensures
        r == lex_lt(a@, b@),
{
    let r = lex_less_from(a, b, 0);
    proof {
        assert(a@.skip(0) =~= a@);
        assert(b@.skip(0) =~= b@);
    }
    r
}

fn bytes_eq(a: &Vec<u8>, b: &Vec<u8>) -> (r: bool)
    ensures
        r == (a@ == b@),
{
    if a.len() != b.len() {
        assert(a@ != b@);
        return false;
    }
    let mut k: usize = 0;
    while k < a.len()
        invariant
            k <= a@.len(),
            a@.len() == b@.len(),
            forall|q: int| 0 <= q < k ==> a@[q] == b@[q],
        decreases a@.len() - k,
    {
        if a[k] != b[k] {
            assert(a@ != b@);
            return false;
        }
        k = k + 1;
    }
    assert(a@ =~= b@);
    true
}

pub proof fn lemma_lex_lt_asym(a: Seq<u8>, b: Seq<u8>)
    ensures
        lex_lt(a, b) ==> !lex_lt(b, a) && a != b,
    decreases a.len(),
{
    if lex_lt(a, b) {
        if a.len() > 0 && b.len() > 0 && a[0] == b[0] {
            lemma_lex_lt_asym(a.drop_first(), b.drop_first());
            assert(a != b) by {
                assert(a.drop_first() != b.drop_first());
                if a == b {
                    assert(a.drop_first() =~= b.drop_first());
                }
            };
        } else {
            if a == b {
                assert(a.len() == b.len());
            }
        }
    }
}

pub proof fn lemma_lex_lt_connected(a: Seq<u8>, b: Seq<u8>)
    ensures
        !lex_lt(a, b) && !lex_lt(b, a) ==> a == b,
    decreases a.len(),
{
    if !lex_lt(a, b) && !lex_lt(b, a) {
        if a.len() == 0 && b.len() == 0 {
            assert(a =~= b);
        } else if a.len() > 0 && b.len() > 0 {
            lemma_lex_lt_connected(a.drop_first(), b.drop_first());
            assert(a.drop_first() == b.drop_first());
            assert(a =~= b) by {
                assert(a.len() == b.len());
                assert(forall|q: int|
                    1 <= q < a.len() ==> a[q] == a.drop_first()[q - 1] && b[q] == b.drop_first()[q
                        - 1]);
            };
        }
    }
}

pub proof fn lemma_lex_lt_trans(a: Seq<u8>, b: Seq<u8>, c: Seq<u8>)
    ensures
        lex_lt(a, b) && lex_lt(b, c) ==> lex_lt(a, c),
    decreases a.len(),
{
    if lex_lt(a, b) && lex_lt(b, c) {
        if a.len() > 0 && b.len() > 0 && c.len() > 0 && a[0] == b[0] && b[0] == c[0] {
            lemma_lex_lt_trans(a.drop_first(), b.drop_first(), c.drop_first());
        }
    }
}

/// Inserting into a strictly sorted sequence keeps it strictly sorted,
/// and adds no element but the inserted one.
pub proof fn lemma_insert_sorted_props(s: Seq<Seq<u8>>, x: Seq<u8>)
    requires
        extensions_wf(s),
    ensures
        extensions_wf(insert_sorted(s, x)),
        forall|q: int|
            0 <= q < insert_sorted(s, x).len() ==> (#[trigger] insert_sorted(s, x)[q]) == x
                || s.contains(insert_sorted(s, x)[q]),
    decreases s,
{
    let r = insert_sorted(s, x);
    if s.len() == 0 {
        assert(r =~= seq![x]);
    } else if lex_lt(x, s[0]) {
        assert(r =~= seq![x] + s);
        assert forall|i: int, j: int| 0 <= i < j < r.len() implies lex_lt(r[i], r[j]) by {
            if i == 0 {
                if j == 1 {
                    assert(r[j] == s[0]);
                } else {
                    assert(lex_lt(s[0], s[j - 1]));
                    lemma_lex_lt_trans(x, s[0], s[j - 1]);
                }
            } else {
                assert(lex_lt(s[i - 1], s[j - 1]));
            }
        };
        assert forall|q: int| 0 <= q < r.len() implies (#[trigger] r[q]) == x || s.contains(r[q]) by {
            if q > 0 {
                assert(r[q] == s[q - 1]);
                assert(s.contains(s[q - 1]));
            }
        };
    } else if x == s[0] {
        assert(r =~= s);
        assert forall|q: int| 0 <= q < r.len() implies (#[trigger] r[q]) == x || s.contains(r[q]) by {
            assert(s.contains(s[q]));
        };
    } else {
        lemma_lex_lt_connected(x, s[0]);
        lemma_lex_lt_asym(s[0], x);
        assert(lex_lt(s[0], x));
        let s1 = s.drop_first();
        assert(extensions_wf(s1)) by {
            assert(forall|i: int, j: int|
                0 <= i < j < s1.len() ==> lex_lt(#[trigger] s1[i], #[trigger] s1[j]) && s1[i] == s[i
                    + 1] && s1[j] == s[j + 1]);
        };
        lemma_insert_sorted_props(s1, x);
        let r1 = insert_sorted(s1, x);
        assert(r =~= seq![s[0]] + r1);
        assert forall|i: int, j: int| 0 <= i < j < r.len() implies lex_lt(r[i], r[j]) by {
            if i == 0 {
                assert(r[j] == r1[j - 1]);
                if r1[j - 1] == x {
                } else {
                    assert(s1.contains(r1[j - 1]));
                    let w = choose|w: int| 0 <= w < s1.len() && s1[w] == r1[j - 1];
                    assert(s1[w] == s[w + 1]);
                    assert(lex_lt(s[0], s[w + 1]));
                }
            } else {
                assert(r[i] == r1[i - 1] && r[j] == r1[j - 1]);
            }
        };
        assert forall|q: int| 0 <= q < r.len() implies (#[trigger] r[q]) == x || s.contains(r[q]) by {
            if q == 0 {
                assert(s.contains(s[0]));
            } else {
                assert(r[q] == r1[q - 1]);
                if r1[q - 1] != x {
                    assert(s1.contains(r1[q - 1]));
                    let w = choose|w: int| 0 <= w < s1.len() && s1[w] == r1[q - 1];
                    assert(s[w + 1] == s1[w]);
                    assert(s.contains(s[w + 1]));
                }
            }
        };
    }
}

pub proof fn lemma_sort_dedup_wf(s: Seq<Seq<u8>>)
    ensures
        extensions_wf(sort_dedup(s)),
    decreases s,
{
    if s.len() == 0 {
    } else {
        lemma_sort_dedup_wf(s.drop_last());
        lemma_insert_sorted_props(sort_dedup(s.drop_last()), s.last());
    }
}

/// Inserts `x` into the sorted vector at or after position `p`, before
/// which every element is already below `x`.
fn insert_ext_from(v: &mut Vec<Vec<u8>>, x: Vec<u8>, p: usize)
    requires
        p <= old(v)@.len(),
    ensures
        texts_view(final(v)@) == texts_view(old(v)@).take(p as int) + insert_sorted(
            texts_view(old(v)@).skip(p as int),
            x@,
        ),
    decreases v@.len() - p,
{
    proof {
        lemma_texts_view(v@);
    }
    let ghost tv = texts_view(v@);
    let ghost xs = x@;
    if p < v.len() {
        proof {
            assert(tv.skip(p as int)[0] == tv[p as int]);
            assert(tv.skip(p as int).drop_first() =~= tv.skip(p + 1));
        }
        let less = lex_less(&v[p], &x);
        if less {
            proof {
                lemma_lex_lt_asym(tv[p as int], xs);
                assert(insert_sorted(tv.skip(p as int), xs) == seq![tv[p as int]] + insert_sorted(
                    tv.skip(p + 1),
                    xs,
                ));
            }
            insert_ext_from(v, x, p + 1);
            proof {
                assert(tv.take(p as int) + (seq![tv[p as int]] + insert_sorted(tv.skip(p + 1), xs))
                    =~= tv.take(p + 1) + insert_sorted(tv.skip(p + 1), xs));
            }
        } else {
            let same = bytes_eq(&v[p], &x);
            if same {
                proof {
                    assert(!lex_lt(xs, tv[p as int])) by {
                        lemma_lex_lt_asym(xs, tv[p as int]);
                    }
                    assert(insert_sorted(tv.skip(p as int), xs) == tv.skip(p as int));
                    assert(tv.take(p as int) + tv.skip(p as int) =~= tv);
                }
            } else {
                proof {
                    lemma_lex_lt_connected(xs, tv[p as int]);
                    assert(lex_lt(xs, tv[p as int]));
                    assert(insert_sorted(tv.skip(p as int), xs) == seq![xs] + tv.skip(p as int));
                }
                let ghost before = v@;
                v.insert(p, x);
                proof {
                    assert(v@ =~= before.take(p as int) + (seq![x] + before.skip(p as int)));
                    lemma_texts_view(v@);
                    assert(texts_view(v@) =~= tv.take(p as int) + (seq![xs] + tv.skip(p as int)));
                }
            }
        }
    } else {
        proof {
            assert(tv.skip(p as int).len() == 0);
            assert(insert_sorted(tv.skip(p as int), xs) =~= seq![xs]);
        }
        let ghost before = v@;
        v.push(x);
        proof {
            lemma_texts_view(v@);
            assert(texts_view(v@) =~= tv.take(p as int) + seq![xs]);
        }
    }
}

/// Inserts `x` into the sorted, duplicate-free vector, keeping it so.
fn insert_ext(v: &mut Vec<Vec<u8>>, x: Vec<u8>)
    ensures
        texts_view(final(v)@) == insert_sorted(texts_view(old(v)@), x@),
{
    let ghost tv = texts_view(old(v)@);
    let ghost xs = x@;
    insert_ext_from(v, x, 0);
    proof {
        assert(tv.take(0) =~= Seq::<Seq<u8>>::empty());
        assert(tv.skip(0) =~= tv);
        assert(Seq::<Seq<u8>>::empty() + insert_sorted(tv, xs) =~= insert_sorted(tv, xs));
    }
}

// ------------------------------------------------------------------
// The executable recursive-descent parser, one function per spec rule.
// ------------------------------------------------------------------

fn parse_value(t: &Vec<Token>, i: usize) -> (r: Result<(TextFragment, usize), ParseError>)
    requires
        i <= t@.len(),
    ensures
        match r {
            Ok(p) => sp_value(tokens_view(t@), i as nat) == Ok::<(TextFragmentV, nat), ParseError>(
                (frag_view(p.0), p.1 as nat),
            ) && i < p.1 <= t@.len() && frag_wf(frag_view(p.0)),
            Err(e) => sp_value(tokens_view(t@), i as nat) == Err::<(TextFragmentV, nat), ParseError>(
                e,
            ),
        },
    decreases t@.len() - i, 0nat,
{
    proof {
        lemma_tokens_view(t@);
    }
    let ghost tv = tokens_view(t@);
    if i >= t.len() {
        return Err(ParseError::UnexpectedEnd);
    }
    match &t[i] {
        Token::Word(w) => {
            let named = i + 1 < t.len() && (match &t[i + 1] {
                Token::LParen => true,
                _ => false,
            });
            if named {
                let name = dup_bytes(w);
                let r = parse_paren(t, i + 2, Some(name));
                proof {
                    assert(sp_value(tv, i as nat) == sp_paren(tv, i as nat + 2, Some(w@)));
                }
                r
            } else {
                let text = dup_bytes(w);
                let ml = text.len();
                let frag = TextFragment { minimum_length: ml, ron_value: RonValue::Atom(text) };
                assert(frag_view(frag) == TextFragmentV {
                    minimum_length: w@.len(),
                    ron_value: RonValueV::Atom(w@),
                });
                Ok((frag, i + 1))
            }
        },
        Token::Quoted(q) => {
            let text = dup_bytes(q);
            let ml = text.len();
            let frag = TextFragment { minimum_length: ml, ron_value: RonValue::Atom(text) };
            assert(frag_view(frag) == TextFragmentV {
                minimum_length: q@.len(),
                ron_value: RonValueV::Atom(q@),
            });
            Ok((frag, i + 1))
        },
        Token::LBrack => {
            match parse_elements(t, i + 1, true) {
                Ok((elems, dangling, e)) => {
                    proof {
                        lemma_items_view(elems@);
                    }
                    match items_width_exec(&elems, 0) {
                        Some(w) => {
                            proof {
                                assert(items_view(elems@).skip(0) =~= items_view(elems@));
                            }
                            let frag = TextFragment {
                                minimum_length: w,
                                ron_value: RonValue::List(elems),
                            };
                            assert(frag_wf(frag_view(frag)));
                            Ok((frag, e))
                        },
                        None => {
                            proof {
                                assert(items_view(elems@).skip(0) =~= items_view(elems@));
                            }
                            Err(ParseError::WidthOverflow)
                        },
                    }
                },
                Err(e) => Err(e),
            }
        },
        Token::LBrace => {
            match parse_map_entries(t, i + 1) {
                Ok((entries, dangling, e)) => {
                    proof {
                        lemma_entries_view(entries@);
                    }
                    match entries_width_exec(&entries, 0) {
                        Some(w) => {
                            proof {
                                assert(entries_view(entries@).skip(0) =~= entries_view(entries@));
                            }
                            let frag = TextFragment {
                                minimum_length: w,
                                ron_value: RonValue::MapType(entries),
                            };
                            assert(frag_wf(frag_view(frag)));
                            Ok((frag, e))
                        },
                        None => {
                            proof {
                                assert(entries_view(entries@).skip(0) =~= entries_view(entries@));
                            }
                            Err(ParseError::WidthOverflow)
                        },
                    }
                },
                Err(e) => Err(e),
            }
        },
        Token::LParen => parse_paren(t, i + 1, None),
        _ => Err(ParseError::UnexpectedToken { index: i }),
    }
}

fn parse_paren(t: &Vec<Token>, i: usize, name: Option<Vec<u8>>) -> (r: Result<
    (TextFragment, usize),
    ParseError,
>)
    requires
        i <= t@.len(),
    ensures
        match r {
            Ok(p) => sp_paren(tokens_view(t@), i as nat, opt_text_view(name)) == Ok::<
                (TextFragmentV, nat),
                ParseError,
            >((frag_view(p.0), p.1 as nat)) && i < p.1 <= t@.len() && frag_wf(frag_view(p.0)),
            Err(e) => sp_paren(tokens_view(t@), i as nat, opt_text_view(name)) == Err::<
                (TextFragmentV, nat),
                ParseError,
            >(e),
        },
    decreases t@.len() - i, 2nat,
{
    proof {
        lemma_tokens_view(t@);
    }
    let ghost tv = tokens_view(t@);
    let j = skip_comments_exec(t, i);
    if j >= t.len() {
        return Err(ParseError::UnexpectedEnd);
    }
    let name_none = match &name {
        None => true,
        Some(_) => false,
    };
    let j_rparen = match &t[j] {
        Token::RParen => true,
        _ => false,
    };
    if j_rparen && name_none && j == i {
        let mut text: Vec<u8> = Vec::new();
        text.push(40u8);
        text.push(41u8);
        let frag = TextFragment { minimum_length: 2, ron_value: RonValue::Atom(text) };
        proof {
            assert(text@ =~= seq![40u8, 41u8]);
            assert(frag_view(frag) == TextFragmentV {
                minimum_length: 2,
                ron_value: RonValueV::Atom(seq![40u8, 41u8]),
            });
        }
        return Ok((frag, j + 1));
    }
    let fields_ahead = (match &t[j] {
        Token::Word(kb) => true,
        _ => false,
    }) && j + 1 < t.len() && (match &t[j + 1] {
        Token::Colon => true,
        _ => false,
    });
    if fields_ahead {
        match parse_fields(t, i) {
            Ok((fields, dangling, e)) => {
                proof {
                    lemma_fields_view(fields@);
                }
                match fields_width_exec(&fields, 0) {
                    Some(fw) => {
                        proof {
                            assert(fields_view(fields@).skip(0) =~= fields_view(fields@));
                        }
                        let nl = match &name {
                            Some(n) => n.len(),
                            None => 0,
                        };
                        if (nl as u128) + (fw as u128) > (usize::MAX as u128) {
                            Err(ParseError::WidthOverflow)
                        } else {
                            let frag = TextFragment {
                                minimum_length: nl + fw,
                                ron_value: RonValue::FieldsType { maybe_ident: name, fields },
                            };
                            assert(frag_wf(frag_view(frag)));
                            Ok((frag, e))
                        }
                    },
                    None => {
                        proof {
                            assert(fields_view(fields@).skip(0) =~= fields_view(fields@));
                        }
                        Err(ParseError::WidthOverflow)
                    },
                }
            },
            Err(e) => Err(e),
        }
    } else {
        match parse_elements(t, i, false) {
            Ok((elems, dangling, e)) => {
                proof {
                    lemma_items_view(elems@);
                }
                match items_width_exec(&elems, 0) {
                    Some(ew) => {
                        proof {
                            assert(items_view(elems@).skip(0) =~= items_view(elems@));
                        }
                        let nl = match &name {
                            Some(n) => n.len(),
                            None => 0,
                        };
                        if (nl as u128) + (ew as u128) > (usize::MAX as u128) {
                            Err(ParseError::WidthOverflow)
                        } else {
                            let frag = TextFragment {
                                minimum_length: nl + ew,
                                ron_value: RonValue::TupleType { maybe_ident: name, elements: elems },
                            };
                            assert(frag_wf(frag_view(frag)));
                            Ok((frag, e))
                        }
                    },
                    None => {
                        proof {
                            assert(items_view(elems@).skip(0) =~= items_view(elems@));
                        }
                        Err(ParseError::WidthOverflow)
                    },
                }
            },
            Err(e) => Err(e),
        }
    }
}

fn parse_elements(t: &Vec<Token>, i: usize, brack: bool) -> (r: Result<
    (Vec<Item>, Vec<Vec<u8>>, usize),
    ParseError,
>)
    requires
        i <= t@.len(),
    ensures
        ({
            let closer = if brack {
                TokenV::RBrack
            } else {
                TokenV::RParen
            };
            match r {
                Ok(p) => sp_elements(tokens_view(t@), i as nat, closer) == Ok::<
                    (Seq<ItemV>, Seq<Seq<u8>>, nat),
                    ParseError,
                >((items_view(p.0@), texts_view(p.1@), p.2 as nat)) && i < p.2 <= t@.len() && (
                forall|q: int|
                    0 <= q < p.0@.len() ==> frag_wf(#[trigger] item_view(p.0@[q]).fragment)),
                Err(e) => sp_elements(tokens_view(t@), i as nat, closer) == Err::<
                    (Seq<ItemV>, Seq<Seq<u8>>, nat),
                    ParseError,
                >(e),
            }
        }),
    decreases t@.len() - i, 1nat,
{
    proof {
        lemma_tokens_view(t@);
    }
    let ghost tv = tokens_view(t@);
    let ghost closer = if brack {
        TokenV::RBrack
    } else {
        TokenV::RParen
    };
    let c = collect_comments(t, i);
    let j = skip_comments_exec(t, i);
    if j >= t.len() {
        return Err(ParseError::UnexpectedEnd);
    }
    let is_closer = match &t[j] {
        Token::RBrack => brack,
        Token::RParen => !brack,
        _ => false,
    };
    assert(is_closer == (tv[j as int] == closer));
    if is_closer {
        let items: Vec<Item> = Vec::new();
        let empty_d: Vec<Vec<u8>> = Vec::new();
        proof {
            assert(items_view(items@) =~= Seq::<ItemV>::empty());
        }
        return Ok((items, c, j + 1));
    }
    match parse_value(t, j) {
        Ok((frag, k)) => {
            let has_comma = k < t.len() && (match &t[k] {
                Token::Comma => true,
                _ => false,
            });
            if has_comma {
                let (eol, k2) = get_eol(t, k + 1);
                match parse_elements(t, k2, brack) {
                    Ok((mut rest, dang, e)) => {
                        let ghost rest0 = rest@;
                        let rest_empty = rest.len() == 0;
                        let post = if rest_empty {
                            dang
                        } else {
                            Vec::new()
                        };
                        let item = Item { pre: c, fragment: frag, eol, post };
                        rest.insert(0, item);
                        let empty_d: Vec<Vec<u8>> = Vec::new();
                        proof {
                            assert(rest@ =~= seq![item] + rest0);
                            lemma_items_view_cons(item, rest0);
                            lemma_items_view(rest0);
                            lemma_items_view(rest@);
                            assert(texts_view(empty_d@) =~= Seq::<Seq<u8>>::empty());
                            if rest_empty {
                            } else {
                                assert(texts_view(item.post@) =~= Seq::<Seq<u8>>::empty());
                            }
                        }
                        Ok((rest, empty_d, e))
                    },
                    Err(e) => Err(e),
                }
            } else {
                let (eol, k2) = get_eol(t, k);
                let c2 = collect_comments(t, k2);
                let j2 = skip_comments_exec(t, k2);
                if j2 >= t.len() {
                    return Err(ParseError::UnexpectedEnd);
                }
                let is_closer2 = match &t[j2] {
                    Token::RBrack => brack,
                    Token::RParen => !brack,
                    _ => false,
                };
                assert(is_closer2 == (tv[j2 as int] == closer));
                if is_closer2 {
                    let item = Item { pre: c, fragment: frag, eol, post: c2 };
                    let mut items: Vec<Item> = Vec::new();
                    items.push(item);
                    let empty_d: Vec<Vec<u8>> = Vec::new();
                    proof {
                        assert(items@ =~= seq![item] + Seq::<Item>::empty());
                        lemma_items_view_cons(item, Seq::<Item>::empty());
                        lemma_items_view(items@);
                        assert(texts_view(empty_d@) =~= Seq::<Seq<u8>>::empty());
                    }
                    Ok((items, empty_d, j2 + 1))
                } else {
                    Err(ParseError::UnexpectedToken { index: j2 })
                }
            }
        },
        Err(e) => Err(e),
    }
}

fn parse_map_entries(t: &Vec<Token>, i: usize) -> (r: Result<
    (Vec<(TextFragment, Item)>, Vec<Vec<u8>>, usize),
    ParseError,
>)
    requires
        i <= t@.len(),
    ensures
        match r {
            Ok(p) => sp_map_entries(tokens_view(t@), i as nat) == Ok::<
                (Seq<(TextFragmentV, ItemV)>, Seq<Seq<u8>>, nat),
                ParseError,
            >((entries_view(p.0@), texts_view(p.1@), p.2 as nat)) && i < p.2 <= t@.len() && (
            forall|q: int|
                0 <= q < p.0@.len() ==> frag_wf(#[trigger] frag_view(p.0@[q].0)) && frag_wf(
                    item_view(p.0@[q].1).fragment,
                ) && !value_has_trivia(frag_view(p.0@[q].0).ron_value)),
            Err(e) => sp_map_entries(tokens_view(t@), i as nat) == Err::<
                (Seq<(TextFragmentV, ItemV)>, Seq<Seq<u8>>, nat),
                ParseError,
            >(e),
        },
    decreases t@.len() - i, 1nat,
{
    proof {
        lemma_tokens_view(t@);
    }
    let ghost tv = tokens_view(t@);
    let c = collect_comments(t, i);
    let j = skip_comments_exec(t, i);
    if j >= t.len() {
        return Err(ParseError::UnexpectedEnd);
    }
    let is_closer = match &t[j] {
        Token::RBrace => true,
        _ => false,
    };
    if is_closer {
        let entries: Vec<(TextFragment, Item)> = Vec::new();
        proof {
            assert(entries_view(entries@) =~= Seq::<(TextFragmentV, ItemV)>::empty());
        }
        return Ok((entries, c, j + 1));
    }
    match parse_value(t, j) {
        Ok((key, k)) => {
            if value_trivia(&key.ron_value) {
                return Err(ParseError::CommentInMapKey { index: j });
            }
            let has_colon = k < t.len() && (match &t[k] {
                Token::Colon => true,
                _ => false,
            });
            if has_colon {
                match parse_value(t, k + 1) {
                    Ok((vf, m)) => {
                        let has_comma = m < t.len() && (match &t[m] {
                            Token::Comma => true,
                            _ => false,
                        });
                        if has_comma {
                            let (eol, m2) = get_eol(t, m + 1);
                            match parse_map_entries(t, m2) {
                                Ok((mut rest, dang, e)) => {
                                    let ghost rest0 = rest@;
                                    let rest_empty = rest.len() == 0;
                                    let post = if rest_empty {
                                        dang
                                    } else {
                                        Vec::new()
                                    };
                                    let item = Item { pre: c, fragment: vf, eol, post };
                                    let entry = (key, item);
                                    rest.insert(0, entry);
                                    let empty_d: Vec<Vec<u8>> = Vec::new();
                                    proof {
                                        assert(rest@ =~= seq![entry] + rest0);
                                        lemma_entries_view_cons(entry, rest0);
                                        lemma_entries_view(rest0);
                                        lemma_entries_view(rest@);
                                        assert(texts_view(empty_d@) =~= Seq::<Seq<u8>>::empty());
                                        if rest_empty {
                                        } else {
                                            assert(texts_view(entry.1.post@) =~= Seq::<
                                                Seq<u8>,
                                            >::empty());
                                        }
                                    }
                                    Ok((rest, empty_d, e))
                                },
                                Err(e) => Err(e),
                            }
                        } else {
                            let (eol, m2) = get_eol(t, m);
                            let c2 = collect_comments(t, m2);
                            let j2 = skip_comments_exec(t, m2);
                            if j2 >= t.len() {
                                return Err(ParseError::UnexpectedEnd);
                            }
                            let is_closer2 = match &t[j2] {
                                Token::RBrace => true,
                                _ => false,
                            };
                            if is_closer2 {
                                let item = Item { pre: c, fragment: vf, eol, post: c2 };
                                let entry = (key, item);
                                let mut entries: Vec<(TextFragment, Item)> = Vec::new();
                                entries.push(entry);
                                let empty_d: Vec<Vec<u8>> = Vec::new();
                                proof {
                                    assert(entries@ =~= seq![entry] + Seq::<
                                        (TextFragment, Item),
                                    >::empty());
                                    lemma_entries_view_cons(entry, Seq::<(TextFragment, Item)>::empty());
                                    lemma_entries_view(entries@);
                                    assert(texts_view(empty_d@) =~= Seq::<Seq<u8>>::empty());
                                }
                                Ok((entries, empty_d, j2 + 1))
                            } else {
                                Err(ParseError::UnexpectedToken { index: j2 })
                            }
                        }
                    },
                    Err(e) => Err(e),
                }
            } else if k >= t.len() {
                Err(ParseError::UnexpectedEnd)
            } else {
                Err(ParseError::UnexpectedToken { index: k })
            }
        },
        Err(e) => Err(e),
    }
}

fn parse_fields(t: &Vec<Token>, i: usize) -> (r: Result<
    (Vec<(Vec<u8>, Item)>, Vec<Vec<u8>>, usize),
    ParseError,
>)
    requires
        i <= t@.len(),
    ensures
        match r {
            Ok(p) => sp_fields(tokens_view(t@), i as nat) == Ok::<
                (Seq<(Seq<u8>, ItemV)>, Seq<Seq<u8>>, nat),
                ParseError,
            >((fields_view(p.0@), texts_view(p.1@), p.2 as nat)) && i < p.2 <= t@.len() && (
            forall|q: int|
                0 <= q < p.0@.len() ==> frag_wf(#[trigger] item_view(p.0@[q].1).fragment)),
            Err(e) => sp_fields(tokens_view(t@), i as nat) == Err::<
                (Seq<(Seq<u8>, ItemV)>, Seq<Seq<u8>>, nat),
                ParseError,
            >(e),
        },
    decreases t@.len() - i, 1nat,
{
    proof {
        lemma_tokens_view(t@);
    }
    let ghost tv = tokens_view(t@);
    let c = collect_comments(t, i);
    let j = skip_comments_exec(t, i);
    if j >= t.len() {
        return Err(ParseError::UnexpectedEnd);
    }
    let is_closer = match &t[j] {
        Token::RParen => true,
        _ => false,
    };
    if is_closer {
        let fields: Vec<(Vec<u8>, Item)> = Vec::new();
        proof {
            assert(fields_view(fields@) =~= Seq::<(Seq<u8>, ItemV)>::empty());
        }
        return Ok((fields, c, j + 1));
    }
    match &t[j] {
        Token::Word(keyb) => {
            let has_colon = j + 1 < t.len() && (match &t[j + 1] {
                Token::Colon => true,
                _ => false,
            });
            if has_colon {
                let key = dup_bytes(keyb);
                match parse_value(t, j + 2) {
                    Ok((vf, m)) => {
                        let has_comma = m < t.len() && (match &t[m] {
                            Token::Comma => true,
                            _ => false,
                        });
                        if has_comma {
                            let (eol, m2) = get_eol(t, m + 1);
                            match parse_fields(t, m2) {
                                Ok((mut rest, dang, e)) => {
                                    let ghost rest0 = rest@;
                                    let rest_empty = rest.len() == 0;
                                    let post = if rest_empty {
                                        dang
                                    } else {
                                        Vec::new()
                                    };
                                    let item = Item { pre: c, fragment: vf, eol, post };
                                    let field = (key, item);
                                    rest.insert(0, field);
                                    let empty_d: Vec<Vec<u8>> = Vec::new();
                                    proof {
                                        assert(rest@ =~= seq![field] + rest0);
                                        lemma_fields_view_cons(field, rest0);
                                        lemma_fields_view(rest0);
                                        lemma_fields_view(rest@);
                                        assert(texts_view(empty_d@) =~= Seq::<Seq<u8>>::empty());
                                        if rest_empty {
                                        } else {
                                            assert(texts_view(field.1.post@) =~= Seq::<
                                                Seq<u8>,
                                            >::empty());
                                        }
                                    }
                                    Ok((rest, empty_d, e))
                                },
                                Err(e) => Err(e),
                            }
                        } else {
                            let (eol, m2) = get_eol(t, m);
                            let c2 = collect_comments(t, m2);
                            let j2 = skip_comments_exec(t, m2);
                            if j2 >= t.len() {
                                return Err(ParseError::UnexpectedEnd);
                            }
                            let is_closer2 = match &t[j2] {
                                Token::RParen => true,
                                _ => false,
                            };
                            if is_closer2 {
                                let item = Item { pre: c, fragment: vf, eol, post: c2 };
                                let field = (key, item);
                                let mut fields: Vec<(Vec<u8>, Item)> = Vec::new();
                                fields.push(field);
                                let empty_d: Vec<Vec<u8>> = Vec::new();
                                proof {
                                    assert(fields@ =~= seq![field] + Seq::<(Vec<u8>, Item)>::empty());
                                    lemma_fields_view_cons(field, Seq::<(Vec<u8>, Item)>::empty());
                                    lemma_fields_view(fields@);
                                    assert(texts_view(empty_d@) =~= Seq::<Seq<u8>>::empty());
                                }
                                Ok((fields, empty_d, j2 + 1))
                            } else {
                                Err(ParseError::UnexpectedToken { index: j2 })
                            }
                        }
                    },
                    Err(e) => Err(e),
                }
            } else {
                Err(ParseError::UnexpectedToken { index: j })
            }
        },
        _ => Err(ParseError::UnexpectedToken { index: j }),
    }
}

// ------------------------------------------------------------------
// Document scope and the public entry points.
// ------------------------------------------------------------------

fn parse_top(t: &Vec<Token>, i: usize) -> (r: Result<
    (Vec<Vec<u8>>, Vec<Item>, Vec<Vec<u8>>),
    ParseError,
>)
    requires
        i <= t@.len(),
    ensures
        match r {
            Ok(p) => sp_top(tokens_view(t@), i as nat) == Ok::<
                (Seq<Seq<u8>>, Seq<ItemV>, Seq<Seq<u8>>),
                ParseError,
            >((texts_view(p.0@), items_view(p.1@), texts_view(p.2@))) && (forall|q: int|
                0 <= q < p.1@.len() ==> frag_wf(#[trigger] item_view(p.1@[q]).fragment)),
            Err(e) => sp_top(tokens_view(t@), i as nat) == Err::<
                (Seq<Seq<u8>>, Seq<ItemV>, Seq<Seq<u8>>),
                ParseError,
            >(e),
        },
    decreases t@.len() - i,
{
    proof {
        lemma_tokens_view(t@);
    }
    let ghost tv = tokens_view(t@);
    if i >= t.len() {
        let exts: Vec<Vec<u8>> = Vec::new();
        let items: Vec<Item> = Vec::new();
        let dang: Vec<Vec<u8>> = Vec::new();
        proof {
            assert(texts_view(exts@) =~= Seq::<Seq<u8>>::empty());
            assert(items_view(items@) =~= Seq::<ItemV>::empty());
        }
        return Ok((exts, items, dang));
    }
    match &t[i] {
        Token::Ext(ids) => {
            match parse_top(t, i + 1) {
                Ok((mut exts, items, dang)) => {
                    let ghost exts0 = exts@;
                    let mut ids2 = dup_texts(ids);
                    let ghost ids2v = ids2@;
                    ids2.append(&mut exts);
                    proof {
                        assert(ids2@ == ids2v + exts0);
                        crate::lexer::lemma_texts_view_concat(ids2v, exts0);
                    }
                    Ok((ids2, items, dang))
                },
                Err(e) => Err(e),
            }
        },
        Token::Comment { text, standalone } => {
            match parse_top(t, i + 1) {
                Ok((exts, mut items, mut dang)) => {
                    let tx = dup_bytes(text);
                    if items.len() == 0 {
                        let ghost dang0 = dang@;
                        dang.insert(0, tx);
                        proof {
                            assert(dang@ =~= seq![tx] + dang0);
                            lemma_texts_view_cons(tx, dang0);
                            assert(items_view(items@).len() == 0) by {
                                lemma_items_view(items@);
                            }
                        }
                        Ok((exts, items, dang))
                    } else {
                        let ghost items0 = items@;
                        let mut first = items.remove(0);
                        let ghost first0 = first;
                        let ghost pre0 = first.pre@;
                        first.pre.insert(0, tx);
                        proof {
                            assert(first.pre@ =~= seq![tx] + pre0);
                            lemma_texts_view_cons(tx, pre0);
                        }
                        let ghost first1 = first;
                        items.insert(0, first);
                        proof {
                            assert(items@ =~= seq![first1] + items0.drop_first());
                            lemma_items_view_cons(first1, items0.drop_first());
                            lemma_items_view(items0);
                            lemma_items_view(items0.drop_first());
                            lemma_items_view(items@);
                            assert(item_view(first1) == ItemV {
                                pre: seq![text@] + item_view(first0).pre,
                                fragment: item_view(first0).fragment,
                                eol: item_view(first0).eol,
                                post: item_view(first0).post,
                            });
                            assert(items_view(items0).drop_first() =~= items_view(
                                items0.drop_first(),
                            ));
                            assert(items_view(items@) =~= seq![item_view(first1)] + items_view(
                                items0,
                            ).drop_first());
                        }
                        Ok((exts, items, dang))
                    }
                },
                Err(e) => Err(e),
            }
        },
        _ => {
            match parse_value(t, i) {
                Ok((frag, k)) => {
                    let (eol, k2) = get_eol(t, k);
                    match parse_top(t, k2) {
                        Ok((exts, mut items, dang)) => {
                            let ghost items0 = items@;
                            let empty_items = items.len() == 0;
                            proof {
                                lemma_items_view(items0);
                            }
                            if empty_items {
                                let pre: Vec<Vec<u8>> = Vec::new();
                                let item = Item { pre, fragment: frag, eol, post: dang };
                                items.insert(0, item);
                                let empty_d: Vec<Vec<u8>> = Vec::new();
                                proof {
                                    assert(items@ =~= seq![item] + items0);
                                    lemma_items_view_cons(item, items0);
                                    lemma_items_view(items@);
                                    assert(texts_view(item.pre@) =~= Seq::<Seq<u8>>::empty());
                                    assert(texts_view(empty_d@) =~= Seq::<Seq<u8>>::empty());
                                }
                                Ok((exts, items, empty_d))
                            } else {
                                let pre: Vec<Vec<u8>> = Vec::new();
                                let post: Vec<Vec<u8>> = Vec::new();
                                let item = Item { pre, fragment: frag, eol, post };
                                items.insert(0, item);
                                proof {
                                    assert(items@ =~= seq![item] + items0);
                                    lemma_items_view_cons(item, items0);
                                    lemma_items_view(items@);
                                    assert(texts_view(item.pre@) =~= Seq::<Seq<u8>>::empty());
                                    assert(texts_view(item.post@) =~= Seq::<Seq<u8>>::empty());
                                }
                                Ok((exts, items, dang))
                            }
                        },
                        Err(e) => Err(e),
                    }
                },
                Err(e) => Err(e),
            }
        },
    }
}

impl FileText {
    /// Builds the document from a token stream: the grammar of `sp_top`,
    /// with the declared extensions reduced to a strictly sorted set. The
    /// result is exactly what `sp_parse` assigns to these tokens, and on
    /// success the tree is well-formed: every stored width equals the
    /// defined minimum width, and the extension set is strictly ordered.
    pub fn parse_from(tokens: &Vec<Token>) -> (r: Result<FileText, ParseError>)
        ensures
            match r {
                Ok(d) => sp_parse(tokens_view(tokens@)) == Ok::<FileTextV, ParseError>(
                    file_view(d),
                ) && file_wf(file_view(d)),
                Err(e) => sp_parse(tokens_view(tokens@)) == Err::<FileTextV, ParseError>(e),
            },
    {
        match parse_top(tokens, 0) {
            Ok((exts, items, dangling)) => {
                proof {
                    lemma_texts_view(exts@);
                }
                let ghost ev = texts_view(exts@);
                let mut sorted: Vec<Vec<u8>> = Vec::new();
                let mut k: usize = 0;
                proof {
                    assert(texts_view(sorted@) =~= Seq::<Seq<u8>>::empty());
                    assert(ev.take(0) =~= Seq::<Seq<u8>>::empty());
                }
                while k < exts.len()
                    invariant
                        k <= exts@.len(),
                        ev == texts_view(exts@),
                        ev.len() == exts@.len(),
                        forall|q: int| 0 <= q < exts@.len() ==> ev[q] == exts@[q]@,
                        texts_view(sorted@) == sort_dedup(ev.take(k as int)),
                    decreases exts@.len() - k,
                {
                    let x = dup_bytes(&exts[k]);
                    insert_ext(&mut sorted, x);
                    proof {
                        assert(ev.take(k + 1).drop_last() =~= ev.take(k as int));
                        assert(ev.take(k + 1).last() == ev[k as int]);
                    }
                    k = k + 1;
                }
                proof {
                    assert(ev.take(ev.len() as int) =~= ev);
                    lemma_sort_dedup_wf(ev);
                }
                let d = FileText { extensions: sorted, items };
                proof {
                    lemma_items_view(d.items@);
                }
                Ok(d)
            },
            Err(e) => Err(e),
        }
    }
}

/// Parses raw document bytes: the lexer's tokens fed to `parse_from`.
/// The result is `Ok` on exactly the inputs `parse_spec` accepts, each
/// error is the one `parse_spec` assigns, and a parsed document is
/// well-formed.
pub fn parse_ron(input: &Vec<u8>) -> (r: Result<FileText, ParseError>)
    ensures
        match r {
            Ok(d) => parse_spec(input@) == Ok::<FileTextV, ParseError>(file_view(d)) && file_wf(
                file_view(d),
            ),
            Err(e) => parse_spec(input@) == Err::<FileTextV, ParseError>(e),
        },
{
    match tokenize(input) {
        Ok(toks) => FileText::parse_from(&toks),
        Err(e) => Err(e),
    }
}

/// The whole pipeline: parse the input and render it canonically under
/// `config`, exactly as `format_spec` describes.
pub fn format_ron(input: &Vec<u8>, config: &Config) -> (r: Result<Vec<u8>, ParseError>)
    ensures
        match r {
            Ok(out) => format_spec(input@, *config) == Ok::<Seq<u8>, ParseError>(out@),
            Err(e) => format_spec(input@, *config) == Err::<Seq<u8>, ParseError>(e),
        },
{
    match parse_ron(input) {
        Ok(d) => Ok(d.pretty_print(config)),
        Err(e) => Err(e),
    }
}

} // verus!

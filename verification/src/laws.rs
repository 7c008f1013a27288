use vstd::prelude::*;
use crate::ast::{
    FileTextV, ItemV, RonValueV, TextFragmentV, child_count, doc_comments, entries_comments,
    entries_width, fields_comments, fields_width, item_comments, item_has_trivia, items_comments,
    items_width, lemma_value_comments_trivia, opt_comment, value_comments, width_of,
};
use crate::ast::ParseError;
use crate::config::Config;
use crate::display::{
    COMMA, NL, child_line, colon_sp, comment_lines, entry_line, eol_part, field_line, ind,
    multi_entries, multi_fields, multi_items, multiline, render_doc, render_header, render_multi,
    render_node, render_single, spaces, top_item, top_items,
};

use crate::lexer::{TokenV, is_word_byte, lemma_scan_word_end_run, lex_cons, lex_from, lex_spec};
use crate::parser::{format_spec, parse_spec, sort_dedup, sp_eol, sp_parse, sp_top, sp_value};

verus! {

// ------------------------------------------------------------------
// Width monotonicity: replacing a child of a composite node with a
// wider alternative never decreases the node's minimum width.
// ------------------------------------------------------------------

pub proof fn lemma_items_width_update(s: Seq<ItemV>, j: int, r: ItemV)
    requires
        0 <= j < s.len(),
        width_of(s[j].fragment.ron_value) <= width_of(r.fragment.ron_value),
    ensures
        items_width(s) <= items_width(s.update(j, r)),
    decreases s.len(),
{
    if j == 0 {
        assert(s.update(0, r).drop_first() =~= s.drop_first());
        assert(s.update(0, r)[0] == r);
    } else {
        assert(s.update(j, r).drop_first() =~= s.drop_first().update(j - 1, r));
        assert(s.update(j, r)[0] == s[0]);
        lemma_items_width_update(s.drop_first(), j - 1, r);
    }
}

pub proof fn lemma_entries_width_update(s: Seq<(TextFragmentV, ItemV)>, j: int, r: (TextFragmentV, ItemV))
    requires
        0 <= j < s.len(),
        width_of(s[j].0.ron_value) <= width_of(r.0.ron_value),
        width_of(s[j].1.fragment.ron_value) <= width_of(r.1.fragment.ron_value),
    ensures
        entries_width(s) <= entries_width(s.update(j, r)),
    decreases s.len(),
{
    if j == 0 {
        assert(s.update(0, r).drop_first() =~= s.drop_first());
        assert(s.update(0, r)[0] == r);
    } else {
        assert(s.update(j, r).drop_first() =~= s.drop_first().update(j - 1, r));
        assert(s.update(j, r)[0] == s[0]);
        lemma_entries_width_update(s.drop_first(), j - 1, r);
    }
}

pub proof fn lemma_fields_width_update(s: Seq<(Seq<u8>, ItemV)>, j: int, r: (Seq<u8>, ItemV))
    requires
        0 <= j < s.len(),
        s[j].0.len() <= r.0.len(),
        width_of(s[j].1.fragment.ron_value) <= width_of(r.1.fragment.ron_value),
    ensures
        fields_width(s) <= fields_width(s.update(j, r)),
    decreases s.len(),
{
    if j == 0 {
        assert(s.update(0, r).drop_first() =~= s.drop_first());
        assert(s.update(0, r)[0] == r);
    } else {
        assert(s.update(j, r).drop_first() =~= s.drop_first().update(j - 1, r));
        assert(s.update(j, r)[0] == s[0]);
        lemma_fields_width_update(s.drop_first(), j - 1, r);
    }
}

/// Replacing one element of a list with a wider alternative never
/// decreases the list's minimum width.
pub proof fn lemma_width_monotonic_list(elements: Seq<ItemV>, j: int, r: ItemV)
    requires
        0 <= j < elements.len(),
        width_of(elements[j].fragment.ron_value) <= width_of(r.fragment.ron_value),
    ensures
        width_of(RonValueV::List(elements)) <= width_of(RonValueV::List(elements.update(j, r))),
{
    lemma_items_width_update(elements, j, r);
}

/// The same for a tuple, whose optional name contributes equally on both
/// sides.
pub proof fn lemma_width_monotonic_tuple(
    maybe_ident: Option<Seq<u8>>,
    elements: Seq<ItemV>,
    j: int,
    r: ItemV,
)
    requires
        0 <= j < elements.len(),
        width_of(elements[j].fragment.ron_value) <= width_of(r.fragment.ron_value),
    ensures
        width_of(RonValueV::TupleType { maybe_ident, elements }) <= width_of(
            RonValueV::TupleType { maybe_ident, elements: elements.update(j, r) },
        ),
{
    lemma_items_width_update(elements, j, r);
}

/// The same for a map, where the replaced entry's key and value are each
/// at least as wide as before.
pub proof fn lemma_width_monotonic_map(
    entries: Seq<(TextFragmentV, ItemV)>,
    j: int,
    r: (TextFragmentV, ItemV),
)
    requires
        0 <= j < entries.len(),
        width_of(entries[j].0.ron_value) <= width_of(r.0.ron_value),
        width_of(entries[j].1.fragment.ron_value) <= width_of(r.1.fragment.ron_value),
    ensures
        width_of(RonValueV::MapType(entries)) <= width_of(
            RonValueV::MapType(entries.update(j, r)),
        ),
{
    lemma_entries_width_update(entries, j, r);
}

/// The same for a record, where the replaced field's key and value are
/// each at least as wide as before.
pub proof fn lemma_width_monotonic_fields(
    maybe_ident: Option<Seq<u8>>,
    fields: Seq<(Seq<u8>, ItemV)>,
    j: int,
    r: (Seq<u8>, ItemV),
)
    requires
        0 <= j < fields.len(),
        fields[j].0.len() <= r.0.len(),
        width_of(fields[j].1.fragment.ron_value) <= width_of(r.1.fragment.ron_value),
    ensures
        width_of(RonValueV::FieldsType { maybe_ident, fields }) <= width_of(
            RonValueV::FieldsType { maybe_ident, fields: fields.update(j, r) },
        ),
{
    lemma_fields_width_update(fields, j, r);
}

// ------------------------------------------------------------------
// Layout decision laws.
// ------------------------------------------------------------------

/// Exact tie-break at the width threshold: a comment-free composite node
/// whose projected width equals the maximum still renders on one line;
/// one byte more and it expands.
pub proof fn lemma_threshold_tie_break(it: ItemV, depth: nat, c: Config)
    requires
        !(it.fragment.ron_value is Atom),
        child_count(it.fragment.ron_value) > 0,
        !item_has_trivia(it),
    ensures
        depth * c.soft_tab_width + it.fragment.minimum_length == c.max_line_width ==> !multiline(
            it,
            depth,
            c,
        ) && render_node(it, depth, c) == render_single(it.fragment.ron_value),
        depth * c.soft_tab_width + it.fragment.minimum_length == c.max_line_width + 1
            ==> multiline(it, depth, c) && render_node(it, depth, c) == render_multi(
            it.fragment.ron_value,
            depth,
            c,
        ),
{
}

/// Any attached comment — on the item itself or anywhere in its subtree —
/// forces a non-empty composite node to expand, whatever the width budget.
pub proof fn lemma_trivia_forces_expansion(it: ItemV, depth: nat, c: Config)
    requires
        !(it.fragment.ron_value is Atom),
        child_count(it.fragment.ron_value) > 0,
        item_has_trivia(it),
    ensures
        multiline(it, depth, c),
        render_node(it, depth, c) == render_multi(it.fragment.ron_value, depth, c),
{
}

/// An empty collection renders on one line under every configuration,
/// down to a maximum line width of zero.
pub proof fn lemma_empty_collection_floor(it: ItemV, depth: nat, c: Config)
    requires
        child_count(it.fragment.ron_value) == 0,
    ensures
        !multiline(it, depth, c),
        render_node(it, depth, c) == render_single(it.fragment.ron_value),
{
}

// ------------------------------------------------------------------
// Comments survive reformatting: every comment of a document appears
// in its canonical rendering, immediately followed by a line end, so
// nothing ever shares a line after a comment. The collectors in `ast`
// list a document's comments; keys contribute none, and a well-formed
// document holds none there. Where exactly a comment lands — its own
// line at its value's depth, or after the value's separator — is read
// off `child_line`, `entry_line`, `field_line` and `top_item`, which
// the proof walks.
// ------------------------------------------------------------------

/// `needle` occurs contiguously inside `hay`.
pub open spec fn contains_seg(hay: Seq<u8>, needle: Seq<u8>) -> bool {
    exists|a: int|
        0 <= a && a + needle.len() <= hay.len() && #[trigger] hay.subrange(a, a + needle.len())
            == needle
}

pub proof fn lemma_contains_left(x: Seq<u8>, y: Seq<u8>, n: Seq<u8>)
    requires
        contains_seg(x, n),
    ensures
        contains_seg(x + y, n),
{
    let a = choose|a: int|
        0 <= a && a + n.len() <= x.len() && #[trigger] x.subrange(a, a + n.len()) == n;
    assert((x + y).subrange(a, a + n.len()) =~= x.subrange(a, a + n.len()));
}

pub proof fn lemma_contains_right(x: Seq<u8>, y: Seq<u8>, n: Seq<u8>)
    requires
        contains_seg(y, n),
    ensures
        contains_seg(x + y, n),
{
    let a = choose|a: int|
        0 <= a && a + n.len() <= y.len() && #[trigger] y.subrange(a, a + n.len()) == n;
    assert((x + y).subrange(x.len() + a, x.len() + a + n.len()) =~= y.subrange(a, a + n.len()));
}

/// Each comment of a run occurs in the run's rendered lines, with the
/// newline that closes its line.
pub proof fn lemma_comment_lines_contain(cs: Seq<Seq<u8>>, w: nat, q: int)
    requires
        0 <= q < cs.len(),
    ensures
        contains_seg(comment_lines(cs, w), cs[q] + seq![NL]),
    decreases cs.len(),
{
    if q == 0 {
        let line = spaces(w) + cs[0] + seq![NL];
        let u = cs[0] + seq![NL];
        let a = spaces(w).len() as int;
        assert(line.subrange(a, a + u.len()) =~= u);
        lemma_contains_left(line, comment_lines(cs.drop_first(), w), u);
    } else {
        lemma_comment_lines_contain(cs.drop_first(), w, q - 1);
        lemma_contains_right(
            spaces(w) + cs[0] + seq![NL],
            comment_lines(cs.drop_first(), w),
            cs[q] + seq![NL],
        );
    }
}

/// Every comment below `v` occurs, with its closing newline, in `v`'s
/// expanded rendering.
pub proof fn lemma_value_comments_survive(v: RonValueV, depth: nat, c: Config)
    ensures
        forall|q: int|
            0 <= q < value_comments(v).len() ==> contains_seg(
                render_multi(v, depth, c),
                (#[trigger] value_comments(v)[q]) + seq![NL],
            ),
    decreases v, 0nat, 0nat,
{
    match v {
        RonValueV::Atom(_) => {},
        RonValueV::List(elements) => {
            lemma_items_comments_survive(elements, depth + 1, c);
            assert forall|q: int| 0 <= q < value_comments(v).len() implies contains_seg(
                render_multi(v, depth, c),
                (#[trigger] value_comments(v)[q]) + seq![NL],
            ) by {
                let n = items_comments(elements)[q] + seq![NL];
                lemma_contains_right(seq![91u8, NL], multi_items(elements, depth + 1, c), n);
                lemma_contains_left(
                    seq![91u8, NL] + multi_items(elements, depth + 1, c),
                    spaces(ind(depth, c)),
                    n,
                );
                lemma_contains_left(
                    seq![91u8, NL] + multi_items(elements, depth + 1, c) + spaces(ind(depth, c)),
                    seq![93u8],
                    n,
                );
            }
        },
        RonValueV::MapType(entries) => {
            lemma_entries_comments_survive(entries, depth + 1, c);
            assert forall|q: int| 0 <= q < value_comments(v).len() implies contains_seg(
                render_multi(v, depth, c),
                (#[trigger] value_comments(v)[q]) + seq![NL],
            ) by {
                let n = entries_comments(entries)[q] + seq![NL];
                lemma_contains_right(seq![123u8, NL], multi_entries(entries, depth + 1, c), n);
                lemma_contains_left(
                    seq![123u8, NL] + multi_entries(entries, depth + 1, c),
                    spaces(ind(depth, c)),
                    n,
                );
                lemma_contains_left(
                    seq![123u8, NL] + multi_entries(entries, depth + 1, c) + spaces(ind(depth, c)),
                    seq![125u8],
                    n,
                );
            }
        },
        RonValueV::TupleType { maybe_ident, elements } => {
            lemma_items_comments_survive(elements, depth + 1, c);
            assert forall|q: int| 0 <= q < value_comments(v).len() implies contains_seg(
                render_multi(v, depth, c),
                (#[trigger] value_comments(v)[q]) + seq![NL],
            ) by {
                let n = items_comments(elements)[q] + seq![NL];
                let h = crate::display::opt_ident(maybe_ident) + seq![40u8, NL];
                lemma_contains_right(h, multi_items(elements, depth + 1, c), n);
                lemma_contains_left(
                    h + multi_items(elements, depth + 1, c),
                    spaces(ind(depth, c)),
                    n,
                );
                lemma_contains_left(
                    h + multi_items(elements, depth + 1, c) + spaces(ind(depth, c)),
                    seq![41u8],
                    n,
                );
            }
        },
        RonValueV::FieldsType { maybe_ident, fields } => {
            lemma_fields_comments_survive(fields, depth + 1, c);
            assert forall|q: int| 0 <= q < value_comments(v).len() implies contains_seg(
                render_multi(v, depth, c),
                (#[trigger] value_comments(v)[q]) + seq![NL],
            ) by {
                let n = fields_comments(fields)[q] + seq![NL];
                let h = crate::display::opt_ident(maybe_ident) + seq![40u8, NL];
                lemma_contains_right(h, multi_fields(fields, depth + 1, c), n);
                lemma_contains_left(
                    h + multi_fields(fields, depth + 1, c),
                    spaces(ind(depth, c)),
                    n,
                );
                lemma_contains_left(
                    h + multi_fields(fields, depth + 1, c) + spaces(ind(depth, c)),
                    seq![41u8],
                    n,
                );
            }
        },
    }
}

/// Every comment of an item — `pre`, inside the value, `eol`, `post` —
/// occurs, with its closing newline, in the item's expanded child line.
pub proof fn lemma_item_comments_survive(it: ItemV, depth: nat, c: Config)
    ensures
        forall|q: int|
            0 <= q < item_comments(it).len() ==> contains_seg(
                child_line(it, depth, c),
                (#[trigger] item_comments(it)[q]) + seq![NL],
            ),
    decreases it, 6nat, 0nat,
{
    let w = ind(depth, c);
    let a1 = comment_lines(it.pre, w);
    let a2 = a1 + spaces(w);
    let a3 = a2 + render_node(it, depth, c);
    let a4 = a3 + seq![COMMA];
    let a5 = a4 + eol_part(it.eol);
    let a6 = a5 + seq![NL];
    assert(child_line(it, depth, c) == a6 + comment_lines(it.post, w));
    lemma_value_comments_trivia(it.fragment.ron_value);
    if value_comments(it.fragment.ron_value).len() > 0 {
        assert(multiline(it, depth, c));
        lemma_value_comments_survive(it.fragment.ron_value, depth, c);
    }
    let pl = it.pre.len() as int;
    let vl = value_comments(it.fragment.ron_value).len() as int;
    let el = opt_comment(it.eol).len() as int;
    assert forall|q: int| 0 <= q < item_comments(it).len() implies contains_seg(
        child_line(it, depth, c),
        (#[trigger] item_comments(it)[q]) + seq![NL],
    ) by {
        let n = item_comments(it)[q] + seq![NL];
        if q < pl {
            assert(item_comments(it)[q] == it.pre[q]);
            lemma_comment_lines_contain(it.pre, w, q);
            lemma_contains_left(a1, spaces(w), n);
            lemma_contains_left(a2, render_node(it, depth, c), n);
            lemma_contains_left(a3, seq![COMMA], n);
            lemma_contains_left(a4, eol_part(it.eol), n);
            lemma_contains_left(a5, seq![NL], n);
            lemma_contains_left(a6, comment_lines(it.post, w), n);
        } else if q < pl + vl {
            assert(item_comments(it)[q] == value_comments(it.fragment.ron_value)[q - pl]);
            lemma_contains_right(a2, render_node(it, depth, c), n);
            lemma_contains_left(a3, seq![COMMA], n);
            lemma_contains_left(a4, eol_part(it.eol), n);
            lemma_contains_left(a5, seq![NL], n);
            lemma_contains_left(a6, comment_lines(it.post, w), n);
        } else if q < pl + vl + el {
            match it.eol {
                Some(t) => {
                    assert(item_comments(it)[q] == t);
                    let u = t + seq![NL];
                    let a = a4.len() + 1int;
                    assert(a6.subrange(a, a + u.len()) =~= u);
                    lemma_contains_left(a6, comment_lines(it.post, w), n);
                },
                None => {},
            }
        } else {
            assert(item_comments(it)[q] == it.post[q - pl - vl - el]);
            lemma_comment_lines_contain(it.post, w, q - pl - vl - el);
            lemma_contains_right(a6, comment_lines(it.post, w), n);
        }
    }
}

pub proof fn lemma_items_comments_survive(s: Seq<ItemV>, depth: nat, c: Config)
    ensures
        forall|q: int|
            0 <= q < items_comments(s).len() ==> contains_seg(
                multi_items(s, depth, c),
                (#[trigger] items_comments(s)[q]) + seq![NL],
            ),
    decreases s, 7nat, 0nat,
{
    if s.len() > 0 {
        lemma_item_comments_survive(s[0], depth, c);
        lemma_items_comments_survive(s.drop_first(), depth, c);
        assert forall|q: int| 0 <= q < items_comments(s).len() implies contains_seg(
            multi_items(s, depth, c),
            (#[trigger] items_comments(s)[q]) + seq![NL],
        ) by {
            let hl = item_comments(s[0]).len() as int;
            if q < hl {
                assert(items_comments(s)[q] == item_comments(s[0])[q]);
                lemma_contains_left(
                    child_line(s[0], depth, c),
                    multi_items(s.drop_first(), depth, c),
                    items_comments(s)[q] + seq![NL],
                );
            } else {
                assert(items_comments(s)[q] == items_comments(s.drop_first())[q - hl]);
                lemma_contains_right(
                    child_line(s[0], depth, c),
                    multi_items(s.drop_first(), depth, c),
                    items_comments(s)[q] + seq![NL],
                );
            }
        }
    }
}

/// Every comment of a map entry's value occurs, with its closing
/// newline, in the entry's expanded line; the key holds none.
pub proof fn lemma_entry_comments_survive(e: (TextFragmentV, ItemV), depth: nat, c: Config)
    ensures
        forall|q: int|
            0 <= q < item_comments(e.1).len() ==> contains_seg(
                entry_line(e, depth, c),
                (#[trigger] item_comments(e.1)[q]) + seq![NL],
            ),
    decreases e, 6nat, 0nat,
{
    let w = ind(depth, c);
    let it = e.1;
    let a1 = comment_lines(it.pre, w);
    let a2 = a1 + spaces(w);
    let a2b = a2 + render_single(e.0.ron_value);
    let a2c = a2b + colon_sp();
    let a3 = a2c + render_node(it, depth, c);
    let a4 = a3 + seq![COMMA];
    let a5 = a4 + eol_part(it.eol);
    let a6 = a5 + seq![NL];
    assert(entry_line(e, depth, c) == a6 + comment_lines(it.post, w));
    lemma_value_comments_trivia(it.fragment.ron_value);
    if value_comments(it.fragment.ron_value).len() > 0 {
        assert(multiline(it, depth, c));
        lemma_value_comments_survive(it.fragment.ron_value, depth, c);
    }
    let pl = it.pre.len() as int;
    let vl = value_comments(it.fragment.ron_value).len() as int;
    let el = opt_comment(it.eol).len() as int;
    assert forall|q: int| 0 <= q < item_comments(it).len() implies contains_seg(
        entry_line(e, depth, c),
        (#[trigger] item_comments(it)[q]) + seq![NL],
    ) by {
        let n = item_comments(it)[q] + seq![NL];
        if q < pl {
            assert(item_comments(it)[q] == it.pre[q]);
            lemma_comment_lines_contain(it.pre, w, q);
            lemma_contains_left(a1, spaces(w), n);
            lemma_contains_left(a2, render_single(e.0.ron_value), n);
            lemma_contains_left(a2b, colon_sp(), n);
            lemma_contains_left(a2c, render_node(it, depth, c), n);
            lemma_contains_left(a3, seq![COMMA], n);
            lemma_contains_left(a4, eol_part(it.eol), n);
            lemma_contains_left(a5, seq![NL], n);
            lemma_contains_left(a6, comment_lines(it.post, w), n);
        } else if q < pl + vl {
            assert(item_comments(it)[q] == value_comments(it.fragment.ron_value)[q - pl]);
            lemma_contains_right(a2c, render_node(it, depth, c), n);
            lemma_contains_left(a3, seq![COMMA], n);
            lemma_contains_left(a4, eol_part(it.eol), n);
            lemma_contains_left(a5, seq![NL], n);
            lemma_contains_left(a6, comment_lines(it.post, w), n);
        } else if q < pl + vl + el {
            match it.eol {
                Some(t) => {
                    assert(item_comments(it)[q] == t);
                    let u = t + seq![NL];
                    let a = a4.len() + 1int;
                    assert(a6.subrange(a, a + u.len()) =~= u);
                    lemma_contains_left(a6, comment_lines(it.post, w), n);
                },
                None => {},
            }
        } else {
            assert(item_comments(it)[q] == it.post[q - pl - vl - el]);
            lemma_comment_lines_contain(it.post, w, q - pl - vl - el);
            lemma_contains_right(a6, comment_lines(it.post, w), n);
        }
    }
}

pub proof fn lemma_entries_comments_survive(s: Seq<(TextFragmentV, ItemV)>, depth: nat, c: Config)
    ensures
        forall|q: int|
            0 <= q < entries_comments(s).len() ==> contains_seg(
                multi_entries(s, depth, c),
                (#[trigger] entries_comments(s)[q]) + seq![NL],
            ),
    decreases s, 7nat, 0nat,
{
    if s.len() > 0 {
        lemma_entry_comments_survive(s[0], depth, c);
        lemma_entries_comments_survive(s.drop_first(), depth, c);
        assert forall|q: int| 0 <= q < entries_comments(s).len() implies contains_seg(
            multi_entries(s, depth, c),
            (#[trigger] entries_comments(s)[q]) + seq![NL],
        ) by {
            let hl = item_comments(s[0].1).len() as int;
            if q < hl {
                assert(entries_comments(s)[q] == item_comments(s[0].1)[q]);
                lemma_contains_left(
                    entry_line(s[0], depth, c),
                    multi_entries(s.drop_first(), depth, c),
                    entries_comments(s)[q] + seq![NL],
                );
            } else {
                assert(entries_comments(s)[q] == entries_comments(s.drop_first())[q - hl]);
                lemma_contains_right(
                    entry_line(s[0], depth, c),
                    multi_entries(s.drop_first(), depth, c),
                    entries_comments(s)[q] + seq![NL],
                );
            }
        }
    }
}

pub proof fn lemma_field_comments_survive(f: (Seq<u8>, ItemV), depth: nat, c: Config)
    ensures
        forall|q: int|
            0 <= q < item_comments(f.1).len() ==> contains_seg(
                field_line(f, depth, c),
                (#[trigger] item_comments(f.1)[q]) + seq![NL],
            ),
    decreases f, 6nat, 0nat,
{
    let w = ind(depth, c);
    let it = f.1;
    let a1 = comment_lines(it.pre, w);
    let a2 = a1 + spaces(w);
    let a2b = a2 + f.0;
    let a2c = a2b + colon_sp();
    let a3 = a2c + render_node(it, depth, c);
    let a4 = a3 + seq![COMMA];
    let a5 = a4 + eol_part(it.eol);
    let a6 = a5 + seq![NL];
    assert(field_line(f, depth, c) == a6 + comment_lines(it.post, w));
    lemma_value_comments_trivia(it.fragment.ron_value);
    if value_comments(it.fragment.ron_value).len() > 0 {
        assert(multiline(it, depth, c));
        lemma_value_comments_survive(it.fragment.ron_value, depth, c);
    }
    let pl = it.pre.len() as int;
    let vl = value_comments(it.fragment.ron_value).len() as int;
    let el = opt_comment(it.eol).len() as int;
    assert forall|q: int| 0 <= q < item_comments(it).len() implies contains_seg(
        field_line(f, depth, c),
        (#[trigger] item_comments(it)[q]) + seq![NL],
    ) by {
        let n = item_comments(it)[q] + seq![NL];
        if q < pl {
            assert(item_comments(it)[q] == it.pre[q]);
            lemma_comment_lines_contain(it.pre, w, q);
            lemma_contains_left(a1, spaces(w), n);
            lemma_contains_left(a2, f.0, n);
            lemma_contains_left(a2b, colon_sp(), n);
            lemma_contains_left(a2c, render_node(it, depth, c), n);
            lemma_contains_left(a3, seq![COMMA], n);
            lemma_contains_left(a4, eol_part(it.eol), n);
            lemma_contains_left(a5, seq![NL], n);
            lemma_contains_left(a6, comment_lines(it.post, w), n);
        } else if q < pl + vl {
            assert(item_comments(it)[q] == value_comments(it.fragment.ron_value)[q - pl]);
            lemma_contains_right(a2c, render_node(it, depth, c), n);
            lemma_contains_left(a3, seq![COMMA], n);
            lemma_contains_left(a4, eol_part(it.eol), n);
            lemma_contains_left(a5, seq![NL], n);
            lemma_contains_left(a6, comment_lines(it.post, w), n);
        } else if q < pl + vl + el {
            match it.eol {
                Some(t) => {
                    assert(item_comments(it)[q] == t);
                    let u = t + seq![NL];
                    let a = a4.len() + 1int;
                    assert(a6.subrange(a, a + u.len()) =~= u);
                    lemma_contains_left(a6, comment_lines(it.post, w), n);
                },
                None => {},
            }
        } else {
            assert(item_comments(it)[q] == it.post[q - pl - vl - el]);
            lemma_comment_lines_contain(it.post, w, q - pl - vl - el);
            lemma_contains_right(a6, comment_lines(it.post, w), n);
        }
    }
}

pub proof fn lemma_fields_comments_survive(s: Seq<(Seq<u8>, ItemV)>, depth: nat, c: Config)
    ensures
        forall|q: int|
            0 <= q < fields_comments(s).len() ==> contains_seg(
                multi_fields(s, depth, c),
                (#[trigger] fields_comments(s)[q]) + seq![NL],
            ),
    decreases s, 7nat, 0nat,
{
    if s.len() > 0 {
        lemma_field_comments_survive(s[0], depth, c);
        lemma_fields_comments_survive(s.drop_first(), depth, c);
        assert forall|q: int| 0 <= q < fields_comments(s).len() implies contains_seg(
            multi_fields(s, depth, c),
            (#[trigger] fields_comments(s)[q]) + seq![NL],
        ) by {
            let hl = item_comments(s[0].1).len() as int;
            if q < hl {
                assert(fields_comments(s)[q] == item_comments(s[0].1)[q]);
                lemma_contains_left(
                    field_line(s[0], depth, c),
                    multi_fields(s.drop_first(), depth, c),
                    fields_comments(s)[q] + seq![NL],
                );
            } else {
                assert(fields_comments(s)[q] == fields_comments(s.drop_first())[q - hl]);
                lemma_contains_right(
                    field_line(s[0], depth, c),
                    multi_fields(s.drop_first(), depth, c),
                    fields_comments(s)[q] + seq![NL],
                );
            }
        }
    }
}

pub proof fn lemma_top_item_comments_survive(it: ItemV, c: Config)
    ensures
        forall|q: int|
            0 <= q < item_comments(it).len() ==> contains_seg(
                top_item(it, c),
                (#[trigger] item_comments(it)[q]) + seq![NL],
            ),
    decreases it, 6nat, 0nat,
{
    let a1 = comment_lines(it.pre, 0);
    let a3 = a1 + render_node(it, 0, c);
    let a5 = a3 + eol_part(it.eol);
    let a6 = a5 + seq![NL];
    assert(top_item(it, c) == a6 + comment_lines(it.post, 0));
    lemma_value_comments_trivia(it.fragment.ron_value);
    if value_comments(it.fragment.ron_value).len() > 0 {
        assert(multiline(it, 0, c));
        lemma_value_comments_survive(it.fragment.ron_value, 0, c);
    }
    let pl = it.pre.len() as int;
    let vl = value_comments(it.fragment.ron_value).len() as int;
    let el = opt_comment(it.eol).len() as int;
    assert forall|q: int| 0 <= q < item_comments(it).len() implies contains_seg(
        top_item(it, c),
        (#[trigger] item_comments(it)[q]) + seq![NL],
    ) by {
        let n = item_comments(it)[q] + seq![NL];
        if q < pl {
            assert(item_comments(it)[q] == it.pre[q]);
            lemma_comment_lines_contain(it.pre, 0, q);
            lemma_contains_left(a1, render_node(it, 0, c), n);
            lemma_contains_left(a3, eol_part(it.eol), n);
            lemma_contains_left(a5, seq![NL], n);
            lemma_contains_left(a6, comment_lines(it.post, 0), n);
        } else if q < pl + vl {
            assert(item_comments(it)[q] == value_comments(it.fragment.ron_value)[q - pl]);
            lemma_contains_right(a1, render_node(it, 0, c), n);
            lemma_contains_left(a3, eol_part(it.eol), n);
            lemma_contains_left(a5, seq![NL], n);
            lemma_contains_left(a6, comment_lines(it.post, 0), n);
        } else if q < pl + vl + el {
            match it.eol {
                Some(t) => {
                    assert(item_comments(it)[q] == t);
                    let u = t + seq![NL];
                    let a = a3.len() + 1int;
                    assert(a6.subrange(a, a + u.len()) =~= u);
                    lemma_contains_left(a6, comment_lines(it.post, 0), n);
                },
                None => {},
            }
        } else {
            assert(item_comments(it)[q] == it.post[q - pl - vl - el]);
            lemma_comment_lines_contain(it.post, 0, q - pl - vl - el);
            lemma_contains_right(a6, comment_lines(it.post, 0), n);
        }
    }
}

pub proof fn lemma_top_items_comments_survive(s: Seq<ItemV>, c: Config)
    ensures
        forall|q: int|
            0 <= q < items_comments(s).len() ==> contains_seg(
                top_items(s, c),
                (#[trigger] items_comments(s)[q]) + seq![NL],
            ),
    decreases s, 7nat, 0nat,
{
    if s.len() > 0 {
        lemma_top_item_comments_survive(s[0], c);
        lemma_top_items_comments_survive(s.drop_first(), c);
        assert forall|q: int| 0 <= q < items_comments(s).len() implies contains_seg(
            top_items(s, c),
            (#[trigger] items_comments(s)[q]) + seq![NL],
        ) by {
            let hl = item_comments(s[0]).len() as int;
            if q < hl {
                assert(items_comments(s)[q] == item_comments(s[0])[q]);
                lemma_contains_left(
                    top_item(s[0], c),
                    top_items(s.drop_first(), c),
                    items_comments(s)[q] + seq![NL],
                );
            } else {
                assert(items_comments(s)[q] == items_comments(s.drop_first())[q - hl]);
                lemma_contains_right(
                    top_item(s[0], c),
                    top_items(s.drop_first(), c),
                    items_comments(s)[q] + seq![NL],
                );
            }
        }
    }
}

/// Comments survive reformatting: every comment of a document occurs in
/// the canonical rendering, immediately followed by a line end, under
/// every configuration — nothing ever shares a line after a comment.
/// Map keys hold no comments in a well-formed document (the parser
/// refuses them), so this covers every comment the parser admits; the
/// only documented loss is a comment run with no adjacent value, which
/// never enters the document at all.
pub proof fn lemma_comments_survive(d: FileTextV, c: Config)
    ensures
        forall|q: int|
            0 <= q < doc_comments(d).len() ==> contains_seg(
                render_doc(d, c),
                (#[trigger] doc_comments(d)[q]) + seq![NL],
            ),
{
    lemma_top_items_comments_survive(d.items, c);
    assert forall|q: int| 0 <= q < doc_comments(d).len() implies contains_seg(
        render_doc(d, c),
        (#[trigger] doc_comments(d)[q]) + seq![NL],
    ) by {
        lemma_contains_right(
            render_header(d.extensions),
            top_items(d.items, c),
            doc_comments(d)[q] + seq![NL],
        );
    }
}

// ------------------------------------------------------------------
// A family of canonical fixed points, witnessing idempotence: a bare
// word atom on its own line formats to itself, through the whole
// pipeline — lexing, parsing, and rendering.
// ------------------------------------------------------------------

/// A document consisting of one bare atom followed by a newline is its
/// own canonical form: `format_spec` maps it to itself under every
/// configuration. In particular, formatting such text twice equals
/// formatting it once.
pub proof fn lemma_format_fixed_point_word_atom(w: Seq<u8>, c: Config)
    requires
        w.len() > 0,
        forall|k: int| 0 <= k < w.len() ==> is_word_byte(#[trigger] w[k]),
    ensures
        format_spec(w + seq![NL], c) == Ok::<Seq<u8>, ParseError>(w + seq![NL]),
{
    let s = w + seq![NL];
    assert(s.len() == w.len() + 1);
    assert(s[w.len() as int] == NL);
    assert(forall|k: int| 0 <= k < w.len() ==> s[k] == #[trigger] w[k]);

    // the lexer reads one word token and stops at the newline
    lemma_scan_word_end_run(s, 0, w.len());
    assert(s.subrange(0, w.len() as int) =~= w);
    assert(lex_from(s, w.len() + 1, true) == Ok::<Seq<TokenV>, ParseError>(Seq::empty()));
    assert(lex_from(s, w.len(), false) == Ok::<Seq<TokenV>, ParseError>(Seq::empty()));
    assert(lex_from(s, 0, true) == lex_cons(TokenV::Word(w), lex_from(s, w.len(), false)));
    let toks = seq![TokenV::Word(w)];
    assert(seq![TokenV::Word(w)] + Seq::<TokenV>::empty() =~= toks);
    assert(lex_spec(s) == Ok::<Seq<TokenV>, ParseError>(toks));

    // the parser builds a single atom item with no trivia
    let frag = TextFragmentV { minimum_length: w.len(), ron_value: RonValueV::Atom(w) };
    assert(sp_value(toks, 0) == Ok::<(TextFragmentV, nat), ParseError>((frag, 1)));
    assert(sp_eol(toks, 1) == (Option::<Seq<u8>>::None, 1nat));
    let item = ItemV { pre: Seq::empty(), fragment: frag, eol: None, post: Seq::empty() };
    let d = FileTextV { extensions: Seq::empty(), items: seq![item] };
    assert(sp_top(toks, 1) == Ok::<(Seq<Seq<u8>>, Seq<ItemV>, Seq<Seq<u8>>), ParseError>(
        (Seq::empty(), Seq::empty(), Seq::empty()),
    ));
    assert(seq![item] + Seq::<ItemV>::empty() =~= seq![item]);
    assert(sp_top(toks, 0) == Ok::<(Seq<Seq<u8>>, Seq<ItemV>, Seq<Seq<u8>>), ParseError>(
        (Seq::empty(), seq![item], Seq::empty()),
    ));
    assert(sort_dedup(Seq::<Seq<u8>>::empty()) == Seq::<Seq<u8>>::empty());
    assert(sp_parse(toks) == Ok::<FileTextV, ParseError>(d));
    assert(parse_spec(s) == Ok::<FileTextV, ParseError>(d));

    // rendering puts the atom back on its own line
    assert(!multiline(item, 0, c));
    assert(render_node(item, 0, c) == w);
    assert(comment_lines(Seq::empty(), 0) =~= Seq::<u8>::empty());
    assert(top_item(item, c) =~= s);
    assert(top_items(seq![item], c) =~= s) by {
        assert(seq![item].drop_first() =~= Seq::<ItemV>::empty());
        assert(top_item(item, c) + top_items(Seq::<ItemV>::empty(), c) =~= top_item(item, c));
    };
    assert(render_doc(d, c) =~= s);
}

} // verus!

use vstd::prelude::*;
use crate::ast::{
    FileText, FileTextV, Item, ItemV, RonValue, RonValueV, TextFragment, TextFragmentV,
    child_count, item_has_trivia, value_has_trivia, trivia_in_entries, trivia_in_fields,
    trivia_in_items, item_view, items_view, entries_view, fields_view, texts_view, opt_text_view,
    value_view, frag_view, file_view, lemma_items_view, lemma_entries_view, lemma_fields_view,
    lemma_texts_view,
};
use crate::config::Config;

verus! {

pub const NL: u8 = 10;

pub const SPACE: u8 = 32;

pub const COMMA: u8 = 44;

pub const COLON: u8 = 58;

/// `n` space bytes.
pub open spec fn spaces(n: nat) -> Seq<u8>
    decreases n,
{
    if n == 0 {
        Seq::empty()
    } else {
        spaces((n - 1) as nat).push(SPACE)
    }
}

pub proof fn lemma_spaces_len(n: nat)
    ensures
        spaces(n).len() == n,
    decreases n,
{
    if n > 0 {
        lemma_spaces_len((n - 1) as nat);
    }
}

pub proof fn lemma_spaces_add(a: nat, b: nat)
    ensures
        spaces(a + b) == spaces(a) + spaces(b),
    decreases b,
{
    if b == 0 {
        assert(spaces(a + b) =~= spaces(a) + spaces(b));
    } else {
        lemma_spaces_add(a, (b - 1) as nat);
        assert(spaces(a + b) =~= spaces(a) + spaces(b));
    }
}

pub open spec fn opt_ident(maybe_ident: Option<Seq<u8>>) -> Seq<u8> {
    match maybe_ident {
        Some(id) => id,
        None => Seq::empty(),
    }
}

/// `", "`, the separator between compact siblings.
pub open spec fn comma_sp() -> Seq<u8> {
    seq![COMMA, SPACE]
}

/// `": "`, the separator between a key and its value.
pub open spec fn colon_sp() -> Seq<u8> {
    seq![COLON, SPACE]
}

/// Indentation width at `depth`: `depth * soft_tab_width` spaces.
pub open spec fn ind(depth: nat, c: Config) -> nat {
    (depth * c.soft_tab_width) as nat
}

/// One line per comment: indentation, the comment text verbatim, newline.
pub open spec fn comment_lines(cs: Seq<Seq<u8>>, ind: nat) -> Seq<u8>
    decreases cs,
{
    if cs.len() == 0 {
        Seq::empty()
    } else {
        spaces(ind) + cs[0] + seq![NL] + comment_lines(cs.drop_first(), ind)
    }
}

/// A same-line trailing comment is separated from what precedes it by one
/// space; absent, it contributes nothing.
pub open spec fn eol_part(eol: Option<Seq<u8>>) -> Seq<u8> {
    match eol {
        Some(t) => seq![SPACE] + t,
        None => Seq::empty(),
    }
}

/// The single-line/multi-line decision for the value wrapped by `it` at
/// indentation depth `depth`. Atoms and empty collections are always
/// single-line; otherwise any attached comment forces expansion, and so
/// does a projected width beyond the configured maximum. Width `<=` the
/// maximum stays on one line; the first byte over expands.
pub open spec fn multiline(it: ItemV, depth: nat, c: Config) -> bool {
    &&& !(it.fragment.ron_value is Atom)
    &&& child_count(it.fragment.ron_value) > 0
    &&& (item_has_trivia(it) || depth * c.soft_tab_width + it.fragment.minimum_length
        > c.max_line_width)
}

/// Compact rendering: the whole subtree on one line, every descendant in
/// its own most-compact form.
pub open spec fn render_single(v: RonValueV) -> Seq<u8>
    decreases v, 0nat, 0nat,
{
    match v {
        RonValueV::Atom(text) => text,
        RonValueV::List(elements) => seq![91u8] + single_items(elements) + seq![93u8],
        RonValueV::MapType(entries) => seq![123u8] + single_entries(entries) + seq![125u8],
        RonValueV::TupleType { maybe_ident, elements } => opt_ident(maybe_ident) + seq![40u8]
            + single_items(elements) + seq![41u8],
        RonValueV::FieldsType { maybe_ident, fields } => opt_ident(maybe_ident) + seq![40u8]
            + single_fields(fields) + seq![41u8],
    }
}

pub open spec fn single_items(s: Seq<ItemV>) -> Seq<u8>
    decreases s, 1nat, 0nat,
{
    if s.len() == 0 {
        Seq::empty()
    } else if s.len() == 1 {
        render_single(s[0].fragment.ron_value)
    } else {
        render_single(s[0].fragment.ron_value) + comma_sp() + single_items(s.drop_first())
    }
}

pub open spec fn single_entries(s: Seq<(TextFragmentV, ItemV)>) -> Seq<u8>
    decreases s, 1nat, 0nat,
{
    if s.len() == 0 {
        Seq::empty()
    } else if s.len() == 1 {
        render_single(s[0].0.ron_value) + colon_sp() + render_single(s[0].1.fragment.ron_value)
    } else {
        render_single(s[0].0.ron_value) + colon_sp() + render_single(s[0].1.fragment.ron_value)
            + comma_sp() + single_entries(s.drop_first())
    }
}

pub open spec fn single_fields(s: Seq<(Seq<u8>, ItemV)>) -> Seq<u8>
    decreases s, 1nat, 0nat,
{
    if s.len() == 0 {
        Seq::empty()
    } else if s.len() == 1 {
        s[0].0 + colon_sp() + render_single(s[0].1.fragment.ron_value)
    } else {
        s[0].0 + colon_sp() + render_single(s[0].1.fragment.ron_value) + comma_sp()
            + single_fields(s.drop_first())
    }
}

/// Rendering of the value wrapped by `it`, at depth `depth`: compact or
/// expanded as `multiline` decides. The wrapping trivia itself is emitted
/// by the surrounding line, not here.
pub open spec fn render_node(it: ItemV, depth: nat, c: Config) -> Seq<u8>
    decreases it, 3nat, 0nat,
{
    if multiline(it, depth, c) {
        render_multi(it.fragment.ron_value, depth, c)
    } else {
        render_single(it.fragment.ron_value)
    }
}

/// Expanded rendering: opening delimiter (after the name, if any), one
/// child per line at depth + 1, each line closed by a comma, then the
/// closing delimiter at the parent's own indentation.
pub open spec fn render_multi(v: RonValueV, depth: nat, c: Config) -> Seq<u8>
    decreases v, 0nat, 0nat,
{
    match v {
        RonValueV::Atom(text) => text,
        RonValueV::List(elements) => seq![91u8, NL] + multi_items(elements, depth + 1, c) + spaces(
            ind(depth, c),
        ) + seq![93u8],
        RonValueV::MapType(entries) => seq![123u8, NL] + multi_entries(entries, depth + 1, c)
            + spaces(ind(depth, c)) + seq![125u8],
        RonValueV::TupleType { maybe_ident, elements } => opt_ident(maybe_ident) + seq![40u8, NL]
            + multi_items(elements, depth + 1, c) + spaces(ind(depth, c)) + seq![41u8],
        RonValueV::FieldsType { maybe_ident, fields } => opt_ident(maybe_ident) + seq![40u8, NL]
            + multi_fields(fields, depth + 1, c) + spaces(ind(depth, c)) + seq![41u8],
    }
}

/// One expanded child: its `pre` comment lines, then its own line — the
/// value, a trailing comma, the `eol` comment if any — then its `post`
/// comment lines, all at the child depth.
pub open spec fn child_line(it: ItemV, depth: nat, c: Config) -> Seq<u8>
    decreases it, 4nat, 0nat,
{
    comment_lines(it.pre, ind(depth, c)) + spaces(ind(depth, c)) + render_node(it, depth, c)
        + seq![COMMA] + eol_part(it.eol) + seq![NL] + comment_lines(it.post, ind(depth, c))
}

pub open spec fn multi_items(s: Seq<ItemV>, depth: nat, c: Config) -> Seq<u8>
    decreases s, 5nat, 0nat,
{
    if s.len() == 0 {
        Seq::empty()
    } else {
        child_line(s[0], depth, c) + multi_items(s.drop_first(), depth, c)
    }
}

/// A map entry's line carries the key compactly, then `: `, then the value
/// as `render_node` decides; the entry's trivia is the value item's.
pub open spec fn entry_line(e: (TextFragmentV, ItemV), depth: nat, c: Config) -> Seq<u8>
    decreases e, 4nat, 0nat,
{
    comment_lines(e.1.pre, ind(depth, c)) + spaces(ind(depth, c)) + render_single(e.0.ron_value)
        + colon_sp() + render_node(e.1, depth, c) + seq![COMMA] + eol_part(e.1.eol) + seq![NL]
        + comment_lines(e.1.post, ind(depth, c))
}

pub open spec fn multi_entries(s: Seq<(TextFragmentV, ItemV)>, depth: nat, c: Config) -> Seq<u8>
    decreases s, 5nat, 0nat,
{
    if s.len() == 0 {
        Seq::empty()
    } else {
        entry_line(s[0], depth, c) + multi_entries(s.drop_first(), depth, c)
    }
}

pub open spec fn field_line(f: (Seq<u8>, ItemV), depth: nat, c: Config) -> Seq<u8>
    decreases f, 4nat, 0nat,
{
    comment_lines(f.1.pre, ind(depth, c)) + spaces(ind(depth, c)) + f.0 + colon_sp() + render_node(
        f.1,
        depth,
        c,
    ) + seq![COMMA] + eol_part(f.1.eol) + seq![NL] + comment_lines(f.1.post, ind(depth, c))
}

pub open spec fn multi_fields(s: Seq<(Seq<u8>, ItemV)>, depth: nat, c: Config) -> Seq<u8>
    decreases s, 5nat, 0nat,
{
    if s.len() == 0 {
        Seq::empty()
    } else {
        field_line(s[0], depth, c) + multi_fields(s.drop_first(), depth, c)
    }
}

/// A top-level item: `pre` comments, the value at depth 0 with no trailing
/// comma, its `eol` comment, a newline, then `post` comments.
pub open spec fn top_item(it: ItemV, c: Config) -> Seq<u8> {
    comment_lines(it.pre, 0) + render_node(it, 0, c) + eol_part(it.eol) + seq![NL] + comment_lines(
        it.post,
        0,
    )
}

pub open spec fn top_items(s: Seq<ItemV>, c: Config) -> Seq<u8>
    decreases s,
{
    if s.len() == 0 {
        Seq::empty()
    } else {
        top_item(s[0], c) + top_items(s.drop_first(), c)
    }
}

pub open spec fn join_exts(s: Seq<Seq<u8>>) -> Seq<u8>
    decreases s,
{
    if s.len() == 0 {
        Seq::empty()
    } else if s.len() == 1 {
        s[0]
    } else {
        s[0] + comma_sp() + join_exts(s.drop_first())
    }
}

/// The bytes of `#![enable(`.
pub open spec fn header_open() -> Seq<u8> {
    seq![35u8, 33u8, 91u8, 101u8, 110u8, 97u8, 98u8, 108u8, 101u8, 40u8]
}

/// The header line followed by a blank separator line, or nothing when the
/// extension set is empty.
pub open spec fn render_header(exts: Seq<Seq<u8>>) -> Seq<u8> {
    if exts.len() == 0 {
        Seq::empty()
    } else {
        header_open() + join_exts(exts) + seq![41u8, 93u8, NL, NL]
    }
}

/// The canonical text of a whole document.
pub open spec fn render_doc(d: FileTextV, c: Config) -> Seq<u8> {
    render_header(d.extensions) + top_items(d.items, c)
}

// ------------------------------------------------------------------
// Executable emitter.
// ------------------------------------------------------------------

/// Appends all of `v` to `out`.
fn push_bytes(out: &mut Vec<u8>, v: &Vec<u8>)
    ensures
        final(out)@ == old(out)@ + v@,
{
    let ghost start = out@;
    let mut k: usize = 0;
    while k < v.len()
        invariant
            k <= v@.len(),
            out@ == start + v@.take(k as int),
        decreases v@.len() - k,
    {
        out.push(v[k]);
        assert(v@.take(k + 1) =~= v@.take(k as int).push(v@[k as int]));
        k = k + 1;
    }
    assert(v@.take(v@.len() as int) =~= v@);
}

/// Appends `n` spaces to `out`.
fn push_spaces(out: &mut Vec<u8>, n: usize)
    ensures
        final(out)@ == old(out)@ + spaces(n as nat),
{
    let ghost start = out@;
    let mut k: usize = 0;
    while k < n
        invariant
            k <= n,
            out@ == start + spaces(k as nat),
        decreases n - k,
    {
        out.push(SPACE);
        k = k + 1;
    }
}

/// Appends the comment lines `cs[k..]`, each indented by `prefix`.
fn emit_comments(
    out: &mut Vec<u8>,
    cs: &Vec<Vec<u8>>,
    k: usize,
    prefix: &Vec<u8>,
    Ghost(ind): Ghost<nat>,
)
    requires
        k <= cs@.len(),
        prefix@ == spaces(ind),
    ensures
        final(out)@ == old(out)@ + comment_lines(texts_view(cs@).skip(k as int), ind),
    decreases cs@.len() - k,
{
    proof {
        lemma_texts_view(cs@);
    }
    if k < cs.len() {
        push_bytes(out, prefix);
        push_bytes(out, &cs[k]);
        out.push(NL);
        emit_comments(out, cs, k + 1, prefix, Ghost(ind));
        proof {
            assert(texts_view(cs@).skip(k as int).drop_first() =~= texts_view(cs@).skip(k + 1));
            assert(texts_view(cs@).skip(k as int)[0] == texts_view(cs@)[k as int]);
        }
        assert(out@ =~= old(out)@ + comment_lines(texts_view(cs@).skip(k as int), ind));
    } else {
        assert(texts_view(cs@).skip(k as int).len() == 0);
        assert(out@ =~= old(out)@ + comment_lines(texts_view(cs@).skip(k as int), ind));
    }
}

/// Appends the `eol` comment, if any, preceded by one space.
fn emit_eol(out: &mut Vec<u8>, eol: &Option<Vec<u8>>)
    ensures
        final(out)@ == old(out)@ + eol_part(opt_text_view(*eol)),
{
    match eol {
        Some(t) => {
            out.push(SPACE);
            push_bytes(out, t);
            assert(out@ =~= old(out)@ + eol_part(opt_text_view(*eol)));
        },
        None => {
            assert(out@ =~= old(out)@ + eol_part(opt_text_view(*eol)));
        },
    }
}

/// Appends the compact rendering of `v`.
fn emit_single(out: &mut Vec<u8>, v: &RonValue)
    ensures
        final(out)@ == old(out)@ + render_single(value_view(*v)),
    decreases v, 0nat, 0nat,
{
    match v {
        RonValue::Atom(text) => {
            push_bytes(out, text);
        },
        RonValue::List(elements) => {
            out.push(91u8);
            emit_single_items(out, elements, 0);
            out.push(93u8);
            assert(items_view(elements@).skip(0) =~= items_view(elements@));
            assert(out@ =~= old(out)@ + render_single(value_view(*v)));
        },
        RonValue::MapType(entries) => {
            out.push(123u8);
            emit_single_entries(out, entries, 0);
            out.push(125u8);
            assert(entries_view(entries@).skip(0) =~= entries_view(entries@));
            assert(out@ =~= old(out)@ + render_single(value_view(*v)));
        },
        RonValue::TupleType { maybe_ident, elements } => {
            match maybe_ident {
                Some(id) => push_bytes(out, id),
                None => {},
            }
            out.push(40u8);
            emit_single_items(out, elements, 0);
            out.push(41u8);
            assert(items_view(elements@).skip(0) =~= items_view(elements@));
            assert(out@ =~= old(out)@ + render_single(value_view(*v)));
        },
        RonValue::FieldsType { maybe_ident, fields } => {
            match maybe_ident {
                Some(id) => push_bytes(out, id),
                None => {},
            }
            out.push(40u8);
            emit_single_fields(out, fields, 0);
            out.push(41u8);
            assert(fields_view(fields@).skip(0) =~= fields_view(fields@));
            assert(out@ =~= old(out)@ + render_single(value_view(*v)));
        },
    }
}

fn emit_single_items(out: &mut Vec<u8>, s: &Vec<Item>, k: usize)
    requires
        k <= s@.len(),
    ensures
        final(out)@ == old(out)@ + single_items(items_view(s@).skip(k as int)),
    decreases s, 1nat, s@.len() - k,
{
    proof {
        lemma_items_view(s@);
    }
    if k < s.len() {
        emit_single(out, &s[k].fragment.ron_value);
        if k + 1 < s.len() {
            out.push(COMMA);
            out.push(SPACE);
            emit_single_items(out, s, k + 1);
            assert(items_view(s@).skip(k as int).drop_first() =~= items_view(s@).skip(k + 1));
            assert(out@ =~= old(out)@ + single_items(items_view(s@).skip(k as int)));
        } else {
            assert(items_view(s@).skip(k as int).len() == 1);
            assert(out@ =~= old(out)@ + single_items(items_view(s@).skip(k as int)));
        }
    } else {
        assert(items_view(s@).skip(k as int).len() == 0);
        assert(out@ =~= old(out)@ + single_items(items_view(s@).skip(k as int)));
    }
}

fn emit_single_entries(out: &mut Vec<u8>, s: &Vec<(TextFragment, Item)>, k: usize)
    requires
        k <= s@.len(),
    ensures
        final(out)@ == old(out)@ + single_entries(entries_view(s@).skip(k as int)),
    decreases s, 1nat, s@.len() - k,
{
    proof {
        lemma_entries_view(s@);
    }
    if k < s.len() {
        emit_single(out, &s[k].0.ron_value);
        out.push(COLON);
        out.push(SPACE);
        emit_single(out, &s[k].1.fragment.ron_value);
        if k + 1 < s.len() {
            out.push(COMMA);
            out.push(SPACE);
            emit_single_entries(out, s, k + 1);
            assert(entries_view(s@).skip(k as int).drop_first() =~= entries_view(s@).skip(k + 1));
            assert(out@ =~= old(out)@ + single_entries(entries_view(s@).skip(k as int)));
        } else {
            assert(entries_view(s@).skip(k as int).len() == 1);
            assert(out@ =~= old(out)@ + single_entries(entries_view(s@).skip(k as int)));
        }
    } else {
        assert(entries_view(s@).skip(k as int).len() == 0);
        assert(out@ =~= old(out)@ + single_entries(entries_view(s@).skip(k as int)));
    }
}

fn emit_single_fields(out: &mut Vec<u8>, s: &Vec<(Vec<u8>, Item)>, k: usize)
    requires
        k <= s@.len(),
    ensures
        final(out)@ == old(out)@ + single_fields(fields_view(s@).skip(k as int)),
    decreases s, 1nat, s@.len() - k,
{
    proof {
        lemma_fields_view(s@);
    }
    if k < s.len() {
        push_bytes(out, &s[k].0);
        out.push(COLON);
        out.push(SPACE);
        emit_single(out, &s[k].1.fragment.ron_value);
        if k + 1 < s.len() {
            out.push(COMMA);
            out.push(SPACE);
            emit_single_fields(out, s, k + 1);
            assert(fields_view(s@).skip(k as int).drop_first() =~= fields_view(s@).skip(k + 1));
            assert(out@ =~= old(out)@ + single_fields(fields_view(s@).skip(k as int)));
        } else {
            assert(fields_view(s@).skip(k as int).len() == 1);
            assert(out@ =~= old(out)@ + single_fields(fields_view(s@).skip(k as int)));
        }
    } else {
        assert(fields_view(s@).skip(k as int).len() == 0);
        assert(out@ =~= old(out)@ + single_fields(fields_view(s@).skip(k as int)));
    }
}

// Trivia detection, mirroring the spec functions in `ast`.

fn item_trivia(it: &Item) -> (b: bool)
    ensures
        b == item_has_trivia(item_view(*it)),
    decreases it, 3nat, 0nat,
{
    proof {
        lemma_texts_view(it.pre@);
        lemma_texts_view(it.post@);
    }
    if it.pre.len() > 0 || it.post.len() > 0 {
        return true;
    }
    if let Some(_) = &it.eol {
        return true;
    }
    value_trivia(&it.fragment.ron_value)
}

pub(crate) fn value_trivia(v: &RonValue) -> (b: bool)
    ensures
        b == value_has_trivia(value_view(*v)),
    decreases v, 0nat, 0nat,
{
    match v {
        RonValue::Atom(_) => false,
        RonValue::List(elements) => {
            let b = items_trivia(elements, 0);
            proof {
                assert(items_view(elements@).skip(0) =~= items_view(elements@));
            }
            b
        },
        RonValue::MapType(entries) => {
            let b = entries_trivia(entries, 0);
            proof {
                assert(entries_view(entries@).skip(0) =~= entries_view(entries@));
            }
            b
        },
        RonValue::TupleType { maybe_ident, elements } => {
            let b = items_trivia(elements, 0);
            proof {
                assert(items_view(elements@).skip(0) =~= items_view(elements@));
            }
            b
        },
        RonValue::FieldsType { maybe_ident, fields } => {
            let b = fields_trivia(fields, 0);
            proof {
                assert(fields_view(fields@).skip(0) =~= fields_view(fields@));
            }
            b
        },
    }
}

fn items_trivia(s: &Vec<Item>, k: usize) -> (b: bool)
    requires
        k <= s@.len(),
    ensures
        b == trivia_in_items(items_view(s@).skip(k as int)),
    decreases s, 1nat, s@.len() - k,
{
    proof {
        lemma_items_view(s@);
    }
    if k < s.len() {
        let b = item_trivia(&s[k]) || items_trivia(s, k + 1);
        proof {
            assert(items_view(s@).skip(k as int).drop_first() =~= items_view(s@).skip(k + 1));
            assert(items_view(s@).skip(k as int)[0] == items_view(s@)[k as int]);
        }
        b
    } else {
        assert(items_view(s@).skip(k as int).len() == 0);
        false
    }
}

fn entries_trivia(s: &Vec<(TextFragment, Item)>, k: usize) -> (b: bool)
    requires
        k <= s@.len(),
    ensures
        b == trivia_in_entries(entries_view(s@).skip(k as int)),
    decreases s, 1nat, s@.len() - k,
{
    proof {
        lemma_entries_view(s@);
    }
    if k < s.len() {
        let b = item_trivia(&s[k].1) || entries_trivia(s, k + 1);
        proof {
            assert(entries_view(s@).skip(k as int).drop_first() =~= entries_view(s@).skip(k + 1));
            assert(entries_view(s@).skip(k as int)[0] == entries_view(s@)[k as int]);
        }
        b
    } else {
        assert(entries_view(s@).skip(k as int).len() == 0);
        false
    }
}

fn fields_trivia(s: &Vec<(Vec<u8>, Item)>, k: usize) -> (b: bool)
    requires
        k <= s@.len(),
    ensures
        b == trivia_in_fields(fields_view(s@).skip(k as int)),
    decreases s, 1nat, s@.len() - k,
{
    proof {
        lemma_fields_view(s@);
    }
    if k < s.len() {
        let b = item_trivia(&s[k].1) || fields_trivia(s, k + 1);
        proof {
            assert(fields_view(s@).skip(k as int).drop_first() =~= fields_view(s@).skip(k + 1));
            assert(fields_view(s@).skip(k as int)[0] == fields_view(s@)[k as int]);
        }
        b
    } else {
        assert(fields_view(s@).skip(k as int).len() == 0);
        false
    }
}

/// Number of direct children, executable.
fn child_count_of(v: &RonValue) -> (n: usize)
    ensures
        n == child_count(value_view(*v)),
{
    match v {
        RonValue::Atom(_) => 0,
        RonValue::List(elements) => {
            proof {
                lemma_items_view(elements@);
            }
            elements.len()
        },
        RonValue::MapType(entries) => {
            proof {
                lemma_entries_view(entries@);
            }
            entries.len()
        },
        RonValue::TupleType { maybe_ident, elements } => {
            proof {
                lemma_items_view(elements@);
            }
            elements.len()
        },
        RonValue::FieldsType { maybe_ident, fields } => {
            proof {
                lemma_fields_view(fields@);
            }
            fields.len()
        },
    }
}

/// Emits the value of `it` at the depth whose indentation is `prefix`,
/// expanded or compact as `multiline` decides.
fn emit_node(out: &mut Vec<u8>, it: &Item, prefix: &Vec<u8>, Ghost(depth): Ghost<nat>, c: &Config)
    requires
        prefix@ == spaces(ind(depth, *c)),
    ensures
        final(out)@ == old(out)@ + render_node(item_view(*it), depth, *c),
    decreases it, 5nat, 0nat,
{
    proof {
        lemma_spaces_len(ind(depth, *c));
    }
    let is_atom = match &it.fragment.ron_value {
        RonValue::Atom(_) => true,
        _ => false,
    };
    let nonempty = child_count_of(&it.fragment.ron_value) > 0;
    let expand = !is_atom && nonempty && (item_trivia(it) || (prefix.len() as u128) + (
    it.fragment.minimum_length as u128) > (c.max_line_width as u128));
    assert(expand == multiline(item_view(*it), depth, *c));
    if expand {
        emit_multi(out, &it.fragment.ron_value, prefix, Ghost(depth), c);
    } else {
        emit_single(out, &it.fragment.ron_value);
    }
}

/// Builds the indentation for one level deeper than `prefix`.
fn deeper(prefix: &Vec<u8>, Ghost(depth): Ghost<nat>, c: &Config) -> (p: Vec<u8>)
    requires
        prefix@ == spaces(ind(depth, *c)),
    ensures
        p@ == spaces(ind(depth + 1, *c)),
{
    let mut p = prefix.clone();
    assert(p@ == prefix@);
    push_spaces(&mut p, c.soft_tab_width);
    proof {
        lemma_spaces_add(ind(depth, *c), c.soft_tab_width as nat);
        assert((depth + 1) * (c.soft_tab_width as nat) == depth * (c.soft_tab_width as nat)
            + c.soft_tab_width) by (nonlinear_arith);
        assert(ind(depth + 1, *c) == ind(depth, *c) + c.soft_tab_width);
    }
    p
}

/// Emits the expanded form of `v`, whose own line starts at `prefix`.
#[verifier::rlimit(100)]
fn emit_multi(
    out: &mut Vec<u8>,
    v: &RonValue,
    prefix: &Vec<u8>,
    Ghost(depth): Ghost<nat>,
    c: &Config,
)
    requires
        prefix@ == spaces(ind(depth, *c)),
    ensures
        final(out)@ == old(out)@ + render_multi(value_view(*v), depth, *c),
    decreases v, 0nat, 0nat,
{
    match v {
        RonValue::Atom(text) => {
            push_bytes(out, text);
        },
        RonValue::List(elements) => {
            out.push(91u8);
            out.push(NL);
            let child_prefix = deeper(prefix, Ghost(depth), c);
            emit_multi_items(out, elements, 0, &child_prefix, Ghost(depth + 1), c);
            push_bytes(out, prefix);
            out.push(93u8);
            assert(items_view(elements@).skip(0) =~= items_view(elements@));
            assert(out@ =~= old(out)@ + render_multi(value_view(*v), depth, *c));
        },
        RonValue::MapType(entries) => {
            out.push(123u8);
            out.push(NL);
            let child_prefix = deeper(prefix, Ghost(depth), c);
            emit_multi_entries(out, entries, 0, &child_prefix, Ghost(depth + 1), c);
            push_bytes(out, prefix);
            out.push(125u8);
            assert(entries_view(entries@).skip(0) =~= entries_view(entries@));
            assert(out@ =~= old(out)@ + render_multi(value_view(*v), depth, *c));
        },
        RonValue::TupleType { maybe_ident, elements } => {
            match maybe_ident {
                Some(id) => push_bytes(out, id),
                None => {},
            }
            out.push(40u8);
            out.push(NL);
            let child_prefix = deeper(prefix, Ghost(depth), c);
            emit_multi_items(out, elements, 0, &child_prefix, Ghost(depth + 1), c);
            push_bytes(out, prefix);
            out.push(41u8);
            assert(items_view(elements@).skip(0) =~= items_view(elements@));
            assert(out@ =~= old(out)@ + render_multi(value_view(*v), depth, *c));
        },
        RonValue::FieldsType { maybe_ident, fields } => {
            match maybe_ident {
                Some(id) => push_bytes(out, id),
                None => {},
            }
            out.push(40u8);
            out.push(NL);
            let child_prefix = deeper(prefix, Ghost(depth), c);
            emit_multi_fields(out, fields, 0, &child_prefix, Ghost(depth + 1), c);
            push_bytes(out, prefix);
            out.push(41u8);
            assert(fields_view(fields@).skip(0) =~= fields_view(fields@));
            assert(out@ =~= old(out)@ + render_multi(value_view(*v), depth, *c));
        },
    }
}

/// Emits the expanded lines of the children `s[k..]`, at the child depth
/// whose indentation is `prefix`.
fn emit_multi_items(
    out: &mut Vec<u8>,
    s: &Vec<Item>,
    k: usize,
    prefix: &Vec<u8>,
    Ghost(depth): Ghost<nat>,
    c: &Config,
)
    requires
        k <= s@.len(),
        prefix@ == spaces(ind(depth, *c)),
    ensures
        final(out)@ == old(out)@ + multi_items(items_view(s@).skip(k as int), depth, *c),
    decreases s, 6nat, s@.len() - k,
{
    proof {
        lemma_items_view(s@);
    }
    if k < s.len() {
        emit_comments(out, &s[k].pre, 0, prefix, Ghost(ind(depth, *c)));
        push_bytes(out, prefix);
        emit_node(out, &s[k], prefix, Ghost(depth), c);
        out.push(COMMA);
        emit_eol(out, &s[k].eol);
        out.push(NL);
        emit_comments(out, &s[k].post, 0, prefix, Ghost(ind(depth, *c)));
        proof {
            assert(texts_view(s@[k as int].pre@).skip(0) =~= texts_view(s@[k as int].pre@));
            assert(texts_view(s@[k as int].post@).skip(0) =~= texts_view(s@[k as int].post@));
            assert(out@ =~= old(out)@ + comment_lines(texts_view(s@[k as int].pre@), ind(depth, *c))
                + spaces(ind(depth, *c)) + render_node(item_view(s@[k as int]), depth, *c)
                + seq![COMMA] + eol_part(opt_text_view(s@[k as int].eol)) + seq![NL]
                + comment_lines(texts_view(s@[k as int].post@), ind(depth, *c)));
            assert(out@ =~= old(out)@ + child_line(item_view(s@[k as int]), depth, *c));
        }
        emit_multi_items(out, s, k + 1, prefix, Ghost(depth), c);
        proof {
            assert(items_view(s@).skip(k as int).drop_first() =~= items_view(s@).skip(k + 1));
            assert(items_view(s@).skip(k as int)[0] == items_view(s@)[k as int]);
        }
        assert(out@ =~= old(out)@ + multi_items(items_view(s@).skip(k as int), depth, *c));
    } else {
        assert(items_view(s@).skip(k as int).len() == 0);
        assert(out@ =~= old(out)@ + multi_items(items_view(s@).skip(k as int), depth, *c));
    }
}

fn emit_multi_entries(
    out: &mut Vec<u8>,
    s: &Vec<(TextFragment, Item)>,
    k: usize,
    prefix: &Vec<u8>,
    Ghost(depth): Ghost<nat>,
    c: &Config,
)
    requires
        k <= s@.len(),
        prefix@ == spaces(ind(depth, *c)),
    ensures
        final(out)@ == old(out)@ + multi_entries(entries_view(s@).skip(k as int), depth, *c),
    decreases s, 6nat, s@.len() - k,
{
    proof {
        lemma_entries_view(s@);
    }
    if k < s.len() {
        emit_comments(out, &s[k].1.pre, 0, prefix, Ghost(ind(depth, *c)));
        push_bytes(out, prefix);
        emit_single(out, &s[k].0.ron_value);
        out.push(COLON);
        out.push(SPACE);
        emit_node(out, &s[k].1, prefix, Ghost(depth), c);
        out.push(COMMA);
        emit_eol(out, &s[k].1.eol);
        out.push(NL);
        emit_comments(out, &s[k].1.post, 0, prefix, Ghost(ind(depth, *c)));
        proof {
            assert(texts_view(s@[k as int].1.pre@).skip(0) =~= texts_view(s@[k as int].1.pre@));
            assert(texts_view(s@[k as int].1.post@).skip(0) =~= texts_view(s@[k as int].1.post@));
            assert(out@ =~= old(out)@ + comment_lines(
                texts_view(s@[k as int].1.pre@),
                ind(depth, *c),
            ) + spaces(ind(depth, *c)) + render_single(value_view(s@[k as int].0.ron_value))
                + colon_sp() + render_node(item_view(s@[k as int].1), depth, *c) + seq![COMMA]
                + eol_part(opt_text_view(s@[k as int].1.eol)) + seq![NL] + comment_lines(
                texts_view(s@[k as int].1.post@),
                ind(depth, *c),
            ));
            assert(out@ =~= old(out)@ + entry_line(
                (frag_view(s@[k as int].0), item_view(s@[k as int].1)),
                depth,
                *c,
            ));
        }
        emit_multi_entries(out, s, k + 1, prefix, Ghost(depth), c);
        proof {
            assert(entries_view(s@).skip(k as int).drop_first() =~= entries_view(s@).skip(k + 1));
            assert(entries_view(s@).skip(k as int)[0] == entries_view(s@)[k as int]);
        }
        assert(out@ =~= old(out)@ + multi_entries(entries_view(s@).skip(k as int), depth, *c));
    } else {
        assert(entries_view(s@).skip(k as int).len() == 0);
        assert(out@ =~= old(out)@ + multi_entries(entries_view(s@).skip(k as int), depth, *c));
    }
}

fn emit_multi_fields(
    out: &mut Vec<u8>,
    s: &Vec<(Vec<u8>, Item)>,
    k: usize,
    prefix: &Vec<u8>,
    Ghost(depth): Ghost<nat>,
    c: &Config,
)
    requires
        k <= s@.len(),
        prefix@ == spaces(ind(depth, *c)),
    ensures
        final(out)@ == old(out)@ + multi_fields(fields_view(s@).skip(k as int), depth, *c),
    decreases s, 6nat, s@.len() - k,
{
    proof {
        lemma_fields_view(s@);
    }
    if k < s.len() {
        emit_comments(out, &s[k].1.pre, 0, prefix, Ghost(ind(depth, *c)));
        push_bytes(out, prefix);
        push_bytes(out, &s[k].0);
        out.push(COLON);
        out.push(SPACE);
        emit_node(out, &s[k].1, prefix, Ghost(depth), c);
        out.push(COMMA);
        emit_eol(out, &s[k].1.eol);
        out.push(NL);
        emit_comments(out, &s[k].1.post, 0, prefix, Ghost(ind(depth, *c)));
        proof {
            assert(texts_view(s@[k as int].1.pre@).skip(0) =~= texts_view(s@[k as int].1.pre@));
            assert(texts_view(s@[k as int].1.post@).skip(0) =~= texts_view(s@[k as int].1.post@));
            assert(out@ =~= old(out)@ + comment_lines(
                texts_view(s@[k as int].1.pre@),
                ind(depth, *c),
            ) + spaces(ind(depth, *c)) + s@[k as int].0@ + colon_sp() + render_node(
                item_view(s@[k as int].1),
                depth,
                *c,
            ) + seq![COMMA] + eol_part(opt_text_view(s@[k as int].1.eol)) + seq![NL]
                + comment_lines(texts_view(s@[k as int].1.post@), ind(depth, *c)));
            assert(out@ =~= old(out)@ + field_line(
                (s@[k as int].0@, item_view(s@[k as int].1)),
                depth,
                *c,
            ));
        }
        emit_multi_fields(out, s, k + 1, prefix, Ghost(depth), c);
        proof {
            assert(fields_view(s@).skip(k as int).drop_first() =~= fields_view(s@).skip(k + 1));
            assert(fields_view(s@).skip(k as int)[0] == fields_view(s@)[k as int]);
        }
        assert(out@ =~= old(out)@ + multi_fields(fields_view(s@).skip(k as int), depth, *c));
    } else {
        assert(fields_view(s@).skip(k as int).len() == 0);
        assert(out@ =~= old(out)@ + multi_fields(fields_view(s@).skip(k as int), depth, *c));
    }
}

/// Emits the top-level items `s[k..]`, one per line group, at depth 0.
fn emit_top_items(out: &mut Vec<u8>, s: &Vec<Item>, k: usize, c: &Config)
    requires
        k <= s@.len(),
    ensures
        final(out)@ == old(out)@ + top_items(items_view(s@).skip(k as int), *c),
    decreases s@.len() - k,
{
    proof {
        lemma_items_view(s@);
    }
    if k < s.len() {
        let prefix: Vec<u8> = Vec::new();
        assert(prefix@ =~= spaces(0));
        assert(prefix@ =~= spaces(ind(0, *c)));
        emit_comments(out, &s[k].pre, 0, &prefix, Ghost(0));
        emit_node(out, &s[k], &prefix, Ghost(0), c);
        emit_eol(out, &s[k].eol);
        out.push(NL);
        emit_comments(out, &s[k].post, 0, &prefix, Ghost(0));
        proof {
            assert(texts_view(s@[k as int].pre@).skip(0) =~= texts_view(s@[k as int].pre@));
            assert(texts_view(s@[k as int].post@).skip(0) =~= texts_view(s@[k as int].post@));
            assert(out@ =~= old(out)@ + comment_lines(texts_view(s@[k as int].pre@), 0)
                + render_node(item_view(s@[k as int]), 0, *c) + eol_part(
                opt_text_view(s@[k as int].eol),
            ) + seq![NL] + comment_lines(texts_view(s@[k as int].post@), 0));
            assert(out@ =~= old(out)@ + top_item(item_view(s@[k as int]), *c));
        }
        emit_top_items(out, s, k + 1, c);
        proof {
            assert(items_view(s@).skip(k as int).drop_first() =~= items_view(s@).skip(k + 1));
            assert(items_view(s@).skip(k as int)[0] == items_view(s@)[k as int]);
        }
        assert(out@ =~= old(out)@ + top_items(items_view(s@).skip(k as int), *c));
    } else {
        assert(items_view(s@).skip(k as int).len() == 0);
        assert(out@ =~= old(out)@ + top_items(items_view(s@).skip(k as int), *c));
    }
}

/// Emits the joined extension identifiers `s[k..]`.
fn emit_join_exts(out: &mut Vec<u8>, s: &Vec<Vec<u8>>, k: usize)
    requires
        k <= s@.len(),
    ensures
        final(out)@ == old(out)@ + join_exts(texts_view(s@).skip(k as int)),
    decreases s@.len() - k,
{
    proof {
        lemma_texts_view(s@);
    }
    if k < s.len() {
        push_bytes(out, &s[k]);
        if k + 1 < s.len() {
            out.push(COMMA);
            out.push(SPACE);
            emit_join_exts(out, s, k + 1);
            assert(texts_view(s@).skip(k as int).drop_first() =~= texts_view(s@).skip(k + 1));
            assert(out@ =~= old(out)@ + join_exts(texts_view(s@).skip(k as int)));
        } else {
            assert(texts_view(s@).skip(k as int).len() == 1);
            assert(out@ =~= old(out)@ + join_exts(texts_view(s@).skip(k as int)));
        }
    } else {
        assert(texts_view(s@).skip(k as int).len() == 0);
        assert(out@ =~= old(out)@ + join_exts(texts_view(s@).skip(k as int)));
    }
}

/// Emits the extension header, or nothing when the set is empty.
fn emit_header(out: &mut Vec<u8>, exts: &Vec<Vec<u8>>)
    ensures
        final(out)@ == old(out)@ + render_header(texts_view(exts@)),
{
    proof {
        lemma_texts_view(exts@);
    }
    if exts.len() > 0 {
        out.push(35u8);
        out.push(33u8);
        out.push(91u8);
        out.push(101u8);
        out.push(110u8);
        out.push(97u8);
        out.push(98u8);
        out.push(108u8);
        out.push(101u8);
        out.push(40u8);
        emit_join_exts(out, exts, 0);
        out.push(41u8);
        out.push(93u8);
        out.push(NL);
        out.push(NL);
        assert(texts_view(exts@).skip(0) =~= texts_view(exts@));
        assert(out@ =~= old(out)@ + render_header(texts_view(exts@)));
    } else {
        assert(out@ =~= old(out)@ + render_header(texts_view(exts@)));
    }
}

impl FileText {
    /// Renders the whole document in canonical form: the extension header
    /// when the set is non-empty, then every top-level item, each composite
    /// node compact when its projected width fits within
    /// `config.max_line_width` and expanded otherwise. Every comment of the
    /// document occurs in the output: `crate::laws::lemma_comments_survive`
    /// proves it of `render_doc`.
    pub fn pretty_print(&self, config: &Config) -> (out: Vec<u8>)
        ensures
            out@ == render_doc(file_view(*self), *config),
    {
        let mut out: Vec<u8> = Vec::new();
        emit_header(&mut out, &self.extensions);
        proof {
            lemma_items_view(self.items@);
        }
        emit_top_items(&mut out, &self.items, 0, config);
        proof {
            assert(items_view(self.items@).skip(0) =~= items_view(self.items@));
            assert(out@ =~= render_doc(file_view(*self), *config));
        }
        out
    }
}

} // verus!

use vstd::prelude::*;

verus! {

// ------------------------------------------------------------------
// Executable document model.
// ------------------------------------------------------------------

/// Everything that can go wrong between raw bytes and a `FileText`.
/// Positions are byte offsets into the input; token indexes count the
/// lexer's output.
#[derive(Clone, Copy, Debug, PartialEq, Eq, Structural)]
pub enum ParseError {
    /// A byte that can start no token.
    UnexpectedByte { pos: usize },
    /// A block comment without its closing delimiter.
    UnterminatedComment { pos: usize },
    /// A string or character literal without its closing quote.
    UnterminatedLiteral { pos: usize },
    /// An extension header that does not follow `#![enable(a, b)]`.
    MalformedExtension { pos: usize },
    /// A token that fits no grammar rule at its position.
    UnexpectedToken { index: usize },
    /// A comment attached inside a map key. The document model gives keys
    /// no place to carry trivia, so such a shape is a structural error.
    CommentInMapKey { index: usize },
    /// Input ended where the grammar still required a token.
    UnexpectedEnd,
    /// A subtree so wide that its minimum width overflows `usize`.
    WidthOverflow,
}

/// One RON value. Atom text, collection names and record keys are kept as
/// the raw bytes of the source token and re-emitted verbatim.
pub enum RonValue {
    /// A literal token: boolean, character, string, signed integer, float,
    /// or the unit literal `()`.
    Atom(Vec<u8>),
    /// `[ v1, v2, ... ]`
    List(Vec<Item>),
    /// `{ k1: v1, k2: v2, ... }`; keys are values and never carry trivia,
    /// so an entry pairs a bare fragment with a trivia-carrying item.
    MapType(Vec<(TextFragment, Item)>),
    /// `Name(v1, v2, ...)`; without the identifier, a plain tuple.
    TupleType { maybe_ident: Option<Vec<u8>>, elements: Vec<Item> },
    /// `Name(k1: v1, k2: v2, ...)`; without the identifier, an anonymous
    /// record. Keys are identifiers.
    FieldsType { maybe_ident: Option<Vec<u8>>, fields: Vec<(Vec<u8>, Item)> },
}

/// A RON value together with the minimum number of bytes its subtree
/// occupies when rendered on a single line with every descendant in its own
/// most-compact form. The width is computed bottom-up once, at parse time,
/// and never recomputed; `frag_wf` states that it equals `width_of`.
pub struct TextFragment {
    pub minimum_length: usize,
    pub ron_value: RonValue,
}

/// A value with its attached comment trivia: `pre` comment lines standing
/// immediately above it, an optional `eol` comment sharing its line, and
/// `post` comment lines standing between it and the closing delimiter.
pub struct Item {
    pub pre: Vec<Vec<u8>>,
    pub fragment: TextFragment,
    pub eol: Option<Vec<u8>>,
    pub post: Vec<Vec<u8>>,
}

/// A whole document: the deduplicated, alphabetically ordered extension
/// set of the `#![enable(...)]` header, and the top-level items in order.
pub struct FileText {
    pub extensions: Vec<Vec<u8>>,
    pub items: Vec<Item>,
}

// ------------------------------------------------------------------
// Mathematical model: the same tree over `Seq`, with a view function
// from each executable type. Contracts speak of these.
// ------------------------------------------------------------------

pub enum RonValueV {
    Atom(Seq<u8>),
    List(Seq<ItemV>),
    MapType(Seq<(TextFragmentV, ItemV)>),
    TupleType { maybe_ident: Option<Seq<u8>>, elements: Seq<ItemV> },
    FieldsType { maybe_ident: Option<Seq<u8>>, fields: Seq<(Seq<u8>, ItemV)> },
}

pub struct TextFragmentV {
    pub minimum_length: nat,
    pub ron_value: RonValueV,
}

pub struct ItemV {
    pub pre: Seq<Seq<u8>>,
    pub fragment: TextFragmentV,
    pub eol: Option<Seq<u8>>,
    pub post: Seq<Seq<u8>>,
}

pub struct FileTextV {
    pub extensions: Seq<Seq<u8>>,
    pub items: Seq<ItemV>,
}

pub open spec fn texts_view(s: Seq<Vec<u8>>) -> Seq<Seq<u8>>
    decreases s,
{
    if s.len() == 0 {
        Seq::empty()
    } else {
        seq![s[0]@] + texts_view(s.drop_first())
    }
}

pub open spec fn opt_text_view(o: Option<Vec<u8>>) -> Option<Seq<u8>> {
    match o {
        Some(t) => Some(t@),
        None => None,
    }
}

pub open spec fn value_view(v: RonValue) -> RonValueV
    decreases v,
{
    match v {
        RonValue::Atom(text) => RonValueV::Atom(text@),
        RonValue::List(elements) => RonValueV::List(items_view(elements@)),
        RonValue::MapType(entries) => RonValueV::MapType(entries_view(entries@)),
        RonValue::TupleType { maybe_ident, elements } => RonValueV::TupleType {
            maybe_ident: opt_text_view(maybe_ident),
            elements: items_view(elements@),
        },
        RonValue::FieldsType { maybe_ident, fields } => RonValueV::FieldsType {
            maybe_ident: opt_text_view(maybe_ident),
            fields: fields_view(fields@),
        },
    }
}

pub open spec fn frag_view(f: TextFragment) -> TextFragmentV
    decreases f,
{
    TextFragmentV { minimum_length: f.minimum_length as nat, ron_value: value_view(f.ron_value) }
}

pub open spec fn item_view(it: Item) -> ItemV
    decreases it,
{
    ItemV {
        pre: texts_view(it.pre@),
        fragment: frag_view(it.fragment),
        eol: opt_text_view(it.eol),
        post: texts_view(it.post@),
    }
}

pub open spec fn items_view(s: Seq<Item>) -> Seq<ItemV>
    decreases s,
{
    if s.len() == 0 {
        Seq::empty()
    } else {
        seq![item_view(s[0])] + items_view(s.drop_first())
    }
}

pub open spec fn entries_view(s: Seq<(TextFragment, Item)>) -> Seq<(TextFragmentV, ItemV)>
    decreases s,
{
    if s.len() == 0 {
        Seq::empty()
    } else {
        seq![(frag_view(s[0].0), item_view(s[0].1))] + entries_view(s.drop_first())
    }
}

pub open spec fn fields_view(s: Seq<(Vec<u8>, Item)>) -> Seq<(Seq<u8>, ItemV)>
    decreases s,
{
    if s.len() == 0 {
        Seq::empty()
    } else {
        seq![(s[0].0@, item_view(s[0].1))] + fields_view(s.drop_first())
    }
}

pub open spec fn file_view(d: FileText) -> FileTextV {
    FileTextV { extensions: texts_view(d.extensions@), items: items_view(d.items@) }
}

// Pointwise description of the collection views.

pub proof fn lemma_texts_view(s: Seq<Vec<u8>>)
    ensures
        texts_view(s).len() == s.len(),
        forall|i: int| 0 <= i < s.len() ==> texts_view(s)[i] == s[i]@,
    decreases s,
{
    if s.len() > 0 {
        lemma_texts_view(s.drop_first());
    }
}

pub proof fn lemma_items_view(s: Seq<Item>)
    ensures
        items_view(s).len() == s.len(),
        forall|i: int| 0 <= i < s.len() ==> items_view(s)[i] == item_view(s[i]),
    decreases s,
{
    if s.len() > 0 {
        lemma_items_view(s.drop_first());
    }
}

pub proof fn lemma_entries_view(s: Seq<(TextFragment, Item)>)
    ensures
        entries_view(s).len() == s.len(),
        forall|i: int|
            0 <= i < s.len() ==> entries_view(s)[i] == (frag_view(s[i].0), item_view(s[i].1)),
    decreases s,
{
    if s.len() > 0 {
        lemma_entries_view(s.drop_first());
    }
}

pub proof fn lemma_fields_view(s: Seq<(Vec<u8>, Item)>)
    ensures
        fields_view(s).len() == s.len(),
        forall|i: int| 0 <= i < s.len() ==> fields_view(s)[i] == (s[i].0@, item_view(s[i].1)),
    decreases s,
{
    if s.len() > 0 {
        lemma_fields_view(s.drop_first());
    }
}

// ------------------------------------------------------------------
// Minimum width, well-formedness, trivia.
// ------------------------------------------------------------------

/// Length of an optional identifier, in bytes.
pub open spec fn ident_len(maybe_ident: Option<Seq<u8>>) -> nat {
    match maybe_ident {
        Some(id) => id.len(),
        None => 0,
    }
}

/// Minimum single-line width of a value: the byte count of its most
/// compact rendering, except that an empty collection contributes only its
/// name (its bracket pair is covered by the per-child overhead, of which an
/// empty collection has none).
pub open spec fn width_of(v: RonValueV) -> nat
    decreases v,
{
    match v {
        RonValueV::Atom(text) => text.len(),
        RonValueV::List(elements) => items_width(elements),
        RonValueV::MapType(entries) => entries_width(entries),
        RonValueV::TupleType { maybe_ident, elements } => ident_len(maybe_ident) + items_width(
            elements,
        ),
        RonValueV::FieldsType { maybe_ident, fields } => ident_len(maybe_ident) + fields_width(
            fields,
        ),
    }
}

/// Per element: its own width plus 2, amortizing the `, ` separators and
/// the bracket pair across the elements.
pub open spec fn items_width(s: Seq<ItemV>) -> nat
    decreases s,
{
    if s.len() == 0 {
        0
    } else {
        width_of(s[0].fragment.ron_value) + 2 + items_width(s.drop_first())
    }
}

/// Per entry: key width plus value width plus 4, amortizing `: `, `, ` and
/// the brace pair across the entries.
pub open spec fn entries_width(s: Seq<(TextFragmentV, ItemV)>) -> nat
    decreases s,
{
    if s.len() == 0 {
        0
    } else {
        width_of(s[0].0.ron_value) + width_of(s[0].1.fragment.ron_value) + 4 + entries_width(
            s.drop_first(),
        )
    }
}

/// Per field: key length plus value width plus 4, as for map entries.
pub open spec fn fields_width(s: Seq<(Seq<u8>, ItemV)>) -> nat
    decreases s,
{
    if s.len() == 0 {
        0
    } else {
        s[0].0.len() + width_of(s[0].1.fragment.ron_value) + 4 + fields_width(s.drop_first())
    }
}

/// Number of direct children of a value; an atom has none.
pub open spec fn child_count(v: RonValueV) -> nat {
    match v {
        RonValueV::Atom(_) => 0,
        RonValueV::List(elements) => elements.len(),
        RonValueV::MapType(entries) => entries.len(),
        RonValueV::TupleType { maybe_ident, elements } => elements.len(),
        RonValueV::FieldsType { maybe_ident, fields } => fields.len(),
    }
}

/// The stored width of every fragment in the tree equals the width defined
/// by `width_of`, and map keys carry no comment trivia anywhere in their
/// subtrees — keys have no place to render one.
pub open spec fn frag_wf(f: TextFragmentV) -> bool
    decreases f,
{
    &&& f.minimum_length == width_of(f.ron_value)
    &&& value_wf(f.ron_value)
}

pub open spec fn value_wf(v: RonValueV) -> bool
    decreases v,
{
    match v {
        RonValueV::Atom(_) => true,
        RonValueV::List(elements) => forall|i: int|
            0 <= i < elements.len() ==> frag_wf(#[trigger] elements[i].fragment),
        RonValueV::MapType(entries) => forall|i: int|
            0 <= i < entries.len() ==> frag_wf(#[trigger] entries[i].0) && frag_wf(
                entries[i].1.fragment,
            ) && !value_has_trivia(entries[i].0.ron_value),
        RonValueV::TupleType { maybe_ident, elements } => forall|i: int|
            0 <= i < elements.len() ==> frag_wf(#[trigger] elements[i].fragment),
        RonValueV::FieldsType { maybe_ident, fields } => forall|i: int|
            0 <= i < fields.len() ==> frag_wf(#[trigger] fields[i].1.fragment),
    }
}

/// Strict byte-lexicographic order, used for the extension set.
pub open spec fn lex_lt(a: Seq<u8>, b: Seq<u8>) -> bool
    decreases a.len(),
{
    if b.len() == 0 {
        false
    } else if a.len() == 0 {
        true
    } else if a[0] < b[0] {
        true
    } else if a[0] > b[0] {
        false
    } else {
        lex_lt(a.drop_first(), b.drop_first())
    }
}

/// The extension set is strictly sorted, hence free of duplicates.
pub open spec fn extensions_wf(exts: Seq<Seq<u8>>) -> bool {
    forall|i: int, j: int|
        0 <= i < j < exts.len() ==> lex_lt(#[trigger] exts[i], #[trigger] exts[j])
}

pub open spec fn file_wf(d: FileTextV) -> bool {
    &&& extensions_wf(d.extensions)
    &&& forall|i: int| 0 <= i < d.items.len() ==> frag_wf(#[trigger] d.items[i].fragment)
}

/// Comment trivia attached directly to this item.
pub open spec fn item_has_own_trivia(it: ItemV) -> bool {
    it.pre.len() > 0 || it.eol is Some || it.post.len() > 0
}

/// Comment trivia attached anywhere inside a value's subtree.
pub open spec fn value_has_trivia(v: RonValueV) -> bool
    decreases v,
{
    match v {
        RonValueV::Atom(_) => false,
        RonValueV::List(elements) => trivia_in_items(elements),
        RonValueV::MapType(entries) => trivia_in_entries(entries),
        RonValueV::TupleType { maybe_ident, elements } => trivia_in_items(elements),
        RonValueV::FieldsType { maybe_ident, fields } => trivia_in_fields(fields),
    }
}

pub open spec fn item_has_trivia(it: ItemV) -> bool
    decreases it,
{
    item_has_own_trivia(it) || value_has_trivia(it.fragment.ron_value)
}

pub open spec fn trivia_in_items(s: Seq<ItemV>) -> bool
    decreases s,
{
    if s.len() == 0 {
        false
    } else {
        item_has_trivia(s[0]) || trivia_in_items(s.drop_first())
    }
}

pub open spec fn trivia_in_entries(s: Seq<(TextFragmentV, ItemV)>) -> bool
    decreases s,
{
    if s.len() == 0 {
        false
    } else {
        item_has_trivia(s[0].1) || trivia_in_entries(s.drop_first())
    }
}

pub open spec fn trivia_in_fields(s: Seq<(Seq<u8>, ItemV)>) -> bool
    decreases s,
{
    if s.len() == 0 {
        false
    } else {
        item_has_trivia(s[0].1) || trivia_in_fields(s.drop_first())
    }
}

// ------------------------------------------------------------------
// The comments of a document, collected in document order. Map keys
// are not visited: a well-formed document holds no trivia there.
// ------------------------------------------------------------------

pub open spec fn opt_comment(eol: Option<Seq<u8>>) -> Seq<Seq<u8>> {
    match eol {
        Some(t) => seq![t],
        None => Seq::empty(),
    }
}

/// An item's own comments and, between `pre` and `eol`, those of its
/// value's subtree.
pub open spec fn item_comments(it: ItemV) -> Seq<Seq<u8>>
    decreases it, 1nat,
{
    it.pre + value_comments(it.fragment.ron_value) + opt_comment(it.eol) + it.post
}

pub open spec fn value_comments(v: RonValueV) -> Seq<Seq<u8>>
    decreases v, 0nat,
{
    match v {
        RonValueV::Atom(_) => Seq::empty(),
        RonValueV::List(elements) => items_comments(elements),
        RonValueV::MapType(entries) => entries_comments(entries),
        RonValueV::TupleType { maybe_ident, elements } => items_comments(elements),
        RonValueV::FieldsType { maybe_ident, fields } => fields_comments(fields),
    }
}

pub open spec fn items_comments(s: Seq<ItemV>) -> Seq<Seq<u8>>
    decreases s, 2nat,
{
    if s.len() == 0 {
        Seq::empty()
    } else {
        item_comments(s[0]) + items_comments(s.drop_first())
    }
}

pub open spec fn entries_comments(s: Seq<(TextFragmentV, ItemV)>) -> Seq<Seq<u8>>
    decreases s, 2nat,
{
    if s.len() == 0 {
        Seq::empty()
    } else {
        item_comments(s[0].1) + entries_comments(s.drop_first())
    }
}

pub open spec fn fields_comments(s: Seq<(Seq<u8>, ItemV)>) -> Seq<Seq<u8>>
    decreases s, 2nat,
{
    if s.len() == 0 {
        Seq::empty()
    } else {
        item_comments(s[0].1) + fields_comments(s.drop_first())
    }
}

pub open spec fn doc_comments(d: FileTextV) -> Seq<Seq<u8>> {
    items_comments(d.items)
}

// A value with comments somewhere below it is a non-empty composite
// carrying trivia — exactly what forces the layout open.

pub proof fn lemma_value_comments_trivia(v: RonValueV)
    ensures
        value_comments(v).len() > 0 ==> value_has_trivia(v) && child_count(v) > 0 && !(v is Atom),
    decreases v, 0nat,
{
    match v {
        RonValueV::Atom(_) => {},
        RonValueV::List(elements) => {
            lemma_items_comments_trivia(elements);
        },
        RonValueV::MapType(entries) => {
            lemma_entries_comments_trivia(entries);
        },
        RonValueV::TupleType { maybe_ident, elements } => {
            lemma_items_comments_trivia(elements);
        },
        RonValueV::FieldsType { maybe_ident, fields } => {
            lemma_fields_comments_trivia(fields);
        },
    }
}

pub proof fn lemma_item_comments_trivia(it: ItemV)
    ensures
        item_comments(it).len() > 0 ==> item_has_trivia(it),
    decreases it, 1nat,
{
    lemma_value_comments_trivia(it.fragment.ron_value);
}

pub proof fn lemma_items_comments_trivia(s: Seq<ItemV>)
    ensures
        items_comments(s).len() > 0 ==> trivia_in_items(s) && s.len() > 0,
    decreases s, 2nat,
{
    if s.len() > 0 {
        lemma_item_comments_trivia(s[0]);
        lemma_items_comments_trivia(s.drop_first());
    }
}

pub proof fn lemma_entries_comments_trivia(s: Seq<(TextFragmentV, ItemV)>)
    ensures
        entries_comments(s).len() > 0 ==> trivia_in_entries(s) && s.len() > 0,
    decreases s, 2nat,
{
    if s.len() > 0 {
        lemma_item_comments_trivia(s[0].1);
        lemma_entries_comments_trivia(s.drop_first());
    }
}

pub proof fn lemma_fields_comments_trivia(s: Seq<(Seq<u8>, ItemV)>)
    ensures
        fields_comments(s).len() > 0 ==> trivia_in_fields(s) && s.len() > 0,
    decreases s, 2nat,
{
    if s.len() > 0 {
        lemma_item_comments_trivia(s[0].1);
        lemma_fields_comments_trivia(s.drop_first());
    }
}

} // verus!

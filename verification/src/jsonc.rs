//! Comment-preserving JSONC editor.
//!
//! `jsonc-parser` finds where each value of the source stands; new and
//! updated model entries are then spliced into the source string so user
//! comments, indentation, and trailing-comma style survive.
//!
//! Operations against `provider.<id>.models`:
//!   * `add_model` — insert a new entry before the closing `}`.
//!   * `merge_model` — splice individual keys into an existing entry.
//!   * `comment_out_model` — comment an entry out, in place.
//!
//! There is deliberately no whole-entry replace: everything goes through
//! `merge_model`, which only touches the keys it is given.
//!
//! When the required containers (`provider`, `provider.<id>`, or their
//! `.models` map) are absent, `EditError::MissingContainer` is returned so
//! the caller can fall back to a full pretty-print re-render.
//!
//! Places in the source are byte offsets.
use crate::gguf::{lossy_text, utf8_lossy};
use crate::json::{
    built, find_key, json_document, json_of, json_pretty, key_from, json_string, pair_views, pretty,
    quoted_string, set_member, value_view, with_member, Json, JsonView,
};
use crate::text::{
    chars_of, copy_text, debug_text, join, lines, lines_of, parts_of, quote, same_text, split_on,
    strip_prefix, text_of, views, without_prefix,
};
use vstd::prelude::*;
use vstd::string::*;
use vstd::utf8::{
    decode_utf8, encode_utf8, is_char_boundary, is_continuation_byte, valid_utf8,
};

verus! {

/// Why an edit is refused.
#[derive(Debug, Clone, PartialEq)]
pub enum EditError {
    Parse(String),
    RootNotObject,
    MissingContainer { path: String },
    NotObject { path: String },
    ModelNotFound { provider_id: String, model_id: String },
}

pub enum EditErrorView {
    Parse(Seq<char>),
    RootNotObject,
    MissingContainer(Seq<char>),
    NotObject(Seq<char>),
    ModelNotFound(Seq<char>, Seq<char>),
}

impl View for EditError {
    type V = EditErrorView;

    open spec fn view(&self) -> EditErrorView {
        match *self {
            EditError::Parse(e) => EditErrorView::Parse(e@),
            EditError::RootNotObject => EditErrorView::RootNotObject,
            EditError::MissingContainer { path } => EditErrorView::MissingContainer(path@),
            EditError::NotObject { path } => EditErrorView::NotObject(path@),
            EditError::ModelNotFound { provider_id, model_id } => EditErrorView::ModelNotFound(
                provider_id@,
                model_id@,
            ),
        }
    }
}

impl EditErrorView {
    /// The error in words.
    pub open spec fn text(self) -> Seq<char> {
        match self {
            EditErrorView::Parse(e) => "failed to parse JSONC: "@ + e,
            EditErrorView::RootNotObject => "expected root value to be an object"@,
            EditErrorView::MissingContainer(path) => path + " is not present in the source"@,
            EditErrorView::NotObject(path) => path + " is present but is not an object"@,
            EditErrorView::ModelNotFound(provider_id, model_id) => "model "@ + debug_text(model_id)
                + " not found under provider "@ + debug_text(provider_id),
        }
    }
}

impl EditError {
    pub open spec fn text(self) -> Seq<char> {
        self@.text()
    }

    /// The error in words.
    pub fn message(&self) -> (r: String)
        ensures
            r@ == self.text(),
    {
        match self {
            EditError::Parse(e) => {
                let mut s = copy_text("failed to parse JSONC: ");
                s.append(e.as_str());
                s
            },
            EditError::RootNotObject => copy_text("expected root value to be an object"),
            EditError::MissingContainer { path } => {
                let mut s = path.clone();
                s.append(" is not present in the source");
                s
            },
            EditError::NotObject { path } => {
                let mut s = path.clone();
                s.append(" is present but is not an object");
                s
            },
            EditError::ModelNotFound { provider_id, model_id } => {
                let mut s = copy_text("model ");
                s.append(quote(model_id.as_str()).as_str());
                s.append(" not found under provider ");
                s.append(quote(provider_id.as_str()).as_str());
                s
            },
        }
    }
}

// -------------------------------------------------------------------- the nodes

/// Where a value stands, and its properties where it is an object.
pub struct Node {
    pub start: usize,
    pub end: usize,
    pub props: Option<Vec<Prop>>,
}

/// A property: where its name begins, its name, and its value.
pub struct Prop {
    pub start: usize,
    pub name: String,
    pub value: Node,
}

pub struct NodeView {
    pub start: int,
    pub end: int,
    pub props: Option<Seq<PropView>>,
}

pub struct PropView {
    pub start: int,
    pub name: Seq<char>,
    pub value: NodeView,
}

/// A node's places and its properties' names.
pub open spec fn node_view(n: Node) -> NodeView
    decreases n,
{
    NodeView {
        start: n.start as int,
        end: n.end as int,
        props: match n.props {
            Some(v) => Some(
                Seq::new(
                    v@.len(),
                    |i: int|
                        if 0 <= i < v@.len() {
                            PropView {
                                start: v@[i].start as int,
                                name: v@[i].name@,
                                value: node_view(v@[i].value),
                            }
                        } else {
                            arbitrary()
                        },
                ),
            ),
            None => None,
        },
    }
}

impl View for Node {
    type V = NodeView;

    open spec fn view(&self) -> NodeView {
        node_view(*self)
    }
}

impl View for Prop {
    type V = PropView;

    open spec fn view(&self) -> PropView {
        PropView { start: self.start as int, name: self.name@, value: self.value@ }
    }
}

pub open spec fn prop_views(v: Seq<Prop>) -> Seq<PropView> {
    Seq::new(v.len(), |i: int| v[i]@)
}

/// The view of an object's properties is that of its parts.
pub broadcast proof fn lemma_node_view(n: Node)
    ensures
        match n.props {
            Some(v) => (#[trigger] n@).props == Some(prop_views(v@)),
            None => n@.props is None,
        },
{
    reveal_with_fuel(node_view, 2);
    if let Some(v) = n.props {
        let w = n@.props->0;
        assert(w.len() == v@.len());
        assert forall|i: int| 0 <= i < w.len() implies w[i] == #[trigger] prop_views(v@)[i] by {
            assert(w[i].value == v@[i].value@);
        }
        assert(w =~= prop_views(v@));
    }
}

/// A byte that `u8::is_ascii_whitespace` accepts.
pub open spec fn is_blank(b: u8) -> bool {
    b == 32 || b == 9 || b == 10 || b == 12 || b == 13
}

/// The node's place is one of the source, between characters, and it ends
/// with no whitespace. An object's place begins with its brace and ends with
/// it, and its properties stand between the two, one behind the other.
pub open spec fn placed(b: Seq<u8>, n: NodeView) -> bool
    decreases n,
{
    &&& 0 <= n.start < n.end <= b.len()
    &&& is_char_boundary(b, n.start)
    &&& is_char_boundary(b, n.end)
    &&& !is_blank(b[n.end - 1])
    &&& match n.props {
        Some(v) => {
            &&& n.start + 1 < n.end
            &&& b[n.start] == 123
            &&& b[n.end - 1] == 125
            &&& forall|i: int|
                0 <= i < v.len() ==> {
                    let p = #[trigger] v[i];
                    &&& n.start < p.start < p.value.start
                    &&& p.value.end < n.end
                    &&& is_char_boundary(b, p.start)
                    &&& placed(b, p.value)
                }
            &&& forall|i: int, j: int|
                0 <= i < j < v.len() ==> (#[trigger] v[i]).value.end <= (#[trigger] v[j]).start
        },
        None => true,
    }
}

/// A property stands inside its object.
pub proof fn lemma_prop(b: Seq<u8>, n: NodeView, i: int)
    requires
        placed(b, n),
        n.props is Some,
        0 <= i < n.props->0.len(),
    ensures
        ({
            let p = n.props->0[i];
            &&& n.start < p.start < p.value.start < p.value.end < n.end <= b.len()
            &&& is_char_boundary(b, p.start)
            &&& is_char_boundary(b, p.value.start)
            &&& is_char_boundary(b, p.value.end)
            &&& !is_blank(b[p.value.end - 1])
            &&& placed(b, p.value)
        }),
{
    reveal_with_fuel(placed, 2);
    let p = n.props->0[i];
    assert(placed(b, p.value));
}

// -------------------------------------------------------------- the outside parser

#[verifier::external_type_specification]
#[verifier::external_body]
pub struct ExAst<'a>(jsonc_parser::ast::Value<'a>);

/// What a value of the parser's syntax tree holds.
pub uninterp spec fn ast_view(v: jsonc_parser::ast::Value<'_>) -> NodeView;

/// The syntax tree that the parser makes of a source — none where the source
/// holds no value — or the text of its error.
pub uninterp spec fn jsonc_tree(source: Seq<char>) -> Result<Option<NodeView>, Seq<char>>;

/// Calls `jsonc_parser::parse_to_ast` with the default options. The tree
/// depends on the source alone. The scanner counts bytes, character by
/// character, and takes a token's place from its first character to behind
/// its last; an object spans from its opening to its closing brace, and a
/// property from its name to the end of its value.
#[verifier::external_body]
fn parse_tree<'a>(source: &'a str) -> (r: Result<Option<jsonc_parser::ast::Value<'a>>, String>)
    ensures
        match r {
            Ok(Some(v)) => jsonc_tree(source@) == Ok::<Option<NodeView>, Seq<char>>(
                Some(ast_view(v)),
            ) && placed(encode_utf8(source@), ast_view(v)),
            Ok(None) => jsonc_tree(source@) == Ok::<Option<NodeView>, Seq<char>>(None),
            Err(e) => jsonc_tree(source@) == Err::<Option<NodeView>, Seq<char>>(e@),
        },
{
    let collect = jsonc_parser::CollectOptions::default();
    let options = jsonc_parser::ParseOptions::default();
    match jsonc_parser::parse_to_ast(source, &collect, &options) {
        Ok(p) => Ok(p.value),
        Err(e) => Err(e.to_string()),
    }
}

/// Converts a `jsonc_parser::ast::Value`, variant by variant: its range, and
/// an object's properties with their ranges' starts and their names.
#[verifier::external_body]
fn node_of(v: &jsonc_parser::ast::Value<'_>) -> (r: Node)
    ensures
        r@ == ast_view(*v),
{
    let range = jsonc_parser::common::Ranged::range(v);
    let props = v.as_object().map(|o| o.properties.iter().map(|p| Prop {
        start: p.range.start,
        name: p.name.as_str().to_string(),
        value: node_of(&p.value),
    }).collect());
    Node { start: range.start, end: range.end, props }
}

/// The value that the parser reads from a source — none where it holds none —
/// or the text of its error.
pub uninterp spec fn jsonc_document(source: Seq<char>) -> Result<Option<JsonView>, Seq<char>>;

/// Calls `jsonc_parser::parse_to_serde_value` with the default options; what
/// it reads depends on the source alone.
#[verifier::external_body]
fn read_document(source: &str) -> (r: Result<Option<serde_json::Value>, String>)
    ensures
        match r {
            Ok(Some(v)) => jsonc_document(source@) == Ok::<Option<JsonView>, Seq<char>>(
                Some(value_view(v)),
            ),
            Ok(None) => jsonc_document(source@) == Ok::<Option<JsonView>, Seq<char>>(None),
            Err(e) => jsonc_document(source@) == Err::<Option<JsonView>, Seq<char>>(e@),
        },
{
    let options = jsonc_parser::ParseOptions::default();
    jsonc_parser::parse_to_serde_value(source, &options).map_err(|e| e.to_string())
}

/// The places of the comments that the parser finds in a source, or the text
/// of its error.
pub uninterp spec fn jsonc_comments(source: Seq<char>) -> Result<Set<(usize, usize)>, Seq<char>>;

/// Calls `jsonc_parser::parse_to_ast` with comments collected apart. Which
/// comments there are depends on the source alone; the order in which they
/// come does not.
#[verifier::external_body]
fn find_comments(source: &str) -> (r: Result<Vec<(usize, usize)>, String>)
    ensures
        match r {
            Ok(v) => jsonc_comments(source@) == Ok::<Set<(usize, usize)>, Seq<char>>(
                v@.to_set(),
            ),
            Err(e) => jsonc_comments(source@) == Err::<Set<(usize, usize)>, Seq<char>>(e@),
        },
{
    let comments = jsonc_parser::CommentCollectionStrategy::Separate;
    let collect = jsonc_parser::CollectOptions { comments, tokens: false };
    let options = jsonc_parser::ParseOptions::default();
    match jsonc_parser::parse_to_ast(source, &collect, &options) {
        Ok(p) => Ok(p.comments.iter().flat_map(|m| m.values()).flat_map(|c| c.iter()).map(|c| {
            let range = jsonc_parser::common::Ranged::range(c);
            (range.start, range.end)
        }).collect()),
        Err(e) => Err(e.to_string()),
    }
}

/// The value that a JSONC source holds, or why it is none.
pub fn parse_value(source: &str) -> (r: Result<Option<Json>, String>)
    ensures
        match r {
            Ok(Some(j)) => jsonc_document(source@) == Ok::<Option<JsonView>, Seq<char>>(Some(j@)),
            Ok(None) => jsonc_document(source@) == Ok::<Option<JsonView>, Seq<char>>(None),
            Err(e) => jsonc_document(source@) == Err::<Option<JsonView>, Seq<char>>(e@),
        },
{
    match read_document(source) {
        Ok(Some(v)) => Ok(Some(json_of(&v))),
        Ok(None) => Ok(None),
        Err(e) => Err(e),
    }
}

/// The root of a source, or why there is none.
pub open spec fn root_of(source: Seq<char>) -> Result<NodeView, EditErrorView> {
    match jsonc_tree(source) {
        Ok(Some(n)) => Ok(n),
        Ok(None) => Err(EditErrorView::RootNotObject),
        Err(e) => Err(EditErrorView::Parse(e)),
    }
}

/// The root value of a source.
pub fn parse_source(source: &str) -> (r: Result<Node, EditError>)
    ensures
        match r {
            Ok(n) => root_of(source@) == Ok::<NodeView, EditErrorView>(n@) && placed(
                encode_utf8(source@),
                n@,
            ),
            Err(e) => root_of(source@) == Err::<NodeView, EditErrorView>(e@),
        },
{
    match parse_tree(source) {
        Ok(Some(v)) => Ok(node_of(&v)),
        Ok(None) => Err(EditError::RootNotObject),
        Err(e) => Err(EditError::Parse(e)),
    }
}

// ------------------------------------------------------------ pieces of the source

/// The text between two places of a source.
pub open spec fn cut(s: Seq<char>, a: int, b: int) -> Seq<char> {
    decode_utf8(encode_utf8(s).subrange(a, b))
}

/// The bytes of a source.
pub open spec fn bytes(s: Seq<char>) -> Seq<u8> {
    encode_utf8(s)
}

proof fn lemma_ascii_boundary(b: Seq<u8>, i: int)
    requires
        valid_utf8(b),
        0 <= i < b.len(),
        b[i] < 128,
    ensures
        is_char_boundary(b, i),
{
    vstd::utf8::is_char_boundary_iff_not_is_continuation_byte(b, i);
    vstd::utf8::utf8_byte_ranges_bitwise(b[i]);
    let x = b[i];
    assert(!is_continuation_byte(x)) by {
        assert(x < 128);
    }
}

proof fn lemma_prefix_boundary(b: Seq<u8>, i: int, n: int)
    requires
        valid_utf8(b),
        0 <= i <= n <= b.len(),
        is_char_boundary(b, i),
        is_char_boundary(b, n),
    ensures
        valid_utf8(b.subrange(0, n)),
        is_char_boundary(b.subrange(0, n), i),
{
    let p = b.subrange(0, n);
    vstd::utf8::valid_utf8_split(b, n);
    if i == n {
        vstd::utf8::is_char_boundary_start_end_of_seq(p);
    } else {
        assert(p[i] == b[i]);
        vstd::utf8::is_char_boundary_iff_not_is_continuation_byte(b, i);
        vstd::utf8::is_char_boundary_iff_not_is_continuation_byte(p, i);
    }
}

/// A place between two characters of the source, or at one of its ends.
pub open spec fn between_chars(s: Seq<char>, i: int) -> bool {
    0 <= i <= bytes(s).len() && is_char_boundary(bytes(s), i)
}

fn piece<'a>(source: &'a str, a: usize, b: usize) -> (r: &'a str)
    requires
        a <= b,
        between_chars(source@, a as int),
        between_chars(source@, b as int),
    ensures
        r@ == cut(source@, a as int, b as int),
{
    broadcast use {vstd::utf8::encode_utf8_valid_utf8, vstd::utf8::encode_utf8_decode_utf8};

    let ghost all = bytes(source@);
    proof {
        lemma_prefix_boundary(all, a as int, b as int);
    }
    let (left, _) = source.split_at(b);
    assert(encode_utf8(left@) == all.subrange(0, b as int));
    let (_, mid) = left.split_at(a);
    assert(encode_utf8(mid@) =~= all.subrange(a as int, b as int));
    assert(decode_utf8(encode_utf8(mid@)) == mid@);
    mid
}

/// The ends of a source are places.
proof fn lemma_ends(s: Seq<char>)
    ensures
        valid_utf8(bytes(s)),
        between_chars(s, 0),
        between_chars(s, bytes(s).len() as int),
{
    vstd::utf8::encode_utf8_valid_utf8(s);
    vstd::utf8::is_char_boundary_start_end_of_seq(bytes(s));
}

// --------------------------------------------------------------------- indents

/// The last line feed before a place.
pub open spec fn line_feed_before(b: Seq<u8>, pos: int) -> Option<int>
    decreases pos,
{
    if pos <= 0 || pos > b.len() {
        None
    } else if b[pos - 1] == 10 {
        Some(pos - 1)
    } else {
        line_feed_before(b, pos - 1)
    }
}

/// The spaces and tabs from `from` on, and before `to`.
pub open spec fn blanks(b: Seq<u8>, from: int, to: int) -> Seq<char>
    decreases to - from,
{
    if 0 <= from < to && to <= b.len() && (b[from] == 32 || b[from] == 9) {
        seq![b[from] as char] + blanks(b, from + 1, to)
    } else {
        Seq::empty()
    }
}

/// The indent of the line that a place stands on; none on the first line.
pub open spec fn line_indent(b: Seq<u8>, pos: int) -> Seq<char> {
    match line_feed_before(b, pos) {
        Some(nl) => blanks(b, nl + 1, pos),
        None => Seq::empty(),
    }
}

/// The indent used for the *contents* of an object: that of its first
/// property's line, or two spaces beyond the object's own.
pub open spec fn property_indent(b: Seq<u8>, n: NodeView) -> Seq<char> {
    match n.props {
        Some(v) => if v.len() > 0 && line_indent(b, v[0].start).len() > 0 {
            line_indent(b, v[0].start)
        } else {
            line_indent(b, n.start) + "  "@
        },
        None => line_indent(b, n.start) + "  "@,
    }
}

fn indent_of_line(b: &[u8], pos: usize) -> (r: String)
    requires
        pos <= b.len(),
    ensures
        r@ == line_indent(b@, pos as int),
{
    let mut i: usize = pos;
    while i > 0 && b[i - 1] != 10
        invariant
            i <= pos <= b.len(),
            line_feed_before(b@, pos as int) == line_feed_before(b@, i as int),
        decreases i,
    {
        i -= 1;
    }
    let mut out = String::new();
    if i == 0 {
        return out;
    }
    let mut k: usize = i;
    assert(out@ + blanks(b@, k as int, pos as int) =~= blanks(b@, k as int, pos as int));
    while k < pos && (b[k] == 32 || b[k] == 9)
        invariant
            i <= k <= pos <= b.len(),
            out@ + blanks(b@, k as int, pos as int) == blanks(b@, i as int, pos as int),
        decreases pos - k,
    {
        let ghost before = out@;
        out.push(b[k] as char);
        assert(out@ + blanks(b@, k + 1, pos as int) =~= before + (seq![b@[k as int] as char]
            + blanks(b@, k + 1, pos as int)));
        k += 1;
    }
    assert(out@ + blanks(b@, k as int, pos as int) =~= out@);
    out
}

/// Detect the indent (whitespace prefix) used for the *contents* of an object.
fn detect_property_indent(b: &[u8], n: &Node) -> (r: String)
    requires
        placed(b@, n@),
    ensures
        r@ == property_indent(b@, n@),
{
    broadcast use lemma_node_view;

    if let Some(v) = &n.props {
        if v.len() > 0 {
            assert(n@.props->0[0] == v@[0]@);
            proof {
                lemma_prop(b@, n@, 0);
            }
            let first = indent_of_line(b, v[0].start);
            if !first.as_str().is_empty() {
                return first;
            }
        }
    }
    let mut out = indent_of_line(b, n.start);
    out.append("  ");
    out
}

// ---------------------------------------------------------------------- commas

/// Behind a line comment: the line feed that ends it, or `to`.
pub open spec fn line_end(b: Seq<u8>, i: int, to: int) -> int
    decreases to - i,
{
    if 0 <= i < to && i < b.len() && b[i] != 10 {
        line_end(b, i + 1, to)
    } else {
        i
    }
}

/// The star of the delimiter that closes a block comment, or the place where
/// none can stand any more.
pub open spec fn block_end(b: Seq<u8>, i: int, to: int) -> int
    decreases to - i,
{
    if 0 <= i && i + 1 < to && i + 1 < b.len() && !(b[i] == 42 && b[i + 1] == 47) {
        block_end(b, i + 1, to)
    } else {
        i
    }
}

/// The first comma from `i` on and before `to` that stands in no comment.
///
/// The span between two properties holds only whitespace, comments, and the
/// single separating comma, so the first comma outside a comment is it.
pub open spec fn comma_from(b: Seq<u8>, i: int, to: int) -> Option<int>
    decreases to - i,
{
    if i < 0 || i >= to || to > b.len() {
        None
    } else if b[i] == 44 {
        Some(i)
    } else if b[i] == 47 && i + 1 < b.len() && b[i + 1] == 47 {
        let e = line_end(b, i, to);
        if i <= e < to {
            comma_from(b, e + 1, to)
        } else {
            None
        }
    } else if b[i] == 47 && i + 1 < b.len() && b[i + 1] == 42 {
        let e = block_end(b, i + 2, to);
        if i <= e && e + 2 < to {
            comma_from(b, e + 2, to)
        } else {
            None
        }
    } else {
        comma_from(b, i + 1, to)
    }
}

proof fn lemma_line_end(b: Seq<u8>, i: int, to: int)
    requires
        0 <= i <= to <= b.len(),
    ensures
        i <= line_end(b, i, to) <= to,
    decreases to - i,
{
    if i < to && b[i] != 10 {
        lemma_line_end(b, i + 1, to);
    }
}

proof fn lemma_block_end(b: Seq<u8>, i: int, to: int)
    requires
        0 <= i,
        to <= b.len(),
    ensures
        i <= block_end(b, i, to),
        block_end(b, i, to) <= i || block_end(b, i, to) < to,
    decreases to - i,
{
    if i + 1 < to && !(b[i] == 42 && b[i + 1] == 47) {
        lemma_block_end(b, i + 1, to);
    }
}

/// Where the property-separating comma stands, ignoring any commas that
/// appear inside comments.
fn find_separator_comma(b: &[u8], from: usize, to: usize) -> (r: Option<usize>)
    requires
        to <= b.len(),
    ensures
        match r {
            Some(i) => comma_from(b@, from as int, to as int) == Some(i as int) && from <= i < to
                && b@[i as int] == 44,
            None => comma_from(b@, from as int, to as int) is None,
        },
{
    let mut i: usize = from;
    while i < to
        invariant
            from <= i,
            i <= to || i == from,
            to <= b.len(),
            comma_from(b@, from as int, to as int) == comma_from(b@, i as int, to as int),
        decreases to - i,
    {
        if b[i] == 44 {
            return Some(i);
        }
        if b[i] == 47 && b.len() - i > 1 && b[i + 1] == 47 {
            let start = i;
            proof {
                lemma_line_end(b@, i as int, to as int);
            }
            while i < to && b[i] != 10
                invariant
                    start <= i <= to,
                    to <= b.len(),
                    line_end(b@, start as int, to as int) == line_end(b@, i as int, to as int),
                decreases to - i,
            {
                i += 1;
            }
            if i == to {
                return None;
            }
            i += 1;
        } else if b[i] == 47 && b.len() - i > 1 && b[i + 1] == 42 {
            let start = i;
            proof {
                lemma_block_end(b@, i + 2, to as int);
            }
            if to - i <= 2 {
                return None;
            }
            i += 2;
            while to - i > 1 && !(b[i] == 42 && b[i + 1] == 47)
                invariant
                    start + 2 <= i < to,
                    to <= b.len(),
                    block_end(b@, start + 2, to as int) == block_end(b@, i as int, to as int),
                decreases to - i,
            {
                i += 1;
            }
            if to - i <= 2 {
                return None;
            }
            i += 2;
        } else {
            i += 1;
        }
    }
    None
}

/// Backs up over the whitespace before a place.
pub open spec fn before_blanks(b: Seq<u8>, pos: int) -> int
    decreases pos,
{
    if 0 < pos <= b.len() && is_blank(b[pos - 1]) {
        before_blanks(b, pos - 1)
    } else {
        pos
    }
}

proof fn lemma_before_blanks(b: Seq<u8>, pos: int, floor: int)
    requires
        0 < floor <= pos <= b.len(),
        !is_blank(b[floor - 1]),
    ensures
        floor <= before_blanks(b, pos) <= pos,
        before_blanks(b, pos) < pos ==> is_blank(b[before_blanks(b, pos)]),
        forall|i: int| before_blanks(b, pos) <= i < pos ==> is_blank(#[trigger] b[i]),
    decreases pos,
{
    if is_blank(b[pos - 1]) {
        lemma_before_blanks(b, pos - 1, floor);
    }
}

/// The comma that an object's last property needs before another follows:
/// right behind its VALUE — not at the end of a comment that trails it, where
/// a strict parser would never see it. None where the object is empty, or
/// where there is a comma already.
pub open spec fn missing_comma(b: Seq<u8>, n: NodeView) -> Option<int> {
    match n.props {
        Some(v) => if v.len() == 0 {
            None
        } else {
            let end = v.last().value.end;
            let gap = b.subrange(end, before_blanks(b, n.end - 1));
            if comma_from(gap, 0, gap.len() as int) is Some {
                None
            } else {
                Some(end)
            }
        },
        None => None,
    }
}

/// Where a separating comma must go when appending to an object, and where
/// the new entry starts: behind real content, not behind a blank line.
fn append_positions(b: &[u8], n: &Node) -> (r: (Option<usize>, usize))
    requires
        placed(b@, n@),
        n@.props is Some,
        valid_utf8(b@),
    ensures
        match r.0 {
            Some(c) => missing_comma(b@, n@) == Some(c as int) && c <= r.1 && is_char_boundary(
                b@,
                c as int,
            ),
            None => missing_comma(b@, n@) is None,
        },
        r.1 as int == before_blanks(b@, n@.end - 1),
        n@.start < r.1 < n@.end,
        is_char_boundary(b@, r.1 as int),
{
    broadcast use lemma_node_view;

    let close = n.end - 1;
    let mut pos: usize = close;
    proof {
        lemma_before_blanks(b@, close as int, n@.start + 1);
    }
    while pos > 0 && (b[pos - 1] == 32 || b[pos - 1] == 9 || b[pos - 1] == 10 || b[pos - 1] == 12
        || b[pos - 1] == 13)
        invariant
            pos <= close < b.len(),
            before_blanks(b@, close as int) == before_blanks(b@, pos as int),
        decreases pos,
    {
        pos -= 1;
    }
    proof {
        lemma_ascii_boundary(b@, pos as int);
    }
    if let Some(v) = &n.props {
        let ghost pv = n@.props->0;
        assert(pv == prop_views(v@));
        if v.len() > 0 {
            let k = v.len() - 1;
            assert(pv[k as int] == v@[k as int]@);
            assert(pv.last() == pv[k as int]);
            let end = v[k].value.end;
            proof {
                lemma_prop(b@, n@, k as int);
                lemma_before_blanks(b@, close as int, end as int);
            }
            let gap = vstd::slice::slice_subrange(b, end, pos);
            if find_separator_comma(gap, 0, gap.len()).is_some() {
                return (None, pos);
            }
            return (Some(end), pos);
        }
    }
    (None, pos)
}

// --------------------------------------------------------------- rendered values

/// A text with an indent before each line but the first.
pub open spec fn indented(raw: Seq<char>, indent: Seq<char>) -> Seq<char> {
    join(split_on(raw, '\n'), "\n"@ + indent)
}

/// A value's indented text, which fits as the value part of a property at
/// this indent.
pub open spec fn value_at(v: JsonView, indent: Seq<char>) -> Seq<char> {
    indented(json_pretty(built(v)), indent)
}

/// A property: its key, a colon, and its value at this indent.
pub open spec fn entry_at(key: Seq<char>, v: JsonView, indent: Seq<char>) -> Seq<char> {
    json_string(key) + ": "@ + value_at(v, indent)
}

/// A text with an indent before each line but the first.
pub fn indent_lines(raw: &str, indent: &str) -> (r: String)
    ensures
        r@ == indented(raw@, indent@),
{
    let c = chars_of(raw);
    let parts = parts_of(&c, '\n');
    let mut sep = copy_text("\n");
    sep.append(indent);
    crate::text::join_views(&parts, sep.as_str())
}

/// Serialize a JSON value with a fixed left-indent so its rendered form fits
/// as the value part of an object property. Uses 2-space nested indent
/// (matches opencode's convention).
fn serialize_value_at_indent(v: &Json, indent: &str) -> (r: String)
    ensures
        r@ == value_at(v@, indent@),
{
    let raw = pretty(v);
    indent_lines(raw.as_str(), indent)
}

/// Render an entry as a JSONC property (multi-line, pretty), indented to
/// match the surrounding properties.
fn serialize_entry(key: &str, v: &Json, indent: &str) -> (r: String)
    ensures
        r@ == entry_at(key@, v@, indent@),
{
    let mut s = quoted_string(key);
    s.append(": ");
    s.append(serialize_value_at_indent(v, indent).as_str());
    s
}

// ------------------------------------------------------------------- navigation

/// The first property from `from` on with the name.
pub open spec fn prop_from(v: Seq<PropView>, name: Seq<char>, from: int) -> Option<int>
    decreases v.len() - from,
{
    if from < 0 || from >= v.len() {
        None
    } else if v[from].name == name {
        Some(from)
    } else {
        prop_from(v, name, from + 1)
    }
}

/// The value of an object's property.
pub open spec fn prop_value(n: NodeView, name: Seq<char>) -> Option<NodeView> {
    match n.props {
        Some(v) => match prop_from(v, name, 0) {
            Some(i) => Some(v[i].value),
            None => None,
        },
        None => None,
    }
}

/// The object that a property holds, or why there is none.
pub open spec fn object_at(n: NodeView, name: Seq<char>, path: Seq<char>) -> Result<
    NodeView,
    EditErrorView,
> {
    match prop_value(n, name) {
        None => Err(EditErrorView::MissingContainer(path)),
        Some(v) => if v.props is Some {
            Ok(v)
        } else {
            Err(EditErrorView::NotObject(path))
        },
    }
}

/// The path of a provider's block.
pub open spec fn block_path(provider_id: Seq<char>) -> Seq<char> {
    "provider."@ + provider_id
}

/// The path of a provider's models.
pub open spec fn models_path(provider_id: Seq<char>) -> Seq<char> {
    "provider."@ + provider_id + ".models"@
}

/// `root -> provider -> <provider_id> -> models`, or the first hop that is
/// absent or no object.
pub open spec fn models_of(root: NodeView, provider_id: Seq<char>) -> Result<
    NodeView,
    EditErrorView,
> {
    match object_at(root, "provider"@, "provider"@) {
        Err(e) => Err(e),
        Ok(providers) => match object_at(providers, provider_id, block_path(provider_id)) {
            Err(e) => Err(e),
            Ok(block) => object_at(block, "models"@, models_path(provider_id)),
        },
    }
}

/// The root object of a source.
pub open spec fn root_object(source: Seq<char>) -> Result<NodeView, EditErrorView> {
    match root_of(source) {
        Ok(n) => if n.props is Some {
            Ok(n)
        } else {
            Err(EditErrorView::RootNotObject)
        },
        Err(e) => Err(e),
    }
}

/// The models object of a source.
pub open spec fn models_in(source: Seq<char>, provider_id: Seq<char>) -> Result<
    NodeView,
    EditErrorView,
> {
    match root_object(source) {
        Ok(root) => models_of(root, provider_id),
        Err(e) => Err(e),
    }
}

proof fn lemma_prop_from(v: Seq<PropView>, name: Seq<char>, from: int)
    requires
        0 <= from,
    ensures
        match prop_from(v, name, from) {
            Some(i) => from <= i < v.len() && v[i].name == name,
            None => true,
        },
    decreases v.len() - from,
{
    if from < v.len() && v[from].name != name {
        lemma_prop_from(v, name, from + 1);
    }
}

fn find_prop(v: &[Prop], name: &str) -> (r: Option<usize>)
    ensures
        match r {
            Some(i) => i < v.len() && prop_from(prop_views(v@), name@, 0) == Some(i as int),
            None => prop_from(prop_views(v@), name@, 0) is None,
        },
{
    let mut i: usize = 0;
    while i < v.len()
        invariant
            i <= v.len(),
            prop_from(prop_views(v@), name@, 0) == prop_from(prop_views(v@), name@, i as int),
        decreases v.len() - i,
    {
        assert(prop_views(v@)[i as int] == v@[i as int]@);
        if same_text(v[i].name.as_str(), name) {
            return Some(i);
        }
        i += 1;
    }
    None
}

impl Node {
    /// The value of an object's property.
    pub fn get(&self, name: &str) -> (r: Option<&Node>)
        ensures
            match r {
                Some(v) => prop_value(self@, name@) == Some(v@),
                None => prop_value(self@, name@) is None,
            },
    {
        broadcast use lemma_node_view;

        match &self.props {
            Some(v) => match find_prop(v, name) {
                Some(i) => {
                    assert(prop_views(v@)[i as int] == v@[i as int]@);
                    Some(&v[i].value)
                },
                None => None,
            },
            None => None,
        }
    }

    /// Whether the value is an object.
    pub fn is_object(&self) -> (r: bool)
        ensures
            r == (self@.props is Some),
    {
        broadcast use lemma_node_view;

        self.props.is_some()
    }
}

proof fn lemma_value_placed(b: Seq<u8>, n: NodeView, name: Seq<char>)
    requires
        placed(b, n),
        prop_value(n, name) is Some,
    ensures
        placed(b, prop_value(n, name)->0),
        n.start < prop_value(n, name)->0.start,
        prop_value(n, name)->0.end < n.end,
{
    let v = n.props->0;
    lemma_prop_from(v, name, 0);
    lemma_prop(b, n, prop_from(v, name, 0)->0);
}

fn object_in<'a>(n: &'a Node, name: &str, path: &str, Ghost(b): Ghost<Seq<u8>>) -> (r: Result<
    &'a Node,
    EditError,
>)
    requires
        placed(b, n@),
    ensures
        match r {
            Ok(v) => object_at(n@, name@, path@) == Ok::<NodeView, EditErrorView>(v@) && placed(
                b,
                v@,
            ) && v@.props is Some,
            Err(e) => object_at(n@, name@, path@) == Err::<NodeView, EditErrorView>(e@),
        },
{
    match n.get(name) {
        None => Err(EditError::MissingContainer { path: copy_text(path) }),
        Some(v) => {
            proof {
                lemma_value_placed(b, n@, name@);
            }
            if v.is_object() {
                Ok(v)
            } else {
                Err(EditError::NotObject { path: copy_text(path) })
            }
        },
    }
}

/// Navigate `root -> provider -> <provider_id> -> models`. Returns the models
/// object; returns `MissingContainer` if any hop is absent.
fn navigate_to_models<'a>(root: &'a Node, provider_id: &str, Ghost(b): Ghost<Seq<u8>>) -> (r:
    Result<&'a Node, EditError>)
    requires
        placed(b, root@),
    ensures
        match r {
            Ok(v) => models_of(root@, provider_id@) == Ok::<NodeView, EditErrorView>(v@) && placed(
                b,
                v@,
            ) && v@.props is Some,
            Err(e) => models_of(root@, provider_id@) == Err::<NodeView, EditErrorView>(e@),
        },
{
    let providers = match object_in(root, "provider", "provider", Ghost(b)) {
        Ok(v) => v,
        Err(e) => {
            return Err(e);
        },
    };
    let mut path = copy_text("provider.");
    path.append(provider_id);
    let block = match object_in(providers, provider_id, path.as_str(), Ghost(b)) {
        Ok(v) => v,
        Err(e) => {
            return Err(e);
        },
    };
    path.append(".models");
    object_in(block, "models", path.as_str(), Ghost(b))
}

/// The root object of a source.
fn parse_root(source: &str) -> (r: Result<Node, EditError>)
    ensures
        match r {
            Ok(n) => root_object(source@) == Ok::<NodeView, EditErrorView>(n@) && placed(
                bytes(source@),
                n@,
            ) && n@.props is Some,
            Err(e) => root_object(source@) == Err::<NodeView, EditErrorView>(e@),
        },
{
    match parse_source(source) {
        Ok(n) => if n.is_object() {
            Ok(n)
        } else {
            Err(EditError::RootNotObject)
        },
        Err(e) => Err(e),
    }
}

/// How many models a provider of the source has, or why it has none.
pub fn count_models(source: &str, provider_id: &str) -> (r: Result<usize, EditError>)
    ensures
        match r {
            Ok(n) => models_in(source@, provider_id@) is Ok && models_in(
                source@,
                provider_id@,
            )->Ok_0.props->0.len() == n,
            Err(e) => models_in(source@, provider_id@) == Err::<NodeView, EditErrorView>(e@),
        },
{
    broadcast use lemma_node_view;

    let root = match parse_root(source) {
        Ok(n) => n,
        Err(e) => {
            return Err(e);
        },
    };
    let models = match navigate_to_models(&root, provider_id, Ghost(bytes(source@))) {
        Ok(m) => m,
        Err(e) => {
            return Err(e);
        },
    };
    match &models.props {
        Some(v) => Ok(v.len()),
        None => Ok(0),
    }
}

// --------------------------------------------------------------------- insertion

/// The source up to where something is appended to an object, with the comma
/// that its last property needs.
pub open spec fn head_for(s: Seq<char>, n: NodeView) -> Seq<char> {
    let at = before_blanks(bytes(s), n.end - 1);
    match missing_comma(bytes(s), n) {
        Some(c) => cut(s, 0, c) + ","@ + cut(s, c, at),
        None => cut(s, 0, at),
    }
}

/// The source with an entry spliced into an object before its closing brace.
pub open spec fn inserted(s: Seq<char>, n: NodeView, entry: Seq<char>) -> Seq<char> {
    head_for(s, n) + "\n"@ + property_indent(bytes(s), n) + entry + "\n"@ + line_indent(
        bytes(s),
        n.start,
    ) + cut(s, n.end - 1, bytes(s).len() as int)
}

/// Whitespace alone.
pub open spec fn white(s: Seq<char>) -> bool {
    forall|i: int| 0 <= i < bytes(s).len() ==> is_blank(#[trigger] bytes(s)[i])
}

/// The four pieces of a source with two texts put in, one behind the first
/// piece and one in place of the third, which is whitespace.
pub open spec fn grew(
    s: Seq<char>,
    t: Seq<char>,
    old_pieces: (Seq<char>, Seq<char>, Seq<char>, Seq<char>),
    new_pieces: (Seq<char>, Seq<char>),
) -> bool {
    let (a, b, gap, c) = old_pieces;
    let (x, y) = new_pieces;
    s == a + b + gap + c && white(gap) && t == a + x + b + y + c
}

/// The text is the source with something put in: whatever the source holds
/// but whitespace is still there, in its order, comments and all.
pub open spec fn only_adds(s: Seq<char>, t: Seq<char>) -> bool {
    exists|
        old_pieces: (Seq<char>, Seq<char>, Seq<char>, Seq<char>),
        new_pieces: (Seq<char>, Seq<char>),
    | #[trigger]
        grew(s, t, old_pieces, new_pieces)
}

/// Splicing an entry into an object takes nothing away.
pub proof fn insertion_only_adds(s: Seq<char>, n: NodeView, entry: Seq<char>)
    requires
        placed(bytes(s), n),
        n.props is Some,
    ensures
        only_adds(s, inserted(s, n, entry)),
{
    let b = bytes(s);
    let close = n.end - 1;
    let at = before_blanks(b, close);
    let len = b.len() as int;
    lemma_ends(s);
    lemma_before_blanks(b, close, n.start + 1);
    lemma_ascii_boundary(b, close);
    lemma_ascii_boundary(b, at);
    let new = "\n"@ + property_indent(b, n) + entry + "\n"@ + line_indent(b, n.start);
    let (c, comma) = match missing_comma(b, n) {
        Some(c) => (c, ","@),
        None => (at, Seq::<char>::empty()),
    };
    if missing_comma(b, n) is Some {
        let k = n.props->0.len() - 1;
        lemma_prop(b, n, k);
        lemma_before_blanks(b, close, c);
    }
    pieces_join(s, 0, c, at);
    pieces_join(s, 0, at, close);
    pieces_join(s, 0, close, len);
    let gap = cut(s, at, close);
    assert(white(gap)) by {
        lemma_prefix_boundary(b, at, close);
        let p = b.subrange(0, close);
        vstd::utf8::valid_utf8_split(p, at);
        assert(p.subrange(at, close) =~= b.subrange(at, close));
        vstd::utf8::decode_utf8_encode_utf8(b.subrange(at, close));
        assert(bytes(gap) == b.subrange(at, close));
    }
    let old_pieces = (cut(s, 0, c), cut(s, c, at), gap, cut(s, close, len));
    if c == at {
        assert(cut(s, c, at) =~= Seq::<char>::empty()) by {
            pieces_join(s, at, at, at);
            assert((cut(s, at, at) + cut(s, at, at)).len() == 2 * cut(s, at, at).len());
        }
    }
    assert(s =~= old_pieces.0 + old_pieces.1 + old_pieces.2 + old_pieces.3);
    assert(inserted(s, n, entry) =~= old_pieces.0 + comma + old_pieces.1 + new + old_pieces.3);
    assert(grew(s, inserted(s, n, entry), old_pieces, (comma, new)));
}

/// A source is itself with nothing put in.
proof fn lemma_same_adds(s: Seq<char>)
    ensures
        only_adds(s, s),
{
    let none = Seq::<char>::empty();
    assert(white(none));
    assert(s =~= s + none + none + none);
    assert(s =~= s + none + none + none + none);
    assert(grew(s, s, (s, none, none, none), (none, none)));
}

/// Splice `entry_text` (e.g. `"foo": { ... }`) into `object` before its
/// closing `}`. Honors trailing-comma style: if existing last property has a
/// trailing comma, keep that; otherwise add one to the previous last property.
fn splice_into_object(source: &str, object: &Node, entry_text: &str) -> (r: String)
    requires
        placed(bytes(source@), object@),
        object@.props is Some,
    ensures
        r@ == inserted(source@, object@, entry_text@),
        only_adds(source@, r@),
{
    let b = source.as_bytes();
    proof {
        lemma_ends(source@);
        insertion_only_adds(source@, object@, entry_text@);
    }
    let indent = detect_property_indent(b, object);
    let (comma, at) = append_positions(b, object);
    let close = object.end - 1;
    proof {
        lemma_ascii_boundary(b@, close as int);
    }
    let mut out = String::new();
    match comma {
        Some(c) => {
            out = copy_text(piece(source, 0, c));
            out.append(",");
            out.append(piece(source, c, at));
        },
        None => {
            out = copy_text(piece(source, 0, at));
        },
    }
    out.append("\n");
    out.append(indent.as_str());
    out.append(entry_text);
    out.append("\n");
    out.append(indent_of_line(b, object.start).as_str());
    out.append(piece(source, close, b.len()));
    out
}

/// The result of inserting a model.
pub open spec fn added(s: Seq<char>, provider_id: Seq<char>, model_id: Seq<char>, entry: JsonView) -> Result<
    Seq<char>,
    EditErrorView,
> {
    match models_in(s, provider_id) {
        Ok(m) => Ok(inserted(s, m, entry_at(model_id, entry, property_indent(bytes(s), m)))),
        Err(e) => Err(e),
    }
}

/// What an edit returns.
pub open spec fn edited(r: Result<String, EditError>, want: Result<Seq<char>, EditErrorView>) -> bool {
    match (r, want) {
        (Ok(t), Ok(w)) => t@ == w,
        (Err(e), Err(f)) => e@ == f,
        _ => false,
    }
}

/// Insert a new `"model_id": entry` pair into `provider.<provider_id>.models`.
///
/// Preserves comments and existing formatting. Matches the trailing-comma
/// style already in use in the models object.
pub fn add_model(source: &str, provider_id: &str, model_id: &str, entry: &Json) -> (r: Result<
    String,
    EditError,
>)
    ensures
        edited(r, added(source@, provider_id@, model_id@, entry@)),
        r matches Ok(t) ==> only_adds(source@, t@),
{
    let root = match parse_root(source) {
        Ok(n) => n,
        Err(e) => {
            return Err(e);
        },
    };
    let models = match navigate_to_models(&root, provider_id, Ghost(bytes(source@))) {
        Ok(m) => m,
        Err(e) => {
            return Err(e);
        },
    };
    let indent = detect_property_indent(source.as_bytes(), models);
    let text = serialize_entry(model_id, entry, indent.as_str());
    Ok(splice_into_object(source, models, text.as_str()))
}

/// The scaffold with a models map, which is empty where it has none.
pub open spec fn with_models(v: Seq<(Seq<char>, JsonView)>) -> Seq<(Seq<char>, JsonView)> {
    match key_from(v, "models"@, 0) {
        Some(_) => v,
        None => with_member(v, "models"@, JsonView::Object(Seq::empty())),
    }
}

/// The source with `provider.<provider_id>.models` made sure of.
pub open spec fn ensured(s: Seq<char>, provider_id: Seq<char>, scaffold: JsonView) -> Result<
    Seq<char>,
    EditErrorView,
> {
    match scaffold {
        JsonView::Object(v) => {
            let full = JsonView::Object(with_models(v));
            match root_object(s) {
                Err(e) => Err(e),
                Ok(root) => match prop_value(root, "provider"@) {
                    None => Ok(
                        inserted(
                            s,
                            root,
                            entry_at(
                                "provider"@,
                                JsonView::Object(seq![(provider_id, full)]),
                                property_indent(bytes(s), root),
                            ),
                        ),
                    ),
                    Some(providers) => if providers.props is None {
                        Err(EditErrorView::NotObject("provider"@))
                    } else {
                        match prop_value(providers, provider_id) {
                            None => Ok(
                                inserted(
                                    s,
                                    providers,
                                    entry_at(
                                        provider_id,
                                        full,
                                        property_indent(bytes(s), providers),
                                    ),
                                ),
                            ),
                            Some(block) => if block.props is None {
                                Err(EditErrorView::NotObject(block_path(provider_id)))
                            } else if prop_value(block, "models"@) is None {
                                Ok(
                                    inserted(
                                        s,
                                        block,
                                        entry_at(
                                            "models"@,
                                            JsonView::Object(Seq::empty()),
                                            property_indent(bytes(s), block),
                                        ),
                                    ),
                                )
                            } else {
                                Ok(s)
                            },
                        }
                    },
                },
            }
        },
        _ => Err(EditErrorView::NotObject("scaffold for provider."@ + provider_id)),
    }
}

/// Make sure `provider.<provider_id>.models` exists, creating whichever
/// containers are missing by splicing them in.
///
/// Without this, a config that names a provider but has no `models` key yet
/// would go down the pretty-print fallback, destroying every comment in it.
///
/// `scaffold` is the full provider block to use if `provider.<provider_id>` is
/// absent entirely; an empty `models` object is added where it has none.
pub fn ensure_models_container(source: &str, provider_id: &str, scaffold: &Json) -> (r: Result<
    String,
    EditError,
>)
    ensures
        edited(r, ensured(source@, provider_id@, scaffold@)),
        r matches Ok(t) ==> only_adds(source@, t@),
{
    broadcast use crate::json::lemma_json_view;

    let mut full: Vec<(String, Json)> = match scaffold {
        Json::Object(v) => crate::json::copy_object(v),
        _ => {
            let mut path = copy_text("scaffold for provider.");
            path.append(provider_id);
            return Err(EditError::NotObject { path });
        },
    };
    let ghost given = pair_views(full@);
    assert(scaffold@ == JsonView::Object(given));
    let empty: Vec<(String, Json)> = Vec::new();
    let empty = Json::Object(empty);
    assert(empty@ == JsonView::Object(Seq::empty())) by {
        assert(empty@->Object_0 =~= Seq::<(Seq<char>, JsonView)>::empty());
    }
    if find_key(&full, "models").is_none() {
        set_member(&mut full, "models", empty.copy());
    }
    assert(pair_views(full@) == with_models(given));
    let full = Json::Object(full);
    assert(full@ == JsonView::Object(with_models(given)));
    let b = source.as_bytes();
    let root = match parse_root(source) {
        Ok(n) => n,
        Err(e) => {
            return Err(e);
        },
    };
    let providers = match root.get("provider") {
        Some(p) => p,
        None => {
            let indent = detect_property_indent(b, &root);
            let one: Vec<(String, Json)> = vec![(copy_text(provider_id), full)];
            assert(pair_views(one@) =~= seq![(provider_id@, full@)]);
            let block = Json::Object(one);
            assert(block@ == JsonView::Object(pair_views(one@)));
            let text = serialize_entry("provider", &block, indent.as_str());
            return Ok(splice_into_object(source, &root, text.as_str()));
        },
    };
    proof {
        lemma_value_placed(b@, root@, "provider"@);
    }
    if !providers.is_object() {
        return Err(EditError::NotObject { path: copy_text("provider") });
    }
    let block = match providers.get(provider_id) {
        Some(p) => p,
        None => {
            let indent = detect_property_indent(b, providers);
            let text = serialize_entry(provider_id, &full, indent.as_str());
            return Ok(splice_into_object(source, providers, text.as_str()));
        },
    };
    proof {
        lemma_value_placed(b@, providers@, provider_id@);
    }
    if !block.is_object() {
        let mut path = copy_text("provider.");
        path.append(provider_id);
        return Err(EditError::NotObject { path });
    }
    if block.get("models").is_none() {
        let indent = detect_property_indent(b, block);
        let text = serialize_entry("models", &empty, indent.as_str());
        return Ok(splice_into_object(source, block, text.as_str()));
    }
    proof {
        lemma_same_adds(source@);
    }
    Ok(copy_text(source))
}

// ---------------------------------------------------------------------- merging

/// Behind the properties before the `k`th: the end of the last one's value,
/// or the object's start.
pub open spec fn done_to(n: NodeView, k: int) -> int {
    if 0 < k <= n.props->0.len() {
        n.props->0[k - 1].value.end
    } else {
        n.start
    }
}

/// What becomes of the `k`th property's value. The first property of a name
/// is the one that counts.
pub open spec fn merged_value(
    s: Seq<char>,
    n: NodeView,
    patch: Seq<(Seq<char>, JsonView)>,
    k: int,
) -> Seq<char>
    decreases n, k, 0int,
{
    let v = n.props->0;
    let j = key_from(patch, v[k].name, 0);
    if n.props is Some && 0 <= k < v.len() && prop_from(v, v[k].name, 0) == Some(k) && j is Some {
        let new = patch[j->0].1;
        match new {
            JsonView::Object(sub) => if v[k].value.props is Some {
                merged_object(s, v[k].value, sub)
            } else {
                value_at(new, property_indent(bytes(s), n))
            },
            _ => value_at(new, property_indent(bytes(s), n)),
        }
    } else {
        cut(s, v[k].value.start, v[k].value.end)
    }
}

/// The object's source up to its `k`th property, with the patch in it.
pub open spec fn merged_to(
    s: Seq<char>,
    n: NodeView,
    patch: Seq<(Seq<char>, JsonView)>,
    k: int,
) -> Seq<char>
    decreases n, k, 1int,
{
    if k <= 0 || n.props is None || k > n.props->0.len() {
        Seq::empty()
    } else {
        merged_to(s, n, patch, k - 1) + cut(
            s,
            done_to(n, k - 1),
            n.props->0[k - 1].value.start,
        ) + merged_value(s, n, patch, k - 1)
    }
}

/// Whether the `j`th key of the patch is absent from the object.
pub open spec fn is_new(n: NodeView, patch: Seq<(Seq<char>, JsonView)>, j: int) -> bool {
    prop_from(n.props->0, patch[j].0, 0) is None
}

/// The entries for the patch's first `j` keys, as far as they are absent from
/// the object.
pub open spec fn new_entries(
    n: NodeView,
    patch: Seq<(Seq<char>, JsonView)>,
    indent: Seq<char>,
    j: int,
) -> Seq<char>
    decreases j,
{
    if j <= 0 {
        Seq::empty()
    } else {
        let before = new_entries(n, patch, indent, j - 1);
        if is_new(n, patch, j - 1) {
            (if any_new(n, patch, j - 1) {
                before + ","@
            } else {
                before
            }) + "\n"@ + indent + entry_at(patch[j - 1].0, patch[j - 1].1, indent)
        } else {
            before
        }
    }
}

/// Whether one of the patch's first `j` keys is absent from the object.
pub open spec fn any_new(n: NodeView, patch: Seq<(Seq<char>, JsonView)>, j: int) -> bool
    decreases j,
{
    j > 0 && (is_new(n, patch, j - 1) || any_new(n, patch, j - 1))
}

/// What stands behind an object's last value: as it was where nothing is
/// inserted; else the comma that the last value needs, the comments that
/// trail it, the new entries, and the closing brace.
pub open spec fn merged_tail(s: Seq<char>, n: NodeView, patch: Seq<(Seq<char>, JsonView)>) -> Seq<
    char,
> {
    let from = done_to(n, n.props->0.len() as int);
    let indent = property_indent(bytes(s), n);
    if any_new(n, patch, patch.len() as int) {
        (if missing_comma(bytes(s), n) is Some {
            ","@ + cut(s, from, before_blanks(bytes(s), n.end - 1))
        } else {
            cut(s, from, before_blanks(bytes(s), n.end - 1))
        }) + new_entries(n, patch, indent, patch.len() as int) + "\n"@ + line_indent(
            bytes(s),
            n.start,
        ) + cut(s, n.end - 1, n.end)
    } else {
        cut(s, from, n.end)
    }
}

/// The object's source with the patch merged into it:
///   * a key that already exists has its value replaced;
///   * a key that is absent is inserted;
///   * a key not in the patch is left alone, with the comments and whitespace
///     around it;
///   * where both sides are objects the merge goes key by key.
pub open spec fn merged_object(
    s: Seq<char>,
    n: NodeView,
    patch: Seq<(Seq<char>, JsonView)>,
) -> Seq<char>
    decreases n, n.props->0.len() + 1, 2int,
{
    if n.props is Some {
        merged_to(s, n, patch, n.props->0.len() as int) + merged_tail(s, n, patch)
    } else {
        cut(s, n.start, n.end)
    }
}

/// The source with one of its values replaced by a text.
pub open spec fn replaced(s: Seq<char>, n: NodeView, text: Seq<char>) -> Seq<char> {
    cut(s, 0, n.start) + text + cut(s, n.end, bytes(s).len() as int)
}

/// The result of merging a patch into a model's entry.
pub open spec fn merged(
    s: Seq<char>,
    provider_id: Seq<char>,
    model_id: Seq<char>,
    patch: JsonView,
) -> Result<Seq<char>, EditErrorView> {
    match patch {
        JsonView::Object(p) => if p.len() == 0 {
            Ok(s)
        } else {
            match models_in(s, provider_id) {
                Err(e) => Err(e),
                Ok(models) => match prop_value(models, model_id) {
                    None => Err(EditErrorView::ModelNotFound(provider_id, model_id)),
                    Some(entry) => if entry.props is Some {
                        Ok(replaced(s, entry, merged_object(s, entry, p)))
                    } else {
                        Ok(
                            replaced(
                                s,
                                entry,
                                value_at(patch, property_indent(bytes(s), models)),
                            ),
                        )
                    },
                },
            }
        },
        _ => Err(EditErrorView::NotObject("patch for model "@ + debug_text(model_id))),
    }
}

/// The entries to insert, and whether there are any.
fn insertions(n: &Node, props: &Vec<Prop>, patch: &Vec<(String, Json)>, indent: &str) -> (r: (
    String,
    bool,
))
    requires
        n@.props == Some(prop_views(props@)),
    ensures
        r.0@ == new_entries(n@, pair_views(patch@), indent@, patch.len() as int),
        r.1 == any_new(n@, pair_views(patch@), patch.len() as int),
{
    let ghost p = pair_views(patch@);
    let mut out = String::new();
    let mut any = false;
    let mut j: usize = 0;
    while j < patch.len()
        invariant
            j <= patch.len(),
            p == pair_views(patch@),
            n@.props == Some(prop_views(props@)),
            out@ == new_entries(n@, p, indent@, j as int),
            any == any_new(n@, p, j as int),
        decreases patch.len() - j,
    {
        assert(p[j as int] == (patch@[j as int].0@, patch@[j as int].1@));
        if find_prop(props, patch[j].0.as_str()).is_none() {
            if any {
                out.append(",");
            }
            out.append("\n");
            out.append(indent);
            out.append(serialize_entry(patch[j].0.as_str(), &patch[j].1, indent).as_str());
            any = true;
        }
        j += 1;
    }
    (out, any)
}

/// The object's source with the patch in it, touching only the keys that the
/// patch holds.
fn merge_object(source: &str, n: &Node, patch: &Vec<(String, Json)>) -> (r: String)
    requires
        placed(bytes(source@), n@),
        n@.props is Some,
    ensures
        r@ == merged_object(source@, n@, pair_views(patch@)),
    decreases n@.end - n@.start,
{
    broadcast use {lemma_node_view, crate::json::lemma_json_view};

    let b = source.as_bytes();
    let ghost s = source@;
    let ghost p = pair_views(patch@);
    proof {
        lemma_ends(s);
    }
    let indent = detect_property_indent(b, n);
    let mut out = String::new();
    let mut at: usize = n.start;
    if let Some(props) = &n.props {
        let ghost v = n@.props->0;
        assert(v == prop_views(props@));
        let mut k: usize = 0;
        while k < props.len()
            invariant
                k <= props.len(),
                s == source@,
                b@ == bytes(s),
                valid_utf8(b@),
                placed(b@, n@),
                n.props == Some(*props),
                n@.props == Some(v),
                v == prop_views(props@),
                p == pair_views(patch@),
                indent@ == property_indent(b@, n@),
                at as int == done_to(n@, k as int),
                between_chars(s, at as int),
                n@.start <= at <= n@.end,
                k > 0 ==> n@.start < at < n@.end && !is_blank(b@[at - 1]),
                out@ == merged_to(s, n@, p, k as int),
            decreases props.len() - k,
        {
            assert(v[k as int] == props@[k as int]@);
            proof {
                lemma_prop(b@, n@, k as int);
                if k > 0 {
                    lemma_prop(b@, n@, k - 1);
                    assert(v[k - 1].value.end <= v[k as int].start);
                }
            }
            let value = &props[k].value;
            let ghost done = out@;
            out.append(piece(source, at, value.start));
            let first = match find_prop(props, props[k].name.as_str()) {
                Some(i) => i == k,
                None => false,
            };
            let named = find_key(patch, props[k].name.as_str());
            let text = match (first, named) {
                (true, Some(j)) => {
                    let new = &patch[j].1;
                    assert(p[j as int] == (patch@[j as int].0@, patch@[j as int].1@));
                    match new {
                        Json::Object(sub) => if value.is_object() {
                            proof {
                                crate::json::lemma_json_view(*new);
                            }
                            merge_object(source, value, sub)
                        } else {
                            serialize_value_at_indent(new, indent.as_str())
                        },
                        _ => serialize_value_at_indent(new, indent.as_str()),
                    }
                },
                _ => copy_text(piece(source, value.start, value.end)),
            };
            assert(text@ == merged_value(s, n@, p, k as int));
            out.append(text.as_str());
            at = value.end;
            k += 1;
            assert(out@ == merged_to(s, n@, p, k as int));
        }
        let (comma, insert_at) = append_positions(b, n);
        let (entries, any) = insertions(n, props, patch, indent.as_str());
        let close = n.end - 1;
        proof {
            lemma_ascii_boundary(b@, close as int);
            if props.len() > 0 {
                assert(v.last() == v[props.len() - 1]);
                lemma_before_blanks(b@, close as int, at as int);
            }
        }
        if any {
            let mut tail = String::new();
            if comma.is_some() {
                tail.append(",");
                tail.append(piece(source, at, insert_at));
            } else {
                tail = copy_text(piece(source, at, insert_at));
            }
            assert(tail@ == if missing_comma(b@, n@) is Some {
                ","@ + cut(s, at as int, before_blanks(b@, n@.end - 1))
            } else {
                cut(s, at as int, before_blanks(b@, n@.end - 1))
            });
            tail.append(entries.as_str());
            tail.append("\n");
            tail.append(indent_of_line(b, n.start).as_str());
            tail.append(piece(source, close, n.end));
            assert(tail@ == merged_tail(s, n@, p));
            out.append(tail.as_str());
        } else {
            out.append(piece(source, at, n.end));
        }
    }
    out
}

/// Merge `patch` into the existing `provider.<provider_id>.models.<model_id>`
/// entry, touching **only** the keys `patch` actually contains.
///
/// So refreshing a model's context length cannot disturb the `temperature` the
/// user set by hand two lines below it.
pub fn merge_model(source: &str, provider_id: &str, model_id: &str, patch: &Json) -> (r: Result<
    String,
    EditError,
>)
    ensures
        edited(r, merged(source@, provider_id@, model_id@, patch@)),
{
    broadcast use {lemma_node_view, crate::json::lemma_json_view};

    let p = match patch {
        Json::Object(p) => p,
        _ => {
            let mut path = copy_text("patch for model ");
            path.append(quote(model_id).as_str());
            return Err(EditError::NotObject { path });
        },
    };
    assert(patch@ == JsonView::Object(pair_views(p@)));
    if p.len() == 0 {
        return Ok(copy_text(source));
    }
    let ghost s = source@;
    proof {
        lemma_ends(s);
    }
    let root = match parse_root(source) {
        Ok(n) => n,
        Err(e) => {
            return Err(e);
        },
    };
    let models = match navigate_to_models(&root, provider_id, Ghost(bytes(s))) {
        Ok(m) => m,
        Err(e) => {
            return Err(e);
        },
    };
    let entry = match models.get(model_id) {
        Some(e) => e,
        None => {
            return Err(
                EditError::ModelNotFound {
                    provider_id: copy_text(provider_id),
                    model_id: copy_text(model_id),
                },
            );
        },
    };
    proof {
        lemma_value_placed(bytes(s), models@, model_id@);
    }
    let b = source.as_bytes();
    let mut out = copy_text(piece(source, 0, entry.start));
    if entry.is_object() {
        out.append(merge_object(source, entry, p).as_str());
    } else {
        // The entry isn't an object (null, a string, …) so there's nothing to
        // merge into — replace it outright.
        let indent = detect_property_indent(b, models);
        out.append(serialize_value_at_indent(patch, indent.as_str()).as_str());
    }
    out.append(piece(source, entry.end, b.len()));
    Ok(out)
}

// ---------------------------------------------------------------- commenting out

/// The first `k` lines of a note as comments; the first stands where the
/// indent is already present.
pub open spec fn note_block(note: Seq<Seq<char>>, indent: Seq<char>, k: int) -> Seq<char>
    decreases k,
{
    if k <= 0 {
        Seq::empty()
    } else {
        (if k > 1 {
            note_block(note, indent, k - 1) + indent
        } else {
            note_block(note, indent, k - 1)
        }) + "// "@ + note[k - 1] + "\n"@
    }
}

/// A line without the property indent, where it has it.
pub open spec fn outdented(line: Seq<char>, indent: Seq<char>) -> Seq<char> {
    match strip_prefix(line, indent) {
        Some(rest) => rest,
        None => line,
    }
}

/// The first `k` lines of a text as comments at an indent; their relative
/// nesting survives.
pub open spec fn code_block(code: Seq<Seq<char>>, indent: Seq<char>, k: int) -> Seq<char>
    decreases k,
{
    if k <= 0 {
        Seq::empty()
    } else {
        (if k > 1 {
            code_block(code, indent, k - 1) + "\n"@
        } else {
            code_block(code, indent, k - 1)
        }) + indent + "// "@ + outdented(code[k - 1], indent)
    }
}

/// A text as a run of `//` comments at an indent, under a note.
pub open spec fn block_of(original: Seq<char>, indent: Seq<char>, note: Seq<char>) -> Seq<char> {
    note_block(lines(note), indent, lines(note).len() as int) + code_block(
        split_on(original, '\n'),
        indent,
        split_on(original, '\n').len() as int,
    )
}

/// Render `original` as a run of `//` comments at `indent`, under `note`.
///
/// The first line gets no indent of its own. Later lines have the property
/// indent stripped and re-added so their relative nesting survives.
pub fn comment_block(original: &str, indent: &str, note: &str) -> (r: String)
    ensures
        r@ == block_of(original@, indent@, note@),
{
    let n = chars_of(note);
    let ls = lines_of(&n);
    let ghost nl = lines(note@);
    let mut out = String::new();
    let mut i: usize = 0;
    while i < ls.len()
        invariant
            i <= ls.len(),
            views(ls@) == nl,
            out@ == note_block(nl, indent@, i as int),
        decreases ls.len() - i,
    {
        if i > 0 {
            out.append(indent);
        }
        out.append("// ");
        let line = text_of(ls[i]);
        assert(nl[i as int] == line@);
        out.append(line.as_str());
        out.append("\n");
        i += 1;
    }
    let o = chars_of(original);
    let parts = parts_of(&o, '\n');
    let ghost pl = split_on(original@, '\n');
    let mut code = String::new();
    let mut k: usize = 0;
    while k < parts.len()
        invariant
            k <= parts.len(),
            views(parts@) == pl,
            code@ == code_block(pl, indent@, k as int),
        decreases parts.len() - k,
    {
        if k > 0 {
            code.append("\n");
        }
        code.append(indent);
        code.append("// ");
        let line = match without_prefix(parts[k], indent) {
            Some(rest) => text_of(rest),
            None => text_of(parts[k]),
        };
        assert(line@ == outdented(pl[k as int], indent@));
        code.append(line.as_str());
        k += 1;
    }
    out.append(code.as_str());
    out
}

/// The comma that would be left over when the `i`th property is commented
/// out: its own, before the next property; or the previous property's, when
/// it is the last. Any comment beside it stays.
pub open spec fn loose_comma(b: Seq<u8>, v: Seq<PropView>, i: int) -> Option<int> {
    if i + 1 < v.len() {
        comma_from(b, v[i].value.end, v[i + 1].start)
    } else if i > 0 {
        comma_from(b, v[i - 1].value.end, v[i].start)
    } else {
        None
    }
}

/// The source with a property commented out under a note.
pub open spec fn without_prop(s: Seq<char>, n: NodeView, i: int, note: Seq<char>) -> Seq<char> {
    let b = bytes(s);
    let v = n.props->0;
    let start = v[i].start;
    let end = v[i].value.end;
    let block = block_of(cut(s, start, end), property_indent(b, n), note);
    match loose_comma(b, v, i) {
        Some(c) => if i + 1 < v.len() {
            cut(s, 0, start) + block + cut(s, end, c) + cut(s, c + 1, b.len() as int)
        } else {
            cut(s, 0, c) + cut(s, c + 1, start) + block + cut(s, end, b.len() as int)
        },
        None => cut(s, 0, start) + block + cut(s, end, b.len() as int),
    }
}

/// The result of commenting a model out.
pub open spec fn commented_out(
    s: Seq<char>,
    provider_id: Seq<char>,
    model_id: Seq<char>,
    note: Seq<char>,
) -> Result<Seq<char>, EditErrorView> {
    match models_in(s, provider_id) {
        Err(e) => Err(e),
        Ok(models) => match prop_from(models.props->0, model_id, 0) {
            None => Err(EditErrorView::ModelNotFound(provider_id, model_id)),
            Some(i) => Ok(without_prop(s, models, i, note)),
        },
    }
}

proof fn lemma_after_ascii(b: Seq<u8>, i: int)
    requires
        valid_utf8(b),
        0 <= i < b.len(),
        b[i] < 128,
    ensures
        is_char_boundary(b, i + 1),
{
    lemma_ascii_boundary(b, i);
    vstd::utf8::is_char_boundary_start_end_of_seq(b);
    if i + 1 < b.len() {
        vstd::utf8::valid_utf8_split(b, i);
        let t = b.subrange(i, b.len() as int);
        assert(t[0] == b[i]);
        assert(t.len() > 1);
        let x = t[0];
        vstd::utf8::utf8_byte_ranges_bitwise(x);
        assert(vstd::utf8::valid_first_scalar(t));
        assert(vstd::utf8::length_of_first_scalar(t) == 1);
        let u = vstd::utf8::pop_first_scalar(t);
        assert(valid_utf8(u));
        assert(u[0] == b[i + 1]);
        vstd::utf8::is_char_boundary_start_end_of_seq(u);
        vstd::utf8::is_char_boundary_iff_not_is_continuation_byte(u, 0);
        vstd::utf8::is_char_boundary_iff_not_is_continuation_byte(b, i + 1);
    }
}

/// A property's text moved into a block of comments, the rest of the source
/// as it was, but for a comma that may have gone.
pub open spec fn moved_to_comment(
    s: Seq<char>,
    t: Seq<char>,
    note: Seq<char>,
    pieces: (Seq<char>, Seq<char>, Seq<char>),
    indent: Seq<char>,
    comma: int,
) -> bool {
    let (head, code, tail) = pieces;
    &&& t == head + block_of(code, indent, note) + tail
    &&& s == head + code + tail || (0 <= comma < s.len() && s[comma] == ',' && s.remove(comma)
        == head + code + tail)
}

/// Nothing of the source was deleted but a comma at most: what is missing
/// from its place stands in the block of comments.
pub open spec fn only_comments_out(s: Seq<char>, t: Seq<char>, note: Seq<char>) -> bool {
    exists|pieces: (Seq<char>, Seq<char>, Seq<char>), indent: Seq<char>, comma: int| #[trigger]
        moved_to_comment(s, t, note, pieces, indent, comma)
}

/// A comma takes one place.
proof fn lemma_comma(s: Seq<char>, c: int)
    requires
        0 <= c < bytes(s).len(),
        bytes(s)[c] == 44,
    ensures
        between_chars(s, c),
        between_chars(s, c + 1),
        cut(s, c, c + 1) == ","@,
{
    let b = bytes(s);
    lemma_ends(s);
    lemma_ascii_boundary(b, c);
    lemma_after_ascii(b, c);
    reveal_strlit(",");
    let one = ","@;
    assert(one =~= seq![',']);
    assert(vstd::utf8::is_ascii_chars(one));
    vstd::utf8::is_ascii_chars_encode_utf8(one);
    assert(one[0] as u8 == encode_utf8(one)[0]);
    assert(encode_utf8(one) =~= b.subrange(c, c + 1));
    vstd::utf8::encode_utf8_decode_utf8(one);
}

/// The separating comma is one, and stands in its span.
proof fn lemma_comma_from(b: Seq<u8>, i: int, to: int)
    ensures
        comma_from(b, i, to) matches Some(c) ==> 0 <= i <= c < to <= b.len() && b[c] == 44,
    decreases to - i,
{
    if 0 <= i < to && to <= b.len() && b[i] != 44 {
        if b[i] == 47 && i + 1 < b.len() && b[i + 1] == 47 {
            let e = line_end(b, i, to);
            if i <= e < to {
                lemma_comma_from(b, e + 1, to);
            }
        } else if b[i] == 47 && i + 1 < b.len() && b[i + 1] == 42 {
            let e = block_end(b, i + 2, to);
            if i <= e && e + 2 < to {
                lemma_comma_from(b, e + 2, to);
            }
        } else {
            lemma_comma_from(b, i + 1, to);
        }
    }
}

/// Commenting a property out deletes nothing but a comma.
pub proof fn commenting_out_deletes_nothing(s: Seq<char>, n: NodeView, i: int, note: Seq<char>)
    requires
        placed(bytes(s), n),
        n.props is Some,
        0 <= i < n.props->0.len(),
    ensures
        only_comments_out(s, without_prop(s, n, i, note), note),
{
    let b = bytes(s);
    let v = n.props->0;
    let start = v[i].start;
    let end = v[i].value.end;
    let len = b.len() as int;
    let code = cut(s, start, end);
    let indent = property_indent(b, n);
    let t = without_prop(s, n, i, note);
    lemma_ends(s);
    lemma_prop(b, n, i);
    pieces_join(s, 0, start, end);
    pieces_join(s, 0, end, len);
    match loose_comma(b, v, i) {
        Some(c) => {
            if i + 1 < v.len() {
                lemma_prop(b, n, i + 1);
                lemma_comma_from(b, end, v[i + 1].start);
                lemma_comma(s, c);
                pieces_join(s, end, c, c + 1);
                pieces_join(s, end, c + 1, len);
                let tail = cut(s, end, c) + cut(s, c + 1, len);
                let head = cut(s, 0, start);
                let comma = (head + code + cut(s, end, c)).len() as int;
                assert(s =~= head + code + cut(s, end, c) + ","@ + cut(s, c + 1, len));
                reveal_strlit(",");
                assert(s.remove(comma) =~= head + code + tail);
                assert(t =~= head + block_of(code, indent, note) + tail);
                assert(moved_to_comment(s, t, note, (head, code, tail), indent, comma));
            } else {
                lemma_prop(b, n, i - 1);
                assert(v[i - 1].value.end <= v[i].start);
                lemma_comma_from(b, v[i - 1].value.end, start);
                lemma_comma(s, c);
                pieces_join(s, 0, c, c + 1);
                pieces_join(s, 0, c + 1, start);
                let head = cut(s, 0, c) + cut(s, c + 1, start);
                let tail = cut(s, end, len);
                let comma = cut(s, 0, c).len() as int;
                assert(s =~= cut(s, 0, c) + ","@ + cut(s, c + 1, start) + code + tail);
                reveal_strlit(",");
                assert(s.remove(comma) =~= head + code + tail);
                assert(t =~= head + block_of(code, indent, note) + tail);
                assert(moved_to_comment(s, t, note, (head, code, tail), indent, comma));
            }
        },
        None => {
            let head = cut(s, 0, start);
            let tail = cut(s, end, len);
            assert(s =~= head + code + tail);
            assert(moved_to_comment(s, t, note, (head, code, tail), indent, 0));
        },
    }
}

/// Every line of a text that is commented out stands in the block, behind
/// its slashes.
pub proof fn commented_lines_stay(
    code: Seq<char>,
    indent: Seq<char>,
    note: Seq<char>,
    k: int,
) -> (r: (Seq<char>, Seq<char>))
    requires
        0 <= k < split_on(code, '\n').len(),
    ensures
        block_of(code, indent, note) == r.0 + indent + "// "@ + outdented(
            split_on(code, '\n')[k],
            indent,
        ) + r.1,
{
    let ls = split_on(code, '\n');
    let n = note_block(lines(note), indent, lines(note).len() as int);
    let before = if k > 0 {
        code_block(ls, indent, k) + "\n"@
    } else {
        code_block(ls, indent, k)
    };
    let rest = lemma_code_block_extends(ls, indent, k + 1, ls.len() as int);
    assert(block_of(code, indent, note) =~= (n + before) + indent + "// "@ + outdented(ls[k], indent)
        + rest);
    (n + before, rest)
}

proof fn lemma_code_block_extends(
    code: Seq<Seq<char>>,
    indent: Seq<char>,
    a: int,
    b: int,
) -> (r: Seq<char>)
    requires
        0 < a <= b,
    ensures
        code_block(code, indent, b) == code_block(code, indent, a) + r,
    decreases b - a,
{
    if a == b {
        assert(code_block(code, indent, b) =~= code_block(code, indent, a) + Seq::<char>::empty());
        Seq::empty()
    } else {
        let r = lemma_code_block_extends(code, indent, a, b - 1);
        let step = "\n"@ + indent + "// "@ + outdented(code[b - 1], indent);
        assert(code_block(code, indent, b) =~= code_block(code, indent, a) + (r + step));
        r + step
    }
}

/// Comment out an entire model entry, leaving it in the file.
///
/// The entry is commented in place under `note`, which keeps the original
/// values visible and lets the user restore them by hand.
///
/// The separating comma is removed so the result is still strict JSON: the
/// entry's own trailing comma normally, or the previous property's comma when
/// the entry being removed was the last one.
pub fn comment_out_model(source: &str, provider_id: &str, model_id: &str, note: &str) -> (r: Result<
    String,
    EditError,
>)
    ensures
        edited(r, commented_out(source@, provider_id@, model_id@, note@)),
        r matches Ok(t) ==> only_comments_out(source@, t@, note@),
{
    broadcast use lemma_node_view;

    let ghost s = source@;
    let b = source.as_bytes();
    proof {
        lemma_ends(s);
    }
    let root = match parse_root(source) {
        Ok(n) => n,
        Err(e) => {
            return Err(e);
        },
    };
    let models = match navigate_to_models(&root, provider_id, Ghost(bytes(s))) {
        Ok(m) => m,
        Err(e) => {
            return Err(e);
        },
    };
    let not_found = EditError::ModelNotFound {
        provider_id: copy_text(provider_id),
        model_id: copy_text(model_id),
    };
    let props = match &models.props {
        Some(v) => v,
        None => {
            return Err(not_found);
        },
    };
    let ghost v = models@.props->0;
    assert(v == prop_views(props@));
    let i = match find_prop(props, model_id) {
        Some(i) => i,
        None => {
            return Err(not_found);
        },
    };
    assert(v[i as int] == props@[i as int]@);
    proof {
        lemma_prop(b@, models@, i as int);
        commenting_out_deletes_nothing(s, models@, i as int, note@);
    }
    let indent = detect_property_indent(b, models);
    let start = props[i].start;
    let end = props[i].value.end;
    let block = comment_block(piece(source, start, end), indent.as_str(), note);
    if i + 1 < props.len() {
        assert(v[i + 1] == props@[i + 1]@);
        proof {
            lemma_prop(b@, models@, i + 1);
        }
        if let Some(c) = find_separator_comma(b, end, props[i + 1].start) {
            proof {
                lemma_ascii_boundary(b@, c as int);
                lemma_after_ascii(b@, c as int);
            }
            let mut out = copy_text(piece(source, 0, start));
            out.append(block.as_str());
            out.append(piece(source, end, c));
            out.append(piece(source, c + 1, b.len()));
            return Ok(out);
        }
    } else if i > 0 {
        assert(v[i - 1] == props@[i - 1]@);
        proof {
            lemma_prop(b@, models@, i - 1);
        }
        if let Some(c) = find_separator_comma(b, props[i - 1].value.end, start) {
            proof {
                lemma_ascii_boundary(b@, c as int);
                lemma_after_ascii(b@, c as int);
            }
            let mut out = copy_text(piece(source, 0, c));
            out.append(piece(source, c + 1, start));
            out.append(block.as_str());
            out.append(piece(source, end, b.len()));
            return Ok(out);
        }
    }
    let mut out = copy_text(piece(source, 0, start));
    out.append(block.as_str());
    out.append(piece(source, end, b.len()));
    Ok(out)
}

// --------------------------------------------------------------- strict validity

/// The place stands in one of the comments.
pub open spec fn in_comment(comments: Set<(usize, usize)>, i: int) -> bool {
    exists|r: (usize, usize)| #[trigger] comments.contains(r) && r.0 <= i < r.1
}

/// The bytes with every comment blanked out, but for its line feeds.
pub open spec fn blanked(b: Seq<u8>, comments: Set<(usize, usize)>) -> Seq<u8> {
    Seq::new(
        b.len(),
        |i: int|
            if b[i] != 10 && in_comment(comments, i) {
                32u8
            } else {
                b[i]
            },
    )
}

/// What a strict JSON parser says of the source without its comments.
pub open spec fn strict(s: Seq<char>) -> Result<(), Seq<char>> {
    match jsonc_comments(s) {
        Err(e) => Err(e),
        Ok(comments) => match json_document(utf8_lossy(blanked(bytes(s), comments))) {
            Ok(_) => Ok(()),
            Err(e) => Err(e),
        },
    }
}

/// The bytes with the comments at these places blanked out.
fn blank_out(source: &[u8], comments: &[(usize, usize)]) -> (r: Vec<u8>)
    ensures
        r@ == blanked(source@, comments@.to_set()),
{
    let ghost all = comments@.to_set();
    let mut out: Vec<u8> = Vec::new();
    let mut i: usize = 0;
    while i < source.len()
        invariant
            i <= source.len(),
            all == comments@.to_set(),
            out@ == blanked(source@, all).take(i as int),
        decreases source.len() - i,
    {
        let mut inside = false;
        let mut k: usize = 0;
        while k < comments.len()
            invariant
                k <= comments.len(),
                inside == exists|j: int|
                    0 <= j < k && (#[trigger] comments@[j]).0 <= i < comments@[j].1,
            decreases comments.len() - k,
        {
            let c = comments[k];
            assert(comments@[k as int] == c);
            if c.0 <= i && i < c.1 {
                inside = true;
            }
            k += 1;
        }
        assert(inside == in_comment(all, i as int)) by {
            if inside {
                let j = choose|j: int|
                    0 <= j < comments@.len() && (#[trigger] comments@[j]).0 <= i < comments@[j].1;
                assert(comments@.contains(comments@[j]));
                assert(all.contains(comments@[j]));
            }
            if in_comment(all, i as int) {
                let r = choose|r: (usize, usize)| #[trigger] all.contains(r) && r.0 <= i < r.1;
                assert(comments@.contains(r));
                let j = choose|j: int| 0 <= j < comments@.len() && comments@[j] == r;
                assert(comments@[j].0 <= i < comments@[j].1);
            }
        }
        out.push(if source[i] != 10 && inside { 32 } else { source[i] });
        i += 1;
        assert(out@ =~= blanked(source@, all).take(i as int));
    }
    assert(out@ =~= blanked(source@, all));
    out
}

/// Would a STRICT JSON parser accept this text once comments are removed? The
/// JSONC parser is lenient about missing commas — exactly the damage a bad
/// splice causes — so it cannot answer this.
pub fn strictly_valid(source: &str) -> (r: Result<(), String>)
    ensures
        match (r, strict(source@)) {
            (Ok(_), Ok(_)) => true,
            (Err(e), Err(f)) => e@ == f,
            _ => false,
        },
{
    let comments = match find_comments(source) {
        Ok(c) => c,
        Err(e) => {
            return Err(e);
        },
    };
    let stripped = lossy_text(blank_out(source.as_bytes(), &comments).as_slice());
    match crate::json::parse(stripped.as_str()) {
        Ok(_) => Ok(()),
        Err(e) => Err(e),
    }
}

// ------------------------------------------------------------------------- laws

/// Two pieces of the source that touch are one.
pub proof fn pieces_join(s: Seq<char>, a: int, b: int, c: int)
    requires
        0 <= a <= b <= c <= bytes(s).len(),
        between_chars(s, a),
        between_chars(s, b),
        between_chars(s, c),
    ensures
        cut(s, a, b) + cut(s, b, c) == cut(s, a, c),
        cut(s, 0, bytes(s).len() as int) == s,
{
    let all = bytes(s);
    lemma_ends(s);
    lemma_prefix_boundary(all, a, c);
    lemma_prefix_boundary(all, b, c);
    let p = all.subrange(0, c);
    vstd::utf8::valid_utf8_split(p, a);
    let m = p.subrange(a, c);
    assert(m =~= all.subrange(a, c));
    // the middle is a place of the piece
    if b == c {
        vstd::utf8::is_char_boundary_start_end_of_seq(m);
    } else if b == a {
        vstd::utf8::is_char_boundary_start_end_of_seq(m);
    } else {
        vstd::utf8::is_char_boundary_iff_not_is_continuation_byte(all, b);
        assert(m[b - a] == all[b]);
        vstd::utf8::is_char_boundary_iff_not_is_continuation_byte(m, b - a);
    }
    vstd::utf8::decode_utf8_split(m, b - a);
    assert(m.subrange(0, b - a) =~= all.subrange(a, b));
    assert(m.subrange(b - a, m.len() as int) =~= all.subrange(b, c));
    assert(all.subrange(0, all.len() as int) =~= all);
    vstd::utf8::encode_utf8_decode_utf8(s);
}

/// An empty patch changes nothing, whatever the source.
pub proof fn empty_patch_changes_nothing(
    s: Seq<char>,
    provider_id: Seq<char>,
    model_id: Seq<char>,
)
    ensures
        merged(s, provider_id, model_id, JsonView::Object(Seq::empty())) == Ok::<
            Seq<char>,
            EditErrorView,
        >(s),
{
}

/// A property whose key is not in the patch keeps its text, with everything
/// between it and the property before it.
pub proof fn other_keys_are_left_alone(
    s: Seq<char>,
    n: NodeView,
    patch: Seq<(Seq<char>, JsonView)>,
    k: int,
) -> (r: (Seq<char>, Seq<char>))
    requires
        placed(bytes(s), n),
        n.props is Some,
        0 <= k < n.props->0.len(),
        key_from(patch, n.props->0[k].name, 0) is None,
    ensures
        merged_object(s, n, patch) == r.0 + cut(s, done_to(n, k), n.props->0[k].value.end) + r.1,
{
    let v = n.props->0;
    let b = bytes(s);
    let before = merged_to(s, n, patch, k);
    lemma_ends(s);
    lemma_prop(b, n, k);
    if k > 0 {
        lemma_prop(b, n, k - 1);
        assert(v[k - 1].value.end <= v[k].start);
    }
    pieces_join(s, done_to(n, k), v[k].value.start, v[k].value.end);
    let here = before + cut(s, done_to(n, k), v[k].value.end);
    assert(merged_value(s, n, patch, k) == cut(s, v[k].value.start, v[k].value.end));
    assert(merged_to(s, n, patch, k + 1) =~= here);
    let rest = lemma_merged_to_extends(s, n, patch, k + 1, v.len() as int);
    assert(merged_object(s, n, patch) =~= here + (rest + merged_tail(s, n, patch)));
    (before, rest + merged_tail(s, n, patch))
}

proof fn lemma_merged_to_extends(
    s: Seq<char>,
    n: NodeView,
    patch: Seq<(Seq<char>, JsonView)>,
    a: int,
    b: int,
) -> (r: Seq<char>)
    requires
        n.props is Some,
        0 <= a <= b <= n.props->0.len(),
    ensures
        merged_to(s, n, patch, b) == merged_to(s, n, patch, a) + r,
    decreases b - a,
{
    if a == b {
        assert(merged_to(s, n, patch, b) =~= merged_to(s, n, patch, a) + Seq::<char>::empty());
        Seq::empty()
    } else {
        let r = lemma_merged_to_extends(s, n, patch, a, b - 1);
        let step = cut(s, done_to(n, b - 1), n.props->0[b - 1].value.start) + merged_value(
            s,
            n,
            patch,
            b - 1,
        );
        assert(merged_to(s, n, patch, b) =~= merged_to(s, n, patch, a) + (r + step));
        r + step
    }
}

/// The object holds what the patch says, in the very text that a merge would
/// write: every key of the patch is there, and the value that counts stands as
/// rendered, or, where both are objects, holds the patch's part in turn.
pub open spec fn stands(s: Seq<char>, n: NodeView, patch: Seq<(Seq<char>, JsonView)>) -> bool
    decreases n,
{
    &&& n.props is Some
    &&& forall|j: int| 0 <= j < patch.len() ==> !#[trigger] is_new(n, patch, j)
    &&& forall|k: int|
        0 <= k < n.props->0.len() && prop_from(n.props->0, n.props->0[k].name, 0) == Some(
            k,
        ) ==> {
            let v = #[trigger] n.props->0[k];
            match key_from(patch, v.name, 0) {
                Some(j) => match patch[j].1 {
                    JsonView::Object(sub) => if v.value.props is Some {
                        stands(s, v.value, sub)
                    } else {
                        cut(s, v.value.start, v.value.end) == value_at(
                            patch[j].1,
                            property_indent(bytes(s), n),
                        )
                    },
                    _ => cut(s, v.value.start, v.value.end) == value_at(
                        patch[j].1,
                        property_indent(bytes(s), n),
                    ),
                },
                None => true,
            }
        }
}

/// To merge what already stands changes nothing, so that writing the same
/// values again leaves the file as it is.
pub proof fn merging_what_stands_changes_nothing(
    s: Seq<char>,
    n: NodeView,
    patch: Seq<(Seq<char>, JsonView)>,
)
    requires
        placed(bytes(s), n),
        stands(s, n, patch),
    ensures
        merged_object(s, n, patch) == cut(s, n.start, n.end),
        replaced(s, n, merged_object(s, n, patch)) == s,
    decreases n,
{
    let b = bytes(s);
    let v = n.props->0;
    let len = v.len() as int;
    lemma_ends(s);
    lemma_merged_stands(s, n, patch, len);
    assert(!any_new(n, patch, patch.len() as int)) by {
        lemma_none_new(n, patch, patch.len() as int);
    }
    if len > 0 {
        lemma_prop(b, n, len - 1);
    }
    pieces_join(s, n.start, done_to(n, len), n.end);
    pieces_join(s, 0, n.start, n.end);
    pieces_join(s, 0, n.end, b.len() as int);
    assert(replaced(s, n, merged_object(s, n, patch)) =~= s);
}

/// The object's first `k` properties come out of the merge as they went in.
proof fn lemma_merged_stands(
    s: Seq<char>,
    n: NodeView,
    patch: Seq<(Seq<char>, JsonView)>,
    k: int,
)
    requires
        placed(bytes(s), n),
        stands(s, n, patch),
        0 <= k <= n.props->0.len(),
    ensures
        merged_to(s, n, patch, k) == cut(s, n.start, done_to(n, k)),
    decreases n, k,
{
    let b = bytes(s);
    let v = n.props->0;
    if k == 0 {
        pieces_join(s, n.start, n.start, n.start);
        assert((cut(s, n.start, n.start) + cut(s, n.start, n.start)).len() == 2 * cut(
            s,
            n.start,
            n.start,
        ).len());
        assert(cut(s, n.start, n.start) =~= Seq::<char>::empty());
    } else {
        let p = v[k - 1];
        lemma_merged_stands(s, n, patch, k - 1);
        lemma_prop(b, n, k - 1);
        if k > 1 {
            lemma_prop(b, n, k - 2);
            assert(v[k - 2].value.end <= v[k - 1].start);
        }
        let j = key_from(patch, p.name, 0);
        if j is Some && prop_from(v, p.name, 0) == Some(k - 1) && patch[j->0].1 is Object
            && p.value.props is Some {
            let sub = patch[j->0].1->Object_0;
            assert(stands(s, p.value, sub));
            merging_what_stands_changes_nothing(s, p.value, sub);
        }
        assert(merged_value(s, n, patch, k - 1) == cut(s, p.value.start, p.value.end));
        pieces_join(s, n.start, done_to(n, k - 1), p.value.start);
        pieces_join(s, n.start, p.value.start, p.value.end);
    }
}

proof fn lemma_none_new(n: NodeView, patch: Seq<(Seq<char>, JsonView)>, j: int)
    requires
        0 <= j <= patch.len(),
        forall|j: int| 0 <= j < patch.len() ==> !#[trigger] is_new(n, patch, j),
    ensures
        !any_new(n, patch, j),
    decreases j,
{
    if j > 0 {
        lemma_none_new(n, patch, j - 1);
    }
}

/// A merge changes nothing outside the entry.
pub proof fn merge_stays_in_the_entry(
    s: Seq<char>,
    provider_id: Seq<char>,
    model_id: Seq<char>,
    patch: Seq<(Seq<char>, JsonView)>,
)
    requires
        patch.len() > 0,
        merged(s, provider_id, model_id, JsonView::Object(patch)) is Ok,
    ensures
        ({
            let entry = prop_value(models_in(s, provider_id)->Ok_0, model_id)->0;
            let r = merged(s, provider_id, model_id, JsonView::Object(patch))->Ok_0;
            let head = cut(s, 0, entry.start);
            let tail = cut(s, entry.end, bytes(s).len() as int);
            &&& head.is_prefix_of(r)
            &&& tail.is_suffix_of(r)
        }),
{
    let entry = prop_value(models_in(s, provider_id)->Ok_0, model_id)->0;
    let r = merged(s, provider_id, model_id, JsonView::Object(patch))->Ok_0;
    let head = cut(s, 0, entry.start);
    let tail = cut(s, entry.end, bytes(s).len() as int);
    assert(r.subrange(0, head.len() as int) =~= head);
    assert(r.subrange(r.len() - tail.len(), r.len() as int) =~= tail);
}

/// A text that stands in a piece of a source stands in it with what is around
/// it.
proof fn lemma_within(s: Seq<char>, from: int, a: int, b: int, to: int)
    requires
        0 <= from <= a <= b <= to <= bytes(s).len(),
        between_chars(s, from),
        between_chars(s, a),
        between_chars(s, b),
        between_chars(s, to),
    ensures
        cut(s, from, to) == cut(s, from, a) + cut(s, a, b) + cut(s, b, to),
{
    pieces_join(s, from, a, b);
    pieces_join(s, from, b, to);
}

/// To merge into one entry keeps the text of every other, to the last
/// character: what stands before it and behind it is the result.
pub proof fn merging_keeps_the_other_entries(
    s: Seq<char>,
    provider_id: Seq<char>,
    model_id: Seq<char>,
    patch: JsonView,
    k: int,
) -> (r: (Seq<char>, Seq<char>))
    requires
        merged(s, provider_id, model_id, patch) is Ok,
        models_in(s, provider_id) is Ok,
        placed(bytes(s), models_in(s, provider_id)->Ok_0),
        0 <= k < models_in(s, provider_id)->Ok_0.props->0.len(),
        models_in(s, provider_id)->Ok_0.props->0[k].name != model_id,
    ensures
        ({
            let p = models_in(s, provider_id)->Ok_0.props->0[k];
            merged(s, provider_id, model_id, patch)->Ok_0 == r.0 + cut(s, p.start, p.value.end)
                + r.1
        }),
{
    let b = bytes(s);
    let len = b.len() as int;
    let models = models_in(s, provider_id)->Ok_0;
    let v = models.props->0;
    let p = v[k];
    let t = merged(s, provider_id, model_id, patch)->Ok_0;
    lemma_ends(s);
    lemma_prop(b, models, k);
    let text = cut(s, p.start, p.value.end);
    if patch->Object_0.len() == 0 {
        lemma_within(s, 0, p.start, p.value.end, len);
        pieces_join(s, 0, 0, len);
        assert(t == cut(s, 0, p.start) + text + cut(s, p.value.end, len));
        (cut(s, 0, p.start), cut(s, p.value.end, len))
    } else {
        let i = prop_from(v, model_id, 0)->0;
        lemma_prop_from(v, model_id, 0);
        lemma_prop(b, models, i);
        let e = v[i].value;
        let new = if e.props is Some {
            merged_object(s, e, patch->Object_0)
        } else {
            value_at(patch, property_indent(b, models))
        };
        let head = cut(s, 0, e.start);
        let tail = cut(s, e.end, len);
        assert(t == head + new + tail);
        if k < i {
            assert(v[k].value.end <= v[i].start);
            lemma_within(s, 0, p.start, p.value.end, e.start);
            let rest = cut(s, p.value.end, e.start) + new + tail;
            assert(t =~= cut(s, 0, p.start) + text + rest);
            (cut(s, 0, p.start), rest)
        } else {
            assert(v[i].value.end <= v[k].start);
            lemma_within(s, e.end, p.start, p.value.end, len);
            let before = head + new + cut(s, e.end, p.start);
            assert(t =~= before + text + cut(s, p.value.end, len));
            (before, cut(s, p.value.end, len))
        }
    }
}

/// To add an entry keeps the text of every other, to the last character: what
/// stands before it and behind it is the result.
pub proof fn adding_keeps_the_other_entries(
    s: Seq<char>,
    provider_id: Seq<char>,
    model_id: Seq<char>,
    entry: JsonView,
    k: int,
) -> (r: (Seq<char>, Seq<char>))
    requires
        models_in(s, provider_id) is Ok,
        placed(bytes(s), models_in(s, provider_id)->Ok_0),
        0 <= k < models_in(s, provider_id)->Ok_0.props->0.len(),
    ensures
        ({
            let p = models_in(s, provider_id)->Ok_0.props->0[k];
            added(s, provider_id, model_id, entry)->Ok_0 == r.0 + cut(s, p.start, p.value.end) + r.1
        }),
{
    let b = bytes(s);
    let n = models_in(s, provider_id)->Ok_0;
    let v = n.props->0;
    let p = v[k];
    let last = v.len() - 1;
    let t = added(s, provider_id, model_id, entry)->Ok_0;
    let at = before_blanks(b, n.end - 1);
    let text = cut(s, p.start, p.value.end);
    lemma_ends(s);
    lemma_prop(b, n, k);
    lemma_prop(b, n, last);
    let c = v[last].value.end;
    if k < last {
        assert(v[k].value.end <= v[last].start);
    }
    lemma_before_blanks(b, n.end - 1, c);
    lemma_ascii_boundary(b, n.end - 1);
    lemma_ascii_boundary(b, at);
    let new = "\n"@ + property_indent(b, n) + entry_at(model_id, entry, property_indent(b, n))
        + "\n"@ + line_indent(b, n.start) + cut(s, n.end - 1, b.len() as int);
    assert(t =~= head_for(s, n) + new);
    let before = cut(s, 0, p.start);
    match missing_comma(b, n) {
        Some(_) => {
            lemma_within(s, 0, p.start, p.value.end, c);
            let rest = cut(s, p.value.end, c) + ","@ + cut(s, c, at) + new;
            assert(t =~= before + text + rest);
            (before, rest)
        },
        None => {
            lemma_within(s, 0, p.start, p.value.end, at);
            let rest = cut(s, p.value.end, at) + new;
            assert(t =~= before + text + rest);
            (before, rest)
        },
    }
}

} // verus!

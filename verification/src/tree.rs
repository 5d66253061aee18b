//! JSON trees as `serde_json` builds them. A tree is known by the text it was
//! parsed from: that text is its view, and what `serde_json` says of the
//! tree (its kind, its size, how it is written out) is named as a function
//! of that text.
use vstd::prelude::*;

use crate::scan::NodeKind;

verus! {

/// A parsed JSON value of `serde_json`.
#[verifier::external_type_specification]
#[verifier::external_body]
pub struct ExValue(serde_json::Value);

/// What `serde_json::from_str::<Value>` reports for a text: `None` when it
/// builds a tree from it, otherwise its error message.
pub uninterp spec fn value_parse_error(text: Seq<char>) -> Option<Seq<char>>;

/// The kind of the root of the tree `serde_json` builds from a text.
pub uninterp spec fn tree_kind(text: Seq<char>) -> NodeKind;

/// The number of elements (array) or distinct keys (object) of the root of
/// the tree built from a text; `None` for any other root.
pub uninterp spec fn tree_len(text: Seq<char>) -> Option<usize>;

/// `serde_json::to_string_pretty` of the tree built from a text: the text,
/// or the serializer's message.
pub uninterp spec fn tree_pretty(text: Seq<char>) -> Result<Seq<char>, Seq<char>>;

/// `serde_json::to_string` of the tree built from a text, when it can be
/// written.
pub uninterp spec fn tree_compact(text: Seq<char>) -> Option<Seq<char>>;

/// `serde_json::to_string` of `value[i]` (`Value`'s index by position: the
/// element at `i` of an array, `null` for anything else), for the tree built
/// from a text.
pub uninterp spec fn tree_element_compact(text: Seq<char>, i: usize) -> Option<Seq<char>>;

/// A tree, with the text it was parsed from.
pub struct Tree {
    value: serde_json::Value,
    source: Ghost<Seq<char>>,
}

impl Tree {
    /// A tree's text is one `serde_json` builds a tree from.
    #[verifier::type_invariant]
    spec fn parsed_from_source(self) -> bool {
        value_parse_error(self.source@) is None
    }
}

impl View for Tree {
    type V = Seq<char>;

    closed spec fn view(&self) -> Seq<char> {
        self.source@
    }
}

/// `serde_json::from_str::<Value>`: parses a text into a tree, or gives the
/// parser's message.
#[verifier::external_body]
fn parse_value(text: &str) -> (r: Result<serde_json::Value, String>)
    ensures
        match r {
            Ok(_) => value_parse_error(text@) is None,
            Err(m) => value_parse_error(text@) == Some(m@),
        },
{
    serde_json::from_str(text).map_err(|e| e.to_string())
}

/// `serde_json::to_string_pretty`: the tree written as indented JSON, or
/// the serializer's message.
#[verifier::external_body]
fn pretty_json(t: &Tree) -> (r: Result<String, String>)
    ensures
        match r {
            Ok(s) => tree_pretty(t@) == Ok::<Seq<char>, Seq<char>>(s@),
            Err(m) => tree_pretty(t@) == Err::<Seq<char>, Seq<char>>(m@),
        },
{
    serde_json::to_string_pretty(&t.value).map_err(|e| e.to_string())
}

/// `serde_json::to_string`: the tree written as compact JSON, when it can
/// be.
#[verifier::external_body]
fn compact_json(t: &Tree) -> (r: Option<String>)
    ensures
        match r {
            Some(s) => tree_compact(t@) == Some(s@),
            None => tree_compact(t@) is None,
        },
{
    serde_json::to_string(&t.value).ok()
}

/// `serde_json::to_string` of `value[i]`.
#[verifier::external_body]
fn element_compact_json(t: &Tree, i: usize) -> (r: Option<String>)
    ensures
        match r {
            Some(s) => tree_element_compact(t@, i) == Some(s@),
            None => tree_element_compact(t@, i) is None,
        },
{
    serde_json::to_string(&t.value[i]).ok()
}

/// The kind of the root, told apart by the variant of `Value`.
#[verifier::external_body]
fn value_kind(t: &Tree) -> (r: NodeKind)
    ensures
        r == tree_kind(t@),
{
    match &t.value {
        serde_json::Value::Object(_) => NodeKind::Object,
        serde_json::Value::Array(_) => NodeKind::Array,
        serde_json::Value::String(_) => NodeKind::String,
        serde_json::Value::Number(_) => NodeKind::Number,
        serde_json::Value::Bool(_) => NodeKind::Bool,
        serde_json::Value::Null => NodeKind::Null,
    }
}

/// `Vec::len` of an array root or `Map::len` of an object root.
#[verifier::external_body]
fn value_len(t: &Tree) -> (r: Option<usize>)
    ensures
        r == tree_len(t@),
{
    match &t.value {
        serde_json::Value::Object(m) => Some(m.len()),
        serde_json::Value::Array(a) => Some(a.len()),
        _ => None,
    }
}

/// `Value::clone` (derived, so an equal value), kept with the text the
/// tree was parsed from.
#[verifier::external_body]
pub(crate) fn clone_tree(t: &Tree) -> (r: Tree)
    ensures
        r@ == t@,
{
    Tree { value: t.value.clone(), source: t.source }
}

impl Tree {
    /// Parses `text` into a tree, or gives the parser's message.
    pub fn parse(text: &str) -> (r: Result<Tree, String>)
        ensures
            match r {
                Ok(t) => value_parse_error(text@) is None && t@ == text@,
                Err(m) => value_parse_error(text@) == Some(m@),
            },
    {
        match parse_value(text) {
            Ok(v) => Ok(Tree { value: v, source: Ghost(text@) }),
            Err(m) => Err(m),
        }
    }

    /// The text of a tree is one `serde_json` builds a tree from.
    pub fn text_parses(&self)
        ensures
            value_parse_error(self@) is None,
    {
        proof {
            use_type_invariant(self);
        }
    }

    /// The kind of the root.
    pub fn kind(&self) -> (r: NodeKind)
        ensures
            r == tree_kind(self@),
    {
        value_kind(self)
    }

    /// The number of elements or keys of the root, when it is a collection.
    pub fn len(&self) -> (r: Option<usize>)
        ensures
            r == tree_len(self@),
    {
        value_len(self)
    }

    /// The tree written as indented JSON.
    pub fn to_pretty(&self) -> (r: Result<String, String>)
        ensures
            match r {
                Ok(s) => tree_pretty(self@) == Ok::<Seq<char>, Seq<char>>(s@),
                Err(m) => tree_pretty(self@) == Err::<Seq<char>, Seq<char>>(m@),
            },
    {
        pretty_json(self)
    }

    /// The tree written as compact JSON.
    pub fn to_compact(&self) -> (r: Option<String>)
        ensures
            match r {
                Some(s) => tree_compact(self@) == Some(s@),
                None => tree_compact(self@) is None,
            },
    {
        compact_json(self)
    }

    /// Element `i` of an array root written as compact JSON.
    pub fn element_compact(&self, i: usize) -> (r: Option<String>)
        ensures
            match r {
                Some(s) => tree_element_compact(self@, i) == Some(s@),
                None => tree_element_compact(self@, i) is None,
            },
    {
        element_compact_json(self, i)
    }
}

} // verus!

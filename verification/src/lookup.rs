//! Values of a lazily read document found by path: `sonic_rs` resolves the
//! path in the source text, or, for a path into an indexed root array, in
//! the text of the element the index gives; the kind, the child count, the
//! children in a window and the tree of the value found.
use vstd::prelude::*;
use vstd::string::StringSliceAdditionalSpecFns;

use crate::document::DocError;
use crate::scan::{described, describe, LazyDoc, NodeKind};
use crate::search::{budget_count, copy_path, kind_of_value, path_view, Step, StepView};
use crate::tree::{value_parse_error, Tree};
use crate::window::{
    child_count_spec, child_view, children_window, count_uncapped, indexed_window, maybe_count,
    root_array_slice, slice_children, triples_view, ChildSpan,
};

verus! {

/// The raw text of the value `sonic_rs::get_from_str` finds in `text` at
/// `path` (keys of objects, positions of arrays); `None` when there is none.
pub uninterp spec fn sonic_lookup(text: Seq<char>, path: Seq<StepView>) -> Option<Seq<char>>;

/// `sonic_rs::get_from_str` with the path turned into a JSON pointer (a
/// key for `Key`, a position for `Index`), then `LazyValue::as_raw_str`.
#[verifier::external_body]
pub(crate) fn lookup_raw(text: &str, path: &[Step]) -> (r: Option<String>)
    ensures
        match r {
            Some(v) => sonic_lookup(text@, path_view(path@)) == Some(v@),
            None => sonic_lookup(text@, path_view(path@)) is None,
        },
{
    let pointer: Vec<sonic_rs::PointerNode> = path
        .iter()
        .map(|s| match s {
            Step::Key(k) => sonic_rs::PointerNode::Key(sonic_rs::FastStr::new(k)),
            Step::Index(i) => sonic_rs::PointerNode::Index(*i as usize),
        })
        .collect();
    sonic_rs::get_from_str(text, &pointer).ok().map(|v| v.as_raw_str().to_string())
}

/// The text of element `i` of an indexed root array.
pub open spec fn element_at(d: LazyDoc, i: int) -> Seq<char> {
    let ix = d.index_spec().unwrap();
    vstd::utf8::decode_utf8(d.source_bytes().subrange(ix[i].0, ix[i].1))
}

/// Whether `path` starts at an element of an indexed root array.
pub open spec fn into_element(d: LazyDoc, path: Seq<StepView>) -> bool {
    d.index_spec() is Some && path.len() > 0 && path[0] is Index
}

/// The raw text of the value at `path` in the document: for a path into an
/// indexed root array, the rest of the path resolved in the element's text
/// (none when there is no such element); otherwise the path resolved in the
/// source.
pub open spec fn lazy_lookup(d: LazyDoc, path: Seq<StepView>) -> Option<Seq<char>> {
    if into_element(d, path) {
        let i = path[0]->Index_0;
        if i < d.index_spec().unwrap().len() {
            sonic_lookup(element_at(d, i as int), path.skip(1))
        } else {
            None
        }
    } else {
        sonic_lookup(d.source_text(), path)
    }
}

/// Whether `e` is the refusal of `path`.
pub open spec fn invalid_path(e: DocError, path: Seq<Step>) -> bool {
    e matches DocError::InvalidPath(p) && path_view(p@) == path_view(path)
}

/// The children of a collection in a window: from the root index, by
/// position and byte range in the source; or, for a value found by path,
/// its raw text and its children, with byte ranges in that text.
pub enum Slice {
    Indexed(Vec<(usize, usize, usize)>),
    Scanned { raw: String, children: Vec<ChildSpan> },
}

fn invalid(path: &[Step]) -> (r: DocError)
    ensures
        invalid_path(r, path@),
{
    DocError::InvalidPath(copy_path(path))
}

impl LazyDoc {
    /// The raw text of the value at `path` (see [`lazy_lookup`]).
    pub fn lookup(&self, path: &[Step]) -> (r: Result<String, DocError>)
        ensures
            match r {
                Ok(v) => lazy_lookup(*self, path_view(path@)) == Some(v@),
                Err(e) => lazy_lookup(*self, path_view(path@)) is None && invalid_path(e, path@),
            },
    {
        let ghost pv = path_view(path@);
        if path.len() > 0 {
            if let Step::Index(i) = &path[0] {
                if let Some(spans) = self.root_element_spans() {
                    assert(into_element(*self, pv));
                    let rest = vstd::slice::slice_subrange(path, 1, path.len());
                    assert(path_view(rest@) =~= pv.skip(1));
                    return match self.element_text(*i as usize) {
                        Some(t) => match lookup_raw(t, rest) {
                            Some(v) => Ok(v),
                            None => Err(invalid(path)),
                        },
                        None => Err(invalid(path)),
                    };
                }
            }
        }
        assert(!into_element(*self, pv));
        match lookup_raw(self.source(), path) {
            Some(v) => Ok(v),
            None => Err(invalid(path)),
        }
    }

    /// The kind of the value at `path` and, within the counting budget, how
    /// many children it has.
    pub fn kind_at(&self, path: &[Step]) -> (r: Result<(NodeKind, Option<u32>), DocError>)
        ensures
            match lazy_lookup(*self, path_view(path@)) {
                Some(v) => r == Ok::<(NodeKind, Option<u32>), DocError>(
                    (kind_of_value(v), budget_count(v, kind_of_value(v))),
                ),
                None => (r matches Err(e) && invalid_path(e, path@)),
            },
    {
        let v = self.lookup(path)?;
        let kind = kind_of(v.as_str());
        let count = maybe_count(v.as_str(), kind);
        Ok((kind, count))
    }

    /// How many children the value at `path` has, counted in full; for the
    /// root of an indexed array, the length of the index.
    pub fn child_count_uncapped(&self, path: &[Step]) -> (r: Result<Option<u32>, DocError>)
        ensures
            path@.len() == 0 && self.index_spec() is Some ==> r == Ok::<Option<u32>, DocError>(
                Some(crate::scan::low32(self.index_spec().unwrap().len())),
            ),
            !(path@.len() == 0 && self.index_spec() is Some) ==> match lazy_lookup(
                *self,
                path_view(path@),
            ) {
                Some(v) => r == Ok::<Option<u32>, DocError>(
                    child_count_spec(v, kind_of_value(v)),
                ),
                None => (r matches Err(e) && invalid_path(e, path@)),
            },
    {
        if path.len() == 0 {
            if let Some(spans) = self.root_element_spans() {
                let n: usize = spans.len();
                let c: u32 = low32_of(n);
                return Ok(Some(c));
            }
        }
        let v = self.lookup(path)?;
        let kind = kind_of(v.as_str());
        Ok(count_uncapped(v.as_str(), kind))
    }

    /// The tree of the value at `path`: for one step into an indexed root
    /// array, parsed from the element's text; otherwise from the raw text
    /// the lookup finds.
    pub fn get_value(&self, path: &[Step]) -> (r: Result<Tree, DocError>)
        ensures
            path@.len() == 1 && into_element(*self, path_view(path@)) ==> {
                let i = path_view(path@)[0]->Index_0;
                if i < self.index_spec().unwrap().len() {
                    let t = element_at(*self, i as int);
                    match r {
                        Ok(tree) => tree@ == t && value_parse_error(t) is None,
                        Err(e) => e is Parse && value_parse_error(t) == Some(e->Parse_0@),
                    }
                } else {
                    (r matches Err(e) && invalid_path(e, path@))
                }
            },
            !(path@.len() == 1 && into_element(*self, path_view(path@))) ==> match lazy_lookup(
                *self,
                path_view(path@),
            ) {
                Some(v) => match r {
                    Ok(tree) => tree@ == v && value_parse_error(v) is None,
                    Err(e) => e is Parse && value_parse_error(v) == Some(e->Parse_0@),
                },
                None => (r matches Err(e) && invalid_path(e, path@)),
            },
    {
        let ghost pv = path_view(path@);
        if path.len() == 1 {
            if let Step::Index(i) = &path[0] {
                if let Some(spans) = self.root_element_spans() {
                    assert(into_element(*self, pv));
                    return match self.element_text(*i as usize) {
                        Some(t) => match Tree::parse(t) {
                            Ok(tree) => Ok(tree),
                            Err(m) => Err(DocError::Parse(m)),
                        },
                        None => Err(invalid(path)),
                    };
                }
            }
        }
        let v = self.lookup(path)?;
        match Tree::parse(v.as_str()) {
            Ok(tree) => Ok(tree),
            Err(m) => Err(DocError::Parse(m)),
        }
    }

    /// The children in `start..end` of the collection at `path`: from the
    /// root index for the root of an indexed array; otherwise those the
    /// scan finds in the raw text the lookup gives (none for a value that
    /// is not a collection), a scan error refusing the text.
    pub fn slice(&self, path: &[Step], start: u32, end: u32) -> (r: Result<Slice, DocError>)
        ensures
            path@.len() == 0 && self.index_spec() is Some ==> (r matches Ok(Slice::Indexed(v))
                && triples_view(v@) == indexed_window(
                self.index_spec().unwrap(),
                start as int,
                end as int,
            )),
            !(path@.len() == 0 && self.index_spec() is Some) ==> match lazy_lookup(
                *self,
                path_view(path@),
            ) {
                Some(v) => {
                    let b = vstd::utf8::encode_utf8(v);
                    match children_window(b, kind_of_value(v), start as int, end as int) {
                        Ok(cs) => (r matches Ok(Slice::Scanned { raw, children }) && raw@ == v
                            && children@.map_values(|c: ChildSpan| child_view(c)) == cs),
                        Err(e) => (r matches Err(DocError::Parse(m)) && m@ == described(e, b)),
                    }
                },
                None => (r matches Err(e) && invalid_path(e, path@)),
            },
    {
        if path.len() == 0 {
            if let Some(spans) = self.root_element_spans() {
                return Ok(Slice::Indexed(root_array_slice(spans, start, end)));
            }
        }
        let v = self.lookup(path)?;
        let kind = kind_of(v.as_str());
        let bytes = v.as_str().as_bytes();
        match slice_children(bytes, kind, start as usize, end as usize) {
            Ok(children) => Ok(Slice::Scanned { raw: v, children }),
            Err(e) => Err(DocError::Parse(describe(&e, bytes))),
        }
    }
}

fn kind_of(v: &str) -> (r: NodeKind)
    ensures
        r == kind_of_value(v@),
{
    match crate::search::kind_of_text(v) {
        Some(k) => k,
        None => NodeKind::Null,
    }
}

fn low32_of(n: usize) -> (r: u32)
    ensures
        r == crate::scan::low32(n as nat),
{
    let m: u64 = (n as u64) % 0x1_0000_0000u64;
    m as u32
}

} // verus!

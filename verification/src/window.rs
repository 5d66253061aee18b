//! Windows over the children of a collection in a lazily read document: the
//! children with positions in `start..end`, found by scanning the raw text of
//! the collection, and the preview shown for a collection.
use vstd::prelude::*;

use crate::format::number::{decimal, push_decimal};
use crate::scan::{
    index_from, lemma_string_end, lemma_value_end, lemma_ws_end, root_index, skip_string,
    skip_value, skip_ws, sonic_element_count, sonic_member_count, sonic_root_elements,
    sonic_root_members, spans_view, string_end, value_end, ws_end, NodeKind, ScanError,
    COUNT_BUDGET_BYTES,
};
use crate::text::string_of;
use vstd::string::StringSliceAdditionalSpecFns;

verus! {

// ---------------------------------------------------------------------------
// Arrays
// ---------------------------------------------------------------------------

/// The elements, from the one at `i` (position `idx`) on, whose positions
/// are below `end`; those at `start` or after are appended to `acc` as
/// (position, first byte, byte after).
pub open spec fn array_window_from(
    b: Seq<u8>,
    i: int,
    idx: int,
    start: int,
    end: int,
    acc: Seq<(int, int, int)>,
) -> Result<Seq<(int, int, int)>, ScanError>
    decreases b.len() - i,
{
    match value_end(b, i) {
        Err(e) => Err(e),
        Ok(e) => {
            let acc2 = if idx >= start {
                acc.push((idx, i, e))
            } else {
                acc
            };
            if idx + 1 >= end {
                Ok(acc2)
            } else {
                let j = ws_end(b, e);
                if j < b.len() && b[j] == 0x2Cu8 {
                    proof {
                        lemma_value_end(b, i);
                        lemma_ws_end(b, e);
                        lemma_ws_end(b, j + 1);
                    }
                    array_window_from(b, ws_end(b, j + 1), idx + 1, start, end, acc2)
                } else if j < b.len() && b[j] == 0x5Du8 {
                    Ok(acc2)
                } else {
                    Err(ScanError::ExpectedArraySeparator)
                }
            }
        },
    }
}

/// The elements of the array text `b` whose positions lie in `start..end`.
pub open spec fn array_window(b: Seq<u8>, start: int, end: int) -> Result<
    Seq<(int, int, int)>,
    ScanError,
> {
    let i = ws_end(b, 0);
    if i >= b.len() || b[i] != 0x5Bu8 {
        Err(ScanError::ExpectedArray)
    } else {
        let i2 = ws_end(b, i + 1);
        if i2 < b.len() && b[i2] == 0x5Du8 {
            Ok(Seq::empty())
        } else {
            array_window_from(b, i2, 0, start, end, Seq::empty())
        }
    }
}

pub open spec fn triples_view(v: Seq<(usize, usize, usize)>) -> Seq<(int, int, int)> {
    v.map_values(|p: (usize, usize, usize)| (p.0 as int, p.1 as int, p.2 as int))
}

/// The elements of the array text `raw` whose positions lie in
/// `start..end`, as (position, first byte, byte after); see
/// [`array_window`].
pub fn array_slice(raw: &[u8], start: usize, end: usize) -> (r: Result<
    Vec<(usize, usize, usize)>,
    ScanError,
>)
    ensures
        match r {
            Ok(v) => array_window(raw@, start as int, end as int) == Ok::<
                Seq<(int, int, int)>,
                ScanError,
            >(triples_view(v@)),
            Err(e) => array_window(raw@, start as int, end as int) == Err::<
                Seq<(int, int, int)>,
                ScanError,
            >(e),
        },
{
    let n = raw.len();
    let mut i = skip_ws(raw, 0);
    if i >= n || raw[i] != 0x5Bu8 {
        return Err(ScanError::ExpectedArray);
    }
    i = skip_ws(raw, i + 1);
    let mut out: Vec<(usize, usize, usize)> = Vec::new();
    assert(triples_view(out@) =~= Seq::<(int, int, int)>::empty());
    if i < n && raw[i] == 0x5Du8 {
        return Ok(out);
    }
    let mut idx: usize = 0;
    loop
        invariant
            n == raw@.len(),
            i <= n,
            idx < end || idx == 0,
            array_window_from(raw@, i as int, idx as int, start as int, end as int, triples_view(
                out@,
            )) == array_window(raw@, start as int, end as int),
        decreases n - i,
    {
        let val_start = i;
        proof {
            lemma_value_end(raw@, i as int);
        }
        let val_end = match skip_value(raw, i) {
            Ok(e) => e,
            Err(err) => {
                return Err(err);
            },
        };
        if idx >= start {
            let ghost before = triples_view(out@);
            out.push((idx, val_start, val_end));
            assert(triples_view(out@) =~= before.push((idx as int, val_start as int, val_end as int)));
        }
        if idx + 1 >= end {
            return Ok(out);
        }
        idx = idx + 1;
        let j = skip_ws(raw, val_end);
        if j < n && raw[j] == 0x2Cu8 {
            i = skip_ws(raw, j + 1);
        } else if j < n && raw[j] == 0x5Du8 {
            return Ok(out);
        } else {
            return Err(ScanError::ExpectedArraySeparator);
        }
    }
}

// ---------------------------------------------------------------------------
// Objects
// ---------------------------------------------------------------------------

/// The members, from the one whose key starts at `i` (position `idx`) on,
/// whose positions are below `end`; those at `start` or after are appended
/// to `acc` as (position, key start, byte after the key, value start, byte
/// after the value). A key's range includes its quotes.
pub open spec fn object_window_from(
    b: Seq<u8>,
    i: int,
    idx: int,
    start: int,
    end: int,
    acc: Seq<(int, int, int, int, int)>,
) -> Result<Seq<(int, int, int, int, int)>, ScanError>
    decreases b.len() - i,
{
    if i < 0 || i >= b.len() || b[i] != 0x22u8 {
        Err(ScanError::ExpectedKey)
    } else {
        match string_end(b, i + 1) {
            Err(e) => Err(e),
            Ok(ke) => {
                let c = ws_end(b, ke);
                if c >= b.len() || b[c] != 0x3Au8 {
                    Err(ScanError::ExpectedColon)
                } else {
                    let vs = ws_end(b, c + 1);
                    match value_end(b, vs) {
                        Err(e) => Err(e),
                        Ok(ve) => {
                            let acc2 = if idx >= start {
                                acc.push((idx, i, ke, vs, ve))
                            } else {
                                acc
                            };
                            if idx + 1 >= end {
                                Ok(acc2)
                            } else {
                                let j = ws_end(b, ve);
                                if j < b.len() && b[j] == 0x2Cu8 {
                                    proof {
                                        lemma_string_end(b, i + 1);
                                        lemma_ws_end(b, ke);
                                        lemma_ws_end(b, c + 1);
                                        lemma_value_end(b, vs);
                                        lemma_ws_end(b, ve);
                                        lemma_ws_end(b, j + 1);
                                    }
                                    object_window_from(
                                        b,
                                        ws_end(b, j + 1),
                                        idx + 1,
                                        start,
                                        end,
                                        acc2,
                                    )
                                } else if j < b.len() && b[j] == 0x7Du8 {
                                    Ok(acc2)
                                } else {
                                    Err(ScanError::ExpectedObjectSeparator)
                                }
                            }
                        },
                    }
                }
            },
        }
    }
}

/// The members of the object text `b` whose positions lie in `start..end`.
pub open spec fn object_window(b: Seq<u8>, start: int, end: int) -> Result<
    Seq<(int, int, int, int, int)>,
    ScanError,
> {
    let i = ws_end(b, 0);
    if i >= b.len() || b[i] != 0x7Bu8 {
        Err(ScanError::ExpectedObject)
    } else {
        let i2 = ws_end(b, i + 1);
        if i2 < b.len() && b[i2] == 0x7Du8 {
            Ok(Seq::empty())
        } else {
            object_window_from(b, i2, 0, start, end, Seq::empty())
        }
    }
}

pub open spec fn members_view(v: Seq<(usize, usize, usize, usize, usize)>) -> Seq<
    (int, int, int, int, int),
> {
    v.map_values(
        |p: (usize, usize, usize, usize, usize)|
            (p.0 as int, p.1 as int, p.2 as int, p.3 as int, p.4 as int),
    )
}

/// The members of the object text `raw` whose positions lie in
/// `start..end`, as (position, key start, byte after the key, value start,
/// byte after the value); see [`object_window`].
pub fn object_slice(raw: &[u8], start: usize, end: usize) -> (r: Result<
    Vec<(usize, usize, usize, usize, usize)>,
    ScanError,
>)
    ensures
        match r {
            Ok(v) => object_window(raw@, start as int, end as int) == Ok::<
                Seq<(int, int, int, int, int)>,
                ScanError,
            >(members_view(v@)),
            Err(e) => object_window(raw@, start as int, end as int) == Err::<
                Seq<(int, int, int, int, int)>,
                ScanError,
            >(e),
        },
{
    let n = raw.len();
    let mut i = skip_ws(raw, 0);
    if i >= n || raw[i] != 0x7Bu8 {
        return Err(ScanError::ExpectedObject);
    }
    i = skip_ws(raw, i + 1);
    let mut out: Vec<(usize, usize, usize, usize, usize)> = Vec::new();
    assert(members_view(out@) =~= Seq::<(int, int, int, int, int)>::empty());
    if i < n && raw[i] == 0x7Du8 {
        return Ok(out);
    }
    let mut idx: usize = 0;
    loop
        invariant
            n == raw@.len(),
            i <= n,
            idx < end || idx == 0,
            object_window_from(raw@, i as int, idx as int, start as int, end as int, members_view(
                out@,
            )) == object_window(raw@, start as int, end as int),
        decreases n - i,
    {
        if i >= n || raw[i] != 0x22u8 {
            return Err(ScanError::ExpectedKey);
        }
        let key_start = i;
        proof {
            lemma_string_end(raw@, i + 1);
        }
        let key_end = match skip_string(raw, i) {
            Ok(k) => k,
            Err(err) => {
                return Err(err);
            },
        };
        let c = skip_ws(raw, key_end);
        if c >= n || raw[c] != 0x3Au8 {
            return Err(ScanError::ExpectedColon);
        }
        let val_start = skip_ws(raw, c + 1);
        proof {
            lemma_value_end(raw@, val_start as int);
        }
        let val_end = match skip_value(raw, val_start) {
            Ok(e) => e,
            Err(err) => {
                return Err(err);
            },
        };
        if idx >= start {
            let ghost before = members_view(out@);
            out.push((idx, key_start, key_end, val_start, val_end));
            assert(members_view(out@) =~= before.push(
                (
                    idx as int,
                    key_start as int,
                    key_end as int,
                    val_start as int,
                    val_end as int,
                ),
            ));
        }
        if idx + 1 >= end {
            return Ok(out);
        }
        idx = idx + 1;
        let j = skip_ws(raw, val_end);
        if j < n && raw[j] == 0x2Cu8 {
            i = skip_ws(raw, j + 1);
        } else if j < n && raw[j] == 0x7Du8 {
            return Ok(out);
        } else {
            return Err(ScanError::ExpectedObjectSeparator);
        }
    }
}

// ---------------------------------------------------------------------------
// The root array by its index
// ---------------------------------------------------------------------------

/// The entries of the root index with positions in `start..end` (the end
/// clamped to the element count), as (position, first byte, byte after).
pub open spec fn indexed_window(index: Seq<(int, int)>, start: int, end: int) -> Seq<
    (int, int, int),
> {
    let e = if end < index.len() {
        end
    } else {
        index.len() as int
    };
    if start >= e {
        Seq::empty()
    } else {
        Seq::new((e - start) as nat, |k: int| (start + k, index[start + k].0, index[start + k].1))
    }
}

/// The elements of the root array with positions in `start..end`, read
/// from its element index (see [`indexed_window`]).
pub fn root_array_slice(index: &[(u32, u32)], start: u32, end: u32) -> (r: Vec<(usize, usize, usize)>)
    ensures
        triples_view(r@) == indexed_window(spans_view(index@), start as int, end as int),
{
    let s = start as usize;
    let e = if (end as usize) < index.len() {
        end as usize
    } else {
        index.len()
    };
    let mut out: Vec<(usize, usize, usize)> = Vec::new();
    if s >= e {
        assert(triples_view(out@) =~= indexed_window(spans_view(index@), start as int, end as int));
        return out;
    }
    let mut k = s;
    while k < e
        invariant
            s <= k <= e <= index@.len(),
            s == start,
            e == (if end < index@.len() { end as int } else { index@.len() as int }),
            triples_view(out@) =~= Seq::new(
                (k - s) as nat,
                |m: int|
                    (
                        start + m,
                        spans_view(index@)[start + m].0,
                        spans_view(index@)[start + m].1,
                    ),
            ),
        decreases e - k,
    {
        let (a, b) = index[k];
        let ghost before = triples_view(out@);
        out.push((k, a as usize, b as usize));
        assert(triples_view(out@) =~= before.push((k as int, a as int, b as int)));
        assert(spans_view(index@)[k as int] == (a as int, b as int));
        k += 1;
    }
    assert(triples_view(out@) =~= indexed_window(spans_view(index@), start as int, end as int));
    out
}

// ---------------------------------------------------------------------------
// Scanning and the index agree
// ---------------------------------------------------------------------------

proof fn lemma_index_from_extends(b: Seq<u8>, i: int, acc: Seq<(int, int)>)
    requires
        0 <= i,
    ensures
        index_from(b, i, acc) matches Ok(v) ==> v.len() > acc.len() && v.subrange(
            0,
            acc.len() as int,
        ) =~= acc,
    decreases b.len() - i,
{
    lemma_value_end(b, i);
    if let Ok(e) = value_end(b, i) {
        let acc2 = acc.push((i, e));
        let j = ws_end(b, e);
        lemma_ws_end(b, e);
        if j < b.len() && b[j] == 0x2Cu8 {
            lemma_ws_end(b, j + 1);
            lemma_index_from_extends(b, ws_end(b, j + 1), acc2);
            if let Ok(v) = index_from(b, ws_end(b, j + 1), acc2) {
                assert(v.subrange(0, acc.len() as int) =~= v.subrange(0, acc2.len() as int).subrange(
                    0,
                    acc.len() as int,
                ));
            }
        }
    }
}

proof fn lemma_indexed_window_prefix(v: Seq<(int, int)>, w: Seq<(int, int)>, start: int, end: int)
    requires
        0 <= start,
        end <= w.len() <= v.len(),
        v.subrange(0, w.len() as int) =~= w,
    ensures
        indexed_window(v, start, end) =~= indexed_window(w, start, end),
{
    if start < end {
        assert forall|m: int| start <= m < end implies #[trigger] v[m] == w[m] by {
            assert(v.subrange(0, w.len() as int)[m] == v[m]);
        }
    }
}

proof fn lemma_indexed_window_push(w: Seq<(int, int)>, x: (int, int), start: int, end: int)
    requires
        0 <= start,
        w.len() < end,
    ensures
        indexed_window(w.push(x), start, end) =~= (if w.len() >= start {
            indexed_window(w, start, end).push((w.len() as int, x.0, x.1))
        } else {
            indexed_window(w, start, end)
        }),
{
    let w2 = w.push(x);
    if w.len() >= start {
        assert forall|m: int| start <= m < w.len() implies #[trigger] w2[m] == w[m] by {}
    }
}

proof fn lemma_array_window_from_index(
    b: Seq<u8>,
    i: int,
    start: int,
    end: int,
    acc_w: Seq<(int, int, int)>,
    acc_i: Seq<(int, int)>,
)
    requires
        0 <= i,
        0 <= start < end,
        acc_i.len() < end,
        acc_w == indexed_window(acc_i, start, end),
    ensures
        index_from(b, i, acc_i) matches Ok(v) ==> array_window_from(
            b,
            i,
            acc_i.len() as int,
            start,
            end,
            acc_w,
        ) == Ok::<Seq<(int, int, int)>, ScanError>(indexed_window(v, start, end)),
    decreases b.len() - i,
{
    lemma_value_end(b, i);
    if let Ok(v) = index_from(b, i, acc_i) {
        let idx = acc_i.len() as int;
        let e = value_end(b, i)->Ok_0;
        let acc_i2 = acc_i.push((i, e));
        let acc_w2 = if idx >= start {
            acc_w.push((idx, i, e))
        } else {
            acc_w
        };
        lemma_indexed_window_push(acc_i, (i, e), start, end);
        assert(acc_w2 == indexed_window(acc_i2, start, end));
        let j = ws_end(b, e);
        lemma_ws_end(b, e);
        if b[j] == 0x2Cu8 {
            lemma_ws_end(b, j + 1);
            lemma_index_from_extends(b, ws_end(b, j + 1), acc_i2);
            if idx + 1 >= end {
                lemma_indexed_window_prefix(v, acc_i2, start, end);
            } else {
                lemma_array_window_from_index(b, ws_end(b, j + 1), start, end, acc_w2, acc_i2);
            }
        } else {
            assert(v == acc_i2);
        }
    }
}

/// Law: on an array whose element index can be built, the window over
/// `start..end` read by scanning the text agrees with the window read from
/// the index: the same positions, with the same byte ranges.
pub proof fn lemma_array_window_agrees_with_index(b: Seq<u8>, start: int, end: int)
    requires
        0 <= start < end,
    ensures
        root_index(b) matches Ok(v) ==> array_window(b, start, end) == Ok::<
            Seq<(int, int, int)>,
            ScanError,
        >(indexed_window(v, start, end)),
{
    if let Ok(v) = root_index(b) {
        let i = ws_end(b, 0);
        lemma_ws_end(b, 0);
        let i2 = ws_end(b, i + 1);
        lemma_ws_end(b, i + 1);
        if i2 < b.len() && b[i2] == 0x5Du8 {
            assert(indexed_window(v, start, end) =~= Seq::<(int, int, int)>::empty());
        } else {
            assert(indexed_window(Seq::<(int, int)>::empty(), start, end) =~= Seq::<
                (int, int, int),
            >::empty());
            lemma_array_window_from_index(b, i2, start, end, Seq::empty(), Seq::empty());
        }
    }
}

// ---------------------------------------------------------------------------
// Counting and previews
// ---------------------------------------------------------------------------

/// Whether the children of a value are counted for its preview: only for a
/// collection whose raw text is at most one counting budget long.
pub fn counts_children(kind: NodeKind, raw_len: usize) -> (r: bool)
    ensures
        r == ((kind == NodeKind::Object || kind == NodeKind::Array) && raw_len
            <= COUNT_BUDGET_BYTES),
{
    (kind == NodeKind::Object || kind == NodeKind::Array) && raw_len <= COUNT_BUDGET_BYTES
}

/// The number of children of the value whose raw text is `raw`, as
/// `sonic_rs` counts them: members of an object, elements of an array;
/// `None` for any other kind. A count is kept to its low 32 bits.
pub open spec fn child_count_spec(raw: Seq<char>, kind: NodeKind) -> Option<u32> {
    if kind == NodeKind::Object {
        sonic_member_count(raw)
    } else if kind == NodeKind::Array {
        sonic_element_count(raw)
    } else {
        None
    }
}

/// The children of a value of kind `kind`, counted (see
/// [`child_count_spec`]).
pub fn count_uncapped(raw: &str, kind: NodeKind) -> (r: Option<u32>)
    ensures
        r == child_count_spec(raw@, kind),
{
    if kind == NodeKind::Object {
        sonic_root_members(raw)
    } else if kind == NodeKind::Array {
        sonic_root_elements(raw)
    } else {
        None
    }
}

/// The children of a value, counted only when [`counts_children`] allows
/// it.
pub fn maybe_count(raw: &str, kind: NodeKind) -> (r: Option<u32>)
    ensures
        r == (if (kind == NodeKind::Object || kind == NodeKind::Array)
            && raw.spec_bytes().len() <= COUNT_BUDGET_BYTES {
            child_count_spec(raw@, kind)
        } else {
            None
        }),
{
    if !counts_children(kind, raw.as_bytes().len()) {
        return None;
    }
    count_uncapped(raw, kind)
}

/// A child of a collection in a window: its position, the byte range of its
/// key (quotes included) when the collection is an object, and the byte
/// range of its value.
#[derive(Debug, Clone, Copy, PartialEq, Eq)]
pub struct ChildSpan {
    pub index: usize,
    pub key: Option<(usize, usize)>,
    pub value: (usize, usize),
}

pub open spec fn child_view(c: ChildSpan) -> (int, Option<(int, int)>, int, int) {
    (
        c.index as int,
        match c.key {
            Some(k) => Some((k.0 as int, k.1 as int)),
            None => None,
        },
        c.value.0 as int,
        c.value.1 as int,
    )
}

/// The children in `start..end` of a collection of kind `kind` whose raw
/// text is `b`: members of an object, elements of an array, none for any
/// other kind or an empty window.
pub open spec fn children_window(b: Seq<u8>, kind: NodeKind, start: int, end: int) -> Result<
    Seq<(int, Option<(int, int)>, int, int)>,
    ScanError,
> {
    if end <= start {
        Ok(Seq::empty())
    } else if kind == NodeKind::Object {
        match object_window(b, start, end) {
            Ok(v) => Ok(
                v.map_values(
                    |m: (int, int, int, int, int)| (m.0, Some((m.1, m.2)), m.3, m.4),
                ),
            ),
            Err(e) => Err(e),
        }
    } else if kind == NodeKind::Array {
        match array_window(b, start, end) {
            Ok(v) => Ok(v.map_values(|m: (int, int, int)| (m.0, None, m.1, m.2))),
            Err(e) => Err(e),
        }
    } else {
        Ok(Seq::empty())
    }
}

/// The children in `start..end` of a value of kind `kind` whose raw text is
/// `raw` (see [`children_window`]).
pub fn slice_children(raw: &[u8], kind: NodeKind, start: usize, end: usize) -> (r: Result<
    Vec<ChildSpan>,
    ScanError,
>)
    ensures
        match r {
            Ok(v) => children_window(raw@, kind, start as int, end as int) == Ok::<
                Seq<(int, Option<(int, int)>, int, int)>,
                ScanError,
            >(v@.map_values(|c: ChildSpan| child_view(c))),
            Err(e) => children_window(raw@, kind, start as int, end as int) == Err::<
                Seq<(int, Option<(int, int)>, int, int)>,
                ScanError,
            >(e),
        },
{
    let mut out: Vec<ChildSpan> = Vec::new();
    if end <= start {
        assert(out@.map_values(|c: ChildSpan| child_view(c)) =~= Seq::empty());
        return Ok(out);
    }
    if kind == NodeKind::Object {
        let members = object_slice(raw, start, end)?;
        let ghost mv = members_view(members@);
        let mut k: usize = 0;
        while k < members.len()
            invariant
                k <= members@.len(),
                mv == members_view(members@),
                out@.map_values(|c: ChildSpan| child_view(c)) =~= mv.take(k as int).map_values(
                    |m: (int, int, int, int, int)| (m.0, Some((m.1, m.2)), m.3, m.4),
                ),
            decreases members@.len() - k,
        {
            let (i, ks, ke, vs, ve) = members[k];
            let ghost before = out@;
            out.push(ChildSpan { index: i, key: Some((ks, ke)), value: (vs, ve) });
            assert(mv[k as int] == (i as int, ks as int, ke as int, vs as int, ve as int));
            assert(out@.map_values(|c: ChildSpan| child_view(c)) =~= before.map_values(
                |c: ChildSpan| child_view(c),
            ).push((i as int, Some((ks as int, ke as int)), vs as int, ve as int)));
            assert(mv.take(k + 1) =~= mv.take(k as int).push(mv[k as int]));
            assert(mv.take(k + 1).map_values(
                |m: (int, int, int, int, int)| (m.0, Some((m.1, m.2)), m.3, m.4),
            ) =~= mv.take(k as int).map_values(
                |m: (int, int, int, int, int)| (m.0, Some((m.1, m.2)), m.3, m.4),
            ).push((i as int, Some((ks as int, ke as int)), vs as int, ve as int)));
            k += 1;
        }
        assert(mv.take(members@.len() as int) =~= mv);
        Ok(out)
    } else if kind == NodeKind::Array {
        let elems = array_slice(raw, start, end)?;
        let ghost ev = triples_view(elems@);
        let mut k: usize = 0;
        while k < elems.len()
            invariant
                k <= elems@.len(),
                ev == triples_view(elems@),
                out@.map_values(|c: ChildSpan| child_view(c)) =~= ev.take(k as int).map_values(
                    |m: (int, int, int)| (m.0, None::<(int, int)>, m.1, m.2),
                ),
            decreases elems@.len() - k,
        {
            let (i, vs, ve) = elems[k];
            let ghost before = out@;
            out.push(ChildSpan { index: i, key: None, value: (vs, ve) });
            assert(ev[k as int] == (i as int, vs as int, ve as int));
            assert(out@.map_values(|c: ChildSpan| child_view(c)) =~= before.map_values(
                |c: ChildSpan| child_view(c),
            ).push((i as int, None::<(int, int)>, vs as int, ve as int)));
            assert(ev.take(k + 1) =~= ev.take(k as int).push(ev[k as int]));
            assert(ev.take(k + 1).map_values(
                |m: (int, int, int)| (m.0, None::<(int, int)>, m.1, m.2),
            ) =~= ev.take(k as int).map_values(
                |m: (int, int, int)| (m.0, None::<(int, int)>, m.1, m.2),
            ).push((i as int, None::<(int, int)>, vs as int, ve as int)));
            k += 1;
        }
        assert(ev.take(elems@.len() as int) =~= ev);
        Ok(out)
    } else {
        assert(out@.map_values(|c: ChildSpan| child_view(c)) =~= Seq::empty());
        Ok(out)
    }
}

/// The preview of a collection: `{}` / `[]` when empty, `{n keys}` /
/// `[n items]` when counted, `{…}` / `[…]` when not.
pub open spec fn collection_preview_spec(object: bool, count: Option<u32>) -> Seq<char> {
    match count {
        Some(n) => if n == 0 {
            if object {
                seq!['{', '}']
            } else {
                seq!['[', ']']
            }
        } else if object {
            seq!['{'] + decimal(n as nat) + seq![' ', 'k', 'e', 'y', 's', '}']
        } else {
            seq!['['] + decimal(n as nat) + seq![' ', 'i', 't', 'e', 'm', 's', ']']
        },
        None => if object {
            seq!['{', '\u{2026}', '}']
        } else {
            seq!['[', '\u{2026}', ']']
        },
    }
}

/// The preview of a collection (see [`collection_preview_spec`]).
pub fn collection_preview(object: bool, count: Option<u32>) -> (r: String)
    ensures
        r@ == collection_preview_spec(object, count),
{
    let mut out: Vec<char> = Vec::new();
    match count {
        Some(n) => {
            if n == 0 {
                if object {
                    out.push('{');
                    out.push('}');
                } else {
                    out.push('[');
                    out.push(']');
                }
            } else if object {
                out.push('{');
                push_decimal(&mut out, n as u128);
                out.push(' ');
                out.push('k');
                out.push('e');
                out.push('y');
                out.push('s');
                out.push('}');
            } else {
                out.push('[');
                push_decimal(&mut out, n as u128);
                out.push(' ');
                out.push('i');
                out.push('t');
                out.push('e');
                out.push('m');
                out.push('s');
                out.push(']');
            }
        },
        None => {
            if object {
                out.push('{');
                out.push('\u{2026}');
                out.push('}');
            } else {
                out.push('[');
                out.push('\u{2026}');
                out.push(']');
            }
        },
    }
    assert(out@ =~= collection_preview_spec(object, count));
    string_of(&out)
}

} // verus!

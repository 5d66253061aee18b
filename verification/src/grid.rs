//! The rows of an array that the grid view shows: those that pass the
//! column filters and the quick filter, in the order of a sort column when
//! there is one (ties keep their array order), windowed to `start..end`;
//! the text the quick filter reads in a lazily read array; and the distinct
//! values of a column, most frequent first.
//!
//! What the column filters decide of each row and how cells compare are
//! given: `pass[i]` says whether row `i` passes the filters, and `ranks[i]`
//! places row `i`'s sort cell in the cells' order.
use vstd::prelude::*;
use vstd::relations::sorted_by;

use crate::format::{lowercase, unicode_lowercase};
use crate::scan::{LazyDoc, NodeKind};
use crate::search::kind_of_char;
use crate::text::{chars_of, skip_white_space, slice_chars, string_of, trim, trim_end_len};

verus! {

broadcast use vstd::seq_lib::group_to_multiset_ensures;

/// Whether `q` occurs in `t`.
pub open spec fn has_sub(t: Seq<char>, q: Seq<char>) -> bool {
    exists|j: int| 0 <= j && j + q.len() <= t.len() && #[trigger] t.subrange(j, j + q.len()) == q
}

/// The quick filter as it is applied: trimmed, lowercased; none when empty.
pub open spec fn quick_needle(quick: Option<Seq<char>>) -> Option<Seq<char>> {
    match quick {
        Some(q) => if trim(q).len() == 0 {
            None
        } else {
            Some(unicode_lowercase(trim(q)))
        },
        None => None,
    }
}

/// The text of row `i` in quick-filter column `k`.
pub open spec fn col_cell(cols: Seq<Seq<Option<Seq<char>>>>, k: int, i: int) -> Option<Seq<char>> {
    if 0 <= k < cols.len() && 0 <= i < cols[k].len() {
        cols[k][i]
    } else {
        None
    }
}

/// Whether a cell's text holds `q`.
pub open spec fn cell_has(c: Option<Seq<char>>, q: Seq<char>) -> bool {
    match c {
        Some(t) => has_sub(t, q),
        None => false,
    }
}

/// Whether row `i` passes the quick filter: there is none, or there are no
/// quick-filter columns, or one of them holds it in row `i`.
pub open spec fn quick_pass(cols: Seq<Seq<Option<Seq<char>>>>, needle: Option<Seq<char>>, i: int) -> bool {
    match needle {
        None => true,
        Some(q) => cols.len() == 0 || exists|k: int|
            0 <= k < cols.len() && cell_has(#[trigger] col_cell(cols, k, i), q),
    }
}

/// The rows below `i` that pass both filters, in array order.
pub open spec fn selected(pass: Seq<bool>, cols: Seq<Seq<Option<Seq<char>>>>, needle: Option<Seq<char>>, i: nat) -> Seq<u32>
    decreases i,
{
    if i == 0 {
        Seq::empty()
    } else {
        let prev = selected(pass, cols, needle, (i - 1) as nat);
        if (i - 1) < pass.len() && pass[i - 1] && quick_pass(cols, needle, i - 1) {
            prev.push((i - 1) as u32)
        } else {
            prev
        }
    }
}

/// Law: a row is selected exactly when it passes the column filters and the
/// quick filter; the selection keeps array order.
pub proof fn lemma_selected_rows(
    pass: Seq<bool>,
    cols: Seq<Seq<Option<Seq<char>>>>,
    needle: Option<Seq<char>>,
    n: nat,
)
    requires
        n <= pass.len() <= u32::MAX,
    ensures
        forall|i: int|
            0 <= i < n ==> (#[trigger] selected(pass, cols, needle, n).contains(i as u32) <==> (pass[i]
                && quick_pass(cols, needle, i))),
        forall|a: int, b: int|
            0 <= a < b < selected(pass, cols, needle, n).len() ==> (#[trigger] selected(
                pass,
                cols,
                needle,
                n,
            )[a]) < (#[trigger] selected(pass, cols, needle, n)[b]),
        forall|k: int|
            0 <= k < selected(pass, cols, needle, n).len() ==> (#[trigger] selected(
                pass,
                cols,
                needle,
                n,
            )[k]) < n,
    decreases n,
{
    if n > 0 {
        let m = (n - 1) as nat;
        lemma_selected_rows(pass, cols, needle, m);
        let prev = selected(pass, cols, needle, m);
        let cur = selected(pass, cols, needle, n);
        assert forall|i: int| 0 <= i < n implies (cur.contains(i as u32) <==> (pass[i]
            && quick_pass(cols, needle, i))) by {
            if i < m {
                assert(prev.contains(i as u32) <==> (pass[i] && quick_pass(cols, needle, i)));
            }
            if pass[m as int] && quick_pass(cols, needle, m as int) {
                assert(cur == prev.push(m as u32));
                if i < m {
                    if cur.contains(i as u32) {
                        let k = choose|k: int| 0 <= k < cur.len() && cur[k] == i as u32;
                        if k == prev.len() {
                            assert(cur[k] == m as u32);
                        } else {
                            assert(prev[k] == i as u32);
                        }
                    }
                    if prev.contains(i as u32) {
                        let k = choose|k: int| 0 <= k < prev.len() && prev[k] == i as u32;
                        assert(cur[k] == i as u32);
                    }
                } else {
                    assert(cur[prev.len() as int] == m as u32);
                }
            } else {
                assert(cur == prev);
                if i == m && cur.contains(i as u32) {
                    let k = choose|k: int| 0 <= k < cur.len() && cur[k] == i as u32;
                    assert(prev[k] < m);
                }
            }
        }
    }
}

/// Whether row `a` comes before row `b` when sorting by `ranks`: a better
/// rank first (lower, or higher when descending), and in array order among
/// equal ranks.
pub open spec fn before(ranks: Seq<u64>, desc: bool, a: u32, b: u32) -> bool {
    let ra = ranks[a as int];
    let rb = ranks[b as int];
    if ra == rb {
        a < b
    } else if desc {
        ra > rb
    } else {
        ra < rb
    }
}

/// How many rows passed, and the window of them shown.
#[derive(Debug, Clone, PartialEq, Eq)]
pub struct FilterWindow {
    pub total: u32,
    pub rows: Vec<u32>,
}

fn contains_chars(t: &[char], q: &[char]) -> (r: bool)
    ensures
        r == has_sub(t@, q@),
{
    if q.len() > t.len() {
        return false;
    }
    if q.len() == 0 {
        assert(t@.subrange(0, 0int + q@.len()) =~= q@);
        return true;
    }
    let qn = q.len();
    let last = t.len() - qn;
    let mut j: usize = 0;
    while j <= last
        invariant
            qn == q@.len(),
            last + qn == t@.len(),
            last + qn <= usize::MAX,
            q@.len() <= t@.len(),
            last == t@.len() - q@.len(),
            last < t@.len(),
            j <= last + 1,
            forall|m: int| 0 <= m < j ==> #[trigger] t@.subrange(m, m + q@.len()) != q@,
        decreases last + 1 - j,
    {
        if crate::text::range_is(t, j, j + qn, q) {
            assert(t@.subrange(j as int, j + q@.len()) == q@);
            return true;
        }
        j += 1;
    }
    false
}

fn quick_passes(cols: &[Vec<Option<String>>], needle: &Option<Vec<char>>, i: usize) -> (r: bool)
    ensures
        r == quick_pass(cols_view(cols@), chars_view(*needle), i as int),
{
    match needle {
        None => true,
        Some(q) => {
            if cols.len() == 0 {
                return true;
            }
            let mut k: usize = 0;
            while k < cols.len()
                invariant
                    k <= cols@.len(),
                    chars_view(*needle) == Some(q@),
                    forall|m: int|
                        0 <= m < k ==> !cell_has(#[trigger] col_cell(cols_view(cols@), m, i as int), q@),
                decreases cols@.len() - k,
            {
                assert(cols_view(cols@)[k as int] == cell_view(cols@[k as int]@));
                if i < cols[k].len() {
                    if let Some(t) = &cols[k][i] {
                        let tc = chars_of(t.as_str());
                        assert(cell_view(cols@[k as int]@)[i as int] == Some(t@));
                        assert(col_cell(cols_view(cols@), k as int, i as int) == Some(t@));
                        if contains_chars(&tc, q) {
                            assert(cell_has(col_cell(cols_view(cols@), k as int, i as int), q@));
                            assert(0 <= k < cols_view(cols@).len());
                            assert(chars_view(*needle) == Some(q@));
                            return true;
                        }
                    }
                }
                k += 1;
            }
            false
        },
    }
}

pub open spec fn cell_view(c: Seq<Option<String>>) -> Seq<Option<Seq<char>>> {
    c.map_values(|o: Option<String>| match o {
        Some(s) => Some(s@),
        None => None,
    })
}

pub open spec fn cols_view(cols: Seq<Vec<Option<String>>>) -> Seq<Seq<Option<Seq<char>>>> {
    cols.map_values(|c: Vec<Option<String>>| cell_view(c@))
}

pub open spec fn chars_view(q: Option<Vec<char>>) -> Option<Seq<char>> {
    match q {
        Some(v) => Some(v@),
        None => None,
    }
}

/// The quick filter trimmed and lowercased (see [`quick_needle`]).
fn needle_of(quick: Option<&str>) -> (r: Option<Vec<char>>)
    ensures
        chars_view(r) == quick_needle(match quick {
            Some(q) => Some(q@),
            None => None,
        }),
{
    match quick {
        None => None,
        Some(q) => {
            let c = chars_of(q);
            let a = skip_white_space(&c, 0);
            let b = trim_end_len(&c);
            proof {
                crate::text::lemma_ws_prefix_end_bounds(c@, 0);
                crate::text::lemma_ws_suffix_start_bounds(c@, c@.len() as int);
            }
            if a >= b {
                return None;
            }
            let t = slice_chars(&c, a, b);
            let ts = crate::text::string_of(&t);
            let l = lowercase(ts.as_str());
            Some(chars_of(l.as_str()))
        },
    }
}

/// Inserts row `x`, which comes after every row of `out` in array order, at
/// its place in the order of [`before`].
fn insert_row(out: &mut Vec<u32>, x: u32, ranks: &[u64], desc: bool)
    requires
        sorted_by(old(out)@, |a: u32, b: u32| before(ranks@, desc, a, b)),
        forall|k: int| 0 <= k < old(out)@.len() ==> (#[trigger] old(out)@[k]) < x,
        x < ranks@.len(),
        forall|k: int| 0 <= k < old(out)@.len() ==> (#[trigger] old(out)@[k]) < ranks@.len(),
    ensures
        sorted_by(final(out)@, |a: u32, b: u32| before(ranks@, desc, a, b)),
        final(out)@.to_multiset() == old(out)@.to_multiset().insert(x),
        final(out)@.len() == old(out)@.len() + 1,
        forall|k: int| 0 <= k < final(out)@.len() ==> (#[trigger] final(out)@[k]) <= x,
{
    let ghost lt = |a: u32, b: u32| before(ranks@, desc, a, b);
    let rx = ranks[x as usize];
    let mut p: usize = out.len();
    while p > 0
        invariant
            p <= out@.len(),
            out@ == old(out)@,
            x < ranks@.len(),
            rx == ranks@[x as int],
            forall|k: int| 0 <= k < out@.len() ==> (#[trigger] out@[k]) < x && out@[k] < ranks@.len(),
            forall|k: int| p <= k < out@.len() ==> before(ranks@, desc, x, #[trigger] out@[k]),
        ensures
            p <= out@.len(),
            out@ == old(out)@,
            forall|k: int| p <= k < out@.len() ==> before(ranks@, desc, x, #[trigger] out@[k]),
            p == 0 || before(ranks@, desc, out@[p - 1], x),
        decreases p,
    {
        let e = out[p - 1];
        let re = ranks[e as usize];
        let x_first = if desc {
            rx > re
        } else {
            rx < re
        };
        if !x_first {
            break;
        }
        p -= 1;
    }
    let ghost before_seq = out@;
    out.insert(p, x);
    proof {
        assert(out@ == before_seq.insert(p as int, x));
        vstd::seq_lib::to_multiset_insert(before_seq, p as int, x);
        assert forall|i: int, j: int| 0 <= i < j < out@.len() implies #[trigger] lt(out@[i], out@[j]) by {
            if j < p {
                assert(out@[i] == before_seq[i] && out@[j] == before_seq[j]);
                assert(lt(before_seq[i], before_seq[j]));
            } else if j == p {
                assert(out@[i] == before_seq[i]);
                assert(out@[j] == x);
                assert(before(ranks@, desc, before_seq[p - 1], x));
                if i < p - 1 {
                    assert(lt(before_seq[i], before_seq[p - 1]));
                }
            } else if i == p {
                assert(out@[i] == x);
                assert(out@[j] == before_seq[j - 1]);
                assert(before(ranks@, desc, x, before_seq[j - 1]));
            } else if i < p {
                assert(out@[i] == before_seq[i] && out@[j] == before_seq[j - 1]);
                assert(lt(before_seq[i], before_seq[j - 1]));
            } else {
                assert(out@[i] == before_seq[i - 1] && out@[j] == before_seq[j - 1]);
                assert(lt(before_seq[i - 1], before_seq[j - 1]));
            }
        }
    }
}

/// The rows that pass both filters (see [`selected`]), sorted when a sort
/// column is given (see [`before`]), and the window `start..end` of them,
/// both ends clamped to how many passed; the window is empty where the
/// clamped start is not below the clamped end.
pub fn filter_rows(
    pass: &[bool],
    quick_cols: &[Vec<Option<String>>],
    quick: Option<&str>,
    sort: Option<(&[u64], bool)>,
    start: u32,
    end: u32,
) -> (r: FilterWindow)
    requires
        pass@.len() <= u32::MAX,
        sort matches Some((ranks, _)) ==> ranks@.len() == pass@.len(),
    ensures
        ({
            let needle = quick_needle(match quick {
                Some(q) => Some(q@),
                None => None,
            });
            let sel = selected(pass@, cols_view(quick_cols@), needle, pass@.len());
            &&& r.total == sel.len()
            &&& exists|order: Seq<u32>| #![trigger order.to_multiset()] {
                &&& order.to_multiset() == sel.to_multiset()
                &&& match sort {
                    Some((ranks, desc)) => sorted_by(order, |a: u32, b: u32| before(ranks@, desc, a, b)),
                    None => order == sel,
                }
                &&& r.rows@ == if start < r.total && start < end {
                    order.subrange(start as int, if end < r.total { end as int } else { r.total as int })
                } else {
                    Seq::<u32>::empty()
                }
            }
        }),
{
    let needle = needle_of(quick);
    let ghost nv = chars_view(needle);
    let ghost cv = cols_view(quick_cols@);
    let n = pass.len();
    let mut sel: Vec<u32> = Vec::new();
    let mut i: usize = 0;
    while i < n
        invariant
            n == pass@.len(),
            n <= u32::MAX,
            i <= n,
            nv == chars_view(needle),
            cv == cols_view(quick_cols@),
            sel@ == selected(pass@, cv, nv, i as nat),
            sel@.len() <= i,
            forall|k: int| 0 <= k < sel@.len() ==> (#[trigger] sel@[k]) < i,
            forall|a: int, b: int| 0 <= a < b < sel@.len() ==> (#[trigger] sel@[a]) < (#[trigger] sel@[b]),
        decreases n - i,
    {
        if pass[i] && quick_passes(quick_cols, &needle, i) {
            sel.push(i as u32);
        }
        i += 1;
    }
    let total = sel.len() as u32;
    let ghost order: Seq<u32>;
    let ordered: Vec<u32> = match sort {
        None => {
            proof {
                order = sel@;
            }
            sel
        },
        Some((ranks, desc)) => {
            let mut out: Vec<u32> = Vec::new();
            let mut k: usize = 0;
            while k < sel.len()
                invariant
                    k <= sel@.len(),
                    ranks@.len() == n,
                    forall|m: int| 0 <= m < sel@.len() ==> (#[trigger] sel@[m]) < n,
                    forall|a: int, b: int| 0 <= a < b < sel@.len() ==> (#[trigger] sel@[a]) < (#[trigger] sel@[b]),
                    sorted_by(out@, |a: u32, b: u32| before(ranks@, desc, a, b)),
                    out@.to_multiset() == sel@.take(k as int).to_multiset(),
                    out@.len() == k,
                    forall|m: int| 0 <= m < out@.len() ==> (k > 0 && (#[trigger] out@[m]) <= sel@[k - 1]),
                decreases sel@.len() - k,
            {
                let x = sel[k];
                proof {
                    assert forall|m: int| 0 <= m < out@.len() implies (#[trigger] out@[m]) < x by {
                        if k > 0 {
                            assert(sel@[k - 1] < sel@[k as int]);
                        }
                    }
                }
                insert_row(&mut out, x, ranks, desc);
                assert(sel@.take(k + 1) =~= sel@.take(k as int).push(x));
                k += 1;
            }
            assert(sel@.take(sel@.len() as int) =~= sel@);
            proof {
                order = out@;
            }
            out
        },
    };
    let s = if start < total { start } else { total };
    let e = if end < total { end } else { total };
    let mut rows: Vec<u32> = Vec::new();
    if s < e {
        rows = slice_u32(&ordered, s as usize, e as usize);
    }
    proof {
        assert(ordered@ == order);
        assert(order.to_multiset() == sel@.to_multiset());
    }
    FilterWindow { total, rows }
}

fn slice_u32(v: &[u32], a: usize, b: usize) -> (r: Vec<u32>)
    requires
        a <= b <= v@.len(),
    ensures
        r@ == v@.subrange(a as int, b as int),
{
    let mut r: Vec<u32> = Vec::new();
    let mut k: usize = a;
    while k < b
        invariant
            a <= k <= b <= v@.len(),
            r@ == v@.subrange(a as int, k as int),
        decreases b - k,
    {
        r.push(v[k]);
        assert(v@.subrange(a as int, k + 1) =~= v@.subrange(a as int, k as int).push(v@[k as int]));
        k += 1;
    }
    r
}

// ---------------------------------------------------------------------------
// Quick-filter text of a lazily read array
// ---------------------------------------------------------------------------

/// What `sonic_rs::get_from_str(text, &[field])` finds: the raw text of the
/// member `field` of the object `text`; `None` when there is none.
pub uninterp spec fn sonic_member(text: Seq<char>, field: Seq<char>) -> Option<Seq<char>>;

/// `sonic_rs::get_from_str` with the one-key path `[field]`, and
/// `LazyValue::as_raw_str` on what it finds.
#[verifier::external_body]
fn member_raw(text: &str, field: &str) -> (r: Option<String>)
    ensures
        match r {
            Some(m) => sonic_member(text@, field@) == Some(m@),
            None => sonic_member(text@, field@) is None,
        },
{
    match sonic_rs::get_from_str(text, &[field]) {
        Ok(lv) => Some(lv.as_raw_str().to_string()),
        Err(_) => None,
    }
}

/// What `serde_json::from_str::<String>` reads from `raw`: the text of a
/// JSON string, escapes resolved; `None` when `raw` is not one.
pub uninterp spec fn serde_string(raw: Seq<char>) -> Option<Seq<char>>;

/// `serde_json::from_str::<String>`: the text of the JSON string `raw`.
#[verifier::external_body]
fn string_text(raw: &str) -> (r: Option<String>)
    ensures
        match r {
            Some(t) => serde_string(raw@) == Some(t@),
            None => serde_string(raw@) is None,
        },
{
    match serde_json::from_str::<String>(raw) {
        Ok(t) => Some(t),
        Err(_) => None,
    }
}

/// The text the quick filter reads in member `field` of the element
/// `element`: a string lowercased, a number or a boolean as written; none
/// for a missing member, `null`, an object or an array.
pub open spec fn field_text_lower(element: Seq<char>, field: Seq<char>) -> Option<Seq<char>> {
    match sonic_member(element, field) {
        None => None,
        Some(raw) => if raw.len() == 0 {
            None
        } else {
            let k = kind_of_char(raw[0]);
            if k == NodeKind::String {
                match serde_string(raw) {
                    Some(t) => Some(unicode_lowercase(t)),
                    None => None,
                }
            } else if k == NodeKind::Number || k == NodeKind::Bool {
                Some(raw)
            } else {
                None
            }
        },
    }
}

pub open spec fn text_view(o: Option<String>) -> Option<Seq<char>> {
    match o {
        Some(s) => Some(s@),
        None => None,
    }
}

fn field_text(element: &str, field: &str) -> (r: Option<String>)
    ensures
        text_view(r) == field_text_lower(element@, field@),
{
    let raw = match member_raw(element, field) {
        Some(raw) => raw,
        None => {
            return None;
        },
    };
    let cs = chars_of(raw.as_str());
    if cs.len() == 0 {
        return None;
    }
    let c = cs[0];
    if c == '"' {
        match string_text(raw.as_str()) {
            Some(t) => Some(lowercase(t.as_str())),
            None => None,
        }
    } else if c == '{' || c == '[' || c == 'n' {
        None
    } else {
        Some(raw)
    }
}

impl LazyDoc {
    /// For an array root, the quick-filter text of member `field` of each
    /// element (see [`field_text_lower`]), in element order; nothing when
    /// the root is not an array.
    pub fn array_field_text_lower(&self, field: &str) -> (r: Vec<Option<String>>)
        ensures
            match self.index_spec() {
                Some(ix) => r@.len() == ix.len() && forall|i: int|
                    0 <= i < ix.len() ==> text_view(#[trigger] r@[i]) == field_text_lower(
                        vstd::utf8::decode_utf8(self.source_bytes().subrange(ix[i].0, ix[i].1)),
                        field@,
                    ),
                None => r@.len() == 0,
            },
    {
        let mut out: Vec<Option<String>> = Vec::new();
        let n = match self.root_element_spans() {
            Some(s) => s.len(),
            None => {
                return out;
            },
        };
        let ghost ix = self.index_spec().unwrap();
        let mut i: usize = 0;
        while i < n
            invariant
                self.index_spec() == Some(ix),
                n == ix.len(),
                i <= n,
                out@.len() == i,
                forall|m: int|
                    0 <= m < i ==> text_view(#[trigger] out@[m]) == field_text_lower(
                        vstd::utf8::decode_utf8(self.source_bytes().subrange(ix[m].0, ix[m].1)),
                        field@,
                    ),
            decreases n - i,
        {
            let el = self.element_text(i).unwrap();
            out.push(field_text(el, field));
            i += 1;
        }
        out
    }
}

// ---------------------------------------------------------------------------
// Distinct values of a column
// ---------------------------------------------------------------------------

pub open spec fn texts_view(cells: Seq<String>) -> Seq<Seq<char>> {
    cells.map_values(|c: String| c@)
}

/// The position in `kept` (searched from its end, below `j`) of the value
/// whose first cell reads `t`; -1 when none does.
pub open spec fn find_kept(cells: Seq<Seq<char>>, kept: Seq<(u32, u32)>, t: Seq<char>, j: int) -> int
    decreases j,
{
    if j <= 0 {
        -1
    } else if cells[kept[j - 1].0 as int] == t {
        j - 1
    } else {
        find_kept(cells, kept, t, j - 1)
    }
}

/// The distinct values among the first `n` cells, in the order they first
/// appear, as (first cell, number of cells that read the same), at most
/// `limit` of them; and whether a value was left out for the limit.
pub open spec fn tally(cells: Seq<Seq<char>>, n: nat, limit: nat) -> (Seq<(u32, u32)>, bool)
    decreases n,
{
    if n == 0 {
        (Seq::empty(), false)
    } else {
        let (kept, capped) = tally(cells, (n - 1) as nat, limit);
        let t = cells[n - 1];
        let j = find_kept(cells, kept, t, kept.len() as int);
        if j >= 0 {
            (kept.update(j, (kept[j].0, (kept[j].1 + 1) as u32)), capped)
        } else if kept.len() < limit {
            (kept.push(((n - 1) as u32, 1u32)), capped)
        } else {
            (kept, true)
        }
    }
}

/// Whether value `a` comes before value `b` in the list: more cells first,
/// then by the order of their cells.
pub open spec fn value_before(ranks: Seq<u64>, a: (u32, u32), b: (u32, u32)) -> bool {
    a.1 > b.1 || (a.1 == b.1 && ranks[a.0 as int] <= ranks[b.0 as int])
}

/// The distinct values of a column, as (first cell, count); beside each,
/// its label; and whether some were left out.
pub struct ColumnValues {
    pub values: Vec<(u32, u32)>,
    pub labels: Vec<Option<String>>,
    pub capped: bool,
}

/// The label of a value whose JSON text is `t`: the text itself for a
/// number, none for anything else.
pub open spec fn number_label(t: Seq<char>) -> Option<Seq<char>> {
    if t.len() > 0 && kind_of_char(t[0]) == NodeKind::Number {
        Some(t)
    } else {
        None
    }
}

fn label_of(t: &str) -> (r: Option<String>)
    ensures
        text_view(r) == number_label(t@),
{
    let cs = chars_of(t);
    if cs.len() == 0 {
        return None;
    }
    let c = cs[0];
    if c == '{' || c == '[' || c == '"' || c == 't' || c == 'f' || c == 'n' {
        None
    } else {
        Some(string_of(&cs))
    }
}

fn same_text(a: &str, b: &str) -> (r: bool)
    ensures
        r == (a@ == b@),
{
    let x = chars_of(a);
    let y = chars_of(b);
    let r = crate::text::range_is(&x, 0, x.len(), &y);
    assert(x@.subrange(0, x@.len() as int) =~= x@);
    r
}

proof fn lemma_find_kept_range(cells: Seq<Seq<char>>, kept: Seq<(u32, u32)>, t: Seq<char>, j: int)
    ensures
        -1 <= find_kept(cells, kept, t, j) < j || (j <= 0 && find_kept(cells, kept, t, j) == -1),
        find_kept(cells, kept, t, j) >= 0 ==> cells[kept[find_kept(cells, kept, t, j)].0 as int] == t,
    decreases j,
{
    if j > 0 {
        lemma_find_kept_range(cells, kept, t, j - 1);
    }
}

proof fn lemma_find_kept_found(cells: Seq<Seq<char>>, kept: Seq<(u32, u32)>, t: Seq<char>, j: int, q: int)
    requires
        0 <= q < j <= kept.len(),
        cells[kept[q].0 as int] == t,
    ensures
        find_kept(cells, kept, t, j) >= 0,
    decreases j,
{
    if cells[kept[j - 1].0 as int] != t {
        lemma_find_kept_found(cells, kept, t, j - 1, q);
    }
}

/// Whether cell `i` reads as some cell before it.
pub open spec fn seen_before(cells: Seq<Seq<char>>, i: int) -> bool {
    exists|j: int| 0 <= j < i && #[trigger] cells[j] == cells[i]
}

/// The first cell of each distinct value among the first `n`, in the order
/// they first appear.
pub open spec fn firsts(cells: Seq<Seq<char>>, n: nat) -> Seq<u32>
    decreases n,
{
    if n == 0 {
        Seq::empty()
    } else {
        let f = firsts(cells, (n - 1) as nat);
        if seen_before(cells, n - 1) {
            f
        } else {
            f.push((n - 1) as u32)
        }
    }
}

/// How many of the first `n` cells read `t`.
pub open spec fn occurrences(cells: Seq<Seq<char>>, t: Seq<char>, n: nat) -> nat
    decreases n,
{
    if n == 0 {
        0
    } else {
        occurrences(cells, t, (n - 1) as nat) + if cells[n - 1] == t {
            1nat
        } else {
            0nat
        }
    }
}

proof fn lemma_firsts(cells: Seq<Seq<char>>, n: nat)
    requires
        n <= cells.len() <= u32::MAX,
    ensures
        forall|p: int| 0 <= p < firsts(cells, n).len() ==> (#[trigger] firsts(cells, n)[p]) < n,
        forall|p: int, q: int|
            0 <= p < q < firsts(cells, n).len() ==> cells[firsts(cells, n)[p] as int] != cells[firsts(
                cells,
                n,
            )[q] as int],
        forall|i: int|
            0 <= i < n ==> exists|p: int|
                0 <= p < firsts(cells, n).len() && cells[#[trigger] firsts(cells, n)[p] as int]
                    == #[trigger] cells[i],
    decreases n,
{
    if n > 0 {
        let m = (n - 1) as nat;
        lemma_firsts(cells, m);
        let f = firsts(cells, m);
        let g = firsts(cells, n);
        if seen_before(cells, n - 1) {
            assert(g == f);
            let j = choose|j: int| 0 <= j < n - 1 && #[trigger] cells[j] == cells[n - 1];
            assert forall|i: int| 0 <= i < n implies exists|p: int|
                0 <= p < g.len() && cells[#[trigger] g[p] as int] == #[trigger] cells[i] by {
                if i < m {
                    let p = choose|p: int| 0 <= p < f.len() && cells[#[trigger] f[p] as int] == cells[i];
                    assert(cells[g[p] as int] == cells[i]);
                } else {
                    let p = choose|p: int| 0 <= p < f.len() && cells[#[trigger] f[p] as int] == cells[j];
                    assert(cells[g[p] as int] == cells[i]);
                }
            }
        } else {
            assert(g == f.push(m as u32));
            assert forall|p: int, q: int| 0 <= p < q < g.len() implies cells[g[p] as int]
                != cells[g[q] as int] by {
                if q == f.len() {
                    assert(g[q] == m as u32);
                    assert(g[p] == f[p]);
                    assert(f[p] < m);
                    if cells[g[p] as int] == cells[g[q] as int] {
                        assert(cells[f[p] as int] == cells[n - 1]);
                        assert(seen_before(cells, n - 1));
                    }
                } else {
                    assert(g[p] == f[p] && g[q] == f[q]);
                }
            }
            assert forall|i: int| 0 <= i < n implies exists|p: int|
                0 <= p < g.len() && cells[#[trigger] g[p] as int] == #[trigger] cells[i] by {
                if i < m {
                    let p = choose|p: int| 0 <= p < f.len() && cells[#[trigger] f[p] as int] == cells[i];
                    assert(g[p] == f[p]);
                    assert(cells[g[p] as int] == cells[i]);
                } else {
                    assert(g[f.len() as int] == m as u32);
                    assert(cells[g[f.len() as int] as int] == cells[i]);
                }
            }
        }
    }
}

/// What [`lemma_tally`] states of the first `n` cells.
pub open spec fn tally_ok(cells: Seq<Seq<char>>, n: nat, limit: nat) -> bool {
    let kept = tally(cells, n, limit).0;
    let capped = tally(cells, n, limit).1;
    let f = firsts(cells, n);
    &&& kept.len() == (if f.len() < limit {
        f.len()
    } else {
        limit
    })
    &&& forall|j: int|
        0 <= j < kept.len() ==> (#[trigger] kept[j]).0 == f[j] && kept[j].1 == occurrences(
            cells,
            cells[f[j] as int],
            n,
        )
    &&& capped == (f.len() > limit)
}

/// Law: the values a column lists are its distinct cells in the order they
/// first appear, as many as the limit allows, each with the number of
/// cells that read as it; and values are left out exactly when there are
/// more distinct cells than the limit.
pub proof fn lemma_tally(cells: Seq<Seq<char>>, n: nat, limit: nat)
    requires
        n <= cells.len() <= u32::MAX,
    ensures
        tally_ok(cells, n, limit),
    decreases n,
{
    if n > 0 {
        lemma_tally(cells, (n - 1) as nat, limit);
        lemma_firsts(cells, (n - 1) as nat);
        if seen_before(cells, n - 1) {
            lemma_tally_seen(cells, (n - 1) as nat, n, limit);
        } else {
            lemma_tally_new(cells, (n - 1) as nat, n, limit);
        }
    }
}

proof fn lemma_occurrences_step(cells: Seq<Seq<char>>, t: Seq<char>, n: nat)
    requires
        n > 0,
    ensures
        occurrences(cells, t, n) == occurrences(cells, t, (n - 1) as nat) + if cells[n - 1] == t {
            1nat
        } else {
            0nat
        },
{
}

#[verifier::rlimit(40)]
proof fn lemma_tally_seen(cells: Seq<Seq<char>>, m: nat, n: nat, limit: nat)
    requires
        n == m + 1,
        n <= cells.len() <= u32::MAX,
        tally_ok(cells, m, limit),
        seen_before(cells, n - 1),
        forall|p: int, q: int|
            0 <= p < q < firsts(cells, m).len() ==> cells[#[trigger] firsts(cells, m)[p] as int]
                != cells[#[trigger] firsts(cells, m)[q] as int],
        forall|i: int|
            0 <= i < m ==> exists|p: int|
                0 <= p < firsts(cells, m).len() && cells[#[trigger] firsts(cells, m)[p] as int]
                    == #[trigger] cells[i],
    ensures
        tally_ok(cells, n, limit),
{
    let kept = tally(cells, m, limit).0;
    let f = firsts(cells, m);
    let t = cells[n - 1];
    assert(firsts(cells, n) == f);
    let w = choose|w: int| 0 <= w < n - 1 && #[trigger] cells[w] == cells[n - 1];
    let p = choose|p: int| 0 <= p < f.len() && cells[#[trigger] f[p] as int] == cells[w];
    assert(cells[f[p] as int] == t);
    lemma_find_kept_range(cells, kept, t, kept.len() as int);
    let j = find_kept(cells, kept, t, kept.len() as int);
    assert forall|q: int| 0 <= q < f.len() && q != p implies cells[#[trigger] f[q] as int] != t by {
        if q < p {
            assert(cells[f[q] as int] != cells[f[p] as int]);
        } else {
            assert(cells[f[p] as int] != cells[f[q] as int]);
        }
    }
    assert forall|q: int| 0 <= q < f.len() implies occurrences(cells, cells[#[trigger] f[q] as int], n)
        == occurrences(cells, cells[f[q] as int], m) + if q == p {
        1nat
    } else {
        0nat
    } by {
        lemma_occurrences_step(cells, cells[f[q] as int], n);
    }
    if p < kept.len() {
        assert(kept[p].0 == f[p]);
        lemma_find_kept_found(cells, kept, t, kept.len() as int, p);
        assert(j == p) by {
            if j != p {
                assert(kept[j].0 == f[j]);
                assert(cells[f[j] as int] != t);
            }
        }
        lemma_occurrences_bound(cells, t, m);
        let k2 = kept.update(j, (kept[j].0, (kept[j].1 + 1) as u32));
        assert(tally(cells, n, limit).0 == k2);
        assert forall|q: int| 0 <= q < k2.len() implies (#[trigger] k2[q]).0 == f[q] && k2[q].1
            == occurrences(cells, cells[f[q] as int], n) by {
            assert(kept[q].0 == f[q]);
        }
    } else {
        if j >= 0 {
            assert(kept[j].0 == f[j]);
            assert(cells[f[j] as int] != t);
        }
        assert(tally(cells, n, limit).0 == kept);
        assert forall|q: int| 0 <= q < kept.len() implies (#[trigger] kept[q]).0 == f[q] && kept[q].1
            == occurrences(cells, cells[f[q] as int], n) by {
            assert(kept[q].0 == f[q]);
        }
    }
}

#[verifier::rlimit(40)]
proof fn lemma_tally_new(cells: Seq<Seq<char>>, m: nat, n: nat, limit: nat)
    requires
        n == m + 1,
        n <= cells.len() <= u32::MAX,
        tally_ok(cells, m, limit),
        !seen_before(cells, n - 1),
        forall|p: int| 0 <= p < firsts(cells, m).len() ==> (#[trigger] firsts(cells, m)[p]) < m,
    ensures
        tally_ok(cells, n, limit),
{
    let kept = tally(cells, m, limit).0;
    let f = firsts(cells, m);
    let g = firsts(cells, n);
    let t = cells[n - 1];
    assert(g == f.push(m as u32));
    assert forall|q: int| 0 <= q < f.len() implies cells[#[trigger] f[q] as int] != t by {
        if cells[f[q] as int] == t {
            assert(f[q] < m);
            assert(seen_before(cells, n - 1));
        }
    }
    lemma_find_kept_range(cells, kept, t, kept.len() as int);
    let j = find_kept(cells, kept, t, kept.len() as int);
    if j >= 0 {
        assert(kept[j].0 == f[j]);
    }
    assert forall|q: int| 0 <= q < f.len() implies occurrences(cells, cells[#[trigger] f[q] as int], n)
        == occurrences(cells, cells[f[q] as int], m) by {
        lemma_occurrences_step(cells, cells[f[q] as int], n);
    }
    if kept.len() < limit {
        assert(forall|i: int| 0 <= i < m ==> cells[i] != t);
        lemma_occurrences_zero(cells, t, m);
        lemma_occurrences_step(cells, t, n);
        let k2 = kept.push((m as u32, 1u32));
        assert(tally(cells, n, limit).0 == k2);
        assert forall|q: int| 0 <= q < k2.len() implies (#[trigger] k2[q]).0 == g[q] && k2[q].1
            == occurrences(cells, cells[g[q] as int], n) by {
            if q < kept.len() {
                assert(kept[q].0 == f[q]);
                assert(g[q] == f[q]);
            } else {
                assert(g[q] == m as u32);
            }
        }
    } else {
        assert(tally(cells, n, limit).0 == kept);
        assert forall|q: int| 0 <= q < kept.len() implies (#[trigger] kept[q]).0 == g[q] && kept[q].1
            == occurrences(cells, cells[g[q] as int], n) by {
            assert(kept[q].0 == f[q]);
            assert(g[q] == f[q]);
        }
    }
}

proof fn lemma_occurrences_bound(cells: Seq<Seq<char>>, t: Seq<char>, n: nat)
    ensures
        occurrences(cells, t, n) <= n,
    decreases n,
{
    if n > 0 {
        lemma_occurrences_bound(cells, t, (n - 1) as nat);
    }
}

proof fn lemma_occurrences_zero(cells: Seq<Seq<char>>, t: Seq<char>, n: nat)
    requires
        forall|j: int| 0 <= j < n ==> cells[j] != t,
    ensures
        occurrences(cells, t, n) == 0,
    decreases n,
{
    if n > 0 {
        lemma_occurrences_zero(cells, t, (n - 1) as nat);
    }
}

/// Places value `x` among the sorted `out` (see [`value_before`]).
fn insert_value(out: &mut Vec<(u32, u32)>, x: (u32, u32), ranks: &[u64])
    requires
        sorted_by(old(out)@, |a: (u32, u32), b: (u32, u32)| value_before(ranks@, a, b)),
        x.0 < ranks@.len(),
        forall|k: int| 0 <= k < old(out)@.len() ==> (#[trigger] old(out)@[k]).0 < ranks@.len(),
    ensures
        sorted_by(final(out)@, |a: (u32, u32), b: (u32, u32)| value_before(ranks@, a, b)),
        final(out)@.to_multiset() == old(out)@.to_multiset().insert(x),
        forall|k: int| 0 <= k < final(out)@.len() ==> (#[trigger] final(out)@[k]).0 < ranks@.len(),
{
    let ghost lt = |a: (u32, u32), b: (u32, u32)| value_before(ranks@, a, b);
    let rx = ranks[x.0 as usize];
    let mut p: usize = out.len();
    while p > 0
        invariant
            p <= out@.len(),
            out@ == old(out)@,
            x.0 < ranks@.len(),
            rx == ranks@[x.0 as int],
            forall|k: int| 0 <= k < out@.len() ==> (#[trigger] out@[k]).0 < ranks@.len(),
            forall|k: int| p <= k < out@.len() ==> value_before(ranks@, x, #[trigger] out@[k]),
        ensures
            p <= out@.len(),
            out@ == old(out)@,
            forall|k: int| p <= k < out@.len() ==> value_before(ranks@, x, #[trigger] out@[k]),
            p == 0 || value_before(ranks@, out@[p - 1], x),
        decreases p,
    {
        let e = out[p - 1];
        let re = ranks[e.0 as usize];
        if !(x.1 > e.1 || (x.1 == e.1 && rx <= re)) {
            break;
        }
        p -= 1;
    }
    let ghost before_seq = out@;
    out.insert(p, x);
    proof {
        assert(out@ == before_seq.insert(p as int, x));
        vstd::seq_lib::to_multiset_insert(before_seq, p as int, x);
        assert forall|i: int, j: int| 0 <= i < j < out@.len() implies #[trigger] lt(out@[i], out@[j]) by {
            if j < p {
                assert(out@[i] == before_seq[i] && out@[j] == before_seq[j]);
                assert(lt(before_seq[i], before_seq[j]));
            } else if j == p {
                assert(out@[i] == before_seq[i]);
                assert(out@[j] == x);
                assert(value_before(ranks@, before_seq[p - 1], x));
                if i < p - 1 {
                    assert(lt(before_seq[i], before_seq[p - 1]));
                }
            } else if i == p {
                assert(out@[i] == x);
                assert(out@[j] == before_seq[j - 1]);
            } else if i < p {
                assert(out@[i] == before_seq[i] && out@[j] == before_seq[j - 1]);
                assert(lt(before_seq[i], before_seq[j - 1]));
            } else {
                assert(out@[i] == before_seq[i - 1] && out@[j] == before_seq[j - 1]);
                assert(lt(before_seq[i - 1], before_seq[j - 1]));
            }
        }
        assert forall|k: int| 0 <= k < out@.len() implies (#[trigger] out@[k]).0 < ranks@.len() by {
            if k < p {
                assert(out@[k] == before_seq[k]);
            } else if k > p {
                assert(out@[k] == before_seq[k - 1]);
            }
        }
    }
}

/// The distinct values of a column whose cells read `cells` (each cell's
/// JSON text, `null` for a missing one): at most `limit` of them, kept in
/// the order they first appear (see [`tally`]), then listed with the most
/// frequent first and, among equally frequent ones, in the order `ranks`
/// gives their cells; and whether some value was left out.
pub fn column_values(cells: &[String], ranks: &[u64], limit: usize) -> (r: ColumnValues)
    requires
        cells@.len() <= u32::MAX,
        ranks@.len() == cells@.len(),
    ensures
        ({
            let (kept, capped) = tally(texts_view(cells@), cells@.len(), limit as nat);
            &&& r.capped == capped
            &&& r.values@.to_multiset() == kept.to_multiset()
            &&& sorted_by(r.values@, |a: (u32, u32), b: (u32, u32)| value_before(ranks@, a, b))
            &&& r.labels@.len() == r.values@.len()
            &&& forall|j: int|
                0 <= j < r.values@.len() ==> text_view(#[trigger] r.labels@[j]) == number_label(
                    cells@[r.values@[j].0 as int]@,
                )
        }),
{
    let ghost tv = texts_view(cells@);
    let mut kept: Vec<(u32, u32)> = Vec::new();
    let mut capped = false;
    let mut i: usize = 0;
    while i < cells.len()
        invariant
            i <= cells@.len(),
            cells@.len() <= u32::MAX,
            tv == texts_view(cells@),
            (kept@, capped) == tally(tv, i as nat, limit as nat),
            forall|k: int| 0 <= k < kept@.len() ==> (#[trigger] kept@[k]).0 < i && kept@[k].1 <= i,
        decreases cells@.len() - i,
    {
        let ghost before = kept@;
        proof {
            lemma_find_kept_range(tv, before, tv[i as int], before.len() as int);
        }
        let mut j: usize = kept.len();
        while j > 0
            invariant
                j <= kept@.len(),
                kept@ == before,
                i < cells@.len(),
                tv == texts_view(cells@),
                forall|k: int| 0 <= k < kept@.len() ==> (#[trigger] kept@[k]).0 < i,
                find_kept(tv, before, tv[i as int], before.len() as int) == find_kept(
                    tv,
                    before,
                    tv[i as int],
                    j as int,
                ),
            ensures
                j == 0 || tv[kept@[j - 1].0 as int] == tv[i as int],
                find_kept(tv, before, tv[i as int], before.len() as int) == if j == 0 {
                    -1
                } else {
                    j - 1
                },
            decreases j,
        {
            let k0 = kept[j - 1].0 as usize;
            assert(tv[k0 as int] == cells@[k0 as int]@);
            assert(tv[i as int] == cells@[i as int]@);
            if same_text(cells[k0].as_str(), cells[i].as_str()) {
                break;
            }
            j -= 1;
        }
        if j > 0 {
            let (f, c) = kept[j - 1];
            kept.set(j - 1, (f, c + 1));
        } else if kept.len() < limit {
            kept.push((i as u32, 1));
        } else {
            capped = true;
        }
        i += 1;
    }
    assert(tv.len() == cells@.len());
    let mut values: Vec<(u32, u32)> = Vec::new();
    let mut k: usize = 0;
    while k < kept.len()
        invariant
            k <= kept@.len(),
            ranks@.len() == cells@.len(),
            forall|m: int| 0 <= m < kept@.len() ==> (#[trigger] kept@[m]).0 < cells@.len(),
            sorted_by(values@, |a: (u32, u32), b: (u32, u32)| value_before(ranks@, a, b)),
            values@.to_multiset() == kept@.take(k as int).to_multiset(),
            forall|m: int| 0 <= m < values@.len() ==> (#[trigger] values@[m]).0 < ranks@.len(),
        decreases kept@.len() - k,
    {
        insert_value(&mut values, kept[k], ranks);
        assert(kept@.take(k + 1) =~= kept@.take(k as int).push(kept@[k as int]));
        k += 1;
    }
    assert(kept@.take(kept@.len() as int) =~= kept@);
    let mut labels: Vec<Option<String>> = Vec::new();
    let mut j: usize = 0;
    while j < values.len()
        invariant
            j <= values@.len(),
            labels@.len() == j,
            forall|m: int| 0 <= m < values@.len() ==> (#[trigger] values@[m]).0 < cells@.len(),
            forall|m: int|
                0 <= m < j ==> text_view(#[trigger] labels@[m]) == number_label(
                    cells@[values@[m].0 as int]@,
                ),
        decreases values@.len() - j,
    {
        let f = values[j].0 as usize;
        labels.push(label_of(cells[f].as_str()));
        j += 1;
    }
    ColumnValues { values, labels, capped }
}

} // verus!

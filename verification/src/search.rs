//! The places a search looks at in a lazily read document: every member
//! key and every string value, in the order a depth-first walk over
//! `sonic_rs`'s iterators meets them (a key before the value it names),
//! each with the path that leads to it; the hits a search keeps: the first
//! ones that match, up to a cap; and the one-line previews shown with a hit.
//!
//! Whether a key or a string matches the search text is given: the walk
//! hands out each key and string, and `matched[i]` says whether place `i`
//! is a hit.
use vstd::prelude::*;
use vstd::string::StringSliceAdditionalSpecFns;

use crate::format::number::{decimal, push_decimal};
use crate::scan::{
    array_items, array_iter, array_next, object_items, object_iter, object_next, sonic_elements,
    sonic_members, sonic_value, value_raw, bump_low32, low32, NodeKind, COUNT_BUDGET_BYTES,
};
use crate::text::{chars_of, push_text, string_of};
use crate::window::{child_count_spec, maybe_count};

verus! {

/// One step of a path into a document: a member, by its key, or an
/// element, by its position.
#[derive(Debug, Clone, PartialEq, Eq)]
pub enum Step {
    Key(String),
    Index(u32),
}

/// A step as a plain value.
pub enum StepView {
    Key(Seq<char>),
    Index(u32),
}

pub open spec fn step_view(s: Step) -> StepView {
    match s {
        Step::Key(k) => StepView::Key(k@),
        Step::Index(i) => StepView::Index(i),
    }
}

pub open spec fn path_view(p: Seq<Step>) -> Seq<StepView> {
    p.map_values(|s: Step| step_view(s))
}

/// A place a search looks at: the path to it, whether it is a member key
/// (else a string value), the key or the string (escapes resolved), and
/// the kind and raw text of the value at the path.
#[derive(Debug)]
pub struct Place {
    pub path: Vec<Step>,
    pub is_key: bool,
    pub text: String,
    pub kind: NodeKind,
    pub value: String,
}

pub open spec fn place_view(f: Place) -> (Seq<StepView>, bool, Seq<char>, NodeKind, Seq<char>) {
    (path_view(f.path@), f.is_key, f.text@, f.kind, f.value@)
}

pub open spec fn places_view(v: Seq<Place>) -> Seq<(Seq<StepView>, bool, Seq<char>, NodeKind, Seq<char>)> {
    v.map_values(|f: Place| place_view(f))
}

/// The kind of a value, read from the first character of its raw text.
pub open spec fn kind_of_value(v: Seq<char>) -> NodeKind {
    if v.len() > 0 {
        kind_of_char(v[0])
    } else {
        NodeKind::Null
    }
}

/// The places in the value whose raw text is `v`, reached by `path`, at
/// most `fuel` levels deep: a string is a place itself; an object's places
/// are, for each member `sonic_rs` reads, its key and then the places in
/// its value; an array's, the places in each element it reads.
pub open spec fn walk(v: Seq<char>, path: Seq<StepView>, fuel: nat) -> Seq<
    (Seq<StepView>, bool, Seq<char>, NodeKind, Seq<char>),
>
    decreases fuel, 0nat,
{
    if fuel == 0 || v.len() == 0 {
        Seq::empty()
    } else {
        let k = kind_of_char(v[0]);
        if k == NodeKind::Object {
            match sonic_members(v) {
                Some(items) => walk_members(items, path, (fuel - 1) as nat, items.len()),
                None => Seq::empty(),
            }
        } else if k == NodeKind::Array {
            match sonic_elements(v) {
                Some(items) => walk_elements(items, path, (fuel - 1) as nat, items.len()),
                None => Seq::empty(),
            }
        } else if k == NodeKind::String {
            match sonic_string(v) {
                Some(t) => seq![(path, false, t, NodeKind::String, v)],
                None => Seq::empty(),
            }
        } else {
            Seq::empty()
        }
    }
}

/// The places of the first `n` members handed out (see [`walk`]).
pub open spec fn walk_members(
    items: Seq<Option<(Seq<char>, Seq<char>)>>,
    path: Seq<StepView>,
    fuel: nat,
    n: nat,
) -> Seq<(Seq<StepView>, bool, Seq<char>, NodeKind, Seq<char>)>
    decreases fuel, n,
{
    if n == 0 || n > items.len() {
        Seq::empty()
    } else {
        let prev = walk_members(items, path, fuel, (n - 1) as nat);
        match items[n - 1] {
            Some(m) => {
                let p = path.push(StepView::Key(m.0));
                prev + seq![(p, true, m.0, kind_of_value(m.1), m.1)] + walk(m.1, p, fuel)
            },
            None => prev,
        }
    }
}

/// The places of the first `n` elements handed out (see [`walk`]).
pub open spec fn walk_elements(
    items: Seq<Option<Seq<char>>>,
    path: Seq<StepView>,
    fuel: nat,
    n: nat,
) -> Seq<(Seq<StepView>, bool, Seq<char>, NodeKind, Seq<char>)>
    decreases fuel, n,
{
    if n == 0 || n > items.len() {
        Seq::empty()
    } else {
        let prev = walk_elements(items, path, fuel, (n - 1) as nat);
        match items[n - 1] {
            Some(e) => prev + walk(e, path.push(StepView::Index(low32((n - 1) as nat))), fuel),
            None => prev,
        }
    }
}

/// The places a search of `text` looks at: those of its root value, with
/// as many levels as the root's text has characters (a value's text is
/// longer than that of any value inside it, so no level is cut off).
pub open spec fn search_places(text: Seq<char>) -> Seq<
    (Seq<StepView>, bool, Seq<char>, NodeKind, Seq<char>),
> {
    match sonic_value(text) {
        Some(v) => walk(v, Seq::empty(), v.len() + 1),
        None => Seq::empty(),
    }
}

fn owned(t: &str) -> (r: String)
    ensures
        r@ == t@,
{
    let mut r = String::new();
    push_text(&mut r, t);
    r
}

pub(crate) fn copy_path(p: &[Step]) -> (r: Vec<Step>)
    ensures
        path_view(r@) == path_view(p@),
{
    let mut r: Vec<Step> = Vec::new();
    let mut i: usize = 0;
    while i < p.len()
        invariant
            i <= p@.len(),
            path_view(r@) == path_view(p@.take(i as int)),
        decreases p@.len() - i,
    {
        let s = match &p[i] {
            Step::Key(k) => Step::Key(owned(k.as_str())),
            Step::Index(n) => Step::Index(*n),
        };
        let ghost before = r@;
        r.push(s);
        assert(path_view(r@) =~= path_view(before).push(step_view(p@[i as int])));
        assert(path_view(p@.take(i + 1)) =~= path_view(p@.take(i as int)).push(
            step_view(p@[i as int]),
        ));
        i += 1;
    }
    assert(p@.take(p@.len() as int) =~= p@);
    r
}

pub(crate) fn kind_of_text(v: &str) -> (r: Option<NodeKind>)
    ensures
        r == (if v@.len() > 0 {
            Some(kind_of_char(v@[0]))
        } else {
            None
        }),
{
    let cs = chars_of(v);
    if cs.len() == 0 {
        return None;
    }
    let c = cs[0];
    Some(
        if c == '{' {
            NodeKind::Object
        } else if c == '[' {
            NodeKind::Array
        } else if c == '"' {
            NodeKind::String
        } else if c == 't' || c == 'f' {
            NodeKind::Bool
        } else if c == 'n' {
            NodeKind::Null
        } else {
            NodeKind::Number
        },
    )
}

/// Appends the places in the value whose raw text is `v`, reached by
/// `path`, to `out` (see [`walk`]); `path` comes back as it was.
fn walk_into(v: &str, path: &mut Vec<Step>, out: &mut Vec<Place>, Ghost(fuel): Ghost<nat>)
    requires
        fuel > v@.len(),
    ensures
        final(path)@ == old(path)@,
        places_view(final(out)@) == places_view(old(out)@) + walk(
            v@,
            path_view(old(path)@),
            fuel,
        ),
    decreases fuel,
{
    let ghost p0 = path@;
    let ghost pv = path_view(path@);
    let ghost o0 = places_view(out@);
    let kind = match kind_of_text(v) {
        Some(k) => k,
        None => {
            assert(places_view(out@) =~= o0 + walk(v@, pv, fuel));
            return;
        },
    };
    if kind == NodeKind::Object {
        let mut it = match object_iter(v) {
            Some(it) => it,
            None => {
                assert(places_view(out@) =~= o0 + walk(v@, pv, fuel));
                return;
            },
        };
        let ghost all = object_items(it);
        let ghost f = (fuel - 1) as nat;
        let ghost mut k: nat = 0;
        assert(places_view(out@) =~= o0 + walk_members(all, pv, f, 0));
        loop
            invariant
                k <= all.len(),
                object_items(it) == all.skip(k as int),
                sonic_members(v@) == Some(all),
                forall|m: int|
                    0 <= m < all.len() && #[trigger] all[m] is Some ==> all[m].unwrap().1.len()
                        < v@.len(),
                fuel > v@.len(),
                v@.len() > 0,
                kind_of_char(v@[0]) == NodeKind::Object,
                f == fuel - 1,
                p0 == old(path)@,
                o0 == places_view(old(out)@),
                path@ == p0,
                pv == path_view(p0),
                places_view(out@) == o0 + walk_members(all, pv, f, k),
            decreases all.len() - k,
        {
            let step = object_next(&mut it);
            proof {
                if k < all.len() {
                    assert(all.skip(k as int)[0] == all[k as int]);
                    assert(all.skip(k as int).drop_first() =~= all.skip(k + 1int));
                }
            }
            match step {
                Some(Some((key, val))) => {
                    let ghost km = all[k as int].unwrap();
                    assert(km == (key@, val@));
                    let ghost p1 = pv.push(StepView::Key(key@));
                    let ghost before = out@;
                    path.push(Step::Key(owned(key.as_str())));
                    assert(path_view(path@) =~= p1);
                    let p = copy_path(path);
                    let vk = match kind_of_text(val.as_str()) {
                        Some(k) => k,
                        None => NodeKind::Null,
                    };
                    let vt = owned(val.as_str());
                    out.push(Place { path: p, is_key: true, text: key, kind: vk, value: vt });
                    assert(places_view(out@) =~= places_view(before).push(
                        (p1, true, km.0, kind_of_value(km.1), km.1),
                    ));
                    walk_into(val.as_str(), path, out, Ghost(f));
                    path.pop();
                    assert(path@ =~= p0);
                    proof {
                        assert(walk_members(all, pv, f, k + 1) == walk_members(all, pv, f, k)
                            + seq![(p1, true, km.0, kind_of_value(km.1), km.1)] + walk(
                            km.1,
                            p1,
                            f,
                        ));
                        assert(places_view(out@) =~= o0 + walk_members(all, pv, f, k + 1));
                        k = k + 1;
                    }
                },
                Some(None) => {
                    proof {
                        assert(walk_members(all, pv, f, k + 1) == walk_members(all, pv, f, k));
                        k = k + 1;
                    }
                },
                None => {
                    assert(k == all.len());
                    assert(walk(v@, pv, fuel) == walk_members(all, pv, f, all.len()));
                    return;
                },
            }
        }
    } else if kind == NodeKind::Array {
        let mut it = match array_iter(v) {
            Some(it) => it,
            None => {
                assert(places_view(out@) =~= o0 + walk(v@, pv, fuel));
                return;
            },
        };
        let ghost all = array_items(it);
        let ghost f = (fuel - 1) as nat;
        let ghost mut k: nat = 0;
        let mut ix: u32 = 0;
        assert(places_view(out@) =~= o0 + walk_elements(all, pv, f, 0));
        loop
            invariant
                k <= all.len(),
                ix == low32(k),
                array_items(it) == all.skip(k as int),
                sonic_elements(v@) == Some(all),
                forall|m: int|
                    0 <= m < all.len() && #[trigger] all[m] is Some ==> all[m].unwrap().len()
                        < v@.len(),
                fuel > v@.len(),
                v@.len() > 0,
                kind_of_char(v@[0]) == NodeKind::Array,
                f == fuel - 1,
                p0 == old(path)@,
                o0 == places_view(old(out)@),
                path@ == p0,
                pv == path_view(p0),
                places_view(out@) == o0 + walk_elements(all, pv, f, k),
            decreases all.len() - k,
        {
            let step = array_next(&mut it);
            proof {
                if k < all.len() {
                    assert(all.skip(k as int)[0] == all[k as int]);
                    assert(all.skip(k as int).drop_first() =~= all.skip(k + 1int));
                }
            }
            match step {
                Some(Some(el)) => {
                    assert(all[k as int] == Some(el@));
                    let ghost p1 = pv.push(StepView::Index(ix));
                    path.push(Step::Index(ix));
                    assert(path_view(path@) =~= p1);
                    walk_into(el.as_str(), path, out, Ghost(f));
                    path.pop();
                    assert(path@ =~= p0);
                    proof {
                        assert(walk_elements(all, pv, f, k + 1) == walk_elements(all, pv, f, k)
                            + walk(el@, p1, f));
                        assert(places_view(out@) =~= o0 + walk_elements(all, pv, f, k + 1));
                        k = k + 1;
                    }
                },
                Some(None) => {
                    proof {
                        assert(walk_elements(all, pv, f, k + 1) == walk_elements(all, pv, f, k));
                        k = k + 1;
                    }
                },
                None => {
                    assert(k == all.len());
                    assert(walk(v@, pv, fuel) == walk_elements(all, pv, f, all.len()));
                    return;
                },
            }
            ix = bump_low32(ix, Ghost((k - 1) as nat));
        }
    } else if kind == NodeKind::String {
        match sonic_str(v) {
            Some(t) => {
                let p = copy_path(path);
                let vt = owned(v);
                let ghost before = out@;
                out.push(Place { path: p, is_key: false, text: t, kind: NodeKind::String, value: vt });
                assert(places_view(out@) =~= places_view(before).push(
                    (pv, false, t@, NodeKind::String, v@),
                ));
                assert(places_view(out@) =~= o0 + walk(v@, pv, fuel));
            },
            None => {
                assert(places_view(out@) =~= o0 + walk(v@, pv, fuel));
            },
        }
    } else {
        assert(places_view(out@) =~= o0 + walk(v@, pv, fuel));
    }
}

/// The places a search of `text` looks at (see [`search_places`]).
pub fn places_of(text: &str) -> (r: Vec<Place>)
    ensures
        places_view(r@) == search_places(text@),
{
    let mut out: Vec<Place> = Vec::new();
    match value_raw(text) {
        Some(v) => {
            let mut path: Vec<Step> = Vec::new();
            assert(places_view(out@) =~= Seq::empty());
            walk_into(v.as_str(), &mut path, &mut out, Ghost((v@.len() + 1) as nat));
            assert(path_view(Seq::<Step>::empty()) =~= Seq::empty());
            assert(places_view(out@) =~= search_places(text@));
        },
        None => {
            assert(places_view(out@) =~= Seq::empty());
        },
    }
    out
}

/// The positions below `n` whose place matched, in order.
pub open spec fn matching(matched: Seq<bool>, n: nat) -> Seq<usize>
    decreases n,
{
    if n == 0 {
        Seq::empty()
    } else {
        let prev = matching(matched, (n - 1) as nat);
        if n - 1 < matched.len() && matched[n - 1] {
            prev.push((n - 1) as usize)
        } else {
            prev
        }
    }
}

/// The first `cap` items of `s`, or all of them when there are fewer.
pub open spec fn capped(s: Seq<usize>, cap: int) -> Seq<usize> {
    if cap < s.len() {
        s.take(cap)
    } else {
        s
    }
}

/// The hits a search keeps: the positions of the first `cap` places that
/// matched, in walk order.
pub fn first_hits(matched: &[bool], cap: usize) -> (r: Vec<usize>)
    ensures
        r@ == capped(matching(matched@, matched@.len()), cap as int),
{
    let mut r: Vec<usize> = Vec::new();
    let mut i: usize = 0;
    while i < matched.len()
        invariant
            i <= matched@.len(),
            r@ == capped(matching(matched@, i as nat), cap as int),
            r@.len() <= cap,
        decreases matched@.len() - i,
    {
        let ghost m = matching(matched@, i as nat);
        if matched[i] && r.len() < cap {
            r.push(i);
            assert(r@ =~= capped(m.push(i), cap as int));
        } else if matched[i] {
            assert(capped(m.push(i), cap as int) =~= capped(m, cap as int));
        }
        i += 1;
    }
    r
}

/// What `sonic_rs` reads as the text of a JSON string: `LazyValue::as_str`
/// on the value parsed from `raw`, escapes resolved; `None` when `raw` is
/// not one JSON string.
pub uninterp spec fn sonic_string(raw: Seq<char>) -> Option<Seq<char>>;

/// `sonic_rs::from_str::<LazyValue>` followed by `as_str`: the text of the
/// JSON string `raw`.
#[verifier::external_body]
fn sonic_str(raw: &str) -> (r: Option<String>)
    ensures
        match r {
            Some(s) => sonic_string(raw@) == Some(s@),
            None => sonic_string(raw@) is None,
        },
{
    match sonic_rs::from_str::<sonic_rs::LazyValue>(raw) {
        Ok(lv) => sonic_rs::JsonValueTrait::as_str(&lv).map(|t| t.to_string()),
        Err(_) => None,
    }
}

/// The kind of a value, read from its first character.
pub open spec fn kind_of_char(c: char) -> NodeKind {
    if c == '{' {
        NodeKind::Object
    } else if c == '[' {
        NodeKind::Array
    } else if c == '"' {
        NodeKind::String
    } else if c == 't' || c == 'f' {
        NodeKind::Bool
    } else if c == 'n' {
        NodeKind::Null
    } else {
        NodeKind::Number
    }
}

/// How many characters of a string a preview shows.
pub const PREVIEW_CHARS: usize = 60;

/// The children of the collection `raw` of kind `kind`, counted when its
/// text is within the counting budget.
pub open spec fn budget_count(raw: Seq<char>, kind: NodeKind) -> Option<u32> {
    if (kind == NodeKind::Object || kind == NodeKind::Array) && vstd::utf8::encode_utf8(raw).len()
        <= COUNT_BUDGET_BYTES {
        child_count_spec(raw, kind)
    } else {
        None
    }
}

/// The one-line preview of the value whose text is `raw`: `null`; `true` or
/// `false`; a number as written; a string quoted, cut to
/// `PREVIEW_CHARS` characters and an ellipsis when longer; `{n keys}` or
/// `[n items]` when counted, `{…}` or `[…]` when not.
pub open spec fn preview_of(raw: Seq<char>) -> Seq<char> {
    let kind = kind_of_char(raw[0]);
    if kind == NodeKind::Null {
        seq!['n', 'u', 'l', 'l']
    } else if kind == NodeKind::Bool {
        if raw == seq!['t', 'r', 'u', 'e'] {
            seq!['t', 'r', 'u', 'e']
        } else {
            seq!['f', 'a', 'l', 's', 'e']
        }
    } else if kind == NodeKind::Number {
        raw
    } else if kind == NodeKind::String {
        let t = match sonic_string(raw) {
            Some(t) => t,
            None => Seq::empty(),
        };
        if t.len() > PREVIEW_CHARS {
            seq!['"'] + t.take(PREVIEW_CHARS as int) + seq!['\u{2026}', '"']
        } else {
            seq!['"'] + t + seq!['"']
        }
    } else if kind == NodeKind::Object {
        match budget_count(raw, kind) {
            Some(n) => seq!['{'] + decimal(n as nat) + seq![' ', 'k', 'e', 'y', 's', '}'],
            None => seq!['{', '\u{2026}', '}'],
        }
    } else {
        match budget_count(raw, kind) {
            Some(n) => seq!['['] + decimal(n as nat) + seq![' ', 'i', 't', 'e', 'm', 's', ']'],
            None => seq!['[', '\u{2026}', ']'],
        }
    }
}

/// The preview of the value whose text is `raw` (see [`preview_of`]).
pub fn preview_lazy(raw: &str) -> (r: String)
    requires
        raw@.len() > 0,
    ensures
        r@ == preview_of(raw@),
{
    let cs = chars_of(raw);
    let c = cs[0];
    let mut out: Vec<char> = Vec::new();
    if c == 'n' {
        out.push('n');
        out.push('u');
        out.push('l');
        out.push('l');
    } else if c == 't' || c == 'f' {
        if cs.len() == 4 && cs[0] == 't' && cs[1] == 'r' && cs[2] == 'u' && cs[3] == 'e' {
            assert(cs@ =~= seq!['t', 'r', 'u', 'e']);
            out.push('t');
            out.push('r');
            out.push('u');
            out.push('e');
        } else {
            out.push('f');
            out.push('a');
            out.push('l');
            out.push('s');
            out.push('e');
        }
    } else if c == '"' {
        let t = match sonic_str(raw) {
            Some(t) => chars_of(t.as_str()),
            None => Vec::new(),
        };
        out.push('"');
        let n = if t.len() > PREVIEW_CHARS {
            PREVIEW_CHARS
        } else {
            t.len()
        };
        let mut i: usize = 0;
        while i < n
            invariant
                n <= t@.len(),
                i <= n,
                out@ == seq!['"'] + t@.take(i as int),
            decreases n - i,
        {
            out.push(t[i]);
            assert(t@.take(i + 1) =~= t@.take(i as int).push(t@[i as int]));
            i += 1;
        }
        if t.len() > PREVIEW_CHARS {
            out.push('\u{2026}');
        } else {
            assert(t@.take(n as int) =~= t@);
        }
        out.push('"');
    } else if c == '{' || c == '[' {
        let kind = if c == '{' {
            NodeKind::Object
        } else {
            NodeKind::Array
        };
        match maybe_count(raw, kind) {
            Some(n) => {
                out.push(if c == '{' { '{' } else { '[' });
                push_decimal(&mut out, n as u128);
                out.push(' ');
                if c == '{' {
                    out.push('k');
                    out.push('e');
                    out.push('y');
                    out.push('s');
                    out.push('}');
                } else {
                    out.push('i');
                    out.push('t');
                    out.push('e');
                    out.push('m');
                    out.push('s');
                    out.push(']');
                }
            },
            None => {
                out.push(if c == '{' { '{' } else { '[' });
                out.push('\u{2026}');
                out.push(if c == '{' { '}' } else { ']' });
            },
        }
    } else {
        return string_of(&cs);
    }
    string_of(&out)
}

/// The snippet shown for a hit on a member key: the key's text, a colon,
/// and the preview of its value.
pub open spec fn key_snippet_of(key: Seq<char>, value_raw: Seq<char>) -> Seq<char> {
    key + seq![':', ' '] + preview_of(value_raw)
}

/// The snippet for a hit on the key `key` whose value has the raw text
/// `value_raw` (see [`key_snippet_of`]).
pub fn key_snippet(key: &str, value_raw: &str) -> (r: String)
    requires
        value_raw@.len() > 0,
    ensures
        r@ == key_snippet_of(key@, value_raw@),
{
    let mut out: Vec<char> = chars_of(key);
    out.push(':');
    out.push(' ');
    let p = chars_of(preview_lazy(value_raw).as_str());
    let mut i: usize = 0;
    let ghost start = out@;
    while i < p.len()
        invariant
            i <= p@.len(),
            out@ == start + p@.take(i as int),
        decreases p@.len() - i,
    {
        out.push(p[i]);
        assert(p@.take(i + 1) =~= p@.take(i as int).push(p@[i as int]));
        i += 1;
    }
    assert(p@.take(p@.len() as int) =~= p@);
    string_of(&out)
}

} // verus!

//! The "Open Recent" submenu of the application menu: one entry per recent
//! file, then a separator and an entry that clears the list; a disabled
//! placeholder when the list is empty.
use vstd::prelude::*;

use crate::text::push_text;

verus! {

/// A file in the recent-files list: its path and the name shown for it.
pub struct RecentFile {
    pub path: String,
    pub name: String,
}

/// An entry of a menu: an item with its id, label and whether it can be
/// chosen, or a separator.
#[derive(Debug)]
pub enum MenuEntry {
    Item { id: String, label: String, enabled: bool },
    Separator,
}

pub open spec fn entry_view(e: MenuEntry) -> Option<(Seq<char>, Seq<char>, bool)> {
    match e {
        MenuEntry::Item { id, label, enabled } => Some((id@, label@, enabled)),
        MenuEntry::Separator => None,
    }
}

/// The entry that opens a recent file.
pub open spec fn recent_entry(f: RecentFile) -> Option<(Seq<char>, Seq<char>, bool)> {
    Some(("recent::"@ + f.path@, f.name@, true))
}

/// The entries of the submenu for `recents`.
pub open spec fn recent_entries(recents: Seq<RecentFile>) -> Seq<Option<(Seq<char>, Seq<char>, bool)>> {
    if recents.len() == 0 {
        seq![Some(("no_recent"@, "No Recent Files"@, false))]
    } else {
        recents.map_values(|f: RecentFile| recent_entry(f)) + seq![
            None,
            Some(("clear_recent_files"@, "Clear Recent Files"@, true)),
        ]
    }
}

fn owned(t: &str) -> (r: String)
    ensures
        r@ == t@,
{
    let mut r = String::new();
    push_text(&mut r, t);
    r
}

/// The entries of the "Open Recent" submenu (see [`recent_entries`]).
pub fn recent_files_menu(recents: &[RecentFile]) -> (r: Vec<MenuEntry>)
    ensures
        r@.map_values(|e: MenuEntry| entry_view(e)) == recent_entries(recents@),
{
    let mut out: Vec<MenuEntry> = Vec::new();
    if recents.len() == 0 {
        out.push(
            MenuEntry::Item {
                id: owned("no_recent"),
                label: owned("No Recent Files"),
                enabled: false,
            },
        );
        assert(out@.map_values(|e: MenuEntry| entry_view(e)) =~= recent_entries(recents@));
        return out;
    }
    let mut i: usize = 0;
    while i < recents.len()
        invariant
            i <= recents@.len(),
            out@.map_values(|e: MenuEntry| entry_view(e)) == recents@.take(i as int).map_values(
                |f: RecentFile| recent_entry(f),
            ),
        decreases recents@.len() - i,
    {
        let f = &recents[i];
        let mut id = owned("recent::");
        push_text(&mut id, f.path.as_str());
        let ghost before = out@;
        out.push(MenuEntry::Item { id, label: owned(f.name.as_str()), enabled: true });
        assert(recents@.take(i + 1) =~= recents@.take(i as int).push(recents@[i as int]));
        assert(out@.map_values(|e: MenuEntry| entry_view(e)) =~= before.map_values(
            |e: MenuEntry| entry_view(e),
        ).push(recent_entry(recents@[i as int])));
        assert(recents@.take(i + 1).map_values(|f: RecentFile| recent_entry(f)) =~= recents@.take(
            i as int,
        ).map_values(|f: RecentFile| recent_entry(f)).push(recent_entry(recents@[i as int])));
        i += 1;
    }
    assert(recents@.take(recents@.len() as int) =~= recents@);
    let ghost files = out@.map_values(|e: MenuEntry| entry_view(e));
    out.push(MenuEntry::Separator);
    out.push(
        MenuEntry::Item {
            id: owned("clear_recent_files"),
            label: owned("Clear Recent Files"),
            enabled: true,
        },
    );
    assert(out@.map_values(|e: MenuEntry| entry_view(e)) =~= files + seq![
        None,
        Some(("clear_recent_files"@, "Clear Recent Files"@, true)),
    ]);
    out
}

} // verus!

//! The records that the launcher shows, searches and activates.
use crate::config::MatchField;
use std::sync::Arc;
use vstd::prelude::*;

verus! {

/// One selectable item: a desktop application or a line read in dmenu mode.
#[derive(Debug)]
pub struct Entry {
    pub id: String,
    pub index: usize,
    pub label: String,
    pub raw_text: String,
    pub icon_name: Option<String>,
    pub icon: Option<Arc<IconBitmap>>,
    pub exec_line: Option<String>,
    pub path: Option<String>,
    pub terminal: bool,
    pub working_dir: Option<String>,
    pub search: SearchData,
    pub source: EntrySource,
}

/// Where an entry came from.
#[derive(Clone, Copy, Debug, PartialEq, Eq, Structural)]
pub enum EntrySource {
    Desktop,
    Dmenu,
}

/// An entry that matched a query, with its score and the matched positions.
#[derive(Debug)]
pub struct MatchResult {
    pub entry: Entry,
    pub score: i64,
    pub matched_indices: Vec<usize>,
}

/// The lowercased texts an entry is searched by.
#[derive(Debug)]
pub struct SearchData {
    pub filename: String,
    pub name: String,
    pub generic: String,
    pub exec_line: String,
    pub keywords: String,
    pub categories: String,
    pub comment: String,
    pub combined: String,
}

/// An RGBA raster of an icon, row by row.
#[derive(Debug)]
pub struct IconBitmap {
    pub width: u32,
    pub height: u32,
    pub rgba: Vec<u8>,
}

impl Clone for IconBitmap {
    /// A copy of the raster.
    fn clone(&self) -> (r: IconBitmap)
        ensures
            r.width == self.width,
            r.height == self.height,
            r.rgba@ == self.rgba@,
    {
        IconBitmap { width: self.width, height: self.height, rgba: self.rgba.clone() }
    }
}

/// `Arc::clone`: another handle on the same bitmap.
#[verifier::external_body]
fn share_icon(icon: &Arc<IconBitmap>) -> (r: Arc<IconBitmap>)
    ensures
        r == *icon,
{
    icon.clone()
}

/// A copy of an optional text.
pub fn clone_opt_string(s: &Option<String>) -> (r: Option<String>)
    ensures
        r == *s,
{
    match s {
        Some(t) => Some(t.clone()),
        None => None,
    }
}

impl SearchData {
    /// The text of one searchable field.
    pub open spec fn spec_field(&self, field: MatchField) -> Seq<char> {
        match field {
            MatchField::Filename => self.filename@,
            MatchField::Name => self.name@,
            MatchField::Generic => self.generic@,
            MatchField::Exec => self.exec_line@,
            MatchField::Keywords => self.keywords@,
            MatchField::Categories => self.categories@,
            MatchField::Comment => self.comment@,
        }
    }

    /// The text of one searchable field.
    pub fn field(&self, field: MatchField) -> (r: &str)
        ensures
            r@ == self.spec_field(field),
    {
        match field {
            MatchField::Filename => self.filename.as_str(),
            MatchField::Name => self.name.as_str(),
            MatchField::Generic => self.generic.as_str(),
            MatchField::Exec => self.exec_line.as_str(),
            MatchField::Keywords => self.keywords.as_str(),
            MatchField::Categories => self.categories.as_str(),
            MatchField::Comment => self.comment.as_str(),
        }
    }
}

impl Default for SearchData {
    /// Every field empty.
    fn default() -> (r: SearchData)
        ensures
            r.filename@ == Seq::<char>::empty(),
            r.name@ == Seq::<char>::empty(),
            r.generic@ == Seq::<char>::empty(),
            r.exec_line@ == Seq::<char>::empty(),
            r.keywords@ == Seq::<char>::empty(),
            r.categories@ == Seq::<char>::empty(),
            r.comment@ == Seq::<char>::empty(),
            r.combined@ == Seq::<char>::empty(),
    {
        SearchData {
            filename: String::new(),
            name: String::new(),
            generic: String::new(),
            exec_line: String::new(),
            keywords: String::new(),
            categories: String::new(),
            comment: String::new(),
            combined: String::new(),
        }
    }
}

impl Clone for SearchData {
    /// A field-by-field copy.
    fn clone(&self) -> (r: SearchData)
        ensures
            r == *self,
    {
        SearchData {
            filename: self.filename.clone(),
            name: self.name.clone(),
            generic: self.generic.clone(),
            exec_line: self.exec_line.clone(),
            keywords: self.keywords.clone(),
            categories: self.categories.clone(),
            comment: self.comment.clone(),
            combined: self.combined.clone(),
        }
    }
}

impl Clone for Entry {
    /// A field-by-field copy; the icon bitmap is shared.
    fn clone(&self) -> (r: Entry)
        ensures
            r == *self,
    {
        Entry {
            id: self.id.clone(),
            index: self.index,
            label: self.label.clone(),
            raw_text: self.raw_text.clone(),
            icon_name: clone_opt_string(&self.icon_name),
            icon: match &self.icon {
                Some(icon) => Some(share_icon(icon)),
                None => None,
            },
            exec_line: clone_opt_string(&self.exec_line),
            path: clone_opt_string(&self.path),
            terminal: self.terminal,
            working_dir: clone_opt_string(&self.working_dir),
            search: self.search.clone(),
            source: self.source,
        }
    }
}

/// Gives each entry that names an icon the bitmap loaded for it:
/// `icons[i]` is what loading the icon of entry `i` gave.  Entries without
/// an icon name, and every other field, are left as they were.
pub fn attach_icons(entries: &mut Vec<Entry>, icons: &Vec<Option<Arc<IconBitmap>>>)
    requires
        icons@.len() == old(entries)@.len(),
    ensures
        final(entries)@.len() == old(entries)@.len(),
        forall|i: int|
            0 <= i < old(entries)@.len() ==> #[trigger] final(entries)@[i] == (if old(
                entries,
            )@[i].icon_name is Some {
                Entry { icon: icons@[i], ..old(entries)@[i] }
            } else {
                old(entries)@[i]
            }),
{
    let ghost start = entries@;
    let mut i: usize = 0;
    while i < entries.len()
        invariant
            icons@.len() == start.len(),
            entries@.len() == start.len(),
            i <= start.len(),
            forall|k: int|
                0 <= k < i ==> #[trigger] entries@[k] == (if start[k].icon_name is Some {
                    Entry { icon: icons@[k], ..start[k] }
                } else {
                    start[k]
                }),
            forall|k: int| i <= k < start.len() ==> #[trigger] entries@[k] == start[k],
        decreases start.len() - i,
    {
        if entries[i].icon_name.is_some() {
            let mut e = entries[i].clone();
            e.icon = match &icons[i] {
                Some(icon) => Some(share_icon(icon)),
                None => None,
            };
            entries.set(i, e);
        }
        i = i + 1;
    }
}

} // verus!

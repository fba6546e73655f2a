//! One launchable entry, as the launcher lists and searches it.
use vstd::prelude::*;

use crate::text::{chars_of, contains_seq, lowercase, occurs_in, push_char, push_str, to_lowercase};

verus! {

/// The fields of an entry, as character sequences.
pub struct EntryView {
    pub name: Seq<char>,
    pub generic_name: Seq<char>,
    pub comment: Seq<char>,
    pub icon: Seq<char>,
    pub exec_line: Seq<char>,
    pub desktop_file_path: Seq<char>,
    pub categories: Seq<char>,
    pub terminal: bool,
    pub search_string: Seq<char>,
}

/// The text that a search query is matched against: name, generic name, comment and
/// categories, separated by single spaces, in lower case.
pub open spec fn search_text(
    name: Seq<char>,
    generic_name: Seq<char>,
    comment: Seq<char>,
    categories: Seq<char>,
) -> Seq<char> {
    lowercase(name + seq![' '] + generic_name + seq![' '] + comment + seq![' '] + categories)
}

/// The view of the entry that `DesktopEntryObject::new` builds from these fields.
pub open spec fn entry_view(
    name: Seq<char>,
    generic_name: Seq<char>,
    comment: Seq<char>,
    icon: Seq<char>,
    exec: Seq<char>,
    desktop_file_path: Seq<char>,
    categories: Seq<char>,
    terminal: bool,
) -> EntryView {
    EntryView {
        name,
        generic_name,
        comment,
        icon,
        exec_line: exec,
        desktop_file_path,
        categories,
        terminal,
        search_string: search_text(name, generic_name, comment, categories),
    }
}

/// A desktop entry: what the launcher shows, searches and starts.
pub struct DesktopEntryObject {
    name: String,
    generic_name: String,
    comment: String,
    icon: String,
    exec_line: String,
    desktop_file_path: String,
    categories: String,
    terminal: bool,
    search_string: String,
}

impl View for DesktopEntryObject {
    type V = EntryView;

    closed spec fn view(&self) -> EntryView {
        EntryView {
            name: self.name@,
            generic_name: self.generic_name@,
            comment: self.comment@,
            icon: self.icon@,
            exec_line: self.exec_line@,
            desktop_file_path: self.desktop_file_path@,
            categories: self.categories@,
            terminal: self.terminal,
            search_string: self.search_string@,
        }
    }
}

impl DesktopEntryObject {
    /// The search string always agrees with the fields it is built from.
    #[verifier::type_invariant]
    spec fn search_string_agrees(self) -> bool {
        self.search_string@ == search_text(
            self.name@,
            self.generic_name@,
            self.comment@,
            self.categories@,
        )
    }

    /// A new entry; its search string is built from the name, generic name, comment and
    /// categories.
    pub fn new(
        name: &str,
        generic_name: &str,
        comment: &str,
        icon: &str,
        exec: &str,
        desktop_file_path: &str,
        categories: &str,
        terminal: bool,
    ) -> (r: Self)
        ensures
            r@ == entry_view(
                name@,
                generic_name@,
                comment@,
                icon@,
                exec@,
                desktop_file_path@,
                categories@,
                terminal,
            ),
    {
        let mut joined = String::new();
        push_str(&mut joined, name);
        push_char(&mut joined, ' ');
        push_str(&mut joined, generic_name);
        push_char(&mut joined, ' ');
        push_str(&mut joined, comment);
        push_char(&mut joined, ' ');
        push_str(&mut joined, categories);
        assert(joined@ =~= name@ + seq![' '] + generic_name@ + seq![' '] + comment@ + seq![' ']
            + categories@);
        let search_string = to_lowercase(joined.as_str());
        DesktopEntryObject {
            name: name.to_owned(),
            generic_name: generic_name.to_owned(),
            comment: comment.to_owned(),
            icon: icon.to_owned(),
            exec_line: exec.to_owned(),
            desktop_file_path: desktop_file_path.to_owned(),
            categories: categories.to_owned(),
            terminal,
            search_string,
        }
    }

    pub fn name(&self) -> (r: &str)
        ensures
            r@ == self@.name,
    {
        self.name.as_str()
    }

    pub fn generic_name(&self) -> (r: &str)
        ensures
            r@ == self@.generic_name,
    {
        self.generic_name.as_str()
    }

    pub fn comment(&self) -> (r: &str)
        ensures
            r@ == self@.comment,
    {
        self.comment.as_str()
    }

    pub fn icon(&self) -> (r: &str)
        ensures
            r@ == self@.icon,
    {
        self.icon.as_str()
    }

    pub fn exec(&self) -> (r: &str)
        ensures
            r@ == self@.exec_line,
    {
        self.exec_line.as_str()
    }

    pub fn desktop_file_path(&self) -> (r: &str)
        ensures
            r@ == self@.desktop_file_path,
    {
        self.desktop_file_path.as_str()
    }

    pub fn categories(&self) -> (r: &str)
        ensures
            r@ == self@.categories,
    {
        self.categories.as_str()
    }

    pub fn terminal(&self) -> (r: bool)
        ensures
            r == self@.terminal,
    {
        self.terminal
    }

    /// The search string; it always agrees with the entry's fields.
    pub fn search_string(&self) -> (r: &str)
        ensures
            r@ == self@.search_string,
            r@ == search_text(self@.name, self@.generic_name, self@.comment, self@.categories),
    {
        proof {
            use_type_invariant(self);
        }
        self.search_string.as_str()
    }

    /// Whether the entry is shown for the (already lower-cased) search query `query`:
    /// every entry is shown for the empty query, otherwise those whose search string
    /// contains the query.
    pub fn matches_query(&self, query: &str) -> (b: bool)
        ensures
            b == (query@.len() == 0 || occurs_in(query@, self@.search_string)),
            query@.len() == 0 ==> b,
            forall|i: int|
                0 <= i && i + query@.len() <= self@.search_string.len()
                    && #[trigger] self@.search_string.subrange(i, i + query@.len()) == query@ ==> b,
            b && query@.len() > 0 ==> exists|i: int|
                0 <= i && i + query@.len() <= self@.search_string.len()
                    && #[trigger] self@.search_string.subrange(i, i + query@.len()) == query@,
    {
        if query.is_empty() {
            return true;
        }
        let hay = chars_of(self.search_string.as_str());
        let needle = chars_of(query);
        contains_seq(&hay, &needle)
    }
}

/// The query that the search entry's text stands for: the text in lower case.
pub fn search_query(text: &str) -> (r: String)
    ensures
        r@ == lowercase(text@),
{
    to_lowercase(text)
}

} // verus!

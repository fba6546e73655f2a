//! Reading desktop entry files into the entries the launcher lists.
//!
//! The files themselves are found and read by the caller; this module decodes their
//! text, decides which entries are shown, keeps the first entry of each application id
//! and orders the entries by name.
use vstd::prelude::*;

use freedesktop_desktop_entry::{DecodeError, DesktopEntry};

use crate::desktop_entry::{entry_view, DesktopEntryObject, EntryView};
use crate::text::{
    chars_of, join_strings, last_index, last_index_of, lemma_join_split,
    lemma_lex_le_antisymmetric, lemma_lex_le_reflexive, lemma_lex_le_total,
    lemma_lex_le_transitive, lex_le, lex_le_chars, lowercase, split_on, str_equal, string_of,
    to_lowercase,
};

verus! {

// ---------------------------------------------------------------------------
// File names
// ---------------------------------------------------------------------------

/// A file name split into its stem and extension, as `Path::file_stem` and
/// `Path::extension` split it: `..` has no extension; a name without a `.`, or whose
/// only `.` is its first character, is all stem; otherwise the stem is what precedes
/// the last `.` and the extension what follows it.
pub open spec fn split_file_name(name: Seq<char>) -> (Seq<char>, Option<Seq<char>>) {
    let i = last_index(name, '.');
    if name == ".."@ || i <= 0 {
        (name, None)
    } else {
        (name.take(i), Some(name.skip(i + 1)))
    }
}

/// The stem of the file name `name`: the application id of a desktop file.
pub fn file_stem(name: &str) -> (r: String)
    ensures
        r@ == split_file_name(name@).0,
{
    let v = chars_of(name);
    if str_equal(name, "..") {
        return string_of(&v, 0, v.len());
    }
    assert(v@.subrange(0, v@.len() as int) =~= v@);
    match last_index_of(&v, '.') {
        Some(i) => {
            if i == 0 {
                string_of(&v, 0, v.len())
            } else {
                string_of(&v, 0, i)
            }
        },
        None => string_of(&v, 0, v.len()),
    }
}

/// Whether the file name `name` has the extension `desktop`.
pub fn has_desktop_extension(name: &str) -> (b: bool)
    ensures
        b == (split_file_name(name@).1 == Some("desktop"@)),
{
    let v = chars_of(name);
    if str_equal(name, "..") {
        return false;
    }
    match last_index_of(&v, '.') {
        Some(i) => {
            if i == 0 {
                false
            } else {
                let ext = string_of(&v, i + 1, v.len());
                assert(v@.subrange(i + 1, v@.len() as int) =~= v@.skip(i + 1));
                str_equal(ext.as_str(), "desktop")
            }
        },
        None => false,
    }
}

// ---------------------------------------------------------------------------
// Decoded desktop entries
// ---------------------------------------------------------------------------

#[verifier::external_type_specification]
#[verifier::external_body]
pub struct ExDesktopEntry(DesktopEntry);

#[verifier::external_type_specification]
#[verifier::external_body]
pub struct ExDecodeError(DecodeError);

/// The keys of a decoded entry's `[Desktop Entry]` group, each with its value for no
/// particular locale.
pub uninterp spec fn entry_defaults(e: DesktopEntry) -> Map<Seq<char>, Seq<char>>;

/// The translated values of a decoded entry's `[Desktop Entry]` group, by key and locale.
pub uninterp spec fn entry_translations(e: DesktopEntry) -> Map<(Seq<char>, Seq<char>), Seq<char>>;

/// What `DesktopEntry::from_str` decodes from the file at `path` with text `input` when
/// keeping the translations for `locales`: the values and translations of its
/// `[Desktop Entry]` group, or `None` where it reports a decoding error.
pub uninterp spec fn decoded(path: Seq<char>, input: Seq<char>, locales: Seq<Seq<char>>) -> Option<
    (Map<Seq<char>, Seq<char>>, Map<(Seq<char>, Seq<char>), Seq<char>>),
>;

/// The value of `key` in `m`, if it has one.
pub open spec fn lookup(m: Map<Seq<char>, Seq<char>>, key: Seq<char>) -> Option<Seq<char>> {
    if m.contains_key(key) {
        Some(m[key])
    } else {
        None
    }
}

/// Whether `key` holds the boolean `true`.
pub open spec fn flag(m: Map<Seq<char>, Seq<char>>, key: Seq<char>) -> bool {
    lookup(m, key) == Some("true"@)
}

/// The language part of a locale such as `fr_FR` (what precedes its first `_`).
pub open spec fn locale_language(locale: Seq<char>) -> Option<Seq<char>> {
    if locale.contains('_') {
        let i = choose|i: int|
            0 <= i < locale.len() && locale[i] == '_' && forall|k: int| 0 <= k < i ==> locale[k]
                != '_';
        Some(locale.take(i))
    } else {
        None
    }
}

/// The first translation of `key` found for `locales`, trying each locale in turn,
/// first whole and then by its language.
pub open spec fn translation(
    tr: Map<(Seq<char>, Seq<char>), Seq<char>>,
    key: Seq<char>,
    locales: Seq<Seq<char>>,
) -> Option<Seq<char>>
    decreases locales.len(),
{
    if locales.len() == 0 {
        None
    } else if tr.contains_key((key, locales[0])) {
        Some(tr[(key, locales[0])])
    } else if locale_language(locales[0]) is Some && tr.contains_key(
        (key, locale_language(locales[0])->0),
    ) {
        Some(tr[(key, locale_language(locales[0])->0)])
    } else {
        translation(tr, key, locales.drop_first())
    }
}

/// The value of the localized key `key` for `locales`: `None` when the key is absent,
/// else its first translation for `locales`, else its untranslated value.
pub open spec fn localized(
    d: Map<Seq<char>, Seq<char>>,
    tr: Map<(Seq<char>, Seq<char>), Seq<char>>,
    key: Seq<char>,
    locales: Seq<Seq<char>>,
) -> Option<Seq<char>> {
    if !d.contains_key(key) {
        None
    } else {
        match translation(tr, key, locales) {
            Some(v) => Some(v),
            None => Some(d[key]),
        }
    }
}

/// The characters of an optional string.
pub open spec fn opt_view(o: Option<String>) -> Option<Seq<char>> {
    match o {
        Some(s) => Some(s@),
        None => None,
    }
}

/// An optional string, or the empty string.
pub open spec fn or_empty(o: Option<Seq<char>>) -> Seq<char> {
    match o {
        Some(s) => s,
        None => Seq::<char>::empty(),
    }
}

/// `DesktopEntry::from_str`: decodes the text `input` of the desktop file at `path`,
/// keeping the translations for `locales`. Claimed: the outcome is a function of the
/// three arguments, named `decoded`, and a decoded entry's group contents are those
/// that `decoded` names.
#[verifier::external_body]
fn decode_entry(path: &str, input: &str, locales: &Vec<String>) -> (r: Result<
    DesktopEntry,
    DecodeError,
>)
    ensures
        r is Ok <==> decoded(path@, input@, locales.deep_view()) is Some,
        r is Ok ==> decoded(path@, input@, locales.deep_view()) == Some(
            (entry_defaults(r->Ok_0), entry_translations(r->Ok_0)),
        ),
{
    DesktopEntry::from_str(path, input, Some(locales.as_slice()))
}

/// `DesktopEntry::type_`: the value of `Type`.
#[verifier::external_body]
fn entry_type(e: &DesktopEntry) -> (r: Option<String>)
    ensures
        opt_view(r) == lookup(entry_defaults(*e), "Type"@),
{
    e.type_().map(|s| s.to_string())
}

/// `DesktopEntry::no_display`: whether `NoDisplay` is `true`.
#[verifier::external_body]
fn entry_no_display(e: &DesktopEntry) -> (r: bool)
    ensures
        r == flag(entry_defaults(*e), "NoDisplay"@),
{
    e.no_display()
}

/// `DesktopEntry::hidden`: whether `Hidden` is `true`.
#[verifier::external_body]
fn entry_hidden(e: &DesktopEntry) -> (r: bool)
    ensures
        r == flag(entry_defaults(*e), "Hidden"@),
{
    e.hidden()
}

/// `DesktopEntry::terminal`: whether `Terminal` is `true`.
#[verifier::external_body]
fn entry_terminal(e: &DesktopEntry) -> (r: bool)
    ensures
        r == flag(entry_defaults(*e), "Terminal"@),
{
    e.terminal()
}

/// `DesktopEntry::exec`: the value of `Exec`.
#[verifier::external_body]
fn entry_exec(e: &DesktopEntry) -> (r: Option<String>)
    ensures
        opt_view(r) == lookup(entry_defaults(*e), "Exec"@),
{
    e.exec().map(|s| s.to_string())
}

/// `DesktopEntry::icon`: the value of `Icon`.
#[verifier::external_body]
fn entry_icon(e: &DesktopEntry) -> (r: Option<String>)
    ensures
        opt_view(r) == lookup(entry_defaults(*e), "Icon"@),
{
    e.icon().map(|s| s.to_string())
}

/// `DesktopEntry::name`: the value of `Name` localized for `locales`.
#[verifier::external_body]
fn entry_name(e: &DesktopEntry, locales: &Vec<String>) -> (r: Option<String>)
    ensures
        opt_view(r) == localized(
            entry_defaults(*e),
            entry_translations(*e),
            "Name"@,
            locales.deep_view(),
        ),
{
    e.name(locales.as_slice()).map(|s| s.into_owned())
}

/// `DesktopEntry::generic_name`: the value of `GenericName` localized for `locales`.
#[verifier::external_body]
fn entry_generic_name(e: &DesktopEntry, locales: &Vec<String>) -> (r: Option<String>)
    ensures
        opt_view(r) == localized(
            entry_defaults(*e),
            entry_translations(*e),
            "GenericName"@,
            locales.deep_view(),
        ),
{
    e.generic_name(locales.as_slice()).map(|s| s.into_owned())
}

/// `DesktopEntry::comment`: the value of `Comment` localized for `locales`.
#[verifier::external_body]
fn entry_comment(e: &DesktopEntry, locales: &Vec<String>) -> (r: Option<String>)
    ensures
        opt_view(r) == localized(
            entry_defaults(*e),
            entry_translations(*e),
            "Comment"@,
            locales.deep_view(),
        ),
{
    e.comment(locales.as_slice()).map(|s| s.into_owned())
}

/// `DesktopEntry::categories`: the value of `Categories` split at each `;`.
#[verifier::external_body]
fn entry_categories(e: &DesktopEntry) -> (r: Option<Vec<String>>)
    ensures
        r is Some <==> lookup(entry_defaults(*e), "Categories"@) is Some,
        r is Some ==> r->0.deep_view() == split_on(
            lookup(entry_defaults(*e), "Categories"@)->0,
            ';',
        ),
{
    e.categories().map(|cats| cats.iter().map(|c| c.to_string()).collect())
}

/// The entry that a desktop file with `[Desktop Entry]` values `d` and translations
/// `tr`, found at `path`, is listed as: only applications that are neither hidden nor
/// kept out of menus, and that have a non-empty name and Exec line.
pub open spec fn listed_entry(
    d: Map<Seq<char>, Seq<char>>,
    tr: Map<(Seq<char>, Seq<char>), Seq<char>>,
    path: Seq<char>,
    locales: Seq<Seq<char>>,
) -> Option<EntryView> {
    let name = localized(d, tr, "Name"@, locales);
    let exec = lookup(d, "Exec"@);
    if lookup(d, "Type"@) != Some("Application"@) {
        None
    } else if flag(d, "NoDisplay"@) || flag(d, "Hidden"@) {
        None
    } else if name is None || exec is None || name->0.len() == 0 || exec->0.len() == 0 {
        None
    } else {
        Some(
            entry_view(
                name->0,
                or_empty(localized(d, tr, "GenericName"@, locales)),
                or_empty(localized(d, tr, "Comment"@, locales)),
                or_empty(lookup(d, "Icon"@)),
                exec->0,
                path,
                or_empty(lookup(d, "Categories"@)),
                flag(d, "Terminal"@),
            ),
        )
    }
}

proof fn lemma_localized_cases(
    d: Map<Seq<char>, Seq<char>>,
    tr: Map<(Seq<char>, Seq<char>), Seq<char>>,
    key: Seq<char>,
    locales: Seq<Seq<char>>,
)
    ensures
        d.contains_key(key) && locales.len() > 0 && tr.contains_key((key, locales[0]))
            ==> localized(d, tr, key, locales) == Some(tr[(key, locales[0])]),
        forall|p: int|
            d.contains_key(key) && locales.len() > 0 && !tr.contains_key((key, locales[0])) && 0
                <= p < locales[0].len() && locales[0][p] == '_' && (forall|k: int|
                0 <= k < p ==> locales[0][k] != '_') && #[trigger] tr.contains_key(
                (key, locales[0].take(p)),
            ) ==> localized(d, tr, key, locales) == Some(tr[(key, locales[0].take(p))]),
        d.contains_key(key) && (forall|l: Seq<char>| !#[trigger] tr.contains_key((key, l)))
            ==> localized(d, tr, key, locales) == Some(d[key]),
        !d.contains_key(key) ==> localized(d, tr, key, locales) is None,
{
    assert forall|p: int|
        d.contains_key(key) && locales.len() > 0 && !tr.contains_key((key, locales[0])) && 0 <= p
            < locales[0].len() && locales[0][p] == '_' && (forall|k: int|
            0 <= k < p ==> locales[0][k] != '_') && #[trigger] tr.contains_key(
            (key, locales[0].take(p)),
        ) implies localized(d, tr, key, locales) == Some(tr[(key, locales[0].take(p))]) by {
        let l = locales[0];
        assert(l.contains('_'));
        let i = choose|i: int|
            0 <= i < l.len() && l[i] == '_' && forall|k: int| 0 <= k < i ==> l[k] != '_';
        if i < p {
            assert(l[i] != '_');
        }
        if p < i {
            assert(l[p] != '_');
        }
        assert(i == p);
    }
    if d.contains_key(key) && (forall|l: Seq<char>| !#[trigger] tr.contains_key((key, l))) {
        lemma_no_translation(tr, key, locales);
    }
}

proof fn lemma_no_translation(
    tr: Map<(Seq<char>, Seq<char>), Seq<char>>,
    key: Seq<char>,
    locales: Seq<Seq<char>>,
)
    requires
        forall|l: Seq<char>| !#[trigger] tr.contains_key((key, l)),
    ensures
        translation(tr, key, locales) is None,
    decreases locales.len(),
{
    if locales.len() > 0 {
        assert(!tr.contains_key((key, locales[0])));
        if locale_language(locales[0]) is Some {
            assert(!tr.contains_key((key, locale_language(locales[0])->0)));
        }
        lemma_no_translation(tr, key, locales.drop_first());
    }
}

/// A listed entry's name, generic name and comment are localized: each is its
/// translation for the first locale when the file has one, else (for a locale such as
/// `de_DE`) its translation for that locale's language when the file has one; a key
/// with no translation at all keeps its untranslated value, and a missing generic name
/// or comment is empty.
pub proof fn law_listed_texts_are_localized(
    d: Map<Seq<char>, Seq<char>>,
    tr: Map<(Seq<char>, Seq<char>), Seq<char>>,
    path: Seq<char>,
    locales: Seq<Seq<char>>,
    key: Seq<char>,
)
    requires
        listed_entry(d, tr, path, locales) is Some,
        key == "Name"@ || key == "GenericName"@ || key == "Comment"@,
    ensures
        ({
            let e = listed_entry(d, tr, path, locales)->0;
            let text = if key == "Name"@ {
                e.name
            } else if key == "GenericName"@ {
                e.generic_name
            } else {
                e.comment
            };
            &&& d.contains_key(key) && locales.len() > 0 && tr.contains_key((key, locales[0]))
                ==> text == tr[(key, locales[0])]
            &&& forall|p: int|
                d.contains_key(key) && locales.len() > 0 && !tr.contains_key((key, locales[0]))
                    && 0 <= p < locales[0].len() && locales[0][p] == '_' && (forall|k: int|
                    0 <= k < p ==> locales[0][k] != '_') && #[trigger] tr.contains_key(
                    (key, locales[0].take(p)),
                ) ==> text == tr[(key, locales[0].take(p))]
            &&& d.contains_key(key) && (forall|l: Seq<char>| !#[trigger] tr.contains_key((key, l)))
                ==> text == d[key]
            &&& !d.contains_key(key) ==> text.len() == 0
        }),
{
    lemma_localized_cases(d, tr, key, locales);
    reveal_strlit("Name");
    reveal_strlit("GenericName");
    reveal_strlit("Comment");
    assert("Name"@.len() == 4 && "GenericName"@.len() == 11 && "Comment"@.len() == 7);
}

/// The entry that the desktop file at `path` with text `data` is listed as.
pub open spec fn parsed_entry(path: Seq<char>, data: Seq<char>, locales: Seq<Seq<char>>) -> Option<
    EntryView,
> {
    match decoded(path, data, locales) {
        None => None,
        Some(contents) => listed_entry(contents.0, contents.1, path, locales),
    }
}

/// The entry listed for the desktop file at `path` whose text is `data`, with names and
/// comments in the first of `locales` that has them; `None` when the file does not
/// decode or is not a shown application with a name and an Exec line.
pub fn parse_entry(path: &str, data: &str, locales: &Vec<String>) -> (r: Option<DesktopEntryObject>)
    ensures
        match r {
            Some(o) => parsed_entry(path@, data@, locales.deep_view()) == Some(o@),
            None => parsed_entry(path@, data@, locales.deep_view()) is None,
        },
{
    let entry = match decode_entry(path, data, locales) {
        Ok(e) => e,
        Err(_) => return None,
    };
    let ghost d = entry_defaults(entry);
    let ghost tr = entry_translations(entry);
    let is_application = match entry_type(&entry) {
        Some(t) => str_equal(t.as_str(), "Application"),
        None => false,
    };
    if !is_application {
        return None;
    }
    if entry_no_display(&entry) || entry_hidden(&entry) {
        return None;
    }
    let name = match entry_name(&entry, locales) {
        Some(n) => n,
        None => return None,
    };
    let exec = match entry_exec(&entry) {
        Some(x) => x,
        None => return None,
    };
    if name.as_str().is_empty() || exec.as_str().is_empty() {
        return None;
    }
    let generic_name = match entry_generic_name(&entry, locales) {
        Some(g) => g,
        None => String::new(),
    };
    let comment = match entry_comment(&entry, locales) {
        Some(c) => c,
        None => String::new(),
    };
    let icon = match entry_icon(&entry) {
        Some(i) => i,
        None => String::new(),
    };
    let categories = match entry_categories(&entry) {
        Some(parts) => {
            let joined = join_strings(&parts, ';');
            proof {
                lemma_join_split(lookup(d, "Categories"@)->0, ';');
            }
            joined
        },
        None => String::new(),
    };
    let terminal = entry_terminal(&entry);
    Some(
        DesktopEntryObject::new(
            name.as_str(),
            generic_name.as_str(),
            comment.as_str(),
            icon.as_str(),
            exec.as_str(),
            path,
            categories.as_str(),
            terminal,
        ),
    )
}

// ---------------------------------------------------------------------------
// Ordering entries by name
// ---------------------------------------------------------------------------

/// The key by which entries are ordered: the name in lower case.
pub open spec fn name_key(e: EntryView) -> Seq<char> {
    lowercase(e.name)
}

/// The views of a list of entries.
pub open spec fn views(es: Seq<DesktopEntryObject>) -> Seq<EntryView> {
    es.map_values(|e: DesktopEntryObject| e@)
}

/// `perm` shows that `output` is `input` sorted by name key without reordering entries
/// whose keys are equal: `output[i]` is `input[perm[i]]`, `perm` is a permutation, the
/// keys ascend, and equal keys keep their order.
pub open spec fn stable_sort_witness(
    input: Seq<EntryView>,
    output: Seq<EntryView>,
    perm: Seq<int>,
) -> bool {
    &&& output.len() == input.len()
    &&& perm.len() == input.len()
    &&& forall|i: int| 0 <= i < perm.len() ==> 0 <= #[trigger] perm[i] < input.len()
    &&& forall|i: int, j: int| 0 <= i < j < perm.len() ==> perm[i] != perm[j]
    &&& forall|i: int| 0 <= i < output.len() ==> #[trigger] output[i] == input[perm[i]]
    &&& forall|i: int, j: int|
        0 <= i < j < output.len() ==> lex_le(name_key(output[i]), name_key(output[j]))
    &&& forall|i: int, j: int|
        0 <= i < j < output.len() && name_key(output[i]) == name_key(output[j]) ==> perm[i]
            < perm[j]
}

/// `output` is `input` sorted by name, case-insensitively, as a stable sort orders it.
pub open spec fn sorted_by_name(input: Seq<EntryView>, output: Seq<EntryView>) -> bool {
    exists|perm: Seq<int>| stable_sort_witness(input, output, perm)
}

/// The entries ordered by name, compared in lower case; entries whose lower-case names
/// are equal keep their order.
pub fn sort_by_name(entries: Vec<DesktopEntryObject>) -> (r: Vec<DesktopEntryObject>)
    ensures
        sorted_by_name(views(entries@), views(r@)),
        r@.len() == entries@.len(),
        forall|i: int, j: int|
            0 <= i < j < r@.len() ==> lex_le(
                lowercase(#[trigger] views(r@)[i].name),
                lowercase(#[trigger] views(r@)[j].name),
            ),
{
    let ghost orig = views(entries@);
    let n = entries.len();
    let mut rest = entries;
    let mut out: Vec<DesktopEntryObject> = Vec::new();
    let mut keys: Vec<Vec<char>> = Vec::new();
    let ghost mut perm: Seq<int> = Seq::empty();
    let mut k: usize = 0;
    assert(views(rest@) =~= orig.skip(0));
    while k < n
        invariant
            k <= n,
            orig.len() == n,
            views(rest@) == orig.skip(k as int),
            out.len() == k,
            keys.len() == k,
            perm.len() == k,
            forall|i: int| 0 <= i < k ==> (#[trigger] keys@[i])@ == name_key(out@[i]@),
            forall|i: int| 0 <= i < k ==> 0 <= #[trigger] perm[i] < k,
            forall|i: int, j: int| 0 <= i < j < k ==> perm[i] != perm[j],
            forall|i: int| 0 <= i < k ==> (#[trigger] out@[i])@ == orig[perm[i]],
            forall|i: int, j: int| 0 <= i < j < k ==> lex_le(keys@[i]@, keys@[j]@),
            forall|i: int, j: int|
                0 <= i < j < k && keys@[i]@ == keys@[j]@ ==> perm[i] < perm[j],
        decreases n - k,
    {
        assert(rest@.len() == views(rest@).len());
        assert(views(rest@)[0] == orig[k as int]);
        let ghost before = rest@;
        let e = rest.remove(0);
        assert(rest@ == before.remove(0));
        assert(views(rest@) =~= orig.skip(k + 1)) by {
            assert forall|i: int| 0 <= i < rest@.len() implies views(rest@)[i] == orig.skip(
                k + 1,
            )[i] by {
                assert(rest@[i] == before[i + 1]);
                assert(views(before)[i + 1] == orig.skip(k as int)[i + 1]);
            }
        }
        let lowered = to_lowercase(e.name());
        let key = chars_of(lowered.as_str());
        let mut j = out.len();
        while j > 0 && !lex_le_chars(&keys[j - 1], &key)
            invariant
                j <= keys.len(),
                forall|m: int| j <= m < keys.len() ==> !lex_le((#[trigger] keys@[m])@, key@),
            decreases j,
        {
            j = j - 1;
        }
        let ghost old_keys = keys@;
        let ghost old_out = out@;
        let ghost old_perm = perm;
        proof {
            assert forall|m: int| 0 <= m < j implies lex_le((#[trigger] old_keys[m])@, key@) by {
                if m < j - 1 {
                    lemma_lex_le_transitive(old_keys[m]@, old_keys[j - 1]@, key@);
                }
            }
            assert forall|m: int| j <= m < old_keys.len() implies lex_le(
                key@,
                (#[trigger] old_keys[m])@,
            ) && key@ != old_keys[m]@ by {
                lemma_lex_le_total(key@, old_keys[m]@);
                lemma_lex_le_reflexive(key@);
            }
            perm = perm.insert(j as int, k as int);
        }
        keys.insert(j, key);
        out.insert(j, e);
        proof {
            assert forall|i: int| 0 <= i < k + 1 implies (#[trigger] keys@[i])@ == name_key(
                out@[i]@,
            ) by {
                if i < j {
                    assert(keys@[i] == old_keys[i]);
                    assert(out@[i] == old_out[i]);
                } else if i > j {
                    assert(keys@[i] == old_keys[i - 1]);
                    assert(out@[i] == old_out[i - 1]);
                }
            }
            assert forall|i: int| 0 <= i < k + 1 implies 0 <= #[trigger] perm[i] < k + 1 by {
                if i < j {
                    assert(perm[i] == old_perm[i]);
                } else if i > j {
                    assert(perm[i] == old_perm[i - 1]);
                }
            }
            assert forall|i: int, m: int| 0 <= i < m < k + 1 implies perm[i] != perm[m] by {
                if i < j && m < j {
                    assert(perm[i] == old_perm[i] && perm[m] == old_perm[m]);
                } else if i < j && m == j {
                    assert(perm[i] == old_perm[i]);
                } else if i < j && m > j {
                    assert(perm[i] == old_perm[i] && perm[m] == old_perm[m - 1]);
                } else if i == j {
                    assert(perm[m] == old_perm[m - 1]);
                } else {
                    assert(perm[i] == old_perm[i - 1] && perm[m] == old_perm[m - 1]);
                }
            }
            assert forall|i: int| 0 <= i < k + 1 implies (#[trigger] out@[i])@ == orig[perm[i]] by {
                if i < j {
                    assert(perm[i] == old_perm[i] && out@[i] == old_out[i]);
                } else if i > j {
                    assert(perm[i] == old_perm[i - 1] && out@[i] == old_out[i - 1]);
                }
            }
            assert forall|i: int, m: int| 0 <= i < m < k + 1 implies lex_le(
                keys@[i]@,
                keys@[m]@,
            ) by {
                if i < j && m < j {
                    assert(keys@[i] == old_keys[i] && keys@[m] == old_keys[m]);
                } else if i < j && m == j {
                    assert(keys@[i] == old_keys[i]);
                } else if i < j && m > j {
                    assert(keys@[i] == old_keys[i] && keys@[m] == old_keys[m - 1]);
                    lemma_lex_le_transitive(old_keys[i]@, key@, old_keys[m - 1]@);
                } else if i == j {
                    assert(keys@[m] == old_keys[m - 1]);
                } else {
                    assert(keys@[i] == old_keys[i - 1] && keys@[m] == old_keys[m - 1]);
                }
            }
            assert forall|i: int, m: int|
                0 <= i < m < k + 1 && keys@[i]@ == keys@[m]@ implies perm[i] < perm[m] by {
                if i < j && m < j {
                    assert(keys@[i] == old_keys[i] && keys@[m] == old_keys[m]);
                    assert(perm[i] == old_perm[i] && perm[m] == old_perm[m]);
                } else if i < j && m == j {
                    assert(perm[i] == old_perm[i]);
                } else if i < j && m > j {
                    assert(keys@[i] == old_keys[i] && keys@[m] == old_keys[m - 1]);
                    lemma_lex_le_transitive(old_keys[m - 1]@, old_keys[i]@, key@);
                    lemma_lex_le_antisymmetric(old_keys[m - 1]@, key@);
                } else if i == j {
                    assert(keys@[m] == old_keys[m - 1]);
                } else {
                    assert(keys@[i] == old_keys[i - 1] && keys@[m] == old_keys[m - 1]);
                    assert(perm[i] == old_perm[i - 1] && perm[m] == old_perm[m - 1]);
                }
            }
        }
        k = k + 1;
    }
    proof {
        assert(stable_sort_witness(orig, views(out@), perm));
        assert forall|i: int, j: int| 0 <= i < j < out@.len() implies lex_le(
            lowercase(#[trigger] views(out@)[i].name),
            lowercase(#[trigger] views(out@)[j].name),
        ) by {
            assert(keys@[i]@ == name_key(out@[i]@));
            assert(keys@[j]@ == name_key(out@[j]@));
        }
    }
    out
}

/// Sorting by name orders entries by their whole names in lower case, and entries whose
/// whole lower-case names are equal keep the order they came in.
pub proof fn law_sorted_by_whole_lowercase_name(input: Seq<EntryView>, output: Seq<EntryView>)
    requires
        sorted_by_name(input, output),
    ensures
        output.len() == input.len(),
        forall|i: int, j: int|
            0 <= i < j < output.len() ==> lex_le(
                lowercase(#[trigger] output[i].name),
                lowercase(#[trigger] output[j].name),
            ),
        exists|perm: Seq<int>|
            {
                &&& perm.len() == input.len()
                &&& forall|i: int| 0 <= i < perm.len() ==> 0 <= #[trigger] perm[i] < input.len()
                &&& forall|i: int, j: int| 0 <= i < j < perm.len() ==> perm[i] != perm[j]
                &&& forall|i: int| 0 <= i < output.len() ==> #[trigger] output[i] == input[perm[i]]
                &&& forall|i: int, j: int|
                    0 <= i < j < output.len() && lowercase(output[i].name) == lowercase(
                        output[j].name,
                    ) ==> perm[i] < perm[j]
            },
{
    let perm = choose|perm: Seq<int>| stable_sort_witness(input, output, perm);
    assert forall|i: int, j: int| 0 <= i < j < output.len() implies lex_le(
        lowercase(#[trigger] output[i].name),
        lowercase(#[trigger] output[j].name),
    ) by {
        assert(lex_le(name_key(output[i]), name_key(output[j])));
    }
    assert forall|i: int, j: int|
        0 <= i < j < output.len() && lowercase(output[i].name) == lowercase(
            output[j].name,
        ) implies perm[i] < perm[j] by {
        assert(name_key(output[i]) == name_key(output[j]));
    }
}

// ---------------------------------------------------------------------------
// One entry per application id
// ---------------------------------------------------------------------------

/// The applications found so far, each under its application id, in the order found.
/// Directories are scanned with the user's own first, so the first entry found for an
/// id is the one kept.
pub struct AppCatalog {
    found: Vec<(String, DesktopEntryObject)>,
}

/// `id` is one of the ids in `found`.
pub open spec fn has_id(found: Seq<(Seq<char>, EntryView)>, id: Seq<char>) -> bool {
    exists|i: int| 0 <= i < found.len() && (#[trigger] found[i]).0 == id
}

/// A catalog is offered an entry for `id` only when `id` is not empty and not yet taken.
pub open spec fn wants_id(found: Seq<(Seq<char>, EntryView)>, id: Seq<char>) -> bool {
    id.len() > 0 && !has_id(found, id)
}

impl View for AppCatalog {
    type V = Seq<(Seq<char>, EntryView)>;

    closed spec fn view(&self) -> Seq<(Seq<char>, EntryView)> {
        self.found@.map_values(|p: (String, DesktopEntryObject)| (p.0@, p.1@))
    }
}

impl AppCatalog {
    /// Every id is non-empty and occurs once.
    #[verifier::type_invariant]
    spec fn ids_distinct(self) -> bool {
        &&& forall|i: int| 0 <= i < self.found@.len() ==> (#[trigger] self.found@[i]).0@.len() > 0
        &&& forall|i: int, j: int|
            0 <= i < j < self.found@.len() ==> self.found@[i].0@ != self.found@[j].0@
    }

    /// An empty catalog.
    pub fn new() -> (r: Self)
        ensures
            r@ == Seq::<(Seq<char>, EntryView)>::empty(),
    {
        let r = AppCatalog { found: Vec::new() };
        assert(r@ =~= Seq::<(Seq<char>, EntryView)>::empty());
        r
    }

    /// The number of applications found.
    pub fn len(&self) -> (n: usize)
        ensures
            n == self@.len(),
    {
        self.found.len()
    }

    /// Whether an entry for the application id `appid` would still be taken: the id is
    /// not empty and no entry has been taken for it.
    pub fn wants(&self, appid: &str) -> (b: bool)
        ensures
            b == wants_id(self@, appid@),
    {
        if appid.is_empty() {
            return false;
        }
        let mut i: usize = 0;
        while i < self.found.len()
            invariant
                i <= self.found@.len(),
                forall|k: int| 0 <= k < i ==> self@[k].0 != appid@,
            decreases self.found@.len() - i,
        {
            if str_equal(self.found[i].0.as_str(), appid) {
                assert(self@[i as int].0 == appid@);
                return false;
            }
            i = i + 1;
        }
        assert(!has_id(self@, appid@));
        true
    }

    /// Takes `entry` for `appid` if the catalog wants that id; otherwise the catalog
    /// stays as it is, so the first entry for an id is the one kept.
    pub fn record(&mut self, appid: String, entry: DesktopEntryObject)
        ensures
            wants_id(old(self)@, appid@) ==> final(self)@ == old(self)@.push((appid@, entry@)),
            !wants_id(old(self)@, appid@) ==> final(self)@ == old(self)@,
            forall|i: int, j: int|
                0 <= i < j < final(self)@.len() ==> final(self)@[i].0 != final(self)@[j].0,
    {
        if self.wants(appid.as_str()) {
            proof {
                use_type_invariant(&*self);
            }
            let ghost before = self@;
            let ghost ids = appid@;
            assert forall|k: int| 0 <= k < self.found@.len() implies self.found@[k].0@ != ids by {
                assert(before[k].0 == self.found@[k].0@);
            }
            let mut found: Vec<(String, DesktopEntryObject)> = Vec::new();
            std::mem::swap(&mut found, &mut self.found);
            found.push((appid, entry));
            self.found = found;
            assert(self@ =~= before.push((ids, entry@)));
        }
        proof {
            use_type_invariant(&*self);
            assert forall|i: int, j: int| 0 <= i < j < self@.len() implies self@[i].0
                != self@[j].0 by {
                assert(self@[i].0 == self.found@[i].0@);
                assert(self@[j].0 == self.found@[j].0@);
            }
        }
    }

    /// The entries taken, ordered by name (see `sort_by_name`).
    pub fn into_sorted_entries(self) -> (r: Vec<DesktopEntryObject>)
        ensures
            sorted_by_name(self@.map_values(|p: (Seq<char>, EntryView)| p.1), views(r@)),
    {
        let ghost found = self@;
        let mut pairs = self.found;
        let mut entries: Vec<DesktopEntryObject> = Vec::new();
        let ghost all = pairs@;
        let n = pairs.len();
        assert(pairs@ =~= all.subrange(0, n as int));
        while entries.len() < n
            invariant
                n == all.len(),
                all.len() == found.len(),
                entries@.len() <= n,
                forall|i: int| 0 <= i < all.len() ==> (#[trigger] found[i]).1 == all[i].1@,
                pairs@ == all.subrange(entries@.len() as int, n as int),
                forall|i: int| 0 <= i < entries@.len() ==> (#[trigger] entries@[i])@ == all[i].1@,
            decreases n - entries@.len(),
        {
            let ghost before = pairs@;
            let ghost m: int = entries@.len() as int;
            assert(before[0] == all[m]);
            let (_, e) = pairs.remove(0);
            entries.push(e);
            assert(pairs@ =~= all.subrange(m + 1, n as int));
        }
        assert(views(entries@) =~= found.map_values(|p: (Seq<char>, EntryView)| p.1));
        sort_by_name(entries)
    }
}

} // verus!

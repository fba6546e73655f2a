//! Tab completion in the run dialog: which token is completed, the completions of a
//! command name or a path, and the edited text.
//!
//! Listing the `$PATH` directories and the directory of a path is the caller's part;
//! the functions here take the names found.
use vstd::prelude::*;

use crate::text::{
    chars_of, has_prefix, is_common_prefix, is_longest_common_prefix, is_whitespace, is_ws,
    last_index, last_index_of, lemma_last_index_absent, lemma_last_index_at, longest_common_prefix, push_char, push_chars, push_str,
    skip_char_backward, skip_ws_backward, split_on, split_string, starts_with, str_equal, string_of, trim_end,
    trim_end_char,
};

verus! {

// ---------------------------------------------------------------------------
// The token at the cursor
// ---------------------------------------------------------------------------

/// Where the token ending at the end of `before` starts: just after its last space, or
/// at the start.
pub open spec fn token_start(before: Seq<char>) -> nat
    decreases before.len(),
{
    if before.len() == 0 {
        0
    } else if before.last() == ' ' {
        before.len()
    } else {
        token_start(before.drop_last())
    }
}

/// Every character of `s` is whitespace.
pub open spec fn all_ws(s: Seq<char>) -> bool {
    forall|i: int| 0 <= i < s.len() ==> is_ws(#[trigger] s[i])
}

/// The cursor, kept within the text.
pub open spec fn clamp(cursor: usize, len: nat) -> nat {
    if cursor <= len {
        cursor as nat
    } else {
        len
    }
}

/// The token to complete: where it starts, the text it holds so far, and whether it is
/// the first token (a command name) or a later one (a path).
pub struct CompletionRequest {
    pub token_start: usize,
    pub prefix: String,
    pub first_token: bool,
}

/// The token to complete when Tab is pressed with the cursor at `cursor` (a character
/// offset) in `text`: the characters between the last space before the cursor and the
/// cursor; `None` when there are none.
pub fn completion_request(text: &str, cursor: usize) -> (r: Option<CompletionRequest>)
    ensures
        ({
            let c = clamp(cursor, text@.len());
            let before = text@.take(c as int);
            let ts = token_start(before);
            match r {
                None => ts == c,
                Some(q) => {
                    &&& ts < c
                    &&& q.token_start == ts
                    &&& q.prefix@ == before.skip(ts as int)
                    &&& q.first_token == all_ws(before.take(ts as int))
                },
            }
        }),
{
    let v = chars_of(text);
    let c = if cursor <= v.len() {
        cursor
    } else {
        v.len()
    };
    let ghost before = v@.take(c as int);
    let mut j = c;
    assert(v@.take(j as int) =~= before);
    while j > 0 && v[j - 1] != ' '
        invariant
            j <= c <= v.len(),
            token_start(before) == token_start(v@.take(j as int)),
        decreases j,
    {
        assert(v@.take(j as int).drop_last() =~= v@.take(j - 1));
        j = j - 1;
    }
    assert(token_start(before) == j);
    if j == c {
        return None;
    }
    let mut k: usize = 0;
    let mut first = true;
    while k < j
        invariant
            j <= c <= v.len(),
            before == v@.take(c as int),
            k <= j,
            first == all_ws(before.take(k as int)),
        decreases j - k,
    {
        let ghost prev = first;
        assert(before.take(k + 1) =~= before.take(k as int).push(v@[k as int]));
        if !is_whitespace(v[k]) {
            first = false;
        }
        assert(first == all_ws(before.take(k + 1))) by {
            if prev && is_ws(v@[k as int]) {
                assert forall|m: int| 0 <= m < k + 1 implies is_ws(#[trigger] before.take(k + 1)[m]) by {
                    if m < k {
                        assert(before.take(k + 1)[m] == before.take(k as int)[m]);
                    }
                }
            } else if !prev {
                let m = choose|m: int| 0 <= m < k && !is_ws(#[trigger] before.take(k as int)[m]);
                assert(before.take(k + 1)[m] == before.take(k as int)[m]);
            } else {
                assert(before.take(k + 1)[k as int] == v@[k as int]);
            }
        }
        k = k + 1;
    }
    let prefix = string_of(&v, j, c);
    assert(v@.subrange(j as int, c as int) =~= before.skip(j as int));
    Some(CompletionRequest { token_start: j, prefix, first_token: first })
}

/// The entry after completion: its text and where the cursor goes, and whether the
/// completion changed the token (and so is announced).
pub struct CompletionEdit {
    pub text: String,
    pub cursor: usize,
    pub announce: bool,
}

/// The text with the token of `request` replaced by `completed`: the text up to the
/// token, the completion, and the text from the cursor on; the cursor goes after the
/// completion.
pub fn apply_completion(text: &str, cursor: usize, request: &CompletionRequest, completed: &str) -> (r:
    CompletionEdit)
    requires
        request.token_start <= clamp(cursor, text@.len()),
        text@.len() + completed@.len() <= usize::MAX,
    ensures
        ({
            let c = clamp(cursor, text@.len());
            &&& r.text@ == text@.take(request.token_start as int) + completed@ + text@.skip(
                c as int,
            )
            &&& r.cursor == request.token_start + completed@.len()
            &&& r.announce == (completed@ != request.prefix@)
        }),
{
    let v = chars_of(text);
    let w = chars_of(completed);
    let c = if cursor <= v.len() {
        cursor
    } else {
        v.len()
    };
    let mut out = String::new();
    push_chars(&mut out, &v, 0, request.token_start);
    push_str(&mut out, completed);
    push_chars(&mut out, &v, c, v.len());
    assert(v@.subrange(0, request.token_start as int) =~= text@.take(request.token_start as int));
    assert(v@.subrange(c as int, v@.len() as int) =~= text@.skip(c as int));
    assert(out@ =~= text@.take(request.token_start as int) + completed@ + text@.skip(c as int));
    let announce = !str_equal(completed, request.prefix.as_str());
    CompletionEdit { text: out, cursor: request.token_start + w.len(), announce }
}

// ---------------------------------------------------------------------------
// Completing a command name
// ---------------------------------------------------------------------------

/// Some name in `names` starts with `p`.
pub open spec fn any_match(names: Seq<Seq<char>>, p: Seq<char>) -> bool {
    exists|i: int| 0 <= i < names.len() && has_prefix(#[trigger] names[i], p)
}

/// Two different names in `names` start with `p`.
pub open spec fn several_matches(names: Seq<Seq<char>>, p: Seq<char>) -> bool {
    exists|i: int, j: int|
        0 <= i < names.len() && 0 <= j < names.len() && has_prefix(#[trigger] names[i], p)
            && has_prefix(#[trigger] names[j], p) && names[i] != names[j]
}

/// `q` is a prefix of every name in `names` that starts with `p`.
pub open spec fn common_to_matches(q: Seq<char>, names: Seq<Seq<char>>, p: Seq<char>) -> bool {
    forall|i: int| 0 <= i < names.len() && has_prefix(#[trigger] names[i], p) ==> has_prefix(names[i], q)
}

/// Whether `list` holds a string equal to `s`.
fn contains_string(list: &Vec<String>, s: &str) -> (b: bool)
    ensures
        b == list.deep_view().contains(s@),
{
    let mut i: usize = 0;
    while i < list.len()
        invariant
            i <= list.len(),
            forall|k: int| 0 <= k < i ==> list.deep_view()[k] != s@,
        decreases list.len() - i,
    {
        if str_equal(list[i].as_str(), s) {
            assert(list.deep_view()[i as int] == s@);
            return true;
        }
        i = i + 1;
    }
    false
}

/// The completion of the command name `prefix` from the names found in the `$PATH`
/// directories: `None` when no name starts with `prefix`; the name and a space when one
/// name does (however often it was found); otherwise the longest common prefix of the
/// names that start with `prefix`.
pub fn complete_command(prefix: &str, names: &Vec<String>) -> (r: Option<String>)
    ensures
        r is None <==> !any_match(names.deep_view(), prefix@),
        r is Some && !several_matches(names.deep_view(), prefix@) ==> forall|i: int|
            0 <= i < names.len() && has_prefix(#[trigger] names.deep_view()[i], prefix@) ==> r->0@
                == names.deep_view()[i] + seq![' '],
        r is Some && several_matches(names.deep_view(), prefix@) ==> {
            &&& common_to_matches(r->0@, names.deep_view(), prefix@)
            &&& forall|q: Seq<char>| #[trigger]
                common_to_matches(q, names.deep_view(), prefix@) ==> q.len() <= r->0@.len()
        },
{
    let ghost nv = names.deep_view();
    let p = chars_of(prefix);
    let mut found: Vec<String> = Vec::new();
    let mut i: usize = 0;
    while i < names.len()
        invariant
            i <= names.len(),
            nv == names.deep_view(),
            p@ == prefix@,
            forall|m: int|
                0 <= m < found.len() ==> has_prefix(#[trigger] found.deep_view()[m], prefix@)
                    && nv.contains(found.deep_view()[m]),
            forall|k: int|
                0 <= k < i && has_prefix(#[trigger] nv[k], prefix@) ==> found.deep_view().contains(
                    nv[k],
                ),
            forall|a: int, b: int|
                0 <= a < b < found.len() ==> found.deep_view()[a] != found.deep_view()[b],
        decreases names.len() - i,
    {
        let name = chars_of(names[i].as_str());
        if starts_with(&name, &p) && !contains_string(&found, names[i].as_str()) {
            let ghost before = found.deep_view();
            found.push(names[i].clone());
            assert(found.deep_view() =~= before.push(nv[i as int]));
            assert(found.deep_view()[before.len() as int] == nv[i as int]);
            assert forall|k: int|
                0 <= k < i + 1 && has_prefix(#[trigger] nv[k], prefix@) implies found.deep_view().contains(
                nv[k],
            ) by {
                if k < i {
                    let m = choose|m: int| 0 <= m < before.len() && before[m] == nv[k];
                    assert(found.deep_view()[m] == nv[k]);
                }
            }
        }
        i = i + 1;
    }
    let ghost fv = found.deep_view();
    if found.len() == 0 {
        assert forall|k: int| 0 <= k < nv.len() implies !has_prefix(#[trigger] nv[k], prefix@) by {
            if has_prefix(nv[k], prefix@) {
                assert(fv.contains(nv[k]));
            }
        }
        return None;
    }
    assert(any_match(nv, prefix@)) by {
        let k = choose|k: int| 0 <= k < nv.len() && nv[k] == fv[0];
        assert(has_prefix(nv[k], prefix@));
    }
    if found.len() == 1 {
        let mut r = found[0].clone();
        push_char(&mut r, ' ');
        assert forall|k: int| 0 <= k < nv.len() && has_prefix(#[trigger] nv[k], prefix@) implies nv[k]
            == fv[0] by {
            assert(fv.contains(nv[k]));
        }
        return Some(r);
    }
    let lcp = longest_common_prefix(&found);
    proof {
        let k0 = choose|k: int| 0 <= k < nv.len() && nv[k] == fv[0];
        let k1 = choose|k: int| 0 <= k < nv.len() && nv[k] == fv[1];
        assert(has_prefix(nv[k0], prefix@) && has_prefix(nv[k1], prefix@) && nv[k0] != nv[k1]);
        assert(several_matches(nv, prefix@));
        assert forall|k: int| 0 <= k < nv.len() && has_prefix(#[trigger] nv[k], prefix@) implies has_prefix(
            nv[k],
            lcp@,
        ) by {
            assert(fv.contains(nv[k]));
            let m = choose|m: int| 0 <= m < fv.len() && fv[m] == nv[k];
            assert(has_prefix(fv[m], lcp@));
        }
        assert forall|q: Seq<char>| #[trigger] common_to_matches(q, nv, prefix@) implies q.len()
            <= lcp@.len() by {
            assert forall|m: int| 0 <= m < fv.len() implies has_prefix(#[trigger] fv[m], q) by {
                let k = choose|k: int| 0 <= k < nv.len() && nv[k] == fv[m];
                assert(has_prefix(nv[k], prefix@));
            }
            assert(is_common_prefix(q, fv));
        }
    }
    Some(lcp)
}

/// The directories of a `$PATH` value, in order: the pieces between its `:`s.
pub fn path_directories(path_var: &str) -> (r: Vec<String>)
    ensures
        r.deep_view() == split_on(path_var@, ':'),
{
    split_string(path_var, ':')
}

// ---------------------------------------------------------------------------
// Completing a path
// ---------------------------------------------------------------------------

/// The path `prefix` with a leading `~` replaced by the home directory, when it is known.
pub open spec fn expand_home(prefix: Seq<char>, home: Option<Seq<char>>) -> Seq<char> {
    if prefix.len() > 0 && prefix[0] == '~' {
        match home {
            Some(h) => h + prefix.skip(1),
            None => prefix,
        }
    } else {
        prefix
    }
}

/// The directory to list and the beginning of the file name to complete, for the
/// expanded path `e`: what precedes its last `/` (`/` itself at the start) and what
/// follows it, or `.` and all of `e` when it has no `/`.
pub open spec fn listing_target(e: Seq<char>) -> (Seq<char>, Seq<char>) {
    let i = last_index(e, '/');
    if i < 0 {
        ("."@, e)
    } else if i == 0 {
        ("/"@, e.skip(1))
    } else {
        (e.take(i), e.skip(i + 1))
    }
}

/// The directory part of the typed path `prefix`, kept as typed (with `~`): everything up
/// to and including its last `/`, or nothing.
pub open spec fn typed_dir(prefix: Seq<char>) -> Seq<char> {
    let i = last_index(prefix, '/');
    if i < 0 {
        Seq::<char>::empty()
    } else {
        prefix.take(i + 1)
    }
}

/// A directory to list and the file name beginning to complete.
pub struct PathTarget {
    pub dir: String,
    pub file_prefix: String,
}

/// The path `prefix` with a leading `~` replaced by the home directory `home`.
fn expanded_path(prefix: &str, home: Option<String>) -> (r: String)
    ensures
        r@ == expand_home(
            prefix@,
            match home {
                Some(h) => Some(h@),
                None => None,
            },
        ),
{
    let p = chars_of(prefix);
    let mut expanded = String::new();
    assert(p@.subrange(0, p@.len() as int) =~= p@);
    if p.len() > 0 && p[0] == '~' {
        match home {
            Some(h) => {
                push_str(&mut expanded, h.as_str());
                push_chars(&mut expanded, &p, 1, p.len());
                assert(p@.subrange(1, p@.len() as int) =~= p@.skip(1));
            },
            None => {
                push_chars(&mut expanded, &p, 0, p.len());
            },
        }
    } else {
        push_chars(&mut expanded, &p, 0, p.len());
    }
    expanded
}

/// Where to look for completions of the path `prefix`, given the home directory `home`.
pub fn path_target(prefix: &str, home: Option<String>) -> (r: PathTarget)
    ensures
        ({
            let t = listing_target(
                expand_home(
                    prefix@,
                    match home {
                        Some(h) => Some(h@),
                        None => None,
                    },
                ),
            );
            r.dir@ == t.0 && r.file_prefix@ == t.1
        }),
{
    let expanded = expanded_path(prefix, home);
    let e = chars_of(expanded.as_str());
    assert(e@.subrange(0, e@.len() as int) =~= e@);
    match last_index_of(&e, '/') {
        None => PathTarget { dir: ".".to_owned(), file_prefix: string_of(&e, 0, e.len()) },
        Some(i) => {
            assert(e@.subrange(i + 1, e@.len() as int) =~= e@.skip(i + 1));
            if i == 0 {
                PathTarget { dir: "/".to_owned(), file_prefix: string_of(&e, 1, e.len()) }
            } else {
                PathTarget { dir: string_of(&e, 0, i), file_prefix: string_of(&e, i + 1, e.len()) }
            }
        },
    }
}

/// The completions offered for the entries `(name, is_dir)` of the listed directory
/// whose names start with `file_prefix`, in order: the typed directory part `dir`, the
/// name, and `/` for a directory or a space for anything else.
pub open spec fn path_candidates(
    dir: Seq<char>,
    file_prefix: Seq<char>,
    entries: Seq<(Seq<char>, bool)>,
) -> Seq<Seq<char>>
    decreases entries.len(),
{
    if entries.len() == 0 {
        Seq::<Seq<char>>::empty()
    } else {
        let rest = path_candidates(dir, file_prefix, entries.drop_last());
        let name = entries.last().0;
        if has_prefix(name, file_prefix) {
            rest.push(
                dir + name + if entries.last().1 {
                    seq!['/']
                } else {
                    seq![' ']
                },
            )
        } else {
            rest
        }
    }
}

proof fn lemma_candidates_start_with(
    dir: Seq<char>,
    file_prefix: Seq<char>,
    entries: Seq<(Seq<char>, bool)>,
)
    ensures
        forall|m: int|
            0 <= m < path_candidates(dir, file_prefix, entries).len() ==> has_prefix(
                #[trigger] path_candidates(dir, file_prefix, entries)[m],
                dir,
            ),
    decreases entries.len(),
{
    if entries.len() > 0 {
        lemma_candidates_start_with(dir, file_prefix, entries.drop_last());
        let rest = path_candidates(dir, file_prefix, entries.drop_last());
        let cands = path_candidates(dir, file_prefix, entries);
        assert forall|m: int| 0 <= m < cands.len() implies has_prefix(#[trigger] cands[m], dir) by {
            if m < rest.len() {
                assert(cands[m] == rest[m]);
            } else {
                let name = entries.last().0;
                let tail = if entries.last().1 {
                    seq!['/']
                } else {
                    seq![' ']
                };
                assert(cands[m] == dir + name + tail);
                assert((dir + name + tail).subrange(0, dir.len() as int) =~= dir);
            }
        }
    }
}

/// A path completion keeps what was typed up to and including the last `/` of the typed
/// path: every candidate starts with it, and it is exactly that part of the typed path
/// (nothing when there is no `/`).
pub proof fn law_completion_keeps_typed_directory(
    prefix: Seq<char>,
    file_prefix: Seq<char>,
    entries: Seq<(Seq<char>, bool)>,
)
    ensures
        forall|i: int|
            0 <= i < prefix.len() && prefix[i] == '/' && (forall|k: int|
                i < k < prefix.len() ==> prefix[k] != '/') ==> #[trigger] typed_dir(prefix)
                == prefix.take(i + 1) && prefix[i] == '/',
        (forall|k: int| 0 <= k < prefix.len() ==> prefix[k] != '/') ==> typed_dir(prefix).len()
            == 0,
        forall|m: int|
            0 <= m < path_candidates(typed_dir(prefix), file_prefix, entries).len() ==> has_prefix(
                #[trigger] path_candidates(typed_dir(prefix), file_prefix, entries)[m],
                typed_dir(prefix),
            ),
{
    assert forall|i: int|
        0 <= i < prefix.len() && prefix[i] == '/' && (forall|k: int|
            i < k < prefix.len() ==> prefix[k] != '/') implies #[trigger] typed_dir(prefix)
        == prefix.take(i + 1) && prefix[i] == '/' by {
        lemma_last_index_at(prefix, '/', i);
    }
    if forall|k: int| 0 <= k < prefix.len() ==> prefix[k] != '/' {
        lemma_last_index_absent(prefix, '/');
    }
    lemma_candidates_start_with(typed_dir(prefix), file_prefix, entries);
}

/// A completion without its trailing `/`s and then its trailing whitespace.
pub open spec fn candidate_stem(c: Seq<char>) -> Seq<char> {
    trim_end(trim_end_char(c, '/'))
}

/// `c` without trailing `/`s and then without trailing whitespace.
fn stem_of(c: &String) -> (r: String)
    ensures
        r@ == candidate_stem(c@),
{
    let v = chars_of(c.as_str());
    let j = skip_char_backward(&v, v.len(), '/');
    let k = skip_ws_backward(&v, 0, j);
    assert(v@.subrange(0, v@.len() as int) =~= v@);
    string_of(&v, 0, k)
}

/// The completion of the typed path `prefix` from the entries `(name, is_dir)` of the
/// listed directory, of which the names starting with `file_prefix` count: `None` when
/// none does; the single completion when one does; otherwise the longest common prefix
/// of the completions, each without its trailing `/` and whitespace.
pub fn complete_path(prefix: &str, file_prefix: &str, entries: &Vec<(String, bool)>) -> (r: Option<
    String,
>)
    ensures
        ({
            let cands = path_candidates(typed_dir(prefix@), file_prefix@, entries.deep_view());
            match r {
                None => cands.len() == 0,
                Some(c) => {
                    &&& cands.len() > 0
                    &&& cands.len() == 1 ==> c@ == cands[0]
                    &&& cands.len() > 1 ==> is_longest_common_prefix(
                        c@,
                        cands.map_values(|x: Seq<char>| candidate_stem(x)),
                    )
                },
            }
        }),
{
    let p = chars_of(prefix);
    let fp = chars_of(file_prefix);
    let dir_end = match last_index_of(&p, '/') {
        Some(i) => {
            assert(i < p.len());
            i + 1
        },
        None => 0,
    };
    assert(p@.subrange(0, dir_end as int) =~= typed_dir(prefix@));
    let ghost ev = entries.deep_view();
    let mut found: Vec<String> = Vec::new();
    let mut i: usize = 0;
    while i < entries.len()
        invariant
            i <= entries.len(),
            ev == entries.deep_view(),
            dir_end <= p.len(),
            p@.subrange(0, dir_end as int) == typed_dir(prefix@),
            fp@ == file_prefix@,
            found.deep_view() == path_candidates(typed_dir(prefix@), file_prefix@, ev.take(i as int)),
        decreases entries.len() - i,
    {
        let name = chars_of(entries[i].0.as_str());
        assert(ev.take(i + 1).drop_last() =~= ev.take(i as int));
        assert(ev.take(i + 1).last() == ev[i as int]);
        if starts_with(&name, &fp) {
            let mut full = String::new();
            push_chars(&mut full, &p, 0, dir_end);
            push_str(&mut full, entries[i].0.as_str());
            if entries[i].1 {
                push_char(&mut full, '/');
            } else {
                push_char(&mut full, ' ');
            }
            let ghost before = found.deep_view();
            found.push(full);
            assert(found.deep_view() =~= before.push(full@));
            assert(full@ =~= typed_dir(prefix@) + ev[i as int].0 + if ev[i as int].1 {
                seq!['/']
            } else {
                seq![' ']
            });
        }
        i = i + 1;
    }
    assert(ev.take(entries.len() as int) =~= ev);
    if found.len() == 0 {
        return None;
    }
    if found.len() == 1 {
        return Some(found.remove(0));
    }
    let ghost cands = found.deep_view();
    let mut stems: Vec<String> = Vec::new();
    let mut k: usize = 0;
    while k < found.len()
        invariant
            k <= found.len(),
            cands == found.deep_view(),
            stems.len() == k,
            forall|m: int| 0 <= m < k ==> (#[trigger] stems.deep_view()[m]) == candidate_stem(
                cands[m],
            ),
        decreases found.len() - k,
    {
        let s = stem_of(&found[k]);
        let ghost before = stems.deep_view();
        stems.push(s);
        assert(stems.deep_view() =~= before.push(s@));
        k = k + 1;
    }
    assert(stems.deep_view() =~= cands.map_values(|x: Seq<char>| candidate_stem(x)));
    Some(longest_common_prefix(&stems))
}

} // verus!

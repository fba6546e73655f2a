//! The command history of the run dialog: the history file's format, and moving
//! through earlier commands with the arrow keys.
use vstd::prelude::*;

use crate::text::{
    chars_of, lemma_split_concat, lemma_split_first_piece, lemma_split_no_sep, push_char,
    push_str, split_on, string_of, trim, trim_bounds,
};

verus! {

// ---------------------------------------------------------------------------
// The history file
// ---------------------------------------------------------------------------

/// A line of the history file: the text between two newlines, without the `\r` of a
/// `\r\n` line ending.
pub open spec fn line_text(piece: Seq<char>) -> Seq<char> {
    if piece.len() > 0 && piece.last() == '\r' {
        piece.drop_last()
    } else {
        piece
    }
}

/// The lines of a file's text `c`, as `str::lines` reads them (where the text ends with
/// a newline, this gives one more, empty, line).
pub open spec fn file_lines(c: Seq<char>) -> Seq<Seq<char>> {
    let pieces = split_on(c, '\n');
    pieces.drop_last().map_values(|p: Seq<char>| line_text(p)).push(pieces.last())
}

/// The non-empty lines of `ls`, in order.
pub open spec fn keep_nonempty(ls: Seq<Seq<char>>) -> Seq<Seq<char>>
    decreases ls.len(),
{
    if ls.len() == 0 {
        ls
    } else {
        let kept = keep_nonempty(ls.drop_last());
        if ls.last().len() > 0 {
            kept.push(ls.last())
        } else {
            kept
        }
    }
}

/// The commands that the history file with text `c` holds, newest first: the file
/// holds one command per line, oldest first, and empty lines are skipped.
pub open spec fn history_entries(c: Seq<char>) -> Seq<Seq<char>> {
    keep_nonempty(file_lines(c)).reverse()
}

/// The line that records `command` at the end of the history file.
pub open spec fn history_record(command: Seq<char>) -> Seq<char> {
    command + seq!['\n']
}

proof fn lemma_keep_push(ls: Seq<Seq<char>>, l: Seq<char>)
    ensures
        keep_nonempty(ls.push(l)) == if l.len() > 0 {
            keep_nonempty(ls).push(l)
        } else {
            keep_nonempty(ls)
        },
{
    assert(ls.push(l).drop_last() =~= ls);
}

/// The commands held by the history file with text `contents`, newest first.
pub fn parse_history(contents: &str) -> (r: Vec<String>)
    ensures
        r.deep_view() == history_entries(contents@),
{
    let v = chars_of(contents);
    let mut oldest_first: Vec<String> = Vec::new();
    let mut start: usize = 0;
    let mut i: usize = 0;
    let ghost mut done: Seq<Seq<char>> = Seq::empty();
    assert(v@.skip(0) =~= v@);
    while i < v.len()
        invariant
            start <= i <= v.len(),
            v@ == contents@,
            split_on(v@, '\n') == done + split_on(v@.skip(start as int), '\n'),
            !v@.subrange(start as int, i as int).contains('\n'),
            oldest_first.deep_view() == keep_nonempty(
                done.map_values(|p: Seq<char>| line_text(p)),
            ),
        decreases v.len() - i,
    {
        if v[i] == '\n' {
            let ghost piece = v@.subrange(start as int, i as int);
            proof {
                lemma_split_first_piece(piece, '\n', v@.skip(i + 1));
                assert(v@.skip(start as int) =~= piece + seq!['\n'] + v@.skip(i + 1));
                assert(done.push(piece).map_values(|p: Seq<char>| line_text(p)) =~= done.map_values(
                    |p: Seq<char>| line_text(p),
                ).push(line_text(piece)));
                lemma_keep_push(done.map_values(|p: Seq<char>| line_text(p)), line_text(piece));
            }
            let end = if i > start && v[i - 1] == '\r' {
                i - 1
            } else {
                i
            };
            assert(v@.subrange(start as int, end as int) =~= line_text(piece));
            if end > start {
                let line = string_of(&v, start, end);
                let ghost before = oldest_first.deep_view();
                oldest_first.push(line);
                assert(oldest_first.deep_view() =~= before.push(line@));
            }
            proof {
                assert(split_on(v@, '\n') =~= done.push(piece) + split_on(v@.skip(i + 1), '\n'));
                done = done.push(piece);
            }
            start = i + 1;
            assert(v@.subrange(start as int, start as int) =~= Seq::<char>::empty());
        } else {
            assert(v@.subrange(start as int, i + 1) =~= v@.subrange(start as int, i as int).push(
                v@[i as int],
            ));
        }
        i = i + 1;
    }
    let ghost last = v@.skip(start as int);
    proof {
        assert(last =~= v@.subrange(start as int, i as int));
        lemma_split_no_sep(last, '\n');
        let pieces = split_on(v@, '\n');
        assert(pieces =~= done.push(last));
        assert(pieces.drop_last() =~= done);
        assert(file_lines(v@) =~= done.map_values(|p: Seq<char>| line_text(p)).push(last));
        lemma_keep_push(done.map_values(|p: Seq<char>| line_text(p)), last);
    }
    if start < v.len() {
        let line = string_of(&v, start, v.len());
        let ghost before = oldest_first.deep_view();
        oldest_first.push(line);
        assert(oldest_first.deep_view() =~= before.push(line@));
    }
    let ghost kept = oldest_first.deep_view();
    let mut r: Vec<String> = Vec::new();
    let mut rest = oldest_first;
    while rest.len() > 0
        invariant
            kept.len() == r.len() + rest.len(),
            rest.deep_view() == kept.take(rest.len() as int),
            r.deep_view() == kept.reverse().take(r.len() as int),
        decreases rest.len(),
    {
        let ghost n = rest.len();
        let ghost before = r.deep_view();
        let ghost old_rest = rest@;
        assert(rest.deep_view()[n - 1] == kept[n - 1]);
        match rest.pop() {
            Some(line) => {
                assert(line == old_rest[n - 1]);
                assert(line@ == kept[n - 1]);
                r.push(line);
                assert(r.deep_view() =~= kept.reverse().take(r.len() as int));
                assert(rest.deep_view() =~= kept.take(rest.len() as int));
            },
            None => {},
        }
    }
    assert(kept.reverse().take(r.len() as int) =~= kept.reverse());
    r
}

/// The text appended to the history file to record `command`: the command and a newline.
pub fn history_line(command: &str) -> (r: String)
    ensures
        r@ == history_record(command@),
{
    let mut r = String::new();
    push_str(&mut r, command);
    push_char(&mut r, '\n');
    assert(r@ =~= command@ + seq!['\n']);
    r
}

/// A history file that is empty or ends with a newline splits into lines whose last is empty.
proof fn lemma_split_ends_empty(c: Seq<char>)
    requires
        c.len() == 0 || c.last() == '\n',
    ensures
        split_on(c, '\n').last() == Seq::<char>::empty(),
{
    if c.len() > 0 {
        let a = c.drop_last();
        lemma_split_first_piece(Seq::<char>::empty(), '\n', Seq::<char>::empty());
        assert(Seq::<char>::empty() + seq!['\n'] + Seq::<char>::empty() =~= seq!['\n']);
        lemma_split_concat(a, seq!['\n'], '\n');
        assert(a + seq!['\n'] =~= c);
    }
}

/// Recording a command in the history file makes it the newest history entry, with the
/// older entries after it: for a file that is empty or ends with a newline, and a
/// non-empty command without newlines that does not end with `\r`.
pub proof fn law_recorded_command_is_newest(c: Seq<char>, command: Seq<char>)
    requires
        c.len() == 0 || c.last() == '\n',
        command.len() > 0,
        !command.contains('\n'),
        command.last() != '\r',
    ensures
        history_entries(c + history_record(command)) == seq![command] + history_entries(c),
{
    let s = split_on(c, '\n');
    lemma_split_ends_empty(c);
    lemma_split_first_piece(command, '\n', Seq::<char>::empty());
    assert(command + seq!['\n'] + Seq::<char>::empty() =~= history_record(command));
    lemma_split_concat(c, history_record(command), '\n');
    let b = split_on(history_record(command), '\n');
    assert(b =~= seq![command, Seq::<char>::empty()]);
    let s2 = split_on(c + history_record(command), '\n');
    assert(Seq::<char>::empty() + command =~= command);
    assert(s2 =~= s.drop_last().push(command).push(Seq::<char>::empty()));
    let x = s.drop_last().map_values(|p: Seq<char>| line_text(p));
    assert(s2.drop_last() =~= s.drop_last().push(command));
    assert(s2.drop_last().map_values(|p: Seq<char>| line_text(p)) =~= x.push(command));
    assert(file_lines(c + history_record(command)) =~= x.push(command).push(
        Seq::<char>::empty(),
    ));
    assert(file_lines(c) =~= x.push(Seq::<char>::empty()));
    lemma_keep_push(x.push(command), Seq::<char>::empty());
    lemma_keep_push(x, command);
    lemma_keep_push(x, Seq::<char>::empty());
    let k = keep_nonempty(x);
    assert(k.push(command).reverse() =~= seq![command] + k.reverse());
}

/// The command that the run dialog's text stands for: the text without surrounding
/// whitespace, or `None` when nothing is left.
pub fn command_to_run(text: &str) -> (r: Option<String>)
    ensures
        match r {
            Some(c) => c@ == trim(text@) && c@.len() > 0,
            None => trim(text@).len() == 0,
        },
{
    let v = chars_of(text);
    let (i, j) = trim_bounds(&v);
    if i == j {
        None
    } else {
        Some(string_of(&v, i, j))
    }
}

// ---------------------------------------------------------------------------
// Moving through the history
// ---------------------------------------------------------------------------

/// What the run dialog's entry does after an arrow key.
#[derive(Debug)]
pub enum HistoryStep {
    /// Show this command, with the cursor at its end, and announce it.
    Show(String),
    /// Move the cursor to the start of the line.
    CursorToStart,
    /// Nothing changes.
    Nothing,
}

/// A `HistoryStep` as a value of the specification.
pub enum StepView {
    Show(Seq<char>),
    CursorToStart,
    Nothing,
}

pub open spec fn step_view(s: HistoryStep) -> StepView {
    match s {
        HistoryStep::Show(t) => StepView::Show(t@),
        HistoryStep::CursorToStart => StepView::CursorToStart,
        HistoryStep::Nothing => StepView::Nothing,
    }
}

/// The position in a history of `len` entries after Down (towards older commands) from
/// `current`: one further, unless at the oldest.
pub open spec fn older_position(len: nat, current: nat) -> nat {
    if current + 1 < len {
        current + 1
    } else {
        current
    }
}

/// The position after Up (towards newer commands) from `current`: one nearer, unless at
/// the newest.
pub open spec fn newer_position(current: nat) -> nat {
    if current == 0 {
        0
    } else {
        (current - 1) as nat
    }
}

/// The command history, newest first, and the position of the command shown.
pub struct HistoryBrowser {
    entries: Vec<String>,
    position: Option<usize>,
}

/// The state of a `HistoryBrowser`: its entries and its position (`None` while there
/// are no entries).
pub struct BrowserView {
    pub entries: Seq<Seq<char>>,
    pub position: Option<nat>,
}

impl View for HistoryBrowser {
    type V = BrowserView;

    closed spec fn view(&self) -> BrowserView {
        BrowserView {
            entries: self.entries.deep_view(),
            position: match self.position {
                Some(p) => Some(p as nat),
                None => None,
            },
        }
    }
}

/// The position is set exactly when there are entries, and lies among them.
pub open spec fn browser_wf(b: BrowserView) -> bool {
    &&& b.position is Some <==> b.entries.len() > 0
    &&& b.position matches Some(p) ==> p < b.entries.len()
}

impl HistoryBrowser {
    #[verifier::type_invariant]
    spec fn position_in_range(self) -> bool {
        &&& self.position is Some <==> self.entries.len() > 0
        &&& self.position matches Some(p) ==> p < self.entries.len()
    }

    /// A browser over `entries` (newest first), placed at the newest command.
    pub fn new(entries: Vec<String>) -> (r: Self)
        ensures
            r@.entries == entries.deep_view(),
            r@.position == (if entries.len() > 0 {
                Some(0nat)
            } else {
                None
            }),
            browser_wf(r@),
    {
        let position = if entries.len() > 0 {
            Some(0)
        } else {
            None
        };
        HistoryBrowser { entries, position }
    }

    /// The position stays among the entries.
    pub fn position(&self) -> (r: Option<usize>)
        ensures
            browser_wf(self@),
            match r {
                Some(p) => self@.position == Some(p as nat),
                None => self@.position is None,
            },
    {
        proof {
            use_type_invariant(self);
        }
        self.position
    }

    /// The command at the current position: the one the entry is pre-filled with.
    pub fn current(&self) -> (r: Option<&str>)
        ensures
            match r {
                Some(t) => self@.position matches Some(p) && t@ == self@.entries[p as int],
                None => self@.position is None,
            },
    {
        proof {
            use_type_invariant(self);
        }
        match self.position {
            Some(p) => Some(self.entries[p].as_str()),
            None => None,
        }
    }

    /// Down: moves to the next older command and shows it; at the oldest command, or
    /// with no history, nothing changes.
    pub fn older(&mut self) -> (r: HistoryStep)
        ensures
            browser_wf(final(self)@),
            final(self)@.entries == old(self)@.entries,
            match old(self)@.position {
                None => final(self)@.position is None && step_view(r) == StepView::Nothing,
                Some(p) => {
                    let next = older_position(old(self)@.entries.len(), p);
                    &&& final(self)@.position == Some(next)
                    &&& step_view(r) == if next != p {
                        StepView::Show(old(self)@.entries[next as int])
                    } else {
                        StepView::Nothing
                    }
                },
            },
    {
        proof {
            use_type_invariant(&*self);
        }
        match self.position {
            None => HistoryStep::Nothing,
            Some(p) => {
                if p + 1 < self.entries.len() {
                    let next = p + 1;
                    self.position = Some(next);
                    let shown = self.entries[next].clone();
                    HistoryStep::Show(shown)
                } else {
                    HistoryStep::Nothing
                }
            },
        }
    }

    /// Up: moves to the next newer command and shows it; at the newest command, the
    /// cursor moves to the start of the line instead.
    pub fn newer(&mut self) -> (r: HistoryStep)
        ensures
            browser_wf(final(self)@),
            final(self)@.entries == old(self)@.entries,
            match old(self)@.position {
                None => final(self)@.position is None && step_view(r) == StepView::CursorToStart,
                Some(p) => {
                    &&& final(self)@.position == Some(newer_position(p))
                    &&& step_view(r) == if p == 0 {
                        StepView::CursorToStart
                    } else {
                        StepView::Show(old(self)@.entries[newer_position(p) as int])
                    }
                },
            },
    {
        proof {
            use_type_invariant(&*self);
        }
        match self.position {
            None => HistoryStep::CursorToStart,
            Some(p) => {
                if p == 0 {
                    HistoryStep::CursorToStart
                } else {
                    let next = p - 1;
                    self.position = Some(next);
                    let shown = self.entries[next].clone();
                    HistoryStep::Show(shown)
                }
            },
        }
    }
}

/// Down then Up returns to the command shown before, unless Down was at the oldest.
pub proof fn law_older_then_newer(len: nat, p: nat)
    requires
        p + 1 < len,
    ensures
        newer_position(older_position(len, p)) == p,
{
}

/// Up then Down returns to the command shown before, unless Up was at the newest.
pub proof fn law_newer_then_older(len: nat, p: nat)
    requires
        0 < p < len,
    ensures
        older_position(len, newer_position(p)) == p,
{
}

} // verus!

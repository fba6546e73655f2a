//! Turning a desktop entry's `Exec` string into the program and arguments to start.
use vstd::prelude::*;

use crate::text::{chars_of, string_of, trim, trim_bounds};

verus! {

// ---------------------------------------------------------------------------
// Field codes
// ---------------------------------------------------------------------------

/// The letters that form a freedesktop field code after `%`:
/// `%f %F %u %U %d %D %n %N %i %c %k %v %m`.
pub open spec fn is_field_code(c: char) -> bool {
    ||| c == 'f'
    ||| c == 'F'
    ||| c == 'u'
    ||| c == 'U'
    ||| c == 'd'
    ||| c == 'D'
    ||| c == 'n'
    ||| c == 'N'
    ||| c == 'i'
    ||| c == 'c'
    ||| c == 'k'
    ||| c == 'v'
    ||| c == 'm'
}

/// Whether `c` is a field code letter.
pub fn is_field_code_letter(c: char) -> (b: bool)
    ensures
        b == is_field_code(c),
{
    c == 'f' || c == 'F' || c == 'u' || c == 'U' || c == 'd' || c == 'D' || c == 'n' || c == 'N'
        || c == 'i' || c == 'c' || c == 'k' || c == 'v' || c == 'm'
}

/// `s` read from left to right with every field code removed, together with one
/// space that directly follows it. A `%` that is not followed by a field code letter
/// stays, and the character after it is read afresh.
pub open spec fn strip_codes(s: Seq<char>) -> Seq<char>
    decreases s.len(),
{
    if s.len() == 0 {
        Seq::<char>::empty()
    } else if s[0] == '%' && s.len() >= 2 && is_field_code(s[1]) {
        if s.len() >= 3 && s[2] == ' ' {
            strip_codes(s.skip(3))
        } else {
            strip_codes(s.skip(2))
        }
    } else {
        seq![s[0]] + strip_codes(s.drop_first())
    }
}

/// Remove freedesktop field codes (%f, %F, %u, %U, %d, %D, %n, %N, %i, %c, %k, %v, %m)
/// from an Exec string, then trim surrounding whitespace.
pub fn strip_field_codes(exec: &str) -> (r: String)
    ensures
        r@ == trim(strip_codes(exec@)),
{
    let v = chars_of(exec);
    let mut out: Vec<char> = Vec::new();
    let mut i: usize = 0;
    assert(v@.skip(0) =~= v@);
    while i < v.len()
        invariant
            i <= v.len(),
            out@ + strip_codes(v@.skip(i as int)) == strip_codes(v@),
        decreases v.len() - i,
    {
        let ghost rest = v@.skip(i as int);
        if v[i] == '%' && i + 1 < v.len() && is_field_code_letter(v[i + 1]) {
            if i + 2 < v.len() && v[i + 2] == ' ' {
                assert(rest.skip(3) =~= v@.skip(i + 3));
                i = i + 3;
            } else {
                assert(rest.skip(2) =~= v@.skip(i + 2));
                i = i + 2;
            }
        } else {
            assert(rest.drop_first() =~= v@.skip(i + 1));
            assert(out@.push(v@[i as int]) + strip_codes(v@.skip(i + 1)) =~= out@ + (seq![
                v@[i as int],
            ] + strip_codes(v@.skip(i + 1))));
            out.push(v[i]);
            i = i + 1;
        }
    }
    assert(v@.skip(i as int) =~= Seq::<char>::empty());
    assert(out@ + Seq::<char>::empty() =~= out@);
    let (a, b) = trim_bounds(&out);
    string_of(&out, a, b)
}

/// A string without `%` has no field codes to remove.
pub proof fn lemma_strip_codes_without_percent(s: Seq<char>)
    requires
        !s.contains('%'),
    ensures
        strip_codes(s) == s,
    decreases s.len(),
{
    if s.len() > 0 {
        assert(s[0] != '%');
        assert(!s.drop_first().contains('%')) by {
            if s.drop_first().contains('%') {
                let k = choose|k: int| 0 <= k < s.drop_first().len() && s.drop_first()[k] == '%';
                assert(s[k + 1] == '%');
            }
        }
        lemma_strip_codes_without_percent(s.drop_first());
        assert(s =~= seq![s[0]] + s.drop_first());
    }
}

/// An Exec string without `%` is only trimmed.
pub proof fn law_strip_without_codes(exec: Seq<char>)
    requires
        !exec.contains('%'),
    ensures
        trim(strip_codes(exec)) == trim(exec),
{
    lemma_strip_codes_without_percent(exec);
}

// ---------------------------------------------------------------------------
// Splitting into words
// ---------------------------------------------------------------------------

/// What `shell_words::split` returns for a line with characters `line`: the words it
/// splits into, or `None` where it reports a missing closing quote.
pub uninterp spec fn shell_split(line: Seq<char>) -> Option<Seq<Seq<char>>>;

#[verifier::external_type_specification]
#[verifier::external_body]
pub struct ExShellParseError(shell_words::ParseError);

/// `shell_words::split`: splits `line` into words in the manner of a Unix shell.
/// Claimed: the outcome is a function of the characters of `line` (named
/// `shell_split`), and an empty line splits into no words, as the source's first
/// state shows (no character: stop with the empty list).
#[verifier::external_body]
fn split_words(line: &str) -> (r: Result<Vec<String>, shell_words::ParseError>)
    ensures
        r is Ok <==> shell_split(line@) is Some,
        r is Ok ==> shell_split(line@) == Some(r->Ok_0.deep_view()),
        line@.len() == 0 ==> r is Ok && r->Ok_0.len() == 0,
{
    shell_words::split(line)
}

// ---------------------------------------------------------------------------
// The command to start
// ---------------------------------------------------------------------------

/// Why an Exec string gives no command to start.
#[derive(Debug, Clone, Copy, PartialEq, Eq, Structural)]
pub enum LaunchError {
    /// The Exec string has an unmatched quote.
    Unparsable,
    /// The Exec string holds no word once its field codes are removed.
    Empty,
}

/// A program and the arguments to start it with.
pub struct LaunchCommand {
    pub program: String,
    pub args: Vec<String>,
}

impl View for LaunchCommand {
    type V = (Seq<char>, Seq<Seq<char>>);

    open spec fn view(&self) -> (Seq<char>, Seq<Seq<char>>) {
        (self.program@, self.args.deep_view())
    }
}

/// The terminal emulator used when the `TERMINAL` variable is not set.
pub open spec fn default_terminal() -> Seq<char> {
    "xdg-terminal-exec"@
}

/// The command that starts the words `words`, directly or, for `terminal`, inside the
/// terminal emulator `terminal_program` (or the default one) with `-e`.
pub open spec fn command_for(
    words: Seq<Seq<char>>,
    terminal: bool,
    terminal_program: Option<Seq<char>>,
) -> Result<(Seq<char>, Seq<Seq<char>>), LaunchError> {
    if words.len() == 0 {
        Err(LaunchError::Empty)
    } else if terminal {
        let program = match terminal_program {
            Some(p) => p,
            None => default_terminal(),
        };
        Ok((program, seq!["-e"@] + words))
    } else {
        Ok((words[0], words.drop_first()))
    }
}

/// The command that starts the Exec string `exec`.
pub open spec fn command_for_exec(
    exec: Seq<char>,
    terminal: bool,
    terminal_program: Option<Seq<char>>,
) -> Result<(Seq<char>, Seq<Seq<char>>), LaunchError> {
    match shell_split(trim(strip_codes(exec))) {
        None => Err(LaunchError::Unparsable),
        Some(words) => command_for(words, terminal, terminal_program),
    }
}

/// `r` is the executable form of the outcome `o`.
pub open spec fn outcome_is(
    r: Result<LaunchCommand, LaunchError>,
    o: Result<(Seq<char>, Seq<Seq<char>>), LaunchError>,
) -> bool {
    match r {
        Ok(c) => o == Ok::<(Seq<char>, Seq<Seq<char>>), LaunchError>(c@),
        Err(e) => o == Err::<(Seq<char>, Seq<Seq<char>>), LaunchError>(e),
    }
}

/// The command that starts the already split `words`: the first word with the rest as
/// arguments, or, when `terminal` is set, the terminal emulator `terminal_program`
/// (`xdg-terminal-exec` when it is `None`) with `-e` and all the words.
pub fn command_from_words(words: Vec<String>, terminal: bool, terminal_program: Option<String>) -> (r:
    Result<LaunchCommand, LaunchError>)
    ensures
        outcome_is(
            r,
            command_for(
                words.deep_view(),
                terminal,
                match terminal_program {
                    Some(p) => Some(p@),
                    None => None,
                },
            ),
        ),
        words.len() == 0 <==> r is Err,
        r is Ok && terminal ==> {
            let args = r->Ok_0.args.deep_view();
            &&& args.len() == words.len() + 1
            &&& args[0] == "-e"@
            &&& forall|k: int| 0 <= k < words.len() ==> args[k + 1] == words.deep_view()[k]
        },
        r is Ok && !terminal ==> {
            let args = r->Ok_0.args.deep_view();
            &&& r->Ok_0.program@ == words.deep_view()[0]
            &&& args.len() + 1 == words.len()
            &&& forall|k: int| 0 <= k < args.len() ==> args[k] == words.deep_view()[k + 1]
        },
{
    if words.len() == 0 {
        return Err(LaunchError::Empty);
    }
    if terminal {
        let program = match terminal_program {
            Some(p) => p,
            None => "xdg-terminal-exec".to_owned(),
        };
        let mut args: Vec<String> = Vec::new();
        args.push("-e".to_owned());
        let ghost wv = words.deep_view();
        let mut words = words;
        args.append(&mut words);
        assert(args.deep_view() =~= seq!["-e"@] + wv);
        Ok(LaunchCommand { program, args })
    } else {
        let mut words = words;
        let ghost all = words.deep_view();
        let program = words.remove(0);
        assert(words.deep_view() =~= all.drop_first());
        Ok(LaunchCommand { program, args: words })
    }
}

/// The command that starts a desktop entry's Exec string: its field codes are removed,
/// the rest is split into words as a shell would, and the words are started directly or,
/// when `terminal` is set, inside the terminal emulator `terminal_program`
/// (`xdg-terminal-exec` when it is `None`).
pub fn launch_command(exec: &str, terminal: bool, terminal_program: Option<String>) -> (r: Result<
    LaunchCommand,
    LaunchError,
>)
    ensures
        outcome_is(
            r,
            command_for_exec(
                exec@,
                terminal,
                match terminal_program {
                    Some(p) => Some(p@),
                    None => None,
                },
            ),
        ),
        trim(strip_codes(exec@)).len() == 0 ==> r == Err::<LaunchCommand, LaunchError>(
            LaunchError::Empty,
        ),
{
    let cleaned = strip_field_codes(exec);
    match split_words(cleaned.as_str()) {
        Err(_) => Err(LaunchError::Unparsable),
        Ok(words) => command_from_words(words, terminal, terminal_program),
    }
}

/// A terminal launch starts the terminal emulator with `-e` followed by every word of the
/// command, in order; a direct launch starts the first word with all the others as its
/// arguments, in order.
pub proof fn law_command_keeps_every_word(
    words: Seq<Seq<char>>,
    terminal: bool,
    terminal_program: Option<Seq<char>>,
)
    requires
        words.len() > 0,
    ensures
        command_for(words, terminal, terminal_program) is Ok,
        terminal ==> {
            let args = command_for(words, terminal, terminal_program)->Ok_0.1;
            &&& args.len() == words.len() + 1
            &&& args[0] == "-e"@
            &&& forall|k: int| 0 <= k < words.len() ==> args[k + 1] == words[k]
        },
        !terminal ==> {
            let (program, args) = command_for(words, terminal, terminal_program)->Ok_0;
            &&& program == words[0]
            &&& args.len() + 1 == words.len()
            &&& forall|k: int| 0 <= k < args.len() ==> args[k] == words[k + 1]
        },
{
}

} // verus!

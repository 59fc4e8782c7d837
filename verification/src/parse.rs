//! Reading a solution from text: one command on each line that is neither
//! empty nor a comment.

use vstd::prelude::*;
use crate::command::{
    is_valid, valid_command, Command, Output, ACCEL_MAX2, ARG_MAX, ARG_MIN, SENSE_MAX2,
};
use crate::problem::{Input, MAX_T};
use crate::text::{
    chars_of, i64_literal, next_token, parse_i64, part, token_at, token_rest, token_text,
};

verus! {

/// Why a text was rejected.
#[derive(Clone, Copy, Debug, PartialEq, Eq, Structural)]
pub enum ParseError {
    /// A number of a command is outside its bounds: a coordinate beyond
    /// 100000, an acceleration or a sensing direction that is too long, or a
    /// sensing direction of zero.
    OutOfRange,
    /// A token that should be a number is none.
    ParseError,
    /// A token is missing: a line of a solution holds fewer than three, or
    /// an instance ends early.
    UnexpectedEnd,
    /// The first token of a line is neither `A` nor `S`.
    InvalidAction,
    /// The solution holds more than 5000 commands.
    TooManyActions,
}

/// What [`read`] returns for a token, if there is one, and the bounds `lo`
/// and `hi`, both included.
pub open spec fn read_int(tok: Option<Seq<char>>, lo: i64, hi: i64) -> Result<i64, ParseError> {
    match tok {
        None => Err(ParseError::UnexpectedEnd),
        Some(t) => match i64_literal(t) {
            None => Err(ParseError::ParseError),
            Some(v) => if lo <= v <= hi {
                Ok(v)
            } else {
                Err(ParseError::OutOfRange)
            },
        },
    }
}

/// The letter that a first token writes: `A` or `S`; `None` for every other
/// token.
pub open spec fn action(tok: Seq<char>) -> Option<char> {
    if tok.len() == 1 && (tok[0] == 'A' || tok[0] == 'S') {
        Some(tok[0])
    } else {
        None
    }
}

/// The view of an optional token.
pub open spec fn token_view(token: Option<&[char]>) -> Option<Seq<char>> {
    match token {
        None => None,
        Some(t) => Some(t@),
    }
}

/// Reads an integer from a token and holds it to the bounds `lo` and `hi`,
/// both included.
pub fn read(token: Option<&[char]>, lo: i64, hi: i64) -> (r: Result<i64, ParseError>)
    ensures
        r == read_int(token_view(token), lo, hi),
{
    match token {
        None => Err(ParseError::UnexpectedEnd),
        Some(t) => match parse_i64(t) {
            None => Err(ParseError::ParseError),
            Some(v) => if lo <= v && v <= hi {
                Ok(v)
            } else {
                Err(ParseError::OutOfRange)
            },
        },
    }
}

/// Reads the letter of a command from the first token of a line.
pub fn action_of(token: &[char]) -> (r: Option<char>)
    ensures
        r == action(token@),
{
    if token.len() == 1 && (token[0] == 'A' || token[0] == 'S') {
        Some(token[0])
    } else {
        None
    }
}

/// The rules on a command whose letter and coordinates were read: the
/// letter is `A` or `S`, and the vector is no longer than the letter allows
/// and, for `S`, not zero.
pub open spec fn checked(c: Command) -> Result<Command, ParseError> {
    let len2 = c.1 * c.1 + c.2 * c.2;
    if c.0 != 'A' && c.0 != 'S' {
        Err(ParseError::InvalidAction)
    } else if c.0 == 'A' && len2 > ACCEL_MAX2 {
        Err(ParseError::OutOfRange)
    } else if c.0 == 'S' && (len2 > SENSE_MAX2 || (c.1 == 0 && c.2 == 0)) {
        Err(ParseError::OutOfRange)
    } else {
        Ok(c)
    }
}

/// The command that a line writes with its first three tokens: a letter and
/// two integers. What follows them on the line is not read. The numbers are
/// read before the letter is judged.
pub open spec fn line_tokens(line: Seq<char>) -> Result<Command, ParseError> {
    let t1 = token_at(line, 0);
    let t2 = token_at(line, token_rest(line, t1));
    let t3 = token_at(line, token_rest(line, t2));
    match token_text(line, t1) {
        None => Err(ParseError::UnexpectedEnd),
        Some(first) => match read_int(token_text(line, t2), ARG_MIN, ARG_MAX) {
            Err(e) => Err(e),
            Ok(x) => match read_int(token_text(line, t3), ARG_MIN, ARG_MAX) {
                Err(e) => Err(e),
                Ok(y) => match action(first) {
                    None => Err(ParseError::InvalidAction),
                    Some(a) => checked((a, x, y)),
                },
            },
        },
    }
}

/// What a line holds: nothing where it is empty or begins with `#`, else its
/// command or the reason why it has none.
pub open spec fn line_command(line: Seq<char>) -> Result<Option<Command>, ParseError> {
    if line.len() == 0 || line[0] == '#' {
        Ok(None)
    } else {
        match line_tokens(line) {
            Err(e) => Err(e),
            Ok(c) => Ok(Some(c)),
        }
    }
}

/// The position of the first line feed at or after `i`, or the length of the
/// text.
pub open spec fn line_end(text: Seq<char>, i: int) -> int
    decreases text.len() - i,
{
    if 0 <= i < text.len() && text[i] != '\n' {
        line_end(text, i + 1)
    } else {
        i
    }
}

/// The line that begins at position `i`: the text up to the next line feed,
/// without the carriage return that may stand before that line feed.
pub open spec fn line_at(text: Seq<char>, i: int) -> Seq<char> {
    let e = line_end(text, i);
    if e < text.len() && i < e && text[e - 1] == '\r' {
        text.subrange(i, e - 1)
    } else {
        text.subrange(i, e)
    }
}

/// `cmds`, then what `rest` holds; the error of `rest` where it has one.
pub open spec fn after(cmds: Seq<Command>, rest: Result<Seq<Command>, ParseError>) -> Result<
    Seq<Command>,
    ParseError,
> {
    match rest {
        Err(e) => Err(e),
        Ok(more) => Ok(cmds + more),
    }
}

/// The commands of the lines from position `i` on, in order, or the error of
/// the first line that has one.
pub open spec fn commands_from(text: Seq<char>, i: int) -> Result<Seq<Command>, ParseError>
    decreases text.len() + 1 - i,
{
    if !(0 <= i < text.len()) {
        Ok(Seq::empty())
    } else {
        proof {
            lemma_line_end(text, i);
        }
        match line_command(line_at(text, i)) {
            Err(e) => Err(e),
            Ok(None) => commands_from(text, line_end(text, i) + 1),
            Ok(Some(c)) => after(seq![c], commands_from(text, line_end(text, i) + 1)),
        }
    }
}

/// A line ends at or after the position where it begins, within the text
/// where it begins within the text.
pub proof fn lemma_line_end(text: Seq<char>, i: int)
    ensures
        i <= line_end(text, i),
        i <= text.len() ==> line_end(text, i) <= text.len(),
    decreases text.len() - i,
{
    if 0 <= i < text.len() && text[i] != '\n' {
        lemma_line_end(text, i + 1);
    }
}

/// The solution that a text writes: the commands of its lines, unless a line
/// is in error or there are more than 5000 commands.
pub open spec fn solution(text: Seq<char>) -> Result<Seq<Command>, ParseError> {
    match commands_from(text, 0) {
        Err(e) => Err(e),
        Ok(cmds) => if cmds.len() > MAX_T {
            Err(ParseError::TooManyActions)
        } else {
            Ok(cmds)
        },
    }
}

/// A command that passes the rules is valid, if its coordinates are within
/// bounds.
pub proof fn lemma_checked_valid(c: Command)
    requires
        ARG_MIN <= c.1 <= ARG_MAX,
        ARG_MIN <= c.2 <= ARG_MAX,
    ensures
        checked(c) is Ok <==> valid_command(c),
        checked(c) is Ok ==> checked(c) == Ok::<Command, ParseError>(c),
{
}

/// Every command that a line writes is valid.
pub proof fn lemma_line_command_valid(line: Seq<char>)
    ensures
        line_command(line) matches Ok(Some(c)) ==> valid_command(c),
{
    if let Ok(Some(c)) = line_command(line) {
        lemma_checked_valid(c);
    }
}

/// Every command that the lines from position `i` on write is valid.
pub proof fn lemma_commands_valid(text: Seq<char>, i: int)
    ensures
        commands_from(text, i) matches Ok(cmds) ==> forall|k: int|
            0 <= k < cmds.len() ==> valid_command(#[trigger] cmds[k]),
    decreases text.len() + 1 - i,
{
    if 0 <= i < text.len() {
        lemma_line_end(text, i);
        lemma_line_command_valid(line_at(text, i));
        lemma_commands_valid(text, line_end(text, i) + 1);
    }
}

/// A text that is accepted writes at most 5000 commands, each of them valid.
pub proof fn lemma_solution_valid(text: Seq<char>)
    ensures
        solution(text) matches Ok(cmds) ==> cmds.len() <= MAX_T && forall|k: int|
            0 <= k < cmds.len() ==> valid_command(#[trigger] cmds[k]),
{
    lemma_commands_valid(text, 0);
}

/// Applies the rules to a command whose letter and coordinates were read.
fn check(a: char, x: i64, y: i64) -> (r: Result<Command, ParseError>)
    requires
        ARG_MIN <= x <= ARG_MAX,
        ARG_MIN <= y <= ARG_MAX,
    ensures
        r == checked((a, x, y)),
{
    if a != 'A' && a != 'S' {
        Err(ParseError::InvalidAction)
    } else if is_valid((a, x, y)) {
        Ok((a, x, y))
    } else {
        Err(ParseError::OutOfRange)
    }
}

/// The token of `line` that `t` marks, if any.
fn token_of<'a>(line: &'a [char], t: Option<(usize, usize)>) -> (r: Option<&'a [char]>)
    requires
        t matches Some(m) ==> m.0 <= m.1 <= line.len(),
    ensures
        token_view(r) == token_text(
            line@,
            match t {
                None => None,
                Some(m) => Some((m.0 as int, m.1 as int)),
            },
        ),
{
    match t {
        None => None,
        Some((b, e)) => Some(part(line, b, e)),
    }
}

/// Where the token after `t` is looked for.
fn rest_of(line: &[char], t: Option<(usize, usize)>) -> (r: usize)
    requires
        t matches Some(m) ==> m.0 <= m.1 <= line.len(),
    ensures
        r <= line.len(),
        r == token_rest(
            line@,
            match t {
                None => None,
                Some(m) => Some((m.0 as int, m.1 as int)),
            },
        ),
{
    match t {
        None => line.len(),
        Some((b, e)) => e,
    }
}

/// Reads what one line holds.
pub fn parse_line(line: &[char]) -> (r: Result<Option<Command>, ParseError>)
    ensures
        r == line_command(line@),
{
    if line.len() == 0 || line[0] == '#' {
        return Ok(None);
    }
    let t1 = next_token(line, 0);
    let first = match token_of(line, t1) {
        None => {
            return Err(ParseError::UnexpectedEnd);
        },
        Some(first) => first,
    };
    let t2 = next_token(line, rest_of(line, t1));
    let x = match read(token_of(line, t2), ARG_MIN, ARG_MAX) {
        Err(e) => {
            return Err(e);
        },
        Ok(x) => x,
    };
    let t3 = next_token(line, rest_of(line, t2));
    let y = match read(token_of(line, t3), ARG_MIN, ARG_MAX) {
        Err(e) => {
            return Err(e);
        },
        Ok(y) => y,
    };
    let a = match action_of(first) {
        None => {
            return Err(ParseError::InvalidAction);
        },
        Some(a) => a,
    };
    match check(a, x, y) {
        Err(e) => Err(e),
        Ok(c) => Ok(Some(c)),
    }
}

/// Reads a solution: one command on each line of `f` that is neither empty
/// nor begins with `#`.
pub fn parse_output(_input: &Input, f: &str) -> (r: Result<Output, ParseError>)
    ensures
        match r {
            Ok(o) => solution(f@) == Ok::<Seq<Command>, ParseError>(o.out@) && o.wf(),
            Err(e) => solution(f@) == Err::<Seq<Command>, ParseError>(e),
        },
{
    let cs = chars_of(f);
    let text = cs.as_slice();
    let n = text.len();
    let mut out: Vec<Command> = Vec::new();
    let mut i: usize = 0;
    while i < n
        invariant
            i <= n,
            n == text.len(),
            text@ == f@,
            commands_from(text@, 0) == after(out@, commands_from(text@, i as int)),
            forall|k: int| 0 <= k < out.len() ==> valid_command(#[trigger] out[k]),
        decreases n - i,
    {
        let mut e = i;
        while e < n && text[e] != '\n'
            invariant
                i <= e <= n,
                n == text.len(),
                line_end(text@, i as int) == line_end(text@, e as int),
            decreases n - e,
        {
            e += 1;
        }
        let stop = if e < n && i < e && text[e - 1] == '\r' {
            e - 1
        } else {
            e
        };
        let line = part(text, i, stop);
        let ghost rest = commands_from(text@, e + 1);
        proof {
            lemma_line_command_valid(line@);
        }
        match parse_line(line) {
            Err(err) => {
                return Err(err);
            },
            Ok(None) => {},
            Ok(Some(c)) => {
                proof {
                    if let Ok(more) = rest {
                        assert(out@ + (seq![c] + more) =~= out@.push(c) + more);
                    }
                }
                out.push(c);
            },
        }
        if e < n {
            i = e + 1;
        } else {
            i = n;
        }
    }
    assert(out@ + Seq::<Command>::empty() =~= out@);
    if out.len() > MAX_T {
        return Err(ParseError::TooManyActions);
    }
    Ok(Output { out })
}

} // verus!

//! Reading a problem instance from text: a run of tokens between white
//! space, in a fixed order.
//!
//! The noise parameters are floating-point numbers. The library computes
//! nothing with them: it holds them to their grammar and hands them on as
//! they are written.

use vstd::prelude::*;
use vstd::slice::slice_to_vec;
use crate::parse::ParseError;
use crate::geometry::P;
use crate::problem::{wall_bounded, Input, Wall, MAX_T, MAX_TARGETS};
use crate::text::{
    chars_of, float_literal, i64_literal, is_float, next_token, parse_i64, parse_usize, part,
    token_at, usize_literal,
};

verus! {

/// What a token of an instance writes.
#[derive(Clone, Copy, Debug, PartialEq, Eq, Structural)]
pub enum Form {
    /// A count: a `usize`.
    Size,
    /// A floating-point number.
    Float,
    /// A 64-bit signed integer.
    Int,
}

/// The noise parameters of an instance, as the text writes them.
#[derive(Debug)]
pub struct Noise {
    pub eps: Vec<char>,
    pub delta: Vec<char>,
    /// The noise factor of each turn.
    pub alphas: Vec<Vec<char>>,
}

/// What the text of an instance holds.
pub struct Instance {
    pub n: usize,
    pub m: usize,
    pub eps: Seq<char>,
    pub delta: Seq<char>,
    pub s: (i64, i64),
    pub ps: Seq<(i64, i64)>,
    pub walls: Seq<Wall>,
    pub alphas: Seq<Seq<char>>,
    pub fs: Seq<(i64, i64)>,
}

/// The instance and the noise parameters hold what `v` says.
pub open spec fn reads(input: Input, noise: Noise, v: Instance) -> bool {
    &&& input.N == v.n
    &&& input.M == v.m
    &&& input.s == v.s
    &&& input.ps@ == v.ps
    &&& input.walls@ == v.walls
    &&& input.fs@ == v.fs
    &&& noise.eps@ == v.eps
    &&& noise.delta@ == v.delta
    &&& noise.alphas@.len() == v.alphas.len()
    &&& forall|i: int| 0 <= i < noise.alphas@.len() ==> (#[trigger] noise.alphas@[i])@ == v.alphas[i]
}

/// The instance is within the limits of the library: no coordinate of its
/// start, targets and walls beyond the coordinate limit, and no more targets
/// than the score can count.
pub open spec fn in_bounds(v: Instance) -> bool {
    &&& v.ps.len() <= MAX_TARGETS
    &&& P(v.s.0, v.s.1).bounded()
    &&& forall|i: int| 0 <= i < v.ps.len() ==> P(v.ps[i].0, v.ps[i].1).bounded()
    &&& forall|i: int| 0 <= i < v.walls.len() ==> wall_bounded(#[trigger] v.walls[i])
}

/// `tok` is a token of the form.
pub open spec fn accepts(form: Form, tok: Seq<char>) -> bool {
    match form {
        Form::Size => usize_literal(tok) is Some,
        Form::Float => is_float(tok),
        Form::Int => i64_literal(tok) is Some,
    }
}

/// Reading one token of the form at or after `pos`: the token and the
/// position behind it. It is an error where no token is left, and where the
/// token is not of the form.
pub open spec fn token_read(s: Seq<char>, pos: int, form: Form) -> Result<
    (Seq<char>, int),
    ParseError,
> {
    match token_at(s, pos) {
        None => Err(ParseError::UnexpectedEnd),
        Some((b, e)) => if accepts(form, s.subrange(b, e)) {
            Ok((s.subrange(b, e), e))
        } else {
            Err(ParseError::ParseError)
        },
    }
}

/// Reading `n` tokens of the form at or after `pos`: the tokens and the
/// position behind the last, or the first error.
pub open spec fn tokens_read(s: Seq<char>, pos: int, form: Form, n: nat) -> Result<
    (Seq<Seq<char>>, int),
    ParseError,
>
    decreases n,
{
    if n == 0 {
        Ok((Seq::empty(), pos))
    } else {
        match token_read(s, pos, form) {
            Err(e) => Err(e),
            Ok((t, p)) => match tokens_read(s, p, form, (n - 1) as nat) {
                Err(e) => Err(e),
                Ok((ts, q)) => Ok((seq![t] + ts, q)),
            },
        }
    }
}

/// The integer that token `i` writes.
pub open spec fn int_at(ts: Seq<Seq<char>>, i: int) -> i64 {
    i64_literal(ts[i]).unwrap()
}

/// The size that token `i` writes.
pub open spec fn size_at(ts: Seq<Seq<char>>, i: int) -> usize {
    usize_literal(ts[i]).unwrap()
}

/// The head of an instance: the counts of targets and walls, two noise
/// parameters and the start, and the position behind them.
pub struct Head {
    pub n: usize,
    pub m: usize,
    pub eps: Seq<char>,
    pub delta: Seq<char>,
    pub s: (i64, i64),
    pub end: int,
}

/// The lists of an instance: targets, walls, a noise factor for each turn
/// and the drift of each turn.
pub struct Lists {
    pub ps: Seq<(i64, i64)>,
    pub walls: Seq<Wall>,
    pub alphas: Seq<Seq<char>>,
    pub fs: Seq<(i64, i64)>,
}

/// The head that a text begins with.
pub open spec fn head(text: Seq<char>) -> Result<Head, ParseError> {
    match tokens_read(text, 0, Form::Size, 2) {
        Err(e) => Err(e),
        Ok((counts, p1)) => match tokens_read(text, p1, Form::Float, 2) {
            Err(e) => Err(e),
            Ok((noise, p2)) => match tokens_read(text, p2, Form::Int, 2) {
                Err(e) => Err(e),
                Ok((start, p3)) => Ok(
                    Head {
                        n: size_at(counts, 0),
                        m: size_at(counts, 1),
                        eps: noise[0],
                        delta: noise[1],
                        s: (int_at(start, 0), int_at(start, 1)),
                        end: p3,
                    },
                ),
            },
        },
    }
}

/// The lists that a text holds from `pos` on, for `n` targets and `m` walls.
pub open spec fn lists(text: Seq<char>, pos: int, n: usize, m: usize) -> Result<Lists, ParseError> {
    match tokens_read(text, pos, Form::Int, (2 * n) as nat) {
        Err(e) => Err(e),
        Ok((ps, p1)) => match tokens_read(text, p1, Form::Int, (4 * m) as nat) {
            Err(e) => Err(e),
            Ok((walls, p2)) => match tokens_read(text, p2, Form::Float, MAX_T as nat) {
                Err(e) => Err(e),
                Ok((alphas, p3)) => match tokens_read(text, p3, Form::Int, (2 * MAX_T) as nat) {
                    Err(e) => Err(e),
                    Ok((fs, p4)) => Ok(
                        Lists { ps: pairs(ps), walls: quads(walls), alphas, fs: pairs(fs) },
                    ),
                },
            },
        },
    }
}

/// What a text holds as an instance: its head, then its lists. What follows
/// them is not read.
pub open spec fn instance(text: Seq<char>) -> Result<Instance, ParseError> {
    match head(text) {
        Err(e) => Err(e),
        Ok(h) => match lists(text, h.end, h.n, h.m) {
            Err(e) => Err(e),
            Ok(l) => Ok(
                Instance {
                    n: h.n,
                    m: h.m,
                    eps: h.eps,
                    delta: h.delta,
                    s: h.s,
                    ps: l.ps,
                    walls: l.walls,
                    alphas: l.alphas,
                    fs: l.fs,
                },
            ),
        },
    }
}

/// The pairs of integers that the tokens write, two by two.
pub open spec fn pairs(ts: Seq<Seq<char>>) -> Seq<(i64, i64)> {
    Seq::new((ts.len() / 2) as nat, |i: int| (int_at(ts, 2 * i), int_at(ts, 2 * i + 1)))
}

/// The walls that the tokens write, four by four.
pub open spec fn quads(ts: Seq<Seq<char>>) -> Seq<Wall> {
    Seq::new(
        (ts.len() / 4) as nat,
        |i: int|
            (int_at(ts, 4 * i), int_at(ts, 4 * i + 1), int_at(ts, 4 * i + 2), int_at(ts, 4 * i + 3)),
    )
}

/// `ts`, then what `rest` read; the error of `rest` where it has one.
pub open spec fn then_read(ts: Seq<Seq<char>>, rest: Result<(Seq<Seq<char>>, int), ParseError>) -> Result<
    (Seq<Seq<char>>, int),
    ParseError,
> {
    match rest {
        Err(e) => Err(e),
        Ok((us, q)) => Ok((ts + us, q)),
    }
}

/// Reading `n` tokens is reading the first `a` of them and then the others.
pub proof fn lemma_tokens_split(s: Seq<char>, pos: int, form: Form, a: nat, n: nat)
    requires
        a <= n,
    ensures
        tokens_read(s, pos, form, n) == match tokens_read(s, pos, form, a) {
            Err(e) => Err(e),
            Ok((ts, p)) => then_read(ts, tokens_read(s, p, form, (n - a) as nat)),
        },
        tokens_read(s, pos, form, a) matches Ok(r) ==> r.0.len() == a,
    decreases a,
{
    if a == 0 {
        match tokens_read(s, pos, form, n) {
            Ok((us, q)) => {
                assert(Seq::<Seq<char>>::empty() + us =~= us);
            },
            Err(e) => {},
        }
    } else {
        match token_read(s, pos, form) {
            Err(e) => {},
            Ok((t, p)) => {
                lemma_tokens_split(s, p, form, (a - 1) as nat, (n - 1) as nat);
                match tokens_read(s, p, form, (a - 1) as nat) {
                    Err(e) => {},
                    Ok((ts, q)) => {
                        match tokens_read(s, q, form, (n - a) as nat) {
                            Err(e) => {},
                            Ok((us, r)) => {
                                assert(seq![t] + (ts + us) =~= (seq![t] + ts) + us);
                            },
                        }
                    },
                }
            },
        }
    }
}

/// What was read is `n` tokens, each of the form.
pub proof fn lemma_tokens_accepted(s: Seq<char>, pos: int, form: Form, n: nat)
    ensures
        tokens_read(s, pos, form, n) matches Ok(r) ==> r.0.len() == n && forall|i: int|
            0 <= i < n ==> accepts(form, #[trigger] r.0[i]),
    decreases n,
{
    if n > 0 {
        match token_read(s, pos, form) {
            Err(e) => {},
            Ok((t, p)) => {
                lemma_tokens_accepted(s, p, form, (n - 1) as nat);
            },
        }
    }
}

/// An instance that was read holds as many targets and walls as it counts,
/// and a noise factor and a drift for each turn; its noise parameters are
/// written as floating-point numbers.
pub proof fn lemma_instance_counts(text: Seq<char>)
    ensures
        instance(text) matches Ok(v) ==> {
            &&& v.ps.len() == v.n
            &&& v.walls.len() == v.m
            &&& v.alphas.len() == MAX_T
            &&& v.fs.len() == MAX_T
            &&& is_float(v.eps)
            &&& is_float(v.delta)
            &&& forall|i: int| 0 <= i < MAX_T ==> is_float(#[trigger] v.alphas[i])
        },
{
    if let Ok(h) = head(text) {
        let p1 = tokens_read(text, 0, Form::Size, 2).unwrap().1;
        lemma_tokens_accepted(text, p1, Form::Float, 2);
        if let Ok(l) = lists(text, h.end, h.n, h.m) {
            lemma_tokens_accepted(text, h.end, Form::Int, (2 * h.n) as nat);
            let q1 = tokens_read(text, h.end, Form::Int, (2 * h.n) as nat).unwrap().1;
            lemma_tokens_accepted(text, q1, Form::Int, (4 * h.m) as nat);
            let q2 = tokens_read(text, q1, Form::Int, (4 * h.m) as nat).unwrap().1;
            lemma_tokens_accepted(text, q2, Form::Float, MAX_T as nat);
            let q3 = tokens_read(text, q2, Form::Float, MAX_T as nat).unwrap().1;
            lemma_tokens_accepted(text, q3, Form::Int, (2 * MAX_T) as nat);
        }
    }
}

/// Whether `tok` is a token of the form.
pub fn is_form(form: Form, tok: &[char]) -> (r: bool)
    ensures
        r == accepts(form, tok@),
{
    match form {
        Form::Size => parse_usize(tok).is_some(),
        Form::Float => float_literal(tok),
        Form::Int => parse_i64(tok).is_some(),
    }
}

/// Reads one token of the form at or after `pos`.
pub fn read_token<'a>(s: &'a [char], pos: usize, form: Form) -> (r: Result<
    (&'a [char], usize),
    ParseError,
>)
    requires
        pos <= s.len(),
    ensures
        match r {
            Err(e) => token_read(s@, pos as int, form) == Err::<(Seq<char>, int), ParseError>(e),
            Ok((t, p)) => token_read(s@, pos as int, form) == Ok::<(Seq<char>, int), ParseError>(
                (t@, p as int),
            ) && pos <= p <= s.len(),
        },
{
    match next_token(s, pos) {
        None => Err(ParseError::UnexpectedEnd),
        Some((b, e)) => {
            let t = part(s, b, e);
            if is_form(form, t) {
                Ok((t, e))
            } else {
                Err(ParseError::ParseError)
            }
        },
    }
}

/// Where `k` tokens were read up to `p`, what reading `w` more says of
/// reading `n >= k + w` from the start.
pub proof fn lemma_tokens_extend(
    s: Seq<char>,
    pos: int,
    form: Form,
    k: nat,
    w: nat,
    n: nat,
    done: Seq<Seq<char>>,
    p: int,
)
    requires
        k + w <= n,
        tokens_read(s, pos, form, k) == Ok::<(Seq<Seq<char>>, int), ParseError>((done, p)),
    ensures
        match tokens_read(s, p, form, w) {
            Err(e) => tokens_read(s, pos, form, n) == Err::<(Seq<Seq<char>>, int), ParseError>(e),
            Ok((us, q)) => tokens_read(s, pos, form, k + w) == Ok::<
                (Seq<Seq<char>>, int),
                ParseError,
            >((done + us, q)) && us.len() == w,
        },
{
    lemma_tokens_split(s, pos, form, k, k + w);
    lemma_tokens_split(s, pos, form, k, n);
    lemma_tokens_split(s, p, form, w, (n - k) as nat);
}

/// Reading one token, as a run of one.
pub proof fn lemma_tokens_one(s: Seq<char>, pos: int, form: Form)
    ensures
        tokens_read(s, pos, form, 1) == match token_read(s, pos, form) {
            Err(e) => Err::<(Seq<Seq<char>>, int), ParseError>(e),
            Ok((t, p)) => Ok((seq![t], p)),
        },
{
    reveal_with_fuel(tokens_read, 2);
    match token_read(s, pos, form) {
        Err(e) => {},
        Ok((t, p)) => {
            assert(seq![t] + Seq::<Seq<char>>::empty() =~= seq![t]);
        },
    }
}

/// Reads two tokens of the form at or after `pos`.
fn read_two<'a>(s: &'a [char], pos: usize, form: Form) -> (r: Result<
    (&'a [char], &'a [char], usize),
    ParseError,
>)
    requires
        pos <= s.len(),
    ensures
        match r {
            Err(e) => tokens_read(s@, pos as int, form, 2) == Err::<
                (Seq<Seq<char>>, int),
                ParseError,
            >(e),
            Ok((a, b, p)) => tokens_read(s@, pos as int, form, 2) == Ok::<
                (Seq<Seq<char>>, int),
                ParseError,
            >((seq![a@, b@], p as int)) && accepts(form, a@) && accepts(form, b@) && pos <= p
                <= s.len(),
        },
{
    proof {
        lemma_tokens_one(s@, pos as int, form);
        lemma_tokens_split(s@, pos as int, form, 1, 2);
    }
    let (a, p1) = match read_token(s, pos, form) {
        Err(e) => {
            return Err(e);
        },
        Ok(x) => x,
    };
    proof {
        lemma_tokens_one(s@, p1 as int, form);
    }
    let (b, p2) = match read_token(s, p1, form) {
        Err(e) => {
            return Err(e);
        },
        Ok(x) => x,
    };
    assert(seq![a@] + seq![b@] =~= seq![a@, b@]);
    Ok((a, b, p2))
}

/// Reads four integers at or after `pos`.
fn read_four(s: &[char], pos: usize) -> (r: Result<(Wall, usize), ParseError>)
    requires
        pos <= s.len(),
    ensures
        match r {
            Err(e) => tokens_read(s@, pos as int, Form::Int, 4) == Err::<
                (Seq<Seq<char>>, int),
                ParseError,
            >(e),
            Ok((w, p)) => pos <= p <= s.len() && (tokens_read(s@, pos as int, Form::Int, 4)
                matches Ok(tp) && tp.1 == p && tp.0.len() == 4 && w == (
                int_at(tp.0, 0),
                int_at(tp.0, 1),
                int_at(tp.0, 2),
                int_at(tp.0, 3),
            )),
        },
{
    proof {
        lemma_tokens_split(s@, pos as int, Form::Int, 2, 4);
    }
    let (a, b, p2) = match read_two(s, pos, Form::Int) {
        Err(e) => {
            return Err(e);
        },
        Ok(x) => x,
    };
    let (c, d, p4) = match read_two(s, p2, Form::Int) {
        Err(e) => {
            return Err(e);
        },
        Ok(x) => x,
    };
    assert(seq![a@, b@] + seq![c@, d@] =~= seq![a@, b@, c@, d@]);
    Ok(
        (
            (
                parse_i64(a).unwrap(),
                parse_i64(b).unwrap(),
                parse_i64(c).unwrap(),
                parse_i64(d).unwrap(),
            ),
            p4,
        ),
    )
}

/// The pairs of a run of tokens that grows by two.
proof fn lemma_pairs_grow(done: Seq<Seq<char>>, two: Seq<Seq<char>>)
    requires
        done.len() % 2 == 0,
        two.len() == 2,
    ensures
        pairs(done + two) == pairs(done).push((int_at(two, 0), int_at(two, 1))),
{
    let all = done + two;
    let k = done.len() / 2;
    assert(all.len() / 2 == k + 1);
    assert forall|i: int| 0 <= i < k + 1 implies #[trigger] pairs(all)[i] == pairs(done).push(
        (int_at(two, 0), int_at(two, 1)),
    )[i] by {
        if i < k {
            assert(all[2 * i] == done[2 * i] && all[2 * i + 1] == done[2 * i + 1]);
        } else {
            assert(all[2 * i] == two[0] && all[2 * i + 1] == two[1]);
        }
    }
    assert(pairs(all) =~= pairs(done).push((int_at(two, 0), int_at(two, 1))));
}

/// The walls of a run of tokens that grows by four.
proof fn lemma_quads_grow(done: Seq<Seq<char>>, four: Seq<Seq<char>>)
    requires
        done.len() % 4 == 0,
        four.len() == 4,
    ensures
        quads(done + four) == quads(done).push(
            (int_at(four, 0), int_at(four, 1), int_at(four, 2), int_at(four, 3)),
        ),
{
    let all = done + four;
    let k = done.len() / 4;
    let w = (int_at(four, 0), int_at(four, 1), int_at(four, 2), int_at(four, 3));
    assert(all.len() / 4 == k + 1);
    assert forall|i: int| 0 <= i < k + 1 implies #[trigger] quads(all)[i] == quads(done).push(w)[i] by {
        if i < k {
            assert(all[4 * i] == done[4 * i] && all[4 * i + 1] == done[4 * i + 1] && all[4 * i + 2]
                == done[4 * i + 2] && all[4 * i + 3] == done[4 * i + 3]);
        } else {
            assert(all[4 * i] == four[0] && all[4 * i + 1] == four[1] && all[4 * i + 2] == four[2]
                && all[4 * i + 3] == four[3]);
        }
    }
    assert(quads(all) =~= quads(done).push(w));
}

/// Reads `count` pairs of integers.
fn read_pairs(s: &[char], pos: usize, count: usize) -> (r: Result<(Vec<(i64, i64)>, usize), ParseError>)
    requires
        pos <= s.len(),
    ensures
        match r {
            Err(e) => tokens_read(s@, pos as int, Form::Int, (2 * count) as nat) == Err::<
                (Seq<Seq<char>>, int),
                ParseError,
            >(e),
            Ok((v, p)) => p <= s.len() && v@.len() == count && (tokens_read(
                s@,
                pos as int,
                Form::Int,
                (2 * count) as nat,
            ) matches Ok(tp) && tp.1 == p && v@ == pairs(tp.0)),
        },
{
    let mut v: Vec<(i64, i64)> = Vec::new();
    let mut p = pos;
    let mut k: usize = 0;
    let ghost mut done: Seq<Seq<char>> = Seq::empty();
    assert(v@ =~= pairs(done));
    while k < count
        invariant
            k <= count,
            pos <= p <= s.len(),
            tokens_read(s@, pos as int, Form::Int, (2 * k) as nat) == Ok::<
                (Seq<Seq<char>>, int),
                ParseError,
            >((done, p as int)),
            done.len() == 2 * k,
            v@ == pairs(done),
        decreases count - k,
    {
        proof {
            lemma_tokens_extend(
                s@,
                pos as int,
                Form::Int,
                (2 * k) as nat,
                2,
                (2 * count) as nat,
                done,
                p as int,
            );
        }
        let (a, b, p2) = match read_two(s, p, Form::Int) {
            Err(e) => {
                return Err(e);
            },
            Ok(x) => x,
        };
        let x = parse_i64(a).unwrap();
        let y = parse_i64(b).unwrap();
        proof {
            let two = seq![a@, b@];
            lemma_pairs_grow(done, two);
            done = done + two;
        }
        v.push((x, y));
        p = p2;
        k += 1;
    }
    Ok((v, p))
}

/// Reads `count` walls.
fn read_quads(s: &[char], pos: usize, count: usize) -> (r: Result<(Vec<Wall>, usize), ParseError>)
    requires
        pos <= s.len(),
    ensures
        match r {
            Err(e) => tokens_read(s@, pos as int, Form::Int, (4 * count) as nat) == Err::<
                (Seq<Seq<char>>, int),
                ParseError,
            >(e),
            Ok((v, p)) => p <= s.len() && v@.len() == count && (tokens_read(
                s@,
                pos as int,
                Form::Int,
                (4 * count) as nat,
            ) matches Ok(tp) && tp.1 == p && v@ == quads(tp.0)),
        },
{
    let mut v: Vec<Wall> = Vec::new();
    let mut p = pos;
    let mut k: usize = 0;
    let ghost mut done: Seq<Seq<char>> = Seq::empty();
    assert(v@ =~= quads(done));
    while k < count
        invariant
            k <= count,
            pos <= p <= s.len(),
            tokens_read(s@, pos as int, Form::Int, (4 * k) as nat) == Ok::<
                (Seq<Seq<char>>, int),
                ParseError,
            >((done, p as int)),
            done.len() == 4 * k,
            v@ == quads(done),
        decreases count - k,
    {
        proof {
            lemma_tokens_extend(
                s@,
                pos as int,
                Form::Int,
                (4 * k) as nat,
                4,
                (4 * count) as nat,
                done,
                p as int,
            );
        }
        let ghost four = tokens_read(s@, p as int, Form::Int, 4);
        let (w, p4) = match read_four(s, p) {
            Err(e) => {
                return Err(e);
            },
            Ok(x) => x,
        };
        proof {
            let ts = four.unwrap().0;
            lemma_quads_grow(done, ts);
            done = done + ts;
        }
        v.push(w);
        p = p4;
        k += 1;
    }
    Ok((v, p))
}

/// Reads `count` floating-point numbers, as they are written.
fn read_floats(s: &[char], pos: usize, count: usize) -> (r: Result<(Vec<Vec<char>>, usize), ParseError>)
    requires
        pos <= s.len(),
    ensures
        match r {
            Err(e) => tokens_read(s@, pos as int, Form::Float, count as nat) == Err::<
                (Seq<Seq<char>>, int),
                ParseError,
            >(e),
            Ok((v, p)) => p <= s.len() && (tokens_read(s@, pos as int, Form::Float, count as nat)
                matches Ok(tp) && tp.1 == p && v@.len() == tp.0.len() && forall|i: int|
                0 <= i < v@.len() ==> (#[trigger] v@[i])@ == tp.0[i]),
        },
{
    let mut v: Vec<Vec<char>> = Vec::new();
    let mut p = pos;
    let mut k: usize = 0;
    let ghost mut done: Seq<Seq<char>> = Seq::empty();
    while k < count
        invariant
            k <= count,
            pos <= p <= s.len(),
            tokens_read(s@, pos as int, Form::Float, k as nat) == Ok::<
                (Seq<Seq<char>>, int),
                ParseError,
            >((done, p as int)),
            done.len() == k,
            v@.len() == k,
            forall|i: int| 0 <= i < k ==> (#[trigger] v@[i])@ == done[i],
        decreases count - k,
    {
        proof {
            lemma_tokens_extend(
                s@,
                pos as int,
                Form::Float,
                k as nat,
                1,
                count as nat,
                done,
                p as int,
            );
            lemma_tokens_one(s@, p as int, Form::Float);
        }
        let (a, p1) = match read_token(s, p, Form::Float) {
            Err(e) => {
                return Err(e);
            },
            Ok(x) => x,
        };
        proof {
            done = done + seq![a@];
        }
        v.push(slice_to_vec(a));
        p = p1;
        k += 1;
    }
    Ok((v, p))
}

/// Reads the head of an instance: the counts, the noise parameters as they
/// are written, the start, and the position behind them.
fn read_head(s: &[char]) -> (r: Result<(usize, usize, Vec<char>, Vec<char>, (i64, i64), usize), ParseError>)
    ensures
        match r {
            Err(e) => head(s@) == Err::<Head, ParseError>(e),
            Ok((n, m, eps, delta, start, p)) => p <= s.len() && head(s@) == Ok::<Head, ParseError>(
                Head { n, m, eps: eps@, delta: delta@, s: start, end: p as int },
            ),
        },
{
    let (a, b, p1) = match read_two(s, 0, Form::Size) {
        Err(e) => {
            return Err(e);
        },
        Ok(x) => x,
    };
    let (eps, delta, p2) = match read_two(s, p1, Form::Float) {
        Err(e) => {
            return Err(e);
        },
        Ok(x) => x,
    };
    let (x, y, p3) = match read_two(s, p2, Form::Int) {
        Err(e) => {
            return Err(e);
        },
        Ok(x) => x,
    };
    Ok(
        (
            parse_usize(a).unwrap(),
            parse_usize(b).unwrap(),
            slice_to_vec(eps),
            slice_to_vec(delta),
            (parse_i64(x).unwrap(), parse_i64(y).unwrap()),
            p3,
        ),
    )
}

/// Reads the lists of an instance from `pos` on.
fn read_lists(s: &[char], pos: usize, n: usize, m: usize) -> (r: Result<
    (Vec<(i64, i64)>, Vec<Wall>, Vec<Vec<char>>, Vec<(i64, i64)>),
    ParseError,
>)
    requires
        pos <= s.len(),
    ensures
        match r {
            Err(e) => lists(s@, pos as int, n, m) == Err::<Lists, ParseError>(e),
            Ok((ps, walls, alphas, fs)) => lists(s@, pos as int, n, m) matches Ok(l) && ps@ == l.ps
                && walls@ == l.walls && fs@ == l.fs && alphas@.len() == l.alphas.len()
                && forall|i: int| 0 <= i < alphas@.len() ==> (#[trigger] alphas@[i])@ == l.alphas[i],
        },
{
    let (ps, p1) = match read_pairs(s, pos, n) {
        Err(e) => {
            return Err(e);
        },
        Ok(x) => x,
    };
    let (walls, p2) = match read_quads(s, p1, m) {
        Err(e) => {
            return Err(e);
        },
        Ok(x) => x,
    };
    let (alphas, p3) = match read_floats(s, p2, MAX_T) {
        Err(e) => {
            return Err(e);
        },
        Ok(x) => x,
    };
    let (fs, _) = match read_pairs(s, p3, MAX_T) {
        Err(e) => {
            return Err(e);
        },
        Ok(x) => x,
    };
    Ok((ps, walls, alphas, fs))
}

/// Reads an instance.
///
/// The instance that comes back holds what the text writes; whether it is
/// well formed is for [`Input::valid`] to say.
pub fn parse_input(f: &str) -> (r: Result<(Input, Noise), ParseError>)
    ensures
        match r {
            Err(e) => instance(f@) == Err::<Instance, ParseError>(e),
            Ok((input, noise)) => instance(f@) matches Ok(v) && reads(input, noise, v) && (
            input.wf() <==> in_bounds(v)),
        },
        r matches Ok(x) ==> x.0.N == x.0.ps.len() && x.0.M == x.0.walls.len() && x.0.fs.len()
            == MAX_T && x.1.alphas.len() == MAX_T,
{
    proof {
        lemma_instance_counts(f@);
    }
    let cs = chars_of(f);
    let s = cs.as_slice();
    let (n, m, eps, delta, start, p) = match read_head(s) {
        Err(e) => {
            return Err(e);
        },
        Ok(x) => x,
    };
    let (ps, walls, alphas, fs) = match read_lists(s, p, n, m) {
        Err(e) => {
            return Err(e);
        },
        Ok(x) => x,
    };
    Ok((Input { N: n, M: m, s: start, ps, walls, fs }, Noise { eps, delta, alphas }))
}

} // verus!

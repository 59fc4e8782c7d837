//! Text as a sequence of characters: white space, tokens and integer
//! literals.

use vstd::prelude::*;
use vstd::std_specs::iter::IteratorSpec;
use vstd::slice::slice_subrange;
use crate::geometry::fits_i64;

verus! {

/// The characters of a string, in order.
pub fn chars_of(s: &str) -> (v: Vec<char>)
    ensures
        v@ == s@,
{
    let mut v: Vec<char> = Vec::new();
    for c in it: s.chars()
        invariant
            v@ == it.seq().take(it.index() as int),
    {
        v.push(c);
    }
    v
}

/// White space: the characters with the Unicode property `White_Space`.
pub open spec fn is_space(c: char) -> bool {
    let u = c as u32;
    ||| 0x09 <= u <= 0x0d
    ||| u == 0x20
    ||| u == 0x85
    ||| u == 0xa0
    ||| u == 0x1680
    ||| 0x2000 <= u <= 0x200a
    ||| u == 0x2028
    ||| u == 0x2029
    ||| u == 0x202f
    ||| u == 0x205f
    ||| u == 0x3000
}

/// Whether `c` is white space.
pub fn is_whitespace(c: char) -> (r: bool)
    ensures
        r == is_space(c),
{
    let u = c as u32;
    (0x09 <= u && u <= 0x0d) || u == 0x20 || u == 0x85 || u == 0xa0 || u == 0x1680 || (0x2000 <= u
        && u <= 0x200a) || u == 0x2028 || u == 0x2029 || u == 0x202f || u == 0x205f || u == 0x3000
}

/// The first position at or after `i` that holds no white space, or the
/// length of `s`.
pub open spec fn skip_space(s: Seq<char>, i: int) -> int
    decreases s.len() - i,
{
    if 0 <= i < s.len() && is_space(s[i]) {
        skip_space(s, i + 1)
    } else {
        i
    }
}

/// The first position at or after `i` that holds white space, or the length
/// of `s`.
pub open spec fn skip_word(s: Seq<char>, i: int) -> int
    decreases s.len() - i,
{
    if 0 <= i < s.len() && !is_space(s[i]) {
        skip_word(s, i + 1)
    } else {
        i
    }
}

/// The next token at or after position `i`: where the longest run of
/// characters other than white space begins and ends. `None` where only white
/// space is left.
pub open spec fn token_at(s: Seq<char>, i: int) -> Option<(int, int)> {
    let b = skip_space(s, i);
    if b >= s.len() {
        None
    } else {
        Some((b, skip_word(s, b)))
    }
}

/// The text of a token found by [`token_at`].
pub open spec fn token_text(s: Seq<char>, t: Option<(int, int)>) -> Option<Seq<char>> {
    match t {
        None => None,
        Some((b, e)) => Some(s.subrange(b, e)),
    }
}

/// Where the search for the token after `t` begins.
pub open spec fn token_rest(s: Seq<char>, t: Option<(int, int)>) -> int {
    match t {
        None => s.len() as int,
        Some((b, e)) => e,
    }
}

/// Finds the next token of `s` at or after position `i`.
pub fn next_token(s: &[char], i: usize) -> (r: Option<(usize, usize)>)
    requires
        i <= s.len(),
    ensures
        match r {
            None => token_at(s@, i as int) is None,
            Some((b, e)) => token_at(s@, i as int) == Some((b as int, e as int)) && i <= b < e
                <= s.len(),
        },
{
    let mut b = i;
    while b < s.len() && is_whitespace(s[b])
        invariant
            i <= b <= s.len(),
            skip_space(s@, i as int) == skip_space(s@, b as int),
        decreases s.len() - b,
    {
        b += 1;
    }
    if b >= s.len() {
        return None;
    }
    let mut e = b + 1;
    while e < s.len() && !is_whitespace(s[e])
        invariant
            b < e <= s.len(),
            skip_word(s@, b as int) == skip_word(s@, e as int),
        decreases s.len() - e,
    {
        e += 1;
    }
    Some((b, e))
}

/// `c` is one of the ten decimal digits.
pub open spec fn is_digit(c: char) -> bool {
    '0' <= c <= '9'
}

/// The value of a decimal digit.
pub open spec fn digit_value(c: char) -> int {
    c as u32 - '0' as u32
}

/// The number that a run of decimal digits writes.
pub open spec fn digits_value(s: Seq<char>) -> nat
    decreases s.len(),
{
    if s.len() == 0 {
        0
    } else {
        (digits_value(s.drop_last()) * 10 + digit_value(s.last())) as nat
    }
}

/// Every character of `s` is a decimal digit.
pub open spec fn all_digits(s: Seq<char>) -> bool {
    forall|i: int| 0 <= i < s.len() ==> is_digit(#[trigger] s[i])
}

/// The integer that `tok` writes: an optional sign `+` or `-`, then one or
/// more decimal digits. `None` where `tok` is not of this form.
pub open spec fn int_literal(tok: Seq<char>) -> Option<int> {
    let signed = tok.len() > 0 && (tok[0] == '-' || tok[0] == '+');
    let digits = if signed {
        tok.skip(1)
    } else {
        tok
    };
    if digits.len() == 0 || !all_digits(digits) {
        None
    } else if tok[0] == '-' {
        Some(-(digits_value(digits) as int))
    } else {
        Some(digits_value(digits) as int)
    }
}

/// The 64-bit integer that `tok` writes; `None` where `tok` is no integer
/// literal or its value does not fit.
pub open spec fn i64_literal(tok: Seq<char>) -> Option<i64> {
    match int_literal(tok) {
        Some(v) => if fits_i64(v) {
            Some(v as i64)
        } else {
            None
        },
        None => None,
    }
}

/// A run of digits is worth at least as much as any of its prefixes.
pub proof fn lemma_digits_grow(s: Seq<char>, k: int)
    requires
        0 <= k <= s.len(),
        all_digits(s),
    ensures
        digits_value(s.take(k)) <= digits_value(s),
    decreases s.len() - k,
{
    if k < s.len() {
        assert(s.take(k + 1).drop_last() =~= s.take(k));
        lemma_digits_grow(s, k + 1);
    } else {
        assert(s.take(k) =~= s);
    }
}

/// Reads a 64-bit integer literal.
pub fn parse_i64(tok: &[char]) -> (r: Option<i64>)
    ensures
        r == i64_literal(tok@),
{
    let n = tok.len();
    if n == 0 {
        return None;
    }
    let negative = tok[0] == '-';
    let start: usize = if tok[0] == '-' || tok[0] == '+' {
        1
    } else {
        0
    };
    if start == n {
        return None;
    }
    let ghost digits = tok@.skip(start as int);
    assert(tok@.skip(0) =~= tok@);
    let mut acc: i128 = 0;
    let mut i = start;
    while i < n
        invariant
            start <= i <= n,
            start < n,
            n == tok.len(),
            negative == (tok@[0] == '-'),
            start == 1 <==> (tok@[0] == '-' || tok@[0] == '+'),
            start == 0 || start == 1,
            digits == tok@.skip(start as int),
            start == 0 ==> digits == tok@,
            forall|j: int| 0 <= j < i - start ==> is_digit(#[trigger] digits[j]),
            acc == digits_value(digits.take(i - start)),
            acc <= 0x8000_0000_0000_0000,
        decreases n - i,
    {
        let c = tok[i];
        assert(digits[i - start] == c);
        if !('0' <= c && c <= '9') {
            assert(!is_digit(digits[i - start]));
            return None;
        }
        assert(digits.take(i - start + 1).drop_last() =~= digits.take(i - start));
        acc = acc * 10 + (c as u32 - '0' as u32) as i128;
        if acc > 0x8000_0000_0000_0000 {
            proof {
                if all_digits(digits) {
                    lemma_digits_grow(digits, i - start + 1);
                }
            }
            return None;
        }
        i += 1;
    }
    assert(digits.take(i - start) =~= digits);
    if negative {
        Some((-acc) as i64)
    } else if acc == 0x8000_0000_0000_0000 {
        None
    } else {
        Some(acc as i64)
    }
}

/// The part of `s` from position `b` up to position `e`.
pub fn part(s: &[char], b: usize, e: usize) -> (r: &[char])
    requires
        b <= e <= s.len(),
    ensures
        r@ == s@.subrange(b as int, e as int),
{
    slice_subrange(s, b, e)
}

/// The size that `tok` writes: an optional sign `+`, then one or more
/// decimal digits, worth no more than the largest `usize`. `None` for every
/// other token.
pub open spec fn usize_literal(tok: Seq<char>) -> Option<usize> {
    let digits = if tok.len() > 0 && tok[0] == '+' {
        tok.skip(1)
    } else {
        tok
    };
    if digits.len() == 0 || !all_digits(digits) || digits_value(digits) > usize::MAX {
        None
    } else {
        Some(digits_value(digits) as usize)
    }
}

/// Reads a size.
pub fn parse_usize(tok: &[char]) -> (r: Option<usize>)
    ensures
        r == usize_literal(tok@),
{
    let n = tok.len();
    if n == 0 {
        return None;
    }
    let start: usize = if tok[0] == '+' {
        1
    } else {
        0
    };
    if start == n {
        return None;
    }
    let ghost digits = tok@.skip(start as int);
    assert(tok@.skip(0) =~= tok@);
    let mut acc: usize = 0;
    let mut i = start;
    while i < n
        invariant
            start <= i <= n,
            start < n,
            n == tok.len(),
            start == 1 <==> tok@[0] == '+',
            start == 0 || start == 1,
            digits == tok@.skip(start as int),
            start == 0 ==> digits == tok@,
            forall|j: int| 0 <= j < i - start ==> is_digit(#[trigger] digits[j]),
            acc == digits_value(digits.take(i - start)),
        decreases n - i,
    {
        let c = tok[i];
        assert(digits[i - start] == c);
        if !('0' <= c && c <= '9') {
            assert(!is_digit(digits[i - start]));
            return None;
        }
        assert(digits.take(i - start + 1).drop_last() =~= digits.take(i - start));
        let d = (c as u32 - '0' as u32) as usize;
        if acc > (usize::MAX - d) / 10 {
            proof {
                if all_digits(digits) {
                    lemma_digits_grow(digits, i - start + 1);
                }
            }
            return None;
        }
        acc = acc * 10 + d;
        i += 1;
    }
    assert(digits.take(i - start) =~= digits);
    Some(acc)
}

/// The first position at or after `i` that holds no decimal digit, or the
/// length of `s`.
pub open spec fn skip_digits(s: Seq<char>, i: int) -> int
    decreases s.len() - i,
{
    if 0 <= i < s.len() && is_digit(s[i]) {
        skip_digits(s, i + 1)
    } else {
        i
    }
}

/// `a` and `b` are the same letter of the Latin alphabet, in either case, or
/// the same character.
pub open spec fn same_letter(a: char, b: char) -> bool {
    a == b || (('a' <= a <= 'z' || 'A' <= a <= 'Z') && ('a' <= b <= 'z' || 'A' <= b <= 'Z') && (a as u32
        + 32 == b as u32 || b as u32 + 32 == a as u32))
}

/// `s` from position `i` on is `word`, but for the case of its letters.
pub open spec fn is_word(s: Seq<char>, i: int, word: Seq<char>) -> bool {
    &&& s.len() - i == word.len()
    &&& forall|k: int| 0 <= k < word.len() ==> same_letter(#[trigger] s[i + k], word[k])
}

/// `s` from position `i` on is an exponent: `e` or `E`, an optional sign,
/// and one or more decimal digits.
pub open spec fn is_exponent(s: Seq<char>, i: int) -> bool {
    let d = if i + 1 < s.len() && (s[i + 1] == '+' || s[i + 1] == '-') {
        i + 2
    } else {
        i + 1
    };
    &&& 0 <= i < s.len()
    &&& (s[i] == 'e' || s[i] == 'E')
    &&& d < s.len()
    &&& skip_digits(s, d) == s.len()
}

/// `s` from position `i` on is a decimal number: digits with at most one
/// point among, before or after them, at least one digit, and an optional
/// exponent.
pub open spec fn is_decimal(s: Seq<char>, i: int) -> bool {
    let a = skip_digits(s, i);
    let dotted = a < s.len() && s[a] == '.';
    let c = if dotted {
        skip_digits(s, a + 1)
    } else {
        a
    };
    &&& a > i || (dotted && c > a + 1)
    &&& c == s.len() || is_exponent(s, c)
}

/// `tok` writes a floating-point number: an optional sign, then `inf`,
/// `infinity` or `nan` in any case of their letters, or a decimal number.
pub open spec fn is_float(tok: Seq<char>) -> bool {
    let i: int = if tok.len() > 0 && (tok[0] == '+' || tok[0] == '-') {
        1
    } else {
        0
    };
    ||| is_word(tok, i, seq!['i', 'n', 'f'])
    ||| is_word(tok, i, seq!['i', 'n', 'f', 'i', 'n', 'i', 't', 'y'])
    ||| is_word(tok, i, seq!['n', 'a', 'n'])
    ||| is_decimal(tok, i)
}

/// Finds the first position of `s` at or after `i` that holds no digit.
fn past_digits(s: &[char], i: usize) -> (r: usize)
    requires
        i <= s.len(),
    ensures
        r == skip_digits(s@, i as int),
        i <= r <= s.len(),
{
    let mut k = i;
    while k < s.len() && '0' <= s[k] && s[k] <= '9'
        invariant
            i <= k <= s.len(),
            skip_digits(s@, i as int) == skip_digits(s@, k as int),
        decreases s.len() - k,
    {
        k += 1;
    }
    k
}

/// Whether `a` and `b` are the same letter in either case, or the same
/// character.
fn letters_match(a: char, b: char) -> (r: bool)
    ensures
        r == same_letter(a, b),
{
    if a == b {
        return true;
    }
    let x = a as u32;
    let y = b as u32;
    let a_letter = (0x61 <= x && x <= 0x7a) || (0x41 <= x && x <= 0x5a);
    let b_letter = (0x61 <= y && y <= 0x7a) || (0x41 <= y && y <= 0x5a);
    a_letter && b_letter && (x + 32 == y || y + 32 == x)
}

/// Whether `s` from position `i` on is `word`, but for the case of its
/// letters.
fn word_at(s: &[char], i: usize, word: &[char]) -> (r: bool)
    requires
        i <= s.len(),
    ensures
        r == is_word(s@, i as int, word@),
{
    if s.len() - i != word.len() {
        return false;
    }
    let mut k: usize = 0;
    while k < word.len()
        invariant
            k <= word.len(),
            i <= s.len(),
            s.len() - i == word.len(),
            forall|j: int| 0 <= j < k ==> same_letter(#[trigger] s@[i + j], word@[j]),
        decreases word.len() - k,
    {
        if !letters_match(s[i + k], word[k]) {
            return false;
        }
        k += 1;
    }
    true
}

/// Whether `tok` writes a floating-point number.
pub fn float_literal(tok: &[char]) -> (r: bool)
    ensures
        r == is_float(tok@),
{
    let n = tok.len();
    let i: usize = if n > 0 && (tok[0] == '+' || tok[0] == '-') {
        1
    } else {
        0
    };
    let inf = ['i', 'n', 'f'];
    let infinity = ['i', 'n', 'f', 'i', 'n', 'i', 't', 'y'];
    let nan = ['n', 'a', 'n'];
    assert(inf@ =~= seq!['i', 'n', 'f']);
    assert(infinity@ =~= seq!['i', 'n', 'f', 'i', 'n', 'i', 't', 'y']);
    assert(nan@ =~= seq!['n', 'a', 'n']);
    if word_at(tok, i, inf.as_slice()) || word_at(tok, i, infinity.as_slice()) || word_at(
        tok,
        i,
        nan.as_slice(),
    ) {
        return true;
    }
    let a = past_digits(tok, i);
    let dotted = a < n && tok[a] == '.';
    let c = if dotted {
        past_digits(tok, a + 1)
    } else {
        a
    };
    if !(a > i || (dotted && c > a + 1)) {
        return false;
    }
    if c == n {
        return true;
    }
    if !(tok[c] == 'e' || tok[c] == 'E') {
        return false;
    }
    let d = if c + 1 < n && (tok[c + 1] == '+' || tok[c + 1] == '-') {
        c + 2
    } else {
        c + 1
    };
    d < n && past_digits(tok, d) == n
}

} // verus!

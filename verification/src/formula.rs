//! Metric formulas: the expression language of perf's `pmu-events` metrics.
//!
//! A formula is arithmetic over event names, numbers, system constants (`#smt_on`),
//! other metrics and a few functions. Whatever it references that was not measured,
//! and every construct outside the language, makes it a gap: no value. A count is
//! never made up.

use crate::decimal::{parse_double, parsed};
use crate::double::{of_int, Double};
use crate::text::{is_space, lower_text, lowered, space, string_of, unsigned_of};
use vstd::prelude::*;

verus! {

/// An operator or a mark of punctuation.
#[derive(Clone, Copy, Debug, PartialEq, Eq, Structural)]
pub enum Op {
    Add,
    Sub,
    Mul,
    Div,
    Open,
    Close,
    Comma,
    Question,
    Colon,
    Less,
    Greater,
    AtMost,
    AtLeast,
    Equal,
    Unequal,
}

/// A token of a formula. Names are in lower case.
#[derive(Debug)]
pub enum Tok {
    Num(Double),
    Ident(String),
    /// A system constant: `#smt_on`, `#num_cpus`.
    Sys(String),
    Op(Op),
}

/// What a [`Tok`] is.
pub enum Token {
    Num(Double),
    Ident(Seq<char>),
    Sys(Seq<char>),
    Op(Op),
}

impl View for Tok {
    type V = Token;

    open spec fn view(&self) -> Token {
        match *self {
            Tok::Num(x) => Token::Num(x),
            Tok::Ident(s) => Token::Ident(s@),
            Tok::Sys(s) => Token::Sys(s@),
            Tok::Op(o) => Token::Op(o),
        }
    }
}

/// What a list of tokens is.
pub open spec fn tokens_of(v: Seq<Tok>) -> Seq<Token> {
    v.map_values(|t: Tok| t@)
}

// ------------------------------------------------------------------ lexical model

pub open spec fn digit_byte(b: u8) -> bool {
    48 <= b <= 57
}

pub open spec fn hex_byte(b: u8) -> bool {
    48 <= b <= 57 || 65 <= b <= 70 || 97 <= b <= 102
}

pub open spec fn alpha_byte(b: u8) -> bool {
    65 <= b <= 90 || 97 <= b <= 122
}

/// A letter, a digit or `_`.
pub open spec fn word_byte(b: u8) -> bool {
    digit_byte(b) || alpha_byte(b) || b == 95
}

/// A digit, a point or the mark of an exponent.
pub open spec fn number_byte(b: u8) -> bool {
    digit_byte(b) || b == 46 || b == 69 || b == 101
}

/// The end of the run of bytes from `i` on for which `p` holds.
pub open spec fn run_end(b: Seq<u8>, i: int, p: spec_fn(u8) -> bool) -> int
    decreases b.len() - i,
{
    if 0 <= i < b.len() && p(b[i]) {
        run_end(b, i + 1, p)
    } else {
        i
    }
}

/// The bytes as characters, one for one.
pub open spec fn latin(b: Seq<u8>) -> Seq<char> {
    b.map_values(|x: u8| x as char)
}

/// A name from `i` on, and where it ends. A backslash takes the next byte as it is.
pub open spec fn name_at(b: Seq<u8>, i: int) -> (Seq<char>, int)
    decreases b.len() - i,
{
    if 0 <= i < b.len() {
        if b[i] == 92 && i + 1 < b.len() {
            let (rest, end) = name_at(b, i + 2);
            (seq![b[i + 1] as char] + rest, end)
        } else if word_byte(b[i]) || b[i] == 46 {
            let (rest, end) = name_at(b, i + 1);
            (seq![b[i] as char] + rest, end)
        } else {
            (Seq::empty(), i)
        }
    } else {
        (Seq::empty(), i)
    }
}

/// The operator that one byte is.
pub open spec fn single_op(b: u8) -> Option<Op> {
    if b == 43 {
        Some(Op::Add)
    } else if b == 45 {
        Some(Op::Sub)
    } else if b == 42 {
        Some(Op::Mul)
    } else if b == 47 {
        Some(Op::Div)
    } else if b == 40 {
        Some(Op::Open)
    } else if b == 41 {
        Some(Op::Close)
    } else if b == 44 {
        Some(Op::Comma)
    } else if b == 63 {
        Some(Op::Question)
    } else if b == 58 {
        Some(Op::Colon)
    } else if b == 60 {
        Some(Op::Less)
    } else if b == 62 {
        Some(Op::Greater)
    } else {
        None
    }
}

/// The operator that a byte and `=` are.
pub open spec fn double_op(b: u8) -> Option<Op> {
    if b == 60 {
        Some(Op::AtMost)
    } else if b == 62 {
        Some(Op::AtLeast)
    } else if b == 61 {
        Some(Op::Equal)
    } else if b == 33 {
        Some(Op::Unequal)
    } else {
        None
    }
}

/// The token at `i` and where it ends; no token for white space. None where the bytes
/// are outside the language.
pub open spec fn token_at(b: Seq<u8>, i: int) -> Option<(Option<Token>, int)>
    recommends
        0 <= i < b.len(),
{
    let c = b[i];
    let next = i + 1 < b.len();
    if is_space(c as char) {
        Some((None, i + 1))
    } else if digit_byte(c) || (c == 46 && next && digit_byte(b[i + 1])) {
        if c == 48 && next && (b[i + 1] == 120 || b[i + 1] == 88) {
            let end = run_end(b, i + 2, |x: u8| hex_byte(x));
            match unsigned_of(latin(b.subrange(i + 2, end)), 16, u64::MAX as nat) {
                Some(n) => Some((Some(Token::Num(of_int(n as int))), end)),
                None => None,
            }
        } else {
            let end = run_end(b, i, |x: u8| number_byte(x));
            match parsed(latin(b.subrange(i, end))) {
                Some(x) => Some((Some(Token::Num(x)), end)),
                None => None,
            }
        }
    } else if c == 35 {
        let end = run_end(b, i + 1, |x: u8| word_byte(x));
        Some((Some(Token::Sys(lowered(latin(b.subrange(i + 1, end))))), end))
    } else if alpha_byte(c) || c == 95 || c == 92 {
        let (name, end) = name_at(b, i);
        if name.len() == 0 {
            None
        } else {
            Some((Some(Token::Ident(lowered(name))), end))
        }
    } else if next && b[i + 1] == 61 && double_op(c) is Some {
        Some((Some(Token::Op(double_op(c)->0)), i + 2))
    } else {
        match single_op(c) {
            Some(op) => Some((Some(Token::Op(op)), i + 1)),
            None => None,
        }
    }
}

/// The tokens from `i` on.
pub open spec fn tokens_from(b: Seq<u8>, i: int) -> Option<Seq<Token>>
    decreases b.len() - i,
{
    if i < 0 || i >= b.len() {
        Some(Seq::empty())
    } else {
        match token_at(b, i) {
            Some((tok, end)) => if i < end <= b.len() {
                match tokens_from(b, end) {
                    Some(rest) => Some(
                        match tok {
                            Some(t) => seq![t] + rest,
                            None => rest,
                        },
                    ),
                    None => None,
                }
            } else {
                None
            },
            None => None,
        }
    }
}

/// The tokens of a formula, by its UTF-8 bytes.
pub open spec fn tokens(s: Seq<char>) -> Option<Seq<Token>> {
    tokens_from(vstd::utf8::encode_utf8(s), 0)
}

// ------------------------------------------------------------------ lexer

fn is_digit(b: u8) -> (r: bool)
    ensures
        r == digit_byte(b),
{
    48 <= b && b <= 57
}

fn is_hex(b: u8) -> (r: bool)
    ensures
        r == hex_byte(b),
{
    (48 <= b && b <= 57) || (65 <= b && b <= 70) || (97 <= b && b <= 102)
}

fn is_alpha(b: u8) -> (r: bool)
    ensures
        r == alpha_byte(b),
{
    (65 <= b && b <= 90) || (97 <= b && b <= 122)
}

fn is_word(b: u8) -> (r: bool)
    ensures
        r == word_byte(b),
{
    is_digit(b) || is_alpha(b) || b == 95
}

fn is_number(b: u8) -> (r: bool)
    ensures
        r == number_byte(b),
{
    is_digit(b) || b == 46 || b == 69 || b == 101
}

fn end_of_hex(b: &[u8], i: usize) -> (r: usize)
    requires
        i <= b.len(),
    ensures
        r == run_end(b@, i as int, |x: u8| hex_byte(x)),
        i <= r <= b.len(),
{
    let mut j: usize = i;
    while j < b.len() && is_hex(b[j])
        invariant
            i <= j <= b.len(),
            run_end(b@, i as int, |x: u8| hex_byte(x)) == run_end(
                b@,
                j as int,
                |x: u8| hex_byte(x),
            ),
        ensures
            i <= j <= b.len(),
            run_end(b@, i as int, |x: u8| hex_byte(x)) == j,
        decreases b.len() - j,
    {
        j += 1;
    }
    j
}

fn end_of_number(b: &[u8], i: usize) -> (r: usize)
    requires
        i <= b.len(),
    ensures
        r == run_end(b@, i as int, |x: u8| number_byte(x)),
        i <= r <= b.len(),
        i < b.len() && number_byte(b@[i as int]) ==> i < r,
{
    let mut j: usize = i;
    while j < b.len() && is_number(b[j])
        invariant
            i <= j <= b.len(),
            run_end(b@, i as int, |x: u8| number_byte(x)) == run_end(
                b@,
                j as int,
                |x: u8| number_byte(x),
            ),
        ensures
            i <= j <= b.len(),
            run_end(b@, i as int, |x: u8| number_byte(x)) == j,
            j < b.len() ==> !number_byte(b@[j as int]),
        decreases b.len() - j,
    {
        j += 1;
    }
    j
}

fn end_of_word(b: &[u8], i: usize) -> (r: usize)
    requires
        i <= b.len(),
    ensures
        r == run_end(b@, i as int, |x: u8| word_byte(x)),
        i <= r <= b.len(),
{
    let mut j: usize = i;
    while j < b.len() && is_word(b[j])
        invariant
            i <= j <= b.len(),
            run_end(b@, i as int, |x: u8| word_byte(x)) == run_end(
                b@,
                j as int,
                |x: u8| word_byte(x),
            ),
        ensures
            i <= j <= b.len(),
            run_end(b@, i as int, |x: u8| word_byte(x)) == j,
        decreases b.len() - j,
    {
        j += 1;
    }
    j
}

fn char_of(b: u8) -> (r: char)
    ensures
        r == b as char,
{
    b as char
}

/// The bytes from `i` to `j` as characters.
fn latin_of(b: &[u8], i: usize, j: usize) -> (r: Vec<char>)
    requires
        i <= j <= b.len(),
    ensures
        r@ == latin(b@.subrange(i as int, j as int)),
{
    let mut out: Vec<char> = Vec::new();
    let mut k: usize = i;
    while k < j
        invariant
            i <= k <= j <= b.len(),
            out@ == latin(b@.subrange(i as int, k as int)),
        decreases j - k,
    {
        out.push(char_of(b[k]));
        k += 1;
        proof {
            let t = b@.subrange(i as int, k as int);
            assert(t =~= b@.subrange(i as int, k - 1).push(b@[k - 1]));
            assert(latin(t) =~= latin(b@.subrange(i as int, k - 1)).push(b@[k - 1] as char));
        }
    }
    out
}

fn read_name(b: &[u8], i: usize) -> (r: (Vec<char>, usize))
    requires
        i <= b.len(),
    ensures
        (r.0@, r.1 as int) == name_at(b@, i as int),
        i <= r.1 <= b.len(),
        r.0@.len() > 0 ==> r.1 > i,
{
    let mut name: Vec<char> = Vec::new();
    let mut j: usize = i;
    proof {
        let (rest, end) = name_at(b@, j as int);
        assert(name@ + rest =~= rest);
    }
    while j < b.len()
        invariant
            i <= j <= b.len(),
            name@.len() > 0 ==> j > i,
            name_at(b@, i as int) == (name@ + name_at(b@, j as int).0, name_at(b@, j as int).1),
        decreases b.len() - j,
    {
        let ghost before = name@;
        if b[j] == 92 && j + 1 < b.len() {
            name.push(char_of(b[j + 1]));
            proof {
                let rest = name_at(b@, j + 2).0;
                assert(before + (seq![b@[j + 1] as char] + rest) =~= before.push(
                    b@[j + 1] as char,
                ) + rest);
            }
            j += 2;
        } else if is_word(b[j]) || b[j] == 46 {
            name.push(char_of(b[j]));
            proof {
                let rest = name_at(b@, j + 1).0;
                assert(before + (seq![b@[j as int] as char] + rest) =~= before.push(
                    b@[j as int] as char,
                ) + rest);
            }
            j += 1;
        } else {
            proof {
                assert(name@ + Seq::<char>::empty() =~= name@);
            }
            return (name, j);
        }
    }
    proof {
        assert(name@ + Seq::<char>::empty() =~= name@);
    }
    (name, j)
}

fn read_single_op(b: u8) -> (r: Option<Op>)
    ensures
        r == single_op(b),
{
    match b {
        43 => Some(Op::Add),
        45 => Some(Op::Sub),
        42 => Some(Op::Mul),
        47 => Some(Op::Div),
        40 => Some(Op::Open),
        41 => Some(Op::Close),
        44 => Some(Op::Comma),
        63 => Some(Op::Question),
        58 => Some(Op::Colon),
        60 => Some(Op::Less),
        62 => Some(Op::Greater),
        _ => None,
    }
}

fn read_double_op(b: u8) -> (r: Option<Op>)
    ensures
        r == double_op(b),
{
    match b {
        60 => Some(Op::AtMost),
        62 => Some(Op::AtLeast),
        61 => Some(Op::Equal),
        33 => Some(Op::Unequal),
        _ => None,
    }
}

/// What a token is, where there is one.
pub open spec fn token_of(t: Option<Tok>) -> Option<Token> {
    match t {
        Some(t) => Some(t@),
        None => None,
    }
}

fn read_token(b: &[u8], i: usize) -> (r: Option<(Option<Tok>, usize)>)
    requires
        i < b.len(),
    ensures
        match r {
            Some((tok, end)) => token_at(b@, i as int) == Some((token_of(tok), end as int)) && i
                < end <= b.len(),
            None => token_at(b@, i as int) is None,
        },
{
    let c: u8 = b[i];
    let next: bool = i + 1 < b.len();
    if space(char_of(c)) {
        Some((None, i + 1))
    } else if is_digit(c) || (c == 46 && next && is_digit(b[i + 1])) {
        if c == 48 && next && (b[i + 1] == 120 || b[i + 1] == 88) {
            let end: usize = end_of_hex(b, i + 2);
            let text: Vec<char> = latin_of(b, i + 2, end);
            match crate::text::parse_hex(text.as_slice()) {
                Some(n) => Some((Some(Tok::Num(Double::from_u64(n))), end)),
                None => None,
            }
        } else {
            let end: usize = end_of_number(b, i);
            let text: Vec<char> = latin_of(b, i, end);
            match parse_double(text.as_slice()) {
                Some(x) => Some((Some(Tok::Num(x)), end)),
                None => None,
            }
        }
    } else if c == 35 {
        // perf system constant: #smt_on, #num_cpus, #core_wide
        let end: usize = end_of_word(b, i + 1);
        let text: Vec<char> = latin_of(b, i + 1, end);
        let name: String = lower_text(string_of(text.as_slice()).as_str());
        Some((Some(Tok::Sys(name)), end))
    } else if is_alpha(c) || c == 95 || c == 92 {
        // An event, a metric or a function. Characters that are operators elsewhere
        // stand in event names behind a backslash.
        let (name, end) = read_name(b, i);
        if name.len() == 0 {
            None
        } else {
            Some((Some(Tok::Ident(lower_text(string_of(name.as_slice()).as_str()))), end))
        }
    } else if next && b[i + 1] == 61 && read_double_op(c).is_some() {
        match read_double_op(c) {
            Some(op) => Some((Some(Tok::Op(op)), i + 2)),
            None => None,
        }
    } else {
        match read_single_op(c) {
            Some(op) => Some((Some(Tok::Op(op)), i + 1)),
            None => None,
        }
    }
}

/// The tokens of a formula; none where it is outside the language.
pub fn tokenize(s: &str) -> (r: Option<Vec<Tok>>)
    ensures
        match r {
            Some(v) => tokens(s@) == Some(tokens_of(v@)),
            None => tokens(s@) is None,
        },
{
    let b: &[u8] = s.as_bytes();
    let mut out: Vec<Tok> = Vec::new();
    let mut i: usize = 0;
    proof {
        if tokens(s@) is Some {
            assert(tokens_of(out@) + tokens(s@)->0 =~= tokens(s@)->0);
        }
    }
    while i < b.len()
        invariant
            i <= b.len(),
            b@ == vstd::utf8::encode_utf8(s@),
            match tokens_from(b@, i as int) {
                Some(rest) => tokens(s@) == Some(tokens_of(out@) + rest),
                None => tokens(s@) is None,
            },
        decreases b.len() - i,
    {
        match read_token(b, i) {
            None => {
                return None;
            },
            Some((tok, end)) => {
                match tok {
                    Some(t) => {
                        let ghost before = tokens_of(out@);
                        out.push(t);
                        proof {
                            assert(tokens_of(out@) =~= before.push(t@));
                            if tokens_from(b@, end as int) is Some {
                                let rest = tokens_from(b@, end as int)->0;
                                assert(before + (seq![t@] + rest) =~= before.push(t@) + rest);
                            }
                        }
                    },
                    None => {},
                }
                i = end;
            },
        }
    }
    proof {
        assert(tokens_of(out@) + Seq::<Token>::empty() =~= tokens_of(out@));
    }
    Some(out)
}

} // verus!

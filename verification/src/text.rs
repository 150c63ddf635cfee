//! Text, as sequences of characters.
//!
//! The collectors read line-oriented files: `/proc`, `sysfs`, comma-separated tables,
//! `key=value` lists. The functions here take such text apart. Each works on a slice
//! of characters and says what it returns by a spec function on the sequence.

use vstd::prelude::*;
use vstd::slice::slice_subrange;

verus! {

/// `String::push` appends one character.
pub assume_specification[ String::push ](s: &mut String, c: char)
    ensures
        final(s)@ == old(s)@.push(c),
;

/// The lower-case form of a text, as `str::to_lowercase` maps it.
pub uninterp spec fn lowercase(s: Seq<char>) -> Seq<char>;

/// `str::to_lowercase`: the Unicode lower-case mapping, a function of the text alone. A
/// text of ASCII characters has its letters lowered one by one.
#[verifier::external_body]
pub(crate) fn to_lowercase(s: &str) -> (r: String)
    ensures
        r@ == lowercase(s@),
        all_ascii(s@) ==> r@ == s@.map_values(|c: char| ascii_lower(c)),
{
    s.to_lowercase()
}

/// The lower-case form of a text: of ASCII characters, each by itself.
pub open spec fn lowered(s: Seq<char>) -> Seq<char> {
    if all_ascii(s) {
        s.map_values(|c: char| ascii_lower(c))
    } else {
        lowercase(s)
    }
}

/// The lower-case form of a text.
pub fn lower_text(s: &str) -> (r: String)
    ensures
        r@ == lowered(s@),
{
    to_lowercase(s)
}

// ------------------------------------------------------------------ model

/// Whether a text holds ASCII characters alone.
pub open spec fn all_ascii(s: Seq<char>) -> bool {
    forall|i: int| 0 <= i < s.len() ==> (#[trigger] s[i] as int) < 128
}

/// Unicode's `White_Space` characters.
pub open spec fn is_space(c: char) -> bool {
    let n = c as int;
    9 <= n <= 13 || n == 32 || n == 0x85 || n == 0xA0 || n == 0x1680 || 0x2000 <= n <= 0x200A || n
        == 0x2028 || n == 0x2029 || n == 0x202F || n == 0x205F || n == 0x3000
}

/// The text without its leading white space.
pub open spec fn trimmed_start(s: Seq<char>) -> Seq<char>
    decreases s.len(),
{
    if s.len() > 0 && is_space(s[0]) {
        trimmed_start(s.skip(1))
    } else {
        s
    }
}

/// The text without its trailing white space.
pub open spec fn trimmed_end(s: Seq<char>) -> Seq<char>
    decreases s.len(),
{
    if s.len() > 0 && is_space(s.last()) {
        trimmed_end(s.drop_last())
    } else {
        s
    }
}

/// The text without white space at either end.
pub open spec fn trimmed(s: Seq<char>) -> Seq<char> {
    trimmed_end(trimmed_start(s))
}

/// The first place of `c`, or the length where there is none.
pub open spec fn place_of(s: Seq<char>, c: char) -> int
    decreases s.len(),
{
    if s.len() == 0 || s[0] == c {
        0
    } else {
        1 + place_of(s.skip(1), c)
    }
}

/// The last place of `c`, or -1.
pub open spec fn last_place_of(s: Seq<char>, c: char) -> int
    decreases s.len(),
{
    if s.len() == 0 {
        -1
    } else if s.last() == c {
        s.len() - 1
    } else {
        last_place_of(s.drop_last(), c)
    }
}

/// The pieces between the separators; one more than there are separators.
pub open spec fn pieces(s: Seq<char>, sep: char) -> Seq<Seq<char>>
    decreases s.len(),
{
    let i = place_of(s, sep);
    if 0 <= i < s.len() {
        seq![s.take(i)] + pieces(s.skip(i + 1), sep)
    } else {
        seq![s]
    }
}

/// What stands before and after the first `sep`.
pub open spec fn halves(s: Seq<char>, sep: char) -> Option<(Seq<char>, Seq<char>)> {
    let i = place_of(s, sep);
    if i < s.len() {
        Some((s.take(i), s.skip(i + 1)))
    } else {
        None
    }
}

/// What stands after the last `sep`.
pub open spec fn after_last(s: Seq<char>, sep: char) -> Option<Seq<char>> {
    let i = last_place_of(s, sep);
    if i >= 0 {
        Some(s.skip(i + 1))
    } else {
        None
    }
}

/// A line without the carriage return of its line ending.
pub open spec fn chomped(s: Seq<char>) -> Seq<char> {
    if s.len() > 0 && s.last() == '\r' {
        s.drop_last()
    } else {
        s
    }
}

/// The lines of a text. The last needs no line ending, and one more makes no line.
pub open spec fn lines_of(s: Seq<char>) -> Seq<Seq<char>>
    decreases s.len(),
{
    let i = place_of(s, '\n');
    if s.len() == 0 {
        Seq::empty()
    } else if 0 <= i < s.len() {
        seq![chomped(s.take(i))] + lines_of(s.skip(i + 1))
    } else {
        seq![s]
    }
}

/// How many characters stand before the first white space.
pub open spec fn word_len(s: Seq<char>) -> nat
    decreases s.len(),
{
    if s.len() == 0 || is_space(s[0]) {
        0
    } else {
        1 + word_len(s.skip(1))
    }
}

/// The words between white space.
pub open spec fn words_of(s: Seq<char>) -> Seq<Seq<char>>
    decreases s.len(),
{
    if s.len() == 0 {
        Seq::empty()
    } else if is_space(s[0]) {
        words_of(s.skip(1))
    } else {
        let n = word_len(s) as int;
        if 0 < n <= s.len() {
            seq![s.take(n)] + words_of(s.skip(n))
        } else {
            Seq::empty()
        }
    }
}

/// Whether `s` begins with `p`.
pub open spec fn begins(s: Seq<char>, p: Seq<char>) -> bool {
    p.len() <= s.len() && s.take(p.len() as int) == p
}

/// Whether `s` ends with `p`.
pub open spec fn ends(s: Seq<char>, p: Seq<char>) -> bool {
    p.len() <= s.len() && s.skip(s.len() - p.len()) == p
}

/// Whether `p` occurs in `s`.
pub open spec fn occurs(s: Seq<char>, p: Seq<char>) -> bool {
    exists|i: int| 0 <= i <= s.len() && begins(#[trigger] s.skip(i), p)
}

/// The value of a digit in a radix of up to 16; none where `c` is no such digit.
pub open spec fn digit_of(c: char, radix: nat) -> Option<nat> {
    let n = c as int;
    let d: int = if 48 <= n <= 57 {
        n - 48
    } else if 97 <= n <= 102 {
        n - 87
    } else if 65 <= n <= 70 {
        n - 55
    } else {
        16
    };
    if d < radix {
        Some(d as nat)
    } else {
        None
    }
}

pub open spec fn all_digits(s: Seq<char>, radix: nat) -> bool {
    forall|i: int| 0 <= i < s.len() ==> digit_of(#[trigger] s[i], radix) is Some
}

/// The number that a run of digits writes.
pub open spec fn digits_value(s: Seq<char>, radix: nat) -> nat
    decreases s.len(),
{
    if s.len() == 0 {
        0
    } else {
        digits_value(s.drop_last(), radix) * radix + digit_of(s.last(), radix)->0
    }
}

/// An unsigned number of at most `max`: digits, after a `+` where there is one.
pub open spec fn unsigned_of(s: Seq<char>, radix: nat, max: nat) -> Option<nat> {
    let body = if s.len() > 0 && s[0] == '+' {
        s.skip(1)
    } else {
        s
    };
    if body.len() > 0 && all_digits(body, radix) && digits_value(body, radix) <= max {
        Some(digits_value(body, radix))
    } else {
        None
    }
}

/// A signed decimal number between `min` and `max`.
pub open spec fn signed_of(s: Seq<char>, min: int, max: int) -> Option<int> {
    let neg = s.len() > 0 && s[0] == '-';
    let body = if s.len() > 0 && (s[0] == '+' || s[0] == '-') {
        s.skip(1)
    } else {
        s
    };
    if body.len() > 0 && all_digits(body, 10) {
        let v = if neg {
            -(digits_value(body, 10) as int)
        } else {
            digits_value(body, 10) as int
        };
        if min <= v <= max {
            Some(v)
        } else {
            None
        }
    } else {
        None
    }
}

/// `0x` or `0X` and a hexadecimal number, or a decimal one.
pub open spec fn code_of(s: Seq<char>) -> Option<nat> {
    if begins(s, "0x"@) || begins(s, "0X"@) {
        unsigned_of(s.skip(2), 16, u64::MAX as nat)
    } else {
        unsigned_of(s, 10, u64::MAX as nat)
    }
}

/// The ASCII lower-case form of a character.
pub open spec fn ascii_lower(c: char) -> char {
    if 65 <= c as int <= 90 {
        ((c as int) + 32) as char
    } else {
        c
    }
}

/// The texts of a list of slices.
pub open spec fn texts(v: Seq<&[char]>) -> Seq<Seq<char>> {
    v.map_values(|x: &[char]| x@)
}

/// What a text is, where there is one.
pub open spec fn text_of(s: Option<&str>) -> Option<Seq<char>> {
    match s {
        Some(t) => Some(t@),
        None => None,
    }
}

/// What a string is, where there is one.
pub open spec fn owned(s: Option<String>) -> Option<Seq<char>> {
    match s {
        Some(t) => Some(t@),
        None => None,
    }
}

/// The texts of a list of strings.
pub open spec fn strings(v: Seq<String>) -> Seq<Seq<char>> {
    v.map_values(|x: String| x@)
}

/// Texts with a separator between them.
pub open spec fn joined(v: Seq<Seq<char>>, sep: Seq<char>) -> Seq<char>
    decreases v.len(),
{
    if v.len() == 0 {
        Seq::empty()
    } else if v.len() == 1 {
        v[0]
    } else {
        joined(v.drop_last(), sep) + sep + v.last()
    }
}

/// `s` with each occurrence of `from`, from the left, replaced by `to`.
pub open spec fn replaced(s: Seq<char>, from: Seq<char>, to: Seq<char>) -> Seq<char>
    decreases s.len(),
{
    if s.len() == 0 {
        Seq::empty()
    } else if from.len() > 0 && begins(s, from) {
        to + replaced(s.skip(from.len() as int), from, to)
    } else {
        seq![s[0]] + replaced(s.skip(1), from, to)
    }
}

/// `s` with the first occurrence of `from` replaced by `to`.
pub open spec fn replaced_once(s: Seq<char>, from: Seq<char>, to: Seq<char>) -> Seq<char>
    decreases s.len(),
{
    if s.len() == 0 {
        Seq::empty()
    } else if begins(s, from) {
        to + s.skip(from.len() as int)
    } else {
        seq![s[0]] + replaced_once(s.skip(1), from, to)
    }
}

/// Whether `a` comes before `b` in the order of their characters.
pub open spec fn text_less(a: Seq<char>, b: Seq<char>) -> bool
    decreases a.len(),
{
    if b.len() == 0 {
        false
    } else if a.len() == 0 {
        true
    } else if a[0] == b[0] {
        text_less(a.skip(1), b.skip(1))
    } else {
        (a[0] as int) < (b[0] as int)
    }
}

// ------------------------------------------------------------------ lemmas

pub proof fn lemma_place_of(s: Seq<char>, c: char)
    ensures
        0 <= place_of(s, c) <= s.len(),
        place_of(s, c) < s.len() ==> s[place_of(s, c)] == c,
        forall|i: int| 0 <= i < place_of(s, c) ==> s[i] != c,
    decreases s.len(),
{
    if s.len() > 0 && s[0] != c {
        lemma_place_of(s.skip(1), c);
        assert forall|i: int| 0 <= i < place_of(s, c) implies s[i] != c by {
            if i > 0 {
                assert(s.skip(1)[i - 1] == s[i]);
            }
        }
    }
}

pub proof fn lemma_place_is(s: Seq<char>, c: char, i: int)
    requires
        0 <= i <= s.len(),
        i < s.len() ==> s[i] == c,
        forall|j: int| 0 <= j < i ==> s[j] != c,
    ensures
        place_of(s, c) == i,
    decreases s.len(),
{
    if s.len() > 0 && i > 0 {
        assert forall|j: int| 0 <= j < i - 1 implies s.skip(1)[j] != c by {
            assert(s[j + 1] != c);
        }
        lemma_place_is(s.skip(1), c, i - 1);
    }
}

pub proof fn lemma_word_len(s: Seq<char>)
    ensures
        word_len(s) <= s.len(),
        s.len() > 0 && !is_space(s[0]) ==> word_len(s) > 0,
    decreases s.len(),
{
    if s.len() > 0 && !is_space(s[0]) {
        lemma_word_len(s.skip(1));
    }
}

/// The order of texts is strict and total.
pub proof fn lemma_text_order(a: Seq<char>, b: Seq<char>)
    ensures
        !(text_less(a, b) && text_less(b, a)),
        text_less(a, b) || text_less(b, a) || a == b,
        !text_less(a, a),
    decreases a.len(),
{
    if a.len() > 0 && b.len() > 0 {
        lemma_text_order(a.skip(1), b.skip(1));
        if a[0] == b[0] && a.skip(1) == b.skip(1) {
            assert(a =~= b) by {
                assert forall|i: int| 0 <= i < a.len() implies a[i] == b[i] by {
                    if i > 0 {
                        assert(a.skip(1)[i - 1] == b.skip(1)[i - 1]);
                    }
                }
            }
        }
    } else {
        if a.len() > 0 {
            lemma_text_order(a.skip(1), Seq::empty());
        }
        if a.len() == 0 && b.len() == 0 {
            assert(a =~= b);
        }
    }
}

/// The order of texts is transitive.
pub proof fn lemma_text_order_transitive(a: Seq<char>, b: Seq<char>, c: Seq<char>)
    requires
        text_less(a, b),
        text_less(b, c),
    ensures
        text_less(a, c),
    decreases a.len(),
{
    if a.len() > 0 && b.len() > 0 && c.len() > 0 && a[0] == b[0] && b[0] == c[0] {
        lemma_text_order_transitive(a.skip(1), b.skip(1), c.skip(1));
    }
}

// ------------------------------------------------------------------ operations

/// The characters of a string.
pub fn chars_of(s: &str) -> (r: Vec<char>)
    ensures
        r@ == s@,
{
    let mut out: Vec<char> = Vec::new();
    for c in it: s.chars()
        invariant
            out@ == it.seq().take(it.index() as int),
            it.seq() == s@,
    {
        out.push(c);
    }
    out
}

/// The string of these characters.
pub fn string_of(v: &[char]) -> (r: String)
    ensures
        r@ == v@,
{
    let mut out: String = String::new();
    let mut i: usize = 0;
    while i < v.len()
        invariant
            i <= v.len(),
            out@ == v@.take(i as int),
        decreases v.len() - i,
    {
        out.push(v[i]);
        i += 1;
    }
    out
}

/// Whether two runs of characters are the same.
pub fn same_chars(a: &[char], b: &[char]) -> (r: bool)
    ensures
        r == (a@ == b@),
{
    if a.len() != b.len() {
        return false;
    }
    let mut i: usize = 0;
    while i < a.len()
        invariant
            i <= a.len(),
            a.len() == b.len(),
            forall|j: int| 0 <= j < i ==> a@[j] == b@[j],
        decreases a.len() - i,
    {
        if a[i] != b[i] {
            return false;
        }
        i += 1;
    }
    assert(a@ =~= b@);
    true
}

/// Whether the characters are those of `t`.
pub fn is(s: &[char], t: &str) -> (r: bool)
    ensures
        r == (s@ == t@),
{
    let v: Vec<char> = chars_of(t);
    same_chars(s, v.as_slice())
}

/// Whether two strings are the same.
pub fn same(a: &str, b: &str) -> (r: bool)
    ensures
        r == (a@ == b@),
{
    let v: Vec<char> = chars_of(a);
    is(v.as_slice(), b)
}

pub fn space(c: char) -> (r: bool)
    ensures
        r == is_space(c),
{
    let n: u32 = c as u32;
    (9 <= n && n <= 13) || n == 32 || n == 0x85 || n == 0xA0 || n == 0x1680 || (0x2000 <= n && n
        <= 0x200A) || n == 0x2028 || n == 0x2029 || n == 0x202F || n == 0x205F || n == 0x3000
}

pub fn trim(s: &[char]) -> (r: &[char])
    ensures
        r@ == trimmed(s@),
{
    let mut i: usize = 0;
    assert(s@.skip(0) =~= s@);
    while i < s.len() && space(s[i])
        invariant
            i <= s.len(),
            trimmed_start(s@) == trimmed_start(s@.skip(i as int)),
        ensures
            i <= s.len(),
            trimmed_start(s@) == s@.skip(i as int),
        decreases s.len() - i,
    {
        assert(s@.skip(i as int).skip(1) =~= s@.skip(i + 1));
        i += 1;
    }
    let mut j: usize = s.len();
    assert(s@.subrange(i as int, j as int) =~= s@.skip(i as int));
    while j > i && space(s[j - 1])
        invariant
            i <= j <= s.len(),
            trimmed_end(trimmed_start(s@)) == trimmed_end(s@.subrange(i as int, j as int)),
        ensures
            i <= j <= s.len(),
            trimmed_end(trimmed_start(s@)) == s@.subrange(i as int, j as int),
        decreases j,
    {
        assert(s@.subrange(i as int, j as int).drop_last() =~= s@.subrange(i as int, j - 1));
        j -= 1;
    }
    slice_subrange(s, i, j)
}

pub(crate) fn find(s: &[char], c: char) -> (r: usize)
    ensures
        r == place_of(s@, c),
        r <= s.len(),
{
    let mut i: usize = 0;
    while i < s.len() && s[i] != c
        invariant
            i <= s.len(),
            forall|j: int| 0 <= j < i ==> s@[j] != c,
        ensures
            i <= s.len(),
            i < s.len() ==> s@[i as int] == c,
            forall|j: int| 0 <= j < i ==> s@[j] != c,
        decreases s.len() - i,
    {
        i += 1;
    }
    proof {
        lemma_place_is(s@, c, i as int);
    }
    i
}

pub(crate) fn tail(s: &[char], i: usize) -> (r: &[char])
    requires
        i <= s.len(),
    ensures
        r@ == s@.skip(i as int),
{
    assert(s@.subrange(i as int, s@.len() as int) =~= s@.skip(i as int));
    slice_subrange(s, i, s.len())
}

pub(crate) fn head(s: &[char], i: usize) -> (r: &[char])
    requires
        i <= s.len(),
    ensures
        r@ == s@.take(i as int),
{
    assert(s@.subrange(0, i as int) =~= s@.take(i as int));
    slice_subrange(s, 0, i)
}

pub fn split_once(s: &[char], sep: char) -> (r: Option<(&[char], &[char])>)
    ensures
        match r {
            Some((a, b)) => halves(s@, sep) == Some((a@, b@)),
            None => halves(s@, sep) is None,
        },
{
    let i: usize = find(s, sep);
    if i < s.len() {
        Some((head(s, i), tail(s, i + 1)))
    } else {
        None
    }
}

pub fn split<'a>(s: &'a [char], sep: char) -> (r: Vec<&'a [char]>)
    ensures
        texts(r@) == pieces(s@, sep),
        r@.len() > 0,
{
    let mut out: Vec<&'a [char]> = Vec::new();
    let mut rest: &'a [char] = s;
    let mut i: usize = find(rest, sep);
    proof {
        assert(texts(out@) + pieces(rest@, sep) =~= pieces(s@, sep));
    }
    while i < rest.len()
        invariant
            i == place_of(rest@, sep),
            i <= rest.len(),
            texts(out@) + pieces(rest@, sep) == pieces(s@, sep),
        decreases rest.len(),
    {
        let ghost before = out@;
        let piece: &'a [char] = head(rest, i);
        let left: &'a [char] = tail(rest, i + 1);
        out.push(piece);
        proof {
            assert(texts(out@) =~= texts(before).push(piece@));
            assert(texts(before) + (seq![piece@] + pieces(left@, sep)) =~= texts(before).push(
                piece@,
            ) + pieces(left@, sep));
        }
        rest = left;
        i = find(rest, sep);
    }
    let ghost before = out@;
    out.push(rest);
    proof {
        assert(texts(out@) =~= texts(before).push(rest@));
        assert(texts(before) + seq![rest@] =~= texts(before).push(rest@));
    }
    out
}

/// What stands after the last `sep`.
pub fn rsplit(s: &[char], sep: char) -> (r: Option<&[char]>)
    ensures
        match r {
            Some(a) => after_last(s@, sep) == Some(a@),
            None => after_last(s@, sep) is None,
        },
{
    let mut n: usize = s.len();
    assert(s@.take(n as int) =~= s@);
    while n > 0
        invariant
            n <= s.len(),
            last_place_of(s@, sep) == last_place_of(s@.take(n as int), sep),
        decreases n,
    {
        if s[n - 1] == sep {
            return Some(tail(s, n));
        }
        assert(s@.take(n as int).drop_last() =~= s@.take(n - 1));
        n -= 1;
    }
    None
}

pub fn lines<'a>(s: &'a [char]) -> (r: Vec<&'a [char]>)
    ensures
        texts(r@) == lines_of(s@),
{
    let mut out: Vec<&'a [char]> = Vec::new();
    let mut rest: &'a [char] = s;
    proof {
        assert(texts(out@) + lines_of(rest@) =~= lines_of(s@));
    }
    while rest.len() > 0
        invariant
            texts(out@) + lines_of(rest@) == lines_of(s@),
        decreases rest.len(),
    {
        let ghost before = out@;
        let i: usize = find(rest, '\n');
        if i == rest.len() {
            out.push(rest);
            proof {
                assert(texts(out@) =~= texts(before).push(rest@));
                assert(texts(before) + seq![rest@] =~= texts(before).push(rest@));
            }
            return out;
        }
        let whole: &'a [char] = head(rest, i);
        let line: &'a [char] = if whole.len() > 0 && whole[whole.len() - 1] == '\r' {
            head(whole, whole.len() - 1)
        } else {
            whole
        };
        assert(line@ =~= chomped(whole@));
        let left: &'a [char] = tail(rest, i + 1);
        out.push(line);
        proof {
            assert(texts(out@) =~= texts(before).push(line@));
            assert(texts(before) + (seq![line@] + lines_of(left@)) =~= texts(before).push(line@)
                + lines_of(left@));
        }
        rest = left;
    }
    assert(texts(out@) + lines_of(rest@) =~= texts(out@));
    out
}

pub fn words<'a>(s: &'a [char]) -> (r: Vec<&'a [char]>)
    ensures
        texts(r@) == words_of(s@),
        forall|i: int| 0 <= i < r@.len() ==> (#[trigger] r@[i])@.len() > 0,
{
    let mut out: Vec<&'a [char]> = Vec::new();
    let mut rest: &'a [char] = s;
    proof {
        assert(texts(out@) + words_of(rest@) =~= words_of(s@));
    }
    while rest.len() > 0
        invariant
            texts(out@) + words_of(rest@) == words_of(s@),
            forall|i: int| 0 <= i < out@.len() ==> (#[trigger] out@[i])@.len() > 0,
        decreases rest.len(),
    {
        if space(rest[0]) {
            rest = tail(rest, 1);
        } else {
            let ghost before = out@;
            let mut n: usize = 0;
            proof {
                lemma_word_len(rest@);
                assert(rest@.skip(0) =~= rest@);
            }
            while n < rest.len() && !space(rest[n])
                invariant
                    n <= rest.len(),
                    word_len(rest@) == n + word_len(rest@.skip(n as int)),
                ensures
                    n <= rest.len(),
                    word_len(rest@) == n,
                decreases rest.len() - n,
            {
                assert(rest@.skip(n as int).skip(1) =~= rest@.skip(n + 1));
                n += 1;
            }
            let word: &'a [char] = head(rest, n);
            let left: &'a [char] = tail(rest, n);
            out.push(word);
            proof {
                assert(texts(out@) =~= texts(before).push(word@));
                assert(texts(before) + (seq![word@] + words_of(left@)) =~= texts(before).push(
                    word@,
                ) + words_of(left@));
            }
            rest = left;
        }
    }
    assert(texts(out@) + words_of(rest@) =~= texts(out@));
    out
}

/// What follows the prefix `p`.
pub fn strip_prefix<'a>(s: &'a [char], p: &str) -> (r: Option<&'a [char]>)
    ensures
        match r {
            Some(t) => begins(s@, p@) && t@ == s@.skip(p@.len() as int),
            None => !begins(s@, p@),
        },
{
    let v: Vec<char> = chars_of(p);
    if v.len() <= s.len() && same_chars(head(s, v.len()), v.as_slice()) {
        Some(tail(s, v.len()))
    } else {
        None
    }
}

pub fn starts_with(s: &[char], p: &str) -> (r: bool)
    ensures
        r == begins(s@, p@),
{
    strip_prefix(s, p).is_some()
}

pub fn ends_with(s: &[char], p: &str) -> (r: bool)
    ensures
        r == ends(s@, p@),
{
    let v: Vec<char> = chars_of(p);
    v.len() <= s.len() && same_chars(tail(s, s.len() - v.len()), v.as_slice())
}

/// Whether `p` occurs in `s`.
pub fn contains(s: &[char], p: &str) -> (r: bool)
    ensures
        r == occurs(s@, p@),
{
    let mut i: usize = 0;
    loop
        invariant
            i <= s.len(),
            forall|j: int| 0 <= j < i ==> !begins(#[trigger] s@.skip(j), p@),
        decreases s.len() - i,
    {
        if starts_with(tail(s, i), p) {
            return true;
        }
        if i == s.len() {
            return false;
        }
        i += 1;
    }
}

pub(crate) fn digit(c: char, radix: u32) -> (r: Option<u32>)
    requires
        radix <= 16,
    ensures
        match r {
            Some(d) => digit_of(c, radix as nat) == Some(d as nat) && d < radix,
            None => digit_of(c, radix as nat) is None,
        },
{
    let n: u32 = c as u32;
    let d: u32 = if 48 <= n && n <= 57 {
        n - 48
    } else if 97 <= n && n <= 102 {
        n - 87
    } else if 65 <= n && n <= 70 {
        n - 55
    } else {
        16
    };
    if d < radix {
        Some(d)
    } else {
        None
    }
}

proof fn lemma_digits_grow(s: Seq<char>, i: int, radix: nat)
    requires
        0 <= i <= s.len(),
        radix >= 1,
    ensures
        digits_value(s.take(i), radix) <= digits_value(s, radix),
    decreases s.len(),
{
    if i == s.len() {
        assert(s.take(i) =~= s);
    } else {
        lemma_digits_grow(s.drop_last(), i, radix);
        assert(s.drop_last().take(i) =~= s.take(i));
        let v = digits_value(s.drop_last(), radix);
        assert(v * radix >= v) by (nonlinear_arith)
            requires
                radix >= 1,
        ;
    }
}

/// The value of a run of digits, or none where it is empty, holds another character,
/// or is above `max`.
fn digits(s: &[char], radix: u32, max: u128) -> (r: Option<u128>)
    requires
        1 <= radix <= 16,
        max <= u64::MAX,
    ensures
        match r {
            Some(v) => s@.len() > 0 && all_digits(s@, radix as nat) && digits_value(
                s@,
                radix as nat,
            ) == v && v <= max,
            None => s@.len() == 0 || !all_digits(s@, radix as nat) || digits_value(
                s@,
                radix as nat,
            ) > max,
        },
{
    if s.len() == 0 {
        return None;
    }
    let mut v: u128 = 0;
    let mut big: bool = false;
    let mut i: usize = 0;
    while i < s.len()
        invariant
            1 <= radix <= 16,
            max <= u64::MAX,
            i <= s.len(),
            all_digits(s@.take(i as int), radix as nat),
            !big ==> v <= max && v == digits_value(s@.take(i as int), radix as nat),
            big ==> digits_value(s@.take(i as int), radix as nat) > max,
        decreases s.len() - i,
    {
        let ghost next = s@.take(i + 1);
        proof {
            assert(next.drop_last() =~= s@.take(i as int));
            assert(next.last() == s@[i as int]);
        }
        match digit(s[i], radix) {
            None => {
                return None;
            },
            Some(d) => {
                proof {
                    assert(all_digits(next, radix as nat)) by {
                        assert forall|j: int| 0 <= j < next.len() implies digit_of(
                            #[trigger] next[j],
                            radix as nat,
                        ) is Some by {
                            if j < i {
                                assert(s@.take(i as int)[j] == next[j]);
                            }
                        }
                    }
                    let w = digits_value(s@.take(i as int), radix as nat);
                    assert(w * radix as nat >= w) by (nonlinear_arith)
                        requires
                            radix >= 1,
                    ;
                }
                if !big {
                    assert(v * radix as u128 <= u64::MAX as u128 * 16) by (nonlinear_arith)
                        requires
                            v <= u64::MAX,
                            radix <= 16,
                    ;
                    v = v * (radix as u128) + d as u128;
                    if v > max {
                        big = true;
                    }
                }
            },
        }
        i += 1;
    }
    assert(s@.take(i as int) =~= s@);
    if big {
        None
    } else {
        Some(v)
    }
}

fn unsigned(s: &[char], radix: u32, max: u128) -> (r: Option<u128>)
    requires
        1 <= radix <= 16,
        max <= u64::MAX,
    ensures
        match r {
            Some(v) => unsigned_of(s@, radix as nat, max as nat) == Some(v as nat) && v <= max,
            None => unsigned_of(s@, radix as nat, max as nat) is None,
        },
{
    if s.len() > 0 && s[0] == '+' {
        digits(tail(s, 1), radix, max)
    } else {
        digits(s, radix, max)
    }
}

pub fn parse_u64(s: &[char]) -> (r: Option<u64>)
    ensures
        match r {
            Some(v) => unsigned_of(s@, 10, u64::MAX as nat) == Some(v as nat),
            None => unsigned_of(s@, 10, u64::MAX as nat) is None,
        },
{
    match unsigned(s, 10, u64::MAX as u128) {
        Some(v) => Some(v as u64),
        None => None,
    }
}

pub fn parse_u32(s: &[char]) -> (r: Option<u32>)
    ensures
        match r {
            Some(v) => unsigned_of(s@, 10, u32::MAX as nat) == Some(v as nat),
            None => unsigned_of(s@, 10, u32::MAX as nat) is None,
        },
{
    match unsigned(s, 10, u32::MAX as u128) {
        Some(v) => Some(v as u32),
        None => None,
    }
}

pub fn parse_u8(s: &[char]) -> (r: Option<u8>)
    ensures
        match r {
            Some(v) => unsigned_of(s@, 10, u8::MAX as nat) == Some(v as nat),
            None => unsigned_of(s@, 10, u8::MAX as nat) is None,
        },
{
    match unsigned(s, 10, u8::MAX as u128) {
        Some(v) => Some(v as u8),
        None => None,
    }
}

/// A hexadecimal number without a prefix.
pub fn parse_hex(s: &[char]) -> (r: Option<u64>)
    ensures
        match r {
            Some(v) => unsigned_of(s@, 16, u64::MAX as nat) == Some(v as nat),
            None => unsigned_of(s@, 16, u64::MAX as nat) is None,
        },
{
    match unsigned(s, 16, u64::MAX as u128) {
        Some(v) => Some(v as u64),
        None => None,
    }
}

/// A number written `0x..`, `0X..` or in decimal.
pub fn parse_code(s: &[char]) -> (r: Option<u64>)
    ensures
        match r {
            Some(v) => code_of(s@) == Some(v as nat),
            None => code_of(s@) is None,
        },
{
    proof {
        reveal_strlit("0x");
        reveal_strlit("0X");
    }
    match strip_prefix(s, "0x") {
        Some(h) => parse_hex(h),
        None => match strip_prefix(s, "0X") {
            Some(h) => parse_hex(h),
            None => parse_u64(s),
        },
    }
}

fn signed(s: &[char], min: i128, max: i128) -> (r: Option<i128>)
    requires
        -(u64::MAX as int) <= min <= 0 <= max <= u64::MAX,
    ensures
        match r {
            Some(v) => signed_of(s@, min as int, max as int) == Some(v as int) && min <= v <= max,
            None => signed_of(s@, min as int, max as int) is None,
        },
{
    let neg: bool = s.len() > 0 && s[0] == '-';
    let body: &[char] = if s.len() > 0 && (s[0] == '+' || s[0] == '-') {
        tail(s, 1)
    } else {
        s
    };
    let limit: i128 = if neg {
        -min
    } else {
        max
    };
    match digits(body, 10, limit as u128) {
        None => None,
        Some(v) => if neg {
            Some(-(v as i128))
        } else {
            Some(v as i128)
        },
    }
}

pub fn parse_i64(s: &[char]) -> (r: Option<i64>)
    ensures
        match r {
            Some(v) => signed_of(s@, i64::MIN as int, i64::MAX as int) == Some(v as int),
            None => signed_of(s@, i64::MIN as int, i64::MAX as int) is None,
        },
{
    match signed(s, i64::MIN as i128, i64::MAX as i128) {
        Some(v) => Some(v as i64),
        None => None,
    }
}

pub fn parse_i32(s: &[char]) -> (r: Option<i32>)
    ensures
        match r {
            Some(v) => signed_of(s@, i32::MIN as int, i32::MAX as int) == Some(v as int),
            None => signed_of(s@, i32::MIN as int, i32::MAX as int) is None,
        },
{
    match signed(s, i32::MIN as i128, i32::MAX as i128) {
        Some(v) => Some(v as i32),
        None => None,
    }
}

pub(crate) fn lower(c: char) -> (r: char)
    ensures
        r == ascii_lower(c),
{
    let n: u32 = c as u32;
    if 65 <= n && n <= 90 {
        ((n + 32) as u8) as char
    } else {
        c
    }
}

/// Whether `s` is `t` but for the case of ASCII letters.
pub fn is_ignoring_case(s: &[char], t: &str) -> (r: bool)
    ensures
        r == (s@.map_values(|c: char| ascii_lower(c)) == t@.map_values(|c: char| ascii_lower(c))),
{
    let v: Vec<char> = chars_of(t);
    let ghost a = s@.map_values(|c: char| ascii_lower(c));
    let ghost b = t@.map_values(|c: char| ascii_lower(c));
    if v.len() != s.len() {
        assert(a.len() != b.len());
        return false;
    }
    let mut i: usize = 0;
    while i < s.len()
        invariant
            i <= s.len(),
            s.len() == v.len(),
            v@ == t@,
            a == s@.map_values(|c: char| ascii_lower(c)),
            b == t@.map_values(|c: char| ascii_lower(c)),
            forall|j: int| 0 <= j < i ==> a[j] == b[j],
        decreases s.len() - i,
    {
        if lower(s[i]) != lower(v[i]) {
            assert(a[i as int] != b[i as int]);
            return false;
        }
        i += 1;
    }
    assert(a =~= b);
    true
}

fn code_point(c: char) -> (r: u32)
    ensures
        r == c as int,
{
    c as u32
}

/// Whether the text `a` comes before `b`.
pub fn less(a: &[char], b: &[char]) -> (r: bool)
    ensures
        r == text_less(a@, b@),
{
    let mut i: usize = 0;
    assert(a@.skip(0) =~= a@ && b@.skip(0) =~= b@);
    loop
        invariant
            i <= a.len(),
            i <= b.len(),
            text_less(a@, b@) == text_less(a@.skip(i as int), b@.skip(i as int)),
        decreases a.len() - i,
    {
        if i == b.len() {
            return false;
        }
        if i == a.len() {
            return true;
        }
        let x: char = a[i];
        let y: char = b[i];
        if x != y {
            assert(a@.skip(i as int)[0] == x && b@.skip(i as int)[0] == y);
            return code_point(x) < code_point(y);
        }
        assert(a@.skip(i as int).skip(1) =~= a@.skip(i + 1));
        assert(b@.skip(i as int).skip(1) =~= b@.skip(i + 1));
        i += 1;
    }
}

/// `s` with each occurrence of `from` replaced by `to`.
pub fn replace(s: &[char], from: &str, to: &str) -> (r: String)
    requires
        from@.len() > 0,
    ensures
        r@ == replaced(s@, from@, to@),
{
    let mut out: String = String::new();
    let mut rest: &[char] = s;
    assert(out@ + replaced(rest@, from@, to@) =~= replaced(s@, from@, to@));
    while rest.len() > 0
        invariant
            from@.len() > 0,
            out@ + replaced(rest@, from@, to@) == replaced(s@, from@, to@),
        decreases rest.len(),
    {
        let ghost before = out@;
        match strip_prefix(rest, from) {
            Some(left) => {
                out.append(to);
                assert(before + (to@ + replaced(left@, from@, to@)) =~= before + to@ + replaced(
                    left@,
                    from@,
                    to@,
                ));
                rest = left;
            },
            None => {
                let c: char = rest[0];
                out.push(c);
                let left: &[char] = tail(rest, 1);
                assert(before + (seq![c] + replaced(left@, from@, to@)) =~= before.push(c)
                    + replaced(left@, from@, to@));
                rest = left;
            },
        }
    }
    assert(out@ + Seq::<char>::empty() =~= out@);
    out
}

/// `s` with the first occurrence of `from` replaced by `to`.
pub fn replace_once(s: &[char], from: &str, to: &str) -> (r: String)
    ensures
        r@ == replaced_once(s@, from@, to@),
{
    let mut out: String = String::new();
    let mut i: usize = 0;
    assert(s@.skip(0) =~= s@);
    assert(out@ + replaced_once(s@.skip(0), from@, to@) =~= replaced_once(s@, from@, to@));
    while i < s.len()
        invariant
            i <= s.len(),
            out@ + replaced_once(s@.skip(i as int), from@, to@) == replaced_once(s@, from@, to@),
        decreases s.len() - i,
    {
        let rest: &[char] = tail(s, i);
        match strip_prefix(rest, from) {
            Some(after) => {
                out.append(to);
                out.append(string_of(after).as_str());
                assert(out@ =~= replaced_once(s@, from@, to@));
                return out;
            },
            None => {},
        }
        proof {
            assert(rest@[0] == s@[i as int]);
            assert(rest@.skip(1) =~= s@.skip(i + 1));
        }
        let ghost before = out@;
        out.push(s[i]);
        i += 1;
        assert(out@ + replaced_once(s@.skip(i as int), from@, to@) =~= before + (seq![s@[i - 1]]
            + replaced_once(s@.skip(i as int), from@, to@)));
    }
    assert(out@ =~= replaced_once(s@, from@, to@));
    out
}

/// The strings with `sep` between them.
pub fn join(v: &Vec<String>, sep: &str) -> (r: String)
    ensures
        r@ == joined(strings(v@), sep@),
{
    let mut out: String = String::new();
    let mut i: usize = 0;
    assert(strings(v@).take(0) =~= Seq::empty());
    while i < v.len()
        invariant
            i <= v.len(),
            out@ == joined(strings(v@).take(i as int), sep@),
        decreases v.len() - i,
    {
        proof {
            let next = strings(v@).take(i + 1);
            assert(next.drop_last() =~= strings(v@).take(i as int));
            assert(next.last() == v@[i as int]@);
        }
        if i > 0 {
            out.append(sep);
        }
        out.append(v[i].as_str());
        assert(i == 0 ==> out@ =~= v@[0]@);
        i += 1;
    }
    assert(strings(v@).take(i as int) =~= strings(v@));
    out
}

/// Whether a text is one of a list.
pub fn contains_text(v: &Vec<String>, s: &str) -> (r: bool)
    ensures
        r == strings(v@).contains(s@),
{
    let ghost all = strings(v@);
    let mut i: usize = 0;
    while i < v.len()
        invariant
            i <= v.len(),
            all == strings(v@),
            forall|k: int| 0 <= k < i ==> all[k] != s@,
        decreases v.len() - i,
    {
        assert(all[i as int] == v@[i as int]@);
        if same(v[i].as_str(), s) {
            assert(all.contains(s@));
            return true;
        }
        i += 1;
    }
    false
}

} // verus!

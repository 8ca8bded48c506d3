//! Reading of numbers and lists of numbers, and writing of numbers.

use vstd::prelude::*;

verus! {

/// The characters with the Unicode property White_Space.
pub open spec fn white_space(c: char) -> bool {
    ||| '\u{9}' <= c <= '\u{d}'
    ||| c == ' '
    ||| c == '\u{85}'
    ||| c == '\u{a0}'
    ||| c == '\u{1680}'
    ||| '\u{2000}' <= c <= '\u{200a}'
    ||| c == '\u{2028}'
    ||| c == '\u{2029}'
    ||| c == '\u{202f}'
    ||| c == '\u{205f}'
    ||| c == '\u{3000}'
}

/// The longest runs of characters that are not white space, in order.
pub open spec fn words(s: Seq<char>) -> Seq<Seq<char>>
    decreases s.len(),
{
    if s.len() == 0 {
        Seq::empty()
    } else {
        let before = words(s.drop_last());
        let c = s.last();
        if white_space(c) {
            before
        } else if s.len() == 1 || white_space(s[s.len() - 2]) {
            before.push(seq![c])
        } else {
            before.drop_last().push(before.last().push(c))
        }
    }
}

/// `s` without the white space at its start.
pub open spec fn trimmed_start(s: Seq<char>) -> Seq<char>
    decreases s.len(),
{
    if s.len() > 0 && white_space(s[0]) {
        trimmed_start(s.drop_first())
    } else {
        s
    }
}

/// `s` without the white space at its end.
pub open spec fn trimmed_end(s: Seq<char>) -> Seq<char>
    decreases s.len(),
{
    if s.len() > 0 && white_space(s.last()) {
        trimmed_end(s.drop_last())
    } else {
        s
    }
}

/// `s` without the white space at both ends.
pub open spec fn trimmed(s: Seq<char>) -> Seq<char> {
    trimmed_end(trimmed_start(s))
}

pub open spec fn decimal_digit(c: char) -> bool {
    '0' <= c <= '9'
}

/// `s` is a row of one or more decimal digits.
pub open spec fn all_digits(s: Seq<char>) -> bool {
    s.len() > 0 && forall|i: int| 0 <= i < s.len() ==> decimal_digit(#[trigger] s[i])
}

/// The number that a row of decimal digits stands for.
pub open spec fn decimal_value(s: Seq<char>) -> nat
    decreases s.len(),
{
    if s.len() == 0 {
        0
    } else {
        10 * decimal_value(s.drop_last()) + (s.last() as nat - '0' as nat) as nat
    }
}

/// The number that `s` stands for: decimal digits after an optional plus sign.
pub open spec fn unsigned_number(s: Seq<char>) -> Option<nat> {
    if s.len() > 0 && s[0] == '+' {
        if all_digits(s.drop_first()) {
            Some(decimal_value(s.drop_first()))
        } else {
            None
        }
    } else if all_digits(s) {
        Some(decimal_value(s))
    } else {
        None
    }
}

/// The number that `s` stands for: decimal digits after an optional sign.
pub open spec fn signed_number(s: Seq<char>) -> Option<int> {
    if s.len() > 0 && s[0] == '-' {
        if all_digits(s.drop_first()) {
            Some(-(decimal_value(s.drop_first()) as int))
        } else {
            None
        }
    } else {
        match unsigned_number(s) {
            Some(n) => Some(n as int),
            None => None,
        }
    }
}

/// `s` as a number of the type `u64`.
pub open spec fn read_u64(s: Seq<char>) -> Option<u64> {
    match unsigned_number(s) {
        Some(n) => if n <= u64::MAX {
            Some(n as u64)
        } else {
            None
        },
        None => None,
    }
}

/// `s` as a number of the type `usize`.
pub open spec fn read_usize(s: Seq<char>) -> Option<usize> {
    match unsigned_number(s) {
        Some(n) => if n <= usize::MAX {
            Some(n as usize)
        } else {
            None
        },
        None => None,
    }
}

/// `s` as a number of the type `isize`.
pub open spec fn read_isize(s: Seq<char>) -> Option<isize> {
    match signed_number(s) {
        Some(n) => if isize::MIN <= n <= isize::MAX {
            Some(n as isize)
        } else {
            None
        },
        None => None,
    }
}

/// `s` as a number of the type `i32`.
pub open spec fn read_i32(s: Seq<char>) -> Option<i32> {
    match signed_number(s) {
        Some(n) => if i32::MIN <= n <= i32::MAX {
            Some(n as i32)
        } else {
            None
        },
        None => None,
    }
}

/// The number of bytes of a character in UTF-8.
pub open spec fn utf8_width(c: char) -> nat {
    if c <= '\u{7f}' {
        1
    } else if c <= '\u{7ff}' {
        2
    } else if c <= '\u{ffff}' {
        3
    } else {
        4
    }
}

/// What follows the first `n` bytes of `s`, where these are whole characters.
pub open spec fn after_bytes(s: Seq<char>, n: nat) -> Option<Seq<char>>
    decreases s.len(),
{
    if n == 0 {
        Some(s)
    } else if s.len() == 0 || utf8_width(s[0]) > n {
        None
    } else {
        after_bytes(s.drop_first(), (n - utf8_width(s[0])) as nat)
    }
}

/// The decimal digits of a number.
pub open spec fn decimal(n: nat) -> Seq<char>
    decreases n,
{
    let last = seq![('0' as nat + n % 10) as char];
    if n < 10 {
        last
    } else {
        decimal(n / 10) + last
    }
}

/// What precedes the first `mark` in `s`; all of `s` where there is none.
pub open spec fn up_to(s: Seq<char>, mark: char) -> Seq<char>
    decreases s.len(),
{
    if s.len() == 0 || s[0] == mark {
        Seq::empty()
    } else {
        seq![s[0]] + up_to(s.drop_first(), mark)
    }
}

/// The characters of each of some words.
pub open spec fn spelled(v: Seq<Vec<char>>) -> Seq<Seq<char>> {
    Seq::new(v.len(), |i: int| v[i]@)
}

fn is_white_space(c: char) -> (r: bool)
    ensures
        r == white_space(c),
{
    ('\u{9}' <= c && c <= '\u{d}') || c == ' ' || c == '\u{85}' || c == '\u{a0}' || c == '\u{1680}'
        || ('\u{2000}' <= c && c <= '\u{200a}') || c == '\u{2028}' || c == '\u{2029}' || c
        == '\u{202f}' || c == '\u{205f}' || c == '\u{3000}'
}

/// The characters of a string.
pub fn characters(s: &str) -> (r: Vec<char>)
    ensures
        r@ == s@,
{
    broadcast use vstd::string::axiom_spec_iter;

    let mut r: Vec<char> = Vec::new();
    for c in it: s.chars()
        invariant
            it.seq() == s@,
            r@ == s@.take(it.index() as int),
    {
        r.push(c);
    }
    assert(r@ == s@);
    r
}

/// The words of a string.
pub fn split_whitespace(s: &str) -> (r: Vec<Vec<char>>)
    ensures
        spelled(r@) == words(s@),
{
    let chars = characters(s);
    let mut r: Vec<Vec<char>> = Vec::new();
    let mut i: usize = 0;
    assert(spelled(r@) == words(s@.take(0)));
    while i < chars.len()
        invariant
            chars@ == s@,
            i <= chars@.len(),
            spelled(r@) == words(s@.take(i as int)),
            i > 0 && !white_space(s@[i - 1]) ==> r@.len() > 0,
        decreases chars@.len() - i,
    {
        let c = chars[i];
        let ghost before = r@;
        assert(s@.take(i + 1).drop_last() == s@.take(i as int));
        if !is_white_space(c) {
            if i == 0 || is_white_space(chars[i - 1]) {
                let mut word: Vec<char> = Vec::new();
                word.push(c);
                r.push(word);
                assert(word@ == seq![c]);
                assert(spelled(r@) == spelled(before).push(seq![c]));
            } else {
                let mut word: Vec<char> = r.pop().unwrap();
                word.push(c);
                r.push(word);
                assert(spelled(r@) == spelled(before).drop_last().push(
                    spelled(before).last().push(c),
                ));
            }
        }
        i = i + 1;
    }
    assert(s@.take(i as int) == s@);
    r
}

/// The number that the digits from `from` on stand for, where there are some, they are all
/// digits, and the number fits.
fn parse_digits(chars: &Vec<char>, from: usize) -> (r: Option<u64>)
    requires
        from <= chars@.len(),
    ensures
        ({
            let s = chars@.skip(from as int);
            r == (if all_digits(s) && decimal_value(s) <= u64::MAX {
                Some(decimal_value(s) as u64)
            } else {
                None::<u64>
            })
        }),
{
    let ghost s = chars@.skip(from as int);
    if from == chars.len() {
        return None;
    }
    let mut n: u64 = 0;
    let mut i: usize = from;
    assert(s.take(0) == Seq::<char>::empty());
    while i < chars.len()
        invariant
            from <= i <= chars@.len(),
            s == chars@.skip(from as int),
            n == decimal_value(s.take(i - from)),
            forall|k: int| 0 <= k < i - from ==> decimal_digit(#[trigger] s[k]),
        decreases chars@.len() - i,
    {
        let c = chars[i];
        assert(s[i - from] == c);
        if c < '0' || c > '9' {
            return None;
        }
        proof {
            assert(s.take(i - from + 1).drop_last() == s.take(i - from));
        }
        let digit: u64 = (c as u64) - ('0' as u64);
        let next: u128 = 10 * (n as u128) + (digit as u128);
        if next > u64::MAX as u128 {
            proof {
                if all_digits(s) {
                    lemma_decimal_value_grows(s, (i - from + 1) as nat);
                }
            }
            return None;
        }
        n = next as u64;
        i = i + 1;
    }
    assert(s.take(i - from) == s);
    Some(n)
}

proof fn lemma_decimal_value_grows(s: Seq<char>, n: nat)
    requires
        n <= s.len(),
    ensures
        decimal_value(s.take(n as int)) <= decimal_value(s),
    decreases s.len() - n,
{
    if n == s.len() {
        assert(s.take(n as int) == s);
    } else {
        lemma_decimal_value_grows(s, n + 1);
        assert(s.take((n + 1) as int).drop_last() == s.take(n as int));
    }
}

/// The number that some characters stand for, where it fits.
fn parse_unsigned(chars: &Vec<char>) -> (r: Option<u64>)
    ensures
        r == read_u64(chars@),
{
    proof {
        assert(chars@.skip(0) == chars@);
        if chars@.len() > 0 {
            assert(chars@.skip(1) == chars@.drop_first());
        }
    }
    if chars.len() > 0 && chars[0] == '+' {
        parse_digits(chars, 1)
    } else {
        parse_digits(chars, 0)
    }
}

/// The number that some characters stand for, where it is not far out of the range of `i64`.
fn parse_signed(chars: &Vec<char>) -> (r: Option<i128>)
    ensures
        r matches Some(n) ==> signed_number(chars@) == Some(n as int),
        r is None ==> match signed_number(chars@) {
            Some(n) => n < i64::MIN || n > i64::MAX,
            None => true,
        },
{
    if chars.len() > 0 && chars[0] == '-' {
        assert(chars@.skip(1) == chars@.drop_first());
        match parse_digits(chars, 1) {
            Some(n) => Some(-(n as i128)),
            None => None,
        }
    } else {
        match parse_unsigned(chars) {
            Some(n) => Some(n as i128),
            None => None,
        }
    }
}

pub fn parse_u64(chars: &Vec<char>) -> (r: Option<u64>)
    ensures
        r == read_u64(chars@),
{
    parse_unsigned(chars)
}

pub fn parse_usize(chars: &Vec<char>) -> (r: Option<usize>)
    ensures
        r == read_usize(chars@),
{
    match parse_unsigned(chars) {
        Some(n) => if n <= usize::MAX as u64 {
            Some(n as usize)
        } else {
            None
        },
        None => None,
    }
}

pub fn parse_isize(chars: &Vec<char>) -> (r: Option<isize>)
    ensures
        r == read_isize(chars@),
{
    match parse_signed(chars) {
        Some(n) => if isize::MIN as i128 <= n && n <= isize::MAX as i128 {
            Some(n as isize)
        } else {
            None
        },
        None => None,
    }
}

pub fn parse_i32(chars: &Vec<char>) -> (r: Option<i32>)
    ensures
        r == read_i32(chars@),
{
    match parse_signed(chars) {
        Some(n) => if i32::MIN as i128 <= n && n <= i32::MAX as i128 {
            Some(n as i32)
        } else {
            None
        },
        None => None,
    }
}

/// The characters of a string without the white space at both ends.
pub fn trim(s: &str) -> (r: Vec<char>)
    ensures
        r@ == trimmed(s@),
{
    let chars = characters(s);
    let mut from: usize = 0;
    assert(s@.skip(0) == s@);
    while from < chars.len() && is_white_space(chars[from])
        invariant
            chars@ == s@,
            from <= chars@.len(),
            trimmed_start(s@) == trimmed_start(s@.skip(from as int)),
        decreases chars@.len() - from,
    {
        assert(s@.skip(from as int).drop_first() == s@.skip(from + 1));
        from = from + 1;
    }
    let ghost rest = s@.skip(from as int);
    assert(trimmed_start(s@) == rest);
    let mut to: usize = chars.len();
    assert(rest.take(to - from) == rest);
    while to > from && is_white_space(chars[to - 1])
        invariant
            chars@ == s@,
            from <= to <= chars@.len(),
            rest == s@.skip(from as int),
            trimmed_end(rest) == trimmed_end(rest.take(to - from)),
        decreases to,
    {
        assert(rest.take(to - from).drop_last() == rest.take(to - from - 1));
        to = to - 1;
    }
    let mut r: Vec<char> = Vec::new();
    let mut i: usize = from;
    while i < to
        invariant
            chars@ == s@,
            from <= i <= to <= chars@.len(),
            r@ == s@.subrange(from as int, i as int),
        decreases to - i,
    {
        r.push(chars[i]);
        i = i + 1;
    }
    assert(r@ == rest.take(to - from));
    r
}

/// The characters after the first `n` bytes of a string, where these are whole characters.
pub fn skip_bytes(s: &str, n: usize) -> (r: Option<Vec<char>>)
    ensures
        match r {
            Some(v) => after_bytes(s@, n as nat) == Some(v@),
            None => after_bytes(s@, n as nat) is None,
        },
{
    let chars = characters(s);
    let mut left: usize = n;
    let mut i: usize = 0;
    assert(s@.skip(0) == s@);
    while left > 0
        invariant
            chars@ == s@,
            i <= chars@.len(),
            after_bytes(s@, n as nat) == after_bytes(s@.skip(i as int), left as nat),
        decreases left,
    {
        if i == chars.len() {
            return None;
        }
        let c = chars[i];
        assert(s@.skip(i as int)[0] == c);
        assert(s@.skip(i as int).drop_first() == s@.skip(i + 1));
        let width: usize = if c <= '\u{7f}' {
            1
        } else if c <= '\u{7ff}' {
            2
        } else if c <= '\u{ffff}' {
            3
        } else {
            4
        };
        if width > left {
            return None;
        }
        left = left - width;
        i = i + 1;
    }
    let mut r: Vec<char> = Vec::new();
    let ghost start = i;
    while i < chars.len()
        invariant
            chars@ == s@,
            start <= i <= chars@.len(),
            r@ == s@.subrange(start as int, i as int),
        decreases chars@.len() - i,
    {
        r.push(chars[i]);
        i = i + 1;
    }
    assert(r@ == s@.skip(start as int));
    Some(r)
}

/// The decimal digit of a number below ten.
fn digit(d: u32) -> (r: &'static str)
    requires
        d < 10,
    ensures
        r@ == seq![('0' as nat + d as nat) as char],
{
    proof {
        reveal_strlit("0");
        reveal_strlit("1");
        reveal_strlit("2");
        reveal_strlit("3");
        reveal_strlit("4");
        reveal_strlit("5");
        reveal_strlit("6");
        reveal_strlit("7");
        reveal_strlit("8");
        reveal_strlit("9");
    }
    match d {
        0 => "0",
        1 => "1",
        2 => "2",
        3 => "3",
        4 => "4",
        5 => "5",
        6 => "6",
        7 => "7",
        8 => "8",
        _ => "9",
    }
}

/// A number written in decimal digits.
pub fn decimal_text(n: u32) -> (r: String)
    ensures
        r@ == decimal(n as nat),
    decreases n,
{
    if n < 10 {
        digit(n).to_owned()
    } else {
        let mut r = decimal_text(n / 10);
        r.append(digit(n % 10));
        r
    }
}

/// What precedes the first `mark` in a string; all of it where there is none.
pub fn text_before(s: &str, mark: char) -> (r: &str)
    ensures
        r@ == up_to(s@, mark),
{
    let chars = characters(s);
    let mut i: usize = 0;
    assert(s@.skip(0) == s@);
    assert(s@.take(0) + up_to(s@.skip(0), mark) == up_to(s@, mark));
    while i < chars.len() && chars[i] != mark
        invariant
            chars@ == s@,
            i <= chars@.len(),
            s@.take(i as int) + up_to(s@.skip(i as int), mark) == up_to(s@, mark),
        decreases chars@.len() - i,
    {
        assert(s@.skip(i as int).drop_first() == s@.skip(i + 1));
        assert(s@.take(i as int) + (seq![s@[i as int]] + up_to(s@.skip(i + 1), mark)) == s@.take(
            i + 1,
        ) + up_to(s@.skip(i + 1), mark));
        i = i + 1;
    }
    assert(s@.take(i as int) + Seq::<char>::empty() == s@.take(i as int));
    s.substring_char(0, i)
}

/// A text without the mark is all that precedes the mark behind it.
pub proof fn lemma_up_to(s: Seq<char>, rest: Seq<char>, mark: char)
    requires
        !s.contains(mark),
    ensures
        up_to(s + seq![mark] + rest, mark) == s,
        up_to(s, mark) == s,
    decreases s.len(),
{
    let all = s + seq![mark] + rest;
    if s.len() == 0 {
        assert(all[0] == mark);
    } else {
        let t = s.drop_first();
        assert(s[0] != mark);
        assert(!t.contains(mark)) by {
            if t.contains(mark) {
                let k = choose|k: int| 0 <= k < t.len() && t[k] == mark;
                assert(s[k + 1] == mark);
            }
        }
        lemma_up_to(t, rest, mark);
        assert(all.drop_first() == t + seq![mark] + rest);
        assert(seq![s[0]] + t == s);
    }
}

pub proof fn lemma_decimal_digits(n: nat)
    ensures
        all_digits(decimal(n)),
        decimal_value(decimal(n)) == n,
    decreases n,
{
    let c = ('0' as nat + n % 10) as char;
    let s = decimal(n);
    assert(s.last() == c);
    if n < 10 {
        assert(s.drop_last() == Seq::<char>::empty());
        assert(decimal_value(Seq::<char>::empty()) == 0);
    } else {
        lemma_decimal_digits(n / 10);
        assert(s.drop_last() == decimal(n / 10));
        assert forall|i: int| 0 <= i < s.len() implies decimal_digit(#[trigger] s[i]) by {
            if i < decimal(n / 10).len() {
                assert(decimal(n / 10)[i] == s[i]);
            }
        }
    }
}

/// A number that has been written is read back as it was.
pub proof fn lemma_written_is_read(n: u64)
    ensures
        read_u64(decimal(n as nat)) == Some(n),
{
    lemma_decimal_digits(n as nat);
    assert(decimal_digit(decimal(n as nat)[0]));
}

} // verus!

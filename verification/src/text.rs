//! Characters of a text, decimal numbers, and the few character classes
//! that the pattern formats and the renderer need.

use vstd::prelude::*;
use vstd::string::*;

verus! {

/// The characters of `s`, in order.
pub fn chars_of(s: &str) -> (chars: Vec<char>)
    ensures
        chars@ == s@,
{
    let mut chars: Vec<char> = Vec::new();
    for c in it: s.chars()
        invariant
            chars@ == it.seq().take(it.index() as int),
            it.seq() == s@,
    {
        chars.push(c);
    }
    chars
}

/// `c` is one of the decimal digits `0` to `9`.
pub open spec fn is_digit(c: char) -> bool {
    '0' <= c <= '9'
}

/// The value of the decimal digit `c`.
pub open spec fn digit_value(c: char) -> nat {
    (c as u32 - '0' as u32) as nat
}

/// The number that the digit string `s` denotes in base ten; 0 for the
/// empty string.
pub open spec fn decimal_value(s: Seq<char>) -> nat
    decreases s.len(),
{
    if s.len() == 0 {
        0
    } else {
        10 * decimal_value(s.drop_last()) + digit_value(s.last())
    }
}

/// The first position at or after `i` that holds no decimal digit; the
/// length of `s` if digits fill the rest.
pub open spec fn digits_end(s: Seq<char>, i: int) -> int
    decreases s.len() - i,
{
    if 0 <= i < s.len() && is_digit(s[i]) {
        digits_end(s, i + 1)
    } else {
        i
    }
}

/// `digits_end` does not move backwards, stays inside the text, and passes
/// over digits only.
pub proof fn lemma_digits_end(s: Seq<char>, i: int)
    requires
        0 <= i <= s.len(),
    ensures
        i <= digits_end(s, i) <= s.len(),
        forall|k: int| i <= k < digits_end(s, i) ==> is_digit(#[trigger] s[k]),
        digits_end(s, i) < s.len() ==> !is_digit(s[digits_end(s, i)]),
    decreases s.len() - i,
{
    if i < s.len() && is_digit(s[i]) {
        lemma_digits_end(s, i + 1);
    }
}

/// Reads the decimal number that starts at `start`.  Returns the position
/// behind its last digit, and the number unless it exceeds `usize::MAX`.
pub fn scan_number(text: &[char], start: usize) -> (r: (usize, Option<usize>))
    requires
        start <= text@.len(),
    ensures
        r.0 == digits_end(text@, start as int),
        decimal_value(text@.subrange(start as int, r.0 as int)) <= usize::MAX ==> r.1 == Some(
            decimal_value(text@.subrange(start as int, r.0 as int)) as usize,
        ),
        decimal_value(text@.subrange(start as int, r.0 as int)) > usize::MAX ==> r.1.is_none(),
{
    let mut i: usize = start;
    let mut value: Option<usize> = Some(0);
    proof {
        lemma_digits_end(text@, start as int);
        assert(text@.subrange(start as int, start as int) =~= Seq::<char>::empty());
    }
    while i < text.len() && '0' <= text[i] && text[i] <= '9'
        invariant
            start <= i <= text@.len(),
            digits_end(text@, i as int) == digits_end(text@, start as int),
            decimal_value(text@.subrange(start as int, i as int)) <= usize::MAX ==> value == Some(
                decimal_value(text@.subrange(start as int, i as int)) as usize,
            ),
            decimal_value(text@.subrange(start as int, i as int)) > usize::MAX ==> value.is_none(),
        decreases text@.len() - i,
    {
        let digit: usize = (text[i] as u32 - '0' as u32) as usize;
        proof {
            let next = text@.subrange(start as int, i + 1);
            assert(next.drop_last() =~= text@.subrange(start as int, i as int));
            assert(next.last() == text@[i as int]);
        }
        value = match value {
            Some(v) => {
                if v <= (usize::MAX - digit) / 10 {
                    Some(10 * v + digit)
                } else {
                    None
                }
            },
            None => None,
        };
        i += 1;
    }
    (i, value)
}

/// The character of the decimal digit `d`.
pub open spec fn digit_char(d: nat) -> char {
    if d == 0 {
        '0'
    } else if d == 1 {
        '1'
    } else if d == 2 {
        '2'
    } else if d == 3 {
        '3'
    } else if d == 4 {
        '4'
    } else if d == 5 {
        '5'
    } else if d == 6 {
        '6'
    } else if d == 7 {
        '7'
    } else if d == 8 {
        '8'
    } else {
        '9'
    }
}

/// The decimal text of `n`, without leading zeros.
pub open spec fn decimal_text(n: nat) -> Seq<char>
    decreases n,
{
    if n < 10 {
        seq![digit_char(n)]
    } else {
        decimal_text(n / 10).push(digit_char(n % 10))
    }
}

/// The one-character text of the decimal digit `d`.
fn digit_str(d: usize) -> (s: &'static str)
    requires
        d < 10,
    ensures
        s@ == seq![digit_char(d as nat)],
{
    proof {
        reveal_strlit("0");
        reveal_strlit("1");
        reveal_strlit("2");
        reveal_strlit("3");
        reveal_strlit("4");
        reveal_strlit("5");
        reveal_strlit("6");
        reveal_strlit("7");
        reveal_strlit("8");
        reveal_strlit("9");
    }
    let s = match d {
        0 => "0",
        1 => "1",
        2 => "2",
        3 => "3",
        4 => "4",
        5 => "5",
        6 => "6",
        7 => "7",
        8 => "8",
        _ => "9",
    };
    assert(s@ =~= seq![digit_char(d as nat)]);
    s
}

/// Appends the decimal text of `n` to `out`.
pub fn push_decimal(out: &mut String, n: usize)
    ensures
        final(out)@ == old(out)@ + decimal_text(n as nat),
    decreases n,
{
    if n >= 10 {
        push_decimal(out, n / 10);
    }
    out.append(digit_str(n % 10));
    assert(out@ =~= old(out)@ + decimal_text(n as nat));
}

/// The position of the first line break at or after `i`; the length of `s`
/// if there is none.
pub open spec fn line_end(s: Seq<char>, i: int) -> int
    decreases s.len() - i,
{
    if 0 <= i < s.len() && s[i] != '\n' {
        line_end(s, i + 1)
    } else {
        i
    }
}

/// The position at which the line behind the one at `i` starts: behind the
/// first line break at or after `i`, or the length of `s` if there is none.
pub open spec fn next_line(s: Seq<char>, i: int) -> int {
    if line_end(s, i) < s.len() {
        line_end(s, i) + 1
    } else {
        line_end(s, i)
    }
}

/// `line_end` does not move backwards, stays inside the text, and passes no
/// line break.
pub proof fn lemma_line_end(s: Seq<char>, i: int)
    requires
        0 <= i <= s.len(),
    ensures
        i <= line_end(s, i) <= s.len(),
        i <= next_line(s, i) <= s.len(),
        i < s.len() ==> i < next_line(s, i),
        forall|k: int| i <= k < line_end(s, i) ==> #[trigger] s[k] != '\n',
    decreases s.len() - i,
{
    if i < s.len() && s[i] != '\n' {
        lemma_line_end(s, i + 1);
    }
}

} // verus!

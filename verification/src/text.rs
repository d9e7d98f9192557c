//! Characters and numbers in text.

use vstd::prelude::*;
use vstd::std_specs::iter::IteratorSpec;
use vstd::string::StringExecFns;

verus! {

/// The characters of the text, in order.
pub fn characters(s: &str) -> (res: Vec<char>)
    ensures
        res@ == s@,
{
    let mut out: Vec<char> = Vec::new();
    let mut source = s.chars();
    proof {
        vstd::string::axiom_spec_iter(s);
    }
    loop
        invariant
            out@ + source.remaining() == s@,
            source.decrease() is Some,
        decreases source.decrease()->0,
    {
        let ghost before = source;
        let next = source.next();
        proof {
            vstd::string::next_postcondition(&before, &source, next);
        }
        match next {
            Some(c) => {
                out.push(c);
                assert(out@ + source.remaining() =~= s@);
            },
            None => {
                assert(out@ =~= s@);
                return out;
            },
        }
    }
}

/// The rows as sequences of characters.
pub open spec fn rows(v: Seq<Vec<char>>) -> Seq<Seq<char>> {
    v.map_values(|w: Vec<char>| w@)
}

// ---------------------------------------------------------------------
// White space
// ---------------------------------------------------------------------

/// The character is white space: one of U+0009 to U+000D, U+0020, U+0085,
/// U+00A0, U+1680, U+2000 to U+200A, U+2028, U+2029, U+202F, U+205F, U+3000.
pub open spec fn is_space(c: char) -> bool {
    let u = c as u32;
    ||| 0x09 <= u <= 0x0D
    ||| u == 0x20
    ||| u == 0x85
    ||| u == 0xA0
    ||| u == 0x1680
    ||| 0x2000 <= u <= 0x200A
    ||| u == 0x2028
    ||| u == 0x2029
    ||| u == 0x202F
    ||| u == 0x205F
    ||| u == 0x3000
}

/// Whether the character is white space.
pub fn is_whitespace(c: char) -> (res: bool)
    ensures
        res == is_space(c),
{
    let u = c as u32;
    (0x09 <= u && u <= 0x0D) || u == 0x20 || u == 0x85 || u == 0xA0 || u == 0x1680 || (0x2000 <= u
        && u <= 0x200A) || u == 0x2028 || u == 0x2029 || u == 0x202F || u == 0x205F || u == 0x3000
}

// ---------------------------------------------------------------------
// Splitting
// ---------------------------------------------------------------------

/// The pieces between the separators: one more than there are separators.
pub open spec fn split_on(s: Seq<char>, sep: char) -> Seq<Seq<char>>
    decreases s.len(),
{
    if s.len() == 0 {
        seq![Seq::<char>::empty()]
    } else {
        let pieces = split_on(s.drop_last(), sep);
        if s.last() == sep {
            pieces.push(Seq::<char>::empty())
        } else {
            pieces.drop_last().push(pieces.last().push(s.last()))
        }
    }
}

/// Splits the characters at each separator.
pub fn split(chars: &Vec<char>, sep: char) -> (res: Vec<Vec<char>>)
    ensures
        rows(res@) == split_on(chars@, sep),
{
    let mut out: Vec<Vec<char>> = Vec::new();
    let mut piece: Vec<char> = Vec::new();
    let mut i: usize = 0;
    assert(chars@.take(0) =~= Seq::<char>::empty());
    assert(rows(out@).push(piece@) =~= seq![Seq::<char>::empty()]);
    while i < chars.len()
        invariant
            0 <= i <= chars.len(),
            rows(out@).push(piece@) == split_on(chars@.take(i as int), sep),
        decreases chars.len() - i,
    {
        let c = chars[i];
        let ghost before = rows(out@).push(piece@);
        proof {
            let next = chars@.take(i as int + 1);
            assert(next.drop_last() =~= chars@.take(i as int));
            assert(next.last() == c);
        }
        if c == sep {
            out.push(piece);
            piece = Vec::new();
            assert(rows(out@).push(piece@) =~= before.push(Seq::<char>::empty()));
        } else {
            piece.push(c);
            assert(rows(out@).push(piece@) =~= before.drop_last().push(before.last().push(c)));
        }
        i += 1;
    }
    let ghost before = rows(out@).push(piece@);
    out.push(piece);
    assert(rows(out@) =~= before);
    assert(chars@.take(i as int) =~= chars@);
    out
}

/// The words found so far, and the characters of a word not yet ended.
pub open spec fn scan_words(s: Seq<char>) -> (Seq<Seq<char>>, Seq<char>)
    decreases s.len(),
{
    if s.len() == 0 {
        (Seq::empty(), Seq::empty())
    } else {
        let (found, pending) = scan_words(s.drop_last());
        if is_space(s.last()) {
            if pending.len() > 0 {
                (found.push(pending), Seq::empty())
            } else {
                (found, pending)
            }
        } else {
            (found, pending.push(s.last()))
        }
    }
}

/// The words of a text: its longest runs of characters that are not white
/// space.
pub open spec fn words(s: Seq<char>) -> Seq<Seq<char>> {
    let (found, pending) = scan_words(s);
    if pending.len() > 0 {
        found.push(pending)
    } else {
        found
    }
}

/// Splits the characters into words.
pub fn split_words(chars: &Vec<char>) -> (res: Vec<Vec<char>>)
    ensures
        rows(res@) == words(chars@),
{
    let mut out: Vec<Vec<char>> = Vec::new();
    let mut word: Vec<char> = Vec::new();
    let mut i: usize = 0;
    assert(chars@.take(0) =~= Seq::<char>::empty());
    assert(rows(out@) =~= Seq::<Seq<char>>::empty());
    while i < chars.len()
        invariant
            0 <= i <= chars.len(),
            (rows(out@), word@) == scan_words(chars@.take(i as int)),
        decreases chars.len() - i,
    {
        let c = chars[i];
        let ghost found = rows(out@);
        let ghost pending = word@;
        proof {
            let next = chars@.take(i as int + 1);
            assert(next.drop_last() =~= chars@.take(i as int));
            assert(next.last() == c);
        }
        if is_whitespace(c) {
            if word.len() > 0 {
                out.push(word);
                word = Vec::new();
                assert(rows(out@) =~= found.push(pending));
                assert(word@ =~= Seq::<char>::empty());
            }
        } else {
            word.push(c);
        }
        i += 1;
    }
    assert(chars@.take(i as int) =~= chars@);
    if word.len() > 0 {
        let ghost found = rows(out@);
        let ghost pending = word@;
        out.push(word);
        assert(rows(out@) =~= found.push(pending));
    }
    out
}

// ---------------------------------------------------------------------
// Numbers
// ---------------------------------------------------------------------

/// The character is one of `0` to `9`.
pub open spec fn is_digit(c: char) -> bool {
    0x30 <= c as u32 <= 0x39
}

/// The number that a digit stands for.
pub open spec fn digit_value(c: char) -> int {
    c as u32 - 0x30
}

/// Every character of the text is a digit.
pub open spec fn all_digits(s: Seq<char>) -> bool {
    forall|i: int| 0 <= i < s.len() ==> is_digit(#[trigger] s[i])
}

/// The number that the digits write in base ten.
pub open spec fn digits_value(s: Seq<char>) -> nat
    decreases s.len(),
{
    if s.len() == 0 {
        0
    } else {
        (10 * digits_value(s.drop_last()) + digit_value(s.last())) as nat
    }
}

/// The 32-bit integer that the word writes: digits, with `+` or `-` before
/// them or nothing. `None` where the word is something else, or the number
/// does not fit.
pub open spec fn number(word: Seq<char>) -> Option<int> {
    let negative = word.len() > 0 && word[0] == '-';
    let signed = word.len() > 0 && (word[0] == '-' || word[0] == '+');
    let digits = if signed {
        word.skip(1)
    } else {
        word
    };
    let value = if negative {
        -(digits_value(digits) as int)
    } else {
        digits_value(digits) as int
    };
    if digits.len() > 0 && all_digits(digits) && i32::MIN <= value <= i32::MAX {
        Some(value)
    } else {
        None
    }
}

/// Reads the word as a 32-bit integer.
pub fn parse_number(word: &Vec<char>) -> (res: Option<i32>)
    ensures
        match res {
            Some(n) => number(word@) == Some(n as int),
            None => number(word@) is None,
        },
{
    let n = word.len();
    if n == 0 {
        return None;
    }
    let negative = word[0] == '-';
    let start: usize = if word[0] == '-' || word[0] == '+' {
        1
    } else {
        0
    };
    let ghost digits = word@.skip(start as int);
    proof {
        if start == 0 {
            assert(digits =~= word@);
        }
    }
    if start == n {
        return None;
    }
    let limit: u64 = 0x8000_0000;
    let mut magnitude: u64 = 0;
    let mut i: usize = start;
    assert(digits.take(0) =~= Seq::<char>::empty());
    while i < n
        invariant
            start <= i <= n,
            n == word.len(),
            limit == 0x8000_0000,
            digits == word@.skip(start as int),
            start == 0 ==> digits == word@,
            start == if word@[0] == '-' || word@[0] == '+' { 1int } else { 0int },
            all_digits(digits.take(i - start)),
            magnitude <= limit + 1,
            digits_value(digits.take(i - start)) <= limit ==> magnitude == digits_value(digits.take(i - start)),
            digits_value(digits.take(i - start)) > limit ==> magnitude == limit + 1,
        decreases n - i,
    {
        let c = word[i];
        let u = c as u32;
        proof {
            let next = digits.take(i - start + 1);
            assert(next.drop_last() =~= digits.take(i - start));
            assert(next.last() == word@[i as int]);
        }
        if u < 0x30 || u > 0x39 {
            assert(digits[i - start] == c);
            assert(!is_digit(digits[i - start]));
            return None;
        }
        let grown: u64 = magnitude * 10 + (u - 0x30) as u64;
        magnitude = if grown > limit {
            limit + 1
        } else {
            grown
        };
        proof {
            let next = digits.take(i - start + 1);
            assert forall|k: int| 0 <= k < next.len() implies is_digit(#[trigger] next[k]) by {
                if k < i - start {
                    assert(digits.take(i - start)[k] == next[k]);
                }
            }
        }
        i += 1;
    }
    assert(digits.take(n - start) =~= digits);
    if negative {
        if magnitude <= limit {
            Some((0 - magnitude as i64) as i32)
        } else {
            None
        }
    } else {
        if magnitude < limit {
            Some(magnitude as i32)
        } else {
            None
        }
    }
}

/// The character that writes a digit.
pub open spec fn digit_char(d: int) -> char {
    if d == 0 {
        '0'
    } else if d == 1 {
        '1'
    } else if d == 2 {
        '2'
    } else if d == 3 {
        '3'
    } else if d == 4 {
        '4'
    } else if d == 5 {
        '5'
    } else if d == 6 {
        '6'
    } else if d == 7 {
        '7'
    } else if d == 8 {
        '8'
    } else {
        '9'
    }
}

/// The number in base ten, without leading zeros.
pub open spec fn decimal(n: nat) -> Seq<char>
    decreases n,
{
    if n < 10 {
        seq![digit_char(n as int)]
    } else {
        decimal(n / 10).push(digit_char((n % 10) as int))
    }
}

/// The text of one digit.
fn digit_text(d: u64) -> (res: &'static str)
    requires
        d < 10,
    ensures
        res@ == seq![digit_char(d as int)],
{
    proof {
        reveal_strlit("0");
        reveal_strlit("1");
        reveal_strlit("2");
        reveal_strlit("3");
        reveal_strlit("4");
        reveal_strlit("5");
        reveal_strlit("6");
        reveal_strlit("7");
        reveal_strlit("8");
        reveal_strlit("9");
    }
    let res = if d == 0 {
        "0"
    } else if d == 1 {
        "1"
    } else if d == 2 {
        "2"
    } else if d == 3 {
        "3"
    } else if d == 4 {
        "4"
    } else if d == 5 {
        "5"
    } else if d == 6 {
        "6"
    } else if d == 7 {
        "7"
    } else if d == 8 {
        "8"
    } else {
        "9"
    };
    assert(res@ =~= seq![digit_char(d as int)]);
    res
}

/// Writes the number in base ten.
pub fn decimal_text(n: u64) -> (res: String)
    ensures
        res@ == decimal(n as nat),
    decreases n,
{
    if n < 10 {
        String::from_str(digit_text(n))
    } else {
        let mut text = decimal_text(n / 10);
        text.append(digit_text(n % 10));
        text
    }
}

} // verus!

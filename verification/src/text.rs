//! Text: building strings character by character, comparing them, splitting
//! them at white space and reading and writing decimal numbers.

use vstd::prelude::*;

verus! {

/// Whether a character is one that the texts of this crate are written
/// with: a digit, a letter of a file, a piece or a side, a slash, a space
/// or a dash.
pub open spec fn is_glyph(c: char) -> bool {
    c == '0' || c == '1' || c == '2' || c == '3' || c == '4' || c == '5' || c == '6'
        || c == '7' || c == '8' || c == '9' || c == 'a' || c == 'b' || c == 'c' || c == 'd'
        || c == 'e' || c == 'f' || c == 'g' || c == 'h' || c == 'k' || c == 'n' || c == 'p'
        || c == 'q' || c == 'r' || c == 'w' || c == 'B' || c == 'K' || c == 'N' || c == 'P'
        || c == 'Q' || c == 'R' || c == '/' || c == ' ' || c == '-'
}

/// The text of one character.
fn glyph(c: char) -> (s: &'static str)
    requires
        is_glyph(c),
    ensures
        s@ == seq![c],
{
    let s: &'static str = if c == '0' {
        proof {
            reveal_strlit("0");
        }
        "0"
    } else if c == '1' {
        proof {
            reveal_strlit("1");
        }
        "1"
    } else if c == '2' {
        proof {
            reveal_strlit("2");
        }
        "2"
    } else if c == '3' {
        proof {
            reveal_strlit("3");
        }
        "3"
    } else if c == '4' {
        proof {
            reveal_strlit("4");
        }
        "4"
    } else if c == '5' {
        proof {
            reveal_strlit("5");
        }
        "5"
    } else if c == '6' {
        proof {
            reveal_strlit("6");
        }
        "6"
    } else if c == '7' {
        proof {
            reveal_strlit("7");
        }
        "7"
    } else if c == '8' {
        proof {
            reveal_strlit("8");
        }
        "8"
    } else if c == '9' {
        proof {
            reveal_strlit("9");
        }
        "9"
    } else if c == 'a' {
        proof {
            reveal_strlit("a");
        }
        "a"
    } else if c == 'b' {
        proof {
            reveal_strlit("b");
        }
        "b"
    } else if c == 'c' {
        proof {
            reveal_strlit("c");
        }
        "c"
    } else if c == 'd' {
        proof {
            reveal_strlit("d");
        }
        "d"
    } else if c == 'e' {
        proof {
            reveal_strlit("e");
        }
        "e"
    } else if c == 'f' {
        proof {
            reveal_strlit("f");
        }
        "f"
    } else if c == 'g' {
        proof {
            reveal_strlit("g");
        }
        "g"
    } else if c == 'h' {
        proof {
            reveal_strlit("h");
        }
        "h"
    } else if c == 'k' {
        proof {
            reveal_strlit("k");
        }
        "k"
    } else if c == 'n' {
        proof {
            reveal_strlit("n");
        }
        "n"
    } else if c == 'p' {
        proof {
            reveal_strlit("p");
        }
        "p"
    } else if c == 'q' {
        proof {
            reveal_strlit("q");
        }
        "q"
    } else if c == 'r' {
        proof {
            reveal_strlit("r");
        }
        "r"
    } else if c == 'w' {
        proof {
            reveal_strlit("w");
        }
        "w"
    } else if c == 'B' {
        proof {
            reveal_strlit("B");
        }
        "B"
    } else if c == 'K' {
        proof {
            reveal_strlit("K");
        }
        "K"
    } else if c == 'N' {
        proof {
            reveal_strlit("N");
        }
        "N"
    } else if c == 'P' {
        proof {
            reveal_strlit("P");
        }
        "P"
    } else if c == 'Q' {
        proof {
            reveal_strlit("Q");
        }
        "Q"
    } else if c == 'R' {
        proof {
            reveal_strlit("R");
        }
        "R"
    } else if c == '/' {
        proof {
            reveal_strlit("/");
        }
        "/"
    } else if c == ' ' {
        proof {
            reveal_strlit(" ");
        }
        " "
    } else {
        proof {
            reveal_strlit("-");
        }
        "-"
    };

    proof {
        assert(s@ =~= seq![c]);
    }
    s
}

/// Appends one character.
pub fn push_glyph(s: &mut String, c: char)
    requires
        is_glyph(c),
    ensures
        final(s)@ == old(s)@.push(c),
{
    s.append(glyph(c));
    proof {
        assert(s@ =~= old(s)@.push(c));
    }
}

/// Whether two strings hold the same characters.
pub fn str_eq(a: &str, b: &str) -> (eq: bool)
    ensures
        eq == (a@ == b@),
{
    let n = a.unicode_len();
    if n != b.unicode_len() {
        return false;
    }
    let mut i: usize = 0;
    while i < n
        invariant
            i <= n,
            n == a@.len(),
            n == b@.len(),
            forall|k: int| 0 <= k < i ==> a@[k] == b@[k],
        decreases n - i,
    {
        if a.get_char(i) != b.get_char(i) {
            return false;
        }
        i = i + 1;
    }
    assert(a@ =~= b@);
    true
}

/// Whether a character is ASCII white space: space, tab, line feed, form
/// feed or carriage return.
pub open spec fn is_space(c: char) -> bool {
    c == ' ' || c == '\t' || c == '\n' || c == '\x0C' || c == '\r'
}

/// The words found when reading `s` from position `i` on, after the words
/// `done` and with the characters `word` of a word in progress.
pub open spec fn words_from(s: Seq<char>, i: int, done: Seq<Seq<char>>, word: Seq<char>) -> Seq<
    Seq<char>,
>
    decreases s.len() - i,
{
    let closed = if word.len() > 0 {
        done.push(word)
    } else {
        done
    };
    if i < 0 || i >= s.len() {
        closed
    } else if is_space(s[i]) {
        words_from(s, i + 1, closed, Seq::empty())
    } else {
        words_from(s, i + 1, done, word.push(s[i]))
    }
}

/// The words of a text: its longest runs of characters other than white
/// space, in order.
pub open spec fn words(s: Seq<char>) -> Seq<Seq<char>> {
    words_from(s, 0, Seq::empty(), Seq::empty())
}

/// The views of a vector of strings.
pub open spec fn views(v: Seq<String>) -> Seq<Seq<char>> {
    Seq::new(v.len(), |i: int| v[i]@)
}

fn space(c: char) -> (r: bool)
    ensures
        r == is_space(c),
{
    c == ' ' || c == '\t' || c == '\n' || c == '\x0C' || c == '\r'
}

/// Splits a text at white space into its words.
pub fn split_words(s: &str) -> (out: Vec<String>)
    ensures
        views(out@) == words(s@),
{
    let n = s.unicode_len();
    let mut out: Vec<String> = Vec::new();
    let mut start: usize = 0;
    let mut i: usize = 0;
    proof {
        assert(views(out@) =~= Seq::empty());
        assert(s@.subrange(0, 0) =~= Seq::empty());
    }
    while i < n
        invariant
            start <= i <= n,
            n == s@.len(),
            words_from(s@, i as int, views(out@), s@.subrange(start as int, i as int)) == words(s@),
        decreases n - i,
    {
        let c = s.get_char(i);
        let ghost done = views(out@);
        let ghost word = s@.subrange(start as int, i as int);
        let ghost closed = if word.len() > 0 {
            done.push(word)
        } else {
            done
        };
        proof {
            assert(words_from(s@, i as int, done, word) == if is_space(c) {
                words_from(s@, i + 1, closed, Seq::empty())
            } else {
                words_from(s@, i + 1, done, word.push(c))
            });
        }
        if space(c) {
            if start < i {
                out.push(String::from_str(s.substring_char(start, i)));
                proof {
                    assert(views(out@) =~= done.push(word));
                }
            }
            start = i + 1;
            proof {
                assert(s@.subrange(i + 1, i + 1) =~= Seq::empty());
            }
        } else {
            proof {
                assert(s@.subrange(start as int, i + 1) =~= word.push(c));
            }
        }
        i = i + 1;
    }
    if start < n {
        let ghost done = views(out@);
        out.push(String::from_str(s.substring_char(start, n)));
        proof {
            assert(views(out@) =~= done.push(s@.subrange(start as int, n as int)));
        }
    }
    out
}

/// The character of a decimal digit.
pub open spec fn digit_char(d: int) -> char {
    if d == 0 {
        '0'
    } else if d == 1 {
        '1'
    } else if d == 2 {
        '2'
    } else if d == 3 {
        '3'
    } else if d == 4 {
        '4'
    } else if d == 5 {
        '5'
    } else if d == 6 {
        '6'
    } else if d == 7 {
        '7'
    } else if d == 8 {
        '8'
    } else {
        '9'
    }
}

/// The value of a decimal digit, if the character is one.
pub open spec fn digit_value(c: char) -> Option<int> {
    if c == '0' {
        Some(0)
    } else if c == '1' {
        Some(1)
    } else if c == '2' {
        Some(2)
    } else if c == '3' {
        Some(3)
    } else if c == '4' {
        Some(4)
    } else if c == '5' {
        Some(5)
    } else if c == '6' {
        Some(6)
    } else if c == '7' {
        Some(7)
    } else if c == '8' {
        Some(8)
    } else if c == '9' {
        Some(9)
    } else {
        None
    }
}

/// A number in decimal, without sign or leading zeros.
pub open spec fn decimal(n: nat) -> Seq<char>
    decreases n,
{
    if n < 10 {
        seq![digit_char(n as int)]
    } else {
        decimal(n / 10).push(digit_char((n % 10) as int))
    }
}

/// The number that a run of decimal digits spells, if every character is a
/// digit. The empty run spells zero.
pub open spec fn digits_value(s: Seq<char>) -> Option<nat>
    decreases s.len(),
{
    if s.len() == 0 {
        Some(0)
    } else {
        match (digits_value(s.drop_last()), digit_value(s.last())) {
            (Some(high), Some(low)) => Some((high * 10 + low) as nat),
            _ => None,
        }
    }
}

/// The number that a text spells: decimal digits, at least one, after an
/// optional plus sign, with a value that 32 bits can hold.
pub open spec fn number(s: Seq<char>) -> Option<u32> {
    let digits = if s.len() > 0 && s[0] == '+' {
        s.skip(1)
    } else {
        s
    };
    if digits.len() == 0 {
        None
    } else {
        match digits_value(digits) {
            Some(v) => if v <= u32::MAX {
                Some(v as u32)
            } else {
                None
            },
            None => None,
        }
    }
}

fn digit_of(c: char) -> (r: Option<u64>)
    ensures
        match r {
            Some(d) => digit_value(c) == Some(d as int) && d < 10,
            None => digit_value(c) is None,
        },
{
    if c == '0' {
        Some(0)
    } else if c == '1' {
        Some(1)
    } else if c == '2' {
        Some(2)
    } else if c == '3' {
        Some(3)
    } else if c == '4' {
        Some(4)
    } else if c == '5' {
        Some(5)
    } else if c == '6' {
        Some(6)
    } else if c == '7' {
        Some(7)
    } else if c == '8' {
        Some(8)
    } else if c == '9' {
        Some(9)
    } else {
        None
    }
}

/// A run of digits that spells a number spells a larger one with each
/// digit added.
proof fn lemma_digits_grow(s: Seq<char>)
    requires
        s.len() > 0,
    ensures
        digits_value(s) matches Some(v) ==> (digits_value(s.drop_last()) matches Some(w) && v >= w),
        digits_value(s.drop_last()) is None ==> digits_value(s) is None,
{
}

/// A text is no number once a prefix of its digits is too large or holds a
/// character that is no digit.
proof fn lemma_digits_prefix(s: Seq<char>, k: int)
    requires
        0 <= k <= s.len(),
    ensures
        digits_value(s.take(k)) is None ==> digits_value(s) is None,
        (digits_value(s.take(k)) matches Some(w) && w > u32::MAX) ==> !(digits_value(s) matches Some(
            v,
        ) && v <= u32::MAX),
    decreases s.len() - k,
{
    if k < s.len() {
        lemma_digits_prefix(s, k + 1);
        assert(s.take(k + 1).drop_last() =~= s.take(k));
        lemma_digits_grow(s.take(k + 1));
    } else {
        assert(s.take(k) =~= s);
    }
}

/// Reads a number: decimal digits after an optional plus sign.
pub fn parse_number(s: &str) -> (r: Option<u32>)
    ensures
        r == number(s@),
{
    let n = s.unicode_len();
    let start: usize = if n > 0 && s.get_char(0) == '+' {
        1
    } else {
        0
    };
    if start == n {
        return None;
    }
    let ghost digits = s@.skip(start as int);
    let mut value: u64 = 0;
    let mut i: usize = start;
    proof {
        assert(s@.skip(0) =~= s@);
        assert(digits.take(0) =~= Seq::empty());
        assert(digits.len() == n - start);
    }
    while i < n
        invariant
            start <= i <= n,
            n == s@.len(),
            digits == s@.skip(start as int),
            digits_value(digits.take(i - start)) == Some(value as nat),
            value <= u32::MAX,
            digits.len() == n - start,
            number(s@) == (if digits_value(digits) matches Some(v) && v <= u32::MAX {
                Some(digits_value(digits).unwrap() as u32)
            } else {
                None
            }),
        decreases n - i,
    {
        let c = s.get_char(i);
        proof {
            let longer = digits.take(i - start + 1);
            assert(longer.drop_last() =~= digits.take(i - start));
            assert(longer.last() == c);
            assert(digits_value(longer) == match digit_value(c) {
                Some(low) => Some((value * 10 + low) as nat),
                None => None,
            });
            lemma_digits_prefix(digits, i - start + 1);
        }
        match digit_of(c) {
            Some(d) => {
                value = value * 10 + d;
                if value > u32::MAX as u64 {
                    return None;
                }
            },
            None => {
                return None;
            },
        }
        i = i + 1;
    }
    proof {
        assert(digits.take(n - start) =~= digits);
    }
    Some(value as u32)
}

fn digit_letter(d: u32) -> (c: char)
    requires
        d < 10,
    ensures
        c == digit_char(d as int),
        is_glyph(c),
{
    if d == 0 {
        '0'
    } else if d == 1 {
        '1'
    } else if d == 2 {
        '2'
    } else if d == 3 {
        '3'
    } else if d == 4 {
        '4'
    } else if d == 5 {
        '5'
    } else if d == 6 {
        '6'
    } else if d == 7 {
        '7'
    } else if d == 8 {
        '8'
    } else {
        '9'
    }
}

/// Appends a number in decimal.
pub fn push_number(s: &mut String, n: u32)
    ensures
        final(s)@ == old(s)@ + decimal(n as nat),
    decreases n,
{
    if n >= 10 {
        push_number(s, n / 10);
    }
    push_glyph(s, digit_letter(n % 10));
    proof {
        if n >= 10 {
            assert(s@ =~= old(s)@ + decimal(n as nat));
        } else {
            assert(s@ =~= old(s)@ + decimal(n as nat));
        }
    }
}

/// The integer that a text spells: decimal digits, at least one, after an
/// optional plus or minus sign, with a value that 32 bits can hold with a
/// sign.
pub open spec fn integer(s: Seq<char>) -> Option<i32> {
    let signed = s.len() > 0 && (s[0] == '+' || s[0] == '-');
    let negative = s.len() > 0 && s[0] == '-';
    let digits = if signed {
        s.skip(1)
    } else {
        s
    };
    if digits.len() == 0 {
        None
    } else {
        match digits_value(digits) {
            Some(v) => if negative {
                if v <= 0x8000_0000 {
                    Some((-v) as i32)
                } else {
                    None
                }
            } else {
                if v <= 0x7fff_ffff {
                    Some(v as i32)
                } else {
                    None
                }
            },
            None => None,
        }
    }
}

/// A text is no number within a bound once a prefix of its digits is
/// beyond the bound.
proof fn lemma_digits_bound(s: Seq<char>, k: int, bound: nat)
    requires
        0 <= k <= s.len(),
    ensures
        (digits_value(s.take(k)) matches Some(w) && w > bound) ==> !(digits_value(s) matches Some(
            v,
        ) && v <= bound),
    decreases s.len() - k,
{
    if k < s.len() {
        lemma_digits_bound(s, k + 1, bound);
        lemma_digits_prefix(s, k + 1);
        assert(s.take(k + 1).drop_last() =~= s.take(k));
        lemma_digits_grow(s.take(k + 1));
    } else {
        assert(s.take(k) =~= s);
    }
}

/// Reads an integer: decimal digits after an optional sign.
pub fn parse_integer(s: &str) -> (r: Option<i32>)
    ensures
        r == integer(s@),
{
    let n = s.unicode_len();
    if n == 0 {
        return None;
    }
    let first = s.get_char(0);
    let negative = first == '-';
    let start: usize = if first == '+' || first == '-' {
        1
    } else {
        0
    };
    if start == n {
        return None;
    }
    let bound: u64 = if negative {
        0x8000_0000
    } else {
        0x7fff_ffff
    };
    let ghost digits = s@.skip(start as int);
    let mut value: u64 = 0;
    let mut i: usize = start;
    proof {
        assert(s@.skip(0) =~= s@);
        assert(digits.take(0) =~= Seq::empty());
        assert(digits.len() == n - start);
    }
    while i < n
        invariant
            start <= i <= n,
            n == s@.len(),
            digits == s@.skip(start as int),
            digits.len() == n - start,
            digits_value(digits.take(i - start)) == Some(value as nat),
            value <= bound,
            bound == (if negative {
                0x8000_0000u64
            } else {
                0x7fff_ffffu64
            }),
            integer(s@) == (match digits_value(digits) {
                Some(v) => if v <= bound {
                    Some(
                        if negative {
                            (-v) as i32
                        } else {
                            v as i32
                        },
                    )
                } else {
                    None
                },
                None => None,
            }),
        decreases n - i,
    {
        let c = s.get_char(i);
        proof {
            let longer = digits.take(i - start + 1);
            assert(longer.drop_last() =~= digits.take(i - start));
            assert(longer.last() == c);
            assert(digits_value(longer) == match digit_value(c) {
                Some(low) => Some((value * 10 + low) as nat),
                None => None,
            });
            lemma_digits_prefix(digits, i - start + 1);
            lemma_digits_bound(digits, i - start + 1, bound as nat);
        }
        match digit_of(c) {
            Some(d) => {
                value = value * 10 + d;
                if value > bound {
                    return None;
                }
            },
            None => {
                return None;
            },
        }
        i = i + 1;
    }
    proof {
        assert(digits.take(n - start) =~= digits);
    }
    if negative {
        if value == 0x8000_0000 {
            Some(i32::MIN)
        } else {
            Some(-(value as i32))
        }
    } else {
        Some(value as i32)
    }
}

/// An integer in decimal, with a minus sign if it is negative.
pub open spec fn signed_decimal(n: int) -> Seq<char> {
    if n < 0 {
        seq!['-'] + decimal((-n) as nat)
    } else {
        decimal(n as nat)
    }
}

/// Appends an integer in decimal.
pub fn push_integer(s: &mut String, n: i32)
    ensures
        final(s)@ == old(s)@ + signed_decimal(n as int),
{
    if n < 0 {
        push_glyph(s, '-');
        let size: u32 = (-(n as i64)) as u32;
        push_number(s, size);
        proof {
            assert(s@ =~= old(s)@ + signed_decimal(n as int));
        }
    } else {
        push_number(s, n as u32);
    }
}

/// The words joined by single spaces.
pub open spec fn joined(words: Seq<Seq<char>>) -> Seq<char>
    decreases words.len(),
{
    if words.len() == 0 {
        Seq::empty()
    } else if words.len() == 1 {
        words[0]
    } else {
        joined(words.drop_last()).push(' ') + words.last()
    }
}

} // verus!

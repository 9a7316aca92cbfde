//! The little text handling that the library does.

use vstd::prelude::*;

verus! {

/// The characters with Unicode's `White_Space` property.
pub open spec fn is_white(c: char) -> bool {
    ||| '\u{9}' <= c <= '\u{d}'
    ||| c == '\u{20}'
    ||| c == '\u{85}'
    ||| c == '\u{a0}'
    ||| c == '\u{1680}'
    ||| '\u{2000}' <= c <= '\u{200a}'
    ||| c == '\u{2028}'
    ||| c == '\u{2029}'
    ||| c == '\u{202f}'
    ||| c == '\u{205f}'
    ||| c == '\u{3000}'
}

fn white(c: char) -> (yes: bool)
    ensures
        yes == is_white(c),
{
    ('\u{9}' <= c && c <= '\u{d}') || c == '\u{20}' || c == '\u{85}' || c == '\u{a0}' || c
        == '\u{1680}' || ('\u{2000}' <= c && c <= '\u{200a}') || c == '\u{2028}' || c == '\u{2029}'
        || c == '\u{202f}' || c == '\u{205f}' || c == '\u{3000}'
}

pub open spec fn trimmed_start(s: Seq<char>) -> Seq<char>
    decreases s.len(),
{
    if s.len() > 0 && is_white(s[0]) {
        trimmed_start(s.subrange(1, s.len() as int))
    } else {
        s
    }
}

pub open spec fn trimmed_end(s: Seq<char>) -> Seq<char>
    decreases s.len(),
{
    if s.len() > 0 && is_white(s[s.len() - 1]) {
        trimmed_end(s.subrange(0, s.len() - 1))
    } else {
        s
    }
}

/// `s` without the white space at its two ends.
pub open spec fn trimmed(s: Seq<char>) -> Seq<char> {
    trimmed_end(trimmed_start(s))
}

/// The characters of a string.
pub fn chars_of(s: &str) -> (chars: Vec<char>)
    ensures
        chars@ == s@,
{
    let mut chars: Vec<char> = Vec::new();
    for c in it: s.chars()
        invariant
            it.seq() == s@,
            chars@ == s@.subrange(0, it.index()),
    {
        chars.push(c);
    }
    assert(s@.subrange(0, s@.len() as int) =~= s@);
    chars
}

/// Where the trimmed part of `chars[from..to]` begins and ends.
pub fn trim_range(chars: &Vec<char>, from: usize, to: usize) -> (range: (usize, usize))
    requires
        from <= to <= chars@.len(),
    ensures
        from <= range.0 <= range.1 <= to,
        chars@.subrange(range.0 as int, range.1 as int) == trimmed(
            chars@.subrange(from as int, to as int),
        ),
{
    let ghost s = chars@;
    let mut a = from;
    while a < to && white(chars[a])
        invariant
            from <= a <= to <= s.len(),
            s == chars@,
            trimmed_start(s.subrange(from as int, to as int)) == trimmed_start(
                s.subrange(a as int, to as int),
            ),
        decreases to - a,
    {
        let ghost rest = s.subrange(a as int, to as int);
        assert(rest.subrange(1, rest.len() as int) =~= s.subrange(a + 1, to as int));
        a = a + 1;
    }
    let ghost start = s.subrange(a as int, to as int);
    assert(trimmed_start(start) == start);
    let mut b = to;
    while a < b && white(chars[b - 1])
        invariant
            from <= a <= b <= to <= s.len(),
            s == chars@,
            trimmed_end(start) == trimmed_end(s.subrange(a as int, b as int)),
        decreases b,
    {
        let ghost rest = s.subrange(a as int, b as int);
        assert(rest.subrange(0, rest.len() - 1) =~= s.subrange(a as int, b - 1));
        b = b - 1;
    }
    (a, b)
}

/// `s` without the white space at its two ends.
pub fn trim(s: &str) -> (t: String)
    ensures
        t@ == trimmed(s@),
{
    let chars = chars_of(s);
    assert(chars@.subrange(0, chars@.len() as int) =~= s@);
    let (a, b) = trim_range(&chars, 0, chars.len());
    s.substring_char(a, b).to_owned()
}

pub open spec fn digit_char(d: nat) -> char {
    (48 + d) as char
}

/// Decimal notation, without leading zeros.
pub open spec fn digits(n: nat) -> Seq<char>
    decreases n,
{
    if n < 10 {
        seq![digit_char(n)]
    } else {
        digits(n / 10).push(digit_char(n % 10))
    }
}

/// Decimal notation, with a sign where it is negative.
pub open spec fn signed_digits(n: int) -> Seq<char> {
    if n < 0 {
        seq!['-'] + digits((-n) as nat)
    } else {
        digits(n as nat)
    }
}

fn digit(d: u64) -> (s: &'static str)
    requires
        d < 10,
    ensures
        s@ == seq![digit_char(d as nat)],
{
    proof {
        reveal_strlit("0");
        reveal_strlit("1");
        reveal_strlit("2");
        reveal_strlit("3");
        reveal_strlit("4");
        reveal_strlit("5");
        reveal_strlit("6");
        reveal_strlit("7");
        reveal_strlit("8");
        reveal_strlit("9");
    }
    match d {
        0 => "0",
        1 => "1",
        2 => "2",
        3 => "3",
        4 => "4",
        5 => "5",
        6 => "6",
        7 => "7",
        8 => "8",
        _ => "9",
    }
}

pub fn decimal(n: u64) -> (s: String)
    ensures
        s@ == digits(n as nat),
    decreases n,
{
    if n < 10 {
        digit(n).to_owned()
    } else {
        let head = decimal(n / 10).concat(digit(n % 10));
        assert(head@ =~= digits(n as nat));
        head
    }
}

pub fn signed_decimal(n: i64) -> (s: String)
    ensures
        s@ == signed_digits(n as int),
{
    if n < 0 {
        proof {
            reveal_strlit("-");
        }
        let size: u64 = (-(n as i128)) as u64;
        let s = "-".to_owned().concat(decimal(size).as_str());
        assert(s@ =~= signed_digits(n as int));
        s
    } else {
        decimal(n as u64)
    }
}

pub open spec fn hex_char(d: nat) -> char {
    if d < 10 {
        (48 + d) as char
    } else {
        (87 + d) as char
    }
}

/// Lower-case hexadecimal notation, two digits to the byte.
pub open spec fn hex_digits(bytes: Seq<u8>) -> Seq<char>
    decreases bytes.len(),
{
    if bytes.len() == 0 {
        Seq::empty()
    } else {
        let b = bytes.last() as nat;
        hex_digits(bytes.drop_last()).push(hex_char(b / 16)).push(hex_char(b % 16))
    }
}

fn hex_digit(d: u8) -> (s: &'static str)
    requires
        d < 16,
    ensures
        s@ == seq![hex_char(d as nat)],
{
    if d < 10 {
        digit(d as u64)
    } else {
        proof {
            reveal_strlit("a");
            reveal_strlit("b");
            reveal_strlit("c");
            reveal_strlit("d");
            reveal_strlit("e");
            reveal_strlit("f");
        }
        match d {
            10 => "a",
            11 => "b",
            12 => "c",
            13 => "d",
            14 => "e",
            _ => "f",
        }
    }
}

pub fn hex(bytes: &[u8]) -> (s: String)
    ensures
        s@ == hex_digits(bytes@),
{
    let mut s = String::new();
    let mut i: usize = 0;
    while i < bytes.len()
        invariant
            i <= bytes@.len(),
            s@ == hex_digits(bytes@.subrange(0, i as int)),
        decreases bytes.len() - i,
    {
        let ghost next = bytes@.subrange(0, i + 1);
        assert(next.drop_last() =~= bytes@.subrange(0, i as int));
        let ghost before = s@;
        s.append(hex_digit(bytes[i] / 16));
        s.append(hex_digit(bytes[i] % 16));
        assert(s@ =~= before.push(hex_char(bytes[i as int] as nat / 16)).push(
            hex_char(bytes[i as int] as nat % 16),
        ));
        i = i + 1;
    }
    assert(bytes@.subrange(0, bytes@.len() as int) =~= bytes@);
    s
}

/// Trimming cuts white space off at both ends, all of it, and nothing else:
/// what is left is the part from `range.0` to `range.1`.
pub proof fn law_trimmed(s: Seq<char>) -> (range: (int, int))
    ensures
        0 <= range.0 <= range.1 <= s.len(),
        trimmed(s) == s.subrange(range.0, range.1),
        forall|i: int| 0 <= i < range.0 ==> is_white(#[trigger] s[i]),
        forall|i: int| range.1 <= i < s.len() ==> is_white(#[trigger] s[i]),
        range.0 < range.1 ==> !is_white(s[range.0]) && !is_white(s[range.1 - 1]),
{
    let a = lemma_trimmed_start(s);
    let rest = trimmed_start(s);
    let b = lemma_trimmed_end(rest);
    assert(trimmed(s) =~= s.subrange(a, a + b));
    assert forall|i: int| a + b <= i < s.len() implies is_white(#[trigger] s[i]) by {
        assert(s[i] == rest[i - a]);
    }
    if b > 0 {
        assert(rest[0] == s[a]);
        assert(rest[b - 1] == s[a + b - 1]);
    }
    (a, a + b)
}

/// What has white space around it, and none at its own two ends, is what trimming
/// leaves.
pub proof fn law_trimmed_is_the_middle(s: Seq<char>, a: int, b: int)
    requires
        0 <= a < b <= s.len(),
        forall|i: int| 0 <= i < a ==> is_white(#[trigger] s[i]),
        forall|i: int| b <= i < s.len() ==> is_white(#[trigger] s[i]),
        !is_white(s[a]),
        !is_white(s[b - 1]),
    ensures
        trimmed(s) == s.subrange(a, b),
{
    let (c, d) = law_trimmed(s);
    assert(c <= a);
    assert(d >= b);
    assert(c < d);
    if c < a {
        assert(is_white(s[c]));
    }
    if d > b {
        assert(is_white(s[d - 1]));
    }
}

/// Trimming once more changes nothing.
pub proof fn law_trimmed_stays(s: Seq<char>)
    ensures
        trimmed(trimmed(s)) == trimmed(s),
{
    let (a, b) = law_trimmed(s);
    let t = trimmed(s);
    if t.len() > 0 {
        assert(t[0] == s[a]);
        assert(t[t.len() - 1] == s[b - 1]);
        law_trimmed_is_the_middle(t, 0, t.len() as int);
        assert(t.subrange(0, t.len() as int) =~= t);
    }
}

proof fn lemma_trimmed_start(s: Seq<char>) -> (a: int)
    ensures
        0 <= a <= s.len(),
        trimmed_start(s) == s.subrange(a, s.len() as int),
        forall|i: int| 0 <= i < a ==> is_white(#[trigger] s[i]),
        a < s.len() ==> !is_white(s[a]),
    decreases s.len(),
{
    if s.len() > 0 && is_white(s[0]) {
        let rest = s.subrange(1, s.len() as int);
        let a = lemma_trimmed_start(rest);
        assert(rest.subrange(a, rest.len() as int) =~= s.subrange(a + 1, s.len() as int));
        assert forall|i: int| 0 <= i < a + 1 implies is_white(#[trigger] s[i]) by {
            if i > 0 {
                assert(s[i] == rest[i - 1]);
            }
        }
        a + 1
    } else {
        assert(s.subrange(0, s.len() as int) =~= s);
        0
    }
}

proof fn lemma_trimmed_end(s: Seq<char>) -> (b: int)
    ensures
        0 <= b <= s.len(),
        trimmed_end(s) == s.subrange(0, b),
        forall|i: int| b <= i < s.len() ==> is_white(#[trigger] s[i]),
        b > 0 ==> !is_white(s[b - 1]),
    decreases s.len(),
{
    if s.len() > 0 && is_white(s[s.len() - 1]) {
        let rest = s.subrange(0, s.len() - 1);
        let b = lemma_trimmed_end(rest);
        assert(rest.subrange(0, b) =~= s.subrange(0, b));
        assert forall|i: int| b <= i < s.len() implies is_white(#[trigger] s[i]) by {
            if i < rest.len() {
                assert(s[i] == rest[i]);
            }
        }
        b
    } else {
        assert(s.subrange(0, s.len() as int) =~= s);
        s.len() as int
    }
}

/// Whether a character is the hexadecimal digit of a value, in lower case.
pub open spec fn is_lower_digit(c: char, value: int) -> bool {
    ||| '0' <= c <= '9' && value == c as int - '0' as int
    ||| 'a' <= c <= 'f' && value == c as int - 'a' as int + 10
}

/// Hexadecimal notation has two digits for each byte, the high one first, and
/// the bytes are in order.
pub proof fn law_hex_digits(bytes: Seq<u8>, i: int)
    requires
        0 <= i < bytes.len(),
    ensures
        hex_digits(bytes).len() == 2 * bytes.len(),
        is_lower_digit(hex_digits(bytes)[2 * i], bytes[i] as int / 16),
        is_lower_digit(hex_digits(bytes)[2 * i + 1], bytes[i] as int % 16),
    decreases bytes.len(),
{
    let before = bytes.drop_last();
    lemma_hex_len(before);
    if i < before.len() {
        law_hex_digits(before, i);
    }
}

proof fn lemma_hex_len(bytes: Seq<u8>)
    ensures
        hex_digits(bytes).len() == 2 * bytes.len(),
    decreases bytes.len(),
{
    if bytes.len() > 0 {
        lemma_hex_len(bytes.drop_last());
    }
}

/// What `{:?}` makes of a string.
pub uninterp spec fn quoted(s: Seq<char>) -> Seq<char>;

/// The `Debug` form of a string: in double quotes, with what does not print
/// escaped. It depends on the string alone and is named `quoted`.
#[verifier::external_body]
pub(crate) fn quote(s: &str) -> (q: String)
    ensures
        q@ == quoted(s@),
{
    format!("{s:?}")
}

} // verus!

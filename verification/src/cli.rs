//! What the command line asks for, and how its values are read.

use crate::single::Single;
use crate::text;
use vstd::prelude::*;
use vstd::utf8;

verus! {

#[derive(Clone, Copy, Debug, PartialEq, Eq, Structural)]
pub enum Mode {
    Alpha,
    Greenscreen,
    Image,
}

impl Mode {
    /// The name as messages show it.
    pub fn shown_name(self) -> (name: &'static str)
        ensures
            name@ == self.shown(),
    {
        match self {
            Mode::Alpha => "Alpha",
            Mode::Greenscreen => "Greenscreen",
            Mode::Image => "Image",
        }
    }

    pub open spec fn shown(self) -> Seq<char> {
        match self {
            Mode::Alpha => "Alpha"@,
            Mode::Greenscreen => "Greenscreen"@,
            Mode::Image => "Image"@,
        }
    }
}

/// How a background image is mapped onto the capture resolution.
#[derive(Clone, Copy, Debug, PartialEq, Eq, Structural)]
pub enum Fit {
    /// Scale to fill, then cut the centre out.
    Cover,
    Stretch,
    /// Scale to fit inside, on black.
    Contain,
}

#[derive(Clone, Copy, Debug, PartialEq, Eq, Structural)]
pub enum Backbone {
    Resnet50,
    Mobilenetv3,
}

impl Backbone {
    /// Channel widths this backbone is expected to declare, used only to
    /// cross-check what we read from the model. Never used to build shapes.
    pub fn expected_channels(self) -> (channels: [i64; 4])
        ensures
            channels@ == self.channels(),
    {
        let channels: [i64; 4] = match self {
            Backbone::Mobilenetv3 => [16, 20, 40, 64],
            Backbone::Resnet50 => [16, 32, 64, 128],
        };
        assert(channels@ =~= self.channels());
        channels
    }

    pub open spec fn channels(self) -> Seq<i64> {
        match self {
            Backbone::Mobilenetv3 => seq![16i64, 20, 40, 64],
            Backbone::Resnet50 => seq![16i64, 32, 64, 128],
        }
    }

    /// The name as the manifest records it.
    pub fn recorded_name(self) -> (name: &'static str)
        ensures
            name@ == self.recorded(),
    {
        match self {
            Backbone::Resnet50 => "resnet50",
            Backbone::Mobilenetv3 => "mobilenetv3",
        }
    }

    pub open spec fn recorded(self) -> Seq<char> {
        match self {
            Backbone::Resnet50 => "resnet50"@,
            Backbone::Mobilenetv3 => "mobilenetv3"@,
        }
    }

    /// The name as messages show it.
    pub fn shown_name(self) -> (name: &'static str)
        ensures
            name@ == self.shown(),
    {
        match self {
            Backbone::Resnet50 => "Resnet50",
            Backbone::Mobilenetv3 => "Mobilenetv3",
        }
    }

    pub open spec fn shown(self) -> Seq<char> {
        match self {
            Backbone::Resnet50 => "Resnet50"@,
            Backbone::Mobilenetv3 => "Mobilenetv3"@,
        }
    }
}

/// What `matting prepare` is told.
#[derive(Debug)]
pub struct PrepareArgs {
    /// Path to a stock RVM ONNX export.
    pub from: String,
    pub model: Backbone,
    pub width: u32,
    pub height: u32,
    pub ratio: Single,
}

/// What `matting run` is told.
#[derive(Debug)]
pub struct RunArgs {
    pub input: String,
    pub output: String,
    pub mode: Mode,
    pub model: Backbone,
    /// Greenscreen colour as #RRGGBB or r,g,b.
    pub color: String,
    /// Background image for image mode.
    pub image: Option<String>,
    pub fit: Fit,
}

impl Default for RunArgs {
    fn default() -> (args: Self)
        ensures
            args.input@ == "/dev/video0"@,
            args.output@ == "/dev/video9"@,
            args.mode == Mode::Alpha,
            args.model == Backbone::Resnet50,
            args.color@ == "#00FF00"@,
            args.image is None,
            args.fit == Fit::Cover,
    {
        RunArgs {
            input: "/dev/video0".to_owned(),
            output: "/dev/video9".to_owned(),
            mode: Mode::Alpha,
            model: Backbone::Resnet50,
            color: "#00FF00".to_owned(),
            image: None,
            fit: Fit::Cover,
        }
    }
}

/// The value of a hexadecimal digit.
pub open spec fn digit_value(c: int) -> Option<nat> {
    if 48 <= c <= 57 {
        Some((c - 48) as nat)
    } else if 65 <= c <= 70 {
        Some((c - 55) as nat)
    } else if 97 <= c <= 102 {
        Some((c - 87) as nat)
    } else {
        None
    }
}

/// The number that decimal digits stand for, if all are decimal digits.
pub open spec fn number_value(s: Seq<int>) -> Option<nat>
    decreases s.len(),
{
    if s.len() == 0 {
        Some(0)
    } else {
        match (number_value(s.drop_last()), digit_value(s.last())) {
            (Some(head), Some(d)) => if d < 10 {
                Some(head * 10 + d)
            } else {
                None
            },
            _ => None,
        }
    }
}

/// The byte that a decimal numeral stands for: one plus sign is allowed before it, at
/// least one digit is needed, and it has to be below 256.
pub open spec fn byte_value(s: Seq<int>) -> Option<u8> {
    let numeral = if s.len() > 0 && s[0] == 43 {
        s.subrange(1, s.len() as int)
    } else {
        s
    };
    match number_value(numeral) {
        Some(n) => if numeral.len() > 0 && n <= 255 {
            Some(n as u8)
        } else {
            None
        },
        None => None,
    }
}

pub open spec fn codes(s: Seq<char>) -> Seq<int> {
    Seq::new(s.len(), |i: int| s[i] as int)
}

/// The first comma at `from` or later, or the end.
pub open spec fn comma_from(s: Seq<char>, from: int) -> int
    decreases s.len() - from,
{
    if from >= s.len() || s[from] == ',' {
        from
    } else {
        comma_from(s, from + 1)
    }
}

/// One component of a triplet.
pub open spec fn component(part: Seq<char>) -> Option<u8> {
    byte_value(codes(text::trimmed(part)))
}

pub open spec fn component_error(part: Seq<char>, s: Seq<char>) -> Seq<char> {
    "invalid colour component "@ + text::quoted(part) + " in "@ + text::quoted(s)
}

/// What `r,g,b` stands for.
pub open spec fn triplet(s: Seq<char>) -> Result<Seq<u8>, Seq<char>> {
    let end = s.len() as int;
    let c1 = comma_from(s, 0);
    let c2 = comma_from(s, c1 + 1);
    if c2 >= end || comma_from(s, c2 + 1) < end {
        Err("expected r,g,b but got "@ + text::quoted(s))
    } else {
        let r = s.subrange(0, c1);
        let g = s.subrange(c1 + 1, c2);
        let b = s.subrange(c2 + 1, end);
        match (component(r), component(g), component(b)) {
            (None, _, _) => Err(component_error(r, s)),
            (_, None, _) => Err(component_error(g, s)),
            (_, _, None) => Err(component_error(b, s)),
            (Some(x), Some(y), Some(z)) => Ok(seq![x, y, z]),
        }
    }
}

/// The byte that two hexadecimal digits stand for.
pub open spec fn hex_byte(bytes: Seq<u8>, i: int) -> Option<u8> {
    match (digit_value(bytes[2 * i] as int), digit_value(bytes[2 * i + 1] as int)) {
        (Some(high), Some(low)) => Some((16 * high + low) as u8),
        _ => None,
    }
}

/// The bytes of the digits after an optional `#`.
pub open spec fn hex_bytes(s: Seq<char>) -> Seq<u8> {
    utf8::encode_utf8(
        if s.len() > 0 && s[0] == '#' {
            s.subrange(1, s.len() as int)
        } else {
            s
        },
    )
}

/// What `#RRGGBB` stands for.
pub open spec fn hex_triplet(s: Seq<char>) -> Result<Seq<u8>, Seq<char>> {
    let bytes = hex_bytes(s);
    if bytes.len() != 6 {
        Err("expected 6 hex digits but got "@ + text::quoted(s))
    } else {
        match (hex_byte(bytes, 0), hex_byte(bytes, 1), hex_byte(bytes, 2)) {
            (Some(x), Some(y), Some(z)) => Ok(seq![x, y, z]),
            _ => Err("invalid hex colour "@ + text::quoted(s)),
        }
    }
}

/// What a colour stands for, or why it stands for none.
pub open spec fn color_value(text: Seq<char>) -> Result<Seq<u8>, Seq<char>> {
    let s = text::trimmed(text);
    if comma_from(s, 0) < s.len() {
        triplet(s)
    } else {
        hex_triplet(s)
    }
}

fn digit_of(c: u32) -> (d: Option<u32>)
    ensures
        match digit_value(c as int) {
            Some(v) => d == Some(v as u32) && v < 16,
            None => d is None,
        },
{
    if 48 <= c && c <= 57 {
        Some(c - 48)
    } else if 65 <= c && c <= 70 {
        Some(c - 55)
    } else if 97 <= c && c <= 102 {
        Some(c - 87)
    } else {
        None
    }
}

/// Reads a byte in decimal notation.
fn read_byte(numeral: &Vec<u32>) -> (value: Option<u8>)
    ensures
        value == byte_value(Seq::new(numeral@.len(), |i: int| numeral@[i] as int)),
{
    let ghost s = Seq::new(numeral@.len(), |i: int| numeral@[i] as int);
    let start: usize = if numeral.len() > 0 && numeral[0] == 43 {
        1
    } else {
        0
    };
    let ghost all = if s.len() > 0 && s[0] == 43 {
        s.subrange(1, s.len() as int)
    } else {
        s
    };
    if start == numeral.len() {
        return None;
    }
    let mut value: u32 = 0;
    let mut i = start;
    while i < numeral.len()
        invariant
            start <= i <= numeral@.len(),
            s == Seq::new(numeral@.len(), |i: int| numeral@[i] as int),
            all == if s.len() > 0 && s[0] == 43 {
                s.subrange(1, s.len() as int)
            } else {
                s
            },
            start == if s.len() > 0 && s[0] == 43 {
                1int
            } else {
                0int
            },
            value <= 256,
            match number_value(all.subrange(0, i - start)) {
                Some(v) => value == if v <= 255 {
                    v
                } else {
                    256
                },
                None => false,
            },
        decreases numeral.len() - i,
    {
        let ghost next = all.subrange(0, i - start + 1);
        proof {
            assert(next.drop_last() =~= all.subrange(0, i - start));
            assert(next.last() == numeral@[i as int]);
        }
        let d = digit_of(numeral[i]);
        match d {
            Some(d) if d < 10 => {
                let sum = value * 10 + d;
                value = if sum > 255 {
                    256
                } else {
                    sum
                };
            },
            _ => {
                proof {
                    lemma_bad_digit(all, i - start);
                }
                return None;
            },
        }
        i = i + 1;
    }
    assert(all.subrange(0, all.len() as int) =~= all);
    if value > 255 {
        None
    } else {
        Some(value as u8)
    }
}

/// No number is written with anything but digits.
proof fn lemma_bad_digit(s: Seq<int>, i: int)
    requires
        0 <= i < s.len(),
        match digit_value(s[i]) {
            Some(d) => d >= 10,
            None => true,
        },
    ensures
        number_value(s) is None,
    decreases s.len(),
{
    if i < s.len() - 1 {
        lemma_bad_digit(s.drop_last(), i);
    }
}

fn code(c: char) -> (n: u32)
    ensures
        n as int == c as int,
{
    c as u32
}

/// The codes of `chars[from..to]`.
fn codes_of(chars: &Vec<char>, from: usize, to: usize) -> (out: Vec<u32>)
    requires
        from <= to <= chars@.len(),
    ensures
        Seq::new(out@.len(), |i: int| out@[i] as int) == codes(
            chars@.subrange(from as int, to as int),
        ),
{
    let mut out: Vec<u32> = Vec::new();
    let mut i = from;
    while i < to
        invariant
            from <= i <= to <= chars@.len(),
            out@.len() == i - from,
            forall|j: int| 0 <= j < out@.len() ==> out@[j] as int == chars@[from + j] as int,
        decreases to - i,
    {
        out.push(code(chars[i]));
        i = i + 1;
    }
    assert(Seq::new(out@.len(), |i: int| out@[i] as int) =~= codes(
        chars@.subrange(from as int, to as int),
    ));
    out
}

fn find_comma(chars: &Vec<char>, from: usize) -> (at: usize)
    requires
        from <= chars@.len(),
    ensures
        from <= at <= chars@.len(),
        at == comma_from(chars@, from as int),
        at < chars@.len() ==> chars@[at as int] == ',',
{
    let mut i = from;
    while i < chars.len() && chars[i] != ','
        invariant
            from <= i <= chars@.len(),
            comma_from(chars@, i as int) == comma_from(chars@, from as int),
        decreases chars.len() - i,
    {
        i = i + 1;
    }
    i
}

/// Reads one component of the triplet `s`, whose characters are `chars`.
fn read_component(s: &str, chars: &Vec<char>, from: usize, to: usize) -> (value: Result<u8, String>)
    requires
        from <= to <= chars@.len(),
        chars@ == s@,
    ensures
        match (value, component(s@.subrange(from as int, to as int))) {
            (Ok(v), Some(c)) => v == c,
            (Err(e), None) => e@ == component_error(s@.subrange(from as int, to as int), s@),
            _ => false,
        },
{
    let (a, b) = text::trim_range(chars, from, to);
    match read_byte(&codes_of(chars, a, b)) {
        Some(v) => Ok(v),
        None => {
            let part = s.substring_char(from, to);
            let message = "invalid colour component ".to_owned().concat(
                text::quote(part).as_str(),
            ).concat(" in ").concat(text::quote(s).as_str());
            Err(message)
        },
    }
}

/// Reads `r,g,b`.
fn read_triplet(s: &str, chars: &Vec<char>) -> (value: Result<[u8; 3], String>)
    requires
        chars@ == s@,
        comma_from(s@, 0) < s@.len(),
    ensures
        match (value, triplet(s@)) {
            (Ok(v), Ok(c)) => v@ == c,
            (Err(e), Err(m)) => e@ == m,
            _ => false,
        },
{
    assert(chars@.len() == chars.len());
    let c1 = find_comma(chars, 0);
    let c2 = find_comma(chars, c1 + 1);
    if c2 >= chars.len() || find_comma(chars, c2 + 1) < chars.len() {
        let message = "expected r,g,b but got ".to_owned().concat(text::quote(s).as_str());
        return Err(message);
    }
    let r = match read_component(s, chars, 0, c1) {
        Ok(v) => v,
        Err(e) => return Err(e),
    };
    let g = match read_component(s, chars, c1 + 1, c2) {
        Ok(v) => v,
        Err(e) => return Err(e),
    };
    let b = match read_component(s, chars, c2 + 1, chars.len()) {
        Ok(v) => v,
        Err(e) => return Err(e),
    };
    let value = [r, g, b];
    assert(value@ =~= seq![r, g, b]);
    Ok(value)
}

/// Reads the pair of hexadecimal digits that begins at `2 * i`.
fn read_pair(bytes: &[u8], i: usize) -> (value: Option<u8>)
    requires
        2 * i + 1 < bytes@.len() <= usize::MAX,
    ensures
        value == hex_byte(bytes@, i as int),
{
    match (digit_of(bytes[2 * i] as u32), digit_of(bytes[2 * i + 1] as u32)) {
        (Some(high), Some(low)) => Some((16 * high + low) as u8),
        _ => None,
    }
}

/// The part after an optional `#`.
fn without_hash<'a>(s: &'a str, chars: &Vec<char>) -> (rest: &'a str)
    requires
        chars@ == s@,
    ensures
        utf8::encode_utf8(rest@) == hex_bytes(s@),
{
    if chars.len() > 0 && chars[0] == '#' {
        s.substring_char(1, chars.len())
    } else {
        s
    }
}

/// Reads `#RRGGBB`.
fn read_hex(s: &str, chars: &Vec<char>) -> (value: Result<[u8; 3], String>)
    requires
        chars@ == s@,
    ensures
        match (value, hex_triplet(s@)) {
            (Ok(v), Ok(c)) => v@ == c,
            (Err(e), Err(m)) => e@ == m,
            _ => false,
        },
{
    let bytes = without_hash(s, chars).as_bytes();
    if bytes.len() != 6 {
        let message = "expected 6 hex digits but got ".to_owned().concat(text::quote(s).as_str());
        return Err(message);
    }
    match (read_pair(bytes, 0), read_pair(bytes, 1), read_pair(bytes, 2)) {
        (Some(r), Some(g), Some(b)) => {
            let value = [r, g, b];
            assert(value@ =~= seq![r, g, b]);
            Ok(value)
        },
        _ => {
            let message = "invalid hex colour ".to_owned().concat(text::quote(s).as_str());
            Err(message)
        },
    }
}

/// Accepts `#RRGGBB`, `RRGGBB`, or `r,g,b`.
pub fn parse_color(s: &str) -> (value: Result<[u8; 3], String>)
    ensures
        match (value, color_value(s@)) {
            (Ok(v), Ok(c)) => v@ == c,
            (Err(e), Err(m)) => e@ == m,
            _ => false,
        },
{
    let s = text::trim(s);
    let chars = text::chars_of(s.as_str());
    if find_comma(&chars, 0) < chars.len() {
        read_triplet(s.as_str(), &chars)
    } else {
        read_hex(s.as_str(), &chars)
    }
}

proof fn lemma_comma_skips(s: Seq<char>, from: int, to: int)
    requires
        0 <= from <= to <= s.len(),
        forall|i: int| from <= i < to ==> s[i] != ',',
    ensures
        comma_from(s, from) == comma_from(s, to),
    decreases to - from,
{
    if from < to {
        lemma_comma_skips(s, from + 1, to);
    }
}

/// Text that neither begins nor ends with white space is not trimmed.
proof fn lemma_trimmed_same(s: Seq<char>)
    requires
        s.len() > 0,
        !text::is_white(s[0]),
        !text::is_white(s.last()),
    ensures
        text::trimmed(s) == s,
{
}

/// Whether two characters are the hexadecimal digits of a byte, in either case.
pub open spec fn are_digits_of(high: char, low: char, byte: u8) -> bool {
    &&& digit_value(high as int) == Some(byte as nat / 16)
    &&& digit_value(low as int) == Some(byte as nat % 16)
}

/// Every colour, written as six hexadecimal digits of either case, with or
/// without a `#`, is read as itself.
pub proof fn law_hex_reads_back(digits: Seq<char>, r: u8, g: u8, b: u8)
    requires
        digits.len() == 6,
        are_digits_of(digits[0], digits[1], r),
        are_digits_of(digits[2], digits[3], g),
        are_digits_of(digits[4], digits[5], b),
    ensures
        color_value(digits) == Ok::<Seq<u8>, Seq<char>>(seq![r, g, b]),
        color_value(seq!['#'] + digits) == Ok::<Seq<u8>, Seq<char>>(seq![r, g, b]),
{
    let marked = seq!['#'] + digits;
    lemma_trimmed_same(digits);
    lemma_trimmed_same(marked);
    lemma_comma_skips(digits, 0, 6);
    lemma_comma_skips(marked, 0, 7);
    assert(marked.subrange(1, 7) =~= digits);
    assert(utf8::is_ascii_chars(digits));
    utf8::is_ascii_chars_encode_utf8(digits);
    let bytes = utf8::encode_utf8(digits);
    assert(hex_byte(bytes, 0) == Some(r));
    assert(hex_byte(bytes, 1) == Some(g));
    assert(hex_byte(bytes, 2) == Some(b));
}

/// A character beyond ASCII is encoded beyond ASCII.
proof fn lemma_beyond_ascii(chars: Seq<char>, i: int) -> (k: int)
    requires
        0 <= i < chars.len(),
        chars[i] as u32 >= 128,
    ensures
        0 <= k < utf8::encode_utf8(chars).len(),
        utf8::encode_utf8(chars)[k] >= 128,
    decreases chars.len(),
{
    let c = chars[0] as u32;
    let first = utf8::encode_scalar(c);
    if i == 0 {
        assert(forall|x: u8| #[trigger] (0xC0u8 | x) >= 128u8) by (bit_vector);
        assert(forall|x: u8| #[trigger] (0xE0u8 | x) >= 128u8) by (bit_vector);
        assert(forall|x: u8| #[trigger] (0xF0u8 | x) >= 128u8) by (bit_vector);
        0
    } else {
        let k = lemma_beyond_ascii(chars.drop_first(), i - 1);
        first.len() + k
    }
}

/// What is no triplet and holds a character beyond ASCII is no colour, however
/// many bytes it takes.
pub proof fn law_beyond_ascii_is_no_colour(text: Seq<char>, i: int)
    requires
        comma_from(text::trimmed(text), 0) >= text::trimmed(text).len(),
        0 <= i < text::trimmed(text).len(),
        text::trimmed(text)[i] as u32 >= 128,
    ensures
        color_value(text) is Err,
{
    let s = text::trimmed(text);
    let bytes = hex_bytes(s);
    let k = if s[0] == '#' {
        lemma_beyond_ascii(s.subrange(1, s.len() as int), i - 1)
    } else {
        lemma_beyond_ascii(s, i)
    };
    if color_value(text) is Ok {
        assert(hex_byte(bytes, 0) is Some && hex_byte(bytes, 1) is Some && hex_byte(bytes, 2)
            is Some);
        assert(bytes[k] < 128);
    }
}

/// Decimal notation is made of digits, and reads back.
proof fn lemma_digits(n: nat)
    ensures
        text::digits(n).len() > 0,
        forall|i: int|
            0 <= i < text::digits(n).len() ==> '0' <= #[trigger] text::digits(n)[i] <= '9',
        number_value(codes(text::digits(n))) == Some(n),
    decreases n,
{
    let s = text::digits(n);
    let c = codes(s);
    if n < 10 {
        reveal_with_fuel(number_value, 2);
        assert(c.drop_last() =~= Seq::<int>::empty());
    } else {
        lemma_digits(n / 10);
        assert(c.drop_last() =~= codes(text::digits(n / 10)));
        assert(c.last() == text::digit_char(n % 10) as int);
    }
}

proof fn lemma_component(n: u8)
    ensures
        component(text::digits(n as nat)) == Some(n),
{
    lemma_digits(n as nat);
    lemma_trimmed_same(text::digits(n as nat));
}

/// Every colour, written as three decimal numbers, is read as itself.
pub proof fn law_triplet_reads_back(r: u8, g: u8, b: u8)
    ensures
        color_value(
            text::digits(r as nat) + seq![','] + text::digits(g as nat) + seq![',']
                + text::digits(b as nat),
        ) == Ok::<Seq<u8>, Seq<char>>(seq![r, g, b]),
{
    let x = text::digits(r as nat);
    let y = text::digits(g as nat);
    let z = text::digits(b as nat);
    lemma_digits(r as nat);
    lemma_digits(g as nat);
    lemma_digits(b as nat);
    let s = x + seq![','] + y + seq![','] + z;
    let c1 = x.len() as int;
    let c2 = c1 + 1 + y.len();
    let end = s.len() as int;
    assert(s[0] == x[0]);
    assert(s.last() == z.last());
    lemma_trimmed_same(s);
    assert forall|i: int| 0 <= i < c1 implies s[i] != ',' by {
        assert(s[i] == x[i]);
    }
    assert forall|i: int| c1 < i < c2 implies s[i] != ',' by {
        assert(s[i] == y[i - c1 - 1]);
    }
    assert forall|i: int| c2 < i < end implies s[i] != ',' by {
        assert(s[i] == z[i - c2 - 1]);
    }
    lemma_comma_skips(s, 0, c1);
    lemma_comma_skips(s, c1 + 1, c2);
    lemma_comma_skips(s, c2 + 1, end);
    assert(s.subrange(0, c1) =~= x);
    assert(s.subrange(c1 + 1, c2) =~= y);
    assert(s.subrange(c2 + 1, end) =~= z);
    lemma_component(r);
    lemma_component(g);
    lemma_component(b);
}

/// Decimal notation reads back as the number, has no needless zero in front,
/// and holds nothing but decimal digits. A negative number has a minus sign
/// before that.
pub proof fn law_decimal_reads_back(n: nat)
    ensures
        number_value(codes(text::digits(n))) == Some(n),
        n > 0 ==> text::digits(n)[0] != '0',
        forall|i: int|
            0 <= i < text::digits(n).len() ==> '0' <= #[trigger] text::digits(n)[i] <= '9',
        n > 0 ==> text::signed_digits(-(n as int)) == seq!['-'] + text::digits(n),
        text::signed_digits(n as int) == text::digits(n),
{
    lemma_digits(n);
    if n > 0 {
        lemma_first_digit(n);
    }
}

proof fn lemma_first_digit(n: nat)
    requires
        n > 0,
    ensures
        text::digits(n).len() > 0,
        text::digits(n)[0] != '0',
    decreases n,
{
    if n >= 10 {
        lemma_first_digit(n / 10);
    }
}

/// What holds no comma and is read as a colour is, trimmed and after at most one
/// `#`, six hexadecimal digits: two for each of red, green and blue.
pub proof fn law_hex_is_six_digits(text: Seq<char>, colour: Seq<u8>)
    requires
        color_value(text) == Ok::<Seq<u8>, Seq<char>>(colour),
        forall|i: int| 0 <= i < text.len() ==> #[trigger] text[i] != ',',
    ensures
        ({
            let s = text::trimmed(text);
            let digits = if s.len() > 0 && s[0] == '#' {
                s.subrange(1, s.len() as int)
            } else {
                s
            };
            &&& colour.len() == 3
            &&& digits.len() == 6
            &&& are_digits_of(digits[0], digits[1], colour[0])
            &&& are_digits_of(digits[2], digits[3], colour[1])
            &&& are_digits_of(digits[4], digits[5], colour[2])
        }),
{
    let s = text::trimmed(text);
    let digits = if s.len() > 0 && s[0] == '#' {
        s.subrange(1, s.len() as int)
    } else {
        s
    };
    let range = text::law_trimmed(text);
    assert forall|i: int| 0 <= i < s.len() implies s[i] != ',' by {
        assert(s[i] == text[range.0 + i]);
    }
    lemma_comma_skips(s, 0, s.len() as int);
    let bytes = utf8::encode_utf8(digits);
    assert(hex_bytes(s) == bytes);
    assert(bytes.len() == 6);
    assert(hex_byte(bytes, 0) is Some && hex_byte(bytes, 1) is Some && hex_byte(bytes, 2) is Some);
    assert forall|i: int| 0 <= i < digits.len() implies '\0' <= #[trigger] digits[i]
        <= '\u{7f}' by {
        let c = digits[i];
        lemma_code(c);
        if c as u32 >= 128 {
            let k = lemma_beyond_ascii(digits, i);
            assert(k == 0 || k == 1 || k == 2 || k == 3 || k == 4 || k == 5);
        }
    }
    assert(utf8::is_ascii_chars(digits));
    utf8::is_ascii_chars_encode_utf8(digits);
    lemma_hex_pair(bytes, digits, 0, colour[0]);
    lemma_hex_pair(bytes, digits, 1, colour[1]);
    lemma_hex_pair(bytes, digits, 2, colour[2]);
}

proof fn lemma_code(c: char)
    ensures
        c as u32 == c as int,
{
}

proof fn lemma_hex_pair(bytes: Seq<u8>, digits: Seq<char>, i: int, byte: u8)
    requires
        hex_byte(bytes, i) == Some(byte),
        bytes[2 * i] as int == digits[2 * i] as int,
        bytes[2 * i + 1] as int == digits[2 * i + 1] as int,
    ensures
        are_digits_of(digits[2 * i], digits[2 * i + 1], byte),
{
    let high = digit_value(digits[2 * i] as int)->0;
    let low = digit_value(digits[2 * i + 1] as int)->0;
    assert(high < 16 && low < 16);
    assert(byte == 16 * high + low);
    assert((16 * high + low) / 16 == high && (16 * high + low) % 16 == low);
}

/// What number a part of a triplet stands for: trimmed, and after at most one
/// plus sign, it is made of decimal digits, at least one.
pub open spec fn is_numeral_of(part: Seq<char>, value: u8) -> bool {
    let s = text::trimmed(part);
    let numeral = if s.len() > 0 && s[0] == '+' {
        s.subrange(1, s.len() as int)
    } else {
        s
    };
    &&& numeral.len() > 0
    &&& forall|i: int| 0 <= i < numeral.len() ==> '0' <= #[trigger] numeral[i] <= '9'
    &&& number_value(codes(numeral)) == Some(value as nat)
}

/// What holds a comma and is read as a colour holds two, and the three parts are
/// the decimal numbers of red, green and blue, none above 255.
pub proof fn law_triplet_is_three_numbers(text: Seq<char>, colour: Seq<u8>) -> (commas: (int, int))
    requires
        color_value(text) == Ok::<Seq<u8>, Seq<char>>(colour),
        text.contains(','),
    ensures
        ({
            let s = text::trimmed(text);
            &&& colour.len() == 3
            &&& 0 <= commas.0 < commas.1 < s.len()
            &&& forall|i: int|
                0 <= i < s.len() ==> (#[trigger] s[i] == ',' <==> i == commas.0 || i == commas.1)
            &&& is_numeral_of(s.subrange(0, commas.0), colour[0])
            &&& is_numeral_of(s.subrange(commas.0 + 1, commas.1), colour[1])
            &&& is_numeral_of(s.subrange(commas.1 + 1, s.len() as int), colour[2])
        }),
{
    let s = text::trimmed(text);
    let end = s.len() as int;
    let range = text::law_trimmed(text);
    let k = choose|k: int| 0 <= k < text.len() && text[k] == ',';
    assert(!text::is_white(','));
    assert(range.0 <= k < range.1);
    assert(s[k - range.0] == ',');
    lemma_first_comma(s, 0);
    let c1 = comma_from(s, 0);
    assert(c1 < end);
    lemma_first_comma(s, c1 + 1);
    let c2 = comma_from(s, c1 + 1);
    assert(c2 < end);
    lemma_first_comma(s, c2 + 1);
    lemma_numeral(s.subrange(0, c1));
    lemma_numeral(s.subrange(c1 + 1, c2));
    lemma_numeral(s.subrange(c2 + 1, end));
    (c1, c2)
}

/// Three decimal numbers up to 255 with two commas between them are read as a
/// colour, whatever white space is around them, and with or without plus signs.
pub proof fn law_three_numbers_are_a_triplet(
    text: Seq<char>,
    commas: (int, int),
    colour: (u8, u8, u8),
)
    requires
        ({
            let s = text::trimmed(text);
            &&& 0 <= commas.0 < commas.1 < s.len()
            &&& forall|i: int|
                0 <= i < s.len() ==> (#[trigger] s[i] == ',' <==> i == commas.0 || i == commas.1)
            &&& is_numeral_of(s.subrange(0, commas.0), colour.0)
            &&& is_numeral_of(s.subrange(commas.0 + 1, commas.1), colour.1)
            &&& is_numeral_of(s.subrange(commas.1 + 1, s.len() as int), colour.2)
        }),
    ensures
        color_value(text) == Ok::<Seq<u8>, Seq<char>>(seq![colour.0, colour.1, colour.2]),
{
    let s = text::trimmed(text);
    let end = s.len() as int;
    lemma_comma_skips(s, 0, commas.0);
    lemma_comma_skips(s, commas.0 + 1, commas.1);
    lemma_comma_skips(s, commas.1 + 1, end);
    assert(s[commas.0] == ',' && s[commas.1] == ',');
    lemma_numeral_is_read(s.subrange(0, commas.0), colour.0);
    lemma_numeral_is_read(s.subrange(commas.0 + 1, commas.1), colour.1);
    lemma_numeral_is_read(s.subrange(commas.1 + 1, end), colour.2);
}

proof fn lemma_numeral_is_read(part: Seq<char>, value: u8)
    requires
        is_numeral_of(part, value),
    ensures
        component(part) == Some(value),
{
    let s = text::trimmed(part);
    let numeral = if s.len() > 0 && s[0] == '+' {
        s.subrange(1, s.len() as int)
    } else {
        s
    };
    if s.len() > 0 && s[0] == '+' {
        assert(codes(s).subrange(1, s.len() as int) =~= codes(numeral));
    }
}

/// White space around a colour does not matter.
pub proof fn law_colour_ignores_outer_space(text: Seq<char>)
    ensures
        color_value(text) == color_value(text::trimmed(text)),
{
    text::law_trimmed_stays(text);
}

proof fn lemma_first_comma(s: Seq<char>, from: int)
    requires
        0 <= from <= s.len(),
    ensures
        from <= comma_from(s, from) <= s.len(),
        comma_from(s, from) < s.len() ==> s[comma_from(s, from)] == ',',
        forall|i: int| from <= i < comma_from(s, from) ==> #[trigger] s[i] != ',',
    decreases s.len() - from,
{
    if from < s.len() && s[from] != ',' {
        lemma_first_comma(s, from + 1);
    }
}

proof fn lemma_numeral(part: Seq<char>)
    ensures
        component(part) matches Some(value) ==> is_numeral_of(part, value),
{
    if component(part) is Some {
        let s = text::trimmed(part);
        let numeral = if s.len() > 0 && s[0] == '+' {
            s.subrange(1, s.len() as int)
        } else {
            s
        };
        if s.len() > 0 && s[0] == '+' {
            assert(codes(s).subrange(1, s.len() as int) =~= codes(numeral));
        }
        assert forall|i: int| 0 <= i < numeral.len() implies '0' <= #[trigger] numeral[i]
            <= '9' by {
            if !('0' <= numeral[i] <= '9') {
                lemma_bad_digit(codes(numeral), i);
            }
        }
    }
}

impl RunArgs {
    /// Why these arguments are refused, if they are.
    pub open spec fn refusal(&self) -> Option<Seq<char>> {
        if self.mode == Mode::Image && self.image is None {
            Some("--mode image requires --image <path>"@)
        } else {
            match color_value(self.color@) {
                Ok(_) => None,
                Err(m) => Some(m),
            }
        }
    }

    pub fn validate(&self) -> (verdict: Result<(), String>)
        ensures
            match (verdict, self.refusal()) {
                (Ok(_), None) => true,
                (Err(e), Some(m)) => e@ == m,
                _ => false,
            },
    {
        if self.mode == Mode::Image && self.image.is_none() {
            return Err("--mode image requires --image <path>".to_owned());
        }
        match parse_color(self.color.as_str()) {
            Ok(_) => Ok(()),
            Err(e) => Err(e),
        }
    }
}

} // verus!

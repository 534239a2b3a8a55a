//! Numbers and bytes as text.

use vstd::prelude::*;
use vstd::string::*;
use crate::bytes;

verus! {

/// The character for one decimal digit.
pub open spec fn digit(d: nat) -> char {
    (48 + d) as char
}

/// A number in decimal, without leading zeros.
pub open spec fn decimal(n: nat) -> Seq<char>
    decreases n,
{
    if n < 10 {
        seq![digit(n)]
    } else {
        decimal(n / 10).push(digit(n % 10))
    }
}

/// The character for one lower-case hexadecimal digit.
pub open spec fn hex_digit(d: nat) -> char {
    if d < 10 {
        (48 + d) as char
    } else {
        (87 + d) as char
    }
}

/// Bytes as lower-case hexadecimal, two digits each.
pub open spec fn hex_text(s: Seq<u8>) -> Seq<char> {
    Seq::new(
        2 * s.len(),
        |i: int|
            if i % 2 == 0 {
                hex_digit((s[i / 2] / 16) as nat)
            } else {
                hex_digit((s[i / 2] % 16) as nat)
            },
    )
}

/// Whether a byte is a hexadecimal digit of either case.
pub open spec fn is_hex(b: u8) -> bool {
    48 <= b <= 57 || 65 <= b <= 70 || 97 <= b <= 102
}

/// What a hexadecimal digit stands for.
pub open spec fn hex_value(b: u8) -> nat {
    if 48 <= b <= 57 {
        (b - 48) as nat
    } else if 65 <= b <= 70 {
        (b - 55) as nat
    } else {
        (b - 87) as nat
    }
}

/// Whether text, given as its bytes, is hexadecimal for whole bytes.
pub open spec fn is_hex_text(t: Seq<u8>) -> bool {
    t.len() % 2 == 0 && forall|i: int| 0 <= i < t.len() ==> is_hex(#[trigger] t[i])
}

/// The bytes that hexadecimal text stands for.
pub open spec fn hex_bytes(t: Seq<u8>) -> Seq<u8> {
    Seq::new(
        t.len() / 2,
        |i: int| (16 * hex_value(t[2 * i]) + hex_value(t[2 * i + 1])) as u8,
    )
}

/// Why text is not hexadecimal for the wanted number of bytes.
#[derive(Clone, Copy, PartialEq, Eq, Structural, Debug)]
pub enum HexError {
    /// A character other than a hexadecimal digit, and where it stands.
    InvalidHexCharacter { c: char, index: usize },
    /// An odd number of digits.
    OddLength,
    /// Hexadecimal, but for another number of bytes.
    InvalidStringLength,
}

/// `hex::encode`: the bytes as lower-case hexadecimal digits, two per byte.
#[verifier::external_body]
pub(crate) fn hex_encode(data: &[u8]) -> (s: String)
    ensures
        s@ == hex_text(data@),
{
    hex::encode(data)
}

/// Whether this is what is wrong with text that is not hexadecimal for so many
/// digits: an odd number of bytes, or else the first that is no digit, or else
/// the wrong number of digits.
pub open spec fn hex_fault(e: HexError, s: Seq<u8>, digits: nat) -> bool {
    match e {
        HexError::OddLength => s.len() % 2 != 0,
        HexError::InvalidHexCharacter { c, index } => {
            &&& s.len() % 2 == 0
            &&& index < s.len()
            &&& c == s[index as int] as char
            &&& !is_hex(s[index as int])
            &&& forall|i: int| 0 <= i < index ==> is_hex(#[trigger] s[i])
        },
        HexError::InvalidStringLength => is_hex_text(s) && s.len() != digits,
    }
}

/// `hex::decode`: digits of either case, two per byte. Fails on an odd number
/// of bytes of text, and otherwise at the first byte that is no digit, which
/// it reports as a character together with its position.
#[verifier::external_body]
pub(crate) fn hex_decode(text: &str) -> (r: Result<Vec<u8>, HexError>)
    ensures
        match r {
            Ok(v) => is_hex_text(text.spec_bytes()) && v@ == hex_bytes(text.spec_bytes()),
            Err(HexError::OddLength) => text.spec_bytes().len() % 2 != 0,
            Err(HexError::InvalidHexCharacter { c, index }) => {
                &&& text.spec_bytes().len() % 2 == 0
                &&& index < text.spec_bytes().len()
                &&& c == text.spec_bytes()[index as int] as char
                &&& !is_hex(text.spec_bytes()[index as int])
                &&& forall|i: int| 0 <= i < index ==> is_hex(#[trigger] text.spec_bytes()[i])
            },
            Err(HexError::InvalidStringLength) => false,
        },
{
    match hex::decode(text) {
        Ok(v) => Ok(v),
        Err(hex::FromHexError::OddLength) => Err(HexError::OddLength),
        Err(hex::FromHexError::InvalidHexCharacter { c, index }) => {
            Err(HexError::InvalidHexCharacter { c, index })
        },
        Err(hex::FromHexError::InvalidStringLength) => Err(HexError::InvalidStringLength),
    }
}

/// Hexadecimal text for 32 bytes.
pub fn hex_key(s: &str) -> (r: Result<[u8; 32], HexError>)
    ensures
        r is Ok <==> is_hex_text(s.spec_bytes()) && s.spec_bytes().len() == 64,
        r matches Ok(b) ==> b@ == hex_bytes(s.spec_bytes()),
        r matches Err(e) ==> hex_fault(e, s.spec_bytes(), 64),
{
    match hex_decode(s) {
        Ok(v) => {
            if v.len() != 32 {
                return Err(HexError::InvalidStringLength);
            }
            let b: [u8; 32] = bytes::take_array::<32>(&v, 0);
            assert(v@.subrange(0, 32) =~= v@);
            Ok(b)
        },
        Err(e) => Err(e),
    }
}

/// What `Debug` shows of a character.
pub uninterp spec fn spec_debug_char(c: char) -> Seq<char>;

/// What `Debug` shows of text.
pub uninterp spec fn spec_debug_text(s: Seq<char>) -> Seq<char>;

/// `Debug` for `char`: the character in quotes, escaped where it is not
/// printable. What it shows is a function of the character alone.
#[verifier::external_body]
fn debug_char(c: char) -> (r: String)
    ensures
        r@ == spec_debug_char(c),
{
    format!("{:?}", c)
}

/// `Debug` for `str`: the text in quotes, escaped where it is not printable.
/// What it shows is a function of the text alone.
#[verifier::external_body]
pub(crate) fn debug_text(s: &str) -> (r: String)
    ensures
        r@ == spec_debug_text(s@),
{
    format!("{:?}", s)
}

impl HexError {
    /// What is wrong, in words.
    pub open spec fn words(self) -> Seq<char> {
        match self {
            HexError::InvalidHexCharacter { c, index } => "Invalid character "@ + spec_debug_char(c)
                + (" at position "@ + decimal(index as nat)),
            HexError::OddLength => "Odd number of digits"@,
            HexError::InvalidStringLength => "Invalid string length"@,
        }
    }

    /// What is wrong, in words.
    pub fn message(&self) -> (s: String)
        ensures
            s@ == self.words(),
    {
        match self {
            HexError::InvalidHexCharacter { c, index } => {
                let mut s: String = "Invalid character ".to_string();
                s.append(debug_char(*c).as_str());
                s.append(phrase1(" at position ", *index as u64).as_str());
                s
            },
            HexError::OddLength => "Odd number of digits".to_string(),
            HexError::InvalidStringLength => "Invalid string length".to_string(),
        }
    }
}

/// Where a character first stands in text, from a position on.
pub open spec fn first_at(s: Seq<char>, c: char, from: int) -> Option<int>
    decreases s.len() - from,
{
    if from >= s.len() {
        None
    } else if s[from] == c {
        Some(from)
    } else {
        first_at(s, c, from + 1)
    }
}

/// Where a character first stands in text.
pub fn find_char(s: &str, c: char) -> (r: Option<usize>)
    ensures
        match r {
            Some(i) => first_at(s@, c, 0) == Some(i as int) && i < s@.len() && s@[i as int] == c,
            None => first_at(s@, c, 0) is None,
        },
{
    let n: usize = s.unicode_len();
    let mut i: usize = 0;
    while i < n
        invariant
            i <= n == s@.len(),
            first_at(s@, c, 0) == first_at(s@, c, i as int),
        decreases n - i,
    {
        if s.get_char(i) == c {
            return Some(i);
        }
        i = i + 1;
    }
    None
}

/// A character that stands in none of the first places is first found where it
/// does stand.
pub proof fn lemma_first_at(s: Seq<char>, c: char, from: int, at: int)
    requires
        0 <= from <= at < s.len(),
        s[at] == c,
        forall|i: int| from <= i < at ==> s[i] != c,
    ensures
        first_at(s, c, from) == Some(at),
    decreases at - from,
{
    if from < at {
        lemma_first_at(s, c, from + 1, at);
    }
}

/// Reading the hexadecimal form of bytes gives the bytes.
pub proof fn hex_roundtrip(s: Seq<u8>, t: Seq<u8>)
    requires
        t.len() == 2 * s.len(),
        forall|i: int| 0 <= i < t.len() ==> t[i] as char == #[trigger] hex_text(s)[i],
    ensures
        is_hex_text(t),
        hex_bytes(t) == s,
{
    assert forall|i: int| 0 <= i < t.len() implies is_hex(#[trigger] t[i]) by {
        assert(t[i] as char == hex_text(s)[i]);
    }
    assert forall|i: int| 0 <= i < s.len() implies #[trigger] hex_bytes(t)[i] == s[i] by {
        assert(t[2 * i] as char == hex_text(s)[2 * i]);
        assert(t[2 * i + 1] as char == hex_text(s)[2 * i + 1]);
        assert((2 * i + 1) / 2 == i);
        assert(hex_value(t[2 * i]) == s[i] / 16);
        assert(hex_value(t[2 * i + 1]) == s[i] % 16);
    }
    assert(hex_bytes(t) =~= s);
}

/// One decimal digit as text.
pub fn digit_text(d: u8) -> (s: &'static str)
    requires
        d < 10,
    ensures
        s@ == seq![digit(d as nat)],
{
    proof {
        reveal_strlit("0");
        reveal_strlit("1");
        reveal_strlit("2");
        reveal_strlit("3");
        reveal_strlit("4");
        reveal_strlit("5");
        reveal_strlit("6");
        reveal_strlit("7");
        reveal_strlit("8");
        reveal_strlit("9");
    }
    let s: &'static str = match d {
        0 => "0",
        1 => "1",
        2 => "2",
        3 => "3",
        4 => "4",
        5 => "5",
        6 => "6",
        7 => "7",
        8 => "8",
        _ => "9",
    };
    assert(s@ =~= seq![digit(d as nat)]);
    s
}

/// A number in decimal.
pub fn decimal_text(n: u64) -> (s: String)
    ensures
        s@ == decimal(n as nat),
    decreases n,
{
    if n < 10 {
        digit_text(n as u8).to_string()
    } else {
        let mut s: String = decimal_text(n / 10);
        s.append(digit_text((n % 10) as u8));
        assert(s@ =~= decimal(n as nat));
        s
    }
}

/// A phrase that ends in a number.
pub fn phrase1(before: &str, n: u64) -> (s: String)
    ensures
        s@ == before@ + decimal(n as nat),
{
    let mut s: String = before.to_string();
    s.append(decimal_text(n).as_str());
    s
}

/// A phrase with a number in its middle.
pub open spec fn number_between(before: Seq<char>, n: nat, after: Seq<char>) -> Seq<char> {
    before + decimal(n) + after
}

/// A phrase with a number in its middle.
pub fn phrase_around(before: &str, n: u64, after: &str) -> (s: String)
    ensures
        s@ == number_between(before@, n as nat, after@),
{
    let mut s: String = phrase1(before, n);
    s.append(after);
    s
}

/// A byte as two upper-case hexadecimal digits.
pub open spec fn upper_hex(b: u8) -> Seq<char> {
    seq![upper_digit((b / 16) as nat), upper_digit((b % 16) as nat)]
}

/// The character for one upper-case hexadecimal digit.
pub open spec fn upper_digit(d: nat) -> char {
    if d < 10 {
        (48 + d) as char
    } else {
        (55 + d) as char
    }
}

fn upper_digit_text(d: u8) -> (s: &'static str)
    requires
        d < 16,
    ensures
        s@ == seq![upper_digit(d as nat)],
{
    if d < 10 {
        return digit_text(d);
    }
    proof {
        reveal_strlit("A");
        reveal_strlit("B");
        reveal_strlit("C");
        reveal_strlit("D");
        reveal_strlit("E");
        reveal_strlit("F");
    }
    let s: &'static str = match d {
        10 => "A",
        11 => "B",
        12 => "C",
        13 => "D",
        14 => "E",
        _ => "F",
    };
    assert(s@ =~= seq![upper_digit(d as nat)]);
    s
}

/// A byte as two upper-case hexadecimal digits.
pub fn upper_hex_text(b: u8) -> (s: String)
    ensures
        s@ == upper_hex(b),
{
    let mut s: String = upper_digit_text(b / 16).to_string();
    s.append(upper_digit_text(b % 16));
    assert(s@ =~= upper_hex(b));
    s
}

/// A phrase with two numbers in it.
pub open spec fn two_numbers(before: Seq<char>, n: nat, between: Seq<char>, m: nat) -> Seq<char> {
    before + decimal(n) + between + decimal(m)
}

/// A phrase with two numbers in it.
pub fn phrase2(before: &str, n: u64, between: &str, m: u64) -> (s: String)
    ensures
        s@ == before@ + decimal(n as nat) + between@ + decimal(m as nat),
{
    let mut s: String = phrase1(before, n);
    s.append(between);
    s.append(decimal_text(m).as_str());
    s
}

// ---------------------------------------------------------------------------
// Parts of text
// ---------------------------------------------------------------------------

/// Whether a character is white space, as Unicode has it.
pub open spec fn is_white(c: char) -> bool {
    ||| '\u{9}' <= c <= '\u{d}'
    ||| c == ' '
    ||| c == '\u{85}'
    ||| c == '\u{a0}'
    ||| c == '\u{1680}'
    ||| '\u{2000}' <= c <= '\u{200a}'
    ||| c == '\u{2028}'
    ||| c == '\u{2029}'
    ||| c == '\u{202f}'
    ||| c == '\u{205f}'
    ||| c == '\u{3000}'
}

fn white(c: char) -> (r: bool)
    ensures
        r == is_white(c),
{
    ('\u{9}' <= c && c <= '\u{d}') || c == ' ' || c == '\u{85}' || c == '\u{a0}' || c == '\u{1680}'
        || ('\u{2000}' <= c && c <= '\u{200a}') || c == '\u{2028}' || c == '\u{2029}'
        || c == '\u{202f}' || c == '\u{205f}' || c == '\u{3000}'
}

/// Text without the white space in front of it.
pub open spec fn without_lead(s: Seq<char>) -> Seq<char>
    decreases s.len(),
{
    if s.len() > 0 && is_white(s[0]) {
        without_lead(s.subrange(1, s.len() as int))
    } else {
        s
    }
}

/// Text without the white space behind it.
pub open spec fn without_trail(s: Seq<char>) -> Seq<char>
    decreases s.len(),
{
    if s.len() > 0 && is_white(s.last()) {
        without_trail(s.drop_last())
    } else {
        s
    }
}

/// Text without the white space around it.
pub open spec fn trimmed(s: Seq<char>) -> Seq<char> {
    without_trail(without_lead(s))
}

/// Text without the white space around it.
pub fn trim(s: &str) -> (r: &str)
    ensures
        r@ == trimmed(s@),
{
    let n: usize = s.unicode_len();
    let mut from: usize = 0;
    assert(s@.subrange(0, n as int) =~= s@);
    while from < n && white(s.get_char(from))
        invariant
            from <= n == s@.len(),
            without_lead(s@) == without_lead(s@.subrange(from as int, n as int)),
        decreases n - from,
    {
        proof {
            let t = s@.subrange(from as int, n as int);
            assert(t.subrange(1, t.len() as int) =~= s@.subrange(from + 1, n as int));
        }
        from = from + 1;
    }
    let mut to: usize = n;
    while to > from && white(s.get_char(to - 1))
        invariant
            from <= to <= n == s@.len(),
            trimmed(s@) == without_trail(s@.subrange(from as int, to as int)),
        decreases to,
    {
        proof {
            let t = s@.subrange(from as int, to as int);
            assert(t.drop_last() =~= s@.subrange(from as int, to - 1));
        }
        to = to - 1;
    }
    s.substring_char(from, to)
}

/// Text without any `0x` in front of it.
pub open spec fn without_hex_mark(s: Seq<char>) -> Seq<char>
    decreases s.len(),
{
    if s.len() >= 2 && s[0] == '0' && s[1] == 'x' {
        without_hex_mark(s.subrange(2, s.len() as int))
    } else {
        s
    }
}

/// Text without any `0x` in front of it.
pub fn strip_hex_mark(s: &str) -> (r: &str)
    ensures
        r@ == without_hex_mark(s@),
{
    let n: usize = s.unicode_len();
    let mut from: usize = 0;
    assert(s@.subrange(0, n as int) =~= s@);
    while n - from >= 2 && s.get_char(from) == '0' && s.get_char(from + 1) == 'x'
        invariant
            from <= n == s@.len(),
            without_hex_mark(s@) == without_hex_mark(s@.subrange(from as int, n as int)),
        decreases n - from,
    {
        proof {
            let t = s@.subrange(from as int, n as int);
            assert(t.subrange(2, t.len() as int) =~= s@.subrange(from + 2, n as int));
        }
        from = from + 2;
    }
    s.substring_char(from, n)
}

/// Whether text begins with other text.
pub open spec fn begins(s: Seq<char>, head: Seq<char>) -> bool {
    s.len() >= head.len() && s.subrange(0, head.len() as int) == head
}

/// Whether text begins with other text.
pub fn begins_with(s: &str, head: &str) -> (r: bool)
    ensures
        r == begins(s@, head@),
{
    let n: usize = head.unicode_len();
    if s.unicode_len() < n {
        return false;
    }
    let mut i: usize = 0;
    while i < n
        invariant
            i <= n == head@.len(),
            n <= s@.len(),
            s@.subrange(0, i as int) == head@.subrange(0, i as int),
        decreases n - i,
    {
        if s.get_char(i) != head.get_char(i) {
            assert(s@.subrange(0, n as int)[i as int] != head@[i as int]);
            return false;
        }
        i = i + 1;
        assert(s@.subrange(0, i as int) =~= head@.subrange(0, i as int));
    }
    assert(head@.subrange(0, n as int) =~= head@);
    true
}

// ---------------------------------------------------------------------------
// Decimal digits
// ---------------------------------------------------------------------------

/// Whether a character is a decimal digit.
pub open spec fn is_digit(c: char) -> bool {
    '0' <= c <= '9'
}

/// Whether text is digits only.
pub open spec fn all_digits(s: Seq<char>) -> bool {
    forall|i: int| 0 <= i < s.len() ==> is_digit(#[trigger] s[i])
}

/// The number that digits stand for.
pub open spec fn digits_value(s: Seq<char>) -> nat
    decreases s.len(),
{
    if s.len() == 0 {
        0
    } else {
        (digits_value(s.drop_last()) * 10 + (s.last() as nat - 48)) as nat
    }
}

/// Ten to a power.
pub open spec fn ten_to(k: nat) -> nat
    decreases k,
{
    if k == 0 {
        1
    } else {
        10 * ten_to((k - 1) as nat)
    }
}

/// Whether text is digits only.
pub fn only_digits(s: &str) -> (r: bool)
    ensures
        r == all_digits(s@),
{
    let n: usize = s.unicode_len();
    let mut i: usize = 0;
    while i < n
        invariant
            i <= n == s@.len(),
            forall|j: int| 0 <= j < i ==> is_digit(#[trigger] s@[j]),
        decreases n - i,
    {
        let c: char = s.get_char(i);
        if c < '0' || c > '9' {
            assert(!is_digit(s@[i as int]));
            return false;
        }
        i = i + 1;
    }
    true
}

proof fn lemma_digits_grow(s: Seq<char>, n: int)
    requires
        all_digits(s),
        0 <= n <= s.len(),
    ensures
        digits_value(s.subrange(0, n)) <= digits_value(s),
    decreases s.len() - n,
{
    if n == s.len() {
        assert(s.subrange(0, n) =~= s);
    } else {
        lemma_digits_grow(s, n + 1);
        let t = s.subrange(0, n + 1);
        assert(t.drop_last() =~= s.subrange(0, n));
        assert(is_digit(s[n]));
    }
}

/// The number that digits stand for, unless it is too large.
pub fn read_digits(s: &str) -> (r: Option<u64>)
    requires
        all_digits(s@),
    ensures
        match r {
            Some(v) => v == digits_value(s@),
            None => digits_value(s@) > u64::MAX,
        },
{
    let n: usize = s.unicode_len();
    let mut v: u64 = 0;
    let mut i: usize = 0;
    assert(s@.subrange(0, 0) =~= Seq::<char>::empty());
    while i < n
        invariant
            i <= n == s@.len(),
            all_digits(s@),
            v == digits_value(s@.subrange(0, i as int)),
        decreases n - i,
    {
        let c: char = s.get_char(i);
        proof {
            let t = s@.subrange(0, i + 1);
            assert(t.drop_last() =~= s@.subrange(0, i as int));
            assert(t.last() == c);
            assert(is_digit(s@[i as int]));
            lemma_digits_grow(s@, i + 1);
        }
        let d: u64 = (c as u32 - 48) as u64;
        if v > u64::MAX / 10 || v * 10 > u64::MAX - d {
            return None;
        }
        v = v * 10 + d;
        i = i + 1;
    }
    assert(s@.subrange(0, n as int) =~= s@);
    Some(v)
}

/// A number in decimal reads back as the number.
pub proof fn decimal_roundtrip(n: nat)
    ensures
        decimal(n).len() > 0,
        all_digits(decimal(n)),
        digits_value(decimal(n)) == n,
    decreases n,
{
    if n < 10 {
        assert(decimal(n).drop_last() =~= Seq::<char>::empty());
        assert(digits_value(decimal(n).drop_last()) == 0);
    } else {
        decimal_roundtrip(n / 10);
        assert(decimal(n).drop_last() =~= decimal(n / 10));
    }
}

// ---------------------------------------------------------------------------
// How text reads
// ---------------------------------------------------------------------------

/// A further digit behind a number counts for itself, and what stood before it
/// counts ten times. A number that is written out starts with no idle zero.
pub proof fn decimal_is_positional(s: Seq<char>, c: char, n: nat)
    requires
        is_digit(c),
    ensures
        digits_value(Seq::empty()) == 0,
        digits_value(s.push(c)) == 10 * digits_value(s) + (c as int - '0' as int),
        n > 0 ==> decimal(n)[0] != '0',
        n == 0 ==> decimal(n) == seq!['0'],
    decreases n,
{
    assert(s.push(c).drop_last() =~= s);
    decimal_roundtrip(n);
    if n >= 10 {
        decimal_is_positional(s, c, n / 10);
        decimal_roundtrip(n / 10);
        assert(decimal(n)[0] == decimal(n / 10)[0]);
    }
}

/// A byte is written as its high and its low half, each by its place in the row
/// of hexadecimal digits.
pub proof fn hex_writes_the_high_half_first(s: Seq<u8>, i: int)
    requires
        0 <= i < s.len(),
    ensures
        ({
            let row = "0123456789abcdef"@;
            let caps = "0123456789ABCDEF"@;
            &&& hex_text(s).len() == 2 * s.len()
            &&& hex_text(s)[2 * i] == row[s[i] as int / 16]
            &&& hex_text(s)[2 * i + 1] == row[s[i] as int % 16]
            &&& upper_hex(s[i]).len() == 2
            &&& upper_hex(s[i])[0] == caps[s[i] as int / 16]
            &&& upper_hex(s[i])[1] == caps[s[i] as int % 16]
        }),
{
    reveal_strlit("0123456789abcdef");
    reveal_strlit("0123456789ABCDEF");
    let h = s[i] as int / 16;
    let l = s[i] as int % 16;
    assert(0 <= h < 16 && 0 <= l < 16);
    assert((2 * i) / 2 == i && (2 * i + 1) / 2 == i);
    lemma_rows(h as nat);
    lemma_rows(l as nat);
}

proof fn lemma_rows(d: nat)
    requires
        d < 16,
    ensures
        hex_digit(d) == "0123456789abcdef"@[d as int],
        upper_digit(d) == "0123456789ABCDEF"@[d as int],
{
    reveal_strlit("0123456789abcdef");
    reveal_strlit("0123456789ABCDEF");
}

/// Hexadecimal text reads back digit by digit, in either case: sixteen times the
/// first digit of a byte and the second.
pub proof fn hex_reads_by_the_row(t: Seq<u8>, i: int, x: int, y: int)
    requires
        is_hex_text(t),
        0 <= i < t.len() / 2,
        0 <= x < 16,
        0 <= y < 16,
        t[2 * i] as char == "0123456789abcdef"@[x] || t[2 * i] as char == "0123456789ABCDEF"@[x],
        t[2 * i + 1] as char == "0123456789abcdef"@[y] || t[2 * i + 1] as char
            == "0123456789ABCDEF"@[y],
    ensures
        hex_bytes(t).len() == t.len() / 2,
        hex_bytes(t)[i] == 16 * x + y,
{
    reveal_strlit("0123456789abcdef");
    reveal_strlit("0123456789ABCDEF");
    lemma_rows(x as nat);
    lemma_rows(y as nat);
}

proof fn lemma_without_lead(s: Seq<char>) -> (k: int)
    ensures
        0 <= k <= s.len(),
        without_lead(s) == s.subrange(k, s.len() as int),
        forall|i: int| 0 <= i < k ==> is_white(#[trigger] s[i]),
        k < s.len() ==> !is_white(s[k]),
    decreases s.len(),
{
    if s.len() > 0 && is_white(s[0]) {
        let t = s.subrange(1, s.len() as int);
        let k = lemma_without_lead(t);
        assert(t.subrange(k, t.len() as int) =~= s.subrange(k + 1, s.len() as int));
        assert forall|i: int| 0 <= i < k + 1 implies is_white(#[trigger] s[i]) by {
            if i > 0 {
                assert(s[i] == t[i - 1]);
            }
        }
        k + 1
    } else {
        assert(s.subrange(0, s.len() as int) =~= s);
        0
    }
}

proof fn lemma_without_trail(s: Seq<char>) -> (k: int)
    ensures
        0 <= k <= s.len(),
        without_trail(s) == s.subrange(0, k),
        forall|i: int| k <= i < s.len() ==> is_white(#[trigger] s[i]),
        k > 0 ==> !is_white(s[k - 1]),
    decreases s.len(),
{
    if s.len() > 0 && is_white(s.last()) {
        let t = s.drop_last();
        let k = lemma_without_trail(t);
        assert(t.subrange(0, k) =~= s.subrange(0, k));
        assert forall|i: int| k <= i < s.len() implies is_white(#[trigger] s[i]) by {
            if i < t.len() {
                assert(s[i] == t[i]);
            }
        }
        k
    } else {
        assert(s.subrange(0, s.len() as int) =~= s);
        s.len() as int
    }
}

/// Trimming takes white space off both ends, all of it and nothing else.
pub proof fn trimming_takes_the_ends_off(s: Seq<char>)
    ensures
        exists|a: int, b: int|
            0 <= a <= b <= s.len() && trimmed(s) == #[trigger] s.subrange(a, b) && (forall|i: int|
                0 <= i < a || b <= i < s.len() ==> is_white(#[trigger] s[i])),
        trimmed(s).len() > 0 ==> !is_white(trimmed(s)[0]) && !is_white(trimmed(s).last()),
{
    let a = lemma_without_lead(s);
    let t = without_lead(s);
    let k = lemma_without_trail(t);
    let b = a + k;
    assert(t.subrange(0, k) =~= s.subrange(a, b));
    assert forall|i: int| 0 <= i < a || b <= i < s.len() implies is_white(#[trigger] s[i]) by {
        if i >= b {
            assert(s[i] == t[i - a]);
        }
    }
    if trimmed(s).len() > 0 {
        assert(trimmed(s)[0] == s[a]);
        assert(trimmed(s).last() == t[k - 1]);
    }
}

/// Any number of `0x` in front of text goes, and what is left has none.
pub proof fn hex_marks_go(s: Seq<char>)
    ensures
        without_hex_mark(seq!['0', 'x'] + s) == without_hex_mark(s),
        !(s.len() >= 2 && s[0] == '0' && s[1] == 'x') ==> without_hex_mark(s) == s,
{
    let t = seq!['0', 'x'] + s;
    assert(t.subrange(2, t.len() as int) =~= s);
}

/// A character is found at its first place, and nowhere exactly where it does not
/// stand.
pub proof fn first_place_is_found(s: Seq<char>, c: char)
    ensures
        first_at(s, c, 0) is None <==> !s.contains(c),
        first_at(s, c, 0) matches Some(k) ==> 0 <= k < s.len() && s[k] == c && (forall|i: int|
            0 <= i < k ==> #[trigger] s[i] != c),
{
    lemma_first_place(s, c, 0);
    if s.contains(c) {
        let i = choose|i: int| 0 <= i < s.len() && s[i] == c;
        assert(s[i] == c);
    }
}

proof fn lemma_first_place(s: Seq<char>, c: char, from: int)
    requires
        0 <= from,
    ensures
        first_at(s, c, from) is None ==> forall|i: int| from <= i < s.len() ==> #[trigger] s[i] != c,
        first_at(s, c, from) matches Some(k) ==> from <= k < s.len() && s[k] == c && (forall|i: int|
            from <= i < k ==> #[trigger] s[i] != c),
    decreases s.len() - from,
{
    if from < s.len() && s[from] != c {
        lemma_first_place(s, c, from + 1);
    }
}

/// What counts as white space, by number.
pub proof fn white_space_by_number(c: char)
    ensures
        ({
            let n = c as u32;
            is_white(c) <==> 9 <= n <= 13 || n == 32 || n == 133 || n == 160 || n == 5760 || 8192
                <= n <= 8202 || n == 8232 || n == 8233 || n == 8239 || n == 8287 || n == 12288
        }),
{
}

/// What is wrong with text that should be so many hexadecimal digits is one thing
/// only: an odd length comes first, then the first character that is no digit,
/// then the wrong number of them. There is something wrong exactly when it is not
/// that many digits.
pub proof fn one_thing_is_wrong_with_hex(e: HexError, f: HexError, s: Seq<u8>, digits: nat)
    requires
        digits % 2 == 0,
    ensures
        hex_fault(e, s, digits) && hex_fault(f, s, digits) ==> e == f,
        hex_fault(e, s, digits) ==> !(s.len() == digits && forall|i: int|
            0 <= i < s.len() ==> is_hex(#[trigger] s[i])),
        s.len() % 2 != 0 ==> hex_fault(HexError::OddLength, s, digits),
        s.len() % 2 == 0 && s.len() != digits && (forall|i: int|
            0 <= i < s.len() ==> is_hex(#[trigger] s[i])) ==> hex_fault(
            HexError::InvalidStringLength,
            s,
            digits,
        ),
        e is InvalidHexCharacter && hex_fault(e, s, digits) ==> {
            &&& e->index < s.len()
            &&& !is_hex(s[e->index as int])
            &&& e->c == s[e->index as int] as char
            &&& forall|i: int| 0 <= i < e->index ==> is_hex(#[trigger] s[i])
        },
{
    if hex_fault(e, s, digits) && hex_fault(f, s, digits) {
        match (e, f) {
            (
                HexError::InvalidHexCharacter { c, index },
                HexError::InvalidHexCharacter { c: d, index: at },
            ) => {
                if index < at {
                    assert(is_hex(s[index as int]));
                } else if at < index {
                    assert(is_hex(s[at as int]));
                }
            },
            (HexError::InvalidHexCharacter { c, index }, _) => {
                if is_hex_text(s) {
                    assert(is_hex(s[index as int]));
                }
            },
            (_, HexError::InvalidHexCharacter { c, index }) => {
                if is_hex_text(s) {
                    assert(is_hex(s[index as int]));
                }
            },
            _ => {},
        }
    }
    if e is InvalidHexCharacter && hex_fault(e, s, digits) {
        assert(!is_hex(s[e->index as int]));
    }
}

/// The digits of either case, by number.
pub proof fn hex_digits_by_number(b: u8)
    ensures
        is_hex(b) <==> b as int - 48 >= 0 && (b < 58 || 65 <= b < 71 || 97 <= b < 103),
        48 <= b < 58 ==> hex_value(b) == b - 48,
        65 <= b < 71 ==> hex_value(b) == b - 65 + 10,
        97 <= b < 103 ==> hex_value(b) == b - 97 + 10,
{
}

/// Text begins with other text exactly when that and something more make it up.
pub proof fn beginnings_are_prefixes(s: Seq<char>, head: Seq<char>)
    ensures
        begins(s, head) <==> exists|rest: Seq<char>| s == #[trigger] (head + rest),
{
    if begins(s, head) {
        let rest = s.subrange(head.len() as int, s.len() as int);
        assert(s =~= head + rest);
    }
    if exists|rest: Seq<char>| s == #[trigger] (head + rest) {
        let rest = choose|rest: Seq<char>| s == #[trigger] (head + rest);
        assert(s.subrange(0, head.len() as int) =~= head);
    }
}

} // verus!

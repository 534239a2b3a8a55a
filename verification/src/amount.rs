//! Amounts as people write them: in coins, with a decimal point.
//!
//! The protocol counts in units and only in units. Everything here is integer
//! arithmetic: a binary fraction cannot hold a tenth, and money that is off by
//! an unpredictable unit is worse than money that is awkward to type.

use vstd::prelude::*;
use vstd::string::*;
use crate::constants::UNITS_PER_CHR;
use crate::text;

verus! {

/// How many decimal places a coin has: a unit is the millionth of one.
pub const CHR_PLACES: usize = 6;

/// Why text is no amount.
#[derive(Clone, Copy, PartialEq, Eq, Structural, Debug)]
pub enum AmountFault {
    Empty,
    Signed,
    Exponent,
    ManyPoints,
    NoFraction,
    NoWhole,
    NotDecimal,
    /// More decimal places than there are units to stand for.
    TooFine,
    OutOfRange,
}

/// Text that is no amount.
#[derive(Debug)]
pub struct AmountError {
    pub fault: AmountFault,
    /// The text, without the white space around it.
    pub text: String,
}

impl AmountError {
    /// The fault in words.
    pub fn message(&self) -> (s: String)
        ensures
            s@ == match self.fault {
                AmountFault::Empty => "empty amount"@,
                AmountFault::Signed => "amounts carry no sign: "@ + self.text@,
                AmountFault::Exponent => "exponent notation is not accepted: "@ + self.text@,
                AmountFault::ManyPoints => "more than one decimal point: "@ + self.text@,
                AmountFault::NoFraction => "nothing after the decimal point: "@ + self.text@,
                AmountFault::NoWhole => "no digits before the decimal point: "@ + self.text@
                    + " (write 0"@ + self.text@ + ")"@,
                AmountFault::NotDecimal => "not a decimal number: "@ + self.text@,
                AmountFault::TooFine => self.text@
                    + " has more than 6 decimal places; the smallest unit is 0.000001 CHR"@,
                AmountFault::OutOfRange => "amount out of range: "@ + self.text@,
            },
    {
        let head: &'static str = match self.fault {
            AmountFault::Empty => {
                return "empty amount".to_string();
            },
            AmountFault::TooFine => {
                let mut s: String = self.text.as_str().to_string();
                s.append(" has more than 6 decimal places; the smallest unit is 0.000001 CHR");
                return s;
            },
            AmountFault::NoWhole => {
                let mut s: String = "no digits before the decimal point: ".to_string();
                s.append(self.text.as_str());
                s.append(" (write 0");
                s.append(self.text.as_str());
                s.append(")");
                return s;
            },
            AmountFault::Signed => "amounts carry no sign: ",
            AmountFault::Exponent => "exponent notation is not accepted: ",
            AmountFault::ManyPoints => "more than one decimal point: ",
            AmountFault::NoFraction => "nothing after the decimal point: ",
            AmountFault::NotDecimal => "not a decimal number: ",
            AmountFault::OutOfRange => "amount out of range: ",
        };
        let mut s: String = head.to_string();
        s.append(self.text.as_str());
        s
    }
}

/// The units that a whole and a fraction stand for, or why they stand for none.
pub open spec fn units_of(whole: Seq<char>, frac: Seq<char>) -> Result<u64, AmountFault> {
    let units = text::digits_value(whole) * UNITS_PER_CHR + text::digits_value(frac)
        * text::ten_to((CHR_PLACES - frac.len()) as nat);
    if whole.len() == 0 {
        Err(AmountFault::NoWhole)
    } else if !text::all_digits(whole) || !text::all_digits(frac) {
        Err(AmountFault::NotDecimal)
    } else if frac.len() > CHR_PLACES {
        Err(AmountFault::TooFine)
    } else if units > u64::MAX {
        Err(AmountFault::OutOfRange)
    } else {
        Ok(units as u64)
    }
}

/// The amount that text without white space around it stands for, in units.
pub open spec fn amount_in(t: Seq<char>) -> Result<u64, AmountFault> {
    if t.len() == 0 {
        Err(AmountFault::Empty)
    } else if t[0] == '+' || t[0] == '-' {
        Err(AmountFault::Signed)
    } else if text::first_at(t, 'e', 0) is Some || text::first_at(t, 'E', 0) is Some {
        Err(AmountFault::Exponent)
    } else {
        match text::first_at(t, '.', 0) {
            Some(p) => {
                let whole = t.subrange(0, p);
                let frac = t.subrange(p + 1, t.len() as int);
                if text::first_at(frac, '.', 0) is Some {
                    Err(AmountFault::ManyPoints)
                } else if frac.len() == 0 {
                    Err(AmountFault::NoFraction)
                } else {
                    units_of(whole, frac)
                }
            },
            None => units_of(t, Seq::empty()),
        }
    }
}

/// A number of at most so many digits, with zeros in front.
pub open spec fn padded(n: nat, places: nat) -> Seq<char>
    decreases places,
{
    if places == 0 {
        Seq::empty()
    } else {
        padded(n / 10, (places - 1) as nat).push(text::digit(n % 10))
    }
}

/// Text without the zeros at its end.
pub open spec fn without_zeros(s: Seq<char>) -> Seq<char>
    decreases s.len(),
{
    if s.len() > 0 && s.last() == '0' {
        without_zeros(s.drop_last())
    } else {
        s
    }
}

/// Units as coins, with no more decimal places than needed.
pub open spec fn chr_text(units: u64) -> Seq<char> {
    let whole = text::decimal((units / UNITS_PER_CHR) as nat);
    let frac = (units % UNITS_PER_CHR) as nat;
    if frac == 0 {
        whole
    } else {
        whole + seq!['.'] + without_zeros(padded(frac, CHR_PLACES as nat))
    }
}

fn read_units(whole: &str, frac: &str) -> (r: Result<u64, AmountFault>)
    ensures
        r == units_of(whole@, frac@),
{
    if whole.unicode_len() == 0 {
        return Err(AmountFault::NoWhole);
    }
    if !text::only_digits(whole) || !text::only_digits(frac) {
        return Err(AmountFault::NotDecimal);
    }
    let places: usize = frac.unicode_len();
    if places > CHR_PLACES {
        return Err(AmountFault::TooFine);
    }
    proof {
        lemma_fraction_bound(frac@);
        lemma_scales();
        vstd::arithmetic::mul::lemma_mul_inequality(
            text::digits_value(frac@) as int,
            (text::ten_to(places as nat) - 1) as int,
            text::ten_to((CHR_PLACES - places) as nat) as int,
        );
    }
    let scale: u64 = match places {
        0 => 1_000_000,
        1 => 100_000,
        2 => 10_000,
        3 => 1_000,
        4 => 100,
        5 => 10,
        _ => 1,
    };
    assert(scale == text::ten_to((CHR_PLACES - places) as nat));
    let part: u64 = match text::read_digits(frac) {
        Some(v) => {
            assert(v < text::ten_to(places as nat));
            assert(v as int * scale as int <= 1_000_000) by (nonlinear_arith)
                requires
                    (v as int) < 1_000_000,
                    v as int * scale as int <= (text::ten_to(places as nat) - 1) as int
                        * scale as int,
                    (text::ten_to(places as nat) - 1) as int * scale as int <= 1_000_000,
            ;
            v * scale
        },
        None => 0,
    };
    match text::read_digits(whole) {
        Some(v) => if v > u64::MAX / UNITS_PER_CHR || v * UNITS_PER_CHR > u64::MAX - part {
            Err(AmountFault::OutOfRange)
        } else {
            Ok(v * UNITS_PER_CHR + part)
        },
        None => Err(AmountFault::OutOfRange),
    }
}

proof fn lemma_scales()
    ensures
        text::ten_to(0) == 1,
        text::ten_to(1) == 10,
        text::ten_to(2) == 100,
        text::ten_to(3) == 1_000,
        text::ten_to(4) == 10_000,
        text::ten_to(5) == 100_000,
        text::ten_to(6) == 1_000_000,
{
    reveal_with_fuel(text::ten_to, 7);
}

proof fn lemma_fraction_bound(s: Seq<char>)
    requires
        text::all_digits(s),
    ensures
        text::digits_value(s) < text::ten_to(s.len()),
    decreases s.len(),
{
    if s.len() > 0 {
        let t = s.drop_last();
        assert forall|i: int| 0 <= i < t.len() implies text::is_digit(#[trigger] t[i]) by {
            assert(t[i] == s[i]);
        }
        lemma_fraction_bound(t);
        assert(text::is_digit(s[s.len() - 1]));
    }
}

/// Read an amount written in coins, in units.
pub fn parse_chr(s: &str) -> (r: Result<u64, AmountError>)
    ensures
        match r {
            Ok(units) => amount_in(text::trimmed(s@)) == Ok::<u64, AmountFault>(units),
            Err(e) => amount_in(text::trimmed(s@)) == Err::<u64, AmountFault>(e.fault) && e.text@
                == text::trimmed(s@),
        },
{
    let t = text::trim(s);
    match read_amount(t) {
        Ok(units) => Ok(units),
        Err(fault) => Err(AmountError { fault, text: t.to_string() }),
    }
}

fn read_amount(t: &str) -> (r: Result<u64, AmountFault>)
    ensures
        r == amount_in(t@),
{
    let n: usize = t.unicode_len();
    if n == 0 {
        return Err(AmountFault::Empty);
    }
    let first: char = t.get_char(0);
    if first == '+' || first == '-' {
        return Err(AmountFault::Signed);
    }
    if text::find_char(t, 'e').is_some() || text::find_char(t, 'E').is_some() {
        return Err(AmountFault::Exponent);
    }
    match text::find_char(t, '.') {
        Some(p) => {
            let whole = t.substring_char(0, p);
            let frac = t.substring_char(p + 1, n);
            if text::find_char(frac, '.').is_some() {
                return Err(AmountFault::ManyPoints);
            }
            if p + 1 == n {
                return Err(AmountFault::NoFraction);
            }
            read_units(whole, frac)
        },
        None => {
            let none = t.substring_char(n, n);
            assert(none@ =~= Seq::<char>::empty());
            read_units(t, none)
        },
    }
}

/// A number below ten to the power of `places`, with zeros in front and none at
/// its end.
fn fraction_text(n: u64, places: usize) -> (s: String)
    requires
        places <= CHR_PLACES,
    ensures
        s@ == without_zeros(padded(n as nat, places as nat)),
    decreases places,
{
    if places == 0 {
        let s: String = "".to_string();
        proof {
            reveal_strlit("");
        }
        assert(s@ =~= Seq::<char>::empty());
        s
    } else {
        proof {
            let t = padded(n as nat, places as nat);
            assert(t.drop_last() =~= padded(n as nat / 10, (places - 1) as nat));
        }
        if n % 10 == 0 {
            fraction_text(n / 10, places - 1)
        } else {
            let mut s = padded_text(n / 10, places - 1);
            s.append(text::digit_text((n % 10) as u8));
            assert(s@ =~= padded(n as nat, places as nat));
            s
        }
    }
}

fn padded_text(n: u64, places: usize) -> (s: String)
    ensures
        s@ == padded(n as nat, places as nat),
    decreases places,
{
    if places == 0 {
        let s: String = "".to_string();
        proof {
            reveal_strlit("");
        }
        assert(s@ =~= Seq::<char>::empty());
        s
    } else {
        let mut s = padded_text(n / 10, places - 1);
        s.append(text::digit_text((n % 10) as u8));
        assert(s@ =~= padded(n as nat, places as nat));
        s
    }
}

/// Render units as coins, exactly.
pub fn format_chr(units: u64) -> (s: String)
    ensures
        s@ == chr_text(units),
{
    let whole: u64 = units / UNITS_PER_CHR;
    let frac: u64 = units % UNITS_PER_CHR;
    let mut s = text::decimal_text(whole);
    if frac == 0 {
        return s;
    }
    proof {
        reveal_strlit(".");
    }
    assert("."@ =~= seq!['.']);
    s.append(".");
    s.append(fraction_text(frac, CHR_PLACES).as_str());
    s
}

// ---------------------------------------------------------------------------
// Laws
// ---------------------------------------------------------------------------

proof fn lemma_padded(n: nat, places: nat)
    requires
        n < text::ten_to(places),
    ensures
        padded(n, places).len() == places,
        text::all_digits(padded(n, places)),
        text::digits_value(padded(n, places)) == n,
    decreases places,
{
    if places > 0 {
        lemma_padded(n / 10, (places - 1) as nat);
        let s = padded(n, places);
        assert(s.drop_last() =~= padded(n / 10, (places - 1) as nat));
    }
}

proof fn lemma_without_zeros(s: Seq<char>, most: nat)
    requires
        s.len() <= most,
        text::all_digits(s),
    ensures
        without_zeros(s).len() <= s.len(),
        text::all_digits(without_zeros(s)),
        text::digits_value(without_zeros(s)) * text::ten_to((most - without_zeros(s).len()) as nat)
            == text::digits_value(s) * text::ten_to((most - s.len()) as nat),
        text::digits_value(s) > 0 ==> without_zeros(s).len() > 0,
    decreases s.len(),
{
    if s.len() > 0 && s.last() == '0' {
        let t = s.drop_last();
        assert forall|i: int| 0 <= i < t.len() implies text::is_digit(#[trigger] t[i]) by {
            assert(t[i] == s[i]);
        }
        lemma_without_zeros(t, most);
        let k = (most - s.len()) as nat;
        assert(text::ten_to((most - t.len()) as nat) == 10 * text::ten_to(k));
        assert(text::digits_value(t) * (10 * text::ten_to(k)) == (text::digits_value(t) * 10)
            * text::ten_to(k)) by (nonlinear_arith);
    }
}

proof fn lemma_not_found(s: Seq<char>, c: char, from: int)
    requires
        0 <= from <= s.len(),
        forall|i: int| from <= i < s.len() ==> s[i] != c,
    ensures
        text::first_at(s, c, from) is None,
    decreases s.len() - from,
{
    if from < s.len() {
        lemma_not_found(s, c, from + 1);
    }
}

/// What is rendered reads back as the same amount, whatever it is.
pub proof fn formatting_and_parsing_agree(units: u64)
    ensures
        text::trimmed(chr_text(units)) == chr_text(units),
        amount_in(chr_text(units)) == Ok::<u64, AmountFault>(units),
{
    let t = chr_text(units);
    let n = (units / UNITS_PER_CHR) as nat;
    let frac = (units % UNITS_PER_CHR) as nat;
    let whole = text::decimal(n);
    text::decimal_roundtrip(n);
    lemma_scales();
    assert(t[0] == whole[0]);
    assert(text::is_digit(whole[0]));
    if frac == 0 {
        assert(text::is_digit(whole[whole.len() - 1]));
        lemma_not_found(t, '.', 0);
        lemma_not_found(t, 'e', 0);
        lemma_not_found(t, 'E', 0);
        assert(text::digits_value(Seq::<char>::empty()) == 0);
        assert(0 * text::ten_to(CHR_PLACES as nat) == 0);
        assert(units_of(t, Seq::empty()) == Ok::<u64, AmountFault>(units));
    } else {
        let full = padded(frac, CHR_PLACES as nat);
        let tail = without_zeros(full);
        lemma_padded(frac, CHR_PLACES as nat);
        lemma_without_zeros(full, CHR_PLACES as nat);
        assert(text::is_digit(tail[tail.len() - 1]));
        assert(t.last() == tail[tail.len() - 1]);
        let p = whole.len() as int;
        assert(t[p] == '.');
        assert forall|i: int| 0 <= i < t.len() && i != p implies text::is_digit(#[trigger] t[i]) by {
            if i < p {
                assert(t[i] == whole[i]);
            } else {
                assert(t[i] == tail[i - p - 1]);
            }
        }
        text::lemma_first_at(t, '.', 0, p);
        lemma_not_found(t, 'e', 0);
        lemma_not_found(t, 'E', 0);
        assert(t.subrange(0, p) =~= whole);
        assert(t.subrange(p + 1, t.len() as int) =~= tail);
        lemma_not_found(tail, '.', 0);
        assert(text::ten_to((CHR_PLACES - full.len()) as nat) == 1);
        assert(text::digits_value(full) * 1 == frac);
    }
}

/// Digits, a point and up to six digits stand for an amount that is as many
/// units as they say millionths. Digits alone stand for whole coins.
pub proof fn amount_is_what_is_written(whole: Seq<char>, frac: Seq<char>)
    requires
        whole.len() > 0,
        text::all_digits(whole),
        text::all_digits(frac),
    ensures
        ({
            let coins = text::digits_value(whole) * 1_000_000;
            let r = amount_in(whole);
            &&& coins <= u64::MAX ==> r == Ok::<u64, AmountFault>(coins as u64)
            &&& coins > u64::MAX ==> r == Err::<u64, AmountFault>(AmountFault::OutOfRange)
        }),
        ({
            let r = amount_in(whole + seq!['.'] + frac);
            let said = text::digits_value(whole + frac) * 1_000_000;
            let scale = text::ten_to(frac.len());
            &&& frac.len() == 0 ==> r == Err::<u64, AmountFault>(AmountFault::NoFraction)
            &&& frac.len() > 6 ==> r == Err::<u64, AmountFault>(AmountFault::TooFine)
            &&& 0 < frac.len() <= 6 ==> (r matches Ok(units) ==> units * scale == said)
            &&& 0 < frac.len() <= 6 && said <= u64::MAX * scale ==> r is Ok
            &&& 0 < frac.len() <= 6 && said > u64::MAX * scale ==> r == Err::<u64, AmountFault>(
                AmountFault::OutOfRange,
            )
        }),
{
    let t = whole + seq!['.'] + frac;
    let p = whole.len() as int;
    assert(text::is_digit(whole[0]));
    assert(t[0] == whole[0]);
    lemma_not_found(whole, '.', 0);
    lemma_not_found(whole, 'e', 0);
    lemma_not_found(whole, 'E', 0);
    lemma_not_found(frac, '.', 0);
    assert(text::digits_value(Seq::<char>::empty()) == 0);
    assert(0 * text::ten_to(CHR_PLACES as nat) == 0);
    assert(t[p] == '.');
    assert forall|i: int| 0 <= i < t.len() && i != p implies text::is_digit(#[trigger] t[i]) by {
        if i < p {
            assert(t[i] == whole[i]);
        } else {
            assert(t[i] == frac[i - p - 1]);
        }
    }
    text::lemma_first_at(t, '.', 0, p);
    lemma_not_found(t, 'e', 0);
    lemma_not_found(t, 'E', 0);
    assert(t.subrange(0, p) =~= whole);
    assert(t.subrange(p + 1, t.len() as int) =~= frac);
    if 0 < frac.len() <= 6 {
        let up = text::ten_to((6 - frac.len()) as nat);
        let scale = text::ten_to(frac.len());
        let w = text::digits_value(whole);
        let f = text::digits_value(frac);
        lemma_digits_join(whole, frac);
        lemma_ten_to_adds(frac.len(), (6 - frac.len()) as nat);
        lemma_scales();
        let units = w * 1_000_000 + f * up;
        lemma_ten_to_pos(frac.len());
        assert(scale * up == 1_000_000);
        assert(units * scale == (w * scale + f) * 1_000_000) by (nonlinear_arith)
            requires
                units == w * 1_000_000 + f * up,
                scale * up == 1_000_000,
        ;
        if units <= u64::MAX {
            assert(units * scale <= u64::MAX * scale) by (nonlinear_arith)
                requires
                    units <= u64::MAX,
                    scale > 0,
            ;
        } else {
            assert(units * scale > u64::MAX * scale) by (nonlinear_arith)
                requires
                    units > u64::MAX,
                    scale > 0,
            ;
        }
    }
}

proof fn lemma_ten_to_pos(k: nat)
    ensures
        text::ten_to(k) > 0,
    decreases k,
{
    if k > 0 {
        lemma_ten_to_pos((k - 1) as nat);
    }
}

proof fn lemma_ten_to_adds(a: nat, b: nat)
    ensures
        text::ten_to(a) * text::ten_to(b) == text::ten_to(a + b),
    decreases a,
{
    if a > 0 {
        lemma_ten_to_adds((a - 1) as nat, b);
        let x = text::ten_to((a - 1) as nat);
        let y = text::ten_to(b);
        assert((10 * x) * y == 10 * (x * y)) by (nonlinear_arith);
    } else {
        assert(1 * text::ten_to(b) == text::ten_to(b));
    }
}

proof fn lemma_digits_join(a: Seq<char>, b: Seq<char>)
    requires
        text::all_digits(b),
    ensures
        text::digits_value(a + b) == text::digits_value(a) * text::ten_to(b.len())
            + text::digits_value(b),
    decreases b.len(),
{
    if b.len() == 0 {
        assert(a + b =~= a);
        assert(text::digits_value(a) * 1 == text::digits_value(a));
    } else {
        let rest = b.drop_last();
        assert forall|i: int| 0 <= i < rest.len() implies text::is_digit(#[trigger] rest[i]) by {
            assert(rest[i] == b[i]);
        }
        assert(text::is_digit(b[b.len() - 1]));
        lemma_digits_join(a, rest);
        assert((a + b).drop_last() =~= a + rest);
        let v = text::digits_value(a);
        let x = text::ten_to(rest.len());
        assert((v * x) * 10 == v * (10 * x)) by (nonlinear_arith);
    }
}

/// Text is refused for the first thing that is wrong with it.
pub proof fn amount_is_refused_for(t: Seq<char>)
    ensures
        ({
            let r = amount_in(t);
            let signed = t.len() > 0 && (t[0] == '+' || t[0] == '-');
            let exponent = t.contains('e') || t.contains('E');
            &&& r == Err::<u64, AmountFault>(AmountFault::Empty) <==> t.len() == 0
            &&& r == Err::<u64, AmountFault>(AmountFault::Signed) <==> signed
            &&& r == Err::<u64, AmountFault>(AmountFault::Exponent) <==> t.len() > 0 && !signed
                && exponent
            &&& r is Ok ==> forall|i: int|
                0 <= i < t.len() ==> text::is_digit(#[trigger] t[i]) || t[i] == '.'
            &&& t.len() > 0 && !signed && !exponent && t[0] == '.' && t.len() > 1
                && !t.subrange(1, t.len() as int).contains('.') ==> r == Err::<u64, AmountFault>(
                AmountFault::NoWhole,
            )
        }),
{
    text::first_place_is_found(t, 'e');
    text::first_place_is_found(t, 'E');
    text::first_place_is_found(t, '.');
    if t.len() > 0 && t[0] == '.' {
        text::lemma_first_at(t, '.', 0, 0);
        text::first_place_is_found(t.subrange(1, t.len() as int), '.');
    }
    if amount_in(t) is Ok {
        match text::first_at(t, '.', 0) {
            Some(p) => {
                let whole = t.subrange(0, p);
                let frac = t.subrange(p + 1, t.len() as int);
                assert forall|i: int| 0 <= i < t.len() implies text::is_digit(#[trigger] t[i])
                    || t[i] == '.' by {
                    if i < p {
                        assert(t[i] == whole[i]);
                    } else if i > p {
                        assert(t[i] == frac[i - p - 1]);
                    }
                }
            },
            None => {},
        }
    }
}

/// An amount is written with no more than it takes: without a point where it is
/// whole coins, and otherwise with at most six digits behind the point, the last
/// of which is not a zero.
pub proof fn amount_is_written_short(units: u64)
    ensures
        units as int % 1_000_000 == 0 ==> chr_text(units) == text::decimal(
            (units as int / 1_000_000) as nat,
        ),
        units as int % 1_000_000 != 0 ==> {
            let whole = text::decimal((units as int / 1_000_000) as nat);
            let t = chr_text(units);
            &&& text::begins(t, whole.push('.'))
            &&& whole.len() + 1 < t.len() <= whole.len() + 7
            &&& t.last() != '0'
        },
{
    let frac = (units % UNITS_PER_CHR) as nat;
    if frac != 0 {
        let whole = text::decimal((units / UNITS_PER_CHR) as nat);
        let full = padded(frac, CHR_PLACES as nat);
        let tail = without_zeros(full);
        lemma_scales();
        lemma_padded(frac, CHR_PLACES as nat);
        lemma_without_zeros(full, CHR_PLACES as nat);
        lemma_no_zero_left(full);
        let t = chr_text(units);
        assert(t =~= whole.push('.') + tail);
        assert(t.subrange(0, whole.len() as int + 1) =~= whole.push('.'));
        assert(t.last() == tail.last());
    }
}

proof fn lemma_no_zero_left(s: Seq<char>)
    ensures
        without_zeros(s).len() > 0 ==> without_zeros(s).last() != '0',
        without_zeros(s).len() <= s.len(),
    decreases s.len(),
{
    if s.len() > 0 && s.last() == '0' {
        lemma_no_zero_left(s.drop_last());
    }
}

} // verus!

//! The numbers of a profile: durations and chances.
//!
//! Numbers with fractions are read outside; what each text comes to is given as a table. Which text
//! is read, and what its value means, is decided here.
use vstd::prelude::*;

use crate::text::{chars_of, lowered, same, text_of, to_lower, trim, trimmed};

verus! {

/// What a text means, or why it is refused.
pub enum Verdict<T> {
    Sound(T),
    Refused(Seq<char>),
}

/// What a number of some unit of time comes to.
#[derive(Debug)]
pub enum Amount {
    /// The text is no number.
    NotANumber,
    /// It is a number, but negative or not finite.
    Unusable,
    /// In nanoseconds, for milliseconds, seconds, minutes and hours; `None` where that is more
    /// than fits.
    Usable { ms: Option<u64>, s: Option<u64>, m: Option<u64>, h: Option<u64> },
}

/// A text with what its number comes to.
#[derive(Debug)]
pub struct AmountReading {
    pub text: String,
    pub amount: Amount,
}

/// What the numbers of a chance come to.
#[derive(Debug)]
pub enum Chance {
    /// The number, or the one above the stroke, is none.
    NotANumber,
    /// The one below the stroke is none.
    NoDivisor,
    /// The one below the stroke is zero or less; its text.
    DividesBy(String),
    /// It is less than zero, more than one, or not finite.
    OutOfRange,
    /// The bits of the chance; those of positive zero for zero.
    Bits(u64),
}

/// A text with what its numbers come to.
#[derive(Debug)]
pub struct ChanceReading {
    pub text: String,
    pub chance: Chance,
}

/// How a chance is spelled.
pub enum Spelling {
    /// As a number of hundredths.
    Percent(Seq<char>),
    /// As one number over another.
    Ratio(Seq<char>, Seq<char>),
    /// As a number.
    Plain,
}

/// What the numbers of a profile come to.
#[derive(Debug)]
pub struct Readings {
    pub amounts: Vec<AmountReading>,
    pub chances: Vec<ChanceReading>,
}

/// The first entry for a text; a text without one is no number.
pub open spec fn amount_in(list: Seq<AmountReading>, text: Seq<char>) -> Amount
    decreases list.len(),
{
    if list.len() == 0 {
        Amount::NotANumber
    } else if list[0].text@ == text {
        list[0].amount
    } else {
        amount_in(list.skip(1), text)
    }
}

/// Where the first stroke of a text stands; its length where there is none.
pub open spec fn first_stroke(s: Seq<char>) -> nat
    decreases s.len(),
{
    if s.len() == 0 || s[0] == '/' {
        0
    } else {
        1 + first_stroke(s.skip(1))
    }
}

/// How a chance is spelled: a percent sign at the end comes before a stroke.
pub open spec fn spelling(text: Seq<char>) -> Spelling {
    if text.len() > 0 && text.last() == '%' {
        Spelling::Percent(text.drop_last())
    } else if first_stroke(text) < text.len() {
        Spelling::Ratio(
            text.take(first_stroke(text) as int),
            text.skip(first_stroke(text) as int + 1),
        )
    } else {
        Spelling::Plain
    }
}

/// The first entry for a text; a text without one holds no number.
pub open spec fn chance_in(list: Seq<ChanceReading>, text: Seq<char>) -> Chance
    decreases list.len(),
{
    if list.len() == 0 {
        Chance::NotANumber
    } else if list[0].text@ == text {
        list[0].chance
    } else {
        chance_in(list.skip(1), text)
    }
}

/// The bits of the chance that always comes true: one. The bits of the numbers from zero up to it
/// are in the order of the numbers.
pub const ALWAYS: u64 = 0x3FF0_0000_0000_0000;

/// What a chance means, given what its numbers come to.
pub open spec fn chance_of(text: Seq<char>, chance: Chance) -> Verdict<u64> {
    let out_of_range = "`"@ + text + "` is not between never (0) and always (1)"@;
    match chance {
        Chance::Bits(bits) => if bits <= ALWAYS {
            Verdict::Sound(bits)
        } else {
            Verdict::Refused(out_of_range)
        },
        Chance::OutOfRange => Verdict::Refused(out_of_range),
        Chance::DividesBy(divisor) => Verdict::Refused("`"@ + text + "` divides by "@ + divisor@),
        Chance::NoDivisor => match spelling(text) {
            Spelling::Ratio(_, below) => Verdict::Refused("`"@ + below + "` is not a number"@),
            _ => Verdict::Refused("`"@ + text + "` is not a chance; use 0.30, 30% or 3/10"@),
        },
        Chance::NotANumber => match spelling(text) {
            Spelling::Percent(number) => Verdict::Refused("`"@ + number + "` is not a number"@),
            Spelling::Ratio(above, _) => Verdict::Refused("`"@ + above + "` is not a number"@),
            Spelling::Plain => Verdict::Refused(
                "`"@ + text + "` is not a chance; use 0.30, 30% or 3/10"@,
            ),
        },
    }
}

/// The numbers that a chance is made of: one, or two where it is a ratio. The flag tells whether
/// the first counts hundredths.
pub fn chance_numbers(text: &str) -> (r: (String, Option<String>, bool))
    ensures
        match spelling(text@) {
            Spelling::Percent(number) => r.0@ == number && r.1 is None && r.2,
            Spelling::Ratio(above, below) => r.0@ == above && r.1 is Some && r.1->0@ == below && !r.2,
            Spelling::Plain => r.0@ == text@ && r.1 is None && !r.2,
        },
{
    let v = chars_of(text);
    let n: usize = v.len();
    if n > 0 && v[n - 1] == '%' {
        let number = text_of(&v, 0, n - 1);
        assert(number@ =~= text@.drop_last());
        return (number, None, true);
    }
    let mut i: usize = 0;
    assert(v@.skip(0) =~= v@);
    while i < v.len()
        invariant
            v@ == text@,
            i <= v@.len(),
            n == v@.len(),
            !(n > 0 && v@[n - 1] == '%'),
            first_stroke(v@) == i + first_stroke(v@.skip(i as int)),
        decreases v@.len() - i,
    {
        if v[i] == '/' {
            let above = text_of(&v, 0, i);
            let below = text_of(&v, i + 1, n);
            assert(above@ =~= text@.take(i as int));
            assert(below@ =~= text@.skip(i + 1));
            return (above, Some(below), false);
        }
        i += 1;
        assert(v@.skip(i - 1).skip(1) =~= v@.skip(i as int));
    }
    (text.to_owned(), None, false)
}

impl Readings {
    /// What a number comes to.
    pub open spec fn amount(&self, text: Seq<char>) -> Amount {
        amount_in(self.amounts@, text)
    }

    /// The chance that a text spells.
    pub open spec fn chance(&self, text: Seq<char>) -> Verdict<u64> {
        chance_of(text, chance_in(self.chances@, text))
    }

    fn find_amount(&self, text: &str) -> (r: Option<&Amount>)
        ensures
            match r {
                Some(amount) => self.amount(text@) == *amount,
                None => self.amount(text@) is NotANumber,
            },
    {
        let mut i: usize = 0;
        assert(self.amounts@.skip(0) =~= self.amounts@);
        while i < self.amounts.len()
            invariant
                i <= self.amounts@.len(),
                self.amount(text@) == amount_in(self.amounts@.skip(i as int), text@),
            decreases self.amounts@.len() - i,
        {
            if same(self.amounts[i].text.as_str(), text) {
                return Some(&self.amounts[i].amount);
            }
            i += 1;
            assert(self.amounts@.skip(i - 1).skip(1) =~= self.amounts@.skip(i as int));
        }
        None
    }

    fn find_chance(&self, text: &str) -> (r: Option<&Chance>)
        ensures
            match r {
                Some(chance) => chance_in(self.chances@, text@) == *chance,
                None => chance_in(self.chances@, text@) is NotANumber,
            },
    {
        let mut i: usize = 0;
        assert(self.chances@.skip(0) =~= self.chances@);
        while i < self.chances.len()
            invariant
                i <= self.chances@.len(),
                chance_in(self.chances@, text@) == chance_in(
                    self.chances@.skip(i as int),
                    text@,
                ),
            decreases self.chances@.len() - i,
        {
            if same(self.chances[i].text.as_str(), text) {
                return Some(&self.chances[i].chance);
            }
            i += 1;
            assert(self.chances@.skip(i - 1).skip(1) =~= self.chances@.skip(i as int));
        }
        None
    }

    /// Reads a chance: three spellings, one probability.
    pub fn parse_chance(&self, text: &str) -> (r: Result<u64, String>)
        ensures
            match r {
                Ok(bits) => self.chance(text@) == Verdict::Sound(bits) && bits <= ALWAYS,
                Err(why) => self.chance(text@) == Verdict::<u64>::Refused(why@),
            },
    {
        let (above, below, hundredths) = chance_numbers(text);
        match self.find_chance(text) {
            Some(Chance::Bits(bits)) if *bits <= ALWAYS => Ok(*bits),
            Some(Chance::Bits(_) | Chance::OutOfRange) => Err(
                quoted(text, "` is not between never (0) and always (1)"),
            ),
            Some(Chance::DividesBy(divisor)) => {
                let mut why: String = quoted(text, "` divides by ");
                why.append(divisor.as_str());
                Err(why)
            },
            Some(Chance::NoDivisor) => match below {
                Some(below) => Err(quoted(below.as_str(), "` is not a number")),
                None => Err(quoted(text, "` is not a chance; use 0.30, 30% or 3/10")),
            },
            Some(Chance::NotANumber) | None => {
                if hundredths || below.is_some() {
                    Err(quoted(above.as_str(), "` is not a number"))
                } else {
                    Err(quoted(text, "` is not a chance; use 0.30, 30% or 3/10"))
                }
            },
        }
    }
}

/// An accepted chance lies between never and always, whatever the table says.
pub proof fn law_a_chance_lies_between_never_and_always(readings: &Readings, text: Seq<char>)
    ensures
        readings.chance(text) matches Verdict::Sound(bits) ==> 0 <= bits <= ALWAYS,
{
}

/// Whether a character is an ASCII letter.
pub open spec fn is_letter(c: char) -> bool {
    ('a' <= c <= 'z') || ('A' <= c <= 'Z')
}

/// Where the first ASCII letter of a text stands; its length where there is none.
pub open spec fn first_letter(s: Seq<char>) -> nat
    decreases s.len(),
{
    if s.len() == 0 || is_letter(s[0]) {
        0
    } else {
        1 + first_letter(s.skip(1))
    }
}

/// Whether a text spells zero without a unit: zeros and dots, at least one zero among them.
pub open spec fn spells_zero(s: Seq<char>) -> bool {
    s.contains('0') && forall|i: int| 0 <= i < s.len() ==> s[i] == '0' || s[i] == '.'
}

/// The nanoseconds of an amount in a unit.
pub open spec fn in_unit(amount: Amount, unit: Seq<char>) -> Option<Option<u64>> {
    match amount {
        Amount::Usable { ms, s, m, h } => if unit == "ms"@ {
            Some(ms)
        } else if unit == "s"@ {
            Some(s)
        } else if unit == "m"@ {
            Some(m)
        } else if unit == "h"@ {
            Some(h)
        } else {
            None
        },
        _ => None,
    }
}

/// What a duration means: a number and its unit, or zero without one.
pub open spec fn duration(readings: &Readings, text: Seq<char>) -> Verdict<u64> {
    let t = trimmed(text);
    if spells_zero(t) {
        Verdict::Sound(0)
    } else if first_letter(t) == t.len() {
        Verdict::Refused(
            "`"@ + t + "` has no unit; write ms, s, m or h (only zero may omit it)"@,
        )
    } else {
        let number = t.take(first_letter(t) as int);
        let unit = lowered(t.skip(first_letter(t) as int));
        match readings.amount(number) {
            Amount::NotANumber => Verdict::Refused("`"@ + number + "` is not a number"@),
            Amount::Unusable => Verdict::Refused(
                "`"@ + number + "` is not a usable amount of time"@,
            ),
            amount => match in_unit(amount, unit) {
                None => Verdict::Refused("`"@ + unit + "` is not a unit; use ms, s, m or h"@),
                Some(None) => Verdict::Refused(
                    "`"@ + t + "` is longer than this program will live"@,
                ),
                Some(Some(nanos)) => Verdict::Sound(nanos),
            },
        }
    }
}

/// Where the first ASCII letter stands.
fn letter_at(v: &Vec<char>) -> (r: usize)
    ensures
        r == first_letter(v@),
        r <= v@.len(),
{
    let mut i: usize = 0;
    assert(v@.skip(0) =~= v@);
    while i < v.len()
        invariant
            i <= v@.len(),
            first_letter(v@) == i + first_letter(v@.skip(i as int)),
        decreases v@.len() - i,
    {
        let c = v[i];
        if ('a' <= c && c <= 'z') || ('A' <= c && c <= 'Z') {
            return i;
        }
        i += 1;
        assert(v@.skip(i - 1).skip(1) =~= v@.skip(i as int));
    }
    i
}

fn is_bare_zero(v: &Vec<char>) -> (r: bool)
    ensures
        r == spells_zero(v@),
{
    let mut found = false;
    let mut i: usize = 0;
    while i < v.len()
        invariant
            i <= v@.len(),
            forall|k: int| 0 <= k < i ==> v@[k] == '0' || v@[k] == '.',
            found == exists|k: int| 0 <= k < i && v@[k] == '0',
        decreases v@.len() - i,
    {
        if v[i] == '0' {
            found = true;
        } else if v[i] != '.' {
            assert(v@[i as int] != '0' && v@[i as int] != '.');
            return false;
        }
        i += 1;
    }
    proof {
        if found {
            let k = choose|k: int| 0 <= k < v@.len() && v@[k] == '0';
            assert(v@.contains('0'));
        } else if v@.contains('0') {
            let k = choose|k: int| 0 <= k < v@.len() && v@[k] == '0';
            assert(v@[k] == '0');
        }
    }
    found
}

fn quoted(text: &str, rest: &str) -> (out: String)
    ensures
        out@ == "`"@ + text@ + rest@,
{
    let mut out: String = "`".to_owned();
    out.append(text);
    out.append(rest);
    out
}

/// Reads a duration into nanoseconds. Units are ms, s, m and h; zero of anything is zero and may
/// omit its unit.
pub fn parse_duration(readings: &Readings, text: &str) -> (r: Result<u64, String>)
    ensures
        match r {
            Ok(nanos) => duration(readings, text@) == Verdict::Sound(nanos),
            Err(why) => duration(readings, text@) == Verdict::<u64>::Refused(why@),
        },
{
    let bare = trim(text);
    let v = chars_of(bare.as_str());
    if is_bare_zero(&v) {
        return Ok(0);
    }
    let at = letter_at(&v);
    if at == v.len() {
        return Err(
            quoted(
                bare.as_str(),
                "` has no unit; write ms, s, m or h (only zero may omit it)",
            ),
        );
    }
    let number = text_of(&v, 0, at);
    let unit_text = text_of(&v, at, v.len());
    assert(number@ =~= bare@.take(at as int));
    assert(unit_text@ =~= bare@.skip(at as int));
    let unit = to_lower(unit_text.as_str());
    match readings.find_amount(number.as_str()) {
        None => Err(quoted(number.as_str(), "` is not a number")),
        Some(Amount::NotANumber) => Err(quoted(number.as_str(), "` is not a number")),
        Some(Amount::Unusable) => Err(
            quoted(number.as_str(), "` is not a usable amount of time"),
        ),
        Some(Amount::Usable { ms, s, m, h }) => {
            let nanos = if same(unit.as_str(), "ms") {
                *ms
            } else if same(unit.as_str(), "s") {
                *s
            } else if same(unit.as_str(), "m") {
                *m
            } else if same(unit.as_str(), "h") {
                *h
            } else {
                return Err(quoted(unit.as_str(), "` is not a unit; use ms, s, m or h"));
            };
            match nanos {
                Some(nanos) => Ok(nanos),
                None => Err(
                    quoted(bare.as_str(), "` is longer than this program will live"),
                ),
            }
        },
    }
}

/// A duration that may be left out, with the name of its field for the refusal.
pub open spec fn optional_duration(
    readings: &Readings,
    text: Option<Seq<char>>,
    field: Seq<char>,
    otherwise: u64,
) -> Verdict<u64> {
    match text {
        None => Verdict::Sound(otherwise),
        Some(text) => match duration(readings, text) {
            Verdict::Sound(nanos) => Verdict::Sound(nanos),
            Verdict::Refused(why) => Verdict::Refused(field + ": "@ + why),
        },
    }
}

/// Reads a duration that may be left out.
pub fn parse_optional_duration(
    readings: &Readings,
    text: &Option<String>,
    field: &str,
    otherwise: u64,
) -> (r: Result<u64, String>)
    ensures
        ({
            let meant = optional_duration(
                readings,
                super::slots::text_of_option(*text),
                field@,
                otherwise,
            );
            match r {
                Ok(nanos) => meant == Verdict::Sound(nanos),
                Err(why) => meant == Verdict::<u64>::Refused(why@),
            }
        }),
{
    match text {
        None => Ok(otherwise),
        Some(text) => match parse_duration(readings, text.as_str()) {
            Ok(nanos) => Ok(nanos),
            Err(detail) => {
                let mut why: String = field.to_owned();
                why.append(": ");
                why.append(detail.as_str());
                Err(why)
            },
        },
    }
}

/// Nothing but zero may leave out its unit.
pub proof fn law_only_zero_may_omit_its_unit(readings: &Readings, text: Seq<char>)
    requires
        first_letter(trimmed(text)) == trimmed(text).len(),
    ensures
        duration(readings, text) is Sound <==> spells_zero(trimmed(text)),
        duration(readings, text) matches Verdict::Sound(nanos) ==> nanos == 0,
{
}

} // verus!

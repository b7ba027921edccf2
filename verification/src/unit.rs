//! A single duration component: a magnitude tagged with a unit of seconds,
//! minutes or hours, parsed from and formatted to a `<digits><letter>` token.

use crate::digits::all_digits;
use crate::digits::check_digit;
use crate::digits::dec_rep;
use crate::digits::digits_value;
use crate::digits::is_digit;
use crate::digits::lemma_dec_rep_of_digits;
use crate::digits::lemma_digits_value_nonneg;
use crate::digits::lemma_digits_value_prefix_le;
use crate::digits::u32_to_string;
use vstd::prelude::*;
use vstd::string::StrSliceExecFns;
use vstd::string::StringExecFns;

verus! {

/// A parsed component: a magnitude tagged with its unit.
#[derive(Clone, Copy, Debug, PartialEq, Eq, Structural)]
pub enum TimeUnit {
    Seconds(i32),
    Minutes(i32),
    Hours(i32),
}

/// Why a single component failed to parse.
#[derive(Debug, PartialEq, Eq)]
pub enum ParseError {
    /// The token does not match the digits-then-unit-letter grammar.
    InvalidComponent(String),
    /// The token's digit run exceeds the supported integer width.
    InvalidNumber(String),
}

/// One of the three unit letters.
pub open spec fn is_unit_letter(c: char) -> bool {
    c == 's' || c == 'm' || c == 'h'
}

/// Seconds per unit named by a letter.
pub open spec fn letter_factor(c: char) -> int {
    if c == 's' {
        1
    } else if c == 'm' {
        60
    } else {
        3600
    }
}

/// A well-formed token: one or more digits, then exactly one unit letter.
pub open spec fn is_token(s: Seq<char>) -> bool {
    &&& s.len() >= 2
    &&& all_digits(s.take(s.len() - 1))
    &&& is_unit_letter(s.last())
}

/// The digit run of a token.
pub open spec fn token_digits(s: Seq<char>) -> Seq<char> {
    s.take(s.len() - 1)
}

/// The magnitude a token denotes.
pub open spec fn token_value(s: Seq<char>) -> int {
    digits_value(token_digits(s))
}

/// The unit letter of a token.
pub open spec fn token_unit(s: Seq<char>) -> char {
    s.last()
}

/// The seconds a token denotes: its magnitude times its unit's factor.
pub open spec fn token_seconds(s: Seq<char>) -> int {
    token_value(s) * letter_factor(token_unit(s))
}

impl TimeUnit {
    /// The magnitude carried by the variant.
    pub open spec fn magnitude(self) -> int {
        match self {
            TimeUnit::Seconds(v) => v as int,
            TimeUnit::Minutes(v) => v as int,
            TimeUnit::Hours(v) => v as int,
        }
    }

    /// Seconds per one of this unit.
    pub open spec fn unit_factor(self) -> int {
        match self {
            TimeUnit::Seconds(_) => 1,
            TimeUnit::Minutes(_) => 60,
            TimeUnit::Hours(_) => 3600,
        }
    }

    /// The seconds this component denotes.
    pub open spec fn seconds_spec(self) -> int {
        self.magnitude() * self.unit_factor()
    }

    /// The letter that names this unit.
    pub open spec fn letter(self) -> char {
        match self {
            TimeUnit::Seconds(_) => 's',
            TimeUnit::Minutes(_) => 'm',
            TimeUnit::Hours(_) => 'h',
        }
    }

    /// Parse one component token, which must match one or more decimal digits
    /// followed by exactly one of the letters `s`, `m`, `h`.
    #[verifier::loop_isolation(false)]
    pub fn parse(input: &str) -> (r: Result<TimeUnit, ParseError>)
        ensures
            match r {
                Ok(u) => is_token(input@) && 0 <= token_value(input@) <= i32::MAX
                    && u.magnitude() == token_value(input@) && u.letter() == token_unit(input@),
                Err(ParseError::InvalidComponent(t)) => !is_token(input@) && t@ == input@,
                Err(ParseError::InvalidNumber(t)) => is_token(input@) && token_value(input@)
                    > i32::MAX && t@ == input@,
            },
    {
        let len = input.unicode_len();
        if len < 2 {
            return Err(ParseError::InvalidComponent(input.to_owned()));
        }
        let last = input.get_char(len - 1);
        if !(last == 's' || last == 'm' || last == 'h') {
            return Err(ParseError::InvalidComponent(input.to_owned()));
        }
        let mut i: usize = 0;
        while i < len - 1
            invariant
                i <= len - 1,
                forall|j: int| 0 <= j < i ==> is_digit(#[trigger] input@[j]),
            decreases len - i,
        {
            let c = input.get_char(i);
            if !check_digit(c) {
                proof {
                    assert(token_digits(input@)[i as int] == input@[i as int]);
                }
                return Err(ParseError::InvalidComponent(input.to_owned()));
            }
            i = i + 1;
        }
        proof {
            assert(is_token(input@));
            lemma_digits_value_nonneg(token_digits(input@));
        }
        let mut val: u64 = 0;
        let mut i: usize = 0;
        while i < len - 1
            invariant
                i <= len - 1,
                val == digits_value(input@.take(i as int)),
                val <= i32::MAX,
            decreases len - i,
        {
            let c = input.get_char(i);
            proof {
                assert(token_digits(input@)[i as int] == input@[i as int]);
                assert(is_digit(input@[i as int]));
            }
            let d: u64 = (c as u32 - 48) as u64;
            val = val * 10 + d;
            proof {
                assert(input@.take(i + 1).drop_last() =~= input@.take(i as int));
                assert(input@.take(i + 1).last() == input@[i as int]);
            }
            i = i + 1;
            if val > i32::MAX as u64 {
                proof {
                    assert(input@.take(i as int) =~= token_digits(input@).take(i as int));
                    lemma_digits_value_prefix_le(token_digits(input@), i as int);
                }
                return Err(ParseError::InvalidNumber(input.to_owned()));
            }
        }
        proof {
            assert(input@.take(len - 1) =~= token_digits(input@));
        }
        let v: i32 = val as i32;
        if last == 's' {
            Ok(TimeUnit::Seconds(v))
        } else if last == 'm' {
            Ok(TimeUnit::Minutes(v))
        } else {
            Ok(TimeUnit::Hours(v))
        }
    }

    /// The component's worth in seconds: the magnitude times 1, 60 or 3600.
    pub fn convert_to_seconds(&self) -> (r: i32)
        requires
            i32::MIN <= self.seconds_spec() <= i32::MAX,
        ensures
            r == self.seconds_spec(),
    {
        match self {
            TimeUnit::Seconds(val) => *val,
            TimeUnit::Minutes(val) => *val * 60,
            TimeUnit::Hours(val) => *val * 60 * 60,
        }
    }

    /// Format as the token this component denotes: the magnitude in canonical
    /// decimal form, then the unit letter.
    pub fn format(&self) -> (r: String)
        requires
            self.magnitude() >= 0,
        ensures
            r@ == dec_rep(self.magnitude() as nat) + seq![self.letter()],
    {
        let v: i32 = match self {
            TimeUnit::Seconds(val) => *val,
            TimeUnit::Minutes(val) => *val,
            TimeUnit::Hours(val) => *val,
        };
        let s = u32_to_string(v as u32);
        let l: &'static str = match self {
            TimeUnit::Seconds(_) => "s",
            TimeUnit::Minutes(_) => "m",
            TimeUnit::Hours(_) => "h",
        };
        proof {
            reveal_strlit("s");
            reveal_strlit("m");
            reveal_strlit("h");
        }
        let r = s.concat(l);
        proof {
            assert(r@ =~= dec_rep(self.magnitude() as nat) + seq![self.letter()]);
        }
        r
    }

    /// True exactly when the magnitude is positive.
    pub fn is_not_empty(&self) -> (r: bool)
        ensures
            r == (self.magnitude() > 0),
    {
        match self {
            TimeUnit::Seconds(v) => *v > 0,
            TimeUnit::Minutes(v) => *v > 0,
            TimeUnit::Hours(v) => *v > 0,
        }
    }
}

/// Conversion to seconds is linear in the unit ladder: a minute is worth 60
/// seconds and an hour is worth 60 minutes, for every magnitude.
pub proof fn lemma_convert_linear(n: i32)
    ensures
        TimeUnit::Minutes(n).seconds_spec() == 60 * TimeUnit::Seconds(n).seconds_spec(),
        TimeUnit::Hours(n).seconds_spec() == 60 * TimeUnit::Minutes(n).seconds_spec(),
        TimeUnit::Hours(n).seconds_spec() == 3600 * TimeUnit::Seconds(n).seconds_spec(),
{
}

/// Parsing a token without leading zeros and formatting the result returns
/// the token unchanged: `format` writes back exactly the digit run and the
/// unit letter that `parse` read.
pub proof fn lemma_parse_format_round_trip(u: TimeUnit, t: Seq<char>)
    requires
        is_token(t),
        token_digits(t)[0] != '0' || token_digits(t).len() == 1,
        token_value(t) <= i32::MAX,
        u.magnitude() == token_value(t),
        u.letter() == token_unit(t),
    ensures
        dec_rep(u.magnitude() as nat) + seq![u.letter()] == t,
{
    lemma_dec_rep_of_digits(token_digits(t));
    assert(dec_rep(u.magnitude() as nat) + seq![u.letter()] =~= t);
}

} // verus!

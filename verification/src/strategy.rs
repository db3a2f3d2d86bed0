//! The three ways of binding capabilities to interrupt vectors, and the
//! choice among them by a small number.

use crate::text::chars_of;
use vstd::prelude::*;

verus! {

/// How the runtime is reached from the interrupt vectors.
#[derive(Clone, Copy, Debug, PartialEq, Eq, Structural)]
pub enum Strategy {
    /// A handle pairs a data pointer with a shared table of function pointers.
    DynamicTable,
    /// As `DynamicTable`, with a typed initialisation result and a table of fixed layout
    /// that the handle reaches by pointer.
    TypedTable,
    /// One concrete runtime per build, called directly; no table.
    Static,
}

/// The number of strategies; the versions run from 1 to this number.
pub const STRATEGIES: usize = 3;

impl Strategy {
    /// The strategy at a position counted from zero, oldest first.
    pub open spec fn at(index: int) -> Option<Strategy> {
        if index == 0 {
            Some(Strategy::DynamicTable)
        } else if index == 1 {
            Some(Strategy::TypedTable)
        } else if index == 2 {
            Some(Strategy::Static)
        } else {
            None
        }
    }

    /// The position of the strategy, counted from zero, oldest first.
    pub open spec fn position(self) -> int {
        match self {
            Strategy::DynamicTable => 0,
            Strategy::TypedTable => 1,
            Strategy::Static => 2,
        }
    }

    /// Whether the generated code goes through a table of function pointers.
    pub open spec fn has_table(self) -> bool {
        self != Strategy::Static
    }

    /// Whether reserved interrupt lines stay in the list, to get an empty handler.
    pub open spec fn keeps_reserved(self) -> bool {
        self == Strategy::Static
    }

    /// The strategy at `index`, counted from zero; none from `STRATEGIES` on.
    pub fn from_index(index: usize) -> (r: Option<Strategy>)
        ensures
            r == Self::at(index as int),
            r is Some <==> index < STRATEGIES,
    {
        if index == 0 {
            Some(Strategy::DynamicTable)
        } else if index == 1 {
            Some(Strategy::TypedTable)
        } else if index == 2 {
            Some(Strategy::Static)
        } else {
            None
        }
    }

    /// The position of the strategy, counted from zero.
    pub fn index(self) -> (r: usize)
        ensures
            r == self.position(),
            r < STRATEGIES,
            Self::at(r as int) == Some(self),
    {
        match self {
            Strategy::DynamicTable => 0,
            Strategy::TypedTable => 1,
            Strategy::Static => 2,
        }
    }

    /// The strategy that was added last.
    pub fn newest() -> (r: Strategy)
        ensures
            r == Strategy::Static,
            r.position() == STRATEGIES - 1,
    {
        Strategy::Static
    }

    /// Whether the generated code goes through a table of function pointers.
    pub fn uses_table(self) -> (r: bool)
        ensures
            r == self.has_table(),
    {
        match self {
            Strategy::Static => false,
            _ => true,
        }
    }

    /// Whether reserved interrupt lines stay in the list, to get an empty handler.
    pub fn retains_reserved(self) -> (r: bool)
        ensures
            r == self.keeps_reserved(),
    {
        match self {
            Strategy::Static => true,
            _ => false,
        }
    }
}

impl Default for Strategy {
    /// The newest strategy.
    fn default() -> (r: Strategy)
        ensures
            r == Strategy::Static,
    {
        Strategy::Static
    }
}

/// A decimal digit.
pub open spec fn is_digit(c: char) -> bool {
    0x30 <= c as u32 <= 0x39
}

/// The value of a decimal digit; zero for any other character.
pub open spec fn digit_value(c: char) -> nat {
    if is_digit(c) {
        (c as u32 - 0x30) as nat
    } else {
        0
    }
}

/// The number that a run of decimal digits denotes.
pub open spec fn digits_value(s: Seq<char>) -> nat
    decreases s.len(),
{
    if s.len() == 0 {
        0
    } else {
        digits_value(s.drop_last()) * 10 + digit_value(s.last())
    }
}

/// Every character of `s` is a decimal digit.
pub open spec fn all_digits(s: Seq<char>) -> bool {
    forall|i: int| 0 <= i < s.len() ==> is_digit(#[trigger] s[i])
}

/// `s` without a plus sign in front.
pub open spec fn unsigned_part(s: Seq<char>) -> Seq<char> {
    if s.len() > 0 && s[0] == '+' {
        s.drop_first()
    } else {
        s
    }
}

/// The number that `s` denotes as a `usize`: an optional plus sign, then one or
/// more decimal digits and nothing else, the value no greater than `usize::MAX`.
pub open spec fn parsed_number(s: Seq<char>) -> Option<nat> {
    let digits = unsigned_part(s);
    if digits.len() > 0 && all_digits(digits) && digits_value(digits) <= usize::MAX {
        Some(digits_value(digits))
    } else {
        None
    }
}

/// A run of digits denotes at least what any beginning of it denotes.
pub proof fn lemma_digits_value_grows(s: Seq<char>, k: int)
    requires
        0 <= k <= s.len(),
    ensures
        digits_value(s.take(k)) <= digits_value(s),
    decreases s.len(),
{
    if k == s.len() {
        assert(s.take(k) == s);
    } else {
        lemma_digits_value_grows(s.drop_last(), k);
        assert(s.drop_last().take(k) == s.take(k));
    }
}

/// Reads `s` as a `usize` in decimal notation.
pub fn parse_number(s: &str) -> (r: Option<usize>)
    ensures
        match parsed_number(s@) {
            Some(v) => r == Some(v as usize),
            None => r is None,
        },
{
    let chars = chars_of(s);
    let n = chars.len();
    let start: usize = if n > 0 && chars[0] == '+' {
        1
    } else {
        0
    };
    let ghost digits = unsigned_part(s@);
    assert(digits == chars@.subrange(start as int, n as int));
    if start == n {
        return None;
    }
    let mut value: usize = 0;
    let mut i: usize = start;
    while i < n
        invariant
            start <= i <= n == chars@.len(),
            digits == chars@.subrange(start as int, n as int),
            digits == unsigned_part(s@),
            all_digits(digits.take(i - start)),
            value == digits_value(digits.take(i - start)),
        decreases n - i,
    {
        let c = chars[i];
        let ghost upto = digits.take(i - start + 1);
        assert(upto.drop_last() == digits.take(i - start));
        assert(upto.last() == c);
        assert(digits[i - start] == c);
        let code: u32 = c as u32;
        if !(0x30 <= code && code <= 0x39) {
            assert(!is_digit(digits[i - start]));
            return None;
        }
        let d: usize = (code - 0x30) as usize;
        proof {
            lemma_digits_value_grows(digits, i - start + 1);
        }
        let shifted = match value.checked_mul(10) {
            Some(v) => v,
            None => return None,
        };
        value = match shifted.checked_add(d) {
            Some(v) => v,
            None => return None,
        };
        assert forall|k: int| 0 <= k < upto.len() implies is_digit(#[trigger] upto[k]) by {
            if k < upto.len() - 1 {
                assert(upto[k] == digits.take(i - start)[k]);
            }
        }
        i += 1;
    }
    assert(digits.take(n - start) == digits);
    Some(value)
}

/// What is said of a version that is no number.
pub open spec fn not_a_number(s: Seq<char>) -> Seq<char> {
    "`"@ + s + "` isn't a number"@
}

/// What is said of a number that names no strategy.
pub open spec fn not_in_range() -> Seq<char> {
    "Version not in range 1..3"@
}

/// Checks a version as given on the command line, a number from 1 to
/// `STRATEGIES`, and returns the position of its strategy, counted from zero.
pub fn valid_version(s: &str) -> (r: Result<usize, String>)
    ensures
        match parsed_number(s@) {
            Some(v) => if 1 <= v <= STRATEGIES {
                r == Ok::<usize, String>((v - 1) as usize)
            } else {
                r is Err && r->Err_0@ == not_in_range()
            },
            None => r is Err && r->Err_0@ == not_a_number(s@),
        },
{
    match parse_number(s) {
        Some(version) => {
            if 1 <= version && version <= STRATEGIES {
                Ok(version - 1)
            } else {
                Err(String::from_str("Version not in range 1..3"))
            }
        },
        None => {
            let mut message = String::from_str("`");
            message.append(s);
            message.append("` isn't a number");
            Err(message)
        },
    }
}

/// The strategy for a version as given on the command line; the newest one
/// where none is given.
pub fn select(version: Option<&str>) -> (r: Result<Strategy, String>)
    ensures
        match version {
            None => r == Ok::<Strategy, String>(Strategy::Static),
            Some(s) => match parsed_number(s@) {
                Some(v) => if 1 <= v <= STRATEGIES {
                    r == Ok::<Strategy, String>(Strategy::at(v - 1)->0)
                } else {
                    r is Err && r->Err_0@ == not_in_range()
                },
                None => r is Err && r->Err_0@ == not_a_number(s@),
            },
        },
{
    match version {
        None => Ok(Strategy::newest()),
        Some(s) => match valid_version(s) {
            Ok(index) => match Strategy::from_index(index) {
                Some(strategy) => Ok(strategy),
                None => Err(String::from_str("Version not in range 1..3")),
            },
            Err(message) => Err(message),
        },
    }
}

} // verus!

use vstd::prelude::*;

verus! {

/// Why a string is not a number of type `i32`, as the standard library's
/// integer parsing tells the cases apart.
#[derive(Clone, Copy, Debug, PartialEq, Eq, Structural)]
pub enum IntErrorKind {
    /// The string is empty.
    Empty,
    /// A character is not a digit, or the string is a lone sign.
    InvalidDigit,
    /// The number is above `i32::MAX`.
    PosOverflow,
    /// The number is below `i32::MIN`.
    NegOverflow,
}

/// Why the command line was refused.
#[derive(Clone, Copy, Debug, PartialEq, Eq, Structural)]
pub enum ArgumentError {
    /// No number of players was given.
    MissingPlayerCount,
    /// The number of players is not an `i32`.
    InvalidPlayerCount(IntErrorKind),
    /// The number of players is odd, below 4 or above 48.
    PlayerCountOutOfRange,
}

pub open spec fn is_digit(c: char) -> bool {
    '0' <= c && c <= '9'
}

pub open spec fn digit_value(c: char) -> int {
    c as int - '0' as int
}

/// Reads the digits `ds` (what follows the sign) from left to right,
/// starting from `acc`; stops at the first character that is not a digit
/// or at the first step that leaves the range of `i32`.
pub open spec fn scan_digits(ds: Seq<char>, negative: bool, acc: int) -> Result<int, IntErrorKind>
    decreases ds.len(),
{
    if ds.len() == 0 {
        Ok(acc)
    } else if !is_digit(ds[0]) {
        Err(IntErrorKind::InvalidDigit)
    } else {
        let next = if negative {
            acc * 10 - digit_value(ds[0])
        } else {
            acc * 10 + digit_value(ds[0])
        };
        if next < i32::MIN || next > i32::MAX {
            Err(
                if negative {
                    IntErrorKind::NegOverflow
                } else {
                    IntErrorKind::PosOverflow
                },
            )
        } else {
            scan_digits(ds.drop_first(), negative, next)
        }
    }
}

/// The decimal reading of `s` as an `i32`: an optional `+` or `-`, then one
/// or more ASCII digits.
pub open spec fn spec_parse_i32(s: Seq<char>) -> Result<i32, IntErrorKind> {
    if s.len() == 0 {
        Err(IntErrorKind::Empty)
    } else if s.len() == 1 && (s[0] == '+' || s[0] == '-') {
        Err(IntErrorKind::InvalidDigit)
    } else {
        let negative = s[0] == '-';
        let ds = if s[0] == '-' || s[0] == '+' {
            s.drop_first()
        } else {
            s
        };
        match scan_digits(ds, negative, 0) {
            Ok(v) => Ok(v as i32),
            Err(e) => Err(e),
        }
    }
}

proof fn lemma_scan_in_range(ds: Seq<char>, negative: bool, acc: int)
    requires
        i32::MIN <= acc <= i32::MAX,
    ensures
        scan_digits(ds, negative, acc) matches Ok(v) ==> i32::MIN <= v <= i32::MAX,
    decreases ds.len(),
{
    if ds.len() > 0 && is_digit(ds[0]) {
        let next = if negative {
            acc * 10 - digit_value(ds[0])
        } else {
            acc * 10 + digit_value(ds[0])
        };
        if i32::MIN <= next <= i32::MAX {
            lemma_scan_in_range(ds.drop_first(), negative, next);
        }
    }
}

/// The character of the decimal digit `d`.
pub open spec fn digit_char(d: nat) -> char {
    if d == 0 {
        '0'
    } else if d == 1 {
        '1'
    } else if d == 2 {
        '2'
    } else if d == 3 {
        '3'
    } else if d == 4 {
        '4'
    } else if d == 5 {
        '5'
    } else if d == 6 {
        '6'
    } else if d == 7 {
        '7'
    } else if d == 8 {
        '8'
    } else {
        '9'
    }
}

proof fn lemma_digit_char(d: nat)
    requires
        d < 10,
    ensures
        is_digit(digit_char(d)),
        digit_value(digit_char(d)) == d,
{
}

/// The usual decimal writing of `n`: its digits, most significant first,
/// with no sign and no leading zero.
pub open spec fn decimal(n: nat) -> Seq<char>
    decreases n,
{
    if n < 10 {
        seq![digit_char(n)]
    } else {
        decimal(n / 10).push(digit_char(n % 10))
    }
}

proof fn lemma_scan_push(ds: Seq<char>, c: char, acc: int)
    requires
        i32::MIN <= acc <= i32::MAX,
    ensures
        scan_digits(ds.push(c), false, acc) == match scan_digits(ds, false, acc) {
            Ok(v) => scan_digits(seq![c], false, v),
            Err(e) => Err(e),
        },
    decreases ds.len(),
{
    if ds.len() == 0 {
        assert(ds.push(c) =~= seq![c]);
    } else {
        assert(ds.push(c).drop_first() =~= ds.drop_first().push(c));
        assert(ds.push(c)[0] == ds[0]);
        if is_digit(ds[0]) {
            let next = acc * 10 + digit_value(ds[0]);
            if i32::MIN <= next <= i32::MAX {
                lemma_scan_push(ds.drop_first(), c, next);
            }
        }
    }
}

proof fn lemma_decimal_shape(n: nat)
    ensures
        decimal(n).len() >= 1,
        forall|i: int| 0 <= i < decimal(n).len() ==> #[trigger] is_digit(decimal(n)[i]),
    decreases n,
{
    if n < 10 {
        lemma_digit_char(n);
    } else {
        lemma_digit_char(n % 10);
        lemma_decimal_shape(n / 10);
        assert forall|i: int| 0 <= i < decimal(n).len() implies #[trigger] is_digit(decimal(n)[i]) by {
            if i < decimal(n / 10).len() {
                assert(decimal(n)[i] == decimal(n / 10)[i]);
            }
        }
    }
}

proof fn lemma_scan_decimal(n: nat)
    requires
        n <= i32::MAX,
    ensures
        scan_digits(decimal(n), false, 0) == Ok::<int, IntErrorKind>(n as int),
    decreases n,
{
    if n < 10 {
        lemma_digit_char(n);
        assert(seq![digit_char(n)].drop_first() =~= Seq::<char>::empty());
        assert(scan_digits(Seq::<char>::empty(), false, n as int) == Ok::<int, IntErrorKind>(n as int));
        assert(decimal(n) == seq![digit_char(n)]);
    } else {
        lemma_digit_char(n % 10);
        lemma_scan_decimal(n / 10);
        lemma_scan_push(decimal(n / 10), digit_char(n % 10), 0);
        let c = digit_char(n % 10);
        assert(seq![c].drop_first() =~= Seq::<char>::empty());
        assert((n / 10) * 10 + n % 10 == n);
        assert(scan_digits(Seq::<char>::empty(), false, n as int) == Ok::<int, IntErrorKind>(n as int));
        assert(scan_digits(seq![c], false, (n / 10) as int) == Ok::<int, IntErrorKind>(n as int));
        assert(decimal(n) == decimal(n / 10).push(c));
    }
}

/// Reading back the decimal writing of any `n` from 0 to `i32::MAX` gives
/// `n`.
pub proof fn lemma_parse_decimal(n: nat)
    requires
        n <= i32::MAX,
    ensures
        spec_parse_i32(decimal(n)) == Ok::<i32, IntErrorKind>(n as i32),
{
    lemma_decimal_shape(n);
    lemma_scan_decimal(n);
    let s = decimal(n);
    assert(is_digit(s[0]));
}

/// Parses `s` as a decimal `i32` (an optional sign, then digits), with the
/// error kinds of the standard library: `Empty` for the empty string,
/// `InvalidDigit` for a lone sign or a non-digit, and `PosOverflow` /
/// `NegOverflow` for the first digit that leaves the range of `i32`.
pub fn parse_i32(s: &str) -> (r: Result<i32, IntErrorKind>)
    ensures
        r == spec_parse_i32(s@),
        forall|n: nat| n <= i32::MAX && s@ == decimal(n) ==> r == Ok::<i32, IntErrorKind>(n as i32),
{
    proof {
        assert forall|n: nat| n <= i32::MAX && s@ == decimal(n) implies spec_parse_i32(s@) == Ok::<
            i32,
            IntErrorKind,
        >(n as i32) by {
            lemma_parse_decimal(n);
        }
    }
    let n = s.unicode_len();
    if n == 0 {
        return Err(IntErrorKind::Empty);
    }
    let first = s.get_char(0);
    if n == 1 && (first == '+' || first == '-') {
        return Err(IntErrorKind::InvalidDigit);
    }
    let negative = first == '-';
    let start: usize = if first == '-' || first == '+' {
        1
    } else {
        0
    };
    let ghost ds = if first == '-' || first == '+' {
        s@.drop_first()
    } else {
        s@
    };
    assert(ds =~= s@.subrange(start as int, n as int));
    let mut acc: i64 = 0;
    let mut i: usize = start;
    while i < n
        invariant
            start <= i <= n,
            n == s@.len(),
            n > 0,
            first == s@[0],
            !(n == 1 && (first == '+' || first == '-')),
            negative == (first == '-'),
            forall|m: nat| m <= i32::MAX && s@ == decimal(m) ==> spec_parse_i32(s@) == Ok::<
                i32,
                IntErrorKind,
            >(m as i32),
            ds == (if first == '-' || first == '+' {
                s@.drop_first()
            } else {
                s@
            }),
            i32::MIN <= acc <= i32::MAX,
            scan_digits(ds, negative, 0) == scan_digits(s@.subrange(i as int, n as int), negative, acc as int),
        decreases n - i,
    {
        let c = s.get_char(i);
        let ghost rest = s@.subrange(i as int, n as int);
        assert(rest[0] == c);
        assert(rest.drop_first() =~= s@.subrange(i + 1, n as int));
        if !('0' <= c && c <= '9') {
            return Err(IntErrorKind::InvalidDigit);
        }
        let d = (c as u32 - '0' as u32) as i64;
        assert(d == digit_value(c));
        let next = if negative {
            acc * 10 - d
        } else {
            acc * 10 + d
        };
        if next < i32::MIN as i64 || next > i32::MAX as i64 {
            return Err(
                if negative {
                    IntErrorKind::NegOverflow
                } else {
                    IntErrorKind::PosOverflow
                },
            );
        }
        acc = next;
        i = i + 1;
    }
    assert(s@.subrange(n as int, n as int).len() == 0);
    proof {
        lemma_scan_in_range(ds, negative, 0);
    }
    Ok(acc as i32)
}

/// What the command line `args` (program name first) gives: the number of
/// players and whether the debug mode is on, or why it is refused.
pub open spec fn spec_validate_arguments(args: Seq<String>) -> Result<(i32, bool), ArgumentError> {
    if args.len() < 2 {
        Err(ArgumentError::MissingPlayerCount)
    } else {
        match spec_parse_i32(args[1]@) {
            Err(kind) => Err(ArgumentError::InvalidPlayerCount(kind)),
            Ok(players) => if players < 4 || players % 2 != 0 || players > 48 {
                Err(ArgumentError::PlayerCountOutOfRange)
            } else {
                Ok((players, args.len() == 3 && args[2]@ == "debug"@))
            },
        }
    }
}

/// Checks the command line (program name first): the second argument is
/// the number of players, an even number from 4 to 48; the debug mode is
/// on when there are exactly three arguments and the third is `debug`.
pub fn validate_arguments(args: &Vec<String>) -> (r: Result<(i32, bool), ArgumentError>)
    ensures
        r == spec_validate_arguments(args@),
        r matches Ok((players, _)) ==> 4 <= players <= 48 && players % 2 == 0,
        forall|p: nat|
            4 <= p <= 48 && p % 2 == 0 && args@.len() >= 2 && #[trigger] decimal(p) == args@[1]@
                ==> r == Ok::<(i32, bool), ArgumentError>(
                (p as i32, args@.len() == 3 && args@[2]@ == "debug"@),
            ),
        forall|p: nat|
            p <= i32::MAX && args@.len() >= 2 && #[trigger] decimal(p) == args@[1]@ ==> (r
                == Err::<(i32, bool), ArgumentError>(ArgumentError::PlayerCountOutOfRange) <==> (p
                < 4 || p > 48 || p % 2 != 0)),
        args@.len() < 2 ==> r == Err::<(i32, bool), ArgumentError>(
            ArgumentError::MissingPlayerCount,
        ),
{
    proof {
        assert forall|p: nat| p <= i32::MAX && args@.len() >= 2 && #[trigger] decimal(p) == args@[1]@
            implies spec_parse_i32(args@[1]@) == Ok::<i32, IntErrorKind>(p as i32) by {
            lemma_parse_decimal(p);
        }
    }
    let expected_arguments: usize = 1;
    if args.len() < expected_arguments + 1 {
        return Err(ArgumentError::MissingPlayerCount);
    }
    let players: i32 = match parse_i32(args[1].as_str()) {
        Ok(players) => players,
        Err(kind) => return Err(ArgumentError::InvalidPlayerCount(kind)),
    };
    if players < 4 || players > 48 || players % 2 != 0 {
        return Err(ArgumentError::PlayerCountOutOfRange);
    }
    let mut debug = false;
    if args.len() == 3 {
        debug = args[2] == String::from_str("debug");
    }
    Ok((players, debug))
}

impl ArgumentError {
    /// The text that reports this error to the user.
    pub fn message(&self) -> (m: &'static str)
        ensures
            *self == ArgumentError::MissingPlayerCount ==> m@
                == "Number of players must be specified"@,
            *self == ArgumentError::PlayerCountOutOfRange ==> m@
                == "Number of players must be even and between 4 and 48"@,
            *self == ArgumentError::InvalidPlayerCount(IntErrorKind::Empty) ==> m@
                == "cannot parse integer from empty string"@,
            *self == ArgumentError::InvalidPlayerCount(IntErrorKind::InvalidDigit) ==> m@
                == "invalid digit found in string"@,
            *self == ArgumentError::InvalidPlayerCount(IntErrorKind::PosOverflow) ==> m@
                == "number too large to fit in target type"@,
            *self == ArgumentError::InvalidPlayerCount(IntErrorKind::NegOverflow) ==> m@
                == "number too small to fit in target type"@,
    {
        match self {
            ArgumentError::MissingPlayerCount => "Number of players must be specified",
            ArgumentError::PlayerCountOutOfRange => "Number of players must be even and between 4 and 48",
            ArgumentError::InvalidPlayerCount(IntErrorKind::Empty) => "cannot parse integer from empty string",
            ArgumentError::InvalidPlayerCount(IntErrorKind::InvalidDigit) => "invalid digit found in string",
            ArgumentError::InvalidPlayerCount(IntErrorKind::PosOverflow) => "number too large to fit in target type",
            ArgumentError::InvalidPlayerCount(IntErrorKind::NegOverflow) => "number too small to fit in target type",
        }
    }
}

} // verus!

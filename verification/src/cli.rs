//! A state-free command parser: an ordered sequence of string tokens is
//! turned into a typed command, or rejected with a descriptive parse error.

use vstd::prelude::*;
use vstd::string::StrSliceExecFns;

use crate::error::BitcoinError;

verus! {

/// A parsed command: transfer an amount to an address, or query the balance.
#[derive(Debug, Clone, PartialEq, Eq)]
pub enum CliCommand {
    Send { amount: u64, address: String },
    Balance,
}

/// Mathematical model of a command.
#[verifier::ext_equal]
pub ghost enum CliCommandModel {
    Send { amount: u64, address: Seq<char> },
    Balance,
}

impl View for CliCommand {
    type V = CliCommandModel;

    open spec fn view(&self) -> CliCommandModel {
        match self {
            CliCommand::Send { amount, address } => CliCommandModel::Send {
                amount: *amount,
                address: address@,
            },
            CliCommand::Balance => CliCommandModel::Balance,
        }
    }
}

/// Whether `c` is one of the ten decimal digits.
pub open spec fn is_decimal_digit(c: char) -> bool {
    '0' as u32 <= c as u32 && c as u32 <= '9' as u32
}

/// The numeric value of a decimal digit.
pub open spec fn digit_value(c: char) -> int {
    c as u32 - '0' as u32
}

/// Whether every character of `s` is a decimal digit.
pub open spec fn all_decimal_digits(s: Seq<char>) -> bool {
    forall|i: int| 0 <= i < s.len() ==> is_decimal_digit(#[trigger] s[i])
}

/// The value of `s` read as a base-ten numeral, most significant digit
/// first.
pub open spec fn decimal_value(s: Seq<char>) -> int
    decreases s.len(),
{
    if s.len() == 0 {
        0
    } else {
        decimal_value(s.drop_last()) * 10 + digit_value(s.last())
    }
}

/// The digits of an unsigned decimal numeral: one leading `+` sign is
/// allowed and ignored, exactly as unsigned integer parsing allows.
pub open spec fn unsigned_digits(s: Seq<char>) -> Seq<char> {
    if s.len() > 0 && s[0] == '+' {
        s.drop_first()
    } else {
        s
    }
}

/// What parsing `s` as a `u64` yields: the numeral's value if, after an
/// optional leading `+`, `s` is one or more decimal digits whose value fits
/// in a `u64`; nothing otherwise.
pub open spec fn spec_parse_u64(s: Seq<char>) -> Option<u64> {
    let d = unsigned_digits(s);
    if d.len() > 0 && all_decimal_digits(d) && decimal_value(d) <= u64::MAX {
        Some(decimal_value(d) as u64)
    } else {
        None
    }
}

proof fn lemma_decimal_value_nonneg(s: Seq<char>)
    requires
        all_decimal_digits(s),
    ensures
        decimal_value(s) >= 0,
    decreases s.len(),
{
    if s.len() > 0 {
        assert(all_decimal_digits(s.drop_last()));
        lemma_decimal_value_nonneg(s.drop_last());
    }
}

/// Reading more digits never decreases the value of a numeral.
proof fn lemma_decimal_value_prefix(s: Seq<char>, k: int)
    requires
        all_decimal_digits(s),
        0 <= k <= s.len(),
    ensures
        decimal_value(s.take(k)) <= decimal_value(s),
    decreases s.len() - k,
{
    if k < s.len() {
        lemma_decimal_value_prefix(s, k + 1);
        assert(s.take(k + 1).drop_last() =~= s.take(k));
        lemma_decimal_value_nonneg(s.take(k));
        assert(all_decimal_digits(s.take(k + 1)));
        lemma_decimal_value_nonneg(s.take(k + 1));
    } else {
        assert(s.take(k) =~= s);
    }
}

/// Parses an unsigned decimal numeral, with one optional leading `+`,
/// rejecting empty input, stray characters, and values beyond `u64::MAX`.
fn parse_u64_token(s: &str) -> (r: Option<u64>)
    ensures
        r == spec_parse_u64(s@),
{
    let n = s.unicode_len();
    let mut start: usize = 0;
    if n > 0 && s.get_char(0) == '+' {
        start = 1;
    }
    assert(unsigned_digits(s@) =~= s@.skip(start as int));
    let ghost d = s@.skip(start as int);
    if n == start {
        assert(d.len() == 0);
        return None;
    }
    let mut acc: u64 = 0;
    let mut i: usize = start;
    while i < n
        invariant
            start <= i <= n,
            n == s@.len(),
            d == s@.skip(start as int),
            unsigned_digits(s@) == d,
            all_decimal_digits(d.take(i - start)),
            acc as int == decimal_value(d.take(i - start)),
        decreases n - i,
    {
        let c = s.get_char(i);
        let cv = c as u32;
        if cv < 48 || cv > 57 {
            assert(d[i - start] == c);
            assert(!is_decimal_digit(d[i - start]));
            assert(!all_decimal_digits(d));
            return None;
        }
        let digit: u64 = (cv - 48) as u64;
        assert(is_decimal_digit(d[i - start]));
        assert(digit as int == digit_value(d[i - start]));
        proof {
            assert(d.take(i - start + 1).drop_last() =~= d.take(i - start));
            assert(d.take(i - start + 1).last() == d[i - start]);
        }
        let stepped = match acc.checked_mul(10) {
            Some(m) => m.checked_add(digit),
            None => None,
        };
        match stepped {
            Some(v) => {
                assert(v as int == decimal_value(d.take(i - start + 1)));
                acc = v;
            },
            None => {
                proof {
                    assert(decimal_value(d.take(i - start + 1)) > u64::MAX);
                    if all_decimal_digits(d) {
                        lemma_decimal_value_prefix(d, i - start + 1);
                        assert(decimal_value(d) > u64::MAX);
                    }
                }
                return None;
            },
        }
        i += 1;
    }
    assert(d.take(i - start) =~= d);
    assert(d.len() > 0);
    Some(acc)
}

/// What parsing a token sequence yields: either the command, or the message
/// of the parse error that rejects it.
pub open spec fn spec_parse_command(args: Seq<Seq<char>>) -> Result<CliCommandModel, Seq<char>> {
    if args.len() == 0 {
        Err("No command provided"@)
    } else if args[0] == "send"@ {
        if args.len() < 3 {
            Err("send requires amount and address"@)
        } else {
            match spec_parse_u64(args[1]) {
                Some(amount) => Ok(CliCommandModel::Send { amount, address: args[2] }),
                None => Err("Invalid amount for send"@),
            }
        }
    } else if args[0] == "balance"@ {
        Ok(CliCommandModel::Balance)
    } else {
        Err("Unknown command"@)
    }
}

/// Parses command-line-style tokens: `send <amount> <address>` or
/// `balance`. Every rejection carries the exact message that
/// [`spec_parse_command`] names for it.
pub fn parse_cli_args(args: &[String]) -> (r: Result<CliCommand, BitcoinError>)
    ensures
        (match r {
            Ok(c) => spec_parse_command(args.deep_view()) == Ok::<CliCommandModel, Seq<char>>(c@),
            Err(e) => e matches BitcoinError::ParseError(m) && spec_parse_command(args.deep_view())
                == Err::<CliCommandModel, Seq<char>>(m@),
        }),
{
    if args.len() == 0 {
        return Err(BitcoinError::ParseError("No command provided".to_owned()));
    }
    let send_word: String = "send".to_owned();
    let balance_word: String = "balance".to_owned();
    if args[0] == send_word {
        if args.len() < 3 {
            return Err(BitcoinError::ParseError("send requires amount and address".to_owned()));
        }
        match parse_u64_token(args[1].as_str()) {
            Some(amount) => {
                let address = args[2].clone();
                Ok(CliCommand::Send { amount, address })
            },
            None => Err(BitcoinError::ParseError("Invalid amount for send".to_owned())),
        }
    } else if args[0] == balance_word {
        Ok(CliCommand::Balance)
    } else {
        Err(BitcoinError::ParseError("Unknown command".to_owned()))
    }
}

} // verus!

//! Validated run parameters: the character set, the password length in
//! characters, and how many passwords to produce, read from a flag-value
//! argument list. Every configuration error is reported before any
//! generation begins.

use vstd::prelude::*;
use vstd::utf8::encode_utf8;

use crate::charset::{
    default_charset, parse_charset_spec, spec_parse, typeable, CharsetError,
};

verus! {

/// The password length used when no `-l` flag is given.
pub const DEFAULT_PWD_LEN: usize = 24;

/// The password count used when no `-n` flag is given.
pub const DEFAULT_NUM_PWDS: usize = 1;

pub const PLUS: u8 = 43;

pub const DIGIT_ZERO: u8 = 48;

pub const DIGIT_NINE: u8 = 57;

/// Why a run's parameters were rejected.
#[derive(Clone, Copy, Debug, PartialEq, Eq, Structural)]
pub enum ParamsError {
    /// The character-set specification was rejected.
    Charset(CharsetError),
    /// A flag's value was not a decimal number that fits the machine.
    InvalidNumber,
    /// The password length was zero.
    ZeroPasswordLength,
    /// The requested password count was zero.
    ZeroPasswordCount,
    /// An unknown flag, or a flag without a value.
    Usage,
}

/// An ASCII decimal digit.
pub open spec fn is_digit(b: u8) -> bool {
    DIGIT_ZERO <= b && b <= DIGIT_NINE
}

/// The value of a digit string read left to right.
pub open spec fn digits_value(s: Seq<u8>) -> nat
    decreases s.len(),
{
    if s.len() == 0 {
        0
    } else {
        digits_value(s.drop_last()) * 10 + (s.last() - DIGIT_ZERO) as nat
    }
}

/// The digit part of a decimal number: everything after an optional
/// leading plus sign.
pub open spec fn digits_part(s: Seq<u8>) -> Seq<u8> {
    if s.len() > 0 && s[0] == PLUS {
        s.drop_first()
    } else {
        s
    }
}

/// What parsing an unsigned decimal number from `s` yields: an optional
/// leading plus sign, then at least one digit, and a value that fits in a
/// `usize`; `None` otherwise.
pub open spec fn parse_usize_spec(s: Seq<u8>) -> Option<usize> {
    if digits_part(s).len() >= 1 && (forall|i: int|
        0 <= i < digits_part(s).len() ==> is_digit(#[trigger] digits_part(s)[i]))
        && digits_value(digits_part(s)) <= usize::MAX {
        Some(digits_value(digits_part(s)) as usize)
    } else {
        None
    }
}

/// A longer digit string never has a smaller value.
proof fn lemma_digits_value_prefix(s: Seq<u8>, m: int)
    requires
        0 <= m <= s.len(),
    ensures
        digits_value(s.take(m)) <= digits_value(s),
    decreases s.len() - m,
{
    if m < s.len() {
        lemma_digits_value_prefix(s.drop_last(), m);
        assert(s.drop_last().take(m) =~= s.take(m));
        assert(digits_value(s.drop_last()) * 10 >= digits_value(s.drop_last()))
            by (nonlinear_arith);
    } else {
        assert(s.take(m) =~= s);
    }
}

/// Parses an unsigned decimal number, exactly as `parse_usize_spec` says.
pub fn parse_usize(s: &str) -> (r: Option<usize>)
    ensures
        r == parse_usize_spec(encode_utf8(s@)),
{
    let bytes = s.as_bytes();
    let offset: usize = if bytes.len() > 0 && bytes[0] == PLUS {
        1
    } else {
        0
    };
    let ghost digits = digits_part(encode_utf8(s@));
    proof {
        assert(bytes@.skip(offset as int) =~= digits);
    }
    if bytes.len() == offset {
        return None;
    }
    let mut value: usize = 0;
    let mut k: usize = offset;
    while k < bytes.len()
        invariant
            bytes@ == encode_utf8(s@),
            digits == bytes@.skip(offset as int),
            digits == digits_part(encode_utf8(s@)),
            offset <= 1,
            offset <= k <= bytes@.len(),
            forall|i: int| 0 <= i < k - offset ==> is_digit(#[trigger] digits[i]),
            value == digits_value(digits.take(k - offset)),
        decreases bytes@.len() - k,
    {
        let ghost m = k - offset;
        let b = bytes[k];
        if b < DIGIT_ZERO || b > DIGIT_NINE {
            proof {
                assert(!is_digit(digits_part(encode_utf8(s@))[m]));
            }
            return None;
        }
        let d = (b - DIGIT_ZERO) as usize;
        proof {
            assert(digits.take(m + 1).drop_last() =~= digits.take(m));
            assert(digits.take(m + 1).last() == digits[m]);
        }
        let wide = value.checked_mul(10);
        let next = match wide {
            Some(v10) => v10.checked_add(d),
            None => None,
        };
        match next {
            Some(v) => {
                value = v;
            },
            None => {
                proof {
                    assert(digits_value(digits.take(m + 1)) > usize::MAX);
                    lemma_digits_value_prefix(digits, m + 1);
                    assert(digits_value(digits_part(encode_utf8(s@))) > usize::MAX);
                }
                return None;
            },
        }
        k = k + 1;
    }
    proof {
        assert(digits.take(k - offset) =~= digits);
        assert(forall|i: int|
            0 <= i < digits_part(encode_utf8(s@)).len() ==> is_digit(
                #[trigger] digits_part(encode_utf8(s@))[i],
            ));
    }
    Some(value)
}

/// Run parameters, validated before any generation begins.
pub struct Params {
    /// The character set, in strictly ascending byte order.
    pub charset: Vec<u8>,
    /// The length of each password in characters.
    pub pwd_len: usize,
    /// How many passwords to produce.
    pub num_pwds: usize,
}

/// One pass of the flag-value loop from argument `i` on: `-c` replaces the
/// character set, `-l` the password length, `-n` the password count; zero
/// lengths and counts, unknown flags, and flags without a value are
/// rejected.
pub open spec fn params_loop(
    args: Seq<Seq<u8>>,
    i: int,
    cs: Option<Set<u8>>,
    pwd_len: usize,
    num_pwds: usize,
) -> Result<(Option<Set<u8>>, usize, usize), ParamsError>
    decreases args.len() - i,
{
    if i >= args.len() {
        Ok((cs, pwd_len, num_pwds))
    } else if i + 1 >= args.len() {
        Err(ParamsError::Usage)
    } else {
        let flag = args[i];
        let val = args[i + 1];
        if flag == seq![45u8, 99u8] {
            match spec_parse(val) {
                Ok(set) => params_loop(args, i + 2, Some(set), pwd_len, num_pwds),
                Err(e) => Err(ParamsError::Charset(e)),
            }
        } else if flag == seq![45u8, 108u8] {
            match parse_usize_spec(val) {
                Some(n) => if n == 0 {
                    Err(ParamsError::ZeroPasswordLength)
                } else {
                    params_loop(args, i + 2, cs, n, num_pwds)
                },
                None => Err(ParamsError::InvalidNumber),
            }
        } else if flag == seq![45u8, 110u8] {
            match parse_usize_spec(val) {
                Some(n) => if n == 0 {
                    Err(ParamsError::ZeroPasswordCount)
                } else {
                    params_loop(args, i + 2, cs, pwd_len, n)
                },
                None => Err(ParamsError::InvalidNumber),
            }
        } else {
            Err(ParamsError::Usage)
        }
    }
}

/// What an argument list resolves to: the explicit character set if `-c`
/// was given, the password length and the password count, or the error
/// that rejects the run. The first argument is the program name and is
/// skipped.
pub open spec fn params_spec(args: Seq<Seq<u8>>) -> Result<
    (Option<Set<u8>>, usize, usize),
    ParamsError,
> {
    params_loop(args, 1, None, DEFAULT_PWD_LEN, DEFAULT_NUM_PWDS)
}

/// The UTF-8 bytes of each argument.
pub open spec fn args_bytes(args: Seq<String>) -> Seq<Seq<u8>> {
    Seq::new(args.len(), |i: int| encode_utf8(args[i]@))
}

/// True exactly when the argument is the two bytes `-` and `c`.
fn arg_is(s: &String, c: u8) -> (r: bool)
    ensures
        r == (encode_utf8(s@) == seq![45u8, c]),
{
    let bytes = s.as_str().as_bytes();
    let r = bytes.len() == 2 && bytes[0] == 45 && bytes[1] == c;
    proof {
        if r {
            assert(bytes@ =~= seq![45u8, c]);
        } else {
            if bytes@.len() == 2 {
                assert(bytes@ != seq![45u8, c]);
            } else {
                assert(seq![45u8, c].len() == 2);
            }
        }
    }
    r
}

impl Params {
    /// Validated parameters from the argument list, exactly as
    /// `params_spec` resolves it; the character set comes out in strictly
    /// ascending byte order, defaulting to the whole typeable universe
    /// when no `-c` flag is given.
    pub fn new(args: Vec<String>) -> (r: Result<Params, ParamsError>)
        ensures
            ({
                let resolved = params_spec(args_bytes(args@));
                match r {
                    Ok(p) => {
                        &&& resolved matches Ok((cs_opt, pl, np)) && {
                            &&& p.pwd_len == pl
                            &&& p.num_pwds == np
                            &&& match cs_opt {
                                Some(set) => forall|b: u8| p.charset@.contains(b) <==> set.contains(b),
                                None => forall|b: u8| p.charset@.contains(b) <==> typeable(b),
                            }
                        }
                        &&& forall|i: int, j: int|
                            0 <= i < j < p.charset@.len() ==> p.charset@[i] < p.charset@[j]
                    },
                    Err(e) => resolved == Err::<(Option<Set<u8>>, usize, usize), ParamsError>(e),
                }
            }),
    {
        let ghost sargs = args_bytes(args@);
        let mut charset: Option<Vec<u8>> = None;
        let ghost mut cs_model = None::<Set<u8>>;
        let mut pwd_len: usize = DEFAULT_PWD_LEN;
        let mut num_pwds: usize = DEFAULT_NUM_PWDS;
        let mut i: usize = 1;
        while i < args.len()
            invariant
                sargs == args_bytes(args@),
                sargs.len() == args@.len(),
                1 <= i,
                params_spec(sargs) == params_loop(sargs, i as int, cs_model, pwd_len, num_pwds),
                match charset {
                    Some(v) => {
                        &&& cs_model matches Some(set) && (forall|b: u8|
                            v@.contains(b) <==> set.contains(b))
                        &&& forall|x: int, y: int| 0 <= x < y < v@.len() ==> v@[x] < v@[y]
                    },
                    None => cs_model is None,
                },
            decreases args@.len() - i,
        {
            if i + 1 >= args.len() {
                return Err(ParamsError::Usage);
            }
            let ghost flag = sargs[i as int];
            let ghost val = sargs[i as int + 1];
            let value_arg = &args[i + 1];
            proof {
                assert(encode_utf8(value_arg@) == val);
            }
            if arg_is(&args[i], 99) {
                match parse_charset_spec(value_arg.as_str()) {
                    Ok(v) => {
                        charset = Some(v);
                        proof {
                            cs_model = Some(spec_parse(val)->Ok_0);
                        }
                    },
                    Err(e) => {
                        return Err(ParamsError::Charset(e));
                    },
                }
            } else if arg_is(&args[i], 108) {
                match parse_usize(value_arg.as_str()) {
                    Some(n) => {
                        if n == 0 {
                            return Err(ParamsError::ZeroPasswordLength);
                        }
                        pwd_len = n;
                    },
                    None => {
                        return Err(ParamsError::InvalidNumber);
                    },
                }
            } else if arg_is(&args[i], 110) {
                match parse_usize(value_arg.as_str()) {
                    Some(n) => {
                        if n == 0 {
                            return Err(ParamsError::ZeroPasswordCount);
                        }
                        num_pwds = n;
                    },
                    None => {
                        return Err(ParamsError::InvalidNumber);
                    },
                }
            } else {
                return Err(ParamsError::Usage);
            }
            i = i + 2;
        }
        let charset = match charset {
            Some(v) => v,
            None => default_charset(),
        };
        Ok(Params { charset, pwd_len, num_pwds })
    }
}

} // verus!

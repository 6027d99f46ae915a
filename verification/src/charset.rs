//! The character-set specification language: literal bytes, `\-` and `\\`
//! escapes, `a-b` ranges, and a leading `^` for the complement, all bounded
//! by the typeable universe of printable ASCII (32 through 126).

use vstd::prelude::*;
use vstd::string::StringSliceAdditionalSpecFns;

use crate::byte_set::{bitmap_member, ByteSet};

verus! {

pub const HYPHEN: u8 = 45;

pub const BACKSLASH: u8 = 92;

pub const CARET: u8 = 94;

/// Raw bitmap of the typeable universe: printable ASCII, 32 through 126.
pub const TYPEABLE: [u64; 4] = [
    0b1111_1111_1111_1111_1111_1111_1111_1111_0000_0000_0000_0000_0000_0000_0000_0000,
    0b0111_1111_1111_1111_1111_1111_1111_1111_1111_1111_1111_1111_1111_1111_1111_1111,
    0,
    0,
];

/// Membership in the typeable universe.
pub open spec fn typeable(v: u8) -> bool {
    32 <= v && v <= 126
}

/// The typeable universe as a set.
pub open spec fn typeable_set() -> Set<u8> {
    Set::new(|v: u8| typeable(v))
}

/// The raw `TYPEABLE` bitmap holds exactly the typeable universe.
pub proof fn lemma_typeable_bitmap(v: u8)
    ensures
        bitmap_member(TYPEABLE@, v) <==> typeable(v),
{
    let i = (v % 64) as u64;
    assert(v == 64 * (v as int / 64) + (v % 64) as int);
    if v < 64 {
        assert(crate::byte_set::word_bit(
            0b1111_1111_1111_1111_1111_1111_1111_1111_0000_0000_0000_0000_0000_0000_0000_0000u64,
            i,
        ) <==> (32 <= i && i < 64)) by (bit_vector);
    } else if v < 128 {
        assert(crate::byte_set::word_bit(
            0b0111_1111_1111_1111_1111_1111_1111_1111_1111_1111_1111_1111_1111_1111_1111_1111u64,
            i,
        ) <==> i <= 62) by (bit_vector);
    } else {
        assert(!crate::byte_set::word_bit(0u64, i)) by (bit_vector);
    }
}

/// Why a character-set specification was rejected.
#[derive(Clone, Copy, Debug, PartialEq, Eq, Structural)]
pub enum CharsetError {
    /// The specification text was empty.
    EmptySpecification,
    /// The specification holds a byte outside the typeable universe.
    UntypeableCharacter,
    /// A bare hyphen stood where no range can start or end.
    UnescapedHyphen,
    /// A backslash was followed by a byte other than `-` or `\`.
    InvalidEscape,
    /// The specification ended in the middle of an escape sequence.
    UnterminatedEscape,
    /// The specification ended in the middle of a range.
    UnterminatedRange,
    /// The resolved character set has no members.
    EmptyCharacterSet,
}

/// Parser state: between tokens, after a literal (which may open a range),
/// inside an escape, after `a-`, or inside an escape that ends a range.
#[derive(Clone, Copy)]
pub enum ParseState {
    Start,
    Char(u8),
    Escape,
    Range(u8),
    RangeEscape(u8),
}

/// The bytes a range `a-b` adds: everything above `a` up to and including
/// `b`; empty when `b <= a`. `a` itself was added by the preceding literal.
pub open spec fn range_set(start: u8, end: u8) -> Set<u8> {
    Set::new(|v: u8| start < v && v <= end)
}

/// One step of the parser on an already-typeable byte.
pub open spec fn spec_step(st: ParseState, s: Set<u8>, b: u8) -> Result<
    (ParseState, Set<u8>),
    CharsetError,
> {
    match st {
        ParseState::Start => {
            if b == HYPHEN {
                Err(CharsetError::UnescapedHyphen)
            } else if b == BACKSLASH {
                Ok((ParseState::Escape, s))
            } else {
                Ok((ParseState::Char(b), s.insert(b)))
            }
        },
        ParseState::Char(prev) => {
            if b == HYPHEN {
                Ok((ParseState::Range(prev), s))
            } else if b == BACKSLASH {
                Ok((ParseState::Escape, s))
            } else {
                Ok((ParseState::Char(b), s.insert(b)))
            }
        },
        ParseState::Escape => {
            if b == HYPHEN || b == BACKSLASH {
                Ok((ParseState::Char(b), s.insert(b)))
            } else {
                Err(CharsetError::InvalidEscape)
            }
        },
        ParseState::Range(start) => {
            if b == HYPHEN {
                Err(CharsetError::UnescapedHyphen)
            } else if b == BACKSLASH {
                Ok((ParseState::RangeEscape(start), s))
            } else {
                Ok((ParseState::Start, s.union(range_set(start, b))))
            }
        },
        ParseState::RangeEscape(start) => {
            if b == HYPHEN || b == BACKSLASH {
                Ok((ParseState::Start, s.union(range_set(start, b))))
            } else {
                Err(CharsetError::InvalidEscape)
            }
        },
    }
}

/// Runs the parser over `input`, rejecting any untypeable byte.
pub open spec fn spec_run(st: ParseState, s: Set<u8>, input: Seq<u8>) -> Result<
    (ParseState, Set<u8>),
    CharsetError,
>
    decreases input.len(),
{
    if input.len() == 0 {
        Ok((st, s))
    } else if !typeable(input[0]) {
        Err(CharsetError::UntypeableCharacter)
    } else {
        match spec_step(st, s, input[0]) {
            Ok((st2, s2)) => spec_run(st2, s2, input.drop_first()),
            Err(e) => Err(e),
        }
    }
}

/// What a whole specification resolves to: the set it describes, or the
/// complement within the typeable universe after a leading `^`, or the
/// error that rejects it.
pub open spec fn spec_parse(input: Seq<u8>) -> Result<Set<u8>, CharsetError> {
    if input.len() == 0 {
        Err(CharsetError::EmptySpecification)
    } else {
        let invert = input[0] == CARET;
        let body = if invert {
            input.drop_first()
        } else {
            input
        };
        match spec_run(ParseState::Start, Set::empty(), body) {
            Err(e) => Err(e),
            Ok((st, s)) => match st {
                ParseState::Escape => Err(CharsetError::UnterminatedEscape),
                ParseState::RangeEscape(_) => Err(CharsetError::UnterminatedEscape),
                ParseState::Range(_) => Err(CharsetError::UnterminatedRange),
                _ => {
                    let resolved = if invert {
                        typeable_set().difference(s)
                    } else {
                        s
                    };
                    if resolved == Set::<u8>::empty() {
                        Err(CharsetError::EmptyCharacterSet)
                    } else {
                        Ok(resolved)
                    }
                },
            },
        }
    }
}

/// Inserts the bytes of the range `start-end` into `set`: everything above
/// `start` up to and including `end`.
fn insert_range(set: &mut ByteSet, start: u8, end: u8)
    ensures
        final(set)@ == old(set)@.union(range_set(start, end)),
{
    let mut v: u8 = start;
    proof {
        assert(set@ =~= old(set)@.union(range_set(start, start)));
    }
    while v < end
        invariant
            start <= v,
            v <= end || v == start,
            set@ == old(set)@.union(range_set(start, v)),
        decreases end - v,
    {
        set.insert(v + 1);
        proof {
            assert(set@ =~= old(set)@.union(range_set(start, (v + 1) as u8)));
        }
        v = v + 1;
    }
    proof {
        if end <= start {
            assert(set@ =~= old(set)@.union(range_set(start, end)));
        }
    }
}

/// The default character set: the whole typeable universe, in ascending
/// order.
pub fn default_charset() -> (r: Vec<u8>)
    ensures
        forall|v: u8| r@.contains(v) <==> typeable(v),
        forall|i: int, j: int| 0 <= i < j < r@.len() ==> r@[i] < r@[j],
{
    let set = ByteSet::from_raw_parts(TYPEABLE);
    proof {
        assert forall|v: u8| set@.contains(v) <==> typeable(v) by {
            lemma_typeable_bitmap(v);
        }
    }
    set.to_vec()
}

/// Parses a character-set specification into the bytes of the resolved set,
/// in strictly ascending order, or the error that rejects it; the result
/// matches `spec_parse` on the specification's bytes.
pub fn parse_charset_spec(spec_text: &str) -> (r: Result<Vec<u8>, CharsetError>)
    ensures
        match r {
            Ok(v) => {
                &&& spec_parse(spec_text.spec_bytes()) matches Ok(s) && (forall|b: u8|
                    v@.contains(b) <==> s.contains(b))
                &&& forall|i: int, j: int| 0 <= i < j < v@.len() ==> v@[i] < v@[j]
            },
            Err(e) => spec_parse(spec_text.spec_bytes()) == Err::<Set<u8>, CharsetError>(e),
        },
{
    let bytes = spec_text.as_bytes();
    if bytes.len() == 0 {
        return Err(CharsetError::EmptySpecification);
    }
    let invert = bytes[0] == CARET;
    let mut idx: usize = if invert {
        1
    } else {
        0
    };
    let ghost full = spec_text.spec_bytes();
    let ghost body = if invert {
        full.drop_first()
    } else {
        full
    };
    let mut state = ParseState::Start;
    let mut result = ByteSet::new();
    let typeable_bs = ByteSet::from_raw_parts(TYPEABLE);
    proof {
        assert(full.skip(idx as int) =~= body);
        assert forall|v: u8| typeable_bs@.contains(v) <==> typeable(v) by {
            lemma_typeable_bitmap(v);
        }
    }
    while idx < bytes.len()
        invariant
            bytes@ == full,
            full == spec_text.spec_bytes(),
            idx <= full.len(),
            body == if invert {
                full.drop_first()
            } else {
                full
            },
            full.len() > 0,
            (full[0] == CARET) == invert,
            spec_run(ParseState::Start, Set::empty(), body) == spec_run(
                state,
                result@,
                full.skip(idx as int),
            ),
            forall|v: u8| typeable_bs@.contains(v) <==> typeable(v),
        decreases full.len() - idx,
    {
        let b = bytes[idx];
        let ghost rest = full.skip(idx as int);
        let ghost state0 = state;
        let ghost set0 = result@;
        proof {
            assert(rest[0] == b);
            assert(rest.drop_first() =~= full.skip(idx as int + 1));
        }
        if !typeable_bs.contains(b) {
            proof {
                assert(spec_run(state0, set0, rest) == Err::<
                    (ParseState, Set<u8>),
                    CharsetError,
                >(CharsetError::UntypeableCharacter));
            }
            return Err(CharsetError::UntypeableCharacter);
        }
        match state {
            ParseState::Start => {
                if b == HYPHEN {
                    proof {
                        assert(spec_step(state0, set0, b) == Err::<
                            (ParseState, Set<u8>),
                            CharsetError,
                        >(CharsetError::UnescapedHyphen));
                        assert(spec_run(state0, set0, rest) == Err::<
                            (ParseState, Set<u8>),
                            CharsetError,
                        >(CharsetError::UnescapedHyphen));
                    }
                    return Err(CharsetError::UnescapedHyphen);
                } else if b == BACKSLASH {
                    state = ParseState::Escape;
                } else {
                    result.insert(b);
                    state = ParseState::Char(b);
                }
            },
            ParseState::Char(prev) => {
                if b == HYPHEN {
                    state = ParseState::Range(prev);
                } else if b == BACKSLASH {
                    state = ParseState::Escape;
                } else {
                    result.insert(b);
                    state = ParseState::Char(b);
                }
            },
            ParseState::Escape => {
                if b == HYPHEN || b == BACKSLASH {
                    result.insert(b);
                    state = ParseState::Char(b);
                } else {
                    proof {
                        assert(spec_step(state0, set0, b) == Err::<
                            (ParseState, Set<u8>),
                            CharsetError,
                        >(CharsetError::InvalidEscape));
                        assert(spec_run(state0, set0, rest) == Err::<
                            (ParseState, Set<u8>),
                            CharsetError,
                        >(CharsetError::InvalidEscape));
                    }
                    return Err(CharsetError::InvalidEscape);
                }
            },
            ParseState::Range(start) => {
                if b == HYPHEN {
                    proof {
                        assert(spec_step(state0, set0, b) == Err::<
                            (ParseState, Set<u8>),
                            CharsetError,
                        >(CharsetError::UnescapedHyphen));
                        assert(spec_run(state0, set0, rest) == Err::<
                            (ParseState, Set<u8>),
                            CharsetError,
                        >(CharsetError::UnescapedHyphen));
                    }
                    return Err(CharsetError::UnescapedHyphen);
                } else if b == BACKSLASH {
                    state = ParseState::RangeEscape(start);
                } else {
                    insert_range(&mut result, start, b);
                    state = ParseState::Start;
                }
            },
            ParseState::RangeEscape(start) => {
                if b == HYPHEN || b == BACKSLASH {
                    insert_range(&mut result, start, b);
                    state = ParseState::Start;
                } else {
                    proof {
                        assert(spec_step(state0, set0, b) == Err::<
                            (ParseState, Set<u8>),
                            CharsetError,
                        >(CharsetError::InvalidEscape));
                        assert(spec_run(state0, set0, rest) == Err::<
                            (ParseState, Set<u8>),
                            CharsetError,
                        >(CharsetError::InvalidEscape));
                    }
                    return Err(CharsetError::InvalidEscape);
                }
            },
        }
        proof {
            assert(spec_step(state0, set0, b) == Ok::<(ParseState, Set<u8>), CharsetError>(
                (state, result@),
            ));
            assert(spec_run(state0, set0, rest) == spec_run(state, result@, rest.drop_first()));
        }
        idx = idx + 1;
    }
    proof {
        assert(full.skip(idx as int) =~= Seq::<u8>::empty());
    }
    match state {
        ParseState::Escape => Err(CharsetError::UnterminatedEscape),
        ParseState::RangeEscape(_) => Err(CharsetError::UnterminatedEscape),
        ParseState::Range(_) => Err(CharsetError::UnterminatedRange),
        _ => {
            if invert {
                let tmp = result;
                result = ByteSet::from_raw_parts(TYPEABLE);
                proof {
                    assert forall|v: u8| result@.contains(v) <==> typeable(v) by {
                        lemma_typeable_bitmap(v);
                    }
                    assert(result@ =~= typeable_set());
                }
                result.difference(&tmp);
            }
            if result.is_empty() {
                Err(CharsetError::EmptyCharacterSet)
            } else {
                Ok(result.to_vec())
            }
        },
    }
}

} // verus!

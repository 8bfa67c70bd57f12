//! The textual coordinate-list import format.
//!
//! One record per line, two decimal integers separated by a single space:
//! the coordinates of one live cell. A line may end in a carriage return
//! before its newline. Any line of another shape is a fatal parse error:
//! the import fails as a whole, no partial board is produced.

use vstd::prelude::*;
use vstd::string::StringSliceAdditionalSpecFns;

use crate::board::Board;
use crate::cell::Cell;

verus! {

/// An ASCII decimal digit.
pub open spec fn is_ascii_digit(b: u8) -> bool {
    48 <= b <= 57
}

/// Every byte of the sequence is a decimal digit.
pub open spec fn all_digits(s: Seq<u8>) -> bool {
    forall|i: int| 0 <= i < s.len() ==> is_ascii_digit(s[i])
}

/// The number denoted by a sequence of decimal digits, most significant
/// first.
pub open spec fn digits_val(s: Seq<u8>) -> int
    decreases s.len(),
{
    if s.len() == 0 {
        0
    } else {
        digits_val(s.drop_last()) * 10 + (s.last() - 48)
    }
}

/// A decimal integer token as `i64` text: an optional sign, then at least
/// one digit, denoting a value the 64-bit range can hold.
pub open spec fn valid_int_token(s: Seq<u8>) -> bool {
    if s.len() > 0 && (s[0] == 43 || s[0] == 45) {
        let d = s.skip(1);
        &&& d.len() > 0
        &&& all_digits(d)
        &&& (if s[0] == 45 {
            digits_val(d) <= i64::MAX + 1
        } else {
            digits_val(d) <= i64::MAX
        })
    } else {
        s.len() > 0 && all_digits(s) && digits_val(s) <= i64::MAX
    }
}

/// The value a valid integer token denotes.
pub open spec fn int_token_val(s: Seq<u8>) -> int {
    if s.len() > 0 && s[0] == 45 {
        -digits_val(s.skip(1))
    } else if s.len() > 0 && s[0] == 43 {
        digits_val(s.skip(1))
    } else {
        digits_val(s)
    }
}

/// The index of the first occurrence of `b` in `s`, or `-1` when absent.
pub open spec fn find_byte(s: Seq<u8>, b: u8) -> int
    decreases s.len(),
{
    if s.len() == 0 {
        -1
    } else if s[0] == b {
        0
    } else {
        let r = find_byte(s.skip(1), b);
        if r < 0 {
            -1
        } else {
            r + 1
        }
    }
}

/// What `find_byte` returns: `-1` exactly when `b` does not occur, else
/// the position of the first occurrence.
pub proof fn lemma_find_byte(s: Seq<u8>, b: u8)
    ensures
        find_byte(s, b) == -1 ==> forall|i: int| 0 <= i < s.len() ==> s[i] != b,
        find_byte(s, b) != -1 ==> {
            let f = find_byte(s, b);
            &&& 0 <= f < s.len()
            &&& s[f] == b
            &&& forall|i: int| 0 <= i < f ==> s[i] != b
        },
    decreases s.len(),
{
    if s.len() == 0 {
    } else if s[0] == b {
    } else {
        let t = s.skip(1);
        lemma_find_byte(t, b);
        assert(forall|i: int| 0 <= i < t.len() ==> t[i] == s[i + 1]);
        if find_byte(t, b) == -1 {
            assert forall|i: int| 0 <= i < s.len() implies s[i] != b by {
                if i > 0 {
                    assert(t[i - 1] == s[i]);
                }
            }
        } else {
            let f = find_byte(t, b) + 1;
            assert(s[f] == t[f - 1]);
            assert forall|i: int| 0 <= i < f implies s[i] != b by {
                if i > 0 {
                    assert(t[i - 1] == s[i]);
                }
            }
        }
    }
}

/// A line with a trailing carriage return stripped.
pub open spec fn canon_line(s: Seq<u8>) -> Seq<u8> {
    if s.len() > 0 && s.last() == 13 {
        s.drop_last()
    } else {
        s
    }
}

/// A well-formed record: a first space splitting it into two integer
/// tokens.
pub open spec fn valid_line(s: Seq<u8>) -> bool {
    let t = canon_line(s);
    let f = find_byte(t, 32);
    &&& f >= 0
    &&& valid_int_token(t.take(f))
    &&& valid_int_token(t.skip(f + 1))
}

/// The coordinate pair a well-formed record denotes.
pub open spec fn line_cell(s: Seq<u8>) -> (int, int) {
    let t = canon_line(s);
    let f = find_byte(t, 32);
    (int_token_val(t.take(f)), int_token_val(t.skip(f + 1)))
}

/// The live set denoted by a whole text, or `None` when any line is
/// malformed. Lines are separated by newlines; a final newline ends the
/// last record rather than opening an empty one.
pub open spec fn spec_parse(s: Seq<u8>) -> Option<Set<(int, int)>>
    decreases s.len(),
{
    if s.len() == 0 {
        Some(Set::empty())
    } else {
        let nl = find_byte(s, 10);
        if 0 <= nl < s.len() {
            if valid_line(s.take(nl)) {
                match spec_parse(s.skip(nl + 1)) {
                    Some(m) => Some(m.insert(line_cell(s.take(nl)))),
                    None => None,
                }
            } else {
                None
            }
        } else {
            if valid_line(s) {
                Some(Set::empty().insert(line_cell(s)))
            } else {
                None
            }
        }
    }
}

/// The one fatal import error: a record that is not two integers split by
/// a single space.
#[derive(PartialEq, Eq, Structural, Clone, Copy, Debug)]
pub enum ParseError {
    Malformed,
}

/// Digit strings denote nonnegative numbers.
proof fn lemma_digits_val_nonneg(s: Seq<u8>)
    requires
        all_digits(s),
    ensures
        digits_val(s) >= 0,
    decreases s.len(),
{
    if s.len() > 0 {
        lemma_digits_val_nonneg(s.drop_last());
    }
}

/// A prefix of a digit string denotes no more than the whole string.
proof fn lemma_digits_val_prefix_mono(s: Seq<u8>, k: int)
    requires
        all_digits(s),
        0 <= k <= s.len(),
    ensures
        digits_val(s.take(k)) <= digits_val(s),
    decreases s.len() - k,
{
    if k == s.len() {
        assert(s.take(k) =~= s);
    } else {
        assert(s.take(k + 1).drop_last() =~= s.take(k));
        assert(s.take(k + 1).last() == s[k]);
        lemma_digits_val_nonneg(s.take(k));
        lemma_digits_val_prefix_mono(s, k + 1);
    }
}

/// Parses the decimal integer token held in `bytes[start..end)`.
#[verifier::loop_isolation(false)]
fn parse_int(bytes: &[u8], start: usize, end: usize) -> (r: Option<i64>)
    requires
        start <= end <= bytes@.len(),
    ensures
        ({
            let tok = bytes@.subrange(start as int, end as int);
            match r {
                Some(v) => valid_int_token(tok) && v as int == int_token_val(tok),
                None => !valid_int_token(tok),
            }
        }),
{
    let ghost tok = bytes@.subrange(start as int, end as int);
    if start == end {
        return None;
    }
    let first = bytes[start];
    let neg = first == 45;
    let mut i = start;
    if first == 45 || first == 43 {
        i = start + 1;
    }
    if i == end {
        proof {
            assert(tok.skip(1).len() == 0);
        }
        return None;
    }
    let ghost digits = bytes@.subrange(i as int, end as int);
    proof {
        if i > start {
            assert(tok.skip(1) =~= digits);
        } else {
            assert(tok =~= digits);
        }
    }
    let limit: u64 = if neg {
        9223372036854775808
    } else {
        9223372036854775807
    };
    let mut mag: u64 = 0;
    let mut j = i;
    while j < end
        invariant
            start <= i <= j <= end <= bytes@.len(),
            digits == bytes@.subrange(i as int, end as int),
            all_digits(digits.take(j - i)),
            mag as int == digits_val(digits.take(j - i)),
            mag <= limit,
            limit == 9223372036854775808 || limit == 9223372036854775807,
        decreases end - j,
    {
        let b = bytes[j];
        proof {
            assert(digits[j - i] == bytes@[j as int]);
        }
        if b < 48 || b > 57 {
            proof {
                assert(digits[j - i] == b);
                assert(!is_ascii_digit(digits[j - i]));
                assert(!all_digits(digits));
                assert(tok[0] == bytes@[start as int]);
                if tok[0] == 43 || tok[0] == 45 {
                    assert(tok.skip(1) == digits);
                } else {
                    assert(tok == digits);
                }
                assert(!valid_int_token(tok));
            }
            return None;
        }
        let d = (b - 48) as u64;
        let wide: u128 = mag as u128 * 10 + d as u128;
        proof {
            assert(digits.take(j - i + 1).drop_last() =~= digits.take(j - i));
            assert(digits.take(j - i + 1).last() == digits[j - i]);
            assert(digits_val(digits.take(j - i + 1)) == mag * 10 + d);
        }
        if wide > limit as u128 {
            proof {
                assert(digits_val(digits.take(j - i + 1)) > limit);
                if all_digits(digits) {
                    lemma_digits_val_prefix_mono(digits, j - i + 1);
                    assert(digits_val(digits) > limit);
                }
                assert(tok[0] == bytes@[start as int]);
                if tok[0] == 43 || tok[0] == 45 {
                    assert(tok.skip(1) == digits);
                } else {
                    assert(tok == digits);
                }
                assert(!valid_int_token(tok));
            }
            return None;
        }
        mag = wide as u64;
        j += 1;
    }
    proof {
        assert(digits.take(end - i) =~= digits);
        assert(valid_int_token(tok));
    }
    if neg {
        if mag == 9223372036854775808 {
            Some(i64::MIN)
        } else {
            Some(-(mag as i64))
        }
    } else {
        Some(mag as i64)
    }
}

/// Parses one record held in `bytes[start..end)`, the line separator
/// excluded.
#[verifier::loop_isolation(false)]
fn parse_line(bytes: &[u8], start: usize, end: usize) -> (r: Option<(i64, i64)>)
    requires
        start <= end <= bytes@.len(),
    ensures
        ({
            let line = bytes@.subrange(start as int, end as int);
            match r {
                Some(v) => valid_line(line) && line_cell(line) == (v.0 as int, v.1 as int),
                None => !valid_line(line),
            }
        }),
{
    let ghost line = bytes@.subrange(start as int, end as int);
    let mut e = end;
    if e > start && bytes[e - 1] == 13 {
        e = e - 1;
    }
    let ghost t = bytes@.subrange(start as int, e as int);
    proof {
        if e < end {
            assert(line.last() == 13);
            assert(canon_line(line) =~= t);
        } else {
            assert(canon_line(line) =~= t);
        }
        lemma_find_byte(t, 32);
    }
    let mut sp = start;
    while sp < e && bytes[sp] != 32
        invariant
            start <= sp <= e <= bytes@.len(),
            t == bytes@.subrange(start as int, e as int),
            forall|k: int| 0 <= k < sp - start ==> t[k] != 32,
        decreases e - sp,
    {
        proof {
            assert(t[sp - start] == bytes@[sp as int]);
        }
        sp += 1;
    }
    if sp == e {
        proof {
            assert(find_byte(t, 32) == -1) by {
                if find_byte(t, 32) != -1 {
                    assert(t[find_byte(t, 32)] == 32);
                }
            }
            assert(!valid_line(line));
        }
        return None;
    }
    proof {
        assert(t[sp - start] == bytes@[sp as int]);
        assert(t[sp - start] == 32);
        let f = find_byte(t, 32);
        assert(f != -1) by {
            if f == -1 {
                assert(t[sp - start] != 32);
            }
        }
        assert(f == sp - start) by {
            if f < sp - start {
                assert(t[f] != 32);
            }
            if f > sp - start {
                assert(t[sp - start] != 32);
            }
        }
        assert(t.take(sp - start) =~= bytes@.subrange(start as int, sp as int));
        assert(t.skip(sp - start + 1) =~= bytes@.subrange(sp as int + 1, e as int));
    }
    let a = parse_int(bytes, start, sp);
    let b = parse_int(bytes, sp + 1, e);
    match (a, b) {
        (Some(x), Some(y)) => Some((x, y)),
        _ => None,
    }
}

impl Board {
    /// Builds a board from a newline-separated list of `x y` records.
    ///
    /// Succeeds exactly when every line of `data` is such a record, and
    /// then the live set is exactly the set of listed coordinates. The
    /// first malformed line aborts the import: no partial board comes back.
    #[verifier::loop_isolation(false)]
    pub fn from_string(data: &str) -> (r: Result<Board, ParseError>)
        ensures
            match r {
                Ok(b) => spec_parse(data.spec_bytes()) == Some(b@),
                Err(_) => spec_parse(data.spec_bytes()) is None,
            },
    {
        let bytes = data.as_bytes();
        let ghost s0 = bytes@;
        let n = bytes.len();
        let mut board = Board::default();
        let mut start: usize = 0;
        proof {
            assert(s0.skip(0) =~= s0);
        }
        while start < n
            invariant
                start <= n,
                n == bytes@.len(),
                bytes@ == s0,
                spec_parse(s0) is Some <==> spec_parse(s0.skip(start as int)) is Some,
                spec_parse(s0) is Some ==> spec_parse(s0) == Some(
                    board@ + spec_parse(s0.skip(start as int)).unwrap(),
                ),
            decreases n - start,
        {
            let ghost suffix = s0.skip(start as int);
            let mut end = start;
            while end < n && bytes[end] != 10
                invariant
                    start <= end <= n,
                    n == bytes@.len(),
                    bytes@ == s0,
                    forall|k: int| 0 <= k < end - start ==> s0.skip(start as int)[k] != 10,
                decreases n - end,
            {
                proof {
                    assert(s0.skip(start as int)[end - start] == s0[end as int]);
                }
                end += 1;
            }
            proof {
                lemma_find_byte(suffix, 10);
                if end < n {
                    assert(suffix[end - start] == s0[end as int]);
                    assert(suffix[end - start] == 10);
                    let f = find_byte(suffix, 10);
                    assert(f != -1) by {
                        if f == -1 {
                            assert(suffix[end - start] != 10);
                        }
                    }
                    assert(f == end - start) by {
                        if f < end - start {
                            assert(suffix[f] != 10);
                        }
                        if f > end - start {
                            assert(suffix[end - start] != 10);
                        }
                    }
                    assert(suffix.take(end - start) =~= s0.subrange(
                        start as int,
                        end as int,
                    ));
                    assert(suffix.skip(end - start + 1) =~= s0.skip(end as int + 1));
                } else {
                    assert(find_byte(suffix, 10) == -1) by {
                        if find_byte(suffix, 10) != -1 {
                            assert(suffix[find_byte(suffix, 10)] == 10);
                        }
                    }
                    assert(suffix =~= s0.subrange(start as int, end as int));
                }
            }
            let line_r = parse_line(bytes, start, end);
            match line_r {
                None => {
                    proof {
                        assert(spec_parse(suffix) is None);
                    }
                    return Err(ParseError::Malformed);
                },
                Some(xy) => {
                    let ghost before = board@;
                    board.insert(Cell::new(xy.0, xy.1));
                    proof {
                        assert(board@ == before.insert((xy.0 as int, xy.1 as int)));
                    }
                    if end == n {
                        start = n;
                        proof {
                            assert(s0.skip(n as int) =~= Seq::<u8>::empty());
                            assert(spec_parse(suffix) == Some(
                                Set::empty().insert(line_cell(suffix)),
                            ));
                            assert(spec_parse(s0) is Some ==> spec_parse(s0) == Some(
                                board@ + spec_parse(s0.skip(start as int)).unwrap(),
                            )) by {
                                if spec_parse(s0) is Some {
                                    assert(board@ + spec_parse(
                                        s0.skip(start as int),
                                    ).unwrap() =~= before + spec_parse(suffix).unwrap());
                                }
                            }
                        }
                    } else {
                        start = end + 1;
                        proof {
                            let rest = s0.skip(start as int);
                            assert(spec_parse(suffix) is Some <==> spec_parse(
                                rest,
                            ) is Some);
                            assert(spec_parse(s0) is Some ==> spec_parse(s0) == Some(
                                board@ + spec_parse(rest).unwrap(),
                            )) by {
                                if spec_parse(s0) is Some {
                                    assert(spec_parse(suffix) == Some(
                                        spec_parse(rest).unwrap().insert(
                                            (xy.0 as int, xy.1 as int),
                                        ),
                                    ));
                                    assert(board@ + spec_parse(rest).unwrap() =~= before
                                        + spec_parse(suffix).unwrap());
                                }
                            }
                        }
                    }
                },
            }
        }
        proof {
            assert(s0.skip(n as int) =~= Seq::<u8>::empty());
            assert(spec_parse(s0) is Some);
            assert(board@ + spec_parse(s0.skip(n as int)).unwrap() =~= board@);
        }
        Ok(board)
    }
}

} // verus!

use vstd::prelude::*;

mod machine;
mod memory;
mod op;
mod status;

pub use machine::IntCodeMachine;
pub use machine::MState;
pub use machine::RunOutcome;
pub use memory::MemModel;
pub use memory::Memory;
pub use op::deconstruct_opcode;
pub use op::Op;
pub use op::Operand;
pub use op::ParamMode;
pub use status::ErrorStatus;
pub use status::ExecutionStatus;

verus! {

use vstd::string::StringSliceAdditionalSpecFns;

/// The cell type of the machine: every memory cell, input and output value is
/// one signed machine-word integer.
pub type Num = isize;

/// The caller-visible failure of program-text parsing, deliberately distinct
/// from the engine's own error kinds.
#[derive(Debug, Clone, PartialEq)]
pub enum ParseIntcodeError {
    /// Some comma-separated token is not a signed decimal integer that fits
    /// in a machine word.
    InvalidToken,
}

/// ASCII whitespace, as trimmed from the ends of program text.
pub open spec fn is_space(b: u8) -> bool {
    b == 32 || (9 <= b <= 13)
}

pub open spec fn trim_start(s: Seq<u8>) -> Seq<u8>
    decreases s.len(),
{
    if s.len() > 0 && is_space(s[0]) {
        trim_start(s.drop_first())
    } else {
        s
    }
}

pub open spec fn trim_end(s: Seq<u8>) -> Seq<u8>
    decreases s.len(),
{
    if s.len() > 0 && is_space(s.last()) {
        trim_end(s.drop_last())
    } else {
        s
    }
}

pub open spec fn is_digit(b: u8) -> bool {
    48 <= b <= 57
}

pub open spec fn all_digits(s: Seq<u8>) -> bool {
    forall|i: int| 0 <= i < s.len() ==> is_digit(#[trigger] s[i])
}

/// The value of a string of decimal digits, most significant first.
pub open spec fn digits_value(s: Seq<u8>) -> int
    decreases s.len(),
{
    if s.len() == 0 {
        0
    } else {
        digits_value(s.drop_last()) * 10 + (s.last() - 48)
    }
}

/// The value of an optionally signed digit string, if it is one and fits in a
/// machine word.
pub open spec fn signed_value(neg: bool, ds: Seq<u8>) -> Option<Num> {
    if ds.len() >= 1 && all_digits(ds) {
        let v = if neg {
            -digits_value(ds)
        } else {
            digits_value(ds)
        };
        if isize::MIN <= v <= isize::MAX {
            Some(v as Num)
        } else {
            None
        }
    } else {
        None
    }
}

/// The value of one token: an optional sign followed by at least one digit.
pub open spec fn token_value(t: Seq<u8>) -> Option<Num> {
    if t.len() > 0 && (t[0] == 43 || t[0] == 45) {
        signed_value(t[0] == 45, t.drop_first())
    } else {
        signed_value(false, t)
    }
}

/// The index of the first comma, or the length when there is none.
pub open spec fn first_comma(s: Seq<u8>) -> int
    decreases s.len(),
{
    if s.len() == 0 {
        0
    } else if s[0] == 44 {
        0
    } else {
        1 + first_comma(s.drop_first())
    }
}

proof fn lemma_first_comma_spec(s: Seq<u8>)
    ensures
        0 <= first_comma(s) <= s.len(),
        forall|j: int| 0 <= j < first_comma(s) ==> s[j] != 44,
        first_comma(s) < s.len() ==> s[first_comma(s)] == 44,
    decreases s.len(),
{
    if s.len() > 0 && s[0] != 44 {
        lemma_first_comma_spec(s.drop_first());
        assert forall|j: int| 0 <= j < first_comma(s) implies s[j] != 44 by {
            if j > 0 {
                assert(s.drop_first()[j - 1] == s[j]);
            }
        }
        if first_comma(s) < s.len() {
            assert(s.drop_first()[first_comma(s) - 1] == s[first_comma(s)]);
        }
    }
}

/// What a comma-separated list of tokens parses to: every token must be
/// valid, and a list with no text at all (or around a stray comma) has an
/// empty, hence invalid, token.
pub open spec fn parse_tokens(s: Seq<u8>) -> Option<Seq<Num>>
    decreases s.len(),
    via parse_tokens_dec
{
    let i = first_comma(s);
    if i >= s.len() {
        match token_value(s) {
            Some(v) => Some(seq![v]),
            None => None,
        }
    } else {
        match token_value(s.take(i)) {
            Some(v) => match parse_tokens(s.skip(i + 1)) {
                Some(rest) => Some(seq![v] + rest),
                None => None,
            },
            None => None,
        }
    }
}

#[via_fn]
proof fn parse_tokens_dec(s: Seq<u8>) {
    lemma_first_comma_spec(s);
}

/// What parsing whole program text yields: the text is trimmed of whitespace
/// at both ends, then read as comma-separated signed decimal integers.
pub open spec fn spec_parse_intcode(s: Seq<u8>) -> Option<Seq<Num>> {
    parse_tokens(trim_end(trim_start(s)))
}

proof fn lemma_trim_start_exact(s: Seq<u8>, lo: int)
    requires
        0 <= lo <= s.len(),
        forall|k: int| 0 <= k < lo ==> is_space(#[trigger] s[k]),
        lo < s.len() ==> !is_space(s[lo]),
    ensures
        trim_start(s) == s.subrange(lo, s.len() as int),
    decreases lo,
{
    if lo == 0 {
        assert(s.subrange(0, s.len() as int) =~= s);
    } else {
        lemma_trim_start_exact(s.drop_first(), lo - 1);
        assert(s.drop_first().subrange(lo - 1, s.drop_first().len() as int) =~= s.subrange(
            lo,
            s.len() as int,
        ));
    }
}

proof fn lemma_trim_end_exact(s: Seq<u8>, hi: int)
    requires
        0 <= hi <= s.len(),
        forall|k: int| hi <= k < s.len() ==> is_space(#[trigger] s[k]),
        hi > 0 ==> !is_space(s[hi - 1]),
    ensures
        trim_end(s) == s.subrange(0, hi),
    decreases s.len(),
{
    if hi == s.len() {
        assert(s.subrange(0, hi) =~= s);
    } else {
        lemma_trim_end_exact(s.drop_last(), hi);
        assert(s.drop_last().subrange(0, hi) =~= s.subrange(0, hi));
    }
}

proof fn lemma_digits_nonneg(s: Seq<u8>)
    requires
        all_digits(s),
    ensures
        digits_value(s) >= 0,
    decreases s.len(),
{
    if s.len() > 0 {
        assert forall|i: int| 0 <= i < s.drop_last().len() implies is_digit(
            #[trigger] s.drop_last()[i],
        ) by {
            assert(s.drop_last()[i] == s[i]);
        }
        lemma_digits_nonneg(s.drop_last());
    }
}

/// A digit string is worth at least any of its prefixes: appending digits
/// never shrinks the value.
proof fn lemma_digits_prefix_le(s: Seq<u8>, k: int)
    requires
        all_digits(s),
        0 <= k <= s.len(),
    ensures
        0 <= digits_value(s.take(k)) <= digits_value(s),
    decreases s.len() - k,
{
    assert forall|i: int| 0 <= i < s.take(k).len() implies is_digit(#[trigger] s.take(k)[i]) by {
        assert(s.take(k)[i] == s[i]);
    }
    lemma_digits_nonneg(s.take(k));
    if k == s.len() {
        assert(s.take(k) =~= s);
    } else {
        assert(s.take(k + 1).drop_last() =~= s.take(k));
        assert(s.take(k + 1).last() == s[k]);
        lemma_digits_prefix_le(s, k + 1);
    }
}

fn is_space_byte(b: u8) -> (r: bool)
    ensures
        r == is_space(b),
{
    b == 32 || (9 <= b && b <= 13)
}

/// Parses one token, the byte range `[from, to)`: an optional sign, then at
/// least one decimal digit, with overflow of the machine word detected and
/// rejected rather than wrapped.
#[verifier::loop_isolation(false)]
fn parse_token(bytes: &[u8], from: usize, to: usize) -> (r: Result<Num, ParseIntcodeError>)
    requires
        from <= to <= bytes@.len(),
    ensures
        r is Ok ==> token_value(bytes@.subrange(from as int, to as int)) == Some(r->Ok_0),
        r is Err ==> token_value(bytes@.subrange(from as int, to as int)) is None,
{
    let ghost t = bytes@.subrange(from as int, to as int);
    let mut i = from;
    let mut neg = false;
    if i < to && (bytes[i] == 43 || bytes[i] == 45) {
        neg = bytes[i] == 45;
        i = i + 1;
    }
    let ghost dstart = i as int;
    let ghost ds = bytes@.subrange(dstart, to as int);
    proof {
        if t.len() > 0 && (t[0] == 43 || t[0] == 45) {
            assert(ds =~= t.drop_first());
        } else {
            assert(ds =~= t);
        }
        assert(token_value(t) == signed_value(neg, ds));
    }
    if i == to {
        return Err(ParseIntcodeError::InvalidToken);
    }
    let mut value: Num = 0;
    while i < to
        invariant
            from as int <= dstart <= i as int <= to as int <= bytes@.len(),
            ds == bytes@.subrange(dstart, to as int),
            token_value(t) == signed_value(neg, ds),
            all_digits(ds.take(i - dstart)),
            value as int == (if neg {
                -digits_value(ds.take(i - dstart))
            } else {
                digits_value(ds.take(i - dstart))
            }),
            neg ==> value <= 0,
            !neg ==> value >= 0,
        decreases to - i,
    {
        let b = bytes[i];
        proof {
            assert(ds[i - dstart] == bytes@[i as int]);
        }
        if !(48 <= b && b <= 57) {
            proof {
                assert(!is_digit(ds[i - dstart]));
                assert(!all_digits(ds));
            }
            return Err(ParseIntcodeError::InvalidToken);
        }
        let d = (b - 48) as Num;
        let ghost prefix = ds.take(i - dstart);
        let ghost prefix2 = ds.take(i + 1 - dstart);
        proof {
            assert(prefix2.drop_last() =~= prefix);
            assert(prefix2.last() == ds[i - dstart]);
            assert(digits_value(prefix2) == digits_value(prefix) * 10 + (b - 48));
            assert forall|q: int| 0 <= q < prefix2.len() implies is_digit(
                #[trigger] prefix2[q],
            ) by {
                assert(prefix2[q] == ds[q]);
            }
        }
        let v10 = match value.checked_mul(10) {
            Some(v) => v,
            None => {
                proof {
                    if all_digits(ds) {
                        lemma_digits_prefix_le(ds, i + 1 - dstart);
                    }
                }
                return Err(ParseIntcodeError::InvalidToken);
            },
        };
        let v2 = if neg {
            match v10.checked_sub(d) {
                Some(v) => v,
                None => {
                    proof {
                        if all_digits(ds) {
                            lemma_digits_prefix_le(ds, i + 1 - dstart);
                        }
                    }
                    return Err(ParseIntcodeError::InvalidToken);
                },
            }
        } else {
            match v10.checked_add(d) {
                Some(v) => v,
                None => {
                    proof {
                        if all_digits(ds) {
                            lemma_digits_prefix_le(ds, i + 1 - dstart);
                        }
                    }
                    return Err(ParseIntcodeError::InvalidToken);
                },
            }
        };
        value = v2;
        i = i + 1;
    }
    proof {
        assert(ds.take(to as int - dstart) =~= ds);
    }
    Ok(value)
}

proof fn lemma_first_comma_at(s: Seq<u8>, i: int)
    requires
        0 <= i <= s.len(),
        forall|k: int| 0 <= k < i ==> (#[trigger] s[k]) != 44,
        i < s.len() ==> s[i] == 44,
    ensures
        first_comma(s) == i,
    decreases i,
{
    if i > 0 {
        assert forall|k: int| 0 <= k < i - 1 implies (#[trigger] s.drop_first()[k]) != 44 by {
            assert(s.drop_first()[k] == s[k + 1]);
        }
        if i - 1 < s.drop_first().len() {
            assert(s.drop_first()[i - 1] == s[i]);
        }
        lemma_first_comma_at(s.drop_first(), i - 1);
    }
}

/// Parses program text: comma-separated signed decimal integers, whitespace
/// trimmed from both ends. Any malformed, empty or overflowing token is a
/// parse error, reported rather than panicking.
#[verifier::loop_isolation(false)]
pub fn parse_intcode(s: &str) -> (r: Result<Vec<Num>, ParseIntcodeError>)
    ensures
        match r {
            Ok(v) => spec_parse_intcode(s.spec_bytes()) == Some(v@),
            Err(_) => spec_parse_intcode(s.spec_bytes()) is None,
        },
{
    let bytes = s.as_bytes();
    let n = bytes.len();
    let mut lo: usize = 0;
    while lo < n && is_space_byte(bytes[lo])
        invariant
            lo <= n,
            forall|k: int| 0 <= k < lo ==> is_space(#[trigger] bytes@[k]),
        decreases n - lo,
    {
        lo = lo + 1;
    }
    let mut hi: usize = n;
    while hi > lo && is_space_byte(bytes[hi - 1])
        invariant
            lo <= hi <= n,
            forall|k: int| hi <= k < n ==> is_space(#[trigger] bytes@[k]),
        decreases hi,
    {
        hi = hi - 1;
    }
    let ghost trimmed = bytes@.subrange(lo as int, hi as int);
    proof {
        lemma_trim_start_exact(bytes@, lo as int);
        let tail = bytes@.subrange(lo as int, n as int);
        assert forall|k: int| (hi - lo) <= k < tail.len() implies is_space(#[trigger] tail[k]) by {
            assert(tail[k] == bytes@[k + lo]);
        }
        if hi > lo {
            assert(tail[(hi - lo) - 1] == bytes@[hi - 1]);
        }
        lemma_trim_end_exact(tail, (hi - lo) as int);
        assert(tail.subrange(0, (hi - lo) as int) =~= trimmed);
        assert(spec_parse_intcode(s.spec_bytes()) == parse_tokens(trimmed));
    }
    let mut out: Vec<Num> = Vec::new();
    let mut start = lo;
    loop
        invariant
            lo <= start <= hi,
            match parse_tokens(bytes@.subrange(start as int, hi as int)) {
                Some(rest) => parse_tokens(trimmed) == Some(out@ + rest),
                None => parse_tokens(trimmed) is None,
            },
        decreases hi - start,
    {
        let ghost piece = bytes@.subrange(start as int, hi as int);
        let mut c = start;
        while c < hi && bytes[c] != 44
            invariant
                start <= c <= hi,
                forall|k: int| start <= k < c ==> (#[trigger] bytes@[k]) != 44,
            decreases hi - c,
        {
            c = c + 1;
        }
        proof {
            assert forall|k: int| 0 <= k < c - start implies (#[trigger] piece[k]) != 44 by {
                assert(piece[k] == bytes@[k + start]);
            }
            if c < hi {
                assert(piece[c - start] == bytes@[c as int]);
            }
            lemma_first_comma_at(piece, c - start);
            assert(piece.take(c - start) =~= bytes@.subrange(start as int, c as int));
        }
        let v = match parse_token(bytes, start, c) {
            Ok(v) => v,
            Err(e) => {
                proof {
                    if c == hi {
                        assert(piece =~= bytes@.subrange(start as int, c as int));
                    }
                    assert(parse_tokens(piece) is None);
                }
                return Err(e);
            },
        };
        let ghost out_pre = out@;
        out.push(v);
        if c == hi {
            proof {
                assert(piece =~= bytes@.subrange(start as int, c as int));
                assert(parse_tokens(piece) == Some(seq![v]));
                assert(out_pre + seq![v] =~= out@);
            }
            return Ok(out);
        }
        proof {
            assert(piece.skip(c - start + 1) =~= bytes@.subrange((c + 1) as int, hi as int));
            match parse_tokens(bytes@.subrange((c + 1) as int, hi as int)) {
                Some(rest) => {
                    assert(parse_tokens(piece) == Some(seq![v] + rest));
                    assert(out_pre + (seq![v] + rest) =~= out@ + rest);
                },
                None => {
                    assert(parse_tokens(piece) is None);
                },
            }
        }
        start = c + 1;
    }
}

/// Maps a comparison outcome to the integer the machine stores for it.
pub(crate) fn to_num(b: bool) -> (r: Num)
    ensures
        r == (if b {
            1isize
        } else {
            0isize
        }),
{
    match b {
        true => 1,
        false => 0,
    }
}

} // verus!

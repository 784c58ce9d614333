//! Loading the symbol pool from the line-oriented input text.
//!
//! The first line gives a decimal target length `n`; the remaining lines,
//! concatenated character by character with the line breaks dropped, give
//! the initial pool, which is truncated or right-padded with the filler
//! symbol to length exactly `n`.

use crate::CoreError;
use vstd::prelude::*;
use vstd::string::*;

verus! {

/// The sentinel symbol the pool is padded with: the largest character, so
/// that it sorts after every real symbol, fillers cluster at the end of
/// the sorted pool, and the duplicate-skip rule treats them as mutual
/// duplicates.
pub const FILLER: char = '\u{10FFFF}';

/// The filler sorts after every character a pool can hold, so padded
/// positions cluster at the end of the sorted pool.
pub proof fn lemma_filler_sorts_last(c: char)
    ensures
        (c as u32) <= (FILLER as u32),
{
    vstd::utf8::char_is_scalar(c);
}

/// The number of characters of `s` before its first line feed.
pub open spec fn line_end(s: Seq<char>) -> int
    decreases s.len(),
{
    if s.len() == 0 {
        0
    } else if s[0] == '\n' {
        0
    } else {
        1 + line_end(s.drop_first())
    }
}

/// The first line of `s`, without its terminator (`\n` or `\r\n`).
pub open spec fn first_line(s: Seq<char>) -> Seq<char> {
    let e = line_end(s);
    if 0 < e < s.len() && s[e - 1] == '\r' {
        s.subrange(0, e - 1)
    } else {
        s.subrange(0, e)
    }
}

/// What follows the first line of `s`.
pub open spec fn rest_after_line(s: Seq<char>) -> Seq<char> {
    let e = line_end(s);
    if e < s.len() {
        s.subrange(e + 1, s.len() as int)
    } else {
        Seq::empty()
    }
}

pub open spec fn is_digit(c: char) -> bool {
    ('0' as u32) <= (c as u32) && (c as u32) <= ('9' as u32)
}

pub open spec fn digit_val(c: char) -> int {
    (c as u32) - ('0' as u32)
}

pub open spec fn all_digits(s: Seq<char>) -> bool {
    forall|k: int| 0 <= k < s.len() ==> is_digit(#[trigger] s[k])
}

/// The value of a string of decimal digits, most significant first.
pub open spec fn dec_val(s: Seq<char>) -> int
    decreases s.len(),
{
    if s.len() == 0 {
        0
    } else {
        10 * dec_val(s.drop_last()) + digit_val(s.last())
    }
}

/// A first line that declares a usable target length: non-empty, all
/// decimal digits, and a value that fits the machine.
pub open spec fn valid_count_line(l: Seq<char>) -> bool {
    l.len() > 0 && all_digits(l) && dec_val(l) <= usize::MAX
}

/// The pool the remaining lines spell: their characters in order, with
/// every line feed and every carriage return before a line feed dropped.
pub open spec fn pool_of(r: Seq<char>) -> Seq<char>
    decreases r.len(),
{
    if r.len() == 0 {
        Seq::empty()
    } else if r[0] == '\n' || (r[0] == '\r' && r.len() >= 2 && r[1] == '\n') {
        pool_of(r.drop_first())
    } else {
        seq![r[0]] + pool_of(r.drop_first())
    }
}

/// The pool brought to length exactly `n`: truncated, or right-padded with
/// the filler symbol.
pub open spec fn padded(pool: Seq<char>, n: int) -> Seq<char> {
    if n < 0 {
        Seq::empty()
    } else if pool.len() >= n {
        pool.subrange(0, n)
    } else {
        pool + Seq::new((n - pool.len()) as nat, |k: int| FILLER)
    }
}

/// The sequence the whole input text loads.
pub open spec fn loaded_pool(s: Seq<char>) -> Seq<char> {
    padded(pool_of(rest_after_line(s)), dec_val(first_line(s)))
}

/// A scan that stopped at the first line feed found it at `line_end`.
proof fn lemma_line_end_is(s: Seq<char>, e: int)
    requires
        0 <= e <= s.len(),
        forall|k: int| 0 <= k < e ==> s[k] != '\n',
        e < s.len() ==> s[e] == '\n',
    ensures
        line_end(s) == e,
    decreases e,
{
    if e > 0 {
        lemma_line_end_is(s.drop_first(), e - 1);
    }
}

pub proof fn lemma_dec_val_nonneg(s: Seq<char>)
    requires
        all_digits(s),
    ensures
        dec_val(s) >= 0,
    decreases s.len(),
{
    if s.len() > 0 {
        assert(all_digits(s.drop_last()));
        lemma_dec_val_nonneg(s.drop_last());
    }
}

/// A digit string is worth at least any of its prefixes.
pub proof fn lemma_dec_val_prefix_le(s: Seq<char>, j: int)
    requires
        all_digits(s),
        0 <= j <= s.len(),
    ensures
        dec_val(s.subrange(0, j)) <= dec_val(s),
    decreases s.len() - j,
{
    if j == s.len() {
        assert(s.subrange(0, j) =~= s);
    } else {
        lemma_dec_val_prefix_le(s, j + 1);
        assert(s.subrange(0, j + 1).drop_last() =~= s.subrange(0, j));
        assert(all_digits(s.subrange(0, j)));
        lemma_dec_val_nonneg(s.subrange(0, j));
        assert(dec_val(s.subrange(0, j + 1)) == 10 * dec_val(s.subrange(0, j)) + digit_val(
            s[j],
        ));
    }
}

/// Parses the declared target length from the first input line;
/// `InputFormatError` exactly when that line is empty, holds a non-digit,
/// or declares a value too large for the machine.
#[verifier::loop_isolation(false)]
pub fn parse_count(content: &str) -> (r: Result<usize, CoreError>)
    ensures
        valid_count_line(first_line(content@)) ==> r == Ok::<usize, CoreError>(
            dec_val(first_line(content@)) as usize,
        ),
        !valid_count_line(first_line(content@)) ==> r == Err::<usize, CoreError>(
            CoreError::InputFormatError,
        ),
{
    let len = content.unicode_len();
    let mut e: usize = 0;
    while e < len && content.get_char(e) != '\n'
        invariant
            e <= len,
            len == content@.len(),
            forall|k: int| 0 <= k < e ==> content@[k] != '\n',
        decreases len - e,
    {
        e += 1;
    }
    proof {
        lemma_line_end_is(content@, e as int);
    }
    let stop: usize = if e < len && e > 0 && content.get_char(e - 1) == '\r' {
        e - 1
    } else {
        e
    };
    let ghost l = first_line(content@);
    proof {
        assert(l =~= content@.subrange(0, stop as int));
    }
    if stop == 0 {
        return Err(CoreError::InputFormatError);
    }
    let mut n: usize = 0;
    let mut k: usize = 0;
    while k < stop
        invariant
            0 <= k <= stop <= len,
            len == content@.len(),
            l == content@.subrange(0, stop as int),
            l.len() == stop,
            all_digits(l.subrange(0, k as int)),
            n == dec_val(l.subrange(0, k as int)),
        decreases stop - k,
    {
        let c = content.get_char(k);
        let cv = c as u32;
        let zero = '0' as u32;
        let nine = '9' as u32;
        if cv < zero || cv > nine {
            proof {
                assert(l[k as int] == c);
                assert(!is_digit(c));
            }
            return Err(CoreError::InputFormatError);
        }
        let d = (cv - zero) as usize;
        proof {
            assert(l.subrange(0, k as int + 1).drop_last() =~= l.subrange(0, k as int));
            assert(l.subrange(0, k as int + 1).last() == c);
        }
        if n > (usize::MAX - d) / 10 {
            proof {
                assert(10 * n + d > usize::MAX) by (nonlinear_arith)
                    requires
                        n > (usize::MAX - d) / 10,
                        0 <= d <= usize::MAX,
                ;
                assert(dec_val(l.subrange(0, k as int + 1)) > usize::MAX);
                if all_digits(l) {
                    lemma_dec_val_prefix_le(l, k as int + 1);
                }
                assert(!valid_count_line(l));
            }
            return Err(CoreError::InputFormatError);
        }
        proof {
            assert(10 * n + d <= usize::MAX) by (nonlinear_arith)
                requires
                    n <= (usize::MAX - d) / 10,
                    0 <= d <= usize::MAX,
            ;
        }
        n = n * 10 + d;
        k += 1;
    }
    proof {
        assert(l.subrange(0, stop as int) =~= l);
    }
    Ok(n)
}

/// Collects the pool characters that follow the first line.
pub fn build_pool(content: &str) -> (r: Vec<char>)
    ensures
        r@ == pool_of(rest_after_line(content@)),
{
    let len = content.unicode_len();
    let mut e: usize = 0;
    while e < len && content.get_char(e) != '\n'
        invariant
            e <= len,
            len == content@.len(),
            forall|k: int| 0 <= k < e ==> content@[k] != '\n',
        decreases len - e,
    {
        e += 1;
    }
    proof {
        lemma_line_end_is(content@, e as int);
    }
    let mut pool: Vec<char> = Vec::new();
    let mut i: usize = if e < len {
        e + 1
    } else {
        len
    };
    let ghost rest = rest_after_line(content@);
    proof {
        assert(rest =~= content@.subrange(i as int, len as int));
        assert(pool@ + pool_of(rest) =~= pool_of(rest));
    }
    while i < len
        invariant
            i <= len,
            len == content@.len(),
            pool@ + pool_of(content@.subrange(i as int, len as int)) == pool_of(rest),
        decreases len - i,
    {
        let ghost sub_old = content@.subrange(i as int, len as int);
        let c = content.get_char(i);
        if c == '\n' {
        } else if c == '\r' && i + 1 < len && content.get_char(i + 1) == '\n' {
        } else {
            pool.push(c);
        }
        i += 1;
        proof {
            let sub_new = content@.subrange(i as int, len as int);
            assert(sub_old.drop_first() =~= sub_new);
            assert(sub_old[0] == c);
            if !(c == '\n' || (c == '\r' && sub_old.len() >= 2 && sub_old[1] == '\n')) {
                assert(pool_of(sub_old) == seq![c] + pool_of(sub_new));
                assert(pool@ + pool_of(sub_new) =~= pool@.drop_last() + pool_of(sub_old));
            }
        }
    }
    proof {
        assert(content@.subrange(len as int, len as int) =~= Seq::<char>::empty());
        assert(pool@ =~= pool@ + pool_of(Seq::<char>::empty()));
    }
    pool
}

/// Brings the pool to length exactly `n`: truncates a long pool, pads a
/// short one with the filler symbol.
pub fn pad_pool(pool: &mut Vec<char>, n: usize)
    ensures
        final(pool)@ == padded(old(pool)@, n as int),
{
    let ghost orig = pool@;
    proof {
        assert(pool@ =~= orig.subrange(0, pool@.len() as int));
    }
    while pool.len() > n
        invariant
            pool@.len() <= orig.len(),
            pool@ == orig.subrange(0, pool@.len() as int),
            pool@.len() >= n || pool@.len() == orig.len(),
        decreases pool@.len(),
    {
        pool.pop();
        proof {
            assert(pool@ =~= orig.subrange(0, pool@.len() as int));
        }
    }
    proof {
        if orig.len() < n {
            assert(pool@ =~= orig);
            assert(pool@ =~= orig + Seq::new((pool@.len() - orig.len()) as nat, |k: int| FILLER));
        }
    }
    while pool.len() < n
        invariant
            orig.len() >= n ==> pool@ == orig.subrange(0, n as int),
            orig.len() < n ==> pool@.len() <= n && pool@ == orig + Seq::new(
                (pool@.len() - orig.len()) as nat,
                |k: int| FILLER,
            ),
        decreases n - pool@.len(),
    {
        pool.push(FILLER);
        proof {
            if orig.len() < n {
                assert(pool@ =~= orig + Seq::new((pool@.len() - orig.len()) as nat, |k: int| FILLER));
            }
        }
    }
}

} // verus!

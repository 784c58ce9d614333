//! Parsing of the chat client's input line.
//!
//! A line starting with a backslash is a command: `\f:` followed by a path
//! asks to send that file, and a backslash followed by a number selects
//! that recipient.  Any other backslash line is ignored, and a line
//! without a backslash is the text of a message.

use crate::loader::{all_digits, dec_val, is_digit, lemma_dec_val_prefix_le};
use vstd::prelude::*;
use vstd::string::*;

verus! {

/// What an input line asks for.
pub enum Command {
    /// Send the file at this path.
    SendFile { path: String },
    /// Talk to this recipient from now on.
    Select(u32),
    /// A command that parses to nothing; the line is dropped.
    Ignore,
    /// Send this line as a text message.
    Text(String),
}

/// The mathematical value of a [`Command`].
pub ghost enum CommandView {
    SendFile { path: Seq<char> },
    Select(u32),
    Ignore,
    Text(Seq<char>),
}

impl View for Command {
    type V = CommandView;

    open spec fn view(&self) -> CommandView {
        match self {
            Command::SendFile { path } => CommandView::SendFile { path: path@ },
            Command::Select(id) => CommandView::Select(*id),
            Command::Ignore => CommandView::Ignore,
            Command::Text(s) => CommandView::Text(s@),
        }
    }
}

/// The digits of a number a selection command names: a single leading `+`
/// sign is allowed.
pub open spec fn selection_digits(s: Seq<char>) -> Seq<char> {
    if s.len() >= 1 && s[0] == '+' {
        s.drop_first()
    } else {
        s
    }
}

/// The digit string names a value a `u32` can hold.
pub open spec fn valid_selection(s: Seq<char>) -> bool {
    let d = selection_digits(s);
    d.len() > 0 && all_digits(d) && dec_val(d) <= u32::MAX
}

/// What the input line `s` asks for.
pub open spec fn command_of(s: Seq<char>) -> CommandView {
    if s.len() >= 1 && s[0] == '\\' {
        if s.len() >= 3 && s[1] == 'f' && s[2] == ':' {
            CommandView::SendFile { path: s.subrange(3, s.len() as int) }
        } else if valid_selection(s.subrange(1, s.len() as int)) {
            CommandView::Select(dec_val(selection_digits(s.subrange(1, s.len() as int))) as u32)
        } else {
            CommandView::Ignore
        }
    } else {
        CommandView::Text(s)
    }
}

/// Parses one input line.
#[verifier::loop_isolation(false)]
pub fn parse_command(input: &str) -> (r: Command)
    ensures
        r@ == command_of(input@),
{
    let len = input.unicode_len();
    if len == 0 || input.get_char(0) != '\\' {
        return Command::Text(input.to_owned());
    }
    if len >= 3 && input.get_char(1) == 'f' && input.get_char(2) == ':' {
        return Command::SendFile { path: input.substring_char(3, len).to_owned() };
    }
    let ghost tail = input@.subrange(1, input@.len() as int);
    let ghost digits = selection_digits(tail);
    // A leading sign is allowed before the digits.
    let start: usize = if len >= 2 && input.get_char(1) == '+' {
        2
    } else {
        1
    };
    proof {
        assert(digits =~= input@.subrange(start as int, input@.len() as int));
    }
    if start == len {
        return Command::Ignore;
    }
    let mut n: u32 = 0;
    let mut k: usize = start;
    while k < len
        invariant
            start <= k <= len,
            all_digits(digits.subrange(0, k - start)),
            n == dec_val(digits.subrange(0, k - start)),
        decreases len - k,
    {
        let c = input.get_char(k);
        let cv = c as u32;
        let zero = '0' as u32;
        let nine = '9' as u32;
        if cv < zero || cv > nine {
            proof {
                assert(digits[k - start] == c);
                assert(!is_digit(c));
            }
            return Command::Ignore;
        }
        let d = cv - zero;
        proof {
            assert(digits.subrange(0, k - start + 1).drop_last() =~= digits.subrange(
                0,
                k - start,
            ));
            assert(digits.subrange(0, k - start + 1).last() == c);
        }
        if n > (u32::MAX - d) / 10 {
            proof {
                assert(10 * n + d > u32::MAX) by (nonlinear_arith)
                    requires
                        n > (u32::MAX - d) / 10,
                        0 <= d <= u32::MAX,
                ;
                assert(dec_val(digits.subrange(0, k - start + 1)) > u32::MAX);
                if all_digits(digits) {
                    lemma_dec_val_prefix_le(digits, k - start + 1);
                }
                assert(!valid_selection(tail));
            }
            return Command::Ignore;
        }
        proof {
            assert(10 * n + d <= u32::MAX) by (nonlinear_arith)
                requires
                    n <= (u32::MAX - d) / 10,
                    0 <= d <= u32::MAX,
            ;
        }
        n = n * 10 + d;
        k += 1;
    }
    proof {
        assert(digits.subrange(0, digits.len() as int) =~= digits);
    }
    Command::Select(n)
}

/// What follows the last slash of a path: the file's own name.
pub open spec fn after_last_slash(p: Seq<char>) -> Seq<char>
    decreases p.len(),
{
    if p.len() == 0 {
        Seq::empty()
    } else if p.last() == '/' {
        Seq::empty()
    } else {
        after_last_slash(p.drop_last()).push(p.last())
    }
}

/// A slash at `k` with none after it splits the path at `k`.
proof fn lemma_after_last_slash_at(p: Seq<char>, k: int)
    requires
        0 <= k < p.len(),
        p[k] == '/',
        forall|j: int| k < j < p.len() ==> p[j] != '/',
    ensures
        after_last_slash(p) == p.subrange(k + 1, p.len() as int),
    decreases p.len() - k,
{
    if k == p.len() - 1 {
        assert(after_last_slash(p) =~= p.subrange(k + 1, p.len() as int));
    } else {
        lemma_after_last_slash_at(p.drop_last(), k);
        assert(p.drop_last().subrange(k + 1, p.len() - 1) =~= p.subrange(k + 1, p.len() - 1));
        assert(after_last_slash(p) =~= p.subrange(k + 1, p.len() as int));
    }
}

/// A path without slashes is its own file name.
proof fn lemma_after_last_slash_none(p: Seq<char>)
    requires
        forall|j: int| 0 <= j < p.len() ==> p[j] != '/',
    ensures
        after_last_slash(p) == p,
    decreases p.len(),
{
    if p.len() > 0 {
        lemma_after_last_slash_none(p.drop_last());
        assert(after_last_slash(p) =~= p);
    } else {
        assert(after_last_slash(p) =~= p);
    }
}

/// The file name a path ends in: everything after its last slash, or the
/// whole path where it has none.
#[verifier::loop_isolation(false)]
pub fn basename(path: &str) -> (r: &str)
    ensures
        r@ == after_last_slash(path@),
{
    let len = path.unicode_len();
    let mut k: usize = len;
    while k > 0
        invariant
            k <= len,
            forall|j: int| k <= j < len ==> path@[j] != '/',
        decreases k,
    {
        if path.get_char(k - 1) == '/' {
            proof {
                lemma_after_last_slash_at(path@, k as int - 1);
            }
            return path.substring_char(k, len);
        }
        k -= 1;
    }
    proof {
        lemma_after_last_slash_none(path@);
        assert(path@.subrange(0, len as int) =~= path@);
    }
    path.substring_char(0, len)
}

} // verus!

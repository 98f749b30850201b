//! The single-character command language of the interactive loop, and the
//! reading of a task index from a line of user input. The loop itself only
//! performs terminal reads and writes; every decision it takes is made here.

use vstd::prelude::*;
use crate::text::{trim, trim_spec};

verus! {

/// What one keystroke asks the loop to do.
#[derive(Debug, Clone, Copy, PartialEq, Eq, Structural)]
pub enum CommandKind {
    Add,
    Update,
    Delete,
    Complete,
    Uncomplete,
    Clean,
    Purge,
    Quit,
    Invalid,
}

/// The command each keystroke names: `a` add, `u` update, `d` delete, `c`
/// complete, `C` uncomplete, `x` clean, `p` purge, `q` quit; every other
/// character is invalid.
pub open spec fn command_of(c: char) -> CommandKind {
    if c == 'a' {
        CommandKind::Add
    } else if c == 'u' {
        CommandKind::Update
    } else if c == 'd' {
        CommandKind::Delete
    } else if c == 'c' {
        CommandKind::Complete
    } else if c == 'C' {
        CommandKind::Uncomplete
    } else if c == 'x' {
        CommandKind::Clean
    } else if c == 'p' {
        CommandKind::Purge
    } else if c == 'q' {
        CommandKind::Quit
    } else {
        CommandKind::Invalid
    }
}

/// Decide which operation a keystroke invokes.
pub fn parse_command(c: char) -> (r: CommandKind)
    ensures
        r == command_of(c),
{
    match c {
        'a' => CommandKind::Add,
        'u' => CommandKind::Update,
        'd' => CommandKind::Delete,
        'c' => CommandKind::Complete,
        'C' => CommandKind::Uncomplete,
        'x' => CommandKind::Clean,
        'p' => CommandKind::Purge,
        'q' => CommandKind::Quit,
        _ => CommandKind::Invalid,
    }
}

/// The value of a decimal digit, and a negative answer for any other
/// character.
pub open spec fn digit_val(c: char) -> int {
    if c == '0' {
        0
    } else if c == '1' {
        1
    } else if c == '2' {
        2
    } else if c == '3' {
        3
    } else if c == '4' {
        4
    } else if c == '5' {
        5
    } else if c == '6' {
        6
    } else if c == '7' {
        7
    } else if c == '8' {
        8
    } else if c == '9' {
        9
    } else {
        -1
    }
}

/// Whether `c` is a decimal digit.
pub open spec fn is_digit(c: char) -> bool {
    digit_val(c) >= 0
}

/// Whether every character of `s` is a decimal digit.
pub open spec fn all_digits(s: Seq<char>) -> bool {
    forall|k: int| 0 <= k < s.len() ==> is_digit(#[trigger] s[k])
}

/// The number a digit string names, read left to right.
pub open spec fn digits_val(s: Seq<char>) -> int
    decreases s.len(),
{
    if s.len() == 0 {
        0
    } else {
        digits_val(s.drop_last()) * 10 + digit_val(s.last())
    }
}

/// The index a line of user input names, if any: the line trimmed, then an
/// optional `+` sign, then one or more decimal digits naming a value that
/// fits in a byte.
pub open spec fn index_of_input(s: Seq<char>) -> Option<u8> {
    let t = trim_spec(s);
    let d = if t.len() >= 1 && t[0] == '+' {
        t.drop_first()
    } else {
        t
    };
    if d.len() >= 1 && all_digits(d) && digits_val(d) <= 255 {
        Some(digits_val(d) as u8)
    } else {
        None
    }
}

/// A string of digits names a number at least zero.
proof fn lemma_digits_val_nonneg(s: Seq<char>)
    requires
        all_digits(s),
    ensures
        digits_val(s) >= 0,
    decreases s.len(),
{
    if s.len() > 0 {
        let t = s.drop_last();
        assert(forall|k: int| 0 <= k < t.len() ==> #[trigger] t[k] == s[k]);
        lemma_digits_val_nonneg(t);
    }
}

/// Reading more digits never shrinks the number: the whole string names at
/// least what any prefix of it names.
proof fn lemma_digits_val_prefix(s: Seq<char>, j: int)
    requires
        all_digits(s),
        0 <= j <= s.len(),
    ensures
        digits_val(s) >= digits_val(s.subrange(0, j)),
    decreases s.len() - j,
{
    if j == s.len() {
        assert(s.subrange(0, j) =~= s);
    } else {
        let p = s.subrange(0, j);
        let q = s.subrange(0, j + 1);
        assert(q.drop_last() =~= p);
        assert(forall|k: int| 0 <= k < p.len() ==> #[trigger] p[k] == s[k]);
        lemma_digits_val_nonneg(p);
        assert(digits_val(q) == digits_val(p) * 10 + digit_val(s[j]));
        lemma_digits_val_prefix(s, j + 1);
    }
}

/// The value of a digit character.
fn digit_value(c: char) -> (r: Option<u8>)
    ensures
        is_digit(c) ==> r == Some(digit_val(c) as u8),
        !is_digit(c) ==> r is None,
{
    match c {
        '0' => Some(0),
        '1' => Some(1),
        '2' => Some(2),
        '3' => Some(3),
        '4' => Some(4),
        '5' => Some(5),
        '6' => Some(6),
        '7' => Some(7),
        '8' => Some(8),
        '9' => Some(9),
        _ => None,
    }
}

/// Read a task index from a line of user input: the line trimmed, then an
/// optional `+` sign, then decimal digits. Anything else, or a value past
/// 255, names no index.
pub fn parse_index(s: &str) -> (r: Option<u8>)
    ensures
        r == index_of_input(s@),
{
    let t = trim(s);
    let n = t.as_str().unicode_len();
    let ghost tv = trim_spec(s@);
    let mut i: usize = 0;
    if n >= 1 && t.as_str().get_char(0) == '+' {
        i = 1;
    }
    let ghost d = (if tv.len() >= 1 && tv[0] == '+' {
        tv.drop_first()
    } else {
        tv
    });
    proof {
        assert(d =~= tv.subrange(i as int, n as int));
    }
    if i == n {
        return None;
    }
    let mut acc: u32 = 0;
    let mut j = i;
    while j < n
        invariant
            n == tv.len(),
            t@ == tv,
            tv == trim_spec(s@),
            d == (if tv.len() >= 1 && tv[0] == '+' {
                tv.drop_first()
            } else {
                tv
            }),
            i <= j <= n,
            d =~= tv.subrange(i as int, n as int),
            all_digits(tv.subrange(i as int, j as int)),
            acc == digits_val(tv.subrange(i as int, j as int)),
            acc <= 255,
        decreases n - j,
    {
        let c = t.as_str().get_char(j);
        match digit_value(c) {
            None => {
                proof {
                    assert(d[j - i] == c);
                    assert(!all_digits(d));
                }
                return None;
            },
            Some(v) => {
                let next = acc * 10 + (v as u32);
                proof {
                    assert(tv.subrange(i as int, j + 1).drop_last() =~= tv.subrange(
                        i as int,
                        j as int,
                    ));
                    assert(digits_val(tv.subrange(i as int, j + 1)) == acc * 10 + digit_val(c));
                }
                if next > 255 {
                    proof {
                        if all_digits(d) {
                            assert(tv.subrange(i as int, j + 1) =~= d.subrange(0, j + 1 - i));
                            lemma_digits_val_prefix(d, j + 1 - i);
                            assert(digits_val(d) > 255);
                        }
                    }
                    return None;
                }
                acc = next;
                j = j + 1;
            },
        }
    }
    proof {
        assert(tv.subrange(i as int, j as int) =~= d);
        lemma_digits_val_nonneg(d);
    }
    Some(acc as u8)
}

} // verus!

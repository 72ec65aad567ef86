//! The tracker's input vocabulary.
//!
//! Two small grammars arrive from the prompt loop: clock readings
//! (`HH:MM`, a bare four-digit `HHMM`, or the word `now`) and task
//! codes (one or two letters naming a category, or `x` to stop).  Both
//! are parsed here, exactly; the surrounding loop only trims,
//! lowercases codes, and asks again on a rejected input.

use vstd::prelude::*;

use crate::task::BucketKind;
use crate::time_of_day::TimeOfDay;

verus! {

/// What a clock-reading input means.
#[derive(Clone, Copy, PartialEq, Eq, Structural, Debug)]
pub enum TimeInput {
    /// The current wall-clock time was asked for.
    Now,
    /// A well-formed reading; seconds are always zero.
    Time(TimeOfDay),
    /// Not a reading at all; the caller should ask again.
    Invalid,
}

pub open spec fn is_digit(c: char) -> bool {
    48 <= c as u32 <= 57
}

pub open spec fn digit_val(c: char) -> int {
    c as u32 - 48
}

/// The empty input or the word `now` in any letter case.
pub open spec fn is_now_word(s: Seq<char>) -> bool {
    ||| s.len() == 0
    ||| (s.len() == 3 && (s[0] == 'n' || s[0] == 'N') && (s[1] == 'o' || s[1] == 'O') && (s[2]
        == 'w' || s[2] == 'W'))
}

pub open spec fn all_digits(s: Seq<char>) -> bool {
    forall|i: int| 0 <= i < s.len() ==> is_digit(#[trigger] s[i])
}

/// Hour and minute of a colon-separated reading, each one or two
/// digits; anything else is no reading.
pub open spec fn spec_parse_clock(s: Seq<char>) -> Option<(int, int)> {
    if s.len() == 3 && s[1] == ':' && is_digit(s[0]) && is_digit(s[2]) {
        Some((digit_val(s[0]), digit_val(s[2])))
    } else if s.len() == 4 && s[1] == ':' && is_digit(s[0]) && is_digit(s[2]) && is_digit(s[3]) {
        Some((digit_val(s[0]), 10 * digit_val(s[2]) + digit_val(s[3])))
    } else if s.len() == 4 && s[2] == ':' && is_digit(s[0]) && is_digit(s[1]) && is_digit(s[3]) {
        Some((10 * digit_val(s[0]) + digit_val(s[1]), digit_val(s[3])))
    } else if s.len() == 5 && s[2] == ':' && is_digit(s[0]) && is_digit(s[1]) && is_digit(s[3])
        && is_digit(s[4]) {
        Some((10 * digit_val(s[0]) + digit_val(s[1]), 10 * digit_val(s[3]) + digit_val(s[4])))
    } else {
        None
    }
}

/// The whole clock-reading grammar: `now` (or nothing) asks for the
/// current time; a bare four-digit string reads as `HHMM`; otherwise
/// the colon form applies.  Out-of-range hours or minutes are invalid.
pub open spec fn spec_parse_time_input(s: Seq<char>) -> TimeInput {
    if is_now_word(s) {
        TimeInput::Now
    } else {
        let hm = if s.len() == 4 && all_digits(s) {
            Some(
                (
                    10 * digit_val(s[0]) + digit_val(s[1]),
                    10 * digit_val(s[2]) + digit_val(s[3]),
                ),
            )
        } else {
            spec_parse_clock(s)
        };
        match hm {
            Some((h, m)) => if 0 <= h < 24 && 0 <= m < 60 {
                TimeInput::Time(TimeOfDay { hour: h as u32, minute: m as u32, second: 0 })
            } else {
                TimeInput::Invalid
            },
            None => TimeInput::Invalid,
        }
    }
}

fn read_digit(c: char) -> (r: Option<u32>)
    ensures
        (r is Some) <==> is_digit(c),
        r matches Some(v) ==> v == digit_val(c),
{
    let v = c as u32;
    if 48 <= v && v <= 57 {
        Some(v - 48)
    } else {
        None
    }
}

/// Parses one trimmed line of clock input.
pub fn parse_time_input(s: &str) -> (r: TimeInput)
    ensures
        r == spec_parse_time_input(s@),
{
    let n = s.unicode_len();
    if n == 0 {
        return TimeInput::Now;
    }
    if n == 3 {
        let c0 = s.get_char(0);
        let c1 = s.get_char(1);
        let c2 = s.get_char(2);
        if (c0 == 'n' || c0 == 'N') && (c1 == 'o' || c1 == 'O') && (c2 == 'w' || c2 == 'W') {
            return TimeInput::Now;
        }
    }
    let hm: Option<(u32, u32)> = if n == 4 && is_all_digits(s) {
        let d0 = s.get_char(0) as u32 - 48;
        let d1 = s.get_char(1) as u32 - 48;
        let d2 = s.get_char(2) as u32 - 48;
        let d3 = s.get_char(3) as u32 - 48;
        Some((10 * d0 + d1, 10 * d2 + d3))
    } else {
        parse_clock(s)
    };
    match hm {
        Some((h, m)) => if h < 24 && m < 60 {
            TimeInput::Time(TimeOfDay { hour: h, minute: m, second: 0 })
        } else {
            TimeInput::Invalid
        },
        None => TimeInput::Invalid,
    }
}

fn is_all_digits(s: &str) -> (r: bool)
    ensures
        r == all_digits(s@),
{
    let n = s.unicode_len();
    let mut i: usize = 0;
    while i < n
        invariant
            i <= n,
            n == s@.len(),
            forall|j: int| 0 <= j < i ==> is_digit(#[trigger] s@[j]),
        decreases n - i,
    {
        if read_digit(s.get_char(i)).is_none() {
            return false;
        }
        i += 1;
    }
    true
}

fn parse_clock(s: &str) -> (r: Option<(u32, u32)>)
    ensures
        (r is None) <==> (spec_parse_clock(s@) is None),
        r matches Some((h, m)) ==> spec_parse_clock(s@) == Some((h as int, m as int)),
{
    let n = s.unicode_len();
    if n == 3 {
        if s.get_char(1) == ':' {
            if let (Some(h), Some(m)) = (read_digit(s.get_char(0)), read_digit(s.get_char(2))) {
                return Some((h, m));
            }
        }
        None
    } else if n == 4 {
        if s.get_char(1) == ':' {
            if let (Some(h), Some(m1), Some(m2)) = (
                read_digit(s.get_char(0)),
                read_digit(s.get_char(2)),
                read_digit(s.get_char(3)),
            ) {
                return Some((h, 10 * m1 + m2));
            }
            return None;
        }
        if s.get_char(2) == ':' {
            if let (Some(h1), Some(h2), Some(m)) = (
                read_digit(s.get_char(0)),
                read_digit(s.get_char(1)),
                read_digit(s.get_char(3)),
            ) {
                return Some((10 * h1 + h2, m));
            }
        }
        None
    } else if n == 5 {
        if s.get_char(2) == ':' {
            if let (Some(h1), Some(h2), Some(m1), Some(m2)) = (
                read_digit(s.get_char(0)),
                read_digit(s.get_char(1)),
                read_digit(s.get_char(3)),
                read_digit(s.get_char(4)),
            ) {
                return Some((10 * h1 + h2, 10 * m1 + m2));
            }
        }
        None
    } else {
        None
    }
}

/// What a task-code input means.
#[derive(Clone, Debug)]
pub enum CodeAction {
    /// The exit sentinel `x`: leave the recording loop.
    Exit,
    /// A recognized category: which bucket it belongs to, and its name.
    Task(BucketKind, String),
    /// No such code; nothing is recorded and the caller asks again.
    Unrecognized,
}

/// The code table: category codes to their bucket and name.  The code
/// `a` reads as `Action`; no other name is answered for it.
pub open spec fn spec_code_table(s: Seq<char>) -> Option<(BucketKind, Seq<char>)> {
    if s == seq!['c'] {
        Some((BucketKind::Productive, seq!['C', 'o', 'd', 'i', 'n', 'g']))
    } else if s == seq!['r'] {
        Some((BucketKind::Productive, seq!['R', 'e', 'a', 'd', 'i', 'n', 'g']))
    } else if s == seq!['a'] {
        Some((BucketKind::Productive, seq!['A', 'c', 't', 'i', 'o', 'n']))
    } else if s == seq!['w'] {
        Some((BucketKind::Productive, seq!['W', 'r', 'i', 't', 'i', 'n', 'g']))
    } else if s == seq!['l'] {
        Some((BucketKind::Productive, seq!['L', 'e', 'a', 'r', 'n', 'i', 'n', 'g']))
    } else if s == seq!['c', 'h'] {
        Some((BucketKind::Chores, seq!['C', 'h', 'o', 'r', 'e', 's']))
    } else if s == seq!['e'] {
        Some(
            (
                BucketKind::Entertainment,
                seq!['E', 'n', 't', 'e', 'r', 't', 'a', 'i', 'n', 'm', 'e', 'n', 't'],
            ),
        )
    } else {
        None
    }
}

/// Parses one trimmed, lowercased task code.
pub fn parse_task_code(code: &str) -> (r: CodeAction)
    ensures
        (r is Exit) <==> code@ == seq!['x'],
        spec_code_table(code@) matches Some((b, nm)) ==> (r matches CodeAction::Task(
            rb,
            rname,
        ) && rb == b && rname@ == nm),
        r matches CodeAction::Task(rb, rname) ==> spec_code_table(code@) == Some((rb, rname@)),
        (r is Unrecognized) <==> (code@ != seq!['x'] && spec_code_table(code@) is None),
{
    let n = code.unicode_len();
    if n == 1 {
        let c = code.get_char(0);
        proof {
            assert(code@ =~= seq![code@[0]]);
        }
        if c == 'x' {
            CodeAction::Exit
        } else if c == 'c' {
            let name = String::from_str("Coding");
            proof {
                reveal_strlit("Coding");
                assert(name@ =~= seq!['C', 'o', 'd', 'i', 'n', 'g']);
            }
            CodeAction::Task(BucketKind::Productive, name)
        } else if c == 'r' {
            let name = String::from_str("Reading");
            proof {
                reveal_strlit("Reading");
                assert(name@ =~= seq!['R', 'e', 'a', 'd', 'i', 'n', 'g']);
            }
            CodeAction::Task(BucketKind::Productive, name)
        } else if c == 'a' {
            let name = String::from_str("Action");
            proof {
                reveal_strlit("Action");
                assert(name@ =~= seq!['A', 'c', 't', 'i', 'o', 'n']);
            }
            CodeAction::Task(BucketKind::Productive, name)
        } else if c == 'w' {
            let name = String::from_str("Writing");
            proof {
                reveal_strlit("Writing");
                assert(name@ =~= seq!['W', 'r', 'i', 't', 'i', 'n', 'g']);
            }
            CodeAction::Task(BucketKind::Productive, name)
        } else if c == 'l' {
            let name = String::from_str("Learning");
            proof {
                reveal_strlit("Learning");
                assert(name@ =~= seq!['L', 'e', 'a', 'r', 'n', 'i', 'n', 'g']);
            }
            CodeAction::Task(BucketKind::Productive, name)
        } else if c == 'e' {
            let name = String::from_str("Entertainment");
            proof {
                reveal_strlit("Entertainment");
                assert(name@ =~= seq![
                    'E', 'n', 't', 'e', 'r', 't', 'a', 'i', 'n', 'm', 'e', 'n', 't',
                ]);
            }
            CodeAction::Task(BucketKind::Entertainment, name)
        } else {
            CodeAction::Unrecognized
        }
    } else if n == 2 {
        let c0 = code.get_char(0);
        let c1 = code.get_char(1);
        proof {
            assert(code@ =~= seq![code@[0], code@[1]]);
        }
        if c0 == 'c' && c1 == 'h' {
            let name = String::from_str("Chores");
            proof {
                reveal_strlit("Chores");
                assert(name@ =~= seq!['C', 'h', 'o', 'r', 'e', 's']);
            }
            CodeAction::Task(BucketKind::Chores, name)
        } else {
            CodeAction::Unrecognized
        }
    } else {
        CodeAction::Unrecognized
    }
}

} // verus!

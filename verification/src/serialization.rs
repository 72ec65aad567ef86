//! The persisted form of the tracker state.
//!
//! The settings are framed as a flat byte string: every number is a
//! little-endian 64-bit field, a text is its length followed by one
//! field per character, and lists are a count followed by their
//! items.  Encoding and decoding are both defined here and proved to
//! invert each other, so a state written out and read back reproduces
//! every ledger total and the end-time configuration.  The file I/O
//! around them belongs to the surrounding binary.

use vstd::prelude::*;

use crate::date::{days_in_month, Date};
use crate::settings::UserSettings;
use crate::task::TodaysTasks;
use crate::time_of_day::TimeOfDay;

verus! {

/// What the persisted form remembers of one ledger: date, start time,
/// and the three bucket contents.
pub type LedgerModel = (Date, Option<TimeOfDay>, Seq<(Seq<char>, u64)>, Seq<(Seq<char>, u64)>, Seq<
    (Seq<char>, u64),
>);

/// What the persisted form remembers of the whole state: end time,
/// archived ledgers, active ledger.
pub type SettingsModel = (Option<TimeOfDay>, Seq<LedgerModel>, LedgerModel);

pub open spec fn ledger_model(l: TodaysTasks) -> LedgerModel {
    (
        l.date,
        l.start_time,
        l.todays_tasks.model(),
        l.todays_chores.model(),
        l.todays_entertainment.model(),
    )
}

pub open spec fn settings_model(s: UserSettings) -> SettingsModel {
    (
        s.end_time,
        s.past_tasks@.map_values(|d: TodaysTasks| ledger_model(d)),
        ledger_model(s.today),
    )
}

pub open spec fn pow256(n: nat) -> int
    decreases n,
{
    if n == 0 {
        1
    } else {
        256 * pow256((n - 1) as nat)
    }
}

/// `v` in base 256, least significant byte first, over `n` bytes.
pub open spec fn le_bytes(v: int, n: nat) -> Seq<u8>
    decreases n,
{
    if n == 0 {
        Seq::empty()
    } else {
        seq![(v % 256) as u8] + le_bytes(v / 256, (n - 1) as nat)
    }
}

/// The number a little-endian byte string denotes.
pub open spec fn le_value(s: Seq<u8>) -> int
    decreases s.len(),
{
    if s.len() == 0 {
        0
    } else {
        s[0] + 256 * le_value(s.drop_first())
    }
}

pub open spec fn u64_le_bytes(v: u64) -> Seq<u8> {
    le_bytes(v as int, 8)
}

pub open spec fn chars_bytes(s: Seq<char>) -> Seq<u8>
    decreases s.len(),
{
    if s.len() == 0 {
        Seq::empty()
    } else {
        u64_le_bytes(s[0] as u64) + chars_bytes(s.drop_first())
    }
}

pub open spec fn string_bytes(s: Seq<char>) -> Seq<u8> {
    u64_le_bytes(s.len() as u64) + chars_bytes(s)
}

pub open spec fn entry_bytes(p: (Seq<char>, u64)) -> Seq<u8> {
    string_bytes(p.0) + u64_le_bytes(p.1)
}

pub open spec fn entries_bytes(m: Seq<(Seq<char>, u64)>) -> Seq<u8>
    decreases m.len(),
{
    if m.len() == 0 {
        Seq::empty()
    } else {
        entry_bytes(m[0]) + entries_bytes(m.drop_first())
    }
}

pub open spec fn list_bytes(m: Seq<(Seq<char>, u64)>) -> Seq<u8> {
    u64_le_bytes(m.len() as u64) + entries_bytes(m)
}

pub open spec fn time_bytes(t: TimeOfDay) -> Seq<u8> {
    u64_le_bytes(t.hour as u64) + u64_le_bytes(t.minute as u64) + u64_le_bytes(t.second as u64)
}

pub open spec fn opt_time_bytes(o: Option<TimeOfDay>) -> Seq<u8> {
    match o {
        None => u64_le_bytes(0) + time_bytes(TimeOfDay { hour: 0, minute: 0, second: 0 }),
        Some(t) => u64_le_bytes(1) + time_bytes(t),
    }
}

pub open spec fn date_bytes(d: Date) -> Seq<u8> {
    u64_le_bytes(d.year as u64) + u64_le_bytes(d.month as u64) + u64_le_bytes(d.day as u64)
}

pub open spec fn ledger_bytes(l: TodaysTasks) -> Seq<u8> {
    date_bytes(l.date) + opt_time_bytes(l.start_time) + list_bytes(l.todays_tasks.model())
        + list_bytes(l.todays_chores.model()) + list_bytes(l.todays_entertainment.model())
}

pub open spec fn ledgers_bytes(days: Seq<TodaysTasks>) -> Seq<u8>
    decreases days.len(),
{
    if days.len() == 0 {
        Seq::empty()
    } else {
        ledger_bytes(days[0]) + ledgers_bytes(days.drop_first())
    }
}

pub open spec fn settings_bytes(s: UserSettings) -> Seq<u8> {
    opt_time_bytes(s.end_time) + u64_le_bytes(s.past_tasks@.len() as u64) + ledgers_bytes(
        s.past_tasks@,
    ) + ledger_bytes(s.today)
}

// The parser: a total, deterministic reading of a byte string, each
// step returning the value read and the position after it.

pub open spec fn parse_u64(data: Seq<u8>, pos: int) -> Option<(u64, int)> {
    if 0 <= pos && pos + 8 <= data.len() {
        Some((le_value(data.subrange(pos, pos + 8)) as u64, pos + 8))
    } else {
        None
    }
}

/// The 64-bit fields that denote a character.
pub open spec fn is_scalar_value(v: u64) -> bool {
    v < 0xD800 || (0xE000 <= v && v <= 0x10FFFF)
}

pub open spec fn parse_chars(data: Seq<u8>, pos: int, n: nat) -> Option<(Seq<char>, int)>
    decreases n,
{
    if n == 0 {
        Some((Seq::empty(), pos))
    } else {
        match parse_u64(data, pos) {
            None => None,
            Some((v, p1)) => if is_scalar_value(v) {
                match parse_chars(data, p1, (n - 1) as nat) {
                    None => None,
                    Some((s, p2)) => Some((seq![(v as u32) as char] + s, p2)),
                }
            } else {
                None
            },
        }
    }
}

pub open spec fn parse_string(data: Seq<u8>, pos: int) -> Option<(Seq<char>, int)> {
    match parse_u64(data, pos) {
        None => None,
        Some((n, p1)) => parse_chars(data, p1, n as nat),
    }
}

pub open spec fn parse_entry(data: Seq<u8>, pos: int) -> Option<((Seq<char>, u64), int)> {
    match parse_string(data, pos) {
        None => None,
        Some((s, p1)) => match parse_u64(data, p1) {
            None => None,
            Some((v, p2)) => Some(((s, v), p2)),
        },
    }
}

pub open spec fn parse_entries(data: Seq<u8>, pos: int, n: nat) -> Option<
    (Seq<(Seq<char>, u64)>, int),
>
    decreases n,
{
    if n == 0 {
        Some((Seq::empty(), pos))
    } else {
        match parse_entry(data, pos) {
            None => None,
            Some((e, p1)) => match parse_entries(data, p1, (n - 1) as nat) {
                None => None,
                Some((m, p2)) => Some((seq![e] + m, p2)),
            },
        }
    }
}

pub open spec fn parse_list(data: Seq<u8>, pos: int) -> Option<(Seq<(Seq<char>, u64)>, int)> {
    match parse_u64(data, pos) {
        None => None,
        Some((n, p1)) => parse_entries(data, p1, n as nat),
    }
}

pub open spec fn parse_time(data: Seq<u8>, pos: int) -> Option<(TimeOfDay, int)> {
    match parse_u64(data, pos) {
        None => None,
        Some((h, p1)) => match parse_u64(data, p1) {
            None => None,
            Some((m, p2)) => match parse_u64(data, p2) {
                None => None,
                Some((s, p3)) => if h < 24 && m < 60 && s < 60 {
                    Some((TimeOfDay { hour: h as u32, minute: m as u32, second: s as u32 }, p3))
                } else {
                    None
                },
            },
        },
    }
}

pub open spec fn parse_opt_time(data: Seq<u8>, pos: int) -> Option<(Option<TimeOfDay>, int)> {
    match parse_u64(data, pos) {
        None => None,
        Some((tag, p1)) => if tag == 0 {
            if p1 + 24 <= data.len() {
                Some((None, p1 + 24))
            } else {
                None
            }
        } else if tag == 1 {
            match parse_time(data, p1) {
                None => None,
                Some((t, p2)) => Some((Some(t), p2)),
            }
        } else {
            None
        },
    }
}

pub open spec fn parse_date(data: Seq<u8>, pos: int) -> Option<(Date, int)> {
    match parse_u64(data, pos) {
        None => None,
        Some((y, p1)) => match parse_u64(data, p1) {
            None => None,
            Some((mo, p2)) => match parse_u64(data, p2) {
                None => None,
                Some((d, p3)) => if 1 <= y && y <= 9999 && 1 <= mo && mo <= 12 && 1 <= d && d
                    <= days_in_month(y as int, mo as int) {
                    Some((Date { year: y as u32, month: mo as u32, day: d as u32 }, p3))
                } else {
                    None
                },
            },
        },
    }
}

pub open spec fn parse_ledger(data: Seq<u8>, pos: int) -> Option<(LedgerModel, int)> {
    match parse_date(data, pos) {
        None => None,
        Some((d, p1)) => match parse_opt_time(data, p1) {
            None => None,
            Some((st, p2)) => match parse_list(data, p2) {
                None => None,
                Some((tasks, p3)) => match parse_list(data, p3) {
                    None => None,
                    Some((chores, p4)) => match parse_list(data, p4) {
                        None => None,
                        Some((ent, p5)) => Some(((d, st, tasks, chores, ent), p5)),
                    },
                },
            },
        },
    }
}

pub open spec fn parse_ledgers(data: Seq<u8>, pos: int, n: nat) -> Option<(Seq<LedgerModel>, int)>
    decreases n,
{
    if n == 0 {
        Some((Seq::empty(), pos))
    } else {
        match parse_ledger(data, pos) {
            None => None,
            Some((l, p1)) => match parse_ledgers(data, p1, (n - 1) as nat) {
                None => None,
                Some((ls, p2)) => Some((seq![l] + ls, p2)),
            },
        }
    }
}

/// The whole file: end time, history count, archived ledgers, active
/// ledger, and nothing after them.
pub open spec fn parse_settings(data: Seq<u8>) -> Option<SettingsModel> {
    match parse_opt_time(data, 0) {
        None => None,
        Some((end, p1)) => match parse_u64(data, p1) {
            None => None,
            Some((n, p2)) => match parse_ledgers(data, p2, n as nat) {
                None => None,
                Some((days, p3)) => match parse_ledger(data, p3) {
                    None => None,
                    Some((today, p4)) => if p4 == data.len() {
                        Some((end, days, today))
                    } else {
                        None
                    },
                },
            },
        },
    }
}

// Inversion: parsing reads back exactly what encoding wrote.

pub proof fn lemma_pow256_8()
    ensures
        pow256(8) == 0x1_0000_0000_0000_0000,
{
    assert(pow256(0) == 1);
    assert(pow256(1) == 256);
    assert(pow256(2) == 0x10000);
    assert(pow256(3) == 0x1000000);
    assert(pow256(4) == 0x100000000);
    assert(pow256(5) == 0x10000000000);
    assert(pow256(6) == 0x1000000000000);
    assert(pow256(7) == 0x100000000000000);
    assert(pow256(8) == 0x10000000000000000);
}

pub proof fn lemma_le_bytes_len(v: int, n: nat)
    ensures
        le_bytes(v, n).len() == n,
    decreases n,
{
    if n > 0 {
        lemma_le_bytes_len(v / 256, (n - 1) as nat);
    }
}

pub proof fn lemma_le_roundtrip(v: int, n: nat)
    requires
        0 <= v < pow256(n),
    ensures
        le_value(le_bytes(v, n)) == v,
    decreases n,
{
    if n > 0 {
        let b = le_bytes(v, n);
        assert(b.drop_first() =~= le_bytes(v / 256, (n - 1) as nat));
        assert(v / 256 < pow256((n - 1) as nat)) by {
            assert(pow256(n) == 256 * pow256((n - 1) as nat));
            assert(v < 256 * pow256((n - 1) as nat));
        }
        lemma_le_roundtrip(v / 256, (n - 1) as nat);
        assert(b[0] == (v % 256) as u8);
        assert(le_value(b) == v % 256 + 256 * (v / 256));
    }
}

/// Reading a concatenation at `pos` reads its parts in order.
pub proof fn lemma_split_at(data: Seq<u8>, pos: int, a: Seq<u8>, b: Seq<u8>)
    requires
        0 <= pos,
        pos + a.len() + b.len() <= data.len(),
        data.subrange(pos, pos + a.len() + b.len()) == a + b,
    ensures
        data.subrange(pos, pos + a.len()) == a,
        data.subrange(pos + a.len(), pos + a.len() + b.len()) == b,
{
    let la = a.len() as int;
    let lb = b.len() as int;
    assert forall|i: int| 0 <= i < la implies data.subrange(pos, pos + la)[i] == a[i] by {
        assert(data.subrange(pos, pos + la + lb)[i] == (a + b)[i]);
    }
    assert(data.subrange(pos, pos + la) =~= a);
    assert forall|i: int| 0 <= i < lb implies data.subrange(pos + la, pos + la + lb)[i]
        == b[i] by {
        assert(data.subrange(pos, pos + la + lb)[la + i] == (a + b)[la + i]);
    }
    assert(data.subrange(pos + la, pos + la + lb) =~= b);
}

pub proof fn lemma_parse_u64_at(data: Seq<u8>, pos: int, v: u64)
    requires
        0 <= pos,
        pos + 8 <= data.len(),
        data.subrange(pos, pos + 8) == u64_le_bytes(v),
    ensures
        parse_u64(data, pos) == Some((v, pos + 8)),
{
    lemma_pow256_8();
    lemma_le_roundtrip(v as int, 8);
}

pub proof fn lemma_parse_time_at(data: Seq<u8>, pos: int, t: TimeOfDay)
    requires
        t.valid(),
        0 <= pos,
        pos + 24 <= data.len(),
        data.subrange(pos, pos + 24) == time_bytes(t),
    ensures
        parse_time(data, pos) == Some((t, pos + 24)),
{
    let a = u64_le_bytes(t.hour as u64);
    let b = u64_le_bytes(t.minute as u64);
    let c = u64_le_bytes(t.second as u64);
    lemma_le_bytes_len(t.hour as u64 as int, 8);
    lemma_le_bytes_len(t.minute as u64 as int, 8);
    lemma_le_bytes_len(t.second as u64 as int, 8);
    assert(a + b + c =~= a + (b + c));
    lemma_split_at(data, pos, a, b + c);
    lemma_split_at(data, pos + 8, b, c);
    lemma_parse_u64_at(data, pos, t.hour as u64);
    lemma_parse_u64_at(data, pos + 8, t.minute as u64);
    lemma_parse_u64_at(data, pos + 16, t.second as u64);
}

pub proof fn lemma_opt_time_bytes_len(o: Option<TimeOfDay>)
    ensures
        opt_time_bytes(o).len() == 32,
{
    match o {
        None => {
            lemma_le_bytes_len(0, 8);
            let z = TimeOfDay { hour: 0, minute: 0, second: 0 };
            lemma_le_bytes_len(z.hour as u64 as int, 8);
            lemma_le_bytes_len(z.minute as u64 as int, 8);
            lemma_le_bytes_len(z.second as u64 as int, 8);
        },
        Some(t) => {
            lemma_le_bytes_len(1, 8);
            lemma_le_bytes_len(t.hour as u64 as int, 8);
            lemma_le_bytes_len(t.minute as u64 as int, 8);
            lemma_le_bytes_len(t.second as u64 as int, 8);
        },
    }
}

pub proof fn lemma_parse_opt_time_at(data: Seq<u8>, pos: int, o: Option<TimeOfDay>)
    requires
        (o matches Some(t) ==> t.valid()),
        0 <= pos,
        pos + 32 <= data.len(),
        data.subrange(pos, pos + 32) == opt_time_bytes(o),
    ensures
        parse_opt_time(data, pos) == Some((o, pos + 32)),
{
    lemma_opt_time_bytes_len(o);
    match o {
        None => {
            let z = TimeOfDay { hour: 0, minute: 0, second: 0 };
            let a = u64_le_bytes(0);
            let rest = time_bytes(z);
            lemma_le_bytes_len(0, 8);
            lemma_le_bytes_len(z.hour as u64 as int, 8);
            lemma_le_bytes_len(z.minute as u64 as int, 8);
            lemma_le_bytes_len(z.second as u64 as int, 8);
            lemma_split_at(data, pos, a, rest);
            lemma_parse_u64_at(data, pos, 0);
        },
        Some(t) => {
            let a = u64_le_bytes(1);
            let rest = time_bytes(t);
            lemma_le_bytes_len(1, 8);
            lemma_le_bytes_len(t.hour as u64 as int, 8);
            lemma_le_bytes_len(t.minute as u64 as int, 8);
            lemma_le_bytes_len(t.second as u64 as int, 8);
            lemma_split_at(data, pos, a, rest);
            lemma_parse_u64_at(data, pos, 1);
            lemma_parse_time_at(data, pos + 8, t);
        },
    }
}

pub proof fn lemma_parse_date_at(data: Seq<u8>, pos: int, d: Date)
    requires
        d.valid(),
        0 <= pos,
        pos + 24 <= data.len(),
        data.subrange(pos, pos + 24) == date_bytes(d),
    ensures
        parse_date(data, pos) == Some((d, pos + 24)),
{
    let a = u64_le_bytes(d.year as u64);
    let b = u64_le_bytes(d.month as u64);
    let c = u64_le_bytes(d.day as u64);
    lemma_le_bytes_len(d.year as u64 as int, 8);
    lemma_le_bytes_len(d.month as u64 as int, 8);
    lemma_le_bytes_len(d.day as u64 as int, 8);
    assert(a + b + c =~= a + (b + c));
    lemma_split_at(data, pos, a, b + c);
    lemma_split_at(data, pos + 8, b, c);
    lemma_parse_u64_at(data, pos, d.year as u64);
    lemma_parse_u64_at(data, pos + 8, d.month as u64);
    lemma_parse_u64_at(data, pos + 16, d.day as u64);
}

pub proof fn lemma_chars_bytes_len(s: Seq<char>)
    ensures
        chars_bytes(s).len() == 8 * s.len(),
    decreases s.len(),
{
    if s.len() > 0 {
        lemma_le_bytes_len(s[0] as u64 as int, 8);
        lemma_chars_bytes_len(s.drop_first());
    }
}

pub proof fn lemma_parse_chars_at(data: Seq<u8>, pos: int, s: Seq<char>)
    requires
        0 <= pos,
        pos + 8 * s.len() <= data.len(),
        data.subrange(pos, pos + 8 * s.len()) == chars_bytes(s),
    ensures
        parse_chars(data, pos, s.len()) == Some((s, pos + 8 * s.len())),
    decreases s.len(),
{
    lemma_chars_bytes_len(s);
    if s.len() == 0 {
        assert(parse_chars(data, pos, 0) == Some((Seq::<char>::empty(), pos)));
        assert(s =~= Seq::<char>::empty());
    } else {
        let v = s[0] as u64;
        let a = u64_le_bytes(v);
        let rest = chars_bytes(s.drop_first());
        lemma_le_bytes_len(v as int, 8);
        lemma_chars_bytes_len(s.drop_first());
        lemma_split_at(data, pos, a, rest);
        lemma_parse_u64_at(data, pos, v);
        lemma_parse_chars_at(data, pos + 8, s.drop_first());
        vstd::utf8::char_is_scalar(s[0]);
        vstd::utf8::char_u32_cast(s[0], s[0] as u32);
        assert(v == (s[0] as u32) as u64);
        assert(is_scalar_value(v));
        assert(v as u32 == s[0] as u32);
        assert((v as u32) as char == s[0]);
        assert(seq![(v as u32) as char] + s.drop_first() =~= s);
    }
}

pub proof fn lemma_string_bytes_len(s: Seq<char>)
    ensures
        string_bytes(s).len() == 8 + 8 * s.len(),
{
    lemma_le_bytes_len(s.len() as u64 as int, 8);
    lemma_chars_bytes_len(s);
}

pub proof fn lemma_parse_string_at(data: Seq<u8>, pos: int, s: Seq<char>)
    requires
        s.len() < 0x1_0000_0000_0000_0000,
        0 <= pos,
        pos + string_bytes(s).len() <= data.len(),
        data.subrange(pos, pos + string_bytes(s).len()) == string_bytes(s),
    ensures
        parse_string(data, pos) == Some((s, pos + string_bytes(s).len())),
{
    lemma_string_bytes_len(s);
    let a = u64_le_bytes(s.len() as u64);
    let rest = chars_bytes(s);
    lemma_le_bytes_len(s.len() as u64 as int, 8);
    lemma_chars_bytes_len(s);
    lemma_split_at(data, pos, a, rest);
    lemma_parse_u64_at(data, pos, s.len() as u64);
    lemma_parse_chars_at(data, pos + 8, s);
}

/// Counts small enough for their 64-bit length fields to be exact.
pub open spec fn bounded_list(m: Seq<(Seq<char>, u64)>) -> bool {
    &&& m.len() < 0x1_0000_0000_0000_0000
    &&& forall|i: int| 0 <= i < m.len() ==> (#[trigger] m[i]).0.len() < 0x1_0000_0000_0000_0000
}

pub open spec fn bounded_ledger(l: TodaysTasks) -> bool {
    &&& bounded_list(l.todays_tasks.model())
    &&& bounded_list(l.todays_chores.model())
    &&& bounded_list(l.todays_entertainment.model())
}

pub open spec fn bounded_settings(s: UserSettings) -> bool {
    &&& s.past_tasks@.len() < 0x1_0000_0000_0000_0000
    &&& forall|i: int|
        0 <= i < s.past_tasks@.len() ==> bounded_ledger(#[trigger] s.past_tasks@[i])
    &&& bounded_ledger(s.today)
}

pub proof fn lemma_parse_entry_at(data: Seq<u8>, pos: int, p: (Seq<char>, u64))
    requires
        p.0.len() < 0x1_0000_0000_0000_0000,
        0 <= pos,
        pos + entry_bytes(p).len() <= data.len(),
        data.subrange(pos, pos + entry_bytes(p).len()) == entry_bytes(p),
    ensures
        parse_entry(data, pos) == Some((p, pos + entry_bytes(p).len())),
{
    let a = string_bytes(p.0);
    let b = u64_le_bytes(p.1);
    lemma_string_bytes_len(p.0);
    lemma_le_bytes_len(p.1 as int, 8);
    lemma_split_at(data, pos, a, b);
    lemma_parse_string_at(data, pos, p.0);
    lemma_parse_u64_at(data, pos + a.len(), p.1);
}

pub proof fn lemma_parse_entries_at(data: Seq<u8>, pos: int, m: Seq<(Seq<char>, u64)>)
    requires
        forall|i: int| 0 <= i < m.len() ==> (#[trigger] m[i]).0.len() < 0x1_0000_0000_0000_0000,
        0 <= pos,
        pos + entries_bytes(m).len() <= data.len(),
        data.subrange(pos, pos + entries_bytes(m).len()) == entries_bytes(m),
    ensures
        parse_entries(data, pos, m.len()) == Some((m, pos + entries_bytes(m).len())),
    decreases m.len(),
{
    if m.len() == 0 {
        assert(m =~= Seq::<(Seq<char>, u64)>::empty());
    } else {
        let a = entry_bytes(m[0]);
        let b = entries_bytes(m.drop_first());
        lemma_split_at(data, pos, a, b);
        lemma_parse_entry_at(data, pos, m[0]);
        assert(forall|i: int|
            0 <= i < m.drop_first().len() ==> m.drop_first()[i] == m[i + 1]);
        lemma_parse_entries_at(data, pos + a.len(), m.drop_first());
        assert(seq![m[0]] + m.drop_first() =~= m);
    }
}

pub proof fn lemma_parse_list_at(data: Seq<u8>, pos: int, m: Seq<(Seq<char>, u64)>)
    requires
        bounded_list(m),
        0 <= pos,
        pos + list_bytes(m).len() <= data.len(),
        data.subrange(pos, pos + list_bytes(m).len()) == list_bytes(m),
    ensures
        parse_list(data, pos) == Some((m, pos + list_bytes(m).len())),
{
    let a = u64_le_bytes(m.len() as u64);
    let b = entries_bytes(m);
    lemma_le_bytes_len(m.len() as u64 as int, 8);
    lemma_split_at(data, pos, a, b);
    lemma_parse_u64_at(data, pos, m.len() as u64);
    lemma_parse_entries_at(data, pos + 8, m);
}

pub proof fn lemma_parse_ledger_at(data: Seq<u8>, pos: int, l: TodaysTasks)
    requires
        l.wf(),
        bounded_ledger(l),
        0 <= pos,
        pos + ledger_bytes(l).len() <= data.len(),
        data.subrange(pos, pos + ledger_bytes(l).len()) == ledger_bytes(l),
    ensures
        parse_ledger(data, pos) == Some((ledger_model(l), pos + ledger_bytes(l).len())),
{
    let d = date_bytes(l.date);
    let o = opt_time_bytes(l.start_time);
    let l1 = list_bytes(l.todays_tasks.model());
    let l2 = list_bytes(l.todays_chores.model());
    let l3 = list_bytes(l.todays_entertainment.model());
    lemma_le_bytes_len(l.date.year as u64 as int, 8);
    lemma_le_bytes_len(l.date.month as u64 as int, 8);
    lemma_le_bytes_len(l.date.day as u64 as int, 8);
    lemma_opt_time_bytes_len(l.start_time);
    assert(ledger_bytes(l) =~= d + (o + (l1 + (l2 + l3))));
    lemma_split_at(data, pos, d, o + (l1 + (l2 + l3)));
    lemma_parse_date_at(data, pos, l.date);
    let p1 = pos + 24;
    lemma_split_at(data, p1, o, l1 + (l2 + l3));
    lemma_parse_opt_time_at(data, p1, l.start_time);
    let p2 = p1 + 32;
    lemma_split_at(data, p2, l1, l2 + l3);
    lemma_parse_list_at(data, p2, l.todays_tasks.model());
    let p3 = p2 + l1.len();
    lemma_split_at(data, p3, l2, l3);
    lemma_parse_list_at(data, p3, l.todays_chores.model());
    let p4 = p3 + l2.len();
    lemma_parse_list_at(data, p4, l.todays_entertainment.model());
}

pub proof fn lemma_parse_ledgers_at(data: Seq<u8>, pos: int, days: Seq<TodaysTasks>)
    requires
        forall|i: int| 0 <= i < days.len() ==> (#[trigger] days[i]).wf(),
        forall|i: int| 0 <= i < days.len() ==> bounded_ledger(#[trigger] days[i]),
        0 <= pos,
        pos + ledgers_bytes(days).len() <= data.len(),
        data.subrange(pos, pos + ledgers_bytes(days).len()) == ledgers_bytes(days),
    ensures
        parse_ledgers(data, pos, days.len()) == Some(
            (days.map_values(|d: TodaysTasks| ledger_model(d)), pos + ledgers_bytes(days).len()),
        ),
    decreases days.len(),
{
    let f = |d: TodaysTasks| ledger_model(d);
    if days.len() == 0 {
        assert(days.map_values(f) =~= Seq::<LedgerModel>::empty());
    } else {
        let a = ledger_bytes(days[0]);
        let b = ledgers_bytes(days.drop_first());
        lemma_split_at(data, pos, a, b);
        lemma_parse_ledger_at(data, pos, days[0]);
        assert(forall|i: int|
            0 <= i < days.drop_first().len() ==> days.drop_first()[i] == days[i + 1]);
        lemma_parse_ledgers_at(data, pos + a.len(), days.drop_first());
        assert(seq![ledger_model(days[0])] + days.drop_first().map_values(f) =~= days.map_values(
            f,
        ));
    }
}

/// Law: the persisted form loses nothing.  Encoding a well-formed
/// state and parsing the bytes back reproduces the exact model — the
/// end-time configuration, every archived ledger, and every bucket's
/// entries with their totals.
pub proof fn lemma_settings_roundtrip(s: UserSettings)
    requires
        s.wf(),
        bounded_settings(s),
    ensures
        parse_settings(settings_bytes(s)) == Some(settings_model(s)),
{
    let data = settings_bytes(s);
    let o = opt_time_bytes(s.end_time);
    let c = u64_le_bytes(s.past_tasks@.len() as u64);
    let ls = ledgers_bytes(s.past_tasks@);
    let t = ledger_bytes(s.today);
    lemma_opt_time_bytes_len(s.end_time);
    lemma_le_bytes_len(s.past_tasks@.len() as u64 as int, 8);
    assert(data.subrange(0, data.len() as int) =~= data);
    assert(data =~= o + (c + (ls + t)));
    lemma_split_at(data, 0, o, c + (ls + t));
    lemma_parse_opt_time_at(data, 0, s.end_time);
    lemma_split_at(data, 32, c, ls + t);
    lemma_parse_u64_at(data, 32, s.past_tasks@.len() as u64);
    lemma_split_at(data, 40, ls, t);
    lemma_parse_ledgers_at(data, 40, s.past_tasks@);
    lemma_parse_ledger_at(data, 40 + ls.len() as int, s.today);
}

// Encoding: building the byte string.

fn write_u64(buf: &mut Vec<u8>, v: u64)
    ensures
        final(buf)@ == old(buf)@ + u64_le_bytes(v),
{
    let mut cur = v;
    let mut k: usize = 0;
    proof {
        lemma_le_bytes_len(v as int, 8);
    }
    while k < 8
        invariant
            k <= 8,
            old(buf)@ + le_bytes(v as int, 8) == buf@ + le_bytes(cur as int, (8 - k) as nat),
        decreases 8 - k,
    {
        let ghost pre = buf@;
        let b = (cur % 256) as u8;
        buf.push(b);
        proof {
            assert(le_bytes(cur as int, (8 - k) as nat) == seq![b] + le_bytes(
                cur as int / 256,
                (8 - k - 1) as nat,
            ));
            assert(cur as int / 256 == (cur / 256) as int);
            assert(pre + (seq![b] + le_bytes((cur / 256) as int, (8 - k - 1) as nat)) =~= (pre
                + seq![b]) + le_bytes((cur / 256) as int, (8 - k - 1) as nat));
            assert(buf@ =~= pre + seq![b]);
        }
        cur = cur / 256;
        k = k + 1;
    }
    proof {
        assert(le_bytes(cur as int, 0) =~= Seq::<u8>::empty());
        assert(buf@ + Seq::<u8>::empty() =~= buf@);
    }
}

fn write_time(buf: &mut Vec<u8>, t: &TimeOfDay)
    ensures
        final(buf)@ == old(buf)@ + time_bytes(*t),
{
    let ghost pre = buf@;
    write_u64(buf, t.hour as u64);
    write_u64(buf, t.minute as u64);
    write_u64(buf, t.second as u64);
    proof {
        assert(buf@ =~= pre + time_bytes(*t));
    }
}

fn write_opt_time(buf: &mut Vec<u8>, o: &Option<TimeOfDay>)
    ensures
        final(buf)@ == old(buf)@ + opt_time_bytes(*o),
{
    let ghost pre = buf@;
    match o {
        None => {
            write_u64(buf, 0);
            let zero = TimeOfDay { hour: 0, minute: 0, second: 0 };
            write_time(buf, &zero);
        },
        Some(t) => {
            write_u64(buf, 1);
            write_time(buf, t);
        },
    }
    proof {
        assert(buf@ =~= pre + opt_time_bytes(*o));
    }
}

fn write_date(buf: &mut Vec<u8>, d: &Date)
    ensures
        final(buf)@ == old(buf)@ + date_bytes(*d),
{
    let ghost pre = buf@;
    write_u64(buf, d.year as u64);
    write_u64(buf, d.month as u64);
    write_u64(buf, d.day as u64);
    proof {
        assert(buf@ =~= pre + date_bytes(*d));
    }
}

fn write_string(buf: &mut Vec<u8>, s: &String)
    ensures
        final(buf)@ == old(buf)@ + string_bytes(s@),
{
    let ghost pre = buf@;
    let n = s.as_str().unicode_len();
    write_u64(buf, n as u64);
    let mut i: usize = 0;
    proof {
        assert(s@.skip(0) =~= s@);
    }
    while i < n
        invariant
            i <= n,
            n == s@.len(),
            buf@ + chars_bytes(s@.skip(i as int)) == pre + string_bytes(s@),
        decreases n - i,
    {
        let ghost mid = buf@;
        let c = s.as_str().get_char(i);
        proof {
            vstd::utf8::char_is_scalar(c);
            assert((c as u32) as u64 == c as u64);
            assert(s@.skip(i as int)[0] == s@[i as int]);
            assert(s@.skip(i as int).drop_first() =~= s@.skip(i as int + 1));
            assert(chars_bytes(s@.skip(i as int)) == u64_le_bytes(s@[i as int] as u64)
                + chars_bytes(s@.skip(i as int + 1)));
        }
        write_u64(buf, (c as u32) as u64);
        proof {
            assert((mid + u64_le_bytes(c as u64)) + chars_bytes(s@.skip(i as int + 1)) =~= mid + (
            u64_le_bytes(c as u64) + chars_bytes(s@.skip(i as int + 1))));
        }
        i = i + 1;
    }
    proof {
        assert(chars_bytes(s@.skip(n as int)) =~= Seq::<u8>::empty()) by {
            assert(s@.skip(n as int) =~= Seq::<char>::empty());
        }
        assert(buf@ + Seq::<u8>::empty() =~= buf@);
    }
}

fn write_list(buf: &mut Vec<u8>, l: &crate::task::TaskList)
    ensures
        final(buf)@ == old(buf)@ + list_bytes(l.model()),
{
    let ghost pre = buf@;
    let ghost m = l.model();
    let n = l.len();
    write_u64(buf, n as u64);
    let mut i: usize = 0;
    proof {
        assert(m.skip(0) =~= m);
    }
    while i < n
        invariant
            i <= n,
            n == m.len(),
            m == l.model(),
            buf@ + entries_bytes(m.skip(i as int)) == pre + list_bytes(m),
        decreases n - i,
    {
        let ghost mid = buf@;
        let e = &l.entries[i];
        proof {
            assert(m.skip(i as int)[0] == m[i as int]);
            assert(m.skip(i as int).drop_first() =~= m.skip(i as int + 1));
            assert(entries_bytes(m.skip(i as int)) == entry_bytes(m[i as int]) + entries_bytes(
                m.skip(i as int + 1),
            ));
            assert(m[i as int] == (e.name@, e.task.minutes_spent));
        }
        write_string(buf, &e.name);
        write_u64(buf, e.task.minutes_spent);
        proof {
            assert(((mid + string_bytes(e.name@)) + u64_le_bytes(e.task.minutes_spent))
                + entries_bytes(m.skip(i as int + 1)) =~= mid + ((string_bytes(e.name@)
                + u64_le_bytes(e.task.minutes_spent)) + entries_bytes(m.skip(i as int + 1))));
        }
        i = i + 1;
    }
    proof {
        assert(entries_bytes(m.skip(n as int)) =~= Seq::<u8>::empty()) by {
            assert(m.skip(n as int) =~= Seq::<(Seq<char>, u64)>::empty());
        }
        assert(buf@ + Seq::<u8>::empty() =~= buf@);
    }
}

fn write_ledger(buf: &mut Vec<u8>, l: &TodaysTasks)
    ensures
        final(buf)@ == old(buf)@ + ledger_bytes(*l),
{
    let ghost pre = buf@;
    write_date(buf, &l.date);
    write_opt_time(buf, &l.start_time);
    write_list(buf, &l.todays_tasks);
    write_list(buf, &l.todays_chores);
    write_list(buf, &l.todays_entertainment);
    proof {
        assert(buf@ =~= pre + ledger_bytes(*l));
    }
}

/// The persisted byte string for the whole state.
pub fn encode_settings(s: &UserSettings) -> (r: Vec<u8>)
    ensures
        r@ == settings_bytes(*s),
{
    let mut buf: Vec<u8> = Vec::new();
    let ghost past = s.past_tasks@;
    write_opt_time(&mut buf, &s.end_time);
    let n = s.past_tasks.len();
    write_u64(&mut buf, n as u64);
    let ghost header = buf@;
    let mut i: usize = 0;
    proof {
        assert(past.skip(0) =~= past);
    }
    while i < n
        invariant
            i <= n,
            n == past.len(),
            past == s.past_tasks@,
            buf@ + ledgers_bytes(past.skip(i as int)) == header + ledgers_bytes(past),
        decreases n - i,
    {
        let ghost mid = buf@;
        proof {
            assert(past.skip(i as int)[0] == past[i as int]);
            assert(past.skip(i as int).drop_first() =~= past.skip(i as int + 1));
            assert(ledgers_bytes(past.skip(i as int)) == ledger_bytes(past[i as int])
                + ledgers_bytes(past.skip(i as int + 1)));
        }
        write_ledger(&mut buf, &s.past_tasks[i]);
        proof {
            assert((mid + ledger_bytes(past[i as int])) + ledgers_bytes(past.skip(i as int + 1))
                =~= mid + (ledger_bytes(past[i as int]) + ledgers_bytes(past.skip(i as int + 1))));
        }
        i = i + 1;
    }
    proof {
        assert(ledgers_bytes(past.skip(n as int)) =~= Seq::<u8>::empty()) by {
            assert(past.skip(n as int) =~= Seq::<TodaysTasks>::empty());
        }
        assert(buf@ + Seq::<u8>::empty() =~= buf@);
    }
    write_ledger(&mut buf, &s.today);
    proof {
        assert(buf@ =~= settings_bytes(*s));
    }
    buf
}

// Decoding: reading the byte string back.

pub proof fn lemma_le_value_bound(s: Seq<u8>)
    ensures
        0 <= le_value(s) < pow256(s.len()),
    decreases s.len(),
{
    if s.len() > 0 {
        lemma_le_value_bound(s.drop_first());
    }
}

pub proof fn lemma_pow256_mono(a: nat, b: nat)
    requires
        a <= b,
    ensures
        pow256(a) <= pow256(b),
    decreases b,
{
    if a < b {
        lemma_pow256_mono(a, (b - 1) as nat);
        assert(1 <= pow256(a)) by {
            lemma_pow256_pos(a);
        }
    }
}

pub proof fn lemma_pow256_pos(n: nat)
    ensures
        1 <= pow256(n),
    decreases n,
{
    if n > 0 {
        lemma_pow256_pos((n - 1) as nat);
    }
}

/// Relies on `char::from_u32`: a character comes back exactly for the
/// valid Unicode scalar values — anything below the surrogate range,
/// or between it and the last code point — and casts back to the
/// argument.
#[verifier::external_body]
fn char_from_u32(v: u32) -> (r: Option<char>)
    ensures
        (r is Some) <==> (v < 0xD800 || (0xE000 <= v && v <= 0x10FFFF)),
        r matches Some(c) ==> c as u32 == v,
{
    char::from_u32(v)
}

/// Relies on `String::push`: appends the one character to the end.
#[verifier::external_body]
fn string_push_char(s: &mut String, c: char)
    ensures
        final(s)@ == old(s)@.push(c),
{
    s.push(c);
}

fn read_u64(data: &Vec<u8>, pos: usize) -> (r: Option<(u64, usize)>)
    ensures
        r matches Some((v, p)) ==> parse_u64(data@, pos as int) == Some((v, p as int)),
        (r is None) ==> parse_u64(data@, pos as int) is None,
{
    let dlen = data.len();
    if pos > dlen || dlen - pos < 8 {
        return None;
    }
    let mut acc: u64 = 0;
    let mut j: usize = 8;
    proof {
        assert(data@.subrange(pos + 8, pos + 8) =~= Seq::<u8>::empty());
    }
    while j > 0
        invariant
            j <= 8,
            dlen == data@.len(),
            pos + 8 <= dlen,
            acc as int == le_value(data@.subrange(pos + j, pos + 8)),
        decreases j,
    {
        let b = data[pos + (j - 1)];
        proof {
            let tail = data@.subrange(pos + j, pos + 8);
            let whole = data@.subrange(pos + j - 1, pos + 8);
            assert(whole[0] == data@[pos + j - 1]);
            assert(whole.drop_first() =~= tail);
            assert(le_value(whole) == b + 256 * le_value(tail));
            lemma_le_value_bound(whole);
            lemma_pow256_mono(whole.len(), 8);
            lemma_pow256_8();
        }
        acc = b as u64 + 256 * acc;
        j = j - 1;
    }
    proof {
        lemma_le_value_bound(data@.subrange(pos as int, pos + 8));
        lemma_pow256_8();
    }
    Some((acc, pos + 8))
}

fn read_time(data: &Vec<u8>, pos: usize) -> (r: Option<(TimeOfDay, usize)>)
    ensures
        r matches Some((t, p)) ==> parse_time(data@, pos as int) == Some((t, p as int))
            && t.valid(),
        (r is None) ==> parse_time(data@, pos as int) is None,
{
    let (h, p1) = match read_u64(data, pos) {
        None => return None,
        Some(x) => x,
    };
    let (m, p2) = match read_u64(data, p1) {
        None => return None,
        Some(x) => x,
    };
    let (s, p3) = match read_u64(data, p2) {
        None => return None,
        Some(x) => x,
    };
    if h < 24 && m < 60 && s < 60 {
        Some((TimeOfDay { hour: h as u32, minute: m as u32, second: s as u32 }, p3))
    } else {
        None
    }
}

fn read_opt_time(data: &Vec<u8>, pos: usize) -> (r: Option<(Option<TimeOfDay>, usize)>)
    ensures
        r matches Some((o, p)) ==> parse_opt_time(data@, pos as int) == Some((o, p as int)) && (
        o matches Some(t) ==> t.valid()),
        (r is None) ==> parse_opt_time(data@, pos as int) is None,
{
    let (tag, p1) = match read_u64(data, pos) {
        None => return None,
        Some(x) => x,
    };
    if tag == 0 {
        if p1 <= data.len() && data.len() - p1 >= 24 {
            Some((None, p1 + 24))
        } else {
            None
        }
    } else if tag == 1 {
        match read_time(data, p1) {
            None => None,
            Some((t, p2)) => Some((Some(t), p2)),
        }
    } else {
        None
    }
}

fn read_date(data: &Vec<u8>, pos: usize) -> (r: Option<(Date, usize)>)
    ensures
        r matches Some((d, p)) ==> parse_date(data@, pos as int) == Some((d, p as int))
            && d.valid(),
        (r is None) ==> parse_date(data@, pos as int) is None,
{
    let (y, p1) = match read_u64(data, pos) {
        None => return None,
        Some(x) => x,
    };
    let (mo, p2) = match read_u64(data, p1) {
        None => return None,
        Some(x) => x,
    };
    let (d, p3) = match read_u64(data, p2) {
        None => return None,
        Some(x) => x,
    };
    if 1 <= y && y <= 9999 && 1 <= mo && mo <= 12 && 1 <= d && d <= crate::date::days_in_month_of(
        y as u32,
        mo as u32,
    ) as u64 {
        Some((Date { year: y as u32, month: mo as u32, day: d as u32 }, p3))
    } else {
        None
    }
}

fn read_string(data: &Vec<u8>, pos: usize) -> (r: Option<(String, usize)>)
    ensures
        r matches Some((s, p)) ==> (parse_string(data@, pos as int) matches Some((m, pm)) && s@
            == m && p as int == pm),
        (r is None) ==> parse_string(data@, pos as int) is None,
{
    let (n, p1) = match read_u64(data, pos) {
        None => return None,
        Some(x) => x,
    };
    let mut s = String::new();
    let mut p = p1;
    let mut k: u64 = 0;
    proof {
        match parse_chars(data@, p1 as int, n as nat) {
            None => {},
            Some((rest, pe)) => {
                assert(s@ + rest =~= rest);
            },
        }
    }
    while k < n
        invariant
            k <= n,
            p <= data@.len(),
            parse_u64(data@, pos as int) == Some((n, p1 as int)),
            parse_chars(data@, p1 as int, n as nat) == (match parse_chars(
                data@,
                p as int,
                (n - k) as nat,
            ) {
                None => None::<(Seq<char>, int)>,
                Some((rest, pe)) => Some((s@ + rest, pe)),
            }),
        decreases n - k,
    {
        let (v, p2) = match read_u64(data, p) {
            None => {
                proof {
                    assert(parse_chars(data@, p as int, (n - k) as nat) is None);
                }
                return None;
            },
            Some(x) => x,
        };
        if !(v < 0xD800 || (0xE000 <= v && v <= 0x10FFFF)) {
            proof {
                assert(!is_scalar_value(v));
                assert(parse_chars(data@, p as int, (n - k) as nat) is None);
            }
            return None;
        }
        let c = match char_from_u32(v as u32) {
            Some(c) => c,
            None => {
                proof {
                    assert(false);
                }
                return None;
            },
        };
        proof {
            vstd::utf8::char_u32_cast(c, c as u32);
            assert((v as u32) as char == c);
            let ghost rest_parse = parse_chars(data@, p2 as int, (n - k - 1) as nat);
            match rest_parse {
                None => {},
                Some((rest, pe)) => {
                    assert(s@ + (seq![c] + rest) =~= s@.push(c) + rest);
                },
            }
        }
        string_push_char(&mut s, c);
        p = p2;
        k = k + 1;
    }
    proof {
        assert(s@ + Seq::<char>::empty() =~= s@);
    }
    Some((s, p))
}

fn read_list(data: &Vec<u8>, pos: usize) -> (r: Option<(crate::task::TaskList, usize)>)
    ensures
        r matches Some((l, p)) ==> (parse_list(data@, pos as int) matches Some((m, pm))
            && l.model() == m && p as int == pm),
        (r is None) ==> parse_list(data@, pos as int) is None,
{
    let (n, p1) = match read_u64(data, pos) {
        None => return None,
        Some(x) => x,
    };
    let mut l = crate::task::TaskList { entries: Vec::new() };
    let mut p = p1;
    let mut k: u64 = 0;
    proof {
        assert(l.model() =~= Seq::<(Seq<char>, u64)>::empty());
        match parse_entries(data@, p1 as int, n as nat) {
            None => {},
            Some((rest, pe)) => {
                assert(l.model() + rest =~= rest);
            },
        }
    }
    while k < n
        invariant
            k <= n,
            p <= data@.len(),
            parse_u64(data@, pos as int) == Some((n, p1 as int)),
            parse_entries(data@, p1 as int, n as nat) == (match parse_entries(
                data@,
                p as int,
                (n - k) as nat,
            ) {
                None => None::<(Seq<(Seq<char>, u64)>, int)>,
                Some((rest, pe)) => Some((l.model() + rest, pe)),
            }),
        decreases n - k,
    {
        let (name, p2) = match read_string(data, p) {
            None => {
                proof {
                    assert(parse_entry(data@, p as int) is None);
                    assert(parse_entries(data@, p as int, (n - k) as nat) is None);
                }
                return None;
            },
            Some(x) => x,
        };
        let (minutes, p3) = match read_u64(data, p2) {
            None => {
                proof {
                    assert(parse_entry(data@, p as int) is None);
                    assert(parse_entries(data@, p as int, (n - k) as nat) is None);
                }
                return None;
            },
            Some(x) => x,
        };
        let ghost before = l.model();
        proof {
            assert(parse_entry(data@, p as int) == Some(((name@, minutes), p3 as int)));
            match parse_entries(data@, p3 as int, (n - k - 1) as nat) {
                None => {},
                Some((rest, pe)) => {
                    assert(before + (seq![(name@, minutes)] + rest) =~= before.push(
                        (name@, minutes),
                    ) + rest);
                },
            }
        }
        l.entries.push(crate::task::TaskEntry {
            name,
            task: crate::task::Task { minutes_spent: minutes },
        });
        proof {
            assert(l.model() =~= before.push((name@, minutes)));
        }
        p = p3;
        k = k + 1;
    }
    proof {
        assert(l.model() + Seq::<(Seq<char>, u64)>::empty() =~= l.model());
    }
    Some((l, p))
}

fn read_ledger(data: &Vec<u8>, pos: usize) -> (r: Option<(TodaysTasks, usize)>)
    ensures
        r matches Some((l, p)) ==> (parse_ledger(data@, pos as int) matches Some((m, pm))
            && ledger_model(l) == m && p as int == pm && l.date.valid() && (
        l.start_time matches Some(t) ==> t.valid())),
        (r is None) ==> parse_ledger(data@, pos as int) is None,
{
    let (date, p1) = match read_date(data, pos) {
        None => return None,
        Some(x) => x,
    };
    let (start_time, p2) = match read_opt_time(data, p1) {
        None => return None,
        Some(x) => x,
    };
    let (todays_tasks, p3) = match read_list(data, p2) {
        None => return None,
        Some(x) => x,
    };
    let (todays_chores, p4) = match read_list(data, p3) {
        None => return None,
        Some(x) => x,
    };
    let (todays_entertainment, p5) = match read_list(data, p4) {
        None => return None,
        Some(x) => x,
    };
    Some(
        (
            TodaysTasks { date, start_time, todays_tasks, todays_chores, todays_entertainment },
            p5,
        ),
    )
}

fn read_ledgers(data: &Vec<u8>, pos: usize, n: u64) -> (r: Option<(Vec<TodaysTasks>, usize)>)
    ensures
        r matches Some((ds, p)) ==> (parse_ledgers(data@, pos as int, n as nat) matches Some(
            (ms, pm),
        ) && ds@.map_values(|d: TodaysTasks| ledger_model(d)) == ms && p as int == pm && forall|
            i: int,
        |
            0 <= i < ds@.len() ==> (#[trigger] ds@[i]).date.valid() && (ds@[i].start_time matches
            Some(t) ==> t.valid())),
        (r is None) ==> parse_ledgers(data@, pos as int, n as nat) is None,
{
    let ghost f = |d: TodaysTasks| ledger_model(d);
    let mut ds: Vec<TodaysTasks> = Vec::new();
    let mut p = pos;
    let mut k: u64 = 0;
    proof {
        assert(ds@.map_values(f) =~= Seq::<LedgerModel>::empty());
        match parse_ledgers(data@, pos as int, n as nat) {
            None => {},
            Some((rest, pe)) => {
                assert(ds@.map_values(f) + rest =~= rest);
            },
        }
    }
    while k < n
        invariant
            k <= n,
            f == (|d: TodaysTasks| ledger_model(d)),
            forall|a: int|
                0 <= a < ds@.len() ==> (#[trigger] ds@[a]).date.valid() && (
                ds@[a].start_time matches Some(t) ==> t.valid()),
            parse_ledgers(data@, pos as int, n as nat) == (match parse_ledgers(
                data@,
                p as int,
                (n - k) as nat,
            ) {
                None => None::<(Seq<LedgerModel>, int)>,
                Some((rest, pe)) => Some((ds@.map_values(f) + rest, pe)),
            }),
        decreases n - k,
    {
        let (l, p2) = match read_ledger(data, p) {
            None => {
                proof {
                    assert(parse_ledgers(data@, p as int, (n - k) as nat) is None);
                }
                return None;
            },
            Some(x) => x,
        };
        let ghost before = ds@.map_values(f);
        proof {
            match parse_ledgers(data@, p2 as int, (n - k - 1) as nat) {
                None => {},
                Some((rest, pe)) => {
                    assert(before + (seq![ledger_model(l)] + rest) =~= before.push(
                        ledger_model(l),
                    ) + rest);
                },
            }
        }
        ds.push(l);
        proof {
            assert(ds@.map_values(f) =~= before.push(ledger_model(l)));
        }
        p = p2;
        k = k + 1;
    }
    proof {
        assert(ds@.map_values(f) + Seq::<LedgerModel>::empty() =~= ds@.map_values(f));
    }
    Some((ds, p))
}

// Validation: what a parsed model must satisfy to be a well-formed
// state.

use crate::task::{list_names_distinct, list_total, lemma_list_total_nonneg};

pub open spec fn ledger_model_wf(l: LedgerModel) -> bool {
    &&& l.0.valid()
    &&& (l.1 matches Some(t) ==> t.valid())
    &&& list_names_distinct(l.2)
    &&& list_names_distinct(l.3)
    &&& list_names_distinct(l.4)
}

pub open spec fn ledger_model_total(l: LedgerModel) -> int {
    list_total(l.2) + list_total(l.3) + list_total(l.4)
}

pub open spec fn models_total(ds: Seq<LedgerModel>) -> int
    decreases ds.len(),
{
    if ds.len() == 0 {
        0
    } else {
        ledger_model_total(ds[0]) + models_total(ds.drop_first())
    }
}

/// A parsed model that denotes a well-formed state: distinct names in
/// every bucket, distinct dates, and a grand total a counter can hold.
pub open spec fn settings_model_ok(m: SettingsModel) -> bool {
    &&& ledger_model_wf(m.2)
    &&& forall|i: int| 0 <= i < m.1.len() ==> ledger_model_wf(#[trigger] m.1[i])
    &&& forall|i: int, j: int|
        0 <= i < j < m.1.len() ==> (#[trigger] m.1[i]).0 != (#[trigger] m.1[j]).0
    &&& forall|i: int| 0 <= i < m.1.len() ==> (#[trigger] m.1[i]).0 != m.2.0
    &&& models_total(m.1) + ledger_model_total(m.2) <= u64::MAX
}

pub proof fn lemma_models_total_nonneg(ds: Seq<LedgerModel>)
    ensures
        0 <= models_total(ds),
    decreases ds.len(),
{
    if ds.len() > 0 {
        lemma_list_total_nonneg(ds[0].2);
        lemma_list_total_nonneg(ds[0].3);
        lemma_list_total_nonneg(ds[0].4);
        lemma_models_total_nonneg(ds.drop_first());
    }
}

pub proof fn lemma_models_total_split(ds: Seq<LedgerModel>, i: int)
    requires
        0 <= i < ds.len(),
    ensures
        models_total(ds.take(i + 1)) == models_total(ds.take(i)) + ledger_model_total(ds[i]),
        models_total(ds) == models_total(ds.take(i + 1)) + models_total(ds.skip(i + 1)),
{
    lemma_models_total_append(ds.take(i), seq![ds[i]]);
    assert(ds.take(i + 1) =~= ds.take(i) + seq![ds[i]]);
    assert(models_total(seq![ds[i]]) == ledger_model_total(ds[i])) by {
        assert(seq![ds[i]].drop_first() =~= Seq::<LedgerModel>::empty());
        assert(models_total(seq![ds[i]].drop_first()) == 0);
    }
    lemma_models_total_append(ds.take(i + 1), ds.skip(i + 1));
    assert(ds.take(i + 1) + ds.skip(i + 1) =~= ds);
}

pub proof fn lemma_models_total_append(a: Seq<LedgerModel>, b: Seq<LedgerModel>)
    ensures
        models_total(a + b) == models_total(a) + models_total(b),
    decreases a.len(),
{
    if a.len() == 0 {
        assert(a + b =~= b);
    } else {
        assert((a + b).drop_first() =~= a.drop_first() + b);
        lemma_models_total_append(a.drop_first(), b);
    }
}

/// The totals of a run of ledgers and of their models agree.
pub proof fn lemma_models_total_of_days(days: Seq<TodaysTasks>)
    ensures
        models_total(days.map_values(|d: TodaysTasks| ledger_model(d)))
            == crate::settings::days_total(days),
    decreases days.len(),
{
    let f = |d: TodaysTasks| ledger_model(d);
    if days.len() == 0 {
        assert(days.map_values(f) =~= Seq::<LedgerModel>::empty());
    } else {
        lemma_models_total_of_days(days.drop_first());
        assert(days.map_values(f).drop_first() =~= days.drop_first().map_values(f));
    }
}

fn check_list_distinct(l: &crate::task::TaskList) -> (r: bool)
    ensures
        r == list_names_distinct(l.model()),
{
    let ghost m = l.model();
    let n = l.len();
    let mut i: usize = 0;
    while i < n
        invariant
            i <= n,
            n == m.len(),
            m == l.model(),
            forall|a: int, b: int| 0 <= a < b < n && a < i ==> (#[trigger] m[a]).0 != (
            #[trigger] m[b]).0,
        decreases n - i,
    {
        let mut j: usize = i + 1;
        while j < n
            invariant
                i < j <= n || (i + 1 == j && j > n),
                i < n,
                n == m.len(),
                m == l.model(),
                forall|b: int| i < b < j ==> m[i as int].0 != (#[trigger] m[b]).0,
            decreases n - j,
        {
            if l.entries[i].name == l.entries[j].name {
                proof {
                    assert(m[i as int].0 == m[j as int].0);
                    if list_names_distinct(m) {
                        assert(m[i as int].0 != m[j as int].0);
                    }
                }
                return false;
            }
            j += 1;
        }
        i += 1;
    }
    true
}

fn check_ledger(l: &TodaysTasks) -> (r: bool)
    ensures
        r == (list_names_distinct(l.todays_tasks.model()) && list_names_distinct(
            l.todays_chores.model(),
        ) && list_names_distinct(l.todays_entertainment.model())),
{
    check_list_distinct(&l.todays_tasks) && check_list_distinct(&l.todays_chores)
        && check_list_distinct(&l.todays_entertainment)
}

fn checked_list_total(l: &crate::task::TaskList) -> (r: Option<u64>)
    ensures
        r matches Some(v) ==> v == list_total(l.model()),
        (r is None) ==> list_total(l.model()) > u64::MAX,
{
    let ghost m = l.model();
    let n = l.len();
    let mut acc: u64 = 0;
    let mut i: usize = 0;
    proof {
        assert(m.take(0) =~= Seq::<(Seq<char>, u64)>::empty());
    }
    while i < n
        invariant
            i <= n,
            n == m.len(),
            m == l.model(),
            acc == list_total(m.take(i as int)),
        decreases n - i,
    {
        let v = l.entries[i].task.minutes_spent;
        proof {
            assert(m.take(i as int + 1) =~= m.take(i as int) + seq![m[i as int]]);
            crate::task::lemma_list_total_append(m.take(i as int), seq![m[i as int]]);
            crate::task::lemma_list_total_singleton(m[i as int]);
        }
        if v > u64::MAX - acc {
            proof {
                assert(m.take(i as int + 1) + m.skip(i as int + 1) =~= m);
                crate::task::lemma_list_total_append(m.take(i as int + 1), m.skip(i as int + 1));
                lemma_list_total_nonneg(m.skip(i as int + 1));
            }
            return None;
        }
        acc = acc + v;
        i += 1;
    }
    proof {
        assert(m.take(n as int) =~= m);
    }
    Some(acc)
}

fn checked_ledger_total(l: &TodaysTasks) -> (r: Option<u64>)
    ensures
        r matches Some(v) ==> v == l.spec_total(),
        (r is None) ==> l.spec_total() > u64::MAX,
{
    proof {
        lemma_list_total_nonneg(l.todays_tasks.model());
        lemma_list_total_nonneg(l.todays_chores.model());
        lemma_list_total_nonneg(l.todays_entertainment.model());
    }
    let a = match checked_list_total(&l.todays_tasks) {
        None => return None,
        Some(x) => x,
    };
    let b = match checked_list_total(&l.todays_chores) {
        None => return None,
        Some(x) => x,
    };
    let c = match checked_list_total(&l.todays_entertainment) {
        None => return None,
        Some(x) => x,
    };
    if b > u64::MAX - a {
        return None;
    }
    if c > u64::MAX - (a + b) {
        return None;
    }
    Some(a + b + c)
}

/// Reads a persisted byte string back into a state.  Anything that is
/// not the exact encoding of a well-formed state — a truncated file,
/// an out-of-range field, a duplicated name or date, totals beyond
/// what a counter holds — is rejected whole rather than repaired.
pub fn decode_settings(data: &Vec<u8>) -> (r: Option<UserSettings>)
    ensures
        r matches Some(s) ==> {
            &&& s.wf()
            &&& parse_settings(data@) == Some(settings_model(s))
            &&& settings_model_ok(settings_model(s))
        },
        (r is None) ==> (match parse_settings(data@) {
            None => true,
            Some(m) => !settings_model_ok(m),
        }),
{
    let (end_time, p1) = match read_opt_time(data, 0) {
        None => return None,
        Some(x) => x,
    };
    let (n, p2) = match read_u64(data, p1) {
        None => return None,
        Some(x) => x,
    };
    let (past_tasks, p3) = match read_ledgers(data, p2, n) {
        None => return None,
        Some(x) => x,
    };
    let (today, p4) = match read_ledger(data, p3) {
        None => return None,
        Some(x) => x,
    };
    if p4 != data.len() {
        return None;
    }
    let ghost f = |d: TodaysTasks| ledger_model(d);
    let ghost m = (end_time, past_tasks@.map_values(f), ledger_model(today));
    proof {
        assert(parse_settings(data@) == Some(m));
    }
    // distinct names within every bucket
    if !check_ledger(&today) {
        return None;
    }
    let np = past_tasks.len();
    let mut i: usize = 0;
    while i < np
        invariant
            i <= np,
            np == past_tasks@.len(),
            f == (|d: TodaysTasks| ledger_model(d)),
            m.1 == past_tasks@.map_values(f),
            m.2 == ledger_model(today),
            parse_settings(data@) == Some(m),
            ledger_model_wf(m.2),
            (end_time matches Some(t) ==> t.valid()),
            forall|a: int| 0 <= a < i ==> ledger_model_wf(#[trigger] m.1[a]),
            forall|a: int| 0 <= a < past_tasks@.len() ==> (#[trigger] past_tasks@[a]).date.valid()
                && ((#[trigger] past_tasks@[a]).start_time matches Some(t) ==> t.valid()),
        decreases np - i,
    {
        proof {
            assert(m.1[i as int] == ledger_model(past_tasks@[i as int]));
        }
        if !check_ledger(&past_tasks[i]) {
            proof {
                if settings_model_ok(m) {
                    assert(ledger_model_wf(m.1[i as int]));
                }
            }
            return None;
        }
        i += 1;
    }
    // distinct dates, history and active day together
    let mut i: usize = 0;
    while i < np
        invariant
            i <= np,
            np == past_tasks@.len(),
            f == (|d: TodaysTasks| ledger_model(d)),
            m.1 == past_tasks@.map_values(f),
            m.2 == ledger_model(today),
            parse_settings(data@) == Some(m),
            ledger_model_wf(m.2),
            (end_time matches Some(t) ==> t.valid()),
            forall|a: int| 0 <= a < np ==> ledger_model_wf(#[trigger] m.1[a]),
            forall|a: int, b: int|
                0 <= a < b < np && a < i ==> (#[trigger] past_tasks@[a]).date != (
                #[trigger] past_tasks@[b]).date,
            forall|a: int| 0 <= a < i ==> (#[trigger] past_tasks@[a]).date != today.date,
        decreases np - i,
    {
        proof {
            assert(m.1[i as int] == ledger_model(past_tasks@[i as int]));
        }
        if past_tasks[i].date == today.date {
            proof {
                if settings_model_ok(m) {
                    assert(m.1[i as int].0 != m.2.0);
                }
            }
            return None;
        }
        let mut j: usize = i + 1;
        while j < np
            invariant
                i < j <= np || (i + 1 == j && j > np),
                i < np,
                np == past_tasks@.len(),
                f == (|d: TodaysTasks| ledger_model(d)),
                m.1 == past_tasks@.map_values(f),
                parse_settings(data@) == Some(m),
                forall|b: int|
                    i < b < j ==> past_tasks@[i as int].date != (#[trigger] past_tasks@[b]).date,
            decreases np - j,
        {
            if past_tasks[i].date == past_tasks[j].date {
                proof {
                    assert(m.1[i as int] == ledger_model(past_tasks@[i as int]));
                    assert(m.1[j as int] == ledger_model(past_tasks@[j as int]));
                    if settings_model_ok(m) {
                        assert(m.1[i as int].0 != m.1[j as int].0);
                    }
                }
                return None;
            }
            j += 1;
        }
        i += 1;
    }
    // the grand total must fit a counter
    let mut acc: u64 = 0;
    let mut i: usize = 0;
    proof {
        assert(m.1.take(0) =~= Seq::<LedgerModel>::empty());
    }
    while i < np
        invariant
            i <= np,
            np == past_tasks@.len(),
            f == (|d: TodaysTasks| ledger_model(d)),
            m.1 == past_tasks@.map_values(f),
            m.2 == ledger_model(today),
            parse_settings(data@) == Some(m),
            ledger_model_wf(m.2),
            (end_time matches Some(t) ==> t.valid()),
            forall|a: int| 0 <= a < np ==> ledger_model_wf(#[trigger] m.1[a]),
            forall|a: int, b: int|
                0 <= a < b < np ==> (#[trigger] past_tasks@[a]).date != (
                #[trigger] past_tasks@[b]).date,
            forall|a: int| 0 <= a < np ==> (#[trigger] past_tasks@[a]).date != today.date,
            acc == models_total(m.1.take(i as int)),
        decreases np - i,
    {
        proof {
            assert(m.1[i as int] == ledger_model(past_tasks@[i as int]));
        }
        let v = match checked_ledger_total(&past_tasks[i]) {
            None => {
                proof {
                    lemma_models_total_split(m.1, i as int);
                    lemma_models_total_nonneg(m.1.skip(i as int + 1));
                    lemma_models_total_nonneg(m.1.take(i as int));
                    lemma_list_total_nonneg(today.todays_tasks.model());
                    lemma_list_total_nonneg(today.todays_chores.model());
                    lemma_list_total_nonneg(today.todays_entertainment.model());
                    assert(models_total(m.1) + ledger_model_total(m.2) > u64::MAX);
                }
                return None;
            },
            Some(x) => x,
        };
        proof {
            lemma_models_total_split(m.1, i as int);
        }
        if v > u64::MAX - acc {
            proof {
                lemma_models_total_nonneg(m.1.skip(i as int + 1));
                lemma_list_total_nonneg(today.todays_tasks.model());
                lemma_list_total_nonneg(today.todays_chores.model());
                lemma_list_total_nonneg(today.todays_entertainment.model());
                assert(models_total(m.1) + ledger_model_total(m.2) > u64::MAX);
            }
            return None;
        }
        acc = acc + v;
        i += 1;
    }
    proof {
        assert(m.1.take(np as int) =~= m.1);
    }
    let t = match checked_ledger_total(&today) {
        None => {
            proof {
                lemma_models_total_nonneg(m.1);
            }
            return None;
        },
        Some(x) => x,
    };
    if t > u64::MAX - acc {
        proof {
            lemma_models_total_nonneg(m.1);
        }
        return None;
    }
    let s = UserSettings { end_time, today, past_tasks };
    proof {
        assert(s.spec_all_days() =~= s.past_tasks@.push(s.today));
        crate::settings::lemma_days_total_push(s.past_tasks@, s.today);
        lemma_models_total_of_days(s.past_tasks@);
        assert(settings_model(s) == m);
        assert forall|a: int| 0 <= a < s.past_tasks@.len() implies (
        #[trigger] s.past_tasks@[a]).wf() by {
            assert(m.1[a] == ledger_model(s.past_tasks@[a]));
            assert(ledger_model_wf(m.1[a]));
        }
    }
    Some(s)
}

/// Law: the persistence round trip is lossless.  Encoding a
/// well-formed state yields bytes that parse back to exactly its
/// model — every ledger total and the end-time configuration — and
/// that model passes the well-formedness checks, so decoding is owed
/// to succeed on them.
pub proof fn lemma_persistence_lossless(s: UserSettings)
    requires
        s.wf(),
        bounded_settings(s),
    ensures
        parse_settings(settings_bytes(s)) == Some(settings_model(s)),
        settings_model_ok(settings_model(s)),
{
    lemma_settings_roundtrip(s);
    let m = settings_model(s);
    let f = |d: TodaysTasks| ledger_model(d);
    assert(forall|i: int| 0 <= i < s.past_tasks@.len() ==> #[trigger] m.1[i] == ledger_model(
        s.past_tasks@[i],
    ));
    crate::settings::lemma_days_total_push(s.past_tasks@, s.today);
    lemma_models_total_of_days(s.past_tasks@);
}

} // verus!

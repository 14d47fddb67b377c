//! Datasets as tables of text: which rows are shown, what stands in their cells and the
//! line below them.
use crate::projectiles::GrenadeThrow;
use crate::text;
use crate::timeouts::Timeout;
use vstd::prelude::*;
use vstd::string::StringExecFns;

verus! {

broadcast use {vstd::string::group_string_axioms, crate::text::group_views};

/// A decimal digit.
pub open spec fn digit(d: int) -> char {
    ('0' as u32 + d) as char
}

/// A number, written in decimal.
pub open spec fn decimal(n: nat) -> Seq<char>
    decreases n,
{
    if n < 10 {
        seq![digit(n as int)]
    } else {
        decimal(n / 10).push(digit((n % 10) as int))
    }
}

/// A number, written in decimal, with a sign if it is negative.
pub open spec fn signed_decimal(n: int) -> Seq<char> {
    if n < 0 {
        "-"@ + decimal((-n) as nat)
    } else {
        decimal(n as nat)
    }
}

fn digit_text(d: u64) -> (s: &'static str)
    requires
        d < 10,
    ensures
        s@ == seq![digit(d as int)],
{
    proof {
        reveal_strlit("0");
        reveal_strlit("1");
        reveal_strlit("2");
        reveal_strlit("3");
        reveal_strlit("4");
        reveal_strlit("5");
        reveal_strlit("6");
        reveal_strlit("7");
        reveal_strlit("8");
        reveal_strlit("9");
    }
    let s = match d {
        0 => "0",
        1 => "1",
        2 => "2",
        3 => "3",
        4 => "4",
        5 => "5",
        6 => "6",
        7 => "7",
        8 => "8",
        _ => "9",
    };
    assert(s@ =~= seq![digit(d as int)]);
    s
}

/// A number, written in decimal.
pub fn write_decimal(n: u64) -> (s: String)
    ensures
        s@ == decimal(n as nat),
    decreases n,
{
    let mut s = if n < 10 {
        String::new()
    } else {
        write_decimal(n / 10)
    };
    s.append(digit_text(n % 10));
    assert(s@ =~= decimal(n as nat));
    s
}

/// A number, written in decimal, with a sign if it is negative.
pub fn write_signed(n: i32) -> (s: String)
    ensures
        s@ == signed_decimal(n as int),
{
    if n < 0 {
        let mut s = "-".to_string();
        s.append(write_decimal((-(n as i64)) as u64).as_str());
        s
    } else {
        write_decimal(n as u64)
    }
}

/// A number written in decimal reads back as that number.
pub proof fn law_decimal_reads_back(n: nat)
    ensures
        text::unsigned_value(decimal(n)) == Some(n as int),
{
    lemma_decimal(n);
    let s = decimal(n);
    assert(text::is_digit(s[0]));
}

/// A number written in decimal is digits, which write it.
proof fn lemma_decimal(n: nat)
    ensures
        text::all_digits(decimal(n)),
        text::digits_value(decimal(n)) == n,
    decreases n,
{
    let s = decimal(n);
    if n < 10 {
        assert(s.drop_last() =~= Seq::empty());
        assert(text::digits_value(s.drop_last()) == 0);
        assert(text::is_digit(s[0]));
    } else {
        lemma_decimal(n / 10);
        assert(s.drop_last() =~= decimal(n / 10));
        assert forall|i: int| 0 <= i < s.len() implies text::is_digit(#[trigger] s[i]) by {
            if i < s.len() - 1 {
                assert(s[i] == decimal(n / 10)[i]);
            }
        }
    }
}

/// How many of `total` rows a limit shows.
pub open spec fn shown(limit: Option<usize>, total: int) -> int {
    match limit {
        Some(n) => if n < total {
            n as int
        } else {
            total
        },
        None => total,
    }
}

/// How many of `total` rows a limit shows.
pub fn shown_rows(limit: Option<usize>, total: usize) -> (n: usize)
    ensures
        n == shown(limit, total as int),
        n <= total,
{
    match limit {
        Some(n) => if n < total {
            n
        } else {
            total
        },
        None => total,
    }
}

/// What the footer adds where a limit cuts rows off.
pub open spec fn cut_note(limit: Option<usize>, total: int) -> Seq<char> {
    match limit {
        Some(n) => if n < total {
            " (showing first "@ + decimal(n as nat) + ")"@
        } else {
            Seq::empty()
        },
        None => Seq::empty(),
    }
}

/// The line below a table: how many rows there are in all and, where a limit cuts some off,
/// how many are shown.
pub open spec fn footer_text(total: nat, what: Seq<char>, limit: Option<usize>) -> Seq<char> {
    decimal(total) + " "@ + what + " total"@ + cut_note(limit, total as int)
}

/// The line below a table.
pub fn footer(total: usize, what: &str, limit: Option<usize>) -> (s: String)
    ensures
        s@ == footer_text(total as nat, what@, limit),
{
    let mut s = write_decimal(total as u64);
    s.append(" ");
    s.append(what);
    s.append(" total");
    if let Some(n) = limit {
        if n < total {
            let mut note = " (showing first ".to_string();
            note.append(write_decimal(n as u64).as_str());
            note.append(")");
            s.append(note.as_str());
        }
    }
    assert(s@ =~= footer_text(total as nat, what@, limit));
    s
}

/// A text, or a sign for its absence.
pub open spec fn or_sign(t: Option<Seq<char>>, sign: Seq<char>) -> Seq<char> {
    match t {
        Some(s) => s,
        None => sign,
    }
}

fn text_or(t: &Option<String>, sign: &str) -> (s: String)
    ensures
        s@ == or_sign(text::of(*t), sign@),
{
    match t {
        Some(s) => s.clone(),
        None => sign.to_string(),
    }
}

/// The cells of a timeout's row. `length` is the countdown as it is to be shown.
pub open spec fn timeout_row_cells(t: Timeout<Seq<char>>, length: Seq<char>) -> Seq<Seq<char>> {
    seq![
        or_sign(t.side, "-"@),
        t.kind,
        signed_decimal(t.start_tick as int),
        match t.end_tick {
            Some(e) => signed_decimal(e as int),
            None => "-"@,
        },
        if t.remaining_at_start is Some {
            length
        } else {
            "-"@
        },
        signed_decimal(t.round_num as int),
    ]
}

/// The cells of a timeout's row: side, type, start, end, length and round, with a dash for
/// what there is not. `length` is the countdown as it is to be shown, if there is one.
pub fn timeout_cells(t: &Timeout, length: String) -> (cells: Vec<String>)
    ensures
        text::views(cells@) == timeout_row_cells(t@, length@),
{
    let mut cells: Vec<String> = Vec::new();
    cells.push(text_or(&t.side, "-"));
    cells.push(t.kind.clone());
    cells.push(write_signed(t.start_tick));
    cells.push(
        match t.end_tick {
            Some(e) => write_signed(e),
            None => "-".to_string(),
        },
    );
    cells.push(
        if t.remaining_at_start.is_some() {
            length
        } else {
            "-".to_string()
        },
    );
    cells.push(write_signed(t.round_num));
    assert(text::views(cells@) =~= timeout_row_cells(t@, length@));
    cells
}

/// The cells of a throw's row.
pub open spec fn throw_row_cells(t: GrenadeThrow<Seq<char>>) -> Seq<Seq<char>> {
    seq![
        signed_decimal(t.throw_tick as int),
        t.grenade_type,
        or_sign(t.thrower_name, "?"@),
        signed_decimal(t.land_tick as int),
        if t.land_is_precise {
            "true"@
        } else {
            "false"@
        },
    ]
}

/// The cells of a throw's row: throw tick, type, thrower (a question mark if unknown), land
/// tick and whether the landing is precise.
pub fn throw_cells(t: &GrenadeThrow) -> (cells: Vec<String>)
    ensures
        text::views(cells@) == throw_row_cells(t@),
{
    let mut cells: Vec<String> = Vec::new();
    cells.push(write_signed(t.throw_tick));
    cells.push(t.grenade_type.clone());
    cells.push(text_or(&t.thrower_name, "?"));
    cells.push(write_signed(t.land_tick));
    cells.push(
        if t.land_is_precise {
            "true".to_string()
        } else {
            "false".to_string()
        },
    );
    assert(text::views(cells@) =~= throw_row_cells(t@));
    cells
}

} // verus!

//! What stands in the cells of tables and in the line below them.
use crate::display;
use crate::projectiles::GrenadeThrow;
use crate::text;
use crate::timeouts::Timeout;
use vstd::prelude::*;

verus! {

/// Whether a text writes a number in decimal: it reads as the number, has no sign but the `-`
/// of a negative one, and no zero in front.
pub open spec fn writes(s: Seq<char>, n: int) -> bool {
    let digits = if n < 0 {
        s.skip(1)
    } else {
        s
    };
    &&& text::signed_value(s) == Some(n)
    &&& n < 0 ==> s.len() > 0 && s[0] == '-'
    &&& text::all_digits(digits)
    &&& digits.len() > 1 ==> digits[0] != '0'
}

proof fn lemma_digits(n: nat)
    ensures
        text::all_digits(display::decimal(n)),
        display::decimal(n).len() > 1 ==> display::decimal(n)[0] != '0',
        n > 0 ==> display::decimal(n)[0] != '0',
    decreases n,
{
    let s = display::decimal(n);
    if n < 10 {
        assert(text::is_digit(s[0]));
    } else {
        lemma_digits(n / 10);
        let init = display::decimal(n / 10);
        assert forall|i: int| 0 <= i < s.len() implies text::is_digit(#[trigger] s[i]) by {
            if i < s.len() - 1 {
                assert(s[i] == init[i]);
            }
        }
        assert(s[0] == init[0]);
    }
}

/// Numbers are written in decimal, with a sign if they are negative.
pub proof fn law_numbers_are_written(n: int)
    ensures
        writes(display::signed_decimal(n), n),
        n >= 0 ==> writes(display::decimal(n as nat), n),
{
    reveal_strlit("-");
    if n >= 0 {
        lemma_digits(n as nat);
        display::law_decimal_reads_back(n as nat);
        assert(text::is_digit(display::decimal(n as nat)[0]));
    } else {
        let m = (-n) as nat;
        lemma_digits(m);
        display::law_decimal_reads_back(m);
        let s = display::signed_decimal(n);
        assert(s.skip(1) =~= display::decimal(m));
        assert(text::is_digit(display::decimal(m)[0]));
        assert(text::digits_value(display::decimal(m)) == m);
    }
}

/// A limit shows as many rows as it says, and all where there are no more than that; without a
/// limit all are shown.
pub proof fn law_limits_show(limit: Option<usize>, total: int)
    ensures
        limit is None ==> display::shown(limit, total) == total,
        limit is Some && limit->0 <= total ==> display::shown(limit, total) == limit->0,
        limit is Some && limit->0 >= total ==> display::shown(limit, total) == total,
{
}

/// The line below a table says how many rows there are in all, and says how many are shown
/// exactly where a limit cuts some off.
pub proof fn law_footer(total: nat, what: Seq<char>, limit: Option<usize>)
    ensures
        exists|all: Seq<char>| #[trigger]
            writes(all, total as int) && {
                let line = all + " "@ + what + " total"@;
                let footer = display::footer_text(total, what, limit);
                &&& (limit is None || limit->0 >= total) ==> footer == line
                &&& limit is Some && limit->0 < total ==> exists|part: Seq<char>| #[trigger]
                    writes(part, limit->0 as int) && footer == line + (" (showing first "@ + part
                        + ")"@)
            },
{
    law_numbers_are_written(total as int);
    let all = display::decimal(total);
    assert(writes(all, total as int));
    let line = all + " "@ + what + " total"@;
    assert(line + Seq::<char>::empty() =~= line);
    if limit is Some && limit->0 < total {
        law_numbers_are_written(limit->0 as int);
        assert(writes(display::decimal(limit->0 as nat), limit->0 as int));
    }
}

/// Whether a cell shows an optional text, or a sign where there is none.
pub open spec fn shows_text(cell: Seq<char>, t: Option<Seq<char>>, sign: Seq<char>) -> bool {
    &&& t is Some ==> cell == t->0
    &&& t is None ==> cell == sign
}

/// The row of a timeout shows side, kind, start, end, length and round, in this order, with a
/// dash for what there is not.
pub proof fn law_timeout_cells(t: Timeout<Seq<char>>, length: Seq<char>)
    ensures
        ({
            let cells = display::timeout_row_cells(t, length);
            &&& cells.len() == 6
            &&& shows_text(cells[0], t.side, "-"@)
            &&& cells[1] == t.kind
            &&& writes(cells[2], t.start_tick as int)
            &&& t.end_tick is Some ==> writes(cells[3], t.end_tick->0 as int)
            &&& t.end_tick is None ==> cells[3] == "-"@
            &&& t.remaining_at_start is Some ==> cells[4] == length
            &&& t.remaining_at_start is None ==> cells[4] == "-"@
            &&& writes(cells[5], t.round_num as int)
        }),
{
    law_numbers_are_written(t.start_tick as int);
    law_numbers_are_written(t.round_num as int);
    if t.end_tick is Some {
        law_numbers_are_written(t.end_tick->0 as int);
    }
}

/// The row of a throw shows throw tick, type, thrower, land tick and whether the landing is
/// precise, in this order, with a question mark for an unknown thrower.
pub proof fn law_throw_cells(t: GrenadeThrow<Seq<char>>)
    ensures
        ({
            let cells = display::throw_row_cells(t);
            &&& cells.len() == 5
            &&& writes(cells[0], t.throw_tick as int)
            &&& cells[1] == t.grenade_type
            &&& shows_text(cells[2], t.thrower_name, "?"@)
            &&& writes(cells[3], t.land_tick as int)
            &&& t.land_is_precise ==> cells[4] == "true"@
            &&& !t.land_is_precise ==> cells[4] == "false"@
        }),
{
    law_numbers_are_written(t.throw_tick as int);
    law_numbers_are_written(t.land_tick as int);
}

} // verus!

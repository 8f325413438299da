//! What the written script and location hints say.

use vstd::arithmetic::div_mod::lemma_div_denominator;
use vstd::arithmetic::power2::lemma2_to64;
use vstd::arithmetic::power2::lemma_pow2_pos;
use vstd::arithmetic::power2::lemma_pow2_unfold;
use vstd::arithmetic::power2::pow2;
use vstd::prelude::*;

use crate::cells::CellModel;
use crate::design::clock_lines;
use crate::design::clock_script;
use crate::design::clocks_are_usable;
use crate::design::hex_digit;
use crate::design::hinted;
use crate::design::json_char;
use crate::design::json_chars;
use crate::design::json_string;
use crate::json::binary_text;
use crate::json::parameter_text;
use crate::json::word_digits;
use crate::json::word_value;
use crate::json::JsonCellModel;
use crate::names::law_read_after_set;
use crate::names::law_with_entry_keeps_order;
use crate::names::named;
use crate::names::names_ordered;
use crate::names::with_entry;
use crate::netlist::ClockModel;
use crate::physical::bel_of;
use crate::physical::digit_value;
use crate::physical::PhysicalFeedback;
use crate::refine::bel_fits;
use crate::refine::block_hints;
use crate::refine::is_hard_block;
use crate::shown::is_box;
use crate::text::decimal_text;
use crate::text::digit_char;
use crate::written::digit_at;
use crate::written::law_numerals_hold_digits;

verus! {

proof fn lemma_digits(n: nat, tail: Seq<char>)
    requires
        n <= u64::MAX,
    ensures
        word_digits(decimal_text(n) + tail, 0, 0) == word_digits(
            decimal_text(n) + tail,
            decimal_text(n).len() as int,
            n,
        ),
        '0' <= decimal_text(n)[0] <= '9',
        decimal_text(n).len() > 0,
    decreases n,
{
    let text = decimal_text(n) + tail;
    if n < 10 {
        assert(text[0] == digit_char(n));
        assert(digit_value(text[0]) == Some(n as int));
    } else {
        let last = digit_char(n % 10);
        let front = decimal_text(n / 10);
        let rest = seq![last] + tail;
        lemma_digits(n / 10, rest);
        assert(text =~= front + rest);
        assert(text[front.len() as int] == last);
        assert(digit_value(last) == Some((n % 10) as int));
    }
}

/// A decimal numeral reads back as its number.
pub proof fn law_numerals_read_back(n: nat)
    requires
        n <= u64::MAX,
    ensures
        word_value(decimal_text(n)) == Some(n),
{
    lemma_digits(n, seq![]);
    assert(decimal_text(n) + Seq::<char>::empty() =~= decimal_text(n));
}

/// A parameter that is a number is written as sixty-four binary digits, and one that is
/// not stays as it is.
pub proof fn law_parameters_are_written_in_binary(n: nat, text: Seq<char>, k: nat)
    requires
        n <= u64::MAX,
        word_value(text) is None,
        k < 64,
    ensures
        parameter_text(decimal_text(n)).len() == 64,
        digit_at(parameter_text(decimal_text(n)), k as int) == ((n / pow2(k)) % 2 == 1),
        parameter_text(text) == text,
{
    law_numerals_read_back(n);
    lemma_binary_digit(n, 64, k);
}

proof fn lemma_binary_digit(n: nat, width: nat, k: nat)
    requires
        k < width,
    ensures
        binary_text(n, width).len() == width,
        digit_at(binary_text(n, width), k as int) == ((n / pow2(k)) % 2 == 1),
    decreases k,
{
    law_numerals_hold_digits(n, width, k);
    if k == 0 {
        lemma2_to64();
    } else {
        lemma_binary_digit(n / 2, (width - 1) as nat, (k - 1) as nat);
        lemma_pow2_unfold(k);
        lemma_pow2_pos((k - 1) as nat);
        lemma_div_denominator(n as int, 2, pow2((k - 1) as nat) as int);
    }
}

/// The text between the quotation marks of a JSON string, from `from` on, with escapes
/// read as the characters they stand for.
pub open spec fn unescaped(text: Seq<char>, from: int) -> Seq<char>
    decreases text.len() - from,
{
    if from < 0 || from >= text.len() {
        seq![]
    } else if text[from] == '\\' && from + 1 < text.len() {
        let c = text[from + 1];
        if c == 'u' && from + 5 < text.len() {
            seq![
                code_char(hex_value(text[from + 4]) * 16 + hex_value(text[from + 5])),
            ] + unescaped(text, from + 6)
        } else {
            seq![
                if c == 'b' {
                    code_char(8)
                } else if c == 't' {
                    code_char(9)
                } else if c == 'n' {
                    code_char(10)
                } else if c == 'f' {
                    code_char(12)
                } else if c == 'r' {
                    code_char(13)
                } else {
                    c
                },
            ] + unescaped(text, from + 2)
        }
    } else {
        seq![text[from]] + unescaped(text, from + 1)
    }
}

/// The character of a code.
pub open spec fn code_char(code: int) -> char {
    choose|c: char| #[trigger] has_code(c, code)
}

/// Whether a character has a code.
pub open spec fn has_code(c: char, code: int) -> bool {
    c as u32 == code
}

/// The value of a hexadecimal digit in lower case.
pub open spec fn hex_value(c: char) -> int {
    if '0' <= c && c <= '9' {
        c as u32 - '0' as u32
    } else {
        c as u32 - 'a' as u32 + 10
    }
}

proof fn lemma_hex(value: nat)
    requires
        value < 16,
    ensures
        hex_value(hex_digit(value)) == value,
{
}

proof fn lemma_code(c: char)
    ensures
        code_char(c as u32 as int) == c,
{
    let chosen = code_char(c as u32 as int);
    assert(has_code(c, c as u32 as int));
    assert(has_code(chosen, c as u32 as int));
}

proof fn lemma_unescaped(text: Seq<char>, tail: Seq<char>)
    ensures
        unescaped(json_chars(text) + tail, 0) == text + unescaped(
            json_chars(text) + tail,
            json_chars(text).len() as int,
        ),
    decreases text.len(),
{
    let all = json_chars(text) + tail;
    if text.len() == 0 {
        assert(text + unescaped(all, 0) =~= unescaped(all, 0));
    } else {
        let front = text.drop_last();
        let c = text.last();
        let escape = json_char(c);
        lemma_unescaped(front, escape + tail);
        assert(all =~= json_chars(front) + (escape + tail));
        let at = json_chars(front).len() as int;
        assert forall|k: int| 0 <= k < escape.len() implies all[at + k] == #[trigger] escape[k] by {}
        let later = unescaped(all, at + escape.len());
        assert(unescaped(all, at) =~= seq![c] + later) by {
            lemma_code(c);
            assert(all[at] == escape[0]);
            if escape.len() > 1 {
                assert(all[at + 1] == escape[1]);
            }
            if escape.len() == 6 {
                assert(all[at + 4] == escape[4]);
                assert(all[at + 5] == escape[5]);
                lemma_hex(c as u32 as nat / 16);
                lemma_hex(c as u32 as nat % 16);
            }
        }
        assert(front + (seq![c] + later) =~= text + later);
    }
}

/// A quoted text reads back as the text.
pub proof fn law_quoted_text_reads_back(text: Seq<char>)
    ensures
        ({
            let quoted = json_string(text);
            &&& quoted.len() >= 2
            &&& quoted[0] == '"'
            &&& quoted[quoted.len() - 1] == '"'
            &&& unescaped(quoted.subrange(1, quoted.len() - 1), 0) == text
        }),
{
    let quoted = json_string(text);
    assert(quoted.subrange(1, quoted.len() - 1) =~= json_chars(text));
    lemma_unescaped(text, seq![]);
    assert(json_chars(text) + Seq::<char>::empty() =~= json_chars(text));
    assert(text + Seq::<char>::empty() =~= text);
}

/// Whether a script has a line that gives the net `net` the frequency of a period of
/// `time_ps`: `ctx.addClock` on the quoted net, with a million divided by the numeral.
pub open spec fn has_clock_line(script: Seq<char>, net: Seq<char>, time_ps: nat) -> bool {
    exists|front: Seq<char>, quoted: Seq<char>, numeral: Seq<char>, back: Seq<char>|
        #![trigger clock_line(front, quoted, numeral, back)]
        {
            &&& script == clock_line(front, quoted, numeral, back)
            &&& front.len() == 0 || front.last() == '\n'
            &&& quoted.len() >= 2
            &&& unescaped(quoted.subrange(1, quoted.len() - 1), 0) == net
            &&& word_value(numeral) == Some(time_ps)
        }
}

/// A script with a line that constrains a clock.
pub open spec fn clock_line(
    front: Seq<char>,
    quoted: Seq<char>,
    numeral: Seq<char>,
    back: Seq<char>,
) -> Seq<char> {
    front + "ctx.addClock("@ + quoted + ", 1000000.0 / "@ + numeral + ")\n"@ + back
}

/// The script constrains every clock: the net of the clock gets the frequency of its
/// period less its uncertainty.
pub proof fn law_script_constrains_clocks(clocks: Seq<ClockModel>, count: nat, c: int)
    requires
        clocks_are_usable(clocks),
        count <= clocks.len(),
        0 <= c < count,
    ensures
        has_clock_line(
            clock_script(clocks, count),
            clocks[c].net_name,
            (clocks[c].period_ps - clocks[c].uncertainty_ps) as nat,
        ),
    decreases count,
{
    let last = (count - 1) as nat;
    let rest = clock_script(clocks, last);
    let script = clock_script(clocks, count);
    let clock = clocks[last as int];
    let name = json_string(clock.name);
    let net = json_string(clock.net_name);
    let lines = clock_lines(name, net, clock.period_ps, clock.uncertainty_ps);
    if c < last {
        law_script_constrains_clocks(clocks, last, c);
        let (front, quoted, numeral, back) = choose|
            front: Seq<char>,
            quoted: Seq<char>,
            numeral: Seq<char>,
            back: Seq<char>,
        |
            #![trigger clock_line(front, quoted, numeral, back)]
            {
                &&& rest == clock_line(front, quoted, numeral, back)
                &&& front.len() == 0 || front.last() == '\n'
                &&& quoted.len() >= 2
                &&& unescaped(quoted.subrange(1, quoted.len() - 1), 0) == clocks[c].net_name
                &&& word_value(numeral) == Some(
                    (clocks[c].period_ps - clocks[c].uncertainty_ps) as nat,
                )
            };
        assert(script =~= clock_line(front, quoted, numeral, back + lines));
    } else {
        assert(clock.uncertainty_ps <= clock.period_ps);
        let time = (clock.period_ps - clock.uncertainty_ps) as nat;
        law_quoted_text_reads_back(clock.net_name);
        law_numerals_read_back(time);
        reveal_strlit(" ps, uncertainty ");
        reveal_strlit(" ps\nctx.addClock(");
        reveal_strlit(" ps\n");
        reveal_strlit("ctx.addClock(");
        assert(" ps\nctx.addClock("@ =~= " ps\n"@ + "ctx.addClock("@);
        let front = rest + "# clock "@ + name + ": period "@ + decimal_text(
            clock.period_ps as nat,
        ) + " ps, uncertainty "@ + decimal_text(clock.uncertainty_ps as nat) + " ps\n"@;
        assert(front.last() == " ps\n"@[3]);
        assert(script =~= clock_line(front, net, decimal_text(time), seq![]));
    }
}

/// Hard blocks that keep their place get a hint: a name is hinted exactly where the last
/// hard block of that name whose reported location fits it has one, and the hint is that
/// location.
pub proof fn law_hints_keep_hard_blocks(
    cells: Seq<CellModel>,
    feedback: PhysicalFeedback,
    count: nat,
    name: Seq<char>,
)
    requires
        count <= cells.len(),
    ensures
        names_ordered(block_hints(cells, feedback, count)),
        named(block_hints(cells, feedback, count), name) matches Some(bel) ==> bel_of(
            feedback,
            name,
        ) == Some(bel) && exists|i: int|
            0 <= i < count && (#[trigger] cells[i]).cell_name() == name && is_box(cells[i])
                && bel_fits(cells[i], bel),
        forall|i: int|
            0 <= i < count && (#[trigger] cells[i]).cell_name() == name && is_box(cells[i]) && (
            bel_of(feedback, name) matches Some(bel) && bel_fits(cells[i], bel)) ==> named(
                block_hints(cells, feedback, count),
                name,
            ) == bel_of(feedback, name),
    decreases count,
{
    if count > 0 {
        let last = (count - 1) as nat;
        law_hints_keep_hard_blocks(cells, feedback, last, name);
        let rest = block_hints(cells, feedback, last);
        let cell = cells[last as int];
        if let Some(bel) = bel_of(feedback, cell.cell_name()) {
            if is_hard_block(cell) && bel_fits(cell, bel) {
                law_with_entry_keeps_order(rest, cell.cell_name(), bel);
                law_read_after_set(rest, cell.cell_name(), bel, name);
            }
        }
        if let Some(bel) = named(rest, name) {
            let i = choose|i: int|
                0 <= i < last && (#[trigger] cells[i]).cell_name() == name && is_box(cells[i])
                    && bel_fits(cells[i], bel);
            assert(cells[i].cell_name() == name);
        }
    }
}

/// A hinted cell is written with its location; a cell without a hint has the attributes
/// of its primitive.
pub proof fn law_hints_are_written(
    cell: JsonCellModel,
    hints: Seq<(Seq<char>, Seq<char>)>,
    name: Seq<char>,
)
    requires
        names_ordered(cell.attributes),
    ensures
        named(hints, name) matches Some(bel) ==> named(
            hinted(cell, hints, name).attributes,
            "NEXTPNR_BEL"@,
        ) == Some(bel),
        named(hints, name) is None ==> hinted(cell, hints, name) == cell,
{
    if let Some(bel) = named(hints, name) {
        let one = with_entry(cell.attributes, "NEXTPNR_BEL"@, bel);
        law_with_entry_keeps_order(cell.attributes, "NEXTPNR_BEL"@, bel);
        law_read_after_set(cell.attributes, "NEXTPNR_BEL"@, bel, "NEXTPNR_BEL"@);
        law_read_after_set(one, "BEL_STRENGTH"@, binary_text(1, 32), "NEXTPNR_BEL"@);
        assert("NEXTPNR_BEL"@ != "BEL_STRENGTH"@) by {
            reveal_strlit("NEXTPNR_BEL");
            reveal_strlit("BEL_STRENGTH");
            assert("NEXTPNR_BEL"@[0] == 'N');
            assert("BEL_STRENGTH"@[0] == 'B');
        }
    }
}

} // verus!

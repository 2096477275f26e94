//! What a trace line says: its fields, between bars, and the bits of its numbers.

use vstd::prelude::*;
use crate::dcalc::{Alg, DmpView};
use crate::delays;
use crate::float32::F32;
use crate::float64::F64;
use crate::liberty::{ArcView, RISE};
use crate::parasitics::PiElmoreView;
use crate::text;

verus! {

/// Fields with a bar between each two.
pub open spec fn joined(fields: Seq<Seq<char>>) -> Seq<char>
    decreases fields.len(),
{
    if fields.len() == 0 {
        Seq::empty()
    } else if fields.len() == 1 {
        fields[0]
    } else {
        joined(fields.drop_last()) + seq!['|'] + fields.last()
    }
}

proof fn lemma_one_more_field(fields: Seq<Seq<char>>, next: Seq<char>)
    requires
        fields.len() > 0,
    ensures
        joined(fields.push(next)) == joined(fields) + seq!['|'] + next,
{
    assert(fields.push(next).drop_last() =~= fields);
}

/// What a hexadecimal digit stands for.
pub open spec fn digit_value(c: char) -> int {
    if '0' <= c <= '9' {
        c as int - '0' as int
    } else {
        c as int - 'a' as int + 10
    }
}

/// What hexadecimal digits stand for, the first the highest.
pub open spec fn read_hex(s: Seq<char>) -> int
    decreases s.len(),
{
    if s.len() == 0 {
        0
    } else {
        16 * read_hex(s.drop_last()) + digit_value(s.last())
    }
}

/// How many numbers so many hexadecimal digits can tell apart.
pub open spec fn hex_range(width: nat) -> nat
    decreases width,
{
    if width == 0 {
        1
    } else {
        16 * hex_range((width - 1) as nat)
    }
}

/// A number written in as many hexadecimal digits as it needs, or more, reads back.
pub proof fn lemma_hex_reads_back(n: nat, width: nat)
    requires
        n < hex_range(width),
    ensures
        text::hex(n, width).len() == width,
        read_hex(text::hex(n, width)) == n,
    decreases width,
{
    if width > 0 {
        let less = (width - 1) as nat;
        assert(n / 16 < hex_range(less)) by (nonlinear_arith)
            requires
                n < 16 * hex_range(less),
        ;
        lemma_hex_reads_back(n / 16, less);
        let s = text::hex(n, width);
        assert(s.drop_last() =~= text::hex(n / 16, less));
        assert(s.last() == text::hex_char(n % 16));
        assert(digit_value(text::hex_char(n % 16)) == n % 16);
    }
}

proof fn lemma_ranges()
    ensures
        hex_range(8) == 0x1_0000_0000,
        hex_range(16) == 0x1_0000_0000_0000_0000,
{
    reveal_with_fuel(hex_range, 17);
}

/// The eight hexadecimal digits of a single precision number are its bits, and the sixteen of a double
/// precision number its.
pub proof fn lemma_digits_are_bits(x: F32, y: F64)
    ensures
        delays::hex32(x).len() == 8,
        read_hex(delays::hex32(x)) == x.0,
        delays::hex64(y).len() == 16,
        read_hex(delays::hex64(y)) == y.0,
{
    lemma_ranges();
    lemma_hex_reads_back(x.0 as nat, 8);
    lemma_hex_reads_back(y.0 as nat, 16);
}

/// The name of an algorithm in a trace.
pub open spec fn algorithm_name(a: Alg) -> Seq<char> {
    match a {
        Alg::Cap => seq!['c', 'a', 'p'],
        Alg::Pi => seq!['P', 'i'],
        Alg::ZeroC2 => seq!['c', '2', '=', '0'],
    }
}

/// The mark of a transition in a trace: up or down.
pub open spec fn mark(rf: nat) -> char {
    if rf == RISE {
        '^'
    } else {
        'v'
    }
}

/// The line of a gate's delay has these fields: what it is, the driver, the transitions, the input
/// slew, the pi model from its near capacitance to its far one, the algorithm, the driver's
/// resistance, the ramp it was given, the effective capacitance, whether a waveform was found, the
/// delay and the slew.
pub proof fn lemma_fields_of_a_gate_line(
    name: Seq<char>,
    arc: ArcView,
    in_slew: F32,
    p: PiElmoreView,
    d: DmpView,
    delay: F64,
    slew: F64,
)
    ensures
        delays::gate_line(name, arc, in_slew, p, d, delay, slew) == joined(
            seq![
                seq!['d', 'c', 'a', 'l', 'c'],
                seq!['g', 'a', 't', 'e'],
                name,
                seq![mark(arc.from_rf), mark(arc.to_rf)],
                delays::hex32(in_slew),
                delays::hex32(p.c2),
                delays::hex32(p.rpi),
                delays::hex32(p.c1),
                algorithm_name(d.alg),
                delays::hex64(d.rd),
                delays::hex64(d.t0),
                delays::hex64(d.dt),
                delays::hex64(d.ceff),
                seq![
                    if d.driver_valid {
                        '1'
                    } else {
                        '0'
                    },
                ],
                delays::hex64(delay),
                delays::hex64(slew),
            ],
        ),
{
    reveal_strlit("dcalc|gate|");
    reveal_strlit("|");
    reveal_strlit("^");
    reveal_strlit("v");
    reveal_strlit("1");
    reveal_strlit("0");
    reveal_strlit("cap");
    reveal_strlit("Pi");
    reveal_strlit("c2=0");
    let bar = "|"@;
    assert(bar =~= seq!['|']);
    let part2 = seq![seq!['d', 'c', 'a', 'l', 'c'], seq!['g', 'a', 't', 'e']];
    lemma_one_more_field(seq![seq!['d', 'c', 'a', 'l', 'c']], seq!['g', 'a', 't', 'e']);
    assert(seq![seq!['d', 'c', 'a', 'l', 'c']].push(seq!['g', 'a', 't', 'e']) =~= part2);
    assert(joined(seq![seq!['d', 'c', 'a', 'l', 'c']]) =~= seq!['d', 'c', 'a', 'l', 'c']);
    assert(joined(part2) + bar =~= "dcalc|gate|"@);
    let part3 = part2.push(name);
    lemma_one_more_field(part2, name);
    let marks = seq![mark(arc.from_rf), mark(arc.to_rf)];
    assert(delays::edge_mark(arc.from_rf) + delays::edge_mark(arc.to_rf) =~= marks);
    let part4 = part3.push(marks);
    lemma_one_more_field(part3, marks);
    assert(joined(part3) + bar + delays::edge_mark(arc.from_rf) + delays::edge_mark(arc.to_rf) =~= joined(part4));
    let part5 = part4.push(delays::hex32(in_slew));
    lemma_one_more_field(part4, delays::hex32(in_slew));
    let part6 = part5.push(delays::hex32(p.c2));
    lemma_one_more_field(part5, delays::hex32(p.c2));
    let part7 = part6.push(delays::hex32(p.rpi));
    lemma_one_more_field(part6, delays::hex32(p.rpi));
    let part8 = part7.push(delays::hex32(p.c1));
    lemma_one_more_field(part7, delays::hex32(p.c1));
    assert(delays::alg_name(d.alg) =~= algorithm_name(d.alg));
    let part9 = part8.push(algorithm_name(d.alg));
    lemma_one_more_field(part8, algorithm_name(d.alg));
    let part10 = part9.push(delays::hex64(d.rd));
    lemma_one_more_field(part9, delays::hex64(d.rd));
    let part11 = part10.push(delays::hex64(d.t0));
    lemma_one_more_field(part10, delays::hex64(d.t0));
    let part12 = part11.push(delays::hex64(d.dt));
    lemma_one_more_field(part11, delays::hex64(d.dt));
    let part13 = part12.push(delays::hex64(d.ceff));
    lemma_one_more_field(part12, delays::hex64(d.ceff));
    let valid = seq![
        if d.driver_valid {
            '1'
        } else {
            '0'
        },
    ];
    let word = if d.driver_valid {
        "1"@
    } else {
        "0"@
    };
    assert(word =~= valid);
    let part14 = part13.push(valid);
    lemma_one_more_field(part13, valid);
    let part15 = part14.push(delays::hex64(delay));
    lemma_one_more_field(part14, delays::hex64(delay));
    let part16 = part15.push(delays::hex64(slew));
    lemma_one_more_field(part15, delays::hex64(slew));
    assert(part16 =~= seq![
        seq!['d', 'c', 'a', 'l', 'c'],
        seq!['g', 'a', 't', 'e'],
        name,
        marks,
        delays::hex32(in_slew),
        delays::hex32(p.c2),
        delays::hex32(p.rpi),
        delays::hex32(p.c1),
        algorithm_name(d.alg),
        delays::hex64(d.rd),
        delays::hex64(d.t0),
        delays::hex64(d.dt),
        delays::hex64(d.ceff),
        valid,
        delays::hex64(delay),
        delays::hex64(slew),
    ]);
}

/// The line of a load's delay has these fields: what it is, the driver, the load, the wire delay and
/// the slew.
pub proof fn lemma_fields_of_a_load_line(driver: Seq<char>, load: Seq<char>, delay: F64, slew: F64)
    ensures
        delays::load_line(driver, load, delay, slew) == joined(
            seq![
                seq!['d', 'c', 'a', 'l', 'c'],
                seq!['l', 'o', 'a', 'd'],
                driver,
                load,
                delays::hex64(delay),
                delays::hex64(slew),
            ],
        ),
{
    reveal_strlit("dcalc|load|");
    reveal_strlit("|");
    let bar = "|"@;
    assert(bar =~= seq!['|']);
    let part2 = seq![seq!['d', 'c', 'a', 'l', 'c'], seq!['l', 'o', 'a', 'd']];
    lemma_one_more_field(seq![seq!['d', 'c', 'a', 'l', 'c']], seq!['l', 'o', 'a', 'd']);
    assert(seq![seq!['d', 'c', 'a', 'l', 'c']].push(seq!['l', 'o', 'a', 'd']) =~= part2);
    assert(joined(seq![seq!['d', 'c', 'a', 'l', 'c']]) =~= seq!['d', 'c', 'a', 'l', 'c']);
    assert(joined(part2) + bar =~= "dcalc|load|"@);
    let part3 = part2.push(driver);
    lemma_one_more_field(part2, driver);
    let part4 = part3.push(load);
    lemma_one_more_field(part3, load);
    let part5 = part4.push(delays::hex64(delay));
    lemma_one_more_field(part4, delays::hex64(delay));
    let part6 = part5.push(delays::hex64(slew));
    lemma_one_more_field(part5, delays::hex64(slew));
    assert(part6 =~= seq![
        seq!['d', 'c', 'a', 'l', 'c'],
        seq!['l', 'o', 'a', 'd'],
        driver,
        load,
        delays::hex64(delay),
        delays::hex64(slew),
    ]);
}

} // verus!

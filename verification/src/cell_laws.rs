//! What a cell's pins and timing groups say: directions, default capacitances, the transitions that a
//! sense lets through, and the units a library counts in.

use vstd::prelude::*;
use vstd::arithmetic::power2::{lemma2_to64, lemma2_to64_rest, lemma_pow2_adds, lemma_pow2_pos, pow2};
use crate::float32::F32;
use crate::liberty;
use crate::liberty::{ArcView, Direction, HeaderView, Role, TimingView};
use crate::liberty_laws;
use crate::liberty_parse::{GroupView, ValueView};

verus! {

/// A pin without a capacitance of its own has the default of its direction: an input that of inputs,
/// an output that of outputs, one that is both that of its own, and any other none.
pub proof fn lemma_default_capacitance(h: HeaderView, pg: GroupView, rf: int, mm: int)
    requires
        0 <= rf < 2,
        0 <= mm < 2,
        !liberty_laws::has_range(pg, rf, mm),
        pg.attr_float(liberty_laws::cap_name(rf)) is None,
        pg.attr_float("capacitance"@) is None,
    ensures
        ({
            let cap = liberty_laws::read_cap(h, pg, rf, mm);
            match pg.attr_text("direction"@) {
                None => cap == F32(0),
                Some(d) => {
                    &&& d == "input"@ ==> cap == h.default_input_pin_cap
                    &&& d == "output"@ ==> cap == h.default_output_pin_cap
                    &&& d == "inout"@ ==> cap == h.default_bidirect_pin_cap
                    &&& d != "input"@ && d != "output"@ && d != "inout"@ ==> cap == F32(0)
                },
            }
        }),
{
    liberty_laws::lemma_cap_names(rf);
    reveal_strlit("input");
    reveal_strlit("output");
    reveal_strlit("inout");
    assert("input"@.len() == 5 && "output"@.len() == 6);
    assert("input"@[2] == 'p' && "inout"@[2] == 'o');
}

/// The attribute that gives a transition's least and greatest capacitance.
pub open spec fn range_name(rf: int) -> Seq<char> {
    if rf == 0 {
        "rise_capacitance_range"@
    } else {
        "fall_capacitance_range"@
    }
}

/// A range gives a transition its least capacitance for min and its greatest for max, before any other
/// attribute.
pub proof fn lemma_capacitance_range(h: HeaderView, pg: GroupView, rf: int, mm: int, v: Seq<ValueView>, x: F32)
    requires
        0 <= rf < 2,
        0 <= mm < 2,
        pg.complex_attr(range_name(rf)) == Some(v),
        v.len() == 2,
        v[mm].float() == Some(x),
    ensures
        liberty_laws::read_cap(h, pg, rf, mm) == x * h.cap_scale,
{
    reveal_strlit("rise");
    reveal_strlit("fall");
    reveal_strlit("_capacitance_range");
    reveal_strlit("rise_capacitance_range");
    reveal_strlit("fall_capacitance_range");
    assert("rise"@ + "_capacitance_range"@ =~= "rise_capacitance_range"@);
    assert("fall"@ + "_capacitance_range"@ =~= "fall_capacitance_range"@);
}

/// A pin's direction and whether it is a clock are read from the attributes of their names, and
/// neither changes the other.
pub proof fn lemma_direction_and_clock_are_read(h: HeaderView, pg: GroupView, s: Seq<char>)
    ensures
        ({
            let p = liberty::port_of(h, Seq::empty(), pg);
            let d = liberty::port_of(
                h,
                Seq::empty(),
                liberty_laws::with_attribute(pg, "direction"@, ValueView::Str(s)),
            );
            let c = liberty::port_of(h, Seq::empty(), liberty_laws::with_attribute(pg, "clock"@, ValueView::Str(s)));
            &&& s == "input"@ ==> d.direction == Direction::Input
            &&& s == "output"@ ==> d.direction == Direction::Output
            &&& s == "inout"@ ==> d.direction == Direction::Bidirect
            &&& s == "internal"@ ==> d.direction == Direction::Internal
            &&& d.is_clock == p.is_clock
            &&& c.is_clock <==> s == "true"@
            &&& c.direction == p.direction
            &&& c.capacitance == p.capacitance
        }),
{
    let v = ValueView::Str(s);
    reveal_strlit("direction");
    reveal_strlit("clock");
    reveal_strlit("input");
    reveal_strlit("output");
    reveal_strlit("inout");
    reveal_strlit("internal");
    reveal_strlit("capacitance");
    reveal_strlit("rise");
    reveal_strlit("fall");
    reveal_strlit("_capacitance");
    assert("direction"@.len() == 9 && "clock"@.len() == 5 && "capacitance"@.len() == 11);
    assert(("rise"@ + "_capacitance"@).len() == 16 && ("fall"@ + "_capacitance"@).len() == 16);
    assert("input"@.len() == 5 && "output"@.len() == 6 && "inout"@.len() == 5 && "internal"@.len() == 8);
    assert("input"@[2] == 'p' && "inout"@[2] == 'o');
    liberty_laws::lemma_last_attribute_counts(pg, "direction"@, v, "direction"@);
    liberty_laws::lemma_last_attribute_counts(pg, "direction"@, v, "clock"@);
    liberty_laws::lemma_last_attribute_counts(pg, "clock"@, v, "clock"@);
    liberty_laws::lemma_last_attribute_counts(pg, "clock"@, v, "direction"@);
    liberty_laws::lemma_last_attribute_counts(pg, "clock"@, v, "capacitance"@);
    liberty_laws::lemma_last_attribute_counts(pg, "clock"@, v, "rise"@ + "_capacitance"@);
    liberty_laws::lemma_last_attribute_counts(pg, "clock"@, v, "fall"@ + "_capacitance"@);
}

/// The transitions that a combinational group lets through: a positive sense keeps a transition, a
/// negative one turns it round, one that is neither does both; a group of rise or of fall alone lets
/// only that one out.
pub proof fn lemma_sense_of_a_group(t: TimingView, from: nat, to: nat)
    requires
        t.is_combinational(),
        from < 2,
        to < 2,
    ensures
        t.sense_pairs() matches Some(pairs) ==> {
            let lets_out = (t.timing_type == "combinational_rise"@ ==> to == 0) && (t.timing_type
                == "combinational_fall"@ ==> to == 1);
            &&& t.sense == Some("positive_unate"@) ==> (pairs.contains((from, to)) <==> lets_out && from == to)
            &&& t.sense == Some("negative_unate"@) ==> (pairs.contains((from, to)) <==> lets_out && from != to)
            &&& t.sense == Some("non_unate"@) ==> (pairs.contains((from, to)) <==> lets_out)
        },
        t.sense_pairs() is Some <==> t.sense == Some("positive_unate"@) || t.sense == Some("negative_unate"@)
            || t.sense == Some("non_unate"@),
{
    reveal_strlit("positive_unate");
    reveal_strlit("negative_unate");
    reveal_strlit("non_unate");
    reveal_strlit("combinational_rise");
    reveal_strlit("combinational_fall");
    assert("positive_unate"@.len() == 14 && "negative_unate"@.len() == 14 && "non_unate"@.len() == 9);
    assert("positive_unate"@[0] == 'p' && "negative_unate"@[0] == 'n');
    assert("combinational_rise"@[14] == 'r' && "combinational_fall"@[14] == 'f');
    if let Some(pairs) = t.sense_pairs() {
        let rise = t.timing_type != "combinational_fall"@;
        let fall = t.timing_type != "combinational_rise"@;
        let all: Seq<(nat, nat)> = seq![(0nat, 0nat), (1nat, 1nat), (0nat, 1nat), (1nat, 0nat)];
        assert(rise || fall);
        if pairs.len() > 0 {
            assert(pairs.contains(pairs[0]));
        }
        if pairs.len() > 1 {
            assert(pairs.contains(pairs[1]));
        }
        if pairs.len() > 2 {
            assert(pairs.contains(pairs[2]));
            assert(pairs.contains(pairs[3]));
        }
    }
}

/// A preset makes its pin rise and a clear makes it fall: from the same transition with a positive
/// sense, from the opposite one with a negative sense, from both with neither.
pub proof fn lemma_preset_and_clear(t: TimingView, to_rf: nat, from: nat, to: nat)
    requires
        to_rf < 2,
        from < 2,
    ensures
        ({
            let pairs = t.set_clear_pairs(to_rf);
            &&& t.sense == Some("positive_unate"@) ==> (pairs.contains((from, to)) <==> to == to_rf && from == to_rf)
            &&& t.sense == Some("negative_unate"@) ==> (pairs.contains((from, to)) <==> to == to_rf && from != to_rf)
            &&& t.sense != Some("positive_unate"@) && t.sense != Some("negative_unate"@) ==> (pairs.contains(
                (from, to),
            ) <==> to == to_rf)
        }),
{
    reveal_strlit("positive_unate");
    reveal_strlit("negative_unate");
    assert("positive_unate"@[0] == 'p' && "negative_unate"@[0] == 'n');
    let pairs = t.set_clear_pairs(to_rf);
    assert(pairs.contains(pairs[0]));
    if pairs.len() > 1 {
        assert(pairs.contains(pairs[1]));
    }
}

/// The arcs of transition pairs: one for each pair whose target transition has a model, with that
/// model, and no others.
pub proof fn lemma_arcs_of_pairs(t: TimingView, pairs: Seq<(nat, nat)>, from: nat, to: nat)
    ensures
        t.models[to as int] matches Some(m) ==> (pairs.contains((from, to)) <==> t.arcs(pairs).contains(
            ArcView { from_rf: from, to_rf: to, model: m },
        )),
        forall|k: int|
            0 <= k < t.arcs(pairs).len() ==> pairs.contains(
                ((#[trigger] t.arcs(pairs)[k]).from_rf, t.arcs(pairs)[k].to_rf),
            ) && t.models[t.arcs(pairs)[k].to_rf as int] == Some(t.arcs(pairs)[k].model),
    decreases pairs.len(),
{
    if pairs.len() > 0 {
        let less = pairs.drop_last();
        lemma_arcs_of_pairs(t, less, from, to);
        let (before, all) = (t.arcs(less), t.arcs(pairs));
        assert forall|k: int| 0 <= k < all.len() implies pairs.contains(
            ((#[trigger] all[k]).from_rf, all[k].to_rf),
        ) && t.models[all[k].to_rf as int] == Some(all[k].model) by {
            if k < before.len() {
                assert(all[k] == before[k]);
                let pair = (before[k].from_rf, before[k].to_rf);
                assert(less.contains(pair));
                let j = less.index_of(pair);
                assert(pairs[j] == pair);
            } else {
                assert(pairs[pairs.len() - 1] == (all[k].from_rf, all[k].to_rf));
            }
        }
        if let Some(m) = t.models[to as int] {
            let arc = ArcView { from_rf: from, to_rf: to, model: m };
            if pairs.contains((from, to)) {
                let j = pairs.index_of((from, to));
                if j < less.len() {
                    assert(less[j] == (from, to));
                    assert(before.contains(arc));
                    let i = before.index_of(arc);
                    assert(all[i] == arc);
                } else {
                    assert(all[all.len() - 1] == arc);
                }
            }
            if all.contains(arc) {
                let i = all.index_of(arc);
                assert(pairs.contains((all[i].from_rf, all[i].to_rf)));
            }
        }
    }
}

/// A pin named in a state's clock or enable.
pub open spec fn clocks(t: TimingView, from: Seq<char>) -> bool {
    t.state matches Some(s) && liberty::identifiers_of(s.clock).contains(from)
}

/// The role of an arc at an edge: from the enable of a latch it is the latch's, from anything else a
/// register's. A combinational arc from a data pin of a latch is the latch's own.
pub proof fn lemma_roles_of_states(t: TimingView, from: Seq<char>)
    ensures
        t.timing_type == "rising_edge"@ || t.timing_type == "falling_edge"@ ==> (t.set_from(from) matches Ok(Some(s)) && {
            let of_latch = t.state matches Some(x) && !x.is_register;
            &&& of_latch && clocks(t, from) ==> s.role == Role::LatchEnToQ
            &&& !(of_latch && clocks(t, from)) ==> s.role == Role::RegClkToQ
            &&& forall|k: int|
                0 <= k < s.arcs.len() ==> (#[trigger] s.arcs[k]).from_rf == (if t.timing_type == "rising_edge"@ {
                    0nat
                } else {
                    1
                })
        }),
        t.is_combinational() ==> (t.set_from(from) matches Ok(Some(s)) ==> {
            let of_data = t.state matches Some(x) && !x.is_register && x.data.contains(from);
            &&& of_data ==> s.role == Role::LatchDtoQ
            &&& !of_data ==> s.role == Role::Combinational
        }),
        t.timing_type == "combinational"@ && clocks(t, from) ==> t.set_from(from) is Err,
{
    reveal_strlit("rising_edge");
    reveal_strlit("falling_edge");
    reveal_strlit("combinational");
    reveal_strlit("combinational_rise");
    reveal_strlit("combinational_fall");
    assert("rising_edge"@.len() == 11 && "falling_edge"@.len() == 12 && "combinational"@.len() == 13);
    assert("combinational_rise"@.len() == 18 && "combinational_fall"@.len() == 18);
    if t.timing_type == "rising_edge"@ || t.timing_type == "falling_edge"@ {
        let from_rf: nat = if t.timing_type == "rising_edge"@ {
            0
        } else {
            1
        };
        let pairs = seq![(from_rf, 0nat), (from_rf, 1nat)];
        lemma_arcs_of_pairs(t, pairs, from_rf, 0);
        let arcs = t.arcs(pairs);
        assert forall|k: int| 0 <= k < arcs.len() implies (#[trigger] arcs[k]).from_rf == from_rf by {
            assert(pairs.contains((arcs[k].from_rf, arcs[k].to_rf)));
        }
    }
}

/// The single precision number nearest to one over `den`: it is off by no more than half of its last
/// place, which counts `place`.
pub open spec fn nearest_part(x: F32, den: nat, place: nat) -> bool {
    &&& !x.negative()
    &&& x.units() % place == 0
    &&& -(den * place) <= 2 * (x.units() * den - pow2(149)) <= den * place
}

proof fn lemma_part(bits: u32, exponent: nat, fraction: nat, den: nat, place: nat, goal: nat, off: int)
    requires
        bits == exponent * 0x80_0000 + fraction,
        fraction < 0x80_0000,
        1 <= exponent < 255,
        place == pow2((exponent - 1) as nat),
        pow2(149) == goal * place,
        (0x80_0000 + fraction) * den - goal == off,
        -den <= 2 * off <= den,
        place > 0,
    ensures
        nearest_part(F32(bits), den, place),
{
    lemma2_to64();
    assert(pow2(23) == 0x80_0000);
    let x = F32(bits);
    assert(bits < 0x8000_0000) by (nonlinear_arith)
        requires
            bits == exponent * 0x80_0000 + fraction,
            fraction < 0x80_0000,
            exponent < 255,
    ;
    vstd::arithmetic::div_mod::lemma_fundamental_div_mod_converse(
        bits as int,
        0x80_0000,
        exponent as int,
        fraction as int,
    );
    assert(x.magnitude() / 0x80_0000 == exponent && x.magnitude() % 0x80_0000 == fraction);
    assert(x.magnitude() >= 0x80_0000) by (nonlinear_arith)
        requires
            x.magnitude() == exponent * 0x80_0000 + fraction,
            exponent >= 1,
    ;
    let m = 0x80_0000 + fraction;
    assert(x.units() == m * place);
    vstd::arithmetic::div_mod::lemma_mod_multiples_basic(m as int, place as int);
    assert(x.units() * den - pow2(149) == off * place) by (nonlinear_arith)
        requires
            x.units() == m * place,
            pow2(149) == goal * place,
            m * den - goal == off,
    ;
    assert(-(den * place) <= 2 * (off * place) <= den * place) by (nonlinear_arith)
        requires
            -den <= 2 * off <= den,
            place > 0,
    ;
}

/// The scale of a unit's prefix: a thousand for `k`, and the nearest numbers to a thousandth for `m`, a
/// millionth for `u`, and so on down by thousandths for `n`, `p` and `f`, in either case; one for
/// anything else.
pub proof fn lemma_prefixes(c: char)
    ensures
        c == 'k' || c == 'K' ==> crate::whole::single_whole(liberty::prefix_scale(c), 1000),
        c == 'm' || c == 'M' ==> nearest_part(liberty::prefix_scale(c), 1000, pow2(116)),
        c == 'u' || c == 'U' ==> nearest_part(liberty::prefix_scale(c), 1_000_000, pow2(106)),
        c == 'n' || c == 'N' ==> nearest_part(liberty::prefix_scale(c), 1_000_000_000, pow2(96)),
        c == 'p' || c == 'P' ==> nearest_part(liberty::prefix_scale(c), 1_000_000_000_000, pow2(86)),
        c == 'f' || c == 'F' ==> nearest_part(liberty::prefix_scale(c), 1_000_000_000_000_000, pow2(76)),
        !("kKmMuUnNpPfF"@.contains(c)) ==> liberty::prefix_scale(c) == F32(liberty::ONE),
{
    reveal_strlit("kKmMuUnNpPfF");
    let s = "kKmMuUnNpPfF"@;
    assert(s[0] == 'k' && s[1] == 'K' && s[2] == 'm' && s[3] == 'M' && s[4] == 'u' && s[5] == 'U');
    assert(s[6] == 'n' && s[7] == 'N' && s[8] == 'p' && s[9] == 'P' && s[10] == 'f' && s[11] == 'F');
    assert(s.contains(s[0]) && s.contains(s[1]) && s.contains(s[2]) && s.contains(s[3]) && s.contains(s[4]));
    assert(s.contains(s[5]) && s.contains(s[6]) && s.contains(s[7]) && s.contains(s[8]) && s.contains(s[9]));
    assert(s.contains(s[10]) && s.contains(s[11]));
    lemma2_to64();
    lemma2_to64_rest();
    lemma_pow2_adds(116, 33);
    lemma_pow2_adds(106, 43);
    lemma_pow2_adds(96, 53);
    lemma_pow2_adds(86, 63);
    lemma_pow2_adds(76, 73);
    lemma_pow2_adds(32, 32);
    lemma_pow2_adds(64, 9);
    assert(pow2(64) == 0x1_0000_0000_0000_0000);
    assert(pow2(9) == 0x200);
    assert(pow2(73) == 0x200_0000_0000_0000_0000);
    assert(pow2(149) == 0x200_0000_0000_0000_0000 * pow2(76)) by (nonlinear_arith)
        requires
            pow2(149) == pow2(76) * pow2(73),
            pow2(73) == 0x200_0000_0000_0000_0000,
    ;
    lemma_pow2_pos(116);
    lemma_pow2_pos(106);
    lemma_pow2_pos(96);
    lemma_pow2_pos(86);
    lemma_pow2_pos(76);
    lemma_part(liberty::MILLI, 117, 0x3126f, 1000, pow2(116), 0x2_0000_0000, 408);
    lemma_part(liberty::MICRO, 107, 0x637bd, 1_000_000, pow2(106), 0x800_0000_0000, -22208);
    lemma_part(liberty::NANO, 97, 0x9705f, 1_000_000_000, pow2(96), 0x20_0000_0000_0000, -254740992);
    lemma_part(liberty::PICO, 87, 0xcbccc, 1_000_000_000_000, pow2(86), 0x8000_0000_0000_0000, -36854775808);
    lemma_part(
        liberty::FEMTO,
        77,
        0x101d7d,
        1_000_000_000_000_000,
        pow2(76),
        0x200_0000_0000_0000_0000,
        34260709572608,
    );
    lemma_kilo();
}

proof fn lemma_kilo()
    ensures
        crate::whole::single_whole(F32(liberty::KILO), 1000),
{
    lemma2_to64();
    lemma_pow2_adds(135, 14);
    let x = F32(liberty::KILO);
    assert(pow2(23) == 0x80_0000);
    assert(0x447a_0000nat / 0x80_0000 == 136 && 0x447a_0000nat % 0x80_0000 == 0x7a_0000);
    assert(x.units() == 0xfa_0000 * pow2(135));
    assert(0xfa_0000 == 1000 * 0x4000);
    let e = pow2(135);
    assert(0xfa_0000 * e == 1000 * (e * 0x4000)) by (nonlinear_arith);
}

} // verus!

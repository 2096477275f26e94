//! What a library is read from: each attribute and each table is read under its own name, and a
//! group with one of them changed is read with that one thing changed.

use vstd::prelude::*;
use crate::float32::F32;
use crate::liberty;
use crate::liberty::{ArcSetView, CellContext, HeaderView, ModelView, TimingView, PERCENT};
use crate::liberty_parse;
use crate::liberty_parse::{GroupView, ValueView};
use crate::table::{AxisView, GateModelView, TableView};

verus! {

/// The thresholds of a library.
pub ghost enum Threshold {
    Input,
    Output,
    SlewLower,
    SlewUpper,
}

/// The attribute a threshold is given by, for rise (0) or fall.
#[verifier::opaque]
pub open spec fn threshold_name(t: Threshold, rf: int) -> Seq<char> {
    match t {
        Threshold::Input => if rf == 0 {
            "input_threshold_pct_rise"@
        } else {
            "input_threshold_pct_fall"@
        },
        Threshold::Output => if rf == 0 {
            "output_threshold_pct_rise"@
        } else {
            "output_threshold_pct_fall"@
        },
        Threshold::SlewLower => if rf == 0 {
            "slew_lower_threshold_pct_rise"@
        } else {
            "slew_lower_threshold_pct_fall"@
        },
        Threshold::SlewUpper => if rf == 0 {
            "slew_upper_threshold_pct_rise"@
        } else {
            "slew_upper_threshold_pct_fall"@
        },
    }
}

/// A header with one threshold of one transition at another value.
pub open spec fn with_threshold(h: HeaderView, t: Threshold, rf: int, x: F32) -> HeaderView {
    match t {
        Threshold::Input => HeaderView { input_threshold: h.input_threshold.update(rf, x), ..h },
        Threshold::Output => HeaderView { output_threshold: h.output_threshold.update(rf, x), ..h },
        Threshold::SlewLower => HeaderView { slew_lower_threshold: h.slew_lower_threshold.update(rf, x), ..h },
        Threshold::SlewUpper => HeaderView { slew_upper_threshold: h.slew_upper_threshold.update(rf, x), ..h },
    }
}

/// A group with an attribute added behind the others.
pub open spec fn with_attribute(g: GroupView, name: Seq<char>, v: ValueView) -> GroupView {
    GroupView { simple: g.simple.push((name, v)), ..g }
}

/// A group with a group added behind the others.
pub open spec fn with_group(g: GroupView, inner: GroupView) -> GroupView {
    GroupView { groups: g.groups.push(inner), ..g }
}

/// The last of an attribute counts, and no other attribute is touched.
pub proof fn lemma_last_attribute_counts(g: GroupView, name: Seq<char>, v: ValueView, other: Seq<char>)
    ensures
        with_attribute(g, name, v).attr(other) == if other == name {
            Some(v)
        } else {
            g.attr(other)
        },
{
    assert(with_attribute(g, name, v).simple.drop_last() =~= g.simple);
}

/// A group added is the last of its kind, and no other kind is touched.
pub proof fn lemma_group_is_added(g: GroupView, inner: GroupView, kind: Seq<char>)
    ensures
        with_group(g, inner).groups_of(kind) == if inner.kind == kind {
            g.groups_of(kind).push(inner)
        } else {
            g.groups_of(kind)
        },
{
    assert(with_group(g, inner).groups.drop_last() =~= g.groups);
}

proof fn lemma_threshold_names(t: Threshold, rf: int, s: Threshold, n: int)
    requires
        0 <= rf < 2,
        0 <= n < 2,
        threshold_name(t, rf) == threshold_name(s, n),
    ensures
        t == s,
        rf == n,
{
    reveal(threshold_name);
    reveal_strlit("input_threshold_pct_rise");
    reveal_strlit("input_threshold_pct_fall");
    reveal_strlit("output_threshold_pct_rise");
    reveal_strlit("output_threshold_pct_fall");
    reveal_strlit("slew_lower_threshold_pct_rise");
    reveal_strlit("slew_lower_threshold_pct_fall");
    reveal_strlit("slew_upper_threshold_pct_rise");
    reveal_strlit("slew_upper_threshold_pct_fall");
    let (a, b) = (threshold_name(t, rf), threshold_name(s, n));
    assert(a.len() == b.len());
    assert(a[a.len() - 1] == b[b.len() - 1]);
    assert(a[5] == b[5]);
}

proof fn lemma_joined_names()
    ensures
        "input_threshold_pct_"@ + "rise"@ == threshold_name(Threshold::Input, 0),
        "input_threshold_pct_"@ + "fall"@ == threshold_name(Threshold::Input, 1),
        "output_threshold_pct_"@ + "rise"@ == threshold_name(Threshold::Output, 0),
        "output_threshold_pct_"@ + "fall"@ == threshold_name(Threshold::Output, 1),
        "slew_lower_threshold_pct_"@ + "rise"@ == threshold_name(Threshold::SlewLower, 0),
        "slew_lower_threshold_pct_"@ + "fall"@ == threshold_name(Threshold::SlewLower, 1),
        "slew_upper_threshold_pct_"@ + "rise"@ == threshold_name(Threshold::SlewUpper, 0),
        "slew_upper_threshold_pct_"@ + "fall"@ == threshold_name(Threshold::SlewUpper, 1),
{
    reveal(threshold_name);
    reveal_strlit("rise");
    reveal_strlit("fall");
    reveal_strlit("input_threshold_pct_");
    reveal_strlit("output_threshold_pct_");
    reveal_strlit("slew_lower_threshold_pct_");
    reveal_strlit("slew_upper_threshold_pct_");
    reveal_strlit("input_threshold_pct_rise");
    reveal_strlit("input_threshold_pct_fall");
    reveal_strlit("output_threshold_pct_rise");
    reveal_strlit("output_threshold_pct_fall");
    reveal_strlit("slew_lower_threshold_pct_rise");
    reveal_strlit("slew_lower_threshold_pct_fall");
    reveal_strlit("slew_upper_threshold_pct_rise");
    reveal_strlit("slew_upper_threshold_pct_fall");
    assert("input_threshold_pct_"@ + "rise"@ =~= threshold_name(Threshold::Input, 0));
    assert("input_threshold_pct_"@ + "fall"@ =~= threshold_name(Threshold::Input, 1));
    assert("output_threshold_pct_"@ + "rise"@ =~= threshold_name(Threshold::Output, 0));
    assert("output_threshold_pct_"@ + "fall"@ =~= threshold_name(Threshold::Output, 1));
    assert("slew_lower_threshold_pct_"@ + "rise"@ =~= threshold_name(Threshold::SlewLower, 0));
    assert("slew_lower_threshold_pct_"@ + "fall"@ =~= threshold_name(Threshold::SlewLower, 1));
    assert("slew_upper_threshold_pct_"@ + "rise"@ =~= threshold_name(Threshold::SlewUpper, 0));
    assert("slew_upper_threshold_pct_"@ + "fall"@ =~= threshold_name(Threshold::SlewUpper, 1));
}

/// The other numbers and texts of a library's header are given by attributes of other names.
proof fn lemma_other_names(t: Threshold, rf: int)
    requires
        0 <= rf < 2,
    ensures
        threshold_name(t, rf) != "time_unit"@,
        threshold_name(t, rf) != "default_input_pin_cap"@,
        threshold_name(t, rf) != "default_output_pin_cap"@,
        threshold_name(t, rf) != "default_inout_pin_cap"@,
        threshold_name(t, rf) != "slew_derate_from_library"@,
{
    reveal(threshold_name);
    reveal_strlit("time_unit");
    reveal_strlit("default_input_pin_cap");
    reveal_strlit("default_output_pin_cap");
    reveal_strlit("default_inout_pin_cap");
    reveal_strlit("slew_derate_from_library");
    reveal_strlit("input_threshold_pct_rise");
    reveal_strlit("input_threshold_pct_fall");
    reveal_strlit("output_threshold_pct_rise");
    reveal_strlit("output_threshold_pct_fall");
    reveal_strlit("slew_lower_threshold_pct_rise");
    reveal_strlit("slew_lower_threshold_pct_fall");
    reveal_strlit("slew_upper_threshold_pct_rise");
    reveal_strlit("slew_upper_threshold_pct_fall");
    let a = threshold_name(t, rf);
    assert(a.len() >= 24);
    assert(a[0] == 'i' || a[0] == 'o' || a[0] == 's');
    assert(t is SlewLower || t is SlewUpper ==> a.len() == 29);
}

#[verifier::spinoff_prover]
proof fn lemma_header_threshold(g: GroupView, cap_scale: F32, t: Threshold, rf: int, x: F32)
    requires
        0 <= rf < 2,
    ensures
        liberty::header_of(with_attribute(g, threshold_name(t, rf), ValueView::Float(x)), cap_scale)
            == with_threshold(liberty::header_of(g, cap_scale), t, rf, x * F32(PERCENT)),
{
    let name = threshold_name(t, rf);
    let v = ValueView::Float(x);
    let h = with_attribute(g, name, v);
    lemma_joined_names();
    lemma_other_names(t, rf);
    lemma_last_attribute_counts(g, name, v, "time_unit"@);
    lemma_last_attribute_counts(g, name, v, "default_input_pin_cap"@);
    lemma_last_attribute_counts(g, name, v, "default_output_pin_cap"@);
    lemma_last_attribute_counts(g, name, v, "default_inout_pin_cap"@);
    lemma_last_attribute_counts(g, name, v, "slew_derate_from_library"@);
    assert forall|s: Threshold, n: int| 0 <= n < 2 implies h.attr(#[trigger] threshold_name(s, n)) == if s == t && n
        == rf {
        Some(v)
    } else {
        g.attr(threshold_name(s, n))
    } by {
        lemma_last_attribute_counts(g, name, v, threshold_name(s, n));
        if threshold_name(s, n) == name {
            lemma_threshold_names(s, n, t, rf);
        }
    }
    assert(h.attr(threshold_name(Threshold::Input, 0)) == h.attr("input_threshold_pct_"@ + "rise"@));
    let (a, b) = (liberty::header_of(h, cap_scale), with_threshold(
        liberty::header_of(g, cap_scale),
        t,
        rf,
        x * F32(PERCENT),
    ));
    assert(a.input_threshold =~= b.input_threshold);
    assert(a.output_threshold =~= b.output_threshold);
    assert(a.slew_lower_threshold =~= b.slew_lower_threshold);
    assert(a.slew_upper_threshold =~= b.slew_upper_threshold);
}

/// A threshold attribute sets its own threshold, of its own transition, to its hundredth part, and
/// changes nothing else of a library's units, defaults and thresholds.
pub proof fn lemma_threshold_is_read(g: GroupView, t: Threshold, rf: int, x: F32)
    requires
        0 <= rf < 2,
    ensures
        ({
            let more = with_attribute(g, threshold_name(t, rf), ValueView::Float(x));
            match (liberty::library_of(g), liberty::library_of(more)) {
                (Ok(a), Ok(b)) => b.header == with_threshold(a.header, t, rf, x * F32(PERCENT)),
                _ => true,
            }
        }),
{
    if let Ok(cap_scale) = liberty::cap_unit(g) {
        lemma_header_threshold(g, cap_scale, t, rf, x);
    }
}

/// The numbers of a library's header that are no thresholds.
pub ghost enum Setting {
    InputCap,
    OutputCap,
    BidirectCap,
    Derate,
}

/// The attribute a number of the header is given by.
pub open spec fn setting_name(s: Setting) -> Seq<char> {
    match s {
        Setting::InputCap => "default_input_pin_cap"@,
        Setting::OutputCap => "default_output_pin_cap"@,
        Setting::BidirectCap => "default_inout_pin_cap"@,
        Setting::Derate => "slew_derate_from_library"@,
    }
}

/// A header with one of those numbers given as `x`: a capacitance in the library's unit, the derate as
/// it is.
pub open spec fn with_setting(h: HeaderView, s: Setting, x: F32) -> HeaderView {
    match s {
        Setting::InputCap => HeaderView { default_input_pin_cap: x * h.cap_scale, ..h },
        Setting::OutputCap => HeaderView { default_output_pin_cap: x * h.cap_scale, ..h },
        Setting::BidirectCap => HeaderView { default_bidirect_pin_cap: x * h.cap_scale, ..h },
        Setting::Derate => HeaderView { slew_derate: x, ..h },
    }
}

proof fn lemma_setting_names(a: Setting, b: Setting)
    ensures
        setting_name(a) == setting_name(b) ==> a == b,
        setting_name(a) != "time_unit"@,
{
    reveal_strlit("time_unit");
    reveal_strlit("default_input_pin_cap");
    reveal_strlit("default_output_pin_cap");
    reveal_strlit("default_inout_pin_cap");
    reveal_strlit("slew_derate_from_library");
    assert(setting_name(a).len() >= 21);
    assert(setting_name(a)[8] != setting_name(b)[8] || setting_name(a)[10] != setting_name(b)[10] || a == b);
}

#[verifier::spinoff_prover]
proof fn lemma_header_setting(g: GroupView, cap_scale: F32, k: Setting, x: F32)
    ensures
        liberty::header_of(with_attribute(g, setting_name(k), ValueView::Float(x)), cap_scale) == with_setting(
            liberty::header_of(g, cap_scale),
            k,
            x,
        ),
{
    let name = setting_name(k);
    let v = ValueView::Float(x);
    let h = with_attribute(g, name, v);
    lemma_joined_names();
    lemma_setting_names(k, k);
    lemma_last_attribute_counts(g, name, v, "time_unit"@);
    assert forall|o: Setting| h.attr(#[trigger] setting_name(o)) == if o == k {
        Some(v)
    } else {
        g.attr(setting_name(o))
    } by {
        lemma_last_attribute_counts(g, name, v, setting_name(o));
        lemma_setting_names(o, k);
    }
    assert forall|t: Threshold, n: int| 0 <= n < 2 implies h.attr(#[trigger] threshold_name(t, n)) == g.attr(
        threshold_name(t, n),
    ) by {
        lemma_last_attribute_counts(g, name, v, threshold_name(t, n));
        lemma_other_names(t, n);
    }
    assert(h.attr(setting_name(Setting::InputCap)) == h.attr("default_input_pin_cap"@));
    assert(h.attr(setting_name(Setting::OutputCap)) == h.attr("default_output_pin_cap"@));
    assert(h.attr(setting_name(Setting::BidirectCap)) == h.attr("default_inout_pin_cap"@));
    assert(h.attr(setting_name(Setting::Derate)) == h.attr("slew_derate_from_library"@));
    let (a, b) = (liberty::header_of(h, cap_scale), with_setting(liberty::header_of(g, cap_scale), k, x));
    assert(h.attr(threshold_name(Threshold::Input, 0)) == g.attr(threshold_name(Threshold::Input, 0)));
    assert(a.input_threshold =~= b.input_threshold);
    assert(a.output_threshold =~= b.output_threshold);
    assert(a.slew_lower_threshold =~= b.slew_lower_threshold);
    assert(a.slew_upper_threshold =~= b.slew_upper_threshold);
}

/// A default capacitance or the derate is read from its own attribute, and changes nothing else of a
/// library's units, defaults and thresholds.
pub proof fn lemma_setting_is_read(g: GroupView, k: Setting, x: F32)
    ensures
        ({
            let more = with_attribute(g, setting_name(k), ValueView::Float(x));
            match (liberty::library_of(g), liberty::library_of(more)) {
                (Ok(a), Ok(b)) => b.header == with_setting(a.header, k, x),
                _ => true,
            }
        }),
{
    if let Ok(cap_scale) = liberty::cap_unit(g) {
        lemma_header_setting(g, cap_scale, k, x);
    }
}

/// The word of a transition: rise (0) or fall.
pub open spec fn transition_word(rf: int) -> Seq<char> {
    if rf == 0 {
        "rise"@
    } else {
        "fall"@
    }
}

/// What a transition's delay, slew and constraint tables are called.
pub open spec fn delay_kind(rf: int) -> Seq<char> {
    if rf == 0 {
        "cell_rise"@
    } else {
        "cell_fall"@
    }
}

pub open spec fn slew_kind(rf: int) -> Seq<char> {
    if rf == 0 {
        "rise_transition"@
    } else {
        "fall_transition"@
    }
}

pub open spec fn constraint_kind(rf: int) -> Seq<char> {
    if rf == 0 {
        "rise_constraint"@
    } else {
        "fall_constraint"@
    }
}

proof fn lemma_kinds(rf: int)
    requires
        0 <= rf < 2,
    ensures
        "cell_"@ + transition_word(rf) == delay_kind(rf),
        transition_word(rf) + "_transition"@ == slew_kind(rf),
        transition_word(rf) + "_constraint"@ == constraint_kind(rf),
        delay_kind(0) != delay_kind(1),
        slew_kind(0) != slew_kind(1),
        constraint_kind(0) != constraint_kind(1),
        forall|n: int|
            0 <= n < 2 ==> (#[trigger] delay_kind(n)) != slew_kind(rf) && delay_kind(n) != constraint_kind(rf),
        forall|n: int| 0 <= n < 2 ==> (#[trigger] slew_kind(n)) != constraint_kind(rf),
{
    reveal_strlit("rise");
    reveal_strlit("fall");
    reveal_strlit("cell_");
    reveal_strlit("_transition");
    reveal_strlit("_constraint");
    reveal_strlit("cell_rise");
    reveal_strlit("cell_fall");
    reveal_strlit("rise_transition");
    reveal_strlit("fall_transition");
    reveal_strlit("rise_constraint");
    reveal_strlit("fall_constraint");
    assert("cell_"@ + transition_word(rf) =~= delay_kind(rf));
    assert(transition_word(rf) + "_transition"@ =~= slew_kind(rf));
    assert(transition_word(rf) + "_constraint"@ =~= constraint_kind(rf));
    assert(delay_kind(0)[5] != delay_kind(1)[5]);
    assert(slew_kind(0)[0] != slew_kind(1)[0]);
    assert(constraint_kind(0)[0] != constraint_kind(1)[0]);
    assert forall|n: int| 0 <= n < 2 implies (#[trigger] delay_kind(n)) != slew_kind(rf) && delay_kind(n)
        != constraint_kind(rf) by {
        assert(delay_kind(n).len() == 9 && slew_kind(rf).len() == 15 && constraint_kind(rf).len() == 15);
    }
    assert forall|n: int| 0 <= n < 2 implies (#[trigger] slew_kind(n)) != constraint_kind(rf) by {
        assert(slew_kind(n)[5] == 't' && constraint_kind(rf)[5] == 'c');
    }
}

proof fn lemma_first_table(
    h: HeaderView,
    templates: Map<Seq<char>, Seq<AxisView>>,
    tg: GroupView,
    inner: GroupView,
    kind: Seq<char>,
)
    ensures
        inner.kind != kind ==> liberty::first_table(h, templates, with_group(tg, inner), kind)
            == liberty::first_table(h, templates, tg, kind),
        inner.kind == kind && tg.groups_of(kind).len() == 0 ==> liberty::first_table(
            h,
            templates,
            with_group(tg, inner),
            kind,
        ) == match liberty::table_of(h, templates, inner, h.time_scale) {
            Ok(t) => Ok(Some(t)),
            Err(e) => Err::<Option<TableView>, Seq<char>>(e),
        },
{
    lemma_group_is_added(tg, inner, kind);
}

/// The delay and slew tables of a model, where it is a gate's.
pub open spec fn gate_tables(m: Option<ModelView>) -> (Option<TableView>, Option<TableView>) {
    match m {
        Some(ModelView::Gate(g)) => (g.delay, g.slew),
        _ => (None, None),
    }
}

/// A transition's delay, slew and constraint tables are read from the groups of their own names: one
/// added to a timing group becomes that table of that transition, in the library's time unit, and the
/// other transition is what it was. A constraint makes a check of the arc.
pub proof fn lemma_tables_are_read(
    h: HeaderView,
    templates: Map<Seq<char>, Seq<AxisView>>,
    tg: GroupView,
    inner: GroupView,
    rf: int,
)
    requires
        0 <= rf < 2,
        inner.kind == delay_kind(rf) || inner.kind == slew_kind(rf) || inner.kind == constraint_kind(rf),
        tg.groups_of(inner.kind).len() == 0,
    ensures
        ({
            let more = with_group(tg, inner);
            let (word, other) = (transition_word(rf), transition_word(1 - rf));
            &&& liberty::model_of(h, templates, more, other) == liberty::model_of(h, templates, tg, other)
            &&& match (
                liberty::model_of(h, templates, tg, word),
                liberty::table_of(h, templates, inner, h.time_scale),
            ) {
                (Ok(m), Ok(t)) => liberty::model_of(h, templates, more, word) matches Ok(Some(n)) && {
                    if inner.kind == constraint_kind(rf) {
                        n == ModelView::Check(t)
                    } else if m matches Some(ModelView::Check(_)) {
                        m == Some(n)
                    } else if inner.kind == delay_kind(rf) {
                        n == ModelView::Gate(GateModelView { delay: Some(t), slew: gate_tables(m).1 })
                    } else {
                        n == ModelView::Gate(GateModelView { delay: gate_tables(m).0, slew: Some(t) })
                    }
                },
                (Err(_), _) => liberty::model_of(h, templates, more, word) is Err,
                (_, Err(_)) => liberty::model_of(h, templates, more, word) is Err,
            }
        }),
{
    let o = 1 - rf;
    lemma_kinds(rf);
    lemma_kinds(o);
    assert(delay_kind(rf) != slew_kind(o) && slew_kind(rf) != constraint_kind(o));
    assert(delay_kind(o) != slew_kind(rf) && slew_kind(o) != constraint_kind(rf));
    assert(delay_kind(rf) != delay_kind(o) && slew_kind(rf) != slew_kind(o));
    assert(delay_kind(rf) != constraint_kind(o) && delay_kind(o) != constraint_kind(rf));
    assert(delay_kind(rf) != slew_kind(rf) && delay_kind(rf) != constraint_kind(rf) && slew_kind(rf)
        != constraint_kind(rf));
    lemma_first_table(h, templates, tg, inner, delay_kind(rf));
    lemma_first_table(h, templates, tg, inner, slew_kind(rf));
    lemma_first_table(h, templates, tg, inner, constraint_kind(rf));
    lemma_first_table(h, templates, tg, inner, delay_kind(o));
    lemma_first_table(h, templates, tg, inner, slew_kind(o));
    lemma_first_table(h, templates, tg, inner, constraint_kind(o));
}

/// The arcs of a timing group to one transition have the model that the group gives for it.
spec fn arcs_modelled(models: Seq<Option<ModelView>>, s: ArcSetView) -> bool {
    forall|k: int|
        0 <= k < s.arcs.len() ==> (#[trigger] s.arcs[k]).to_rf < 2 && models[s.arcs[k].to_rf as int] == Some(
            s.arcs[k].model,
        )
}

proof fn lemma_arcs_modelled(t: TimingView, pairs: Seq<(nat, nat)>)
    requires
        forall|i: int| 0 <= i < pairs.len() ==> (#[trigger] pairs[i]).1 < 2,
    ensures
        forall|k: int|
            0 <= k < t.arcs(pairs).len() ==> (#[trigger] t.arcs(pairs)[k]).to_rf < 2
                && t.models[t.arcs(pairs)[k].to_rf as int] == Some(t.arcs(pairs)[k].model),
    decreases pairs.len(),
{
    if pairs.len() > 0 {
        let less = pairs.drop_last();
        assert forall|i: int| 0 <= i < less.len() implies (#[trigger] less[i]).1 < 2 by {
            assert(less[i] == pairs[i]);
        }
        lemma_arcs_modelled(t, less);
        assert(pairs[pairs.len() - 1].1 < 2);
    }
}

proof fn lemma_set_modelled(t: TimingView, from: Seq<char>)
    ensures
        t.set_from(from) matches Ok(Some(s)) ==> arcs_modelled(t.models, s) && s.from == from && s.to == t.to
            && s.cond == t.cond,
{
    if let Some(pairs) = t.sense_pairs() {
        lemma_arcs_modelled(t, pairs);
    }
    lemma_arcs_modelled(t, seq![(0nat, 0nat), (0nat, 1nat)]);
    lemma_arcs_modelled(t, seq![(1nat, 0nat), (1nat, 1nat)]);
    lemma_arcs_modelled(t, t.set_clear_pairs(0));
    lemma_arcs_modelled(t, t.set_clear_pairs(1));
    lemma_arcs_modelled(t, Seq::empty());
}

proof fn lemma_sets_modelled(t: TimingView, related: Seq<Seq<char>>, done: Seq<ArcSetView>)
    ensures
        t.sets(related, done) matches Ok(sets) ==> {
            &&& done.len() <= sets.len()
            &&& forall|i: int| 0 <= i < done.len() ==> sets[i] == done[i]
            &&& forall|i: int|
                done.len() <= i < sets.len() ==> arcs_modelled(t.models, #[trigger] sets[i]) && related.contains(
                    sets[i].from,
                ) && sets[i].to == t.to && sets[i].cond == t.cond
        },
    decreases related.len(),
{
    if related.len() > 0 {
        let rest = related.skip(1);
        lemma_set_modelled(t, related[0]);
        let next = match t.set_from(related[0]) {
            Ok(Some(s)) => done.push(s),
            _ => done,
        };
        lemma_sets_modelled(t, rest, next);
        if let Ok(sets) = t.sets(related, done) {
            assert forall|i: int| done.len() <= i < sets.len() implies arcs_modelled(t.models, #[trigger] sets[i])
                && related.contains(sets[i].from) && sets[i].to == t.to && sets[i].cond == t.cond by {
                if i < next.len() {
                    assert(sets[i] == next[i]);
                    assert(related.contains(related[0]));
                } else {
                    assert(rest.contains(sets[i].from));
                    let j = rest.index_of(sets[i].from);
                    assert(related[j + 1] == sets[i].from);
                }
            }
        }
    }
}

/// Every arc that a timing group gives is to the port that the group stands in, from one of its
/// related pins, under its condition, and has the tables of the transition that it goes to.
pub proof fn lemma_arcs_of_a_timing_group(c: CellContext, to: Seq<char>, function: Option<Seq<char>>, tg: GroupView)
    ensures
        c.timing_sets(to, function, tg) matches Ok(sets) ==> forall|i: int|
            0 <= i < sets.len() ==> {
                let s = #[trigger] sets[i];
                &&& s.to == to
                &&& s.cond == tg.attr_text("when"@)
                &&& crate::names::words(
                    crate::names::WordKind::Solid,
                    liberty::text_or_empty(tg.attr_text("related_pin"@)),
                    0,
                ).contains(s.from)
                &&& forall|k: int|
                    0 <= k < s.arcs.len() ==> (#[trigger] s.arcs[k]).to_rf < 2 && liberty::model_of(
                        c.header,
                        c.templates,
                        tg,
                        transition_word(s.arcs[k].to_rf as int),
                    ) == Ok::<Option<ModelView>, Seq<char>>(Some(s.arcs[k].model))
            },
{
    if let (Ok(rise), Ok(fall)) = (
        liberty::model_of(c.header, c.templates, tg, "rise"@),
        liberty::model_of(c.header, c.templates, tg, "fall"@),
    ) {
        let t = TimingView {
            cell: c.cell,
            to,
            timing_type: match tg.attr_text("timing_type"@) {
                Some(t) => t,
                None => "combinational"@,
            },
            sense: tg.attr_text("timing_sense"@),
            cond: tg.attr_text("when"@),
            models: seq![rise, fall],
            state: match function {
                Some(f) => liberty::state_with_output(c.states, liberty::identifiers_of(f)),
                None => None,
            },
        };
        let related = crate::names::words(
            crate::names::WordKind::Solid,
            liberty::text_or_empty(tg.attr_text("related_pin"@)),
            0,
        );
        lemma_sets_modelled(t, related, Seq::empty());
        if let Ok(sets) = c.timing_sets(to, function, tg) {
            assert forall|i: int| 0 <= i < sets.len() implies arcs_modelled(t.models, #[trigger] sets[i]) by {}
        }
    }
}

/// A transition's own capacitance, and its range.
pub open spec fn cap_name(rf: int) -> Seq<char> {
    if rf == 0 {
        "rise_capacitance"@
    } else {
        "fall_capacitance"@
    }
}

pub(crate) proof fn lemma_cap_names(rf: int)
    requires
        0 <= rf < 2,
    ensures
        transition_word(rf) + "_capacitance"@ == cap_name(rf),
        cap_name(0) != cap_name(1),
        cap_name(rf) != "capacitance"@,
        cap_name(rf) != "direction"@,
        cap_name(rf) != "clock"@,
        "capacitance"@ != "direction"@,
        "capacitance"@ != "clock"@,
{
    reveal_strlit("rise");
    reveal_strlit("fall");
    reveal_strlit("_capacitance");
    reveal_strlit("rise_capacitance");
    reveal_strlit("fall_capacitance");
    reveal_strlit("capacitance");
    reveal_strlit("direction");
    reveal_strlit("clock");
    assert(transition_word(rf) + "_capacitance"@ =~= cap_name(rf));
    assert(cap_name(0)[0] != cap_name(1)[0]);
    assert(cap_name(rf).len() == 16 && "capacitance"@.len() == 11 && "direction"@.len() == 9 && "clock"@.len() == 5);
}

/// A pin's capacitance for a transition and min/max.
pub open spec fn read_cap(h: HeaderView, pg: GroupView, rf: int, mm: int) -> F32 {
    liberty::port_of(h, Seq::empty(), pg).capacitance[rf][mm]
}

/// A pin's range of capacitances for a transition gives a number for this min/max.
pub open spec fn has_range(pg: GroupView, rf: int, mm: int) -> bool {
    pg.complex_attr(transition_word(rf) + "_capacitance_range"@) matches Some(v) && v.len() == 2 && v[mm].float() is Some
}

/// A pin's capacitances are read from the attributes of their own names: `capacitance` is that of each
/// transition without one of its own, a transition's own that of this transition, each unless a range
/// is given; nothing else of the pin changes.
pub proof fn lemma_capacitances_are_read(h: HeaderView, pg: GroupView, rf: int, mm: int, x: F32)
    requires
        0 <= rf < 2,
        0 <= mm < 2,
    ensures
        ({
            let all = with_attribute(pg, "capacitance"@, ValueView::Float(x));
            let own = with_attribute(pg, cap_name(rf), ValueView::Float(x));
            let (a, b) = (liberty::port_of(h, Seq::empty(), all), liberty::port_of(h, Seq::empty(), own));
            let p = liberty::port_of(h, Seq::empty(), pg);
            &&& read_cap(h, all, rf, mm) == if has_range(pg, rf, mm) || pg.attr_float(cap_name(rf)) is Some {
                read_cap(h, pg, rf, mm)
            } else {
                x * h.cap_scale
            }
            &&& read_cap(h, own, rf, mm) == if has_range(pg, rf, mm) {
                read_cap(h, pg, rf, mm)
            } else {
                x * h.cap_scale
            }
            &&& read_cap(h, own, 1 - rf, mm) == read_cap(h, pg, 1 - rf, mm)
            &&& a.direction == p.direction && a.is_clock == p.is_clock
            &&& b.direction == p.direction && b.is_clock == p.is_clock
        }),
{
    let v = ValueView::Float(x);
    let o = 1 - rf;
    lemma_cap_names(rf);
    lemma_cap_names(o);
    lemma_last_attribute_counts(pg, "capacitance"@, v, "capacitance"@);
    lemma_last_attribute_counts(pg, "capacitance"@, v, cap_name(rf));
    lemma_last_attribute_counts(pg, "capacitance"@, v, "direction"@);
    lemma_last_attribute_counts(pg, "capacitance"@, v, "clock"@);
    lemma_last_attribute_counts(pg, cap_name(rf), v, "capacitance"@);
    lemma_last_attribute_counts(pg, cap_name(rf), v, cap_name(rf));
    lemma_last_attribute_counts(pg, cap_name(rf), v, cap_name(o));
    lemma_last_attribute_counts(pg, cap_name(rf), v, "direction"@);
    lemma_last_attribute_counts(pg, cap_name(rf), v, "clock"@);
}

} // verus!

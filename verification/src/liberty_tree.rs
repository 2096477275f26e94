//! A group that is written out reads back: its attributes and groups in their order, each with the
//! values it was given.

use vstd::prelude::*;
use crate::liberty_parse;
use crate::liberty_parse::{GroupView, TokView, ValueView};

verus! {

/// What a group's body is written as.
pub ghost enum Statement {
    /// `name : value ;`
    Simple(Seq<char>, ValueView),
    /// `name (values) ;`
    Complex(Seq<char>, Seq<ValueView>),
    /// `name (values) { .. }`, the name on a line.
    Group(Seq<char>, Seq<ValueView>, nat, Seq<Statement>),
}

/// A group with statements behind its others.
pub open spec fn with_statements(g: GroupView, body: Seq<Statement>) -> GroupView
    decreases body,
{
    if body.len() == 0 {
        g
    } else {
        let next = match body[0] {
            Statement::Simple(name, v) => GroupView { simple: g.simple.push((name, v)), ..g },
            Statement::Complex(name, v) => GroupView { complex: g.complex.push((name, v)), ..g },
            Statement::Group(kind, params, line, inner) => GroupView {
                groups: g.groups.push(
                    with_statements(
                        GroupView {
                            kind,
                            params,
                            simple: Seq::empty(),
                            complex: Seq::empty(),
                            groups: Seq::empty(),
                            line,
                        },
                        inner,
                    ),
                ),
                ..g
            },
        };
        with_statements(next, body.subrange(1, body.len() as int))
    }
}

/// How many tokens values take, up to the bracket that closes them.
pub open spec fn values_size(v: Seq<ValueView>) -> int {
    if v.len() == 0 {
        1
    } else {
        2 * v.len() as int
    }
}

/// How many tokens statements take.
pub open spec fn size(body: Seq<Statement>) -> int
    decreases body,
{
    if body.len() == 0 {
        0
    } else {
        let first = match body[0] {
            Statement::Simple(_, _) => 4,
            Statement::Complex(_, v) => 3 + values_size(v),
            Statement::Group(_, v, _, inner) => 4 + values_size(v) + size(inner),
        };
        first + size(body.subrange(1, body.len() as int))
    }
}

/// The token at a place is this punctuation.
pub open spec fn has_mark(t: Seq<(TokView, nat)>, pos: int, c: char) -> bool {
    0 <= pos < t.len() && t[pos].0 == TokView::Punct(c)
}

/// The token at a place is this word.
pub open spec fn has_word(t: Seq<(TokView, nat)>, pos: int, s: Seq<char>) -> bool {
    0 <= pos < t.len() && t[pos].0 == TokView::Word(s)
}

/// The token at a place is this value: a number, or a text with or without quotes.
pub open spec fn has_value(t: Seq<(TokView, nat)>, pos: int, v: ValueView) -> bool {
    0 <= pos < t.len() && match v {
        ValueView::Float(x) => t[pos].0 == TokView::Float(x),
        ValueView::Str(s) => t[pos].0 == TokView::Word(s) || t[pos].0 == TokView::Quoted(s),
    }
}

/// Values written from a place on, commas between them and a bracket behind.
pub open spec fn has_values(t: Seq<(TokView, nat)>, pos: int, v: Seq<ValueView>) -> bool {
    if v.len() == 0 {
        has_mark(t, pos, ')')
    } else {
        forall|i: int|
            0 <= i < v.len() ==> has_value(t, pos + 2 * i, #[trigger] v[i]) && has_mark(
                t,
                pos + 2 * i + 1,
                if i < v.len() - 1 {
                    ','
                } else {
                    ')'
                },
            )
    }
}

/// Statements written from a place on.
pub open spec fn written(t: Seq<(TokView, nat)>, pos: int, body: Seq<Statement>) -> bool
    decreases body,
{
    if body.len() == 0 {
        true
    } else {
        let rest = body.subrange(1, body.len() as int);
        match body[0] {
            Statement::Simple(name, v) => {
                &&& has_word(t, pos, name)
                &&& has_mark(t, pos + 1, ':')
                &&& has_value(t, pos + 2, v)
                &&& has_mark(t, pos + 3, ';')
                &&& written(t, pos + 4, rest)
            },
            Statement::Complex(name, v) => {
                let end = pos + 2 + values_size(v);
                &&& has_word(t, pos, name)
                &&& has_mark(t, pos + 1, '(')
                &&& has_values(t, pos + 2, v)
                &&& has_mark(t, end, ';')
                &&& written(t, end + 1, rest)
            },
            Statement::Group(kind, v, line, inner) => {
                let end = pos + 2 + values_size(v);
                &&& has_word(t, pos, kind)
                &&& t[pos].1 == line
                &&& has_mark(t, pos + 1, '(')
                &&& has_values(t, pos + 2, v)
                &&& has_mark(t, end, '{')
                &&& written(t, end + 1, inner)
                &&& has_mark(t, end + 1 + size(inner), '}')
                &&& !has_mark(t, end + 2 + size(inner), ';')
                &&& written(t, end + 2 + size(inner), rest)
            },
        }
    }
}

/// A value that punctuation ends is read as it is.
proof fn lemma_value(t: Seq<(TokView, nat)>, pos: int, v: ValueView, c: char)
    requires
        has_value(t, pos, v),
        has_mark(t, pos + 1, c),
        c == ',' || c == ';' || c == ')',
    ensures
        liberty_parse::value_at(t, pos) == Ok::<(ValueView, int), liberty_parse::ParseErrorView>((v, pos + 1)),
{
    reveal_with_fuel(liberty_parse::value_parts, 3);
    let token = t[pos].0;
    let none: Seq<TokView> = Seq::empty();
    let parts = none.push(token);
    assert(liberty_parse::value_parts(t, pos + 1, 0, parts) == (parts, pos + 1));
    assert(liberty_parse::value_parts(t, pos, 0, none) == (parts, pos + 1));
    assert(parts.drop_last() =~= none);
    reveal_with_fuel(liberty_parse::flat_text, 2);
    assert(liberty_parse::flat_text(none) =~= Seq::<char>::empty());
    let text = liberty_parse::tok_text(token);
    assert(Seq::<char>::empty() + text =~= text);
}

proof fn lemma_values(t: Seq<(TokView, nat)>, pos: int, v: Seq<ValueView>, i: int)
    requires
        has_values(t, pos, v),
        0 <= i < v.len(),
    ensures
        liberty_parse::values_at(t, pos + 2 * i, v.take(i)) == Ok::<
            (Seq<ValueView>, int),
            liberty_parse::ParseErrorView,
        >((v, pos + 2 * v.len())),
    decreases v.len() - i,
{
    let at = pos + 2 * i;
    assert(has_value(t, at, v[i]));
    assert(v.take(i).push(v[i]) =~= v.take(i + 1));
    if i == v.len() - 1 {
        lemma_value(t, at, v[i], ')');
        assert(v.take(i + 1) =~= v);
        assert(liberty_parse::values_at(t, at + 1, v) == Ok::<
            (Seq<ValueView>, int),
            liberty_parse::ParseErrorView,
        >((v, at + 2)));
    } else {
        lemma_value(t, at, v[i], ',');
        lemma_values(t, pos, v, i + 1);
        assert(liberty_parse::values_at(t, at + 1, v.take(i + 1)) == liberty_parse::values_at(
            t,
            at + 2,
            v.take(i + 1),
        ));
    }
}

proof fn lemma_all_values(t: Seq<(TokView, nat)>, pos: int, v: Seq<ValueView>)
    requires
        0 <= pos,
        has_values(t, pos, v),
    ensures
        liberty_parse::values_at(t, pos, Seq::empty()) == Ok::<
            (Seq<ValueView>, int),
            liberty_parse::ParseErrorView,
        >((v, pos + values_size(v))),
{
    if v.len() > 0 {
        lemma_values(t, pos, v, 0);
        assert(v.take(0) =~= Seq::<ValueView>::empty());
    } else {
        assert(v =~= Seq::<ValueView>::empty());
    }
}

proof fn lemma_size(body: Seq<Statement>)
    ensures
        size(body) >= 0,
    decreases body,
{
    if body.len() > 0 {
        lemma_size(body.subrange(1, body.len() as int));
        if let Statement::Group(_, _, _, inner) = body[0] {
            lemma_size(inner);
        }
    }
}

/// A body that is written out reads back: statements in a row, up to the brace that closes them, are
/// read as the group with just these attributes and groups, and reading ends at the brace.
pub proof fn lemma_body_reads_back(t: Seq<(TokView, nat)>, pos: int, g: GroupView, body: Seq<Statement>)
    requires
        0 <= pos,
        written(t, pos, body),
        has_mark(t, pos + size(body), '}'),
    ensures
        liberty_parse::statements_at(t, pos, g) == Ok::<(GroupView, int), liberty_parse::ParseErrorView>(
            (with_statements(g, body), pos + size(body)),
        ),
    decreases body,
{
    if body.len() > 0 {
        let rest = body.subrange(1, body.len() as int);
        lemma_size(rest);
        match body[0] {
            Statement::Simple(name, v) => {
                lemma_value(t, pos + 2, v, ';');
                let next = GroupView { simple: g.simple.push((name, v)), ..g };
                lemma_body_reads_back(t, pos + 4, next, rest);
            },
            Statement::Complex(name, v) => {
                lemma_all_values(t, pos + 2, v);
                let next = GroupView { complex: g.complex.push((name, v)), ..g };
                lemma_body_reads_back(t, pos + 3 + values_size(v), next, rest);
            },
            Statement::Group(kind, v, line, inner) => {
                lemma_all_values(t, pos + 2, v);
                lemma_size(inner);
                let end = pos + 2 + values_size(v);
                let fresh = GroupView {
                    kind,
                    params: v,
                    simple: Seq::empty(),
                    complex: Seq::empty(),
                    groups: Seq::empty(),
                    line,
                };
                assert(liberty_parse::empty_group(kind, v, line) == fresh);
                lemma_body_reads_back(t, end + 1, fresh, inner);
                let made = with_statements(fresh, inner);
                let next = GroupView { groups: g.groups.push(made), ..g };
                lemma_body_reads_back(t, end + 2 + size(inner), next, rest);
            },
        }
    }
}

/// A library that is written out reads back: one group from the first token to the last is read as that
/// group.
pub proof fn lemma_library_reads_back(
    t: Seq<(TokView, nat)>,
    kind: Seq<char>,
    params: Seq<ValueView>,
    line: nat,
    body: Seq<Statement>,
)
    requires
        written(t, 0, seq![Statement::Group(kind, params, line, body)]),
        t.len() == size(seq![Statement::Group(kind, params, line, body)]),
    ensures
        liberty_parse::top_groups(t, 0, Seq::empty()) == Ok::<Seq<GroupView>, liberty_parse::ParseErrorView>(
            seq![
                with_statements(
                    GroupView {
                        kind,
                        params,
                        simple: Seq::empty(),
                        complex: Seq::empty(),
                        groups: Seq::empty(),
                        line,
                    },
                    body,
                ),
            ],
        ),
{
    let all = seq![Statement::Group(kind, params, line, body)];
    assert(all[0] == Statement::Group(kind, params, line, body));
    assert(all.subrange(1, 1) =~= Seq::<Statement>::empty());
    assert(size(all.subrange(1, 1)) == 0);
    lemma_all_values(t, 2, params);
    lemma_size(body);
    let end = 2 + values_size(params);
    let fresh = GroupView {
        kind,
        params,
        simple: Seq::empty(),
        complex: Seq::empty(),
        groups: Seq::empty(),
        line,
    };
    assert(liberty_parse::empty_group(kind, params, line) == fresh);
    lemma_body_reads_back(t, end + 1, fresh, body);
    let g = with_statements(fresh, body);
    let close = end + 1 + size(body);
    assert(liberty_parse::past_semicolon(t, close + 1) == close + 1);
    let none: Seq<GroupView> = Seq::empty();
    assert(none.push(g) =~= seq![g]);
    assert(liberty_parse::top_groups(t, close + 1, seq![g]) == Ok::<
        Seq<GroupView>,
        liberty_parse::ParseErrorView,
    >(seq![g]));
}

} // verus!

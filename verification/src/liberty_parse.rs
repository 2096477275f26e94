//! Liberty syntax: groups, simple attributes and complex attributes, every value kept as text.
//!
//! - An unquoted token is a number when the whole token is a float
//!   (`[-+]?((D+\.?D*)|(\.D+))([Ee][-+]?D+)?`); anything else (`1ns`, `a1`, `IQ`) is a word.
//! - A number is read to the nearest single precision number and kept as the shortest text that
//!   reads back as it, so a number here is what that text parses to.
//! - An attribute value is an expression (`A & B'`, `!X`) flattened back to text; a quoted string
//!   is kept verbatim (a `\` line continuation inside it removed, other escapes kept).
//! - `/* .. */` comments, blanks and `\` line continuations between tokens are skipped.

use vstd::prelude::*;
use vstd::string::StringExecFns;
use crate::float32::F32;
use crate::number;
pub use crate::number::is_float_text;
use crate::shortest;
use crate::text;

verus! {

/// A value as the reader keeps it.
#[derive(Debug, PartialEq)]
pub enum Value {
    /// A number token, already read.
    Float(F32),
    /// Anything else, as text (quoted strings without their quotes).
    Str(String),
}

/// What a value holds.
#[verifier::ext_equal]
pub enum ValueView {
    Float(F32),
    Str(Seq<char>),
}

impl View for Value {
    type V = ValueView;

    open spec fn view(&self) -> ValueView {
        match self {
            Value::Float(v) => ValueView::Float(*v),
            Value::Str(s) => ValueView::Str(s@),
        }
    }
}

impl Clone for Value {
    fn clone(&self) -> (r: Value)
        ensures
            r@ == self@,
    {
        match self {
            Value::Float(v) => Value::Float(*v),
            Value::Str(s) => Value::Str(s.clone()),
        }
    }
}

impl ValueView {
    pub open spec fn float(self) -> Option<F32> {
        match self {
            ValueView::Float(v) => Some(v),
            ValueView::Str(s) => number::number(s),
        }
    }

    pub open spec fn text(self) -> Seq<char> {
        match self {
            ValueView::Float(v) => shortest::display(v),
            ValueView::Str(s) => s,
        }
    }
}

impl Value {
    /// A number token, or text that parses whole as one.
    pub fn float(&self) -> (r: Option<F32>)
        ensures
            r == self@.float(),
    {
        match self {
            Value::Float(v) => Some(*v),
            Value::Str(s) => number::parse_number(s.as_str()),
        }
    }

    pub fn text(&self) -> (r: String)
        ensures
            r@ == self@.text(),
    {
        match self {
            Value::Float(v) => shortest::display_text(*v),
            Value::Str(s) => s.clone(),
        }
    }
}

/// A number's text reads as the number it was written from.
pub proof fn lemma_number_text_reads_back(v: F32)
    requires
        !v.nan(),
    ensures
        ValueView::Str(ValueView::Float(v).text()).float() == ValueView::Float(v).float(),
{
    shortest::lemma_display_reads_back(v);
}

/// A group: `type (params) { .. }`.
#[derive(Debug, PartialEq)]
pub struct Group {
    pub kind: String,
    pub params: Vec<Value>,
    /// `name : value ;`, in file order.
    pub simple: Vec<(String, Value)>,
    /// `name (values) ;`, in file order.
    pub complex: Vec<(String, Vec<Value>)>,
    pub groups: Vec<Group>,
    pub line: usize,
}

/// What a group holds.
#[verifier::ext_equal]
pub struct GroupView {
    pub kind: Seq<char>,
    pub params: Seq<ValueView>,
    pub simple: Seq<(Seq<char>, ValueView)>,
    pub complex: Seq<(Seq<char>, Seq<ValueView>)>,
    pub groups: Seq<GroupView>,
    pub line: nat,
}

pub open spec fn value_views(v: Seq<Value>) -> Seq<ValueView> {
    Seq::new(v.len(), |i: int| v[i]@)
}

pub open spec fn simple_views(v: Seq<(String, Value)>) -> Seq<(Seq<char>, ValueView)> {
    Seq::new(v.len(), |i: int| (v[i].0@, v[i].1@))
}

pub open spec fn complex_views(v: Seq<(String, Vec<Value>)>) -> Seq<(Seq<char>, Seq<ValueView>)> {
    Seq::new(v.len(), |i: int| (v[i].0@, value_views(v[i].1@)))
}

pub open spec fn group_views(v: Seq<Group>) -> Seq<GroupView>
    decreases v,
{
    Seq::new(
        v.len(),
        |i: int|
            if 0 <= i < v.len() {
                group_view(v[i])
            } else {
                arbitrary()
            },
    )
}

pub open spec fn group_view(g: Group) -> GroupView
    decreases g,
{
    GroupView {
        kind: g.kind@,
        params: value_views(g.params@),
        simple: simple_views(g.simple@),
        complex: complex_views(g.complex@),
        groups: group_views(g.groups@),
        line: g.line as nat,
    }
}

impl View for Group {
    type V = GroupView;

    open spec fn view(&self) -> GroupView {
        group_view(*self)
    }
}

/// A group of a kind with parameters and nothing in it.
pub open spec fn empty_group(kind: Seq<char>, params: Seq<ValueView>, line: nat) -> GroupView {
    GroupView {
        kind,
        params,
        simple: Seq::empty(),
        complex: Seq::empty(),
        groups: Seq::empty(),
        line,
    }
}

/// The last value under a name.
pub open spec fn last_named(s: Seq<(Seq<char>, ValueView)>, name: Seq<char>) -> Option<ValueView>
    decreases s.len(),
{
    if s.len() == 0 {
        None
    } else if s.last().0 == name {
        Some(s.last().1)
    } else {
        last_named(s.drop_last(), name)
    }
}

/// The first values under a name.
pub open spec fn first_named(s: Seq<(Seq<char>, Seq<ValueView>)>, name: Seq<char>) -> Option<Seq<ValueView>>
    decreases s.len(),
{
    if s.len() == 0 {
        None
    } else if s[0].0 == name {
        Some(s[0].1)
    } else {
        first_named(s.skip(1), name)
    }
}

/// The groups of a kind, in order.
pub open spec fn of_kind(s: Seq<GroupView>, kind: Seq<char>) -> Seq<GroupView>
    decreases s.len(),
{
    if s.len() == 0 {
        Seq::empty()
    } else if s.last().kind == kind {
        of_kind(s.drop_last(), kind).push(s.last())
    } else {
        of_kind(s.drop_last(), kind)
    }
}

impl GroupView {
    pub open spec fn attr(self, name: Seq<char>) -> Option<ValueView> {
        last_named(self.simple, name)
    }

    pub open spec fn attr_float(self, name: Seq<char>) -> Option<F32> {
        match self.attr(name) {
            Some(v) => v.float(),
            None => None,
        }
    }

    pub open spec fn attr_text(self, name: Seq<char>) -> Option<Seq<char>> {
        match self.attr(name) {
            Some(v) => Some(v.text()),
            None => None,
        }
    }

    pub open spec fn complex_attr(self, name: Seq<char>) -> Option<Seq<ValueView>> {
        first_named(self.complex, name)
    }

    pub open spec fn groups_of(self, kind: Seq<char>) -> Seq<GroupView> {
        of_kind(self.groups, kind)
    }

    pub open spec fn name(self) -> Option<Seq<char>> {
        if self.params.len() == 0 {
            None
        } else {
            Some(self.params[0].text())
        }
    }
}

fn copy_values(v: &Vec<Value>) -> (r: Vec<Value>)
    ensures
        value_views(r@) == value_views(v@),
{
    let r: Vec<Value> = v.clone();
    assert(value_views(r@) =~= value_views(v@));
    r
}

fn copy_group(g: &Group) -> (r: Group)
    ensures
        group_view(r) == group_view(*g),
    decreases *g,
{
    let mut simple: Vec<(String, Value)> = Vec::new();
    let mut i: usize = 0;
    while i < g.simple.len()
        invariant
            i <= g.simple@.len(),
            simple@.len() == i,
            forall|j: int|
                0 <= j < i ==> (#[trigger] simple@[j]).0@ == g.simple@[j].0@ && simple@[j].1@ == g.simple@[j].1@,
        decreases g.simple@.len() - i,
    {
        simple.push((g.simple[i].0.clone(), g.simple[i].1.clone()));
        i = i + 1;
    }
    assert(simple_views(simple@) =~= simple_views(g.simple@));
    let mut complex: Vec<(String, Vec<Value>)> = Vec::new();
    let mut k: usize = 0;
    while k < g.complex.len()
        invariant
            k <= g.complex@.len(),
            complex@.len() == k,
            forall|j: int|
                0 <= j < k ==> (#[trigger] complex@[j]).0@ == g.complex@[j].0@ && value_views(complex@[j].1@)
                    == value_views(g.complex@[j].1@),
        decreases g.complex@.len() - k,
    {
        complex.push((g.complex[k].0.clone(), copy_values(&g.complex[k].1)));
        k = k + 1;
    }
    assert(complex_views(complex@) =~= complex_views(g.complex@));
    let mut groups: Vec<Group> = Vec::new();
    let mut m: usize = 0;
    while m < g.groups.len()
        invariant
            m <= g.groups@.len(),
            groups@.len() == m,
            forall|j: int| 0 <= j < m ==> group_view(#[trigger] groups@[j]) == group_view(g.groups@[j]),
        decreases g.groups@.len() - m,
    {
        assert(decreases_to!(*g => g.groups@[m as int]));
        groups.push(copy_group(&g.groups[m]));
        m = m + 1;
    }
    assert(group_views(groups@) =~= group_views(g.groups@));
    Group { kind: g.kind.clone(), params: copy_values(&g.params), simple, complex, groups, line: g.line }
}

impl Clone for Group {
    fn clone(&self) -> (r: Group)
        ensures
            r@ == self@,
    {
        copy_group(self)
    }
}

impl Default for Group {
    fn default() -> (r: Group)
        ensures
            r@ == empty_group(Seq::empty(), Seq::empty(), 0),
    {
        let g: Group = Group {
            kind: String::new(),
            params: Vec::new(),
            simple: Vec::new(),
            complex: Vec::new(),
            groups: Vec::new(),
            line: 0,
        };
        assert(group_views(g.groups@) =~= Seq::<GroupView>::empty());
        assert(g@ =~= empty_group(Seq::empty(), Seq::empty(), 0));
        g
    }
}

impl Group {
    /// The value of the last simple attribute of a name.
    pub fn attr(&self, name: &str) -> (r: Option<&Value>)
        ensures
            match r {
                Some(v) => self@.attr(name@) == Some(v@),
                None => self@.attr(name@) is None,
            },
    {
        let mut i: usize = self.simple.len();
        assert(self@.simple.take(i as int) =~= self@.simple);
        while i > 0
            invariant
                i <= self.simple@.len(),
                self@.attr(name@) == last_named(self@.simple.take(i as int), name@),
            decreases i,
        {
            let ghost s = self@.simple.take(i as int);
            assert(s.drop_last() =~= self@.simple.take(i - 1));
            i = i - 1;
            if *self.simple[i].0.as_str() == *name {
                return Some(&self.simple[i].1);
            }
        }
        None
    }

    pub fn attr_float(&self, name: &str) -> (r: Option<F32>)
        ensures
            r == self@.attr_float(name@),
    {
        match self.attr(name) {
            Some(v) => v.float(),
            None => None,
        }
    }

    pub fn attr_text(&self, name: &str) -> (r: Option<String>)
        ensures
            match r {
                Some(s) => self@.attr_text(name@) == Some(s@),
                None => self@.attr_text(name@) is None,
            },
    {
        match self.attr(name) {
            Some(v) => Some(v.text()),
            None => None,
        }
    }

    /// The values of the first complex attribute of a name.
    pub fn complex_attr(&self, name: &str) -> (r: Option<&Vec<Value>>)
        ensures
            match r {
                Some(v) => self@.complex_attr(name@) == Some(value_views(v@)),
                None => self@.complex_attr(name@) is None,
            },
    {
        let mut i: usize = 0;
        assert(self@.complex.skip(0) =~= self@.complex);
        while i < self.complex.len()
            invariant
                i <= self.complex@.len(),
                self@.complex_attr(name@) == first_named(self@.complex.skip(i as int), name@),
            decreases self.complex@.len() - i,
        {
            let ghost s = self@.complex.skip(i as int);
            assert(s.skip(1) =~= self@.complex.skip(i + 1));
            if *self.complex[i].0.as_str() == *name {
                return Some(&self.complex[i].1);
            }
            i = i + 1;
        }
        None
    }

    /// The groups of a kind, in file order.
    pub fn groups_of<'a>(&'a self, kind: &str) -> (r: Vec<&'a Group>)
        ensures
            r@.len() == self@.groups_of(kind@).len(),
            forall|i: int| 0 <= i < r@.len() ==> (#[trigger] r@[i])@ == self@.groups_of(kind@)[i],
    {
        let mut out: Vec<&'a Group> = Vec::new();
        let mut i: usize = 0;
        assert(self@.groups.take(0) =~= Seq::<GroupView>::empty());
        while i < self.groups.len()
            invariant
                i <= self.groups@.len(),
                out@.len() == of_kind(self@.groups.take(i as int), kind@).len(),
                forall|j: int|
                    0 <= j < out@.len() ==> (#[trigger] out@[j])@ == of_kind(
                        self@.groups.take(i as int),
                        kind@,
                    )[j],
            decreases self.groups@.len() - i,
        {
            assert(self@.groups.take(i + 1).drop_last() =~= self@.groups.take(i as int));
            assert(self@.groups.take(i + 1).last() == self.groups@[i as int]@);
            if *self.groups[i].kind.as_str() == *kind {
                out.push(&self.groups[i]);
            }
            i = i + 1;
        }
        assert(self@.groups.take(i as int) =~= self@.groups);
        out
    }

    /// The first parameter, as text.
    pub fn name(&self) -> (r: Option<String>)
        ensures
            match r {
                Some(s) => self@.name() == Some(s@),
                None => self@.name() is None,
            },
    {
        if self.params.len() == 0 {
            None
        } else {
            Some(self.params[0].text())
        }
    }
}

/// A token.
#[derive(Debug, PartialEq)]
pub enum Tok {
    Float(F32),
    Word(String),
    Quoted(String),
    Punct(char),
}

/// What a token holds.
#[verifier::ext_equal]
pub enum TokView {
    Float(F32),
    Word(Seq<char>),
    Quoted(Seq<char>),
    Punct(char),
}

impl View for Tok {
    type V = TokView;

    open spec fn view(&self) -> TokView {
        match self {
            Tok::Float(v) => TokView::Float(*v),
            Tok::Word(s) => TokView::Word(s@),
            Tok::Quoted(s) => TokView::Quoted(s@),
            Tok::Punct(c) => TokView::Punct(*c),
        }
    }
}

impl Clone for Tok {
    fn clone(&self) -> (r: Tok)
        ensures
            r@ == self@,
    {
        match self {
            Tok::Float(v) => Tok::Float(*v),
            Tok::Word(s) => Tok::Word(s.clone()),
            Tok::Quoted(s) => Tok::Quoted(s.clone()),
            Tok::Punct(c) => Tok::Punct(*c),
        }
    }
}

/// Tokens, each with the line it ends on.
pub open spec fn tok_views(v: Seq<(Tok, usize)>) -> Seq<(TokView, nat)> {
    Seq::new(v.len(), |i: int| (v[i].0@, v[i].1 as nat))
}

/// Why a text is no liberty file.
#[derive(Debug, PartialEq)]
pub enum ParseError {
    UnterminatedString { line: usize },
    ExpectedValue { line: usize },
    UnexpectedEnd,
    Unexpected { line: usize, token: Tok },
    UnexpectedAfter { line: usize, name: String, found: Option<Tok> },
    UnexpectedAtTop { line: usize, token: Tok },
    ExpectedGroup { line: usize, name: String },
    ExpectedBody { line: usize, name: String },
    NoLibrary,
}

/// What a parse error holds.
#[verifier::ext_equal]
pub enum ParseErrorView {
    UnterminatedString { line: nat },
    ExpectedValue { line: nat },
    UnexpectedEnd,
    Unexpected { line: nat, token: TokView },
    UnexpectedAfter { line: nat, name: Seq<char>, found: Option<TokView> },
    UnexpectedAtTop { line: nat, token: TokView },
    ExpectedGroup { line: nat, name: Seq<char> },
    ExpectedBody { line: nat, name: Seq<char> },
    NoLibrary,
}

impl View for ParseError {
    type V = ParseErrorView;

    open spec fn view(&self) -> ParseErrorView {
        match self {
            ParseError::UnterminatedString { line } => ParseErrorView::UnterminatedString {
                line: *line as nat,
            },
            ParseError::ExpectedValue { line } => ParseErrorView::ExpectedValue { line: *line as nat },
            ParseError::UnexpectedEnd => ParseErrorView::UnexpectedEnd,
            ParseError::Unexpected { line, token } => ParseErrorView::Unexpected {
                line: *line as nat,
                token: token@,
            },
            ParseError::UnexpectedAfter { line, name, found } => ParseErrorView::UnexpectedAfter {
                line: *line as nat,
                name: name@,
                found: match found {
                    Some(t) => Some(t@),
                    None => None,
                },
            },
            ParseError::UnexpectedAtTop { line, token } => ParseErrorView::UnexpectedAtTop {
                line: *line as nat,
                token: token@,
            },
            ParseError::ExpectedGroup { line, name } => ParseErrorView::ExpectedGroup {
                line: *line as nat,
                name: name@,
            },
            ParseError::ExpectedBody { line, name } => ParseErrorView::ExpectedBody {
                line: *line as nat,
                name: name@,
            },
            ParseError::NoLibrary => ParseErrorView::NoLibrary,
        }
    }
}

/// `,:;|(){}+*&!'=`.
pub open spec fn is_punctuation(c: char) -> bool {
    c == ',' || c == ':' || c == ';' || c == '|' || c == '(' || c == ')' || c == '{' || c == '}' || c == '+'
        || c == '*' || c == '&' || c == '!' || c == '\'' || c == '='
}

/// A `\` before a line break.
pub open spec fn continuation_at(c: Seq<char>, i: int) -> bool {
    c[i] == '\\' && i + 1 < c.len() && (c[i + 1] == '\n' || c[i + 1] == '\r')
}

/// A blank or a line continuation.
pub open spec fn blank_at(c: Seq<char>, i: int) -> bool {
    c[i] == ' ' || c[i] == '\t' || c[i] == '\r' || continuation_at(c, i)
}

pub open spec fn pair_at(c: Seq<char>, i: int, x: char, y: char) -> bool {
    c[i] == x && i + 1 < c.len() && c[i + 1] == y
}

/// The line breaks from `a` up to `b`.
pub open spec fn line_breaks(c: Seq<char>, a: int, b: int) -> nat
    decreases b - a,
{
    if a >= b {
        0
    } else {
        line_breaks(c, a, b - 1) + if c[b - 1] == '\n' {
            1nat
        } else {
            0
        }
    }
}

/// Past the `*/` that closes a comment whose text starts at `i`.
pub open spec fn comment_end(c: Seq<char>, i: int) -> int
    decreases c.len() - i,
{
    if i + 1 >= c.len() {
        c.len() as int
    } else if c[i] == '*' && c[i + 1] == '/' {
        i + 2
    } else {
        comment_end(c, i + 1)
    }
}

/// The end of the line that `i` stands on.
pub open spec fn line_end(c: Seq<char>, i: int) -> int
    decreases c.len() - i,
{
    if i >= c.len() || c[i] == '\n' {
        i
    } else {
        line_end(c, i + 1)
    }
}

/// The rest of a quoted string from `i` behind the text `s`: its text, the position past its
/// closing quote and the line there; on a bare line break, that line.
pub open spec fn quoted(c: Seq<char>, i: int, line: nat, s: Seq<char>) -> Result<(Seq<char>, int, nat), nat>
    decreases c.len() - i,
{
    if i >= c.len() {
        Ok((s, i, line))
    } else if c[i] == '"' {
        Ok((s, i + 1, line))
    } else if c[i] == '\\' && i + 1 < c.len() {
        if c[i + 1] == '\n' {
            quoted(c, i + 2, line + 1, s)
        } else if c[i + 1] == '\r' && i + 2 < c.len() && c[i + 2] == '\n' {
            quoted(c, i + 3, line + 1, s)
        } else {
            quoted(c, i + 2, line, s.push('\\').push(c[i + 1]))
        }
    } else if c[i] == '\n' {
        Err(line)
    } else {
        quoted(c, i + 1, line, s.push(c[i]))
    }
}

/// A single character that is a token: punctuation, a `+` only where no number follows.
pub open spec fn punct_at(c: Seq<char>, i: int) -> bool {
    if c[i] == '+' {
        !(i + 1 < c.len() && (text::is_digit(c[i + 1]) || c[i + 1] == '.'))
    } else {
        is_punctuation(c[i])
    }
}

/// A character that ends a bare token: a blank, a line break, a quote or punctuation; a `+` not
/// behind an `e` or `E`.
pub open spec fn ends_word(c: Seq<char>, i: int) -> bool {
    c[i] == ' ' || c[i] == '\t' || c[i] == '\r' || c[i] == '\n' || c[i] == '"' || (is_punctuation(c[i]) && c[i]
        != '+') || (c[i] == '+' && c[i - 1] != 'e' && c[i - 1] != 'E') || continuation_at(c, i)
}

pub open spec fn word_end(c: Seq<char>, i: int) -> int
    decreases c.len() - i,
{
    if i >= c.len() || ends_word(c, i) {
        i
    } else {
        word_end(c, i + 1)
    }
}

/// A bare token: a number where the whole of it is a float, else a word.
pub open spec fn bare(s: Seq<char>) -> TokView {
    if number::float_text(s) {
        TokView::Float(number::float_value(s))
    } else {
        TokView::Word(s)
    }
}

/// What stands at `i`: nothing to keep, a token, or a string that a line break cuts off; with the
/// position behind it and the line there.
#[verifier::ext_equal]
pub enum Piece {
    Skip { end: int, line: nat },
    Token { token: TokView, end: int, line: nat },
    CutString { line: nat },
}

pub open spec fn piece(c: Seq<char>, i: int, line: nat) -> Piece {
    if c[i] == '\n' {
        Piece::Skip { end: i + 1, line: line + 1 }
    } else if blank_at(c, i) {
        Piece::Skip { end: i + 1, line }
    } else if pair_at(c, i, '/', '*') {
        let end = comment_end(c, i + 2);
        Piece::Skip { end, line: line + line_breaks(c, i + 2, end) }
    } else if pair_at(c, i, '/', '/') {
        Piece::Skip { end: line_end(c, i), line }
    } else if c[i] == '"' {
        match quoted(c, i + 1, line, Seq::empty()) {
            Ok((s, end, l)) => Piece::Token { token: TokView::Quoted(s), end, line: l },
            Err(l) => Piece::CutString { line: l },
        }
    } else if punct_at(c, i) {
        Piece::Token { token: TokView::Punct(c[i]), end: i + 1, line }
    } else {
        let end = word_end(c, i + 1);
        Piece::Token { token: bare(c.subrange(i, end)), end, line }
    }
}

proof fn lemma_scans_advance(c: Seq<char>, i: int)
    requires
        0 <= i <= c.len(),
    ensures
        i <= comment_end(c, i) <= c.len(),
        i <= line_end(c, i) <= c.len(),
        i <= word_end(c, i) <= c.len(),
    decreases c.len() - i,
{
    if i < c.len() {
        lemma_scans_advance(c, i + 1);
    }
}

proof fn lemma_quoted_advances(c: Seq<char>, i: int, line: nat, s: Seq<char>)
    requires
        0 <= i <= c.len(),
    ensures
        quoted(c, i, line, s) matches Ok((_, end, _)) ==> i <= end <= c.len(),
    decreases c.len() - i,
{
    if i < c.len() && c[i] != '"' {
        if c[i] == '\\' && i + 1 < c.len() {
            if c[i + 1] == '\n' {
                lemma_quoted_advances(c, i + 2, line + 1, s);
            } else if c[i + 1] == '\r' && i + 2 < c.len() && c[i + 2] == '\n' {
                lemma_quoted_advances(c, i + 3, line + 1, s);
            } else {
                lemma_quoted_advances(c, i + 2, line, s.push('\\').push(c[i + 1]));
            }
        } else if c[i] != '\n' {
            lemma_quoted_advances(c, i + 1, line, s.push(c[i]));
        }
    }
}

/// What stands at a position ends behind it, within the text.
pub proof fn lemma_piece_advances(c: Seq<char>, i: int, line: nat)
    requires
        0 <= i < c.len(),
    ensures
        match piece(c, i, line) {
            Piece::Skip { end, line: _ } => i < end <= c.len(),
            Piece::Token { token: _, end, line: _ } => i < end <= c.len(),
            Piece::CutString { line: _ } => true,
        },
{
    if pair_at(c, i, '/', '*') {
        lemma_scans_advance(c, i + 2);
    }
    lemma_scans_advance(c, i + 1);
    lemma_quoted_advances(c, i + 1, line, Seq::empty());
}

/// The tokens of a text from `i` on, each with the line it ends on; where a string is cut off,
/// that line.
pub open spec fn tokens(c: Seq<char>, i: int, line: nat) -> Result<Seq<(TokView, nat)>, nat>
    decreases c.len() - i,
{
    if i < 0 || i >= c.len() {
        Ok(Seq::empty())
    } else {
        proof {
            lemma_piece_advances(c, i, line);
        }
        match piece(c, i, line) {
            Piece::Skip { end, line: l } => tokens(c, end, l),
            Piece::Token { token, end, line: l } => match tokens(c, end, l) {
                Ok(rest) => Ok(seq![(token, l)] + rest),
                Err(e) => Err(e),
            },
            Piece::CutString { line: l } => Err(l),
        }
    }
}

/// Tokens before those still to come.
spec fn before(done: Seq<(TokView, nat)>, rest: Result<Seq<(TokView, nat)>, nat>) -> Result<
    Seq<(TokView, nat)>,
    nat,
> {
    match rest {
        Ok(r) => Ok(done + r),
        Err(e) => Err(e),
    }
}

fn in_punctuation(c: char) -> (r: bool)
    ensures
        r == is_punctuation(c),
{
    c == ',' || c == ':' || c == ';' || c == '|' || c == '(' || c == ')' || c == '{' || c == '}' || c == '+'
        || c == '*' || c == '&' || c == '!' || c == '\'' || c == '='
}

fn continues_line(c: &Vec<char>, i: usize) -> (r: bool)
    requires
        i < c@.len(),
    ensures
        r == continuation_at(c@, i as int),
{
    c[i] == '\\' && c.len() - i > 1 && (c[i + 1] == '\n' || c[i + 1] == '\r')
}

fn is_pair(c: &Vec<char>, i: usize, x: char, y: char) -> (r: bool)
    requires
        i < c@.len(),
    ensures
        r == pair_at(c@, i as int, x, y),
{
    c[i] == x && c.len() - i > 1 && c[i + 1] == y
}

/// Skips a comment's text from `from`; the position behind it and the line breaks in it.
fn skip_comment(c: &Vec<char>, from: usize) -> (r: (usize, usize))
    requires
        from <= c@.len(),
    ensures
        r.0 == comment_end(c@, from as int),
        from <= r.0 <= c@.len(),
        r.1 == line_breaks(c@, from as int, r.0 as int),
        r.1 <= r.0 - from,
{
    let mut i: usize = from;
    let mut breaks: usize = 0;
    while c.len() - i > 1 && !(c[i] == '*' && c[i + 1] == '/')
        invariant
            from <= i <= c@.len(),
            comment_end(c@, i as int) == comment_end(c@, from as int),
            breaks == line_breaks(c@, from as int, i as int),
            breaks <= i - from,
        decreases c@.len() - i,
    {
        if c[i] == '\n' {
            breaks = breaks + 1;
        }
        i = i + 1;
    }
    if c.len() - i > 1 {
        assert(line_breaks(c@, from as int, i + 2) == breaks) by {
            assert(line_breaks(c@, from as int, i + 1) == breaks);
        }
        (i + 2, breaks)
    } else {
        if i < c.len() && c[i] == '\n' {
            breaks = breaks + 1;
        }
        (c.len(), breaks)
    }
}

fn skip_line(c: &Vec<char>, from: usize) -> (r: usize)
    requires
        from <= c@.len(),
    ensures
        r == line_end(c@, from as int),
        from <= r <= c@.len(),
{
    let mut i: usize = from;
    while i < c.len() && c[i] != '\n'
        invariant
            from <= i <= c@.len(),
            line_end(c@, i as int) == line_end(c@, from as int),
        decreases c@.len() - i,
    {
        i = i + 1;
    }
    i
}

/// A quoted string from behind its opening quote: its text, the position behind it (no further
/// than the end) and the line there.
fn read_quoted(c: &Vec<char>, from: usize, start_line: usize) -> (r: Result<(String, usize, usize), usize>)
    requires
        1 <= from <= c@.len(),
        start_line <= from,
        c@.len() < usize::MAX,
    ensures
        match r {
            Ok((s, end, l)) => {
                &&& from <= end <= c@.len()
                &&& start_line <= l <= end
                &&& quoted(c@, from as int, start_line as nat, Seq::empty()) == Ok::<
                    (Seq<char>, int, nat),
                    nat,
                >((s@, end as int, l as nat))
            },
            Err(l) => quoted(c@, from as int, start_line as nat, Seq::empty()) == Err::<
                (Seq<char>, int, nat),
                nat,
            >(l as nat),
        },
{
    let mut i: usize = from;
    let mut line: usize = start_line;
    let mut s: String = String::new();
    assert(s@ =~= Seq::<char>::empty());
    while i < c.len() && c[i] != '"'
        invariant
            from <= i <= c@.len(),
            start_line <= line <= i,
            c@.len() < usize::MAX,
            quoted(c@, i as int, line as nat, s@) == quoted(
                c@,
                from as int,
                start_line as nat,
                Seq::empty(),
            ),
        decreases c@.len() - i,
    {
        if c[i] == '\\' && c.len() - i > 1 {
            if c[i + 1] == '\n' {
                line = line + 1;
                i = i + 2;
                continue ;
            }
            if c[i + 1] == '\r' && c.len() - i > 2 && c[i + 2] == '\n' {
                line = line + 1;
                i = i + 3;
                continue ;
            }
            s.push('\\');
            s.push(c[i + 1]);
            i = i + 2;
            continue ;
        }
        if c[i] == '\n' {
            return Err(line);
        }
        s.push(c[i]);
        i = i + 1;
    }
    let end: usize = if i < c.len() {
        i + 1
    } else {
        i
    };
    Ok((s, end, line))
}

fn skip_word(c: &Vec<char>, from: usize) -> (r: usize)
    requires
        1 <= from <= c@.len(),
    ensures
        r == word_end(c@, from as int),
        from <= r <= c@.len(),
{
    let mut i: usize = from;
    loop
        invariant
            1 <= from <= i <= c@.len(),
            word_end(c@, i as int) == word_end(c@, from as int),
        decreases c@.len() - i,
    {
        if i >= c.len() {
            return i;
        }
        let d: char = c[i];
        if d == ' ' || d == '\t' || d == '\r' || d == '\n' || (in_punctuation(d) && d != '+') || d == '"' {
            return i;
        }
        // A `+` ends a word but belongs to an exponent (`1e+3`).
        if d == '+' && c[i - 1] != 'e' && c[i - 1] != 'E' {
            return i;
        }
        if continues_line(c, i) {
            return i;
        }
        i = i + 1;
    }
}

/// A string, a punctuation or a bare token at `i`, the position behind it and the line there.
fn read_token(c: &Vec<char>, i: usize, line: usize) -> (r: Result<(Tok, usize, usize), usize>)
    requires
        i < c@.len() < usize::MAX,
        1 <= line <= i + 1,
        c@[i as int] != '\n',
        !blank_at(c@, i as int),
        !pair_at(c@, i as int, '/', '*'),
        !pair_at(c@, i as int, '/', '/'),
    ensures
        match r {
            Ok((t, end, l)) => {
                &&& piece(c@, i as int, line as nat) == Piece::Token {
                    token: t@,
                    end: end as int,
                    line: l as nat,
                }
                &&& i < end <= c@.len()
                &&& 1 <= l <= end + 1
            },
            Err(l) => piece(c@, i as int, line as nat) == Piece::CutString { line: l as nat },
        },
{
    let ch: char = c[i];
    proof {
        lemma_piece_advances(c@, i as int, line as nat);
    }
    if ch == '"' {
        match read_quoted(c, i + 1, line) {
            Ok((s, end, l)) => Ok((Tok::Quoted(s), end, l)),
            Err(l) => Err(l),
        }
    } else if (in_punctuation(ch) && ch != '+') || (ch == '+' && !(c.len() - i > 1 && (number::is_digit(
        c[i + 1],
    ) || c[i + 1] == '.'))) {
        Ok((Tok::Punct(ch), i + 1, line))
    } else {
        // A bare token runs to the next punctuation (a leading sign aside), blank or line break.
        let end: usize = skip_word(c, i + 1);
        let t: String = text::slice(c, i, end);
        if number::is_float_text(t.as_str()) {
            match number::parse_number(t.as_str()) {
                Some(v) => {
                    return Ok((Tok::Float(v), end, line));
                },
                None => {},
            }
        }
        Ok((Tok::Word(t), end, line))
    }
}

/// The tokens of a text, each with the line it ends on.
pub fn tokenize(text: &str) -> (r: Result<Vec<(Tok, usize)>, ParseError>)
    requires
        text@.len() < usize::MAX,
    ensures
        match r {
            Ok(t) => tokens(text@, 0, 1) == Ok::<Seq<(TokView, nat)>, nat>(tok_views(t@)) && t@.len()
                <= text@.len(),
            Err(e) => e@ is UnterminatedString && tokens(text@, 0, 1) == Err::<Seq<(TokView, nat)>, nat>(
                e@->UnterminatedString_line,
            ),
        },
{
    let c: Vec<char> = text::to_chars(text);
    let mut i: usize = 0;
    let mut line: usize = 1;
    let mut out: Vec<(Tok, usize)> = Vec::new();
    proof {
        lemma_before_none(tokens(c@, 0, 1));
        assert(tok_views(out@) =~= Seq::<(TokView, nat)>::empty());
    }
    while i < c.len()
        invariant
            c@ == text@,
            i <= c@.len() < usize::MAX,
            1 <= line <= i + 1,
            out@.len() <= i,
            before(tok_views(out@), tokens(c@, i as int, line as nat)) == tokens(c@, 0, 1),
        decreases c@.len() - i,
    {
        proof {
            lemma_piece_advances(c@, i as int, line as nat);
        }
        let ch: char = c[i];
        if ch == '\n' {
            line = line + 1;
            i = i + 1;
        } else if ch == ' ' || ch == '\t' || ch == '\r' || continues_line(&c, i) {
            // A blank, or a line continuation (its line break is counted next).
            i = i + 1;
        } else if is_pair(&c, i, '/', '*') {
            let (end, breaks): (usize, usize) = skip_comment(&c, i + 2);
            line = line + breaks;
            i = end;
        } else if is_pair(&c, i, '/', '/') {
            i = skip_line(&c, i);
        } else {
            match read_token(&c, i, line) {
                Ok((token, end, l)) => {
                    proof {
                        lemma_before_next(tok_views(out@), (token@, l as nat), tokens(c@, end as int, l as nat));
                    }
                    let ghost done = tok_views(out@);
                    let ghost next = (token@, l as nat);
                    out.push((token, l));
                    assert(tok_views(out@) =~= done.push(next));
                    i = end;
                    line = l;
                },
                Err(l) => {
                    return Err(ParseError::UnterminatedString { line: l });
                },
            }
        }
    }
    assert(tok_views(out@) + Seq::<(TokView, nat)>::empty() =~= tok_views(out@));
    Ok(out)
}

proof fn lemma_before_none(rest: Result<Seq<(TokView, nat)>, nat>)
    ensures
        before(Seq::empty(), rest) == rest,
{
    match rest {
        Ok(r) => {
            assert(Seq::<(TokView, nat)>::empty() + r =~= r);
        },
        Err(_) => {},
    }
}

proof fn lemma_before_next(done: Seq<(TokView, nat)>, t: (TokView, nat), rest: Result<Seq<(TokView, nat)>, nat>)
    ensures
        before(done.push(t), rest) == before(
            done,
            match rest {
                Ok(r) => Ok(seq![t] + r),
                Err(e) => Err(e),
            },
        ),
{
    match rest {
        Ok(r) => {
            assert(done.push(t) + r =~= done + (seq![t] + r));
        },
        Err(_) => {},
    }
}

pub open spec fn peek(t: Seq<(TokView, nat)>, pos: int) -> Option<TokView> {
    if 0 <= pos < t.len() {
        Some(t[pos].0)
    } else {
        None
    }
}

/// The line of the token at `pos`; 0 behind the last.
pub open spec fn line_at(t: Seq<(TokView, nat)>, pos: int) -> nat {
    if 0 <= pos < t.len() {
        t[pos].1
    } else {
        0
    }
}

pub open spec fn punct_is(t: Seq<(TokView, nat)>, pos: int, p: char) -> bool {
    peek(t, pos) == Some(TokView::Punct(p))
}

/// Past an optional `;`.
pub open spec fn past_semicolon(t: Seq<(TokView, nat)>, pos: int) -> int {
    if punct_is(t, pos, ';') {
        pos + 1
    } else {
        pos
    }
}

/// Punctuation that ends a value outside parentheses.
pub open spec fn ends_value(p: char) -> bool {
    p == ',' || p == ';' || p == ')' || p == '{' || p == '}'
}

/// An operator that another operand may follow.
pub open spec fn joins_operands(t: TokView) -> bool {
    match t {
        TokView::Punct(p) => p == '+' || p == '|' || p == '*' || p == '&' || p == '^' || p == '-' || p == '!' || p
            == '(',
        _ => false,
    }
}

/// The tokens of a value from `pos` on, behind `parts`, inside `depth` parentheses; and the
/// position behind them. Two adjacent operands are two values.
pub open spec fn value_parts(t: Seq<(TokView, nat)>, pos: int, depth: nat, parts: Seq<TokView>) -> (Seq<TokView>, int)
    decreases t.len() - pos,
{
    match peek(t, pos) {
        None => (parts, pos),
        Some(TokView::Punct(p)) => if depth == 0 && ends_value(p) {
            (parts, pos)
        } else {
            value_parts(
                t,
                pos + 1,
                if p == '(' {
                    depth + 1
                } else if p == ')' {
                    (depth - 1) as nat
                } else {
                    depth
                },
                parts.push(TokView::Punct(p)),
            )
        },
        Some(operand) => if parts.len() > 0 && !joins_operands(parts.last()) {
            (parts, pos)
        } else {
            value_parts(t, pos + 1, depth, parts.push(operand))
        },
    }
}

pub open spec fn tok_text(t: TokView) -> Seq<char> {
    match t {
        TokView::Float(v) => shortest::display(v),
        TokView::Word(s) => s,
        TokView::Quoted(s) => s,
        TokView::Punct(c) => seq![c],
    }
}

/// Tokens flattened to text.
pub open spec fn flat_text(parts: Seq<TokView>) -> Seq<char>
    decreases parts.len(),
{
    if parts.len() == 0 {
        Seq::empty()
    } else {
        flat_text(parts.drop_last()) + tok_text(parts.last())
    }
}

/// The tokens of an expression as one value: a single number stays a number, anything else is
/// text.
pub open spec fn flatten(parts: Seq<TokView>) -> ValueView {
    match parts[0] {
        TokView::Float(v) if parts.len() == 1 => ValueView::Float(v),
        _ => ValueView::Str(flat_text(parts)),
    }
}

/// The value at `pos` and the position behind it.
pub open spec fn value_at(t: Seq<(TokView, nat)>, pos: int) -> Result<(ValueView, int), ParseErrorView> {
    let (parts, end) = value_parts(t, pos, 0, Seq::empty());
    if parts.len() == 0 {
        Err(ParseErrorView::ExpectedValue { line: line_at(t, end) })
    } else {
        Ok((flatten(parts), end))
    }
}

proof fn lemma_value_parts(t: Seq<(TokView, nat)>, pos: int, depth: nat, parts: Seq<TokView>)
    requires
        0 <= pos <= t.len(),
    ensures
        ({
            let (all, end) = value_parts(t, pos, depth, parts);
            &&& pos <= end <= t.len()
            &&& end - pos == all.len() - parts.len()
        }),
    decreases t.len() - pos,
{
    if pos < t.len() {
        match t[pos].0 {
            TokView::Punct(p) => if !(depth == 0 && ends_value(p)) {
                lemma_value_parts(
                    t,
                    pos + 1,
                    if p == '(' {
                        depth + 1
                    } else if p == ')' {
                        (depth - 1) as nat
                    } else {
                        depth
                    },
                    parts.push(TokView::Punct(p)),
                );
            },
            operand => if !(parts.len() > 0 && !joins_operands(parts.last())) {
                lemma_value_parts(t, pos + 1, depth, parts.push(operand));
            },
        }
    }
}

/// A value ends behind its start, within the tokens.
pub proof fn lemma_value_advances(t: Seq<(TokView, nat)>, pos: int)
    requires
        0 <= pos <= t.len(),
    ensures
        value_at(t, pos) matches Ok((_, end)) ==> pos < end <= t.len(),
{
    lemma_value_parts(t, pos, 0, Seq::empty());
}

/// The values behind `done` up to a `)`, and the position behind it; commas separate them and may
/// be left out.
pub open spec fn values_at(t: Seq<(TokView, nat)>, pos: int, done: Seq<ValueView>) -> Result<
    (Seq<ValueView>, int),
    ParseErrorView,
>
    decreases t.len() - pos,
{
    if pos < 0 || pos >= t.len() {
        Err(ParseErrorView::ExpectedValue { line: 0 })
    } else if punct_is(t, pos, ')') {
        Ok((done, pos + 1))
    } else if punct_is(t, pos, ',') {
        values_at(t, pos + 1, done)
    } else {
        proof {
            lemma_value_advances(t, pos);
        }
        match value_at(t, pos) {
            Err(e) => Err(e),
            Ok((v, end)) => values_at(t, end, done.push(v)),
        }
    }
}

/// Values end behind their start, within the tokens.
pub proof fn lemma_values_advance(t: Seq<(TokView, nat)>, pos: int, done: Seq<ValueView>)
    requires
        0 <= pos,
    ensures
        values_at(t, pos, done) matches Ok((_, end)) ==> pos < end <= t.len(),
    decreases t.len() - pos,
{
    if pos < t.len() && !punct_is(t, pos, ')') {
        if punct_is(t, pos, ',') {
            lemma_values_advance(t, pos + 1, done);
        } else {
            lemma_value_advances(t, pos);
            match value_at(t, pos) {
                Err(_) => {},
                Ok((v, end)) => {
                    lemma_values_advance(t, end, done.push(v));
                },
            }
        }
    }
}

impl GroupView {
    pub open spec fn with_simple(self, name: Seq<char>, v: ValueView) -> GroupView {
        GroupView { simple: self.simple.push((name, v)), ..self }
    }

    pub open spec fn with_complex(self, name: Seq<char>, v: Seq<ValueView>) -> GroupView {
        GroupView { complex: self.complex.push((name, v)), ..self }
    }

    pub open spec fn with_group(self, g: GroupView) -> GroupView {
        GroupView { groups: self.groups.push(g), ..self }
    }
}

/// A group's statements from `pos` up to its `}`: the group with them, and the position of the
/// `}`.
pub open spec fn statements_at(t: Seq<(TokView, nat)>, pos: int, g: GroupView) -> Result<
    (GroupView, int),
    ParseErrorView,
>
    decreases (if pos < t.len() { t.len() - pos } else { 0 }),
{
    let line = line_at(t, pos);
    if pos < 0 || pos >= t.len() {
        Err(ParseErrorView::UnexpectedEnd)
    } else if punct_is(t, pos, '}') {
        Ok((g, pos))
    } else {
        match t[pos].0 {
            TokView::Word(name) => if punct_is(t, pos + 1, ':') {
                proof {
                    lemma_value_advances(t, pos + 2);
                }
                match value_at(t, pos + 2) {
                    Err(e) => Err(e),
                    Ok((v, end)) => statements_at(t, past_semicolon(t, end), g.with_simple(name, v)),
                }
            } else if punct_is(t, pos + 1, '(') {
                proof {
                    lemma_values_advance(t, pos + 2, Seq::empty());
                }
                match values_at(t, pos + 2, Seq::empty()) {
                    Err(e) => Err(e),
                    Ok((params, end)) => if !punct_is(t, end, '{') {
                        statements_at(t, past_semicolon(t, end), g.with_complex(name, params))
                    } else {
                        match statements_at(t, end + 1, empty_group(name, params, line)) {
                            Err(e) => Err(e),
                            // A body ends behind where it starts.
                            Ok((inner, close)) => if close < end {
                                Err(ParseErrorView::UnexpectedEnd)
                            } else {
                                statements_at(t, past_semicolon(t, close + 1), g.with_group(inner))
                            },
                        }
                    },
                }
            } else {
                Err(ParseErrorView::UnexpectedAfter { line, name, found: peek(t, pos + 1) })
            },
            other => Err(ParseErrorView::Unexpected { line, token: other }),
        }
    }
}

/// Statements end at the brace that closes them.
pub proof fn lemma_statements_advance(t: Seq<(TokView, nat)>, pos: int, g: GroupView)
    requires
        0 <= pos,
    ensures
        statements_at(t, pos, g) matches Ok((_, end)) ==> pos <= end < t.len() && punct_is(t, end, '}'),
    decreases t.len() - pos,
{
    if pos < t.len() && !punct_is(t, pos, '}') {
        match t[pos].0 {
            TokView::Word(name) => {
                if punct_is(t, pos + 1, ':') {
                    lemma_value_advances(t, pos + 2);
                    match value_at(t, pos + 2) {
                        Err(_) => {},
                        Ok((v, end)) => {
                            lemma_statements_advance(t, past_semicolon(t, end), g.with_simple(name, v));
                        },
                    }
                } else if punct_is(t, pos + 1, '(') {
                    lemma_values_advance(t, pos + 2, Seq::empty());
                    match values_at(t, pos + 2, Seq::empty()) {
                        Err(_) => {},
                        Ok((params, end)) => {
                            if !punct_is(t, end, '{') {
                                lemma_statements_advance(
                                    t,
                                    past_semicolon(t, end),
                                    g.with_complex(name, params),
                                );
                            } else {
                                let fresh = empty_group(name, params, line_at(t, pos));
                                lemma_statements_advance(t, end + 1, fresh);
                                match statements_at(t, end + 1, fresh) {
                                    Err(_) => {},
                                    Ok((inner, close)) => {
                                        lemma_statements_advance(
                                            t,
                                            past_semicolon(t, close + 1),
                                            g.with_group(inner),
                                        );
                                    },
                                }
                            }
                        },
                    }
                }
            },
            _ => {},
        }
    }
}

/// The groups at the top level from `pos` on, behind `done`.
pub open spec fn top_groups(t: Seq<(TokView, nat)>, pos: int, done: Seq<GroupView>) -> Result<
    Seq<GroupView>,
    ParseErrorView,
>
    decreases (if pos < t.len() { t.len() - pos } else { 0 }),
{
    let line = line_at(t, pos);
    if pos < 0 || pos >= t.len() {
        Ok(done)
    } else {
        match t[pos].0 {
            TokView::Word(name) => if !punct_is(t, pos + 1, '(') {
                Err(ParseErrorView::ExpectedGroup { line, name })
            } else {
                proof {
                    lemma_values_advance(t, pos + 2, Seq::empty());
                }
                match values_at(t, pos + 2, Seq::empty()) {
                    Err(e) => Err(e),
                    Ok((params, end)) => if !punct_is(t, end, '{') {
                        Err(ParseErrorView::ExpectedBody { line, name })
                    } else {
                        proof {
                            lemma_statements_advance(t, end + 1, empty_group(name, params, line));
                        }
                        match statements_at(t, end + 1, empty_group(name, params, line)) {
                            Err(e) => Err(e),
                            Ok((g, close)) => top_groups(t, past_semicolon(t, close + 1), done.push(g)),
                        }
                    },
                }
            },
            other => Err(ParseErrorView::UnexpectedAtTop { line, token: other }),
        }
    }
}

/// The top-level group of a liberty text.
pub open spec fn parsed(text: Seq<char>) -> Result<GroupView, ParseErrorView> {
    match tokens(text, 0, 1) {
        Err(line) => Err(ParseErrorView::UnterminatedString { line }),
        Ok(t) => match top_groups(t, 0, Seq::empty()) {
            Err(e) => Err(e),
            Ok(groups) => if groups.len() == 0 {
                Err(ParseErrorView::NoLibrary)
            } else {
                Ok(groups[0])
            },
        },
    }
}

fn token_line(t: &Vec<(Tok, usize)>, pos: usize) -> (r: usize)
    ensures
        r as nat == line_at(tok_views(t@), pos as int),
{
    if pos < t.len() {
        t[pos].1
    } else {
        0
    }
}

fn is_punct(t: &Vec<(Tok, usize)>, pos: usize, p: char) -> (r: bool)
    ensures
        r == punct_is(tok_views(t@), pos as int, p),
        r ==> pos < t@.len() && pos < usize::MAX,
{
    if pos < t.len() {
        match &t[pos].0 {
            Tok::Punct(c) => *c == p,
            _ => false,
        }
    } else {
        false
    }
}

fn semi_opt(t: &Vec<(Tok, usize)>, pos: usize) -> (r: usize)
    requires
        pos <= t@.len(),
    ensures
        r == past_semicolon(tok_views(t@), pos as int),
        r <= t@.len(),
{
    if is_punct(t, pos, ';') {
        pos + 1
    } else {
        pos
    }
}

pub open spec fn part_views(v: Seq<&Tok>) -> Seq<TokView> {
    Seq::new(v.len(), |i: int| v[i]@)
}

fn last_joins(parts: &Vec<&Tok>) -> (r: bool)
    requires
        parts@.len() > 0,
    ensures
        r == joins_operands(part_views(parts@).last()),
{
    match parts[parts.len() - 1] {
        Tok::Punct(p) => *p == '+' || *p == '|' || *p == '*' || *p == '&' || *p == '^' || *p == '-' || *p == '!'
            || *p == '(',
        _ => false,
    }
}

fn gather<'a>(t: &'a Vec<(Tok, usize)>, from: usize) -> (r: (Vec<&'a Tok>, usize))
    requires
        from <= t@.len(),
    ensures
        (part_views(r.0@), r.1 as int) == value_parts(tok_views(t@), from as int, 0, Seq::empty()),
        from <= r.1 <= t@.len(),
{
    let mut parts: Vec<&'a Tok> = Vec::new();
    let mut pos: usize = from;
    let mut depth: usize = 0;
    assert(part_views(parts@) =~= Seq::<TokView>::empty());
    while pos < t.len()
        invariant
            from <= pos <= t@.len(),
            depth <= pos - from,
            value_parts(tok_views(t@), pos as int, depth as nat, part_views(parts@)) == value_parts(
                tok_views(t@),
                from as int,
                0,
                Seq::empty(),
            ),
        decreases t@.len() - pos,
    {
        let ghost done = part_views(parts@);
        assert(tok_views(t@)[pos as int].0 == t@[pos as int].0@);
        match &t[pos].0 {
            Tok::Punct(p) => {
                let p: char = *p;
                if depth == 0 && (p == ',' || p == ';' || p == ')' || p == '{' || p == '}') {
                    return (parts, pos);
                }
                if p == '(' {
                    depth = depth + 1;
                } else if p == ')' {
                    depth = depth - 1;
                }
            },
            _ => {
                // Two adjacent operands are two values.
                if parts.len() > 0 && !last_joins(&parts) {
                    return (parts, pos);
                }
            },
        }
        parts.push(&t[pos].0);
        assert(part_views(parts@) =~= done.push(t@[pos as int].0@));
        pos = pos + 1;
    }
    (parts, pos)
}

fn push_token_text(s: &mut String, t: &Tok)
    ensures
        final(s)@ == old(s)@ + tok_text(t@),
{
    match t {
        Tok::Float(v) => {
            s.append(shortest::display_text(*v).as_str());
        },
        Tok::Word(w) => {
            s.append(w.as_str());
        },
        Tok::Quoted(w) => {
            s.append(w.as_str());
        },
        Tok::Punct(c) => {
            let ghost s0 = s@;
            s.push(*c);
            assert(s@ =~= s0 + seq![*c]);
        },
    }
}

/// An expression flattened to one value: a single number stays a number; anything longer is text.
fn read_value(t: &Vec<(Tok, usize)>, pos: usize) -> (r: Result<(Value, usize), ParseError>)
    requires
        pos <= t@.len(),
    ensures
        match r {
            Ok((v, end)) => value_at(tok_views(t@), pos as int) == Ok::<(ValueView, int), ParseErrorView>(
                (v@, end as int),
            ) && pos < end <= t@.len(),
            Err(e) => value_at(tok_views(t@), pos as int) == Err::<(ValueView, int), ParseErrorView>(e@),
        },
{
    proof {
        lemma_value_advances(tok_views(t@), pos as int);
    }
    let (parts, end): (Vec<&Tok>, usize) = gather(t, pos);
    if parts.len() == 0 {
        return Err(ParseError::ExpectedValue { line: token_line(t, end) });
    }
    if parts.len() == 1 {
        match parts[0] {
            Tok::Float(v) => {
                return Ok((Value::Float(*v), end));
            },
            _ => {},
        }
    }
    let mut s: String = String::new();
    let mut i: usize = 0;
    let ghost all = part_views(parts@);
    assert(all.take(0) =~= Seq::<TokView>::empty());
    assert(s@ =~= Seq::<char>::empty());
    while i < parts.len()
        invariant
            i <= parts@.len(),
            all == part_views(parts@),
            s@ == flat_text(all.take(i as int)),
        decreases parts@.len() - i,
    {
        assert(all.take(i + 1).drop_last() =~= all.take(i as int));
        push_token_text(&mut s, parts[i]);
        i = i + 1;
    }
    assert(all.take(i as int) =~= all);
    Ok((Value::Str(s), end))
}

fn read_values(t: &Vec<(Tok, usize)>, from: usize) -> (r: Result<(Vec<Value>, usize), ParseError>)
    requires
        from <= t@.len() + 1,
        t@.len() < usize::MAX,
    ensures
        match r {
            Ok((v, end)) => values_at(tok_views(t@), from as int, Seq::empty()) == Ok::<
                (Seq<ValueView>, int),
                ParseErrorView,
            >((value_views(v@), end as int)) && from < end <= t@.len(),
            Err(e) => values_at(tok_views(t@), from as int, Seq::empty()) == Err::<
                (Seq<ValueView>, int),
                ParseErrorView,
            >(e@),
        },
{
    let mut out: Vec<Value> = Vec::new();
    let mut pos: usize = from;
    let ghost tv = tok_views(t@);
    assert(value_views(out@) =~= Seq::<ValueView>::empty());
    while !is_punct(t, pos, ')')
        invariant
            from <= pos,
            tv == tok_views(t@),
            from <= t@.len() ==> pos <= t@.len(),
            values_at(tv, pos as int, value_views(out@)) == values_at(tv, from as int, Seq::empty()),
        decreases t@.len() - pos,
    {
        if pos >= t.len() {
            return Err(ParseError::ExpectedValue { line: 0 });
        }
        if is_punct(t, pos, ',') {
            pos = pos + 1;
            continue ;
        }
        let (v, end): (Value, usize) = read_value(t, pos)?;
        let ghost done = value_views(out@);
        let ghost next = v@;
        out.push(v);
        assert(value_views(out@) =~= done.push(next));
        pos = end;
    }
    Ok((out, pos + 1))
}

impl Group {
    fn new(kind: String, params: Vec<Value>, line: usize) -> (r: Group)
        ensures
            r@ == empty_group(kind@, value_views(params@), line as nat),
    {
        let g: Group = Group {
            kind,
            params,
            simple: Vec::new(),
            complex: Vec::new(),
            groups: Vec::new(),
            line,
        };
        assert(group_views(g.groups@) =~= Seq::<GroupView>::empty());
        assert(g@ =~= empty_group(g.kind@, value_views(g.params@), line as nat));
        g
    }

    fn add_simple(&mut self, name: String, v: Value)
        ensures
            final(self)@ == old(self)@.with_simple(name@, v@),
    {
        let ghost before = self@;
        let ghost next = (name@, v@);
        self.simple.push((name, v));
        assert(self@.simple =~= before.simple.push(next));
    }

    fn add_complex(&mut self, name: String, v: Vec<Value>)
        ensures
            final(self)@ == old(self)@.with_complex(name@, value_views(v@)),
    {
        let ghost before = self@;
        let ghost next = (name@, value_views(v@));
        self.complex.push((name, v));
        assert(self@.complex =~= before.complex.push(next));
    }

    fn add_group(&mut self, g: Group)
        ensures
            final(self)@ == old(self)@.with_group(g@),
    {
        let ghost before = self@;
        let ghost old_groups = self.groups@;
        let ghost next = g;
        self.groups.push(g);
        assert(self.groups@ =~= old_groups.push(next));
        assert(group_views(self.groups@) =~= group_views(old_groups).push(next@));
    }
}

fn read_statements(t: &Vec<(Tok, usize)>, from: usize, group: &mut Group) -> (r: Result<usize, ParseError>)
    requires
        t@.len() < usize::MAX,
    ensures
        match r {
            Ok(end) => statements_at(tok_views(t@), from as int, old(group)@) == Ok::<
                (GroupView, int),
                ParseErrorView,
            >((final(group)@, end as int)) && from <= end < t@.len(),
            Err(e) => statements_at(tok_views(t@), from as int, old(group)@) == Err::<
                (GroupView, int),
                ParseErrorView,
            >(e@),
        },
    decreases t@.len() - from,
{
    let ghost tv = tok_views(t@);
    let ghost start = group@;
    let mut pos: usize = from;
    proof {
        lemma_statements_advance(tv, from as int, start);
    }
    while !is_punct(t, pos, '}')
        invariant
            from <= pos,
            t@.len() < usize::MAX,
            tv == tok_views(t@),
            start == old(group)@,
            statements_at(tv, pos as int, group@) == statements_at(tv, from as int, start),
        decreases t@.len() - pos,
    {
        let line: usize = token_line(t, pos);
        if pos >= t.len() {
            return Err(ParseError::UnexpectedEnd);
        }
        assert(tv[pos as int].0 == t@[pos as int].0@);
        let name: String = match &t[pos].0 {
            Tok::Word(w) => w.clone(),
            other => {
                return Err(ParseError::Unexpected { line, token: other.clone() });
            },
        };
        if is_punct(t, pos + 1, ':') {
            let (v, end): (Value, usize) = read_value(t, pos + 2)?;
            group.add_simple(name, v);
            pos = semi_opt(t, end);
        } else if is_punct(t, pos + 1, '(') {
            let (params, end): (Vec<Value>, usize) = read_values(t, pos + 2)?;
            if is_punct(t, end, '{') {
                let mut g: Group = Group::new(name, params, line);
                let close: usize = read_statements(t, end + 1, &mut g)?;
                group.add_group(g);
                pos = semi_opt(t, close + 1);
            } else {
                group.add_complex(name, params);
                pos = semi_opt(t, end);
            }
        } else {
            let found: Option<Tok> = if pos + 1 < t.len() {
                Some(t[pos + 1].0.clone())
            } else {
                None
            };
            return Err(ParseError::UnexpectedAfter { line, name, found });
        }
    }
    Ok(pos)
}

fn read_top(t: &Vec<(Tok, usize)>) -> (r: Result<Vec<Group>, ParseError>)
    requires
        t@.len() < usize::MAX,
    ensures
        match r {
            Ok(groups) => top_groups(tok_views(t@), 0, Seq::empty()) == Ok::<Seq<GroupView>, ParseErrorView>(
                group_views(groups@),
            ),
            Err(e) => top_groups(tok_views(t@), 0, Seq::empty()) == Err::<Seq<GroupView>, ParseErrorView>(e@),
        },
{
    let ghost tv = tok_views(t@);
    let mut groups: Vec<Group> = Vec::new();
    let mut pos: usize = 0;
    assert(group_views(groups@) =~= Seq::<GroupView>::empty());
    while pos < t.len()
        invariant
            pos <= t@.len() < usize::MAX,
            tv == tok_views(t@),
            top_groups(tv, pos as int, group_views(groups@)) == top_groups(tv, 0, Seq::empty()),
        decreases t@.len() - pos,
    {
        let line: usize = token_line(t, pos);
        assert(tv[pos as int].0 == t@[pos as int].0@);
        let name: String = match &t[pos].0 {
            Tok::Word(w) => w.clone(),
            other => {
                return Err(ParseError::UnexpectedAtTop { line, token: other.clone() });
            },
        };
        if !is_punct(t, pos + 1, '(') {
            return Err(ParseError::ExpectedGroup { line, name });
        }
        let (params, end): (Vec<Value>, usize) = read_values(t, pos + 2)?;
        if !is_punct(t, end, '{') {
            return Err(ParseError::ExpectedBody { line, name });
        }
        let mut g: Group = Group::new(name, params, line);
        let close: usize = read_statements(t, end + 1, &mut g)?;
        pos = semi_opt(t, close + 1);
        let ghost done = groups@;
        let ghost next = g;
        groups.push(g);
        assert(group_views(groups@) =~= group_views(done).push(next@));
    }
    Ok(groups)
}

/// Parse a liberty file's text into its top-level group (the `library`).
pub fn parse(text: &str) -> (r: Result<Group, ParseError>)
    requires
        text@.len() < usize::MAX,
    ensures
        match r {
            Ok(g) => parsed(text@) == Ok::<GroupView, ParseErrorView>(g@),
            Err(e) => parsed(text@) == Err::<GroupView, ParseErrorView>(e@),
        },
{
    let toks: Vec<(Tok, usize)> = tokenize(text)?;
    let mut groups: Vec<Group> = read_top(&toks)?;
    if groups.len() == 0 {
        return Err(ParseError::NoLibrary);
    }
    Ok(groups.swap_remove(0))
}

} // verus!

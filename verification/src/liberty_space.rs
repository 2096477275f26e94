//! What stands between the tokens of a liberty file does not matter: blanks, line breaks, line
//! continuations and comments are skipped.

use vstd::prelude::*;
use crate::liberty_parse;
use crate::liberty_parse::Piece;

verus! {

/// A scan's end, moved.
spec fn moved(p: Piece, n: int) -> Piece {
    match p {
        Piece::Skip { end, line } => Piece::Skip { end: end + n, line },
        Piece::Token { token, end, line } => Piece::Token { token, end: end + n, line },
        Piece::CutString { line } => Piece::CutString { line },
    }
}

proof fn lemma_scans(c: Seq<char>, n: int, i: int)
    requires
        0 <= n <= c.len(),
        0 <= i,
    ensures
        liberty_parse::comment_end(c, n + i) == n + liberty_parse::comment_end(c.skip(n), i) || n + i > c.len(),
        liberty_parse::line_end(c, n + i) == n + liberty_parse::line_end(c.skip(n), i),
        i > 0 ==> liberty_parse::word_end(c, n + i) == n + liberty_parse::word_end(c.skip(n), i),
    decreases c.len() - n - i,
{
    if n + i < c.len() {
        assert(c.skip(n)[i] == c[n + i]);
        if n + i + 1 < c.len() {
            assert(c.skip(n)[i + 1] == c[n + i + 1]);
        }
        if i > 0 {
            assert(c.skip(n)[i - 1] == c[n + i - 1]);
        }
        lemma_scans(c, n, i + 1);
    }
}

proof fn lemma_breaks(c: Seq<char>, n: int, a: int, b: int)
    requires
        0 <= n <= c.len(),
        0 <= a,
        n + b <= c.len(),
    ensures
        liberty_parse::line_breaks(c, n + a, n + b) == liberty_parse::line_breaks(c.skip(n), a, b),
    decreases b - a,
{
    if a < b {
        assert(c.skip(n)[b - 1] == c[n + b - 1]);
        lemma_breaks(c, n, a, b - 1);
    }
}

proof fn lemma_quoted(c: Seq<char>, n: int, i: int, line: nat, s: Seq<char>)
    requires
        0 <= n <= c.len(),
        0 <= i,
    ensures
        liberty_parse::quoted(c, n + i, line, s) == match liberty_parse::quoted(c.skip(n), i, line, s) {
            Ok((t, end, l)) => Ok::<(Seq<char>, int, nat), nat>((t, n + end, l)),
            Err(l) => Err(l),
        },
    decreases c.len() - n - i,
{
    if n + i < c.len() {
        assert(c.skip(n)[i] == c[n + i]);
        if n + i + 1 < c.len() {
            assert(c.skip(n)[i + 1] == c[n + i + 1]);
        }
        if n + i + 2 < c.len() {
            assert(c.skip(n)[i + 2] == c[n + i + 2]);
        }
        if c[n + i] == '"' {
        } else if c[n + i] == '\\' && n + i + 1 < c.len() {
            if c[n + i + 1] == '\n' {
                lemma_quoted(c, n, i + 2, line + 1, s);
            } else if c[n + i + 1] == '\r' && n + i + 2 < c.len() && c[n + i + 2] == '\n' {
                lemma_quoted(c, n, i + 3, line + 1, s);
            } else {
                lemma_quoted(c, n, i + 2, line, s.push('\\').push(c[n + i + 1]));
            }
        } else if c[n + i] == '\n' {
        } else {
            lemma_quoted(c, n, i + 1, line, s.push(c[n + i]));
        }
    }
}

proof fn lemma_piece(c: Seq<char>, n: int, i: int, line: nat)
    requires
        0 <= n <= c.len(),
        0 <= i,
        n + i < c.len(),
    ensures
        liberty_parse::piece(c, n + i, line) == moved(liberty_parse::piece(c.skip(n), i, line), n),
{
    let d = c.skip(n);
    assert(d[i] == c[n + i]);
    if n + i + 1 < c.len() {
        assert(d[i + 1] == c[n + i + 1]);
    }
    liberty_parse::lemma_piece_advances(c, n + i, line);
    liberty_parse::lemma_piece_advances(d, i, line);
    if c[n + i] == '\n' || liberty_parse::blank_at(c, n + i) {
    } else if liberty_parse::pair_at(c, n + i, '/', '*') {
        lemma_scans(c, n, i + 2);
        lemma_breaks(c, n, i + 2, liberty_parse::comment_end(d, i + 2));
    } else if liberty_parse::pair_at(c, n + i, '/', '/') {
        lemma_scans(c, n, i);
    } else if c[n + i] == '"' {
        lemma_quoted(c, n, i + 1, line, Seq::empty());
    } else if !liberty_parse::punct_at(c, n + i) {
        lemma_scans(c, n, i + 1);
        let end = liberty_parse::word_end(d, i + 1);
        assert(c.subrange(n + i, n + end) =~= d.subrange(i, end));
    }
}

proof fn lemma_tokens(c: Seq<char>, n: int, i: int, line: nat)
    requires
        0 <= n <= c.len(),
        0 <= i,
    ensures
        liberty_parse::tokens(c, n + i, line) == liberty_parse::tokens(c.skip(n), i, line),
    decreases c.len() - n - i,
{
    if n + i < c.len() {
        lemma_piece(c, n, i, line);
        liberty_parse::lemma_piece_advances(c, n + i, line);
        match liberty_parse::piece(c.skip(n), i, line) {
            Piece::Skip { end, line: l } => lemma_tokens(c, n, end, l),
            Piece::Token { token: _, end, line: l } => lemma_tokens(c, n, end, l),
            Piece::CutString { line: _ } => {},
        }
    }
}

/// The tokens of a text from a position on are those of the text that stands there.
pub proof fn lemma_tokens_of_the_rest(c: Seq<char>, n: int, line: nat)
    requires
        0 <= n <= c.len(),
    ensures
        liberty_parse::tokens(c, n, line) == liberty_parse::tokens(c.skip(n), 0, line),
{
    lemma_tokens(c, n, 0, line);
}

/// A blank before a text is skipped, and a line break but for the line it counts.
pub proof fn lemma_blanks_are_skipped(blank: char, rest: Seq<char>, line: nat)
    requires
        blank == ' ' || blank == '\t' || blank == '\r' || blank == '\n',
    ensures
        liberty_parse::tokens(seq![blank] + rest, 0, line) == liberty_parse::tokens(
            rest,
            0,
            if blank == '\n' {
                line + 1
            } else {
                line
            },
        ),
{
    let c = seq![blank] + rest;
    assert(c[0] == blank);
    assert(c.skip(1) =~= rest);
    let l: nat = if blank == '\n' {
        line + 1
    } else {
        line
    };
    assert(liberty_parse::tokens(c, 0, line) == liberty_parse::tokens(c, 1, l));
    lemma_tokens_of_the_rest(c, 1, l);
}

/// A line continuation before a text is skipped but for the line it counts.
pub proof fn lemma_continuations_are_skipped(rest: Seq<char>, line: nat)
    ensures
        liberty_parse::tokens(seq!['\\', '\n'] + rest, 0, line) == liberty_parse::tokens(rest, 0, line + 1),
{
    let c = seq!['\\', '\n'] + rest;
    assert(c[0] == '\\' && c[1] == '\n');
    assert(liberty_parse::blank_at(c, 0));
    assert(liberty_parse::tokens(c, 0, line) == liberty_parse::tokens(c, 1, line));
    assert(liberty_parse::tokens(c, 1, line) == liberty_parse::tokens(c, 2, line + 1));
    assert(c.skip(2) =~= rest);
    lemma_tokens_of_the_rest(c, 2, line + 1);
}

/// A text that holds no end of a comment.
pub open spec fn comment_text(text: Seq<char>) -> bool {
    forall|i: int|
        0 <= i < text.len() ==> !((#[trigger] text[i]) == '*' && i + 1 < text.len() && text[i + 1] == '/')
}

proof fn lemma_comment_end(text: Seq<char>, c: Seq<char>, rest: Seq<char>, i: int)
    requires
        c == seq!['/', '*'] + text + seq!['*', '/'] + rest,
        comment_text(text),
        2 <= i <= text.len() + 2,
    ensures
        liberty_parse::comment_end(c, i) == text.len() + 4,
    decreases text.len() + 2 - i,
{
    if i < text.len() + 2 {
        assert(c[i] == text[i - 2]);
        if i + 1 < text.len() + 2 {
            assert(c[i + 1] == text[i - 1]);
        } else {
            assert(c[i + 1] == '*');
        }
        lemma_comment_end(text, c, rest, i + 1);
    } else {
        assert(c[i] == '*' && c[i + 1] == '/');
    }
}

/// A comment before a text is skipped but for the lines it counts.
pub proof fn lemma_comments_are_skipped(text: Seq<char>, rest: Seq<char>, line: nat)
    requires
        comment_text(text),
    ensures
        liberty_parse::tokens(seq!['/', '*'] + text + seq!['*', '/'] + rest, 0, line) == liberty_parse::tokens(
            rest,
            0,
            line + liberty_parse::line_breaks(text, 0, text.len() as int),
        ),
{
    let c = seq!['/', '*'] + text + seq!['*', '/'] + rest;
    let end = (text.len() + 4) as int;
    lemma_comment_end(text, c, rest, 2);
    assert(c[0] == '/' && c[1] == '*');
    lemma_text_breaks(text, c, rest, text.len() as int);
    assert(c[end - 2] == '*' && c[end - 1] == '/');
    assert(liberty_parse::line_breaks(c, 2, end) == liberty_parse::line_breaks(c, 2, end - 1));
    assert(liberty_parse::line_breaks(c, 2, end - 1) == liberty_parse::line_breaks(c, 2, end - 2));
    let l = line + liberty_parse::line_breaks(text, 0, text.len() as int);
    assert(liberty_parse::tokens(c, 0, line) == liberty_parse::tokens(c, end, l));
    assert(c.skip(end) =~= rest);
    lemma_tokens_of_the_rest(c, end, l);
}

proof fn lemma_text_breaks(text: Seq<char>, c: Seq<char>, rest: Seq<char>, n: int)
    requires
        c == seq!['/', '*'] + text + seq!['*', '/'] + rest,
        0 <= n <= text.len(),
    ensures
        liberty_parse::line_breaks(c, 2, n + 2) == liberty_parse::line_breaks(text, 0, n),
    decreases n,
{
    if n > 0 {
        assert(c[n + 1] == text[n - 1]);
        lemma_text_breaks(text, c, rest, n - 1);
    }
}

} // verus!

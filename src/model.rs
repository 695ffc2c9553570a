//! What the scanner computes, over the source as a sequence of bytes.
use crate::token::{SqlToken, SqlTokenKind};
use vstd::prelude::*;

verus! {

/// Blanks inside a statement: space, tab, carriage return, line feed.
pub open spec fn space_bytes() -> Seq<u8> {
    seq![32u8, 9u8, 13u8, 10u8]
}

/// Blanks that stay on the current line: space, tab, carriage return.
pub open spec fn space_bytes_without_eol() -> Seq<u8> {
    seq![32u8, 9u8, 13u8]
}

/// Line ends: carriage return, line feed.
pub open spec fn eol_bytes() -> Seq<u8> {
    seq![13u8, 10u8]
}

/// A token from `start` to `end` of the given kind.
pub open spec fn tok(start: int, end: int, kind: SqlTokenKind) -> SqlToken {
    SqlToken { start: start as usize, end: end as usize, kind }
}

/// End of the run of bytes of `pat` that starts at `p`.
pub open spec fn run_end(s: Seq<u8>, pat: Seq<u8>, p: int) -> int
    decreases s.len() - p,
{
    if 0 <= p < s.len() && pat.contains(s[p]) {
        run_end(s, pat, p + 1)
    } else {
        p
    }
}

/// The end of a non-empty run of bytes of `pat` at `p`, if there is one.
pub open spec fn any_of(s: Seq<u8>, pat: Seq<u8>, p: int) -> Option<int> {
    if 0 <= p < s.len() && pat.contains(s[p]) {
        Some(run_end(s, pat, p))
    } else {
        None
    }
}

pub open spec fn is_word_byte(b: u8) -> bool {
    (97 <= b <= 122) || (65 <= b <= 90) || (48 <= b <= 57) || b == 95
}

/// End of the run of letters, digits and underscores that starts at `p`.
pub open spec fn word_end(s: Seq<u8>, p: int) -> int
    decreases s.len() - p,
{
    if 0 <= p < s.len() && is_word_byte(s[p]) {
        word_end(s, p + 1)
    } else {
        p
    }
}

/// Where a line comment whose text starts at `p` ends: past the next line
/// feed, or at the end of the source.
pub open spec fn line_end(s: Seq<u8>, p: int) -> int
    decreases s.len() - p,
{
    if p >= s.len() {
        s.len() as int
    } else if s[p] == 10 {
        p + 1
    } else {
        line_end(s, p + 1)
    }
}

/// Where a block comment whose text starts at `p` ends: past the next `*/`,
/// or at the end of the source.
pub open spec fn block_end(s: Seq<u8>, p: int) -> int
    decreases s.len() - p,
{
    if p >= s.len() {
        s.len() as int
    } else if s[p] == 42 && p + 1 < s.len() && s[p + 1] == 47 {
        p + 2
    } else {
        block_end(s, p + 1)
    }
}

pub open spec fn is_quote(b: u8) -> bool {
    b == 39 || b == 34 || b == 96
}

/// Where a string quoted by `q` whose text starts at `p` ends: past the
/// closing `q`, or at the end of the source. A doubled `q` and a backslash
/// before `q` do not close it.
pub open spec fn string_end(s: Seq<u8>, q: u8, p: int) -> int
    decreases s.len() - p,
{
    if p >= s.len() {
        s.len() as int
    } else if s[p] == q {
        if p + 1 < s.len() && s[p + 1] == q {
            string_end(s, q, p + 2)
        } else {
            p + 1
        }
    } else if s[p] == 92 && p + 1 < s.len() && s[p + 1] == q {
        string_end(s, q, p + 2)
    } else {
        string_end(s, q, p + 1)
    }
}

/// The recognizers, each matching one kind of token.
#[derive(Clone, Copy)]
pub enum Recognizer {
    Space,
    SpaceWithoutEol,
    Eol,
    LineComment,
    BlockComment,
    Str,
    Word,
}

/// What recognizer `r` matches at `p`: the token's kind and end.
pub open spec fn recognize(r: Recognizer, s: Seq<u8>, p: int) -> Option<(SqlTokenKind, int)> {
    match r {
        Recognizer::Space => match any_of(s, space_bytes(), p) {
            Some(e) => Some((SqlTokenKind::Space, e)),
            None => None,
        },
        Recognizer::SpaceWithoutEol => match any_of(s, space_bytes_without_eol(), p) {
            Some(e) => Some((SqlTokenKind::Space, e)),
            None => None,
        },
        Recognizer::Eol => match any_of(s, eol_bytes(), p) {
            Some(e) => Some((SqlTokenKind::Space, e)),
            None => None,
        },
        Recognizer::LineComment => if 0 <= p && p + 2 < s.len() && s[p] == 45 && s[p + 1] == 45
            && s[p + 2] == 32 {
            Some((SqlTokenKind::Comment, line_end(s, p + 3)))
        } else {
            None
        },
        Recognizer::BlockComment => if 0 <= p && p + 1 < s.len() && s[p] == 47 && s[p + 1] == 42 {
            Some((SqlTokenKind::Comment, block_end(s, p + 2)))
        } else {
            None
        },
        Recognizer::Str => if 0 <= p < s.len() && is_quote(s[p]) {
            Some((SqlTokenKind::String, string_end(s, s[p], p + 1)))
        } else {
            None
        },
        Recognizer::Word => if word_end(s, p) > p {
            Some((SqlTokenKind::Word, word_end(s, p)))
        } else {
            None
        },
    }
}

/// What the first recognizer of `rs` that matches at `p` matches.
pub open spec fn first_match(rs: Seq<Recognizer>, s: Seq<u8>, p: int) -> Option<(SqlTokenKind, int)>
    decreases rs.len(),
{
    if rs.len() == 0 {
        None
    } else {
        match recognize(rs[0], s, p) {
            Some(m) => Some(m),
            None => first_match(rs.drop_first(), s, p),
        }
    }
}

/// The recognizers of a statement's body, by priority.
pub open spec fn body_recognizers() -> Seq<Recognizer> {
    seq![
        Recognizer::Space,
        Recognizer::LineComment,
        Recognizer::BlockComment,
        Recognizer::Str,
        Recognizer::Word,
    ]
}

/// The recognizers of what follows a `;` on its line, by priority.
pub open spec fn trailer_recognizers() -> Seq<Recognizer> {
    seq![Recognizer::SpaceWithoutEol, Recognizer::BlockComment]
}

/// The token that the body of a statement has at `p`, other than a symbol.
pub open spec fn body_match(s: Seq<u8>, p: int) -> Option<(SqlTokenKind, int)> {
    first_match(body_recognizers(), s, p)
}

/// What follows a `;` that ends before `p`: its tokens and where it ends.
/// Blanks without a line end and block comments, then one line comment or
/// one run of line ends.
pub open spec fn scan_trailer(s: Seq<u8>, p: int) -> (Seq<SqlToken>, int)
    decreases s.len() - p,
{
    match first_match(trailer_recognizers(), s, p) {
        Some((k, e)) => if p < e <= s.len() {
            let r = scan_trailer(s, e);
            (seq![tok(p, e, k)] + r.0, r.1)
        } else {
            (seq![tok(p, e, k)], e)
        },
        None => match recognize(Recognizer::LineComment, s, p) {
            Some((k, e)) => (seq![tok(p, e, k)], e),
            None => match recognize(Recognizer::Eol, s, p) {
                Some((k, e)) => (seq![tok(p, e, k)], e),
                None => (seq![], p),
            },
        },
    }
}

/// The rest of a statement from `p`, which lies in its body: its tokens, the
/// index of its `;` if it has one, and where it stops.
pub open spec fn scan_body(s: Seq<u8>, p: int) -> (Seq<SqlToken>, Option<int>, int)
    decreases s.len() - p,
{
    if p < 0 || p >= s.len() {
        (seq![], None, p)
    } else {
        match body_match(s, p) {
            Some((k, e)) => if p < e < s.len() {
                let r = scan_body(s, e);
                (seq![tok(p, e, k)] + r.0, r.1, r.2)
            } else {
                (seq![tok(p, e, k)], None, e)
            },
            None => if s[p] == 59 {
                let t = scan_trailer(s, p + 1);
                (t.0, Some(p), t.1)
            } else if p + 1 < s.len() {
                let r = scan_body(s, p + 1);
                (seq![tok(p, p + 1, SqlTokenKind::Symbol)] + r.0, r.1, r.2)
            } else {
                (seq![tok(p, p + 1, SqlTokenKind::Symbol)], None, p + 1)
            },
        }
    }
}

/// The statements of `s` from `p` on, each as its start and where it stops:
/// what successive calls of `next` read, from a parser at `p`.
pub open spec fn statements(s: Seq<u8>, p: int) -> Seq<(int, int)>
    decreases s.len() - p,
{
    if 0 <= p < s.len() {
        let stop = scan_body(s, p).2;
        if p < stop <= s.len() {
            seq![(p, stop)] + statements(s, stop)
        } else {
            seq![(p, stop)]
        }
    } else {
        seq![]
    }
}

/// The bytes of the given statements, one after another.
pub open spec fn joined(s: Seq<u8>, stmts: Seq<(int, int)>) -> Seq<u8>
    decreases stmts.len(),
{
    if stmts.len() == 0 {
        seq![]
    } else {
        s.subrange(stmts[0].0, stmts[0].1) + joined(s, stmts.drop_first())
    }
}

pub proof fn lemma_run_end(s: Seq<u8>, pat: Seq<u8>, p: int)
    requires
        0 <= p <= s.len(),
    ensures
        p <= run_end(s, pat, p) <= s.len(),
    decreases s.len() - p,
{
    if p < s.len() && pat.contains(s[p]) {
        lemma_run_end(s, pat, p + 1);
    }
}

pub proof fn lemma_word_end(s: Seq<u8>, p: int)
    requires
        0 <= p <= s.len(),
    ensures
        p <= word_end(s, p) <= s.len(),
    decreases s.len() - p,
{
    if p < s.len() && is_word_byte(s[p]) {
        lemma_word_end(s, p + 1);
    }
}

pub proof fn lemma_line_end(s: Seq<u8>, p: int)
    requires
        0 <= p <= s.len(),
    ensures
        p <= line_end(s, p) <= s.len(),
    decreases s.len() - p,
{
    if p < s.len() && s[p] != 10 {
        lemma_line_end(s, p + 1);
    }
}

pub proof fn lemma_block_end(s: Seq<u8>, p: int)
    requires
        0 <= p <= s.len(),
    ensures
        p <= block_end(s, p) <= s.len(),
    decreases s.len() - p,
{
    if p < s.len() && !(s[p] == 42 && p + 1 < s.len() && s[p + 1] == 47) {
        lemma_block_end(s, p + 1);
    }
}

pub proof fn lemma_string_end(s: Seq<u8>, q: u8, p: int)
    requires
        0 <= p <= s.len(),
    ensures
        p <= string_end(s, q, p) <= s.len(),
    decreases s.len() - p,
{
    if p < s.len() {
        if s[p] == q {
            if p + 1 < s.len() && s[p + 1] == q {
                lemma_string_end(s, q, p + 2);
            }
        } else if s[p] == 92 && p + 1 < s.len() && s[p + 1] == q {
            lemma_string_end(s, q, p + 2);
        } else {
            lemma_string_end(s, q, p + 1);
        }
    }
}

/// A recognizer that matches consumes at least one byte, and stays in the source.
pub proof fn lemma_recognize(r: Recognizer, s: Seq<u8>, p: int)
    requires
        0 <= p <= s.len(),
    ensures
        recognize(r, s, p) matches Some((_, e)) ==> p < e <= s.len(),
{
    match r {
        Recognizer::Space => if p < s.len() {
            lemma_run_end(s, space_bytes(), p + 1);
        },
        Recognizer::SpaceWithoutEol => if p < s.len() {
            lemma_run_end(s, space_bytes_without_eol(), p + 1);
        },
        Recognizer::Eol => if p < s.len() {
            lemma_run_end(s, eol_bytes(), p + 1);
        },
        Recognizer::LineComment => if p + 2 < s.len() {
            lemma_line_end(s, p + 3);
        },
        Recognizer::BlockComment => if p + 1 < s.len() {
            lemma_block_end(s, p + 2);
        },
        Recognizer::Str => if p < s.len() {
            lemma_string_end(s, s[p], p + 1);
        },
        Recognizer::Word => lemma_word_end(s, p),
    }
}

pub proof fn lemma_first_match(rs: Seq<Recognizer>, s: Seq<u8>, p: int)
    requires
        0 <= p <= s.len(),
    ensures
        first_match(rs, s, p) matches Some((_, e)) ==> p < e <= s.len(),
    decreases rs.len(),
{
    if rs.len() > 0 {
        lemma_recognize(rs[0], s, p);
        lemma_first_match(rs.drop_first(), s, p);
    }
}

pub proof fn lemma_scan_trailer(s: Seq<u8>, p: int)
    requires
        0 <= p <= s.len(),
    ensures
        p <= scan_trailer(s, p).1 <= s.len(),
    decreases s.len() - p,
{
    lemma_first_match(trailer_recognizers(), s, p);
    lemma_recognize(Recognizer::LineComment, s, p);
    lemma_recognize(Recognizer::Eol, s, p);
    if let Some((_, e)) = first_match(trailer_recognizers(), s, p) {
        lemma_scan_trailer(s, e);
    }
}

/// A statement that starts inside the source is not empty and stops inside
/// it; its `;`, if it has one, lies between the two.
pub proof fn lemma_scan_body(s: Seq<u8>, p: int)
    requires
        0 <= p < s.len(),
    ensures
        p < scan_body(s, p).2 <= s.len(),
        scan_body(s, p).1 matches Some(e) ==> p <= e < scan_body(s, p).2,
    decreases s.len() - p,
{
    lemma_first_match(body_recognizers(), s, p);
    match body_match(s, p) {
        Some((_, e)) => if e < s.len() {
            lemma_scan_body(s, e);
        },
        None => if s[p] == 59 {
            lemma_scan_trailer(s, p + 1);
        } else if p + 1 < s.len() {
            lemma_scan_body(s, p + 1);
        },
    }
}

/// Every byte of a run lies in its pattern.
pub proof fn lemma_run_end_bytes(s: Seq<u8>, pat: Seq<u8>, p: int)
    requires
        0 <= p <= s.len(),
    ensures
        forall|i: int| p <= i < run_end(s, pat, p) ==> pat.contains(#[trigger] s[i]),
    decreases s.len() - p,
{
    if p < s.len() && pat.contains(s[p]) {
        lemma_run_end_bytes(s, pat, p + 1);
    }
}

/// Every byte of a word is a letter, a digit or an underscore.
pub proof fn lemma_word_end_bytes(s: Seq<u8>, p: int)
    requires
        0 <= p <= s.len(),
    ensures
        forall|i: int| p <= i < word_end(s, p) ==> is_word_byte(#[trigger] s[i]),
    decreases s.len() - p,
{
    if p < s.len() && is_word_byte(s[p]) {
        lemma_word_end_bytes(s, p + 1);
    }
}

/// A block comment with no `*/` after its opening runs to the end of the source.
pub proof fn lemma_block_unterminated(s: Seq<u8>, p: int)
    requires
        0 <= p <= s.len(),
        forall|i: int| p <= i < s.len() - 1 ==> !(#[trigger] s[i] == 42 && s[i + 1] == 47),
    ensures
        block_end(s, p) == s.len(),
    decreases s.len() - p,
{
    if p < s.len() {
        lemma_block_unterminated(s, p + 1);
    }
}

/// Two dashes not followed by a space open no line comment.
pub proof fn lemma_dashes_open_no_comment(s: Seq<u8>, p: int)
    requires
        0 <= p,
        p + 1 < s.len(),
        s[p] == 45,
        s[p + 1] == 45,
        p + 2 < s.len() ==> s[p + 2] != 32,
    ensures
        recognize(Recognizer::LineComment, s, p) is None,
{
}

/// The body's recognizers make no symbols, and blanks and words of no `;`.
pub proof fn lemma_body_match_semicolon(s: Seq<u8>, p: int)
    requires
        0 <= p <= s.len(),
    ensures
        body_match(s, p) is Some ==> {
            let (k, e) = body_match(s, p)->0;
            &&& k != SqlTokenKind::Symbol
            &&& (k == SqlTokenKind::Space || k == SqlTokenKind::Word) ==> forall|i: int|
                p <= i < e ==> #[trigger] s[i] != 59
        },
{
    reveal_with_fuel(first_match, 6);
    lemma_run_end_bytes(s, space_bytes(), p);
    lemma_word_end_bytes(s, p);
    assert(!space_bytes().contains(59u8)) by {
        assert(space_bytes()[0] != 59u8 && space_bytes()[1] != 59u8);
        assert(space_bytes()[2] != 59u8 && space_bytes()[3] != 59u8);
    }
}

/// A statement that ends at a `;` stops where the text after that `;` stops.
pub proof fn lemma_scan_body_semicolon(s: Seq<u8>, p: int)
    requires
        0 <= p < s.len(),
    ensures
        scan_body(s, p).1 matches Some(e) ==> s[e] == 59 && scan_body(s, p).2 == scan_trailer(
            s,
            e + 1,
        ).1,
    decreases s.len() - p,
{
    match body_match(s, p) {
        Some((_, e)) => if p < e < s.len() {
            lemma_scan_body_semicolon(s, e);
        },
        None => if s[p] != 59 && p + 1 < s.len() {
            lemma_scan_body_semicolon(s, p + 1);
        },
    }
}

} // verus!

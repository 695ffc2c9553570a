//! Properties of the scanner as a whole.
use crate::model::{
    body_match, body_recognizers, lemma_body_match_semicolon, lemma_scan_body_semicolon, line_end,
    eol_bytes, run_end, space_bytes_without_eol, first_match, joined, lemma_first_match, lemma_recognize,
    lemma_run_end, lemma_scan_body, lemma_scan_trailer, recognize, scan_body, scan_trailer, space_bytes, statements, tok,
    trailer_recognizers, word_end, Recognizer,
};
use crate::token::{SqlToken, SqlTokenKind};
use vstd::prelude::*;

verus! {

proof fn lemma_joined_from(s: Seq<u8>, p: int)
    requires
        0 <= p <= s.len(),
    ensures
        joined(s, statements(s, p)) == s.subrange(p, s.len() as int),
    decreases s.len() - p,
{
    if p < s.len() {
        lemma_scan_body(s, p);
        let stop = scan_body(s, p).2;
        lemma_joined_from(s, stop);
        let st = statements(s, p);
        assert(st.drop_first() =~= statements(s, stop));
        assert(s.subrange(p, stop) + s.subrange(stop, s.len() as int) =~= s.subrange(p, s.len() as int));
    } else {
        assert(s.subrange(p, s.len() as int) =~= seq![]);
    }
}

/// The bytes of all statements, in the order they are read, make up the
/// whole source: no byte is lost and none is read twice.
pub proof fn lemma_statements_cover_source(s: Seq<u8>)
    ensures
        joined(s, statements(s, 0)) == s,
{
    lemma_joined_from(s, 0);
    assert(s.subrange(0, s.len() as int) =~= s);
}

/// Reading equal sources from equal positions gives equal statements and
/// equal tokens.
pub proof fn lemma_deterministic(s1: Seq<u8>, s2: Seq<u8>, p: int)
    requires
        s1 == s2,
    ensures
        scan_body(s1, p) == scan_body(s2, p),
        statements(s1, p) == statements(s2, p),
{
}

proof fn lemma_statement_count_from(s: Seq<u8>, p: int)
    requires
        0 <= p <= s.len(),
    ensures
        statements(s, p).len() <= s.len() - p,
        forall|i: int|
            0 <= i < statements(s, p).len() ==> p <= #[trigger] statements(s, p)[i].0 < statements(s, p)[i].1
                <= s.len(),
        forall|i: int|
            0 <= i < statements(s, p).len() ==> #[trigger] statements(s, p)[i].1 == scan_body(
                s,
                statements(s, p)[i].0,
            ).2,
    decreases s.len() - p,
{
    if p < s.len() {
        lemma_scan_body(s, p);
        let stop = scan_body(s, p).2;
        lemma_statement_count_from(s, stop);
        let st = statements(s, p);
        assert forall|i: int| 0 <= i < st.len() implies p <= #[trigger] st[i].0 < st[i].1 <= s.len() by {
            if i > 0 {
                assert(st[i] == statements(s, stop)[i - 1]);
            }
        }
        assert forall|i: int| 0 <= i < st.len() implies #[trigger] st[i].1 == scan_body(s, st[i].0).2 by {
            if i > 0 {
                assert(st[i] == statements(s, stop)[i - 1]);
            }
        }
    }
}

/// Every statement is non-empty and lies inside the source, so a source is
/// split into at most as many statements as it has bytes, whatever it holds:
/// unterminated strings and comments included. The first statement starts at
/// the start of the source, each next one where the last stopped, and each
/// stops where a scan from its start stops: successive calls of `next` on a
/// new parser read them in turn.
pub proof fn lemma_statements_bounded(s: Seq<u8>)
    ensures
        statements(s, 0).len() <= s.len(),
        forall|i: int|
            0 <= i < statements(s, 0).len() ==> 0 <= #[trigger] statements(s, 0)[i].0 < statements(s, 0)[i].1
                <= s.len(),
        forall|i: int|
            0 <= i < statements(s, 0).len() - 1 ==> #[trigger] statements(s, 0)[i].1 == statements(s, 0)[i + 1].0,
        forall|i: int|
            0 <= i < statements(s, 0).len() ==> #[trigger] statements(s, 0)[i].1 == scan_body(
                s,
                statements(s, 0)[i].0,
            ).2,
        statements(s, 0).len() > 0 ==> statements(s, 0)[0].0 == 0,
        statements(s, 0).len() == 0 <==> s.len() == 0,
{
    lemma_statement_count_from(s, 0);
    lemma_statements_adjacent(s, 0);
}

proof fn lemma_statements_adjacent(s: Seq<u8>, p: int)
    requires
        0 <= p <= s.len(),
    ensures
        forall|i: int|
            0 <= i < statements(s, p).len() - 1 ==> #[trigger] statements(s, p)[i].1 == statements(s, p)[i + 1].0,
        statements(s, p).len() > 0 ==> statements(s, p)[0].0 == p,
    decreases s.len() - p,
{
    if p < s.len() {
        lemma_scan_body(s, p);
        let stop = scan_body(s, p).2;
        lemma_statements_adjacent(s, stop);
        let st = statements(s, p);
        assert forall|i: int| 0 <= i < st.len() - 1 implies #[trigger] st[i].1 == st[i + 1].0 by {
            assert(st[i + 1] == statements(s, stop)[i]);
            if i > 0 {
                assert(st[i] == statements(s, stop)[i - 1]);
            }
        }
    }
}

/// Tokens that are non-empty, lie between `lo` and `hi`, and come in order
/// without overlapping.
pub open spec fn tokens_in_order(ts: Seq<SqlToken>, lo: int, hi: int) -> bool {
    &&& forall|i: int| 0 <= i < ts.len() ==> lo <= #[trigger] ts[i].start < ts[i].end <= hi
    &&& forall|i: int| 0 <= i < ts.len() - 1 ==> #[trigger] ts[i].end <= ts[i + 1].start
}

proof fn lemma_prepend_token(t: SqlToken, ts: Seq<SqlToken>, lo: int, mid: int, hi: int)
    requires
        lo <= t.start < t.end <= mid,
        tokens_in_order(ts, mid, hi),
        mid <= hi,
    ensures
        tokens_in_order(seq![t] + ts, lo, hi),
{
    let all = seq![t] + ts;
    assert forall|i: int| 0 <= i < all.len() implies lo <= #[trigger] all[i].start < all[i].end <= hi by {
        if i > 0 {
            assert(all[i] == ts[i - 1]);
        }
    }
    assert forall|i: int| 0 <= i < all.len() - 1 implies #[trigger] all[i].end <= all[i + 1].start by {
        assert(all[i + 1] == ts[i]);
        if i > 0 {
            assert(all[i] == ts[i - 1]);
        }
    }
}

proof fn lemma_trailer_tokens(s: Seq<u8>, p: int)
    requires
        0 <= p <= s.len() <= usize::MAX,
    ensures
        tokens_in_order(scan_trailer(s, p).0, p, scan_trailer(s, p).1),
    decreases s.len() - p,
{
    lemma_first_match(trailer_recognizers(), s, p);
    lemma_recognize(Recognizer::LineComment, s, p);
    lemma_recognize(Recognizer::Eol, s, p);
    lemma_scan_trailer(s, p);
    match first_match(trailer_recognizers(), s, p) {
        Some((k, e)) => {
            lemma_trailer_tokens(s, e);
            lemma_scan_trailer(s, e);
            lemma_prepend_token(tok(p, e, k), scan_trailer(s, e).0, p, e, scan_trailer(s, e).1);
        },
        None => {},
    }
}

/// The tokens of a statement are non-empty, lie inside it, and come in order
/// without overlapping; so each of them lies within the statement that
/// `next` hands to the tokenizer.
pub proof fn lemma_statement_tokens(s: Seq<u8>, p: int)
    requires
        0 <= p < s.len() <= usize::MAX,
    ensures
        tokens_in_order(scan_body(s, p).0, p, scan_body(s, p).2),
    decreases s.len() - p,
{
    lemma_first_match(body_recognizers(), s, p);
    lemma_scan_body(s, p);
    match body_match(s, p) {
        Some((k, e)) => if e < s.len() {
            lemma_statement_tokens(s, e);
            lemma_scan_body(s, e);
            lemma_prepend_token(tok(p, e, k), scan_body(s, e).0, p, e, scan_body(s, e).2);
        },
        None => if s[p] == 59 {
            lemma_trailer_tokens(s, p + 1);
        } else if p + 1 < s.len() {
            lemma_statement_tokens(s, p + 1);
            lemma_scan_body(s, p + 1);
            lemma_prepend_token(
                tok(p, p + 1, SqlTokenKind::Symbol),
                scan_body(s, p + 1).0,
                p,
                p + 1,
                scan_body(s, p + 1).2,
            );
        },
    }
}

/// Where a scanned statement's body ends: at its `;`, or where it stops.
pub open spec fn body_end(m: (Seq<SqlToken>, Option<int>, int)) -> int {
    match m.1 {
        Some(e) => e,
        None => m.2,
    }
}

/// Whether byte `i` lies inside a string or a comment among `ts`.
pub open spec fn quoted_or_commented(ts: Seq<SqlToken>, i: int) -> bool {
    exists|j: int|
        0 <= j < ts.len() && ts[j].start <= i < ts[j].end && (#[trigger] ts[j].kind == SqlTokenKind::String
            || ts[j].kind == SqlTokenKind::Comment)
}

/// A statement ends at a real `;`, and every `;` before it lies inside a
/// string or a comment of the statement.
pub proof fn lemma_semicolons_before_end_are_hidden(s: Seq<u8>, p: int)
    requires
        0 <= p < s.len() <= usize::MAX,
    ensures
        scan_body(s, p).1 matches Some(e) ==> s[e] == 59,
        forall|i: int|
            p <= i < body_end(scan_body(s, p)) && #[trigger] s[i] == 59 ==> quoted_or_commented(
                scan_body(s, p).0,
                i,
            ),
    decreases s.len() - p,
{
    lemma_scan_body_semicolon(s, p);
    lemma_first_match(body_recognizers(), s, p);
    lemma_body_match_semicolon(s, p);
    let m = scan_body(s, p);
    match body_match(s, p) {
        Some((k, e)) => if e < s.len() {
            lemma_semicolons_before_end_are_hidden(s, e);
            lemma_scan_body(s, e);
            let r = scan_body(s, e);
            assert forall|i: int| p <= i < body_end(m) && #[trigger] s[i] == 59 implies quoted_or_commented(
                m.0,
                i,
            ) by {
                if i < e {
                    assert(m.0[0] == tok(p, e, k));
                    assert(k == SqlTokenKind::String || k == SqlTokenKind::Comment);
                    assert(m.0[0].start as int == p && m.0[0].end as int == e);
                    assert(m.0[0].start <= i < m.0[0].end && m.0[0].kind == k);
                } else {
                    let j = choose|j: int|
                        0 <= j < r.0.len() && r.0[j].start <= i < r.0[j].end && (#[trigger] r.0[j].kind
                            == SqlTokenKind::String || r.0[j].kind == SqlTokenKind::Comment);
                    assert(m.0[j + 1] == r.0[j] && m.0[j + 1].kind == r.0[j].kind);
                }
            }
        } else {
            assert forall|i: int| p <= i < body_end(m) && #[trigger] s[i] == 59 implies quoted_or_commented(
                m.0,
                i,
            ) by {
                assert(m.0[0] == tok(p, e, k));
                assert(k == SqlTokenKind::String || k == SqlTokenKind::Comment);
                assert(m.0[0].start as int == p && m.0[0].end as int == e);
                assert(m.0[0].start <= i < m.0[0].end && m.0[0].kind == k);
            }
        },
        None => if s[p] != 59 && p + 1 < s.len() {
            lemma_semicolons_before_end_are_hidden(s, p + 1);
            let r = scan_body(s, p + 1);
            assert forall|i: int| p <= i < body_end(m) && #[trigger] s[i] == 59 implies quoted_or_commented(
                m.0,
                i,
            ) by {
                let j = choose|j: int|
                    0 <= j < r.0.len() && r.0[j].start <= i < r.0[j].end && (#[trigger] r.0[j].kind
                        == SqlTokenKind::String || r.0[j].kind == SqlTokenKind::Comment);
                assert(m.0[j + 1] == r.0[j] && m.0[j + 1].kind == r.0[j].kind);
            }
        },
    }
}

/// After a `;`, blanks on the same line followed by `-- ` open a comment that
/// belongs to the statement: it stops past the comment's line end, or at the
/// end of the source.
pub proof fn lemma_trailing_comment_absorbed(s: Seq<u8>, p: int)
    requires
        0 <= p < s.len(),
        scan_body(s, p).1 is Some,
        ({
            let r = run_end(s, space_bytes_without_eol(), scan_body(s, p).1->0 + 1);
            &&& r + 2 < s.len()
            &&& s[r] == 45
            &&& s[r + 1] == 45
            &&& s[r + 2] == 32
        }),
    ensures
        scan_body(s, p).2 == line_end(s, run_end(s, space_bytes_without_eol(), scan_body(s, p).1->0 + 1) + 3),
{
    lemma_scan_body_semicolon(s, p);
    lemma_scan_body(s, p);
    let q = scan_body(s, p).1->0 + 1;
    let r = run_end(s, space_bytes_without_eol(), q);
    reveal_with_fuel(first_match, 3);
    assert(!space_bytes_without_eol().contains(45u8)) by {
        assert(space_bytes_without_eol()[0] != 45u8 && space_bytes_without_eol()[1] != 45u8);
        assert(space_bytes_without_eol()[2] != 45u8);
    }
    lemma_run_end(s, space_bytes_without_eol(), q);
    assert(first_match(trailer_recognizers(), s, r) is None);
    assert(scan_trailer(s, r).1 == line_end(s, r + 3));
    if r > q {
        assert(recognize(Recognizer::SpaceWithoutEol, s, q) == Some((SqlTokenKind::Space, r)));
        assert(first_match(trailer_recognizers(), s, q) == Some((SqlTokenKind::Space, r)));
        assert(scan_trailer(s, q).1 == scan_trailer(s, r).1);
    }
}

/// Two dashes at `i` followed by neither a space nor a third dash.
pub open spec fn lone_dashes_at(s: Seq<u8>, i: int) -> bool {
    &&& 0 <= i
    &&& i + 1 < s.len()
    &&& s[i] == 45
    &&& s[i + 1] == 45
    &&& i + 2 < s.len() ==> s[i + 2] != 32 && s[i + 2] != 45
}

proof fn lemma_trailer_has_no_lone_dashes(s: Seq<u8>, p: int)
    requires
        0 <= p <= s.len() <= usize::MAX,
    ensures
        forall|j: int|
            0 <= j < scan_trailer(s, p).0.len() ==> !lone_dashes_at(
                s,
                #[trigger] scan_trailer(s, p).0[j].start as int,
            ),
    decreases s.len() - p,
{
    reveal_with_fuel(first_match, 3);
    lemma_first_match(trailer_recognizers(), s, p);
    assert(!space_bytes_without_eol().contains(45u8)) by {
        assert(space_bytes_without_eol()[0] != 45u8 && space_bytes_without_eol()[1] != 45u8);
        assert(space_bytes_without_eol()[2] != 45u8);
    }
    assert(!eol_bytes().contains(45u8)) by {
        assert(eol_bytes()[0] != 45u8 && eol_bytes()[1] != 45u8);
    }
    let ts = scan_trailer(s, p).0;
    match first_match(trailer_recognizers(), s, p) {
        Some((k, e)) => {
            lemma_trailer_has_no_lone_dashes(s, e);
            assert forall|j: int| 0 <= j < ts.len() implies !lone_dashes_at(s, #[trigger] ts[j].start as int) by {
                if j > 0 {
                    assert(ts[j] == scan_trailer(s, e).0[j - 1]);
                } else {
                    assert(ts[0].start as int == p);
                }
            }
        },
        None => {
            assert forall|j: int| 0 <= j < ts.len() implies !lone_dashes_at(s, #[trigger] ts[j].start as int) by {
                assert(j == 0);
                assert(ts[0].start as int == p);
            }
        },
    }
}

proof fn lemma_lone_dashes_match_nothing(s: Seq<u8>, i: int)
    requires
        lone_dashes_at(s, i),
    ensures
        body_match(s, i) is None,
        body_match(s, i + 1) is None,
{
    reveal_with_fuel(first_match, 6);
    assert(!space_bytes().contains(45u8)) by {
        assert(space_bytes()[0] != 45u8 && space_bytes()[1] != 45u8);
        assert(space_bytes()[2] != 45u8 && space_bytes()[3] != 45u8);
    }
    assert(word_end(s, i) == i);
    assert(word_end(s, i + 1) == i + 1);
}

/// Inside a statement, a token that starts at two dashes followed by neither
/// a space nor a third dash is a one-byte symbol, and so is the token after
/// it: such dashes never open a comment.
pub proof fn lemma_lone_dashes_are_symbols(s: Seq<u8>, p: int)
    requires
        0 <= p < s.len() <= usize::MAX,
    ensures
        forall|j: int|
            0 <= j < scan_body(s, p).0.len() && lone_dashes_at(s, #[trigger] scan_body(s, p).0[j].start as int)
                ==> {
                let i = scan_body(s, p).0[j].start as int;
                &&& scan_body(s, p).0[j] == tok(i, i + 1, SqlTokenKind::Symbol)
                &&& j + 1 < scan_body(s, p).0.len()
                &&& scan_body(s, p).0[j + 1] == tok(i + 1, i + 2, SqlTokenKind::Symbol)
            },
    decreases s.len() - p,
{
    lemma_first_match(body_recognizers(), s, p);
    let ts = scan_body(s, p).0;
    match body_match(s, p) {
        Some((k, e)) => {
            if e < s.len() {
                lemma_lone_dashes_are_symbols(s, e);
            }
            assert forall|j: int|
                0 <= j < ts.len() && lone_dashes_at(s, #[trigger] ts[j].start as int) implies {
                let i = ts[j].start as int;
                &&& ts[j] == tok(i, i + 1, SqlTokenKind::Symbol)
                &&& j + 1 < ts.len()
                &&& ts[j + 1] == tok(i + 1, i + 2, SqlTokenKind::Symbol)
            } by {
                if j == 0 {
                    assert(ts[0].start as int == p);
                    lemma_lone_dashes_match_nothing(s, p);
                } else {
                    assert(ts[j] == scan_body(s, e).0[j - 1]);
                    assert(ts[j + 1] == scan_body(s, e).0[j]);
                }
            }
        },
        None => if s[p] == 59 {
            lemma_trailer_has_no_lone_dashes(s, p + 1);
        } else {
            if p + 1 < s.len() {
                lemma_lone_dashes_are_symbols(s, p + 1);
            }
            assert forall|j: int|
                0 <= j < ts.len() && lone_dashes_at(s, #[trigger] ts[j].start as int) implies {
                let i = ts[j].start as int;
                &&& ts[j] == tok(i, i + 1, SqlTokenKind::Symbol)
                &&& j + 1 < ts.len()
                &&& ts[j + 1] == tok(i + 1, i + 2, SqlTokenKind::Symbol)
            } by {
                if j == 0 {
                    assert(ts[0].start as int == p);
                    lemma_lone_dashes_match_nothing(s, p);
                    assert(scan_body(s, p + 1).0[0] == tok(p + 1, p + 2, SqlTokenKind::Symbol));
                } else {
                    assert(ts[j] == scan_body(s, p + 1).0[j - 1]);
                    assert(ts[j + 1] == scan_body(s, p + 1).0[j]);
                }
            }
        },
    }
}

} // verus!

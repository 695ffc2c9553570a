//! The scanner: recognizers, statement boundaries, and the parser that yields
//! one item per statement.
use crate::model::{
    any_of, block_end, body_recognizers, eol_bytes, first_match, lemma_first_match, lemma_recognize,
    lemma_scan_body, line_end, recognize, run_end, scan_body, scan_trailer, space_bytes,
    space_bytes_without_eol, string_end, trailer_recognizers, word_end, Recognizer,
};
use crate::token::{DefaultSqlScriptTokenizer, SqlScript, SqlScriptTokenizer, SqlToken, SqlTokenKind};
use vstd::prelude::*;

verus! {

/// A recognizer's result: the token at `p` and the index past it.
pub open spec fn agrees(r: Option<(SqlToken, usize)>, p: int, m: Option<(SqlTokenKind, int)>) -> bool {
    match (r, m) {
        (None, None) => true,
        (Some((t, e)), Some((k, me))) => t.start == p && t.end == e && t.kind == k && e == me,
        _ => false,
    }
}

/// An index that may be missing, as an integer.
pub open spec fn opt_int(o: Option<usize>) -> Option<int> {
    match o {
        Some(e) => Some(e as int),
        None => None,
    }
}

/// Where a scanned statement ends: at its `;`, or where it stops.
pub open spec fn statement_end(m: (Seq<SqlToken>, Option<int>, int)) -> int {
    match m.1 {
        Some(e) => e,
        None => m.2,
    }
}

/// Whether `b` is one of `pattern`.
fn contains(pattern: &[u8], b: u8) -> (r: bool)
    ensures
        r == pattern@.contains(b),
{
    let mut i: usize = 0;
    while i < pattern.len()
        invariant
            i <= pattern@.len(),
            forall|j: int| 0 <= j < i ==> pattern@[j] != b,
        decreases pattern@.len() - i,
    {
        if pattern[i] == b {
            return true;
        }
        i = i + 1;
    }
    false
}

/// Iterates over the statements of an SQL script.
pub struct SqlScriptParser<'a, Y, T: SqlScriptTokenizer<'a, Y>> {
    source: &'a [u8],
    position: usize,
    tokenizer: T,
    _p: std::marker::PhantomData<Y>,
}

/// A parser that yields each statement as a [`SqlScript`].
pub fn sql_script_parser<'a>(source: &'a [u8]) -> (r: SqlScriptParser<'a, SqlScript<'a>, DefaultSqlScriptTokenizer>)
    ensures
        r.wf(),
        r.source() == source@,
        r.position() == 0,
{
    SqlScriptParser::new(DefaultSqlScriptTokenizer {}, source)
}

impl<'a, Y, T: SqlScriptTokenizer<'a, Y>> SqlScriptParser<'a, Y, T> {
    /// The whole script.
    pub closed spec fn source(&self) -> Seq<u8> {
        self.source@
    }

    /// Where the next statement starts.
    pub closed spec fn position(&self) -> int {
        self.position as int
    }

    pub closed spec fn tokenizer(&self) -> T {
        self.tokenizer
    }

    pub closed spec fn wf(&self) -> bool {
        self.position <= self.source@.len()
    }

    /// A well-formed parser stands inside its source.
    pub proof fn lemma_wf(&self)
        requires
            self.wf(),
        ensures
            0 <= self.position() <= self.source().len(),
    {
    }

    pub fn new(tokenizer: T, source: &'a [u8]) -> (r: Self)
        ensures
            r.wf(),
            r.source() == source@,
            r.position() == 0,
            r.tokenizer() == tokenizer,
    {
        SqlScriptParser { source, position: 0, tokenizer, _p: std::marker::PhantomData }
    }

    fn any_of(&self, pattern: &[u8], position: usize) -> (r: Option<usize>)
        ensures
            match r {
                Some(e) => any_of(self.source@, pattern@, position as int) == Some(e as int),
                None => any_of(self.source@, pattern@, position as int) is None,
            },
    {
        match self.source.get(position) {
            Some(b) => {
                if !contains(pattern, *b) {
                    return None;
                }
            },
            None => {
                return None;
            },
        }
        let mut p: usize = position + 1;
        loop
            invariant
                position < p <= self.source@.len(),
                run_end(self.source@, pattern@, position as int) == run_end(self.source@, pattern@, p as int),
            ensures
                run_end(self.source@, pattern@, position as int) == p as int,
            decreases self.source@.len() - p,
        {
            if p >= self.source.len() || !contains(pattern, self.source[p]) {
                break;
            }
            p = p + 1;
        }
        Some(p)
    }

    fn any_of_space(&self, pattern: &[u8], position: usize) -> (r: Option<(SqlToken, usize)>)
        ensures
            match r {
                Some((t, e)) => any_of(self.source@, pattern@, position as int) == Some(e as int)
                    && t.start == position && t.end == e && t.kind == SqlTokenKind::Space,
                None => any_of(self.source@, pattern@, position as int) is None,
            },
    {
        match self.any_of(pattern, position) {
            Some(e) => Some((SqlToken { start: position, end: e, kind: SqlTokenKind::Space }, e)),
            None => None,
        }
    }

    fn space(&self, position: usize) -> (r: Option<(SqlToken, usize)>)
        ensures
            agrees(r, position as int, recognize(Recognizer::Space, self.source@, position as int)),
    {
        let pattern: [u8; 4] = [32, 9, 13, 10];
        proof {
            assert(pattern@ =~= space_bytes());
        }
        self.any_of_space(pattern.as_slice(), position)
    }

    fn space_without_eol(&self, position: usize) -> (r: Option<(SqlToken, usize)>)
        ensures
            agrees(r, position as int, recognize(Recognizer::SpaceWithoutEol, self.source@, position as int)),
    {
        let pattern: [u8; 3] = [32, 9, 13];
        proof {
            assert(pattern@ =~= space_bytes_without_eol());
        }
        self.any_of_space(pattern.as_slice(), position)
    }

    fn eol(&self, position: usize) -> (r: Option<(SqlToken, usize)>)
        ensures
            agrees(r, position as int, recognize(Recognizer::Eol, self.source@, position as int)),
    {
        let pattern: [u8; 2] = [13, 10];
        proof {
            assert(pattern@ =~= eol_bytes());
        }
        self.any_of_space(pattern.as_slice(), position)
    }

    fn word(&self, position: usize) -> (r: Option<(SqlToken, usize)>)
        ensures
            agrees(r, position as int, recognize(Recognizer::Word, self.source@, position as int)),
    {
        if position > self.source.len() {
            return None;
        }
        let mut p: usize = position;
        loop
            invariant
                position <= p <= self.source@.len(),
                word_end(self.source@, position as int) == word_end(self.source@, p as int),
            ensures
                word_end(self.source@, position as int) == p as int,
            decreases self.source@.len() - p,
        {
            if p >= self.source.len() {
                break;
            }
            let b = self.source[p];
            if !((97 <= b && b <= 122) || (65 <= b && b <= 90) || (48 <= b && b <= 57) || b == 95) {
                break;
            }
            p = p + 1;
        }
        if p == position {
            None
        } else {
            Some((SqlToken { start: position, end: p, kind: SqlTokenKind::Word }, p))
        }
    }

    fn line_comment(&self, position: usize) -> (r: Option<(SqlToken, usize)>)
        ensures
            agrees(r, position as int, recognize(Recognizer::LineComment, self.source@, position as int)),
    {
        if position <= self.source.len() && self.source.len() - position >= 3 && self.source[position] == 45
            && self.source[position + 1] == 45 && self.source[position + 2] == 32 {
            let mut p: usize = position + 3;
            loop
                invariant_except_break
                    line_end(self.source@, position + 3) == line_end(self.source@, p as int),
                invariant
                    position + 3 <= p <= self.source@.len(),
                ensures
                    line_end(self.source@, position + 3) == p as int,
                decreases self.source@.len() - p,
            {
                if p >= self.source.len() {
                    break;
                }
                let c = self.source[p];
                p = p + 1;
                if c == 10 {
                    break;
                }
            }
            Some((SqlToken { start: position, end: p, kind: SqlTokenKind::Comment }, p))
        } else {
            None
        }
    }

    fn string(&self, position: usize) -> (r: Option<(SqlToken, usize)>)
        ensures
            agrees(r, position as int, recognize(Recognizer::Str, self.source@, position as int)),
    {
        if position < self.source.len() && (self.source[position] == 39 || self.source[position] == 34
            || self.source[position] == 96) {
            let border = self.source[position];
            let mut p: usize = position + 1;
            loop
                invariant_except_break
                    string_end(self.source@, border, position + 1) == string_end(self.source@, border, p as int),
                invariant
                    position + 1 <= p <= self.source@.len(),
                    border == self.source@[position as int],
                ensures
                    string_end(self.source@, border, position + 1) == p as int,
                decreases self.source@.len() - p,
            {
                if p >= self.source.len() {
                    break;
                }
                let ch = self.source[p];
                p = p + 1;
                if ch == border {
                    if p < self.source.len() && self.source[p] == border {
                        p = p + 1;
                    } else {
                        break;
                    }
                } else if ch == 92 && p < self.source.len() && self.source[p] == border {
                    p = p + 1;
                }
            }
            Some((SqlToken { start: position, end: p, kind: SqlTokenKind::String }, p))
        } else {
            None
        }
    }

    fn multiline_comment(&self, position: usize) -> (r: Option<(SqlToken, usize)>)
        ensures
            agrees(r, position as int, recognize(Recognizer::BlockComment, self.source@, position as int)),
    {
        if position <= self.source.len() && self.source.len() - position >= 2 && self.source[position] == 47
            && self.source[position + 1] == 42 {
            let mut p: usize = position + 2;
            loop
                invariant_except_break
                    block_end(self.source@, position + 2) == block_end(self.source@, p as int),
                invariant
                    position + 2 <= p <= self.source@.len(),
                ensures
                    block_end(self.source@, position + 2) == p as int,
                decreases self.source@.len() - p,
            {
                if p >= self.source.len() {
                    break;
                }
                if self.source[p] == 42 && p + 1 < self.source.len() && self.source[p + 1] == 47 {
                    p = p + 2;
                    break;
                }
                p = p + 1;
            }
            Some((SqlToken { start: position, end: p, kind: SqlTokenKind::Comment }, p))
        } else {
            None
        }
    }

    /// The token of the first of `matchers` that matches at `position`.
    fn first_of(&self, matchers: &[Recognizer], position: usize) -> (r: Option<(SqlToken, usize)>)
        ensures
            agrees(r, position as int, first_match(matchers@, self.source@, position as int)),
    {
        let mut i: usize = 0;
        proof {
            assert(matchers@.subrange(0, matchers@.len() as int) =~= matchers@);
        }
        while i < matchers.len()
            invariant
                i <= matchers@.len(),
                first_match(matchers@, self.source@, position as int) == first_match(
                    matchers@.subrange(i as int, matchers@.len() as int),
                    self.source@,
                    position as int,
                ),
            decreases matchers@.len() - i,
        {
            let r = match matchers[i] {
                Recognizer::Space => self.space(position),
                Recognizer::SpaceWithoutEol => self.space_without_eol(position),
                Recognizer::Eol => self.eol(position),
                Recognizer::LineComment => self.line_comment(position),
                Recognizer::BlockComment => self.multiline_comment(position),
                Recognizer::Str => self.string(position),
                Recognizer::Word => self.word(position),
            };
            proof {
                let rest = matchers@.subrange(i as int, matchers@.len() as int);
                assert(rest[0] == matchers@[i as int]);
                assert(rest.drop_first() =~= matchers@.subrange(i + 1, matchers@.len() as int));
            }
            if r.is_some() {
                return r;
            }
            i = i + 1;
        }
        proof {
            assert(matchers@.subrange(i as int, matchers@.len() as int).len() == 0);
        }
        None
    }

    /// Reads the statement that starts at `*position` and moves `*position`
    /// past it. Yields the index of its `;` (or where it stops, if it has
    /// none), its bytes and its tokens; nothing at the end of the source.
    pub fn read_statement(&self, position: &mut usize) -> (r: Option<(usize, &'a [u8], Vec<SqlToken>)>)
        requires
            *old(position) <= self.source().len(),
        ensures
            *old(position) == self.source().len() ==> r is None && *final(position) == *old(position),
            *old(position) < self.source().len() ==> match r {
                Some((end, statement, tokens)) => {
                    let m = scan_body(self.source(), *old(position) as int);
                    &&& tokens@ == m.0
                    &&& end as int == statement_end(m)
                    &&& *final(position) as int == m.2
                    &&& statement@ == self.source().subrange(*old(position) as int, m.2)
                },
                None => false,
            },
    {
        if *position == self.source.len() {
            return None;
        }
        let start = *position;
        let mut end: Option<usize> = None;
        let mut tokens: Vec<SqlToken> = Vec::new();
        let body: [Recognizer; 5] = [
            Recognizer::Space,
            Recognizer::LineComment,
            Recognizer::BlockComment,
            Recognizer::Str,
            Recognizer::Word,
        ];
        let trailer: [Recognizer; 2] = [Recognizer::SpaceWithoutEol, Recognizer::BlockComment];
        proof {
            assert(body@ =~= body_recognizers());
            assert(trailer@ =~= trailer_recognizers());
            assert(tokens@ + scan_body(self.source@, start as int).0 =~= scan_body(self.source@, start as int).0);
        }
        let ghost s = self.source@;
        loop
            invariant_except_break
                start <= *position < s.len(),
                end is None,
                scan_body(s, start as int) == (
                    tokens@ + scan_body(s, *position as int).0,
                    scan_body(s, *position as int).1,
                    scan_body(s, *position as int).2,
                ),
            invariant
                s == self.source@,
                body@ == body_recognizers(),
                trailer@ == trailer_recognizers(),
            ensures
                start < *position <= s.len(),
                scan_body(s, start as int) == (tokens@, opt_int(end), *position as int),
            decreases s.len() - *position,
        {
            let ghost p0 = *position as int;
            proof {
                lemma_first_match(body_recognizers(), s, p0);
            }
            if let Some((token, p)) = self.first_of(body.as_slice(), *position) {
                proof {
                    assert(tokens@.push(token) + scan_body(s, p as int).0 =~= tokens@ + (seq![token] + scan_body(s, p as int).0));
                }
                *position = p;
                tokens.push(token);
            } else if self.source[*position] == 59 {
                end = Some(*position);
                *position = *position + 1;
                let ghost t0 = tokens@;
                proof {
                    assert(tokens@ + scan_trailer(s, *position as int).0 =~= t0 + scan_trailer(s, p0 + 1).0);
                }
                loop
                    invariant_except_break
                        tokens@ + scan_trailer(s, *position as int).0 == t0 + scan_trailer(s, p0 + 1).0,
                        scan_trailer(s, *position as int).1 == scan_trailer(s, p0 + 1).1,
                    invariant
                        p0 < *position <= s.len(),
                        s == self.source@,
                        trailer@ == trailer_recognizers(),
                    ensures
                        first_match(trailer_recognizers(), s, *position as int) is None,
                        tokens@ + scan_trailer(s, *position as int).0 == t0 + scan_trailer(s, p0 + 1).0,
                        scan_trailer(s, *position as int).1 == scan_trailer(s, p0 + 1).1,
                    decreases s.len() - *position,
                {
                    proof {
                        lemma_first_match(trailer_recognizers(), s, *position as int);
                    }
                    match self.first_of(trailer.as_slice(), *position) {
                        Some((token, p)) => {
                            proof {
                                assert(tokens@.push(token) + scan_trailer(s, p as int).0 =~= tokens@ + (seq![token] + scan_trailer(s, p as int).0));
                            }
                            *position = p;
                            tokens.push(token);
                        },
                        None => {
                            break;
                        },
                    }
                }
                proof {
                    lemma_recognize(Recognizer::LineComment, s, *position as int);
                    lemma_recognize(Recognizer::Eol, s, *position as int);
                }
                if let Some((token, p)) = self.line_comment(*position) {
                    *position = p;
                    tokens.push(token);
                } else if let Some((token, p)) = self.eol(*position) {
                    *position = p;
                    tokens.push(token);
                }
                proof {
                    assert(tokens@ =~= t0 + scan_trailer(s, p0 + 1).0);
                }
                break;
            } else {
                let token = SqlToken { start: *position, end: *position + 1, kind: SqlTokenKind::Symbol };
                proof {
                    assert(tokens@.push(token) + scan_body(s, p0 + 1).0 =~= tokens@ + (seq![token] + scan_body(s, p0 + 1).0));
                }
                tokens.push(token);
                *position = *position + 1;
            }
            if *position == self.source.len() {
                proof {
                    assert(tokens@ =~= tokens@ + scan_body(s, *position as int).0);
                }
                break;
            }
        }
        let stop = *position;
        Some((
            match end {
                Some(e) => e,
                None => stop,
            },
            &self.source[start..stop],
            tokens,
        ))
    }

    /// Yields the item of the next statement, made by the tokenizer from the
    /// statement and its tokens; nothing once the source is used up.
    pub fn next(&mut self) -> (r: Option<Y>)
        requires
            old(self).wf(),
        ensures
            final(self).wf(),
            final(self).source() == old(self).source(),
            old(self).position() <= final(self).position() <= final(self).source().len(),
            old(self).position() == old(self).source().len() ==> r is None && final(self).position()
                == old(self).position(),
            old(self).position() < old(self).source().len() ==> {
                let m = scan_body(old(self).source(), old(self).position());
                &&& final(self).position() == m.2
                &&& r matches Some(y) && old(self).tokenizer().yields(
                    old(self).position() as usize,
                    statement_end(m) as usize,
                    old(self).source().subrange(old(self).position(), m.2),
                    m.0,
                    y,
                )
            },
            final(self).tokenizer() == old(self).tokenizer(),
    {
        let start = self.position;
        let mut position = self.position;
        let item = match self.read_statement(&mut position) {
            Some((end, statement, tokens)) => Some(
                self.tokenizer.apply(SqlScript { start, end, statement }, tokens.as_slice()),
            ),
            None => None,
        };
        proof {
            if start < self.source@.len() {
                lemma_scan_body(self.source@, start as int);
            }
        }
        self.position = position;
        item
    }
}

} // verus!

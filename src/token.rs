use vstd::prelude::*;

verus! {

/// One statement of a script.
pub struct SqlScript<'a> {
    /// Index in the source where the statement starts.
    pub start: usize,
    /// Index in the source of the terminating `;`, or the end of the source.
    pub end: usize,
    /// The statement's bytes, with the trailing blanks and comments that
    /// follow its `;` on the same line.
    pub statement: &'a [u8],
}

/// Turns a statement and its tokens into the item that the parser yields.
pub trait SqlScriptTokenizer<'a, Y> {
    /// Whether `y` is an item that `apply` may make of the statement from
    /// `start` to `end` with bytes `statement` and tokens `tokens`.
    open spec fn yields(&self, start: usize, end: usize, statement: Seq<u8>, tokens: Seq<SqlToken>, y: Y) -> bool {
        true
    }

    fn apply(&self, sql_script: SqlScript<'a>, tokens: &[SqlToken]) -> (y: Y)
        ensures
            self.yields(sql_script.start, sql_script.end, sql_script.statement@, tokens@, y),
    ;
}

/// Kind of a token.
#[derive(Debug, PartialEq, Eq, Structural, Clone, Copy)]
pub enum SqlTokenKind {
    Space,
    Comment,
    Word,
    String,
    Symbol,
}

/// A token: `start` and `end` are indexes in the whole source.
#[derive(Debug, PartialEq, Eq, Structural, Clone, Copy)]
pub struct SqlToken {
    pub start: usize,
    pub end: usize,
    pub kind: SqlTokenKind,
}

impl SqlToken {
    /// Whether this token lies within the bytes of `sql_script`.
    pub open spec fn within(&self, sql_script: &SqlScript) -> bool {
        &&& sql_script.start <= self.start <= self.end
        &&& self.end - sql_script.start <= sql_script.statement@.len()
    }

    /// The bytes of this token, taken from the statement that holds it.
    /// Only a token of that statement lies within it.
    pub fn extract<'a>(&self, sql_script: &SqlScript<'a>) -> (r: &'a [u8])
        requires
            self.within(sql_script),
        ensures
            r@ == sql_script.statement@.subrange(
                self.start - sql_script.start,
                self.end - sql_script.start,
            ),
    {
        &sql_script.statement[self.start - sql_script.start..self.end - sql_script.start]
    }
}

/// The tokenizer that yields each statement as it is.
pub struct DefaultSqlScriptTokenizer;

impl<'a> SqlScriptTokenizer<'a, SqlScript<'a>> for DefaultSqlScriptTokenizer {
    open spec fn yields(
        &self,
        start: usize,
        end: usize,
        statement: Seq<u8>,
        tokens: Seq<SqlToken>,
        y: SqlScript<'a>,
    ) -> bool {
        y.start == start && y.end == end && y.statement@ == statement
    }

    fn apply(&self, sql_script: SqlScript<'a>, _tokens: &[SqlToken]) -> SqlScript<'a> {
        sql_script
    }
}

} // verus!

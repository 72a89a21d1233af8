//! The clauses of a `SELECT` statement: their parsers on bytes and the SQL
//! text that each renders to.
use vstd::prelude::*;
use crate::lexeme::{self, ParseError, keyword, unsigned_number};
use crate::text::{self, append_decimal, append_joined};

verus! {

/// `LIMIT n` with an optional `OFFSET m`; an absent offset is 0.
#[derive(Clone, Debug, PartialEq, Eq, Hash, Structural)]
pub struct LimitClause {
    pub limit: u64,
    pub offset: u64,
}

impl LimitClause {
    /// The SQL text of the clause: the offset is written only when it is not 0.
    pub open spec fn sql(self) -> Seq<char> {
        "LIMIT "@ + text::decimal_text(self.limit as nat) + if self.offset > 0 {
            " OFFSET "@ + text::decimal_text(self.offset as nat)
        } else {
            Seq::empty()
        }
    }

    /// Appends the clause's SQL text.
    pub fn append_sql(&self, out: &mut String)
        ensures
            final(out)@ == old(out)@ + self.sql(),
    {
        let ghost start = out@;
        out.append("LIMIT ");
        append_decimal(out, self.limit);
        if self.offset > 0 {
            out.append(" OFFSET ");
            append_decimal(out, self.offset);
        }
        assert(out@ =~= start + self.sql());
    }

    /// Renders the clause as SQL text, all of it ASCII.
    pub fn to_string(&self) -> (s: String)
        ensures
            s@ == self.sql(),
            vstd::utf8::is_ascii_chars(s@),
    {
        let mut s = String::new();
        self.append_sql(&mut s);
        assert(s@ =~= self.sql());
        proof {
            lemma_limit_sql_ascii(*self);
        }
        s
    }
}

/// The text of an optional part: `prefix` and the part, or nothing.
pub open spec fn optional_sql(prefix: Seq<char>, part: Option<String>) -> Seq<char> {
    match part {
        Some(x) => prefix + x@,
        None => Seq::empty(),
    }
}

fn append_optional(out: &mut String, prefix: &str, part: &Option<String>)
    ensures
        final(out)@ == old(out)@ + optional_sql(prefix@, *part),
{
    match part {
        Some(x) => {
            out.append(prefix);
            out.append(x.as_str());
        },
        None => {},
    }
    assert(out@ =~= old(out)@ + optional_sql(prefix@, *part));
}

/// `GROUP BY` columns with an optional `HAVING` condition. The columns and the
/// condition are held as their SQL text.
#[derive(Clone, Debug, PartialEq, Eq, Hash)]
pub struct GroupByClause {
    pub columns: Vec<String>,
    pub having: Option<String>,
}

impl GroupByClause {
    /// `GROUP BY`, the columns separated by `, `, then ` HAVING` and the condition if there is one.
    pub open spec fn sql(self) -> Seq<char> {
        "GROUP BY "@ + text::join_texts(text::texts(self.columns@), ", "@) + optional_sql(
            " HAVING "@,
            self.having,
        )
    }

    /// Appends the clause's SQL text.
    pub fn append_sql(&self, out: &mut String)
        ensures
            final(out)@ == old(out)@ + self.sql(),
    {
        let ghost start = out@;
        out.append("GROUP BY ");
        append_joined(out, &self.columns, ", ");
        append_optional(out, " HAVING ", &self.having);
        assert(out@ =~= start + self.sql());
    }

    /// Renders the clause as SQL text.
    pub fn to_string(&self) -> (s: String)
        ensures
            s@ == self.sql(),
    {
        let mut s = String::new();
        self.append_sql(&mut s);
        assert(s@ =~= self.sql());
        s
    }
}

/// A join: its operator, its right-hand side and its constraint, each held as its SQL text.
#[derive(Clone, Debug, PartialEq, Eq, Hash)]
pub struct JoinClause {
    pub operator: String,
    pub right: String,
    pub constraint: String,
}

impl JoinClause {
    /// The operator, the right-hand side and the constraint, separated by single spaces.
    pub open spec fn sql(self) -> Seq<char> {
        self.operator@ + " "@ + self.right@ + " "@ + self.constraint@
    }

    /// Appends the clause's SQL text.
    pub fn append_sql(&self, out: &mut String)
        ensures
            final(out)@ == old(out)@ + self.sql(),
    {
        let ghost start = out@;
        out.append(self.operator.as_str());
        out.append(" ");
        out.append(self.right.as_str());
        out.append(" ");
        out.append(self.constraint.as_str());
        assert(out@ =~= start + self.sql());
    }

    /// Renders the clause as SQL text.
    pub fn to_string(&self) -> (s: String)
        ensures
            s@ == self.sql(),
    {
        let mut s = String::new();
        self.append_sql(&mut s);
        assert(s@ =~= self.sql());
        s
    }
}

/// The joins of a statement, each after a space.
pub open spec fn joins_sql(js: Seq<JoinClause>) -> Seq<char>
    decreases js.len(),
{
    if js.len() == 0 {
        Seq::empty()
    } else {
        joins_sql(js.drop_last()) + " "@ + js.last().sql()
    }
}

/// A `SELECT` statement. Field expressions, tables, the `WHERE` condition and
/// the `ORDER BY` clause are held as their SQL text.
#[derive(Clone, Debug, PartialEq, Eq, Hash)]
pub struct SelectStatement {
    pub tables: Vec<String>,
    pub distinct: bool,
    pub fields: Vec<String>,
    pub join: Vec<JoinClause>,
    pub where_clause: Option<String>,
    pub group_by: Option<GroupByClause>,
    pub order: Option<String>,
    pub limit: Option<LimitClause>,
}

impl SelectStatement {
    /// `SELECT`, `DISTINCT` if asked, the fields separated by `, `, `FROM` and
    /// the tables separated by `, ` when there are tables, then each join, the
    /// `WHERE` condition, the `GROUP BY`, `ORDER BY` and `LIMIT` clauses that are
    /// present, each after a space.
    pub open spec fn sql(self) -> Seq<char> {
        self.head_sql() + joins_sql(self.join@) + self.tail_sql()
    }

    /// The text up to the joins: `SELECT`, `DISTINCT`, the fields and the tables.
    pub open spec fn head_sql(self) -> Seq<char> {
        "SELECT "@ + (if self.distinct {
            "DISTINCT "@
        } else {
            Seq::empty()
        }) + text::join_texts(text::texts(self.fields@), ", "@) + (if self.tables@.len() > 0 {
            " FROM "@ + text::join_texts(text::texts(self.tables@), ", "@)
        } else {
            Seq::empty()
        })
    }

    /// The text after the joins: `WHERE`, `GROUP BY`, `ORDER BY` and `LIMIT`.
    pub open spec fn tail_sql(self) -> Seq<char> {
        optional_sql(" WHERE "@, self.where_clause) + (match self.group_by {
            Some(g) => " "@ + g.sql(),
            None => Seq::empty(),
        }) + optional_sql(" "@, self.order) + (match self.limit {
            Some(l) => " "@ + l.sql(),
            None => Seq::empty(),
        })
    }

    fn append_head(&self, out: &mut String)
        ensures
            final(out)@ == old(out)@ + self.head_sql(),
    {
        let ghost start = out@;
        out.append("SELECT ");
        if self.distinct {
            out.append("DISTINCT ");
        }
        append_joined(out, &self.fields, ", ");
        if self.tables.len() > 0 {
            out.append(" FROM ");
            append_joined(out, &self.tables, ", ");
        }
        assert(out@ =~= start + self.head_sql());
    }

    fn append_joins(&self, out: &mut String)
        ensures
            final(out)@ == old(out)@ + joins_sql(self.join@),
    {
        let ghost start = out@;
        let n = self.join.len();
        let mut i: usize = 0;
        while i < n
            invariant
                n == self.join@.len(),
                i <= n,
                out@ == start + joins_sql(self.join@.take(i as int)),
            decreases n - i,
        {
            let ghost prev = out@;
            out.append(" ");
            self.join[i].append_sql(out);
            proof {
                assert(self.join@.take(i + 1).drop_last() =~= self.join@.take(i as int));
                assert(out@ =~= prev + " "@ + self.join@[i as int].sql());
            }
            i = i + 1;
        }
        assert(self.join@.take(n as int) =~= self.join@);
    }

    fn append_tail(&self, out: &mut String)
        ensures
            final(out)@ == old(out)@ + self.tail_sql(),
    {
        let ghost start = out@;
        append_optional(out, " WHERE ", &self.where_clause);
        let ghost s1 = out@;
        match &self.group_by {
            Some(g) => {
                out.append(" ");
                g.append_sql(out);
            },
            None => {},
        }
        let ghost s2 = out@;
        append_optional(out, " ", &self.order);
        let ghost s3 = out@;
        match &self.limit {
            Some(l) => {
                out.append(" ");
                l.append_sql(out);
            },
            None => {},
        }
        assert(out@ =~= start + self.tail_sql());
    }

    /// Appends the statement's SQL text.
    pub fn append_sql(&self, out: &mut String)
        ensures
            final(out)@ == old(out)@ + self.sql(),
    {
        let ghost start = out@;
        self.append_head(out);
        self.append_joins(out);
        self.append_tail(out);
        assert(out@ =~= start + self.sql());
    }

    /// Renders the statement as SQL text.
    pub fn to_string(&self) -> (s: String)
        ensures
            s@ == self.sql(),
    {
        let mut s = String::new();
        self.append_sql(&mut s);
        assert(s@ =~= self.sql());
        s
    }
}

impl Default for SelectStatement {
    /// A statement with no tables, fields, joins or clauses, not `DISTINCT`.
    fn default() -> (s: Self)
        ensures
            s.tables@.len() == 0,
            !s.distinct,
            s.fields@.len() == 0,
            s.join@.len() == 0,
            s.where_clause is None,
            s.group_by is None,
            s.order is None,
            s.limit is None,
    {
        SelectStatement {
            tables: Vec::new(),
            distinct: false,
            fields: Vec::new(),
            join: Vec::new(),
            where_clause: None,
            group_by: None,
            order: None,
            limit: None,
        }
    }
}

/// The keyword `offset`.
pub open spec fn offset_keyword() -> Seq<u8> {
    seq![0x6fu8, 0x66u8, 0x66u8, 0x73u8, 0x65u8, 0x74u8]
}

/// The keyword `limit`.
pub open spec fn limit_keyword() -> Seq<u8> {
    seq![0x6cu8, 0x69u8, 0x6du8, 0x69u8, 0x74u8]
}

/// `OFFSET` and a number, from `p` on: the number and the position after it.
pub open spec fn spec_offset(s: Seq<u8>, p: int) -> Result<(u64, int), ParseError> {
    match lexeme::spec_keyword(s, p, offset_keyword()) {
        Ok(c) => lexeme::spec_unsigned_number(s, c),
        Err(e) => Err(e),
    }
}

/// `LIMIT`, a number and, if it follows, `OFFSET` and a number, from `p` on:
/// the clause and the position after it.
pub open spec fn spec_limit_clause(s: Seq<u8>, p: int) -> Result<(LimitClause, int), ParseError> {
    match lexeme::spec_keyword(s, p, limit_keyword()) {
        Ok(c) => match lexeme::spec_unsigned_number(s, c) {
            Ok((limit, d)) => match spec_offset(s, d) {
                Ok((offset, e)) => Ok((LimitClause { limit, offset }, e)),
                Err(_) => Ok((LimitClause { limit, offset: 0 }, d)),
            },
            Err(e) => Err(e),
        },
        Err(e) => Err(e),
    }
}

fn offset(i: &[u8], p: usize) -> (r: Result<(u64, usize), ParseError>)
    requires
        p <= i@.len(),
    ensures
        match r {
            Ok((v, q)) => spec_offset(i@, p as int) == Ok::<(u64, int), ParseError>((v, q as int))
                && p < q <= i@.len(),
            Err(e) => spec_offset(i@, p as int) == Err::<(u64, int), ParseError>(e),
        },
{
    let kw: [u8; 6] = [0x6fu8, 0x66u8, 0x66u8, 0x73u8, 0x65u8, 0x74u8];
    let kws = kw.as_slice();
    assert(kws@ =~= offset_keyword());
    match keyword(i, p, kws) {
        Ok(c) => unsigned_number(i, c),
        Err(e) => Err(e),
    }
}

/// Parses a `LIMIT` clause at the start of `i`: whitespace, `LIMIT` in any
/// case, whitespace, a number, then an optional `OFFSET` part of the same shape.
/// Gives the rest of the input and the clause.
pub fn limit_clause(i: &[u8]) -> (r: Result<(&[u8], LimitClause), ParseError>)
    ensures
        match spec_limit_clause(i@, 0) {
            Ok((c, e)) => r matches Ok((rest, v)) && v == c && rest@ == i@.skip(e),
            Err(e) => r matches Err(x) && x == e,
        },
{
    let kw: [u8; 5] = [0x6cu8, 0x69u8, 0x6du8, 0x69u8, 0x74u8];
    let kws = kw.as_slice();
    assert(kws@ =~= limit_keyword());
    let c = match keyword(i, 0, kws) {
        Ok(c) => c,
        Err(e) => return Err(e),
    };
    let (limit, d) = match unsigned_number(i, c) {
        Ok(v) => v,
        Err(e) => return Err(e),
    };
    let (offset, e) = match offset(i, d) {
        Ok((v, q)) => (v, q),
        Err(_) => (0, d),
    };
    let (_, rest) = i.split_at(e);
    assert(rest@ =~= i@.skip(e as int));
    Ok((rest, LimitClause { limit, offset }))
}

} // verus!

verus! {

/// The text of a `LIMIT` clause is ASCII.
pub proof fn lemma_limit_sql_ascii(c: LimitClause)
    ensures
        vstd::utf8::is_ascii_chars(c.sql()),
{
    reveal_strlit("LIMIT ");
    reveal_strlit(" OFFSET ");
    text::lemma_decimal_text(c.limit as nat);
    text::lemma_decimal_text(c.offset as nat);
    let t = c.sql();
    let n1 = text::decimal_text(c.limit as nat).len();
    assert forall|i: int| 0 <= i < t.len() implies '\0' <= #[trigger] t[i] <= '\u{7f}' by {
        if 6 <= i < 6 + n1 {
            assert(t[i] == text::decimal_text(c.limit as nat)[i - 6]);
        } else if 6 + n1 + 8 <= i {
            assert(t[i] == text::decimal_text(c.offset as nat)[i - 6 - n1 - 8]);
        }
    }
}

/// Reading back the bytes of a `LIMIT` clause's text gives the same clause
/// and consumes them all.
pub proof fn law_limit_clause_round_trip(c: LimitClause)
    ensures
        spec_limit_clause(vstd::utf8::encode_utf8(c.sql()), 0) == Ok::<(LimitClause, int), ParseError>(
            (c, c.sql().len() as int),
        ),
{
    lemma_limit_sql_ascii(c);
    text::lemma_ascii_encoding(c.sql());
    lemma_limit_text_reads_back(c);
}

#[verifier::spinoff_prover]
#[verifier::rlimit(40)]
proof fn lemma_limit_text_reads_back(c: LimitClause)
    ensures
        spec_limit_clause(text::ascii_bytes(c.sql()), 0) == Ok::<(LimitClause, int), ParseError>(
            (c, c.sql().len() as int),
        ),
{
    reveal_strlit("LIMIT ");
    reveal_strlit(" OFFSET ");
    let d1 = text::decimal_text(c.limit as nat);
    let d2 = text::decimal_text(c.offset as nat);
    text::lemma_decimal_text(c.limit as nat);
    text::lemma_decimal_text(c.offset as nat);
    let t = c.sql();
    let s = text::ascii_bytes(t);
    let n1 = d1.len() as int;
    assert(t.len() == s.len());
    assert(s[0] == 0x4cu8);
    assert(s[1] == 0x49u8);
    assert(s[2] == 0x4du8);
    assert(s[3] == 0x49u8);
    assert(s[4] == 0x54u8);
    assert(s[5] == 0x20u8);
    // `LIMIT` at 0, one space, then the digits of the limit
    lexeme::lemma_space_end_at(s, 0, 0);
    assert(lexeme::matches_no_case(s, 0, limit_keyword()));
    assert(forall|k: int| 6 <= k < 6 + n1 ==> s[k] == text::ascii_bytes(d1)[k - 6]);
    lexeme::lemma_space_end_at(s, 5, 6);
    assert(lexeme::spec_keyword(s, 0, limit_keyword()) == Ok::<int, ParseError>(6));
    if c.offset > 0 {
        assert(s[6 + n1] == 0x20u8);
    } else {
        assert(s.len() == 6 + n1);
    }
    lexeme::lemma_digit_end_at(s, 6, 6 + n1);
    assert(s.subrange(6, 6 + n1) =~= text::ascii_bytes(d1));
    assert(lexeme::spec_unsigned_number(s, 6) == Ok::<(u64, int), ParseError>((c.limit, 6 + n1)));
    if c.offset > 0 {
        let n2 = d2.len() as int;
        let o = 6 + n1;
        assert(s.len() == o + 8 + n2);
        assert(s[o + 1] == 0x4fu8);
        assert(s[o + 2] == 0x46u8);
        assert(s[o + 3] == 0x46u8);
        assert(s[o + 4] == 0x53u8);
        assert(s[o + 5] == 0x45u8);
        assert(s[o + 6] == 0x54u8);
        assert(s[o + 7] == 0x20u8);
        assert(forall|k: int| o + 8 <= k < o + 8 + n2 ==> s[k] == text::ascii_bytes(d2)[k - o - 8]);
        lexeme::lemma_space_end_at(s, o, o + 1);
        assert(lexeme::matches_no_case(s, o + 1, offset_keyword()));
        lexeme::lemma_space_end_at(s, o + 7, o + 8);
        assert(lexeme::spec_keyword(s, o, offset_keyword()) == Ok::<int, ParseError>(o + 8));
        lexeme::lemma_digit_end_at(s, o + 8, o + 8 + n2);
        assert(s.subrange(o + 8, o + 8 + n2) =~= text::ascii_bytes(d2));
    } else {
        lexeme::lemma_space_end_at(s, 6 + n1, 6 + n1);
        assert(!lexeme::matches_no_case(s, 6 + n1, offset_keyword()));
    }
}

} // verus!

verus! {

proof fn lemma_keyword_result_nonneg(s: Seq<u8>, p: int, kw: Seq<u8>)
    ensures
        lexeme::spec_keyword(s, p, kw) matches Ok(c) ==> 0 <= c <= s.len(),
{
    if lexeme::spec_keyword(s, p, kw) is Ok {
        let a = lexeme::space_end(s, p);
        lexeme::lemma_space_end_bounds(s, a + kw.len());
    }
}

proof fn lemma_number_result_nonneg(s: Seq<u8>, p: int)
    requires
        0 <= p <= s.len(),
    ensures
        lexeme::spec_unsigned_number(s, p) matches Ok((_, q)) ==> 0 <= q <= s.len(),
{
    lexeme::lemma_digit_end_bounds(s, p);
}

/// `LIMIT` and `OFFSET` are read in any mix of upper and lower case: two
/// inputs that differ only in the case of ASCII letters give the same result.
pub proof fn law_limit_clause_ignores_case(s: Seq<u8>, t: Seq<u8>)
    requires
        lexeme::fold_case(s) == lexeme::fold_case(t),
    ensures
        spec_limit_clause(s, 0) == spec_limit_clause(t, 0),
{
    lexeme::lemma_fold_case_keyword(s, t, 0, limit_keyword());
    if let Ok(c) = lexeme::spec_keyword(s, 0, limit_keyword()) {
        lexeme::lemma_fold_case_number(s, t, c);
        if let Ok((_, d)) = lexeme::spec_unsigned_number(s, c) {
            lexeme::lemma_fold_case_keyword(s, t, d, offset_keyword());
            if let Ok(e) = lexeme::spec_keyword(s, d, offset_keyword()) {
                lexeme::lemma_fold_case_number(s, t, e);
            }
        }
    }
}

/// Whitespace before `LIMIT` is skipped: the clause read after it is the
/// clause read without it, and it ends the same distance further on.
pub proof fn law_limit_clause_skips_leading_space(ws: Seq<u8>, s: Seq<u8>)
    requires
        forall|k: int| 0 <= k < ws.len() ==> lexeme::is_sql_space(#[trigger] ws[k]),
    ensures
        spec_limit_clause(ws + s, 0) == match spec_limit_clause(s, 0) {
            Ok((c, e)) => Ok::<(LimitClause, int), ParseError>((c, e + ws.len())),
            Err(x) => Err::<(LimitClause, int), ParseError>(x),
        },
{
    let n = ws.len() as int;
    lexeme::lemma_leading_space_keyword(ws, s, limit_keyword());
    lexeme::lemma_shift_keyword(ws, s, 0, limit_keyword());
    lemma_keyword_result_nonneg(s, 0, limit_keyword());
    if let Ok(c) = lexeme::spec_keyword(s, 0, limit_keyword()) {
        lexeme::lemma_shift_number(ws, s, c);
        lemma_number_result_nonneg(s, c);
        if let Ok((_, d)) = lexeme::spec_unsigned_number(s, c) {
            lexeme::lemma_shift_keyword(ws, s, d, offset_keyword());
            lemma_keyword_result_nonneg(s, d, offset_keyword());
            if let Ok(e) = lexeme::spec_keyword(s, d, offset_keyword()) {
                lexeme::lemma_shift_number(ws, s, e);
            }
        }
    }
}

} // verus!

verus! {

/// The `LIMIT` clause that ends a statement's text is read back from there:
/// `limit_clause`, given the bytes of the text from the space before `LIMIT`
/// on, gives the statement's clause and consumes all of them.
#[verifier::spinoff_prover]
#[verifier::rlimit(60)]
pub proof fn law_select_limit_reads_back(stmt: SelectStatement)
    requires
        stmt.limit is Some,
    ensures
        ({
            let t = vstd::utf8::encode_utf8(stmt.sql());
            let l = stmt.limit.unwrap();
            let k = t.len() - l.sql().len() - 1;
            spec_limit_clause(t.skip(k), 0) == Ok::<(LimitClause, int), ParseError>(
                (l, l.sql().len() + 1 as int),
            )
        }),
{
    reveal_strlit(" ");
    let l = stmt.limit.unwrap();
    let u = text::ascii_bytes(l.sql());
    let t = vstd::utf8::encode_utf8(stmt.sql());
    let k = t.len() - l.sql().len() - 1;
    let ws = seq![0x20u8];
    let rest = stmt.head_sql() + joins_sql(stmt.join@) + optional_sql(" WHERE "@, stmt.where_clause)
        + (match stmt.group_by {
        Some(g) => " "@ + g.sql(),
        None => Seq::empty(),
    }) + optional_sql(" "@, stmt.order);
    let tail = " "@ + l.sql();
    assert(stmt.sql() =~= rest + tail);
    lemma_limit_sql_ascii(l);
    assert(vstd::utf8::is_ascii_chars(tail)) by {
        assert forall|i: int| 0 <= i < tail.len() implies '\0' <= #[trigger] tail[i] <= '\u{7f}' by {
            if i > 0 {
                assert(tail[i] == l.sql()[i - 1]);
            }
        }
    }
    text::lemma_encode_utf8_concat(rest, tail);
    text::lemma_ascii_encoding(tail);
    assert(t.skip(k) =~= ws + u);
    lemma_limit_text_reads_back(l);
    law_limit_clause_skips_leading_space(ws, u);
}

} // verus!

verus! {

/// The clause with its `HAVING` condition replaced by `h`.
pub open spec fn with_having(g: GroupByClause, h: Option<String>) -> GroupByClause {
    GroupByClause { having: h, ..g }
}

/// The `HAVING` condition comes after the columns, whatever they are: a
/// clause's text with a condition is its text without it, then ` HAVING ` and
/// the condition. Each column's and the condition's text stands in the clause's text.
pub proof fn law_group_by_having_follows_columns(g: GroupByClause, h: String)
    ensures
        with_having(g, Some(h)).sql() == with_having(g, None).sql() + " HAVING "@ + h@,
        with_having(g, None).sql() == "GROUP BY "@ + text::join_texts(
            text::texts(g.columns@),
            ", "@,
        ),
        forall|i: int|
            0 <= i < g.columns@.len() ==> text::occurs_in(#[trigger] g.columns@[i]@, g.sql()),
        (g.having is Some ==> text::occurs_in(g.having.unwrap()@, g.sql())),
{
    let with = with_having(g, Some(h));
    let without = with_having(g, None);
    let j = text::join_texts(text::texts(g.columns@), ", "@);
    assert(with.sql() =~= without.sql() + " HAVING "@ + h@);
    assert(without.sql() =~= "GROUP BY "@ + j);
    let tail = optional_sql(" HAVING "@, g.having);
    assert(g.sql() =~= "GROUP BY "@ + j + tail);
    assert forall|i: int| 0 <= i < g.columns@.len() implies text::occurs_in(
        #[trigger] g.columns@[i]@,
        g.sql(),
    ) by {
        assert(text::texts(g.columns@)[i] == g.columns@[i]@);
        text::lemma_join_contains(text::texts(g.columns@), ", "@, i);
        text::lemma_occurs_in_context(g.columns@[i]@, "GROUP BY "@, j, tail);
    }
    if let Some(x) = g.having {
        let p = ("GROUP BY "@ + j + " HAVING "@).len() as int;
        assert(g.sql().subrange(p, p + x@.len()) =~= x@);
        assert(0 <= p && p + x@.len() <= g.sql().len() && g.sql().subrange(p, p + x@.len()) == x@);
    }
}

/// The statement with its `WHERE`, `GROUP BY`, `ORDER BY` and `LIMIT` parts removed.
pub open spec fn select_core(s: SelectStatement) -> SelectStatement {
    SelectStatement { where_clause: None, group_by: None, order: None, limit: None, ..s }
}

/// The statement with its `WHERE` condition replaced by `w`.
pub open spec fn with_where(s: SelectStatement, w: Option<String>) -> SelectStatement {
    SelectStatement { where_clause: w, ..s }
}

/// The statement with `DISTINCT` set to `d`.
pub open spec fn with_distinct(s: SelectStatement, d: bool) -> SelectStatement {
    SelectStatement { distinct: d, ..s }
}

/// The core of the statement with only its part `k` of the clauses after the
/// joins (0: `WHERE`, 1: `GROUP BY`, 2: `ORDER BY`, 3: `LIMIT`).
pub open spec fn only_clause(s: SelectStatement, k: int) -> SelectStatement {
    let core = select_core(s);
    if k == 0 {
        SelectStatement { where_clause: s.where_clause, ..core }
    } else if k == 1 {
        SelectStatement { group_by: s.group_by, ..core }
    } else if k == 2 {
        SelectStatement { order: s.order, ..core }
    } else {
        SelectStatement { limit: s.limit, ..core }
    }
}

/// What part `k` of the clauses adds to the core's text on its own.
pub open spec fn clause_extension(s: SelectStatement, k: int) -> Seq<char> {
    only_clause(s, k).sql().skip(select_core(s).sql().len() as int)
}

/// The text that an optional `WHERE` condition stands for.
pub open spec fn where_words(w: Option<String>) -> Seq<char> {
    match w {
        Some(w) => " WHERE "@ + w@,
        None => Seq::empty(),
    }
}

proof fn lemma_core_sql(s: SelectStatement)
    ensures
        select_core(s).sql() == s.head_sql() + joins_sql(s.join@),
        select_core(s).head_sql() == s.head_sql(),
{
    let core = select_core(s);
    assert(core.head_sql() == s.head_sql());
    assert(core.tail_sql() =~= Seq::<char>::empty());
    assert(core.sql() =~= s.head_sql() + joins_sql(s.join@));
}

#[verifier::spinoff_prover]
#[verifier::rlimit(60)]
proof fn lemma_only_clause_sql(s: SelectStatement, k: int)
    requires
        0 <= k < 4,
    ensures
        only_clause(s, k).sql() == select_core(s).sql() + (if k == 0 {
            where_words(s.where_clause)
        } else if k == 1 {
            match s.group_by {
                Some(g) => " "@ + g.sql(),
                None => Seq::<char>::empty(),
            }
        } else if k == 2 {
            optional_sql(" "@, s.order)
        } else {
            match s.limit {
                Some(l) => " "@ + l.sql(),
                None => Seq::<char>::empty(),
            }
        }),
{
    lemma_core_sql(s);
    let t = only_clause(s, k);
    assert(t.head_sql() == s.head_sql());
    let x = if k == 0 {
        where_words(s.where_clause)
    } else if k == 1 {
        match s.group_by {
            Some(g) => " "@ + g.sql(),
            None => Seq::<char>::empty(),
        }
    } else if k == 2 {
        optional_sql(" "@, s.order)
    } else {
        match s.limit {
            Some(l) => " "@ + l.sql(),
            None => Seq::<char>::empty(),
        }
    };
    assert(t.tail_sql() =~= x);
}

/// The clauses after the joins are independent and in a fixed order: the
/// statement's text is its core's text, then what the `WHERE`, `GROUP BY`,
/// `ORDER BY` and `LIMIT` parts each add on their own; each part's text with
/// only that part is the core's text followed by that addition. A `WHERE`
/// condition adds ` WHERE ` and the condition, the others a space and their
/// text; an absent part adds nothing.
#[verifier::spinoff_prover]
#[verifier::rlimit(60)]
pub proof fn law_select_clauses_follow_core(s: SelectStatement)
    ensures
        s.sql() == select_core(s).sql() + clause_extension(s, 0) + clause_extension(s, 1)
            + clause_extension(s, 2) + clause_extension(s, 3),
        forall|k: int|
            0 <= k < 4 ==> #[trigger] only_clause(s, k).sql() == select_core(s).sql()
                + clause_extension(s, k),
        clause_extension(s, 0) == where_words(s.where_clause),
        s.group_by is None ==> clause_extension(s, 1).len() == 0,
        s.group_by is Some ==> clause_extension(s, 1) == " "@ + s.group_by.unwrap().sql(),
        clause_extension(s, 2) == optional_sql(" "@, s.order),
        s.limit is None ==> clause_extension(s, 3).len() == 0,
        s.limit is Some ==> clause_extension(s, 3) == " "@ + s.limit.unwrap().sql(),
{
    let c = select_core(s).sql();
    lemma_core_sql(s);
    lemma_only_clause_sql(s, 0);
    lemma_only_clause_sql(s, 1);
    lemma_only_clause_sql(s, 2);
    lemma_only_clause_sql(s, 3);
    let w = where_words(s.where_clause);
    let g = match s.group_by {
        Some(g) => " "@ + g.sql(),
        None => Seq::<char>::empty(),
    };
    let o = optional_sql(" "@, s.order);
    let l = match s.limit {
        Some(l) => " "@ + l.sql(),
        None => Seq::<char>::empty(),
    };
    assert((c + w).skip(c.len() as int) =~= w);
    assert((c + g).skip(c.len() as int) =~= g);
    assert((c + o).skip(c.len() as int) =~= o);
    assert((c + l).skip(c.len() as int) =~= l);
    assert(clause_extension(s, 0) == w);
    assert(clause_extension(s, 1) == g);
    assert(clause_extension(s, 2) == o);
    assert(clause_extension(s, 3) == l);
    assert(s.tail_sql() =~= w + g + o + l);
    assert(s.sql() =~= c + w + g + o + l);
    assert forall|k: int| 0 <= k < 4 implies #[trigger] only_clause(s, k).sql() == c
        + clause_extension(s, k) by {
        lemma_only_clause_sql(s, k);
    }
}

/// A `WHERE` condition stands right after the joins, whatever the other
/// clauses are: the text with the condition is the core's text, ` WHERE `, the
/// condition, then what the text without the condition has after the core.
/// With no `GROUP BY`, `ORDER BY` or `LIMIT`, it is the text without the
/// condition followed by ` WHERE ` and the condition.
#[verifier::spinoff_prover]
#[verifier::rlimit(60)]
pub proof fn law_select_where_follows_joins(s: SelectStatement, w: String)
    ensures
        with_where(s, None).sql().take(select_core(s).sql().len() as int) == select_core(s).sql(),
        with_where(s, Some(w)).sql() == select_core(s).sql() + " WHERE "@ + w@ + with_where(
            s,
            None,
        ).sql().skip(select_core(s).sql().len() as int),
        (s.group_by is None && s.order is None && s.limit is None) ==> with_where(s, Some(w)).sql()
            == with_where(s, None).sql() + " WHERE "@ + w@,
{
    let with = with_where(s, Some(w));
    let without = with_where(s, None);
    let core = select_core(s).sql();
    assert(select_core(with) == select_core(s));
    assert(select_core(without) == select_core(s));
    lemma_core_sql(s);
    assert(with.head_sql() == s.head_sql());
    assert(without.head_sql() == s.head_sql());
    let g = match s.group_by {
        Some(g) => " "@ + g.sql(),
        None => Seq::<char>::empty(),
    };
    let o = optional_sql(" "@, s.order);
    let l = match s.limit {
        Some(l) => " "@ + l.sql(),
        None => Seq::<char>::empty(),
    };
    let rest = g + o + l;
    assert(without.tail_sql() =~= rest);
    assert(with.tail_sql() =~= " WHERE "@ + w@ + rest);
    assert(without.sql() =~= core + rest);
    assert(with.sql() =~= core + " WHERE "@ + w@ + rest);
    assert(without.sql().take(core.len() as int) =~= core);
    assert(without.sql().skip(core.len() as int) =~= rest);
    if s.group_by is None && s.order is None && s.limit is None {
        assert(rest =~= Seq::<char>::empty());
        assert(with.sql() =~= without.sql() + " WHERE "@ + w@);
    }
}

/// `DISTINCT` follows `SELECT ` and changes nothing else.
pub proof fn law_select_distinct(s: SelectStatement)
    ensures
        with_distinct(s, true).sql() == "SELECT DISTINCT "@ + with_distinct(s, false).sql().skip(7),
        with_distinct(s, false).sql().take(7) == "SELECT "@,
{
    reveal_strlit("SELECT ");
    reveal_strlit("DISTINCT ");
    reveal_strlit("SELECT DISTINCT ");
    let a = with_distinct(s, true);
    let b = with_distinct(s, false);
    let rest = text::join_texts(text::texts(s.fields@), ", "@) + (if s.tables@.len() > 0 {
        " FROM "@ + text::join_texts(text::texts(s.tables@), ", "@)
    } else {
        Seq::empty()
    }) + joins_sql(s.join@) + b.tail_sql();
    assert(b.sql() =~= "SELECT "@ + rest);
    assert(a.sql() =~= "SELECT "@ + "DISTINCT "@ + rest);
    assert(b.sql().skip(7) =~= rest);
    assert(b.sql().take(7) =~= "SELECT "@);
}

} // verus!

verus! {

/// Every byte is a space, tab, carriage return or line feed.
pub open spec fn all_spaces(w: Seq<u8>) -> bool {
    forall|k: int|
        0 <= k < w.len() ==> (#[trigger] w[k] == 0x20u8 || w[k] == 0x09u8 || w[k] == 0x0du8
            || w[k] == 0x0au8)
}

/// Every byte is one of `0` to `9`.
pub open spec fn all_digits(d: Seq<u8>) -> bool {
    forall|k: int| 0 <= k < d.len() ==> 0x30u8 <= #[trigger] d[k] <= 0x39u8
}

/// The bytes `LIMIT`.
pub open spec fn limit_word() -> Seq<u8> {
    seq![0x4cu8, 0x49u8, 0x4du8, 0x49u8, 0x54u8]
}

/// The bytes `OFFSET`.
pub open spec fn offset_word() -> Seq<u8> {
    seq![0x4fu8, 0x46u8, 0x46u8, 0x53u8, 0x45u8, 0x54u8]
}

/// `LIMIT n OFFSET m`, with any nonempty runs of whitespace (space, tab, CR,
/// LF) between the words and numbers, is read whole: the limit is the first
/// number, the offset the second, and nothing is left over. Which whitespace
/// bytes separate the parts does not matter.
#[verifier::spinoff_prover]
#[verifier::rlimit(60)]
pub proof fn law_limit_offset_any_whitespace(
    w0: Seq<u8>,
    d1: Seq<u8>,
    w1: Seq<u8>,
    w2: Seq<u8>,
    d2: Seq<u8>,
)
    requires
        w0.len() > 0 && w1.len() > 0 && w2.len() > 0,
        all_spaces(w0) && all_spaces(w1) && all_spaces(w2),
        d1.len() > 0 && d2.len() > 0,
        all_digits(d1) && all_digits(d2),
        lexeme::decimal_value(d1) <= u64::MAX,
        lexeme::decimal_value(d2) <= u64::MAX,
    ensures
        spec_limit_clause(limit_word() + w0 + d1 + w1 + offset_word() + w2 + d2, 0) == Ok::<
            (LimitClause, int),
            ParseError,
        >(
            (
                LimitClause {
                    limit: lexeme::decimal_value(d1) as u64,
                    offset: lexeme::decimal_value(d2) as u64,
                },
                (5 + w0.len() + d1.len() + w1.len() + 6 + w2.len() + d2.len()) as int,
            ),
        ),
{
    let s = limit_word() + w0 + d1 + w1 + offset_word() + w2 + d2;
    let p1 = 5 + w0.len();
    let p2 = p1 + d1.len();
    let p3 = p2 + w1.len();
    let p4 = p3 + 6;
    let p5 = p4 + w2.len();
    let n = p5 + d2.len();
    assert(s.len() == n);
    assert forall|k: int| 0 <= k < 5 implies s[k] == limit_word()[k] by {}
    assert forall|k: int| 5 <= k < p1 implies lexeme::is_sql_space(#[trigger] s[k]) by {
        assert(s[k] == w0[k - 5]);
    }
    assert forall|k: int| p1 <= k < p2 implies lexeme::is_ascii_digit(#[trigger] s[k]) by {
        assert(s[k] == d1[k - p1]);
    }
    assert forall|k: int| p2 <= k < p3 implies lexeme::is_sql_space(#[trigger] s[k]) by {
        assert(s[k] == w1[k - p2]);
    }
    assert forall|k: int| p3 <= k < p4 implies s[k] == offset_word()[k - p3] by {}
    assert forall|k: int| p4 <= k < p5 implies lexeme::is_sql_space(#[trigger] s[k]) by {
        assert(s[k] == w2[k - p4]);
    }
    assert forall|k: int| p5 <= k < n implies lexeme::is_ascii_digit(#[trigger] s[k]) by {
        assert(s[k] == d2[k - p5]);
    }
    // LIMIT
    assert(s[0] == 0x4cu8);
    lexeme::lemma_space_end_at(s, 0, 0);
    assert(lexeme::matches_no_case(s, 0, limit_keyword()));
    assert(lexeme::is_ascii_digit(s[p1 as int]));
    lexeme::lemma_space_end_at(s, 5, p1 as int);
    assert(lexeme::spec_keyword(s, 0, limit_keyword()) == Ok::<int, ParseError>(p1 as int));
    // the limit
    assert(lexeme::is_sql_space(s[p2 as int]));
    lexeme::lemma_digit_end_at(s, p1 as int, p2 as int);
    assert(s.subrange(p1 as int, p2 as int) =~= d1);
    // OFFSET
    assert(s[p3 as int] == 0x4fu8);
    lexeme::lemma_space_end_at(s, p2 as int, p3 as int);
    assert(lexeme::matches_no_case(s, p3 as int, offset_keyword()));
    assert(lexeme::is_ascii_digit(s[p5 as int]));
    lexeme::lemma_space_end_at(s, p4 as int, p5 as int);
    assert(lexeme::spec_keyword(s, p2 as int, offset_keyword()) == Ok::<int, ParseError>(
        p5 as int,
    ));
    // the offset
    lexeme::lemma_digit_end_at(s, p5 as int, n as int);
    assert(s.subrange(p5 as int, n as int) =~= d2);
}

} // verus!

verus! {

/// The bytes of a `LIMIT` clause's text: `LIMIT`, a space and the limit's
/// decimal notation; then, only when the offset is not 0, a space, `OFFSET`, a
/// space and the offset's decimal notation.
pub proof fn law_limit_clause_text(c: LimitClause)
    ensures
        vstd::utf8::encode_utf8(c.sql()) == limit_word() + seq![0x20u8] + text::ascii_bytes(
            text::decimal_text(c.limit as nat),
        ) + (if c.offset > 0 {
            seq![0x20u8] + offset_word() + seq![0x20u8] + text::ascii_bytes(
                text::decimal_text(c.offset as nat),
            )
        } else {
            Seq::<u8>::empty()
        }),
{
    reveal_strlit("LIMIT ");
    reveal_strlit(" OFFSET ");
    lemma_limit_sql_ascii(c);
    text::lemma_ascii_encoding(c.sql());
    let d1 = text::decimal_text(c.limit as nat);
    let d2 = text::decimal_text(c.offset as nat);
    let rhs = limit_word() + seq![0x20u8] + text::ascii_bytes(d1) + (if c.offset > 0 {
        seq![0x20u8] + offset_word() + seq![0x20u8] + text::ascii_bytes(d2)
    } else {
        Seq::<u8>::empty()
    });
    let t = c.sql();
    let n1 = d1.len() as int;
    assert(text::ascii_bytes(t).len() == rhs.len());
    assert forall|i: int| 0 <= i < rhs.len() implies text::ascii_bytes(t)[i] == rhs[i] by {
        if 6 <= i < 6 + n1 {
            assert(t[i] == d1[i - 6]);
        } else if 6 + n1 + 8 <= i {
            assert(t[i] == d2[i - 6 - n1 - 8]);
        }
    }
    assert(text::ascii_bytes(t) =~= rhs);
}

/// `LIMIT` must be followed by whitespace: `LIMIT` written straight before
/// anything that is not whitespace is refused as missing whitespace.
pub proof fn law_limit_needs_space_after_keyword(rest: Seq<u8>)
    requires
        rest.len() > 0,
        !(rest[0] == 0x20u8 || rest[0] == 0x09u8 || rest[0] == 0x0du8 || rest[0] == 0x0au8),
    ensures
        spec_limit_clause(limit_word() + rest, 0) == Err::<(LimitClause, int), ParseError>(
            ParseError::MultiSpace,
        ),
{
    let s = limit_word() + rest;
    assert(s[0] == 0x4cu8);
    assert(s[5] == rest[0]);
    lexeme::lemma_space_end_at(s, 0, 0);
    assert forall|k: int| 0 <= k < 5 implies s[k] == limit_word()[k] by {}
    assert(lexeme::matches_no_case(s, 0, limit_keyword()));
    lexeme::lemma_space_end_at(s, 5, 5);
}

} // verus!

verus! {

/// `SELECT `, `DISTINCT ` if asked, and the fields separated by `, `.
pub open spec fn select_list_sql(s: SelectStatement) -> Seq<char> {
    "SELECT "@ + (if s.distinct {
        "DISTINCT "@
    } else {
        Seq::empty()
    }) + text::join_texts(text::texts(s.fields@), ", "@)
}

/// Tables go right after the fields: a statement's text is the text of the
/// same statement without tables, with ` FROM ` and the tables separated by
/// `, ` put in after the field list. Each field's and each table's text stands
/// in the statement's text.
#[verifier::spinoff_prover]
#[verifier::rlimit(60)]
pub proof fn law_select_from_follows_fields(s: SelectStatement, t: SelectStatement)
    requires
        t == (SelectStatement { tables: t.tables, ..s }),
        t.tables@.len() == 0,
        s.tables@.len() > 0,
    ensures
        t.sql().take(select_list_sql(s).len() as int) == select_list_sql(s),
        s.sql() == select_list_sql(s) + " FROM "@ + text::join_texts(text::texts(s.tables@), ", "@)
            + t.sql().skip(select_list_sql(s).len() as int),
        forall|i: int|
            0 <= i < s.fields@.len() ==> text::occurs_in(#[trigger] s.fields@[i]@, s.sql()),
        forall|i: int|
            0 <= i < s.tables@.len() ==> text::occurs_in(#[trigger] s.tables@[i]@, s.sql()),
{
    let l = select_list_sql(s);
    let jt = text::join_texts(text::texts(s.tables@), ", "@);
    let rest = joins_sql(s.join@) + s.tail_sql();
    assert(t.tail_sql() == s.tail_sql());
    assert(t.sql() =~= l + rest);
    assert(t.sql().take(l.len() as int) =~= l);
    assert(t.sql().skip(l.len() as int) =~= rest);
    assert(s.sql() =~= l + " FROM "@ + jt + rest);
    let pre = "SELECT "@ + (if s.distinct {
        "DISTINCT "@
    } else {
        Seq::empty()
    });
    let jf = text::join_texts(text::texts(s.fields@), ", "@);
    assert forall|i: int| 0 <= i < s.fields@.len() implies text::occurs_in(
        #[trigger] s.fields@[i]@,
        s.sql(),
    ) by {
        assert(text::texts(s.fields@)[i] == s.fields@[i]@);
        text::lemma_join_contains(text::texts(s.fields@), ", "@, i);
        text::lemma_occurs_in_context(s.fields@[i]@, pre, jf, " FROM "@ + jt + rest);
        assert(pre + jf + (" FROM "@ + jt + rest) =~= s.sql());
    }
    assert forall|i: int| 0 <= i < s.tables@.len() implies text::occurs_in(
        #[trigger] s.tables@[i]@,
        s.sql(),
    ) by {
        assert(text::texts(s.tables@)[i] == s.tables@[i]@);
        text::lemma_join_contains(text::texts(s.tables@), ", "@, i);
        text::lemma_occurs_in_context(s.tables@[i]@, l + " FROM "@, jt, rest);
        assert(l + " FROM "@ + jt + rest =~= s.sql());
    }
}

/// A join added at the end of the joins goes right after the others, before
/// the `WHERE`, `GROUP BY`, `ORDER BY` and `LIMIT` parts: the text with it is
/// the text without it with a space and the join's text put in after the core.
#[verifier::spinoff_prover]
#[verifier::rlimit(60)]
pub proof fn law_select_join_appends(s: SelectStatement, t: SelectStatement, j: JoinClause)
    requires
        t == (SelectStatement { join: t.join, ..s }),
        t.join@ == s.join@.push(j),
    ensures
        s.sql().take(select_core(s).sql().len() as int) == select_core(s).sql(),
        t.sql() == select_core(s).sql() + " "@ + j.sql() + s.sql().skip(
            select_core(s).sql().len() as int,
        ),
{
    lemma_core_sql(s);
    let c = select_core(s).sql();
    assert(t.head_sql() == s.head_sql());
    assert(t.tail_sql() == s.tail_sql());
    assert(t.join@.drop_last() =~= s.join@);
    assert(joins_sql(t.join@) == joins_sql(s.join@) + " "@ + j.sql());
    assert(s.sql() =~= c + s.tail_sql());
    assert(s.sql().take(c.len() as int) =~= c);
    assert(s.sql().skip(c.len() as int) =~= s.tail_sql());
    assert(t.sql() =~= c + " "@ + j.sql() + s.tail_sql());
}

/// A join's text is its operator, its right-hand side and its constraint,
/// each separated from the next by one space.
pub proof fn law_join_clause_text(j: JoinClause)
    ensures
        j.sql().len() == j.operator@.len() + j.right@.len() + j.constraint@.len() + 2,
        j.sql().take(j.operator@.len() as int) == j.operator@,
        j.sql()[j.operator@.len() as int] == ' ',
        j.sql().subrange(
            (j.operator@.len() + 1) as int,
            (j.operator@.len() + 1 + j.right@.len()) as int,
        ) == j.right@,
        j.sql()[(j.operator@.len() + 1 + j.right@.len()) as int] == ' ',
        j.sql().skip((j.operator@.len() + 2 + j.right@.len()) as int) == j.constraint@,
{
    reveal_strlit(" ");
    let a = j.operator@.len() as int;
    let b = j.right@.len() as int;
    assert(j.sql().take(a) =~= j.operator@);
    assert(j.sql().subrange(a + 1, a + 1 + b) =~= j.right@);
    assert(j.sql().skip(a + 2 + b) =~= j.constraint@);
}

} // verus!

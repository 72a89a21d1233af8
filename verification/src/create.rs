//! `CREATE TABLE` and `CREATE VIEW` statements and the SQL text they render to.
use vstd::prelude::*;
use crate::select::SelectStatement;
use crate::text::{self, append_joined};

verus! {

/// What a view is defined by: a compound selection, held as its SQL text, or a
/// simple `SELECT` statement.
#[derive(Clone, Debug, PartialEq, Eq, Hash)]
pub enum SelectSpecification {
    Compound(String),
    Simple(SelectStatement),
}

impl SelectSpecification {
    /// The text of the selection.
    pub open spec fn sql(self) -> Seq<char> {
        match self {
            SelectSpecification::Compound(c) => c@,
            SelectSpecification::Simple(s) => s.sql(),
        }
    }

    /// Appends the selection's SQL text.
    pub fn append_sql(&self, out: &mut String)
        ensures
            final(out)@ == old(out)@ + self.sql(),
    {
        match self {
            SelectSpecification::Compound(c) => out.append(c.as_str()),
            SelectSpecification::Simple(s) => s.append_sql(out),
        }
    }

    /// Renders the selection as SQL text.
    pub fn to_string(&self) -> (s: String)
        ensures
            s@ == self.sql(),
    {
        let mut s = String::new();
        self.append_sql(&mut s);
        assert(s@ =~= self.sql());
        s
    }
}

/// `CREATE TABLE`: the table's name, its column specifications and its keys,
/// the specifications and keys held as their SQL text.
#[derive(Clone, Debug, Default, PartialEq, Eq, Hash)]
pub struct CreateTableStatement {
    pub table: String,
    pub fields: Vec<String>,
    pub keys: Option<Vec<String>>,
}

impl CreateTableStatement {
    /// `CREATE TABLE`, the name as written in SQL, then in parentheses the
    /// column specifications and, if there are keys, `, ` and the keys, all
    /// separated by `, `.
    pub open spec fn sql(self, name: Seq<char>) -> Seq<char> {
        "CREATE TABLE "@ + name + " "@ + "("@ + text::join_texts(text::texts(self.fields@), ", "@)
            + (match self.keys {
            Some(k) => ", "@ + text::join_texts(text::texts(k@), ", "@),
            None => Seq::empty(),
        }) + ")"@
    }

    /// Renders the statement as SQL text; `name` is the table's name as it is
    /// to appear there, quoted if it is a reserved word.
    pub fn to_string(&self, name: &str) -> (s: String)
        ensures
            s@ == self.sql(name@),
    {
        let mut s = String::new();
        s.append("CREATE TABLE ");
        s.append(name);
        s.append(" ");
        s.append("(");
        append_joined(&mut s, &self.fields, ", ");
        match &self.keys {
            Some(k) => {
                s.append(", ");
                append_joined(&mut s, k, ", ");
            },
            None => {},
        }
        s.append(")");
        assert(s@ =~= self.sql(name@));
        s
    }
}

/// `CREATE VIEW`: the view's name, its columns (held as their SQL text) and
/// its definition.
#[derive(Clone, Debug, PartialEq, Eq, Hash)]
pub struct CreateViewStatement {
    pub name: String,
    pub fields: Vec<String>,
    pub definition: Box<SelectSpecification>,
}

impl CreateViewStatement {
    /// `CREATE VIEW`, the name as written in SQL, the columns in parentheses
    /// when there are any, then `AS` and the definition.
    pub open spec fn sql(self, name: Seq<char>) -> Seq<char> {
        "CREATE VIEW "@ + name + " "@ + (if self.fields@.len() > 0 {
            "("@ + text::join_texts(text::texts(self.fields@), ", "@) + ") "@
        } else {
            Seq::empty()
        }) + "AS "@ + (*self.definition).sql()
    }

    /// Renders the statement as SQL text; `name` is the view's name as it is
    /// to appear there, quoted if it is a reserved word.
    pub fn to_string(&self, name: &str) -> (s: String)
        ensures
            s@ == self.sql(name@),
    {
        let mut s = String::new();
        s.append("CREATE VIEW ");
        s.append(name);
        s.append(" ");
        if self.fields.len() > 0 {
            s.append("(");
            append_joined(&mut s, &self.fields, ", ");
            s.append(") ");
        }
        s.append("AS ");
        self.definition.append_sql(&mut s);
        assert(s@ =~= self.sql(name@));
        s
    }
}

} // verus!

verus! {

/// A view with columns lists them all, in order and separated by `, `, in
/// parentheses between its name and `AS`; a view without columns has none.
/// Every column's text stands in the view's text.
#[verifier::spinoff_prover]
#[verifier::rlimit(60)]
pub proof fn law_create_view_lists_columns(v: CreateViewStatement, name: Seq<char>)
    ensures
        v.fields@.len() >= 1 ==> v.sql(name) == "CREATE VIEW "@ + name + " ("@
            + text::join_texts(text::texts(v.fields@), ", "@) + ") AS "@ + (*v.definition).sql(),
        v.fields@.len() == 0 ==> v.sql(name) == "CREATE VIEW "@ + name + " AS "@
            + (*v.definition).sql(),
        forall|i: int|
            0 <= i < v.fields@.len() ==> text::occurs_in(#[trigger] v.fields@[i]@, v.sql(name)),
{
    reveal_strlit(" ");
    reveal_strlit("(");
    reveal_strlit(" (");
    reveal_strlit(") ");
    reveal_strlit("AS ");
    reveal_strlit(") AS ");
    reveal_strlit(" AS ");
    let j = text::join_texts(text::texts(v.fields@), ", "@);
    let d = (*v.definition).sql();
    if v.fields@.len() >= 1 {
        assert(v.sql(name) =~= "CREATE VIEW "@ + name + " ("@ + j + ") AS "@ + d);
    } else {
        assert(v.sql(name) =~= "CREATE VIEW "@ + name + " AS "@ + d);
    }
    assert forall|i: int| 0 <= i < v.fields@.len() implies text::occurs_in(
        #[trigger] v.fields@[i]@,
        v.sql(name),
    ) by {
        assert(text::texts(v.fields@)[i] == v.fields@[i]@);
        text::lemma_join_contains(text::texts(v.fields@), ", "@, i);
        let pre = "CREATE VIEW "@ + name + " "@ + "("@;
        let post = ") "@ + "AS "@ + d;
        text::lemma_occurs_in_context(v.fields@[i]@, pre, j, post);
        assert(pre + j + post =~= v.sql(name));
    }
}

/// With columns and keys, the parentheses of a table's text hold the columns
/// and then the keys, all separated alike by `, `; with no keys they hold the
/// columns alone. Every column's and every key's text stands in the table's text.
#[verifier::spinoff_prover]
#[verifier::rlimit(60)]
pub proof fn law_create_table_separates_keys_like_columns(c: CreateTableStatement, name: Seq<char>)
    ensures
        (c.keys matches Some(k) && c.fields@.len() >= 1 && k@.len() >= 1) ==> c.sql(name)
            == "CREATE TABLE "@ + name + " ("@ + text::join_texts(
            text::texts(c.fields@ + c.keys.unwrap()@),
            ", "@,
        ) + ")"@,
        c.keys is None ==> c.sql(name) == "CREATE TABLE "@ + name + " ("@ + text::join_texts(
            text::texts(c.fields@),
            ", "@,
        ) + ")"@,
        forall|i: int|
            0 <= i < c.fields@.len() ==> text::occurs_in(#[trigger] c.fields@[i]@, c.sql(name)),
        c.keys matches Some(k) ==> forall|i: int|
            0 <= i < k@.len() ==> text::occurs_in(#[trigger] k@[i]@, c.sql(name)),
{
    reveal_strlit(" ");
    reveal_strlit("(");
    reveal_strlit(" (");
    let f = text::texts(c.fields@);
    let jf = text::join_texts(f, ", "@);
    let pre = "CREATE TABLE "@ + name + " "@ + "("@;
    assert(pre =~= "CREATE TABLE "@ + name + " ("@);
    match c.keys {
        Some(k) => {
            let kt = text::texts(k@);
            let jk = text::join_texts(kt, ", "@);
            assert(c.sql(name) =~= pre + jf + (", "@ + jk) + ")"@);
            if c.fields@.len() >= 1 && k@.len() >= 1 {
                text::lemma_texts_concat(c.fields@, k@);
                text::lemma_join_concat(f, kt, ", "@);
                assert(c.sql(name) =~= pre + text::join_texts(text::texts(c.fields@ + k@), ", "@)
                    + ")"@);
            }
            assert forall|i: int| 0 <= i < k@.len() implies text::occurs_in(
                #[trigger] k@[i]@,
                c.sql(name),
            ) by {
                assert(kt[i] == k@[i]@);
                text::lemma_join_contains(kt, ", "@, i);
                text::lemma_occurs_in_context(k@[i]@, pre + jf + ", "@, jk, ")"@);
                assert(pre + jf + ", "@ + jk + ")"@ =~= c.sql(name));
            }
            assert forall|i: int| 0 <= i < c.fields@.len() implies text::occurs_in(
                #[trigger] c.fields@[i]@,
                c.sql(name),
            ) by {
                assert(f[i] == c.fields@[i]@);
                text::lemma_join_contains(f, ", "@, i);
                text::lemma_occurs_in_context(c.fields@[i]@, pre, jf, ", "@ + jk + ")"@);
                assert(pre + jf + (", "@ + jk + ")"@) =~= c.sql(name));
            }
        },
        None => {
            assert(c.sql(name) =~= pre + jf + ")"@);
            assert forall|i: int| 0 <= i < c.fields@.len() implies text::occurs_in(
                #[trigger] c.fields@[i]@,
                c.sql(name),
            ) by {
                assert(f[i] == c.fields@[i]@);
                text::lemma_join_contains(f, ", "@, i);
                text::lemma_occurs_in_context(c.fields@[i]@, pre, jf, ")"@);
            }
        },
    }
}

} // verus!

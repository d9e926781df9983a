//! Column types of a relational projection of the type model, and their
//! SQL text.
use vstd::prelude::*;
use vstd::string::StringExecFns;

verus! {

/// A referential action of a foreign key.
#[derive(Debug, Clone, PartialEq, PartialOrd)]
pub enum Action {
    Cascade,
    Restrict,
}

/// A column type.
#[derive(Debug, PartialEq, PartialOrd)]
pub enum SqlType {
    SmallInt,
    Integer,
    BigInt,
    Serial,
    Boolean,
    Text,
    Array(Box<SqlType>),
    NotNull(Box<SqlType>),
    ByteArray,
    References(String, String, Option<Action>, Option<Action>),
}

/// A column of a table.
#[derive(Debug)]
pub struct Column {
    pub name: String,
    pub sql: SqlType,
    pub primary_key: bool,
}

/// A constraint over several columns of a table.
#[derive(Debug, Clone)]
pub enum Constraint {
    CombinedPrimaryKey(Vec<String>),
    OneNotNull(Vec<String>),
}

/// A definition of the relational schema.
#[derive(Debug)]
pub enum Sql {
    Table((Vec<Column>, Vec<Constraint>)),
    Enum(Vec<String>),
    Index(String, Vec<String>),
    AbandonChildrenFunction(String, Vec<(String, String, String)>),
}

/// The SQL keyword of an action.
pub open spec fn action_text(a: Action) -> Seq<char> {
    match a {
        Action::Cascade => "CASCADE"@,
        Action::Restrict => "RESTRICT"@,
    }
}

/// `prefix` and the action's keyword, or nothing without an action.
pub open spec fn action_clause(prefix: Seq<char>, a: Option<Action>) -> Seq<char> {
    match a {
        Some(a) => prefix + action_text(a),
        None => Seq::empty(),
    }
}

/// The SQL text of a column type.
pub open spec fn sql_text(t: SqlType) -> Seq<char>
    decreases t,
{
    match t {
        SqlType::SmallInt => "SMALLINT"@,
        SqlType::Integer => "INTEGER"@,
        SqlType::BigInt => "BIGINT"@,
        SqlType::Serial => "SERIAL"@,
        SqlType::Boolean => "BOOLEAN"@,
        SqlType::Text => "TEXT"@,
        SqlType::Array(inner) => sql_text(*inner) + "[]"@,
        SqlType::NotNull(inner) => sql_text(*inner) + " NOT NULL"@,
        SqlType::ByteArray => "BYTEA"@,
        SqlType::References(table, column, on_delete, on_update) => "INTEGER REFERENCES "@
            + table@ + "("@ + column@ + ")"@ + action_clause(" ON DELETE "@, on_delete)
            + action_clause(" ON UPDATE "@, on_update),
    }
}

impl Action {
    /// The SQL keyword of the action.
    pub fn to_string(&self) -> (r: String)
        ensures
            r@ == action_text(*self),
    {
        match self {
            Action::Cascade => "CASCADE".to_owned(),
            Action::Restrict => "RESTRICT".to_owned(),
        }
    }
}

/// Appends `prefix` and the action's keyword when there is an action.
fn append_action(out: &mut String, prefix: &str, a: &Option<Action>)
    ensures
        final(out)@ == old(out)@ + action_clause(prefix@, *a),
{
    match a {
        Some(a) => {
            out.append(prefix);
            let keyword = a.to_string();
            out.append(keyword.as_str());
        },
        None => {
            assert(old(out)@ + action_clause(prefix@, *a) =~= old(out)@);
        },
    }
}

impl SqlType {
    /// The type without its outer NOT NULL, if it has one.
    pub fn nullable(self) -> (r: Self)
        ensures
            self is NotNull ==> r == *self->NotNull_0,
            !(self is NotNull) ==> r == self,
    {
        match self {
            SqlType::NotNull(inner) => *inner,
            other => other,
        }
    }

    /// The SQL text of the type.
    pub fn to_string(&self) -> (r: String)
        ensures
            r@ == sql_text(*self),
        decreases self,
    {
        match self {
            SqlType::SmallInt => "SMALLINT".to_owned(),
            SqlType::Integer => "INTEGER".to_owned(),
            SqlType::BigInt => "BIGINT".to_owned(),
            SqlType::Serial => "SERIAL".to_owned(),
            SqlType::Boolean => "BOOLEAN".to_owned(),
            SqlType::Text => "TEXT".to_owned(),
            SqlType::Array(inner) => {
                let mut out = inner.to_string();
                out.append("[]");
                out
            },
            SqlType::NotNull(inner) => {
                let mut out = inner.to_string();
                out.append(" NOT NULL");
                out
            },
            SqlType::ByteArray => "BYTEA".to_owned(),
            SqlType::References(table, column, on_delete, on_update) => {
                let mut out = "INTEGER REFERENCES ".to_owned();
                out.append(table.as_str());
                out.append("(");
                out.append(column.as_str());
                out.append(")");
                append_action(&mut out, " ON DELETE ", on_delete);
                append_action(&mut out, " ON UPDATE ", on_update);
                out
            },
        }
    }
}

} // verus!

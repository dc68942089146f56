//! Query planning: from parsed SQL to the command the Raft log replicates.
use vstd::prelude::*;
use vstd::string::StrSliceExecFns;
use crate::cmd::PandaCmd;
use crate::data::Table;

verus! {

#[verifier::external_type_specification]
#[verifier::external_body]
pub struct ExStatement(sqlparser::ast::Statement);

#[verifier::external_type_specification]
#[verifier::external_body]
pub struct ExParserError(sqlparser::parser::ParserError);

/// A parsed SQL statement, as far as planning reads it.
pub enum ParsedStatement {
    /// `CREATE TABLE`, with the table's name and its columns.
    CreateTable { name: sqlparser::ast::ObjectName, columns: Vec<sqlparser::ast::ColumnDef> },
    /// Any other statement.
    Other(sqlparser::ast::Statement),
}

/// What `sqlparser::parser::Parser::parse_sql` with the PostgreSQL dialect
/// gives for a query text: its statements, in order, or `None` when parsing
/// fails.
pub uninterp spec fn postgres_statements(query: Seq<char>) -> Option<Seq<sqlparser::ast::Statement>>;

/// Whether the letters of `GRANTED` (in any case) start at `i` in `q`.
pub open spec fn granted_at(q: Seq<char>, i: int) -> bool {
    &&& 0 <= i && i + 7 <= q.len()
    &&& (q[i] == 'g' || q[i] == 'G')
    &&& (q[i + 1] == 'r' || q[i + 1] == 'R')
    &&& (q[i + 2] == 'a' || q[i + 2] == 'A')
    &&& (q[i + 3] == 'n' || q[i + 3] == 'N')
    &&& (q[i + 4] == 't' || q[i + 4] == 'T')
    &&& (q[i + 5] == 'e' || q[i + 5] == 'E')
    &&& (q[i + 6] == 'd' || q[i + 6] == 'D')
}

/// Whether the letters of `BY` (in any case) start at `j` in `q`.
pub open spec fn by_at(q: Seq<char>, j: int) -> bool {
    &&& 0 <= j && j + 2 <= q.len()
    &&& (q[j] == 'b' || q[j] == 'B')
    &&& (q[j + 1] == 'y' || q[j + 1] == 'Y')
}

/// Whether a query text holds the letters `GRANTED` and, somewhere after
/// them, the letters `BY`, each in any case. Only such a text can bring
/// sqlparser to the `GRANTED BY` clause of `GRANT` and `REVOKE`, whose
/// missing grantor it unwraps and panics on: the parser reads the two
/// keywords in the order the text gives them.
pub open spec fn mentions_granted_by(q: Seq<char>) -> bool {
    exists|i: int, j: int| granted_at(q, i) && i + 7 <= j && by_at(q, j)
}

fn granted_at_exec(query: &str, n: usize, i: usize) -> (b: bool)
    requires
        n == query@.len(),
        i + 7 <= n,
    ensures
        b == granted_at(query@, i as int),
{
    let c0 = query.get_char(i);
    let c1 = query.get_char(i + 1);
    let c2 = query.get_char(i + 2);
    let c3 = query.get_char(i + 3);
    let c4 = query.get_char(i + 4);
    let c5 = query.get_char(i + 5);
    let c6 = query.get_char(i + 6);
    (c0 == 'g' || c0 == 'G') && (c1 == 'r' || c1 == 'R') && (c2 == 'a' || c2 == 'A') && (c3 == 'n'
        || c3 == 'N') && (c4 == 't' || c4 == 'T') && (c5 == 'e' || c5 == 'E') && (c6 == 'd' || c6
        == 'D')
}

/// The first place where the letters `GRANTED` start, if any.
fn first_granted(query: &str) -> (r: Option<usize>)
    ensures
        match r {
            Some(i) => granted_at(query@, i as int) && forall|j: int|
                0 <= j < i ==> !granted_at(query@, j),
            None => forall|j: int| !granted_at(query@, j),
        },
{
    let n = query.unicode_len();
    if n < 7 {
        return None;
    }
    let mut i: usize = 0;
    while i <= n - 7
        invariant
            n == query@.len(),
            7 <= n,
            i <= n - 6,
            forall|j: int| 0 <= j < i ==> !granted_at(query@, j),
        decreases n - i,
    {
        if granted_at_exec(query, n, i) {
            return Some(i);
        }
        i = i + 1;
    }
    assert forall|j: int| !granted_at(query@, j) by {
        if granted_at(query@, j) {
            assert(j < i);
        }
    }
    None
}

/// Whether a query text holds `GRANTED` and, after it, `BY`, in any case.
pub fn query_mentions_granted_by(query: &str) -> (b: bool)
    ensures
        b == mentions_granted_by(query@),
{
    let first = first_granted(query);
    let i = match first {
        None => {
            return false;
        },
        Some(i) => i,
    };
    let n = query.unicode_len();
    let mut j: usize = i + 7;
    while n - j >= 2
        invariant
            n == query@.len(),
            granted_at(query@, i as int),
            forall|k: int| 0 <= k < i ==> !granted_at(query@, k),
            i + 7 <= j <= n,
            forall|k: int| i + 7 <= k < j ==> !by_at(query@, k),
        decreases n - j,
    {
        let c0 = query.get_char(j);
        let c1 = query.get_char(j + 1);
        if (c0 == 'b' || c0 == 'B') && (c1 == 'y' || c1 == 'Y') {
            assert(by_at(query@, j as int));
            return true;
        }
        j = j + 1;
    }
    assert forall|a: int, c: int| granted_at(query@, a) && a + 7 <= c implies !by_at(query@, c) by {
        if by_at(query@, c) {
            assert(i <= a);
            assert(c < j);
        }
    }
    false
}

/// `sqlparser::parser::Parser::parse_sql` with the PostgreSQL dialect: the
/// statements of `query`, in order, or the error that stopped parsing. The
/// statements are named, not described: they depend on the query text alone.
/// A text that holds `GRANTED` and, after it, `BY` is left out: on
/// `GRANT ... GRANTED BY` or `REVOKE ... GRANTED BY` without a grantor the
/// parser panics. Parsing a
/// text nested deeply enough to exhaust the stack is not ruled out: sqlparser
/// sets no depth limit that a clause could state.
#[verifier::external_body]
fn parse_postgres_sql(query: &str) -> (r: Result<Vec<sqlparser::ast::Statement>, sqlparser::parser::ParserError>)
    requires
        !mentions_granted_by(query@),
    ensures
        match r {
            Ok(v) => postgres_statements(query@) == Some(v@),
            Err(_) => postgres_statements(query@) is None,
        },
{
    sqlparser::parser::Parser::parse_sql(&sqlparser::dialect::PostgreSqlDialect {}, query)
}

/// Whether a parsed statement is sqlparser's `Statement::CreateTable`.
pub uninterp spec fn statement_is_create_table(stmt: sqlparser::ast::Statement) -> bool;

/// The `name` field of a `Statement::CreateTable`.
pub uninterp spec fn create_table_name(stmt: sqlparser::ast::Statement) -> sqlparser::ast::ObjectName;

/// The `columns` field of a `Statement::CreateTable`, in order.
pub uninterp spec fn create_table_columns(stmt: sqlparser::ast::Statement) -> Seq<sqlparser::ast::ColumnDef>;

/// Tells the `CREATE TABLE` statements apart from the others, moving the
/// table's name and columns out of them. A statement that is not a
/// `CREATE TABLE` is handed back unchanged; of a `CREATE TABLE`, the name and
/// the columns are the statement's own fields of those names.
#[verifier::external_body]
fn statement_from_ast(stmt: sqlparser::ast::Statement) -> (s: ParsedStatement)
    ensures
        (s is CreateTable) == statement_is_create_table(stmt),
        s matches ParsedStatement::Other(x) ==> x == stmt,
        s matches ParsedStatement::CreateTable { name, columns } ==> name == create_table_name(stmt)
            && columns@ == create_table_columns(stmt),
{
    match stmt {
        sqlparser::ast::Statement::CreateTable { name, columns, .. } => ParsedStatement::CreateTable {
            name,
            columns,
        },
        other => ParsedStatement::Other(other),
    }
}

/// Each of `out` is the classification of the statement of `raw` at the same
/// place: as many, in the same order, `CREATE TABLE` exactly where the
/// parsed statement is one and with that statement's name and columns, the
/// others kept unchanged.
pub open spec fn classified(raw: Seq<sqlparser::ast::Statement>, out: Seq<ParsedStatement>) -> bool {
    &&& out.len() == raw.len()
    &&& forall|i: int| 0 <= i < out.len() ==> ((#[trigger] out[i] is CreateTable) == statement_is_create_table(raw[i]))
    &&& forall|i: int| 0 <= i < out.len() ==> (#[trigger] out[i] matches ParsedStatement::Other(x) ==> x == raw[i])
    &&& forall|i: int|
        0 <= i < out.len() ==> (#[trigger] out[i] matches ParsedStatement::CreateTable { name, columns }
            ==> name == create_table_name(raw[i]) && columns@ == create_table_columns(raw[i]))
}

/// Classifies parsed statements one by one, keeping their order.
pub fn classify_statements(raw: Vec<sqlparser::ast::Statement>) -> (out: Vec<ParsedStatement>)
    ensures
        classified(raw@, out@),
{
    let ghost all = raw@;
    let mut rest = raw;
    let mut out: Vec<ParsedStatement> = Vec::new();
    while rest.len() > 0
        invariant
            out@.len() + rest@.len() == all.len(),
            rest@ == all.skip(out@.len() as int),
            forall|i: int| 0 <= i < out@.len() ==> ((#[trigger] out@[i] is CreateTable) == statement_is_create_table(all[i])),
            forall|i: int| 0 <= i < out@.len() ==> (#[trigger] out@[i] matches ParsedStatement::Other(x) ==> x == all[i]),
            forall|i: int|
                0 <= i < out@.len() ==> (#[trigger] out@[i] matches ParsedStatement::CreateTable { name, columns }
                    ==> name == create_table_name(all[i]) && columns@ == create_table_columns(all[i])),
        decreases rest@.len(),
    {
        let ghost k = out@.len() as int;
        let stmt = rest.remove(0);
        assert(stmt == all[k]);
        out.push(statement_from_ast(stmt));
        assert(rest@ =~= all.skip(k + 1));
    }
    out
}

/// Parses a query string as PostgreSQL into statements, one for each
/// statement of the text, in order.
pub fn parse_statements(query: &str) -> (r: Result<Vec<ParsedStatement>, sqlparser::parser::ParserError>)
    requires
        !mentions_granted_by(query@),
    ensures
        match r {
            Ok(v) => postgres_statements(query@) matches Some(raw) && classified(raw, v@),
            Err(_) => postgres_statements(query@) is None,
        },
{
    let raw = parse_postgres_sql(query)?;
    Ok(classify_statements(raw))
}

impl ParsedStatement {
    /// Whether this is a `CREATE TABLE` statement.
    pub fn is_create_table(&self) -> (b: bool)
        ensures
            b == (*self is CreateTable),
    {
        match self {
            ParsedStatement::CreateTable { .. } => true,
            ParsedStatement::Other(_) => false,
        }
    }
}

/// What a plan does.
pub enum Node {
    CreateTable { table: Table },
}

/// A plan for one statement.
pub struct QueryPlan {
    pub root: Node,
}

impl QueryPlan {
    pub fn new(root: Node) -> (p: QueryPlan)
        ensures
            p.root == root,
    {
        QueryPlan { root }
    }

    /// Plans a statement; only `CREATE TABLE` is planned so far.
    pub fn plan(stmt: ParsedStatement) -> (p: QueryPlan)
        requires
            stmt is CreateTable,
        ensures
            match stmt {
                ParsedStatement::CreateTable { name, columns } => p.root == Node::CreateTable {
                    table: Table { name, columns },
                },
                ParsedStatement::Other(_) => false,
            },
    {
        let node = match stmt {
            ParsedStatement::CreateTable { name, columns } => Node::CreateTable {
                table: Table { name, columns },
            },
            ParsedStatement::Other(_) => vstd::pervasive::unreached(),
        };
        QueryPlan::new(node)
    }

    /// The command that carries out the plan on every node.
    pub fn lower(self) -> (cmd: PandaCmd)
        ensures
            match self.root {
                Node::CreateTable { table } => cmd == PandaCmd::CreateTable { table },
            },
    {
        match self.root {
            Node::CreateTable { table } => PandaCmd::CreateTable { table },
        }
    }
}

} // verus!

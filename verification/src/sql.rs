//! The statements that the engine hands to the store: the text, and the
//! values bound to its placeholders in their order.

use crate::auth::{stamp_paper, stamp_pen, valid_auth, Auth, AuthView};
use crate::err::{Error, ErrorKind};
use crate::mem_table::{edge_views, Edge, EdgeView};
use crate::path::{forward_arrow, step_views, Path, Step, StepView};
use crate::text::{decimal, format_nat, lemma_texts_push, same_text, texts};
use vstd::prelude::*;

verus! {

/// The condition that keeps a query to the edges an authorization may see.
/// Nothing for the owner of everything; else it opens with a space.
pub open spec fn auth_con(auth: AuthView) -> Seq<char> {
    match auth {
        AuthView::Root => Seq::empty(),
        AuthView::Writer(paper, _) => " AND paper = '"@ + paper + "'"@,
        AuthView::Printer(pen) => " AND pen = '"@ + pen + "'"@,
    }
}

/// Whether a hop leads from a source to its targets. Any arrow but `->`
/// leads backward.
pub open spec fn is_forward(step: StepView) -> bool {
    step.arrow == forward_arrow()
}

/// The name of the `i`-th level of a join chain.
pub open spec fn level_name(i: nat) -> Seq<char> {
    "v"@ + decimal(i)
}

/// The first level of a join chain: the edges that leave, or reach, the
/// root under the first code.
pub open spec fn first_level(forward: bool, auth: AuthView) -> Seq<char> {
    (if forward {
        "(SELECT target AS root, id FROM edge WHERE source=? AND code=?"@
    } else {
        "(SELECT source AS root, id FROM edge WHERE target=? AND code=?"@
    }) + auth_con(auth) + ") v0"@
}

/// The `i`-th level of a join chain, joined to the level before it.
pub open spec fn join_level(forward: bool, auth: AuthView, i: nat) -> Seq<char>
    recommends
        i >= 1,
{
    "\nJOIN "@ + (if forward {
        "(SELECT target AS root, source, id FROM edge WHERE code=?"@
    } else {
        "(SELECT source AS root, target, id FROM edge WHERE code=?"@
    }) + auth_con(auth) + ") "@ + level_name(i) + " ON "@ + level_name(i) + (if forward {
        ".source = "@
    } else {
        ".target = "@
    }) + level_name((i - 1) as nat) + ".root"@
}

/// The levels 1 to `upto` of the join chain for `steps`.
pub open spec fn join_levels(steps: Seq<StepView>, auth: AuthView, upto: nat) -> Seq<char>
    decreases upto,
{
    if upto == 0 || upto > steps.len() {
        Seq::empty()
    } else {
        join_levels(steps, auth, (upto - 1) as nat) + join_level(
            is_forward(steps[upto - 1]),
            auth,
            upto,
        )
    }
}

/// The query for a path: one level for each hop, each joined to the one
/// before it, the result ordered by the age of the edges of the last hop.
pub open spec fn select_sql(auth: AuthView, first: StepView, steps: Seq<StepView>) -> Seq<char> {
    "SELECT "@ + level_name(steps.len()) + ".root\nFROM "@ + first_level(is_forward(first), auth)
        + join_levels(steps, auth, steps.len()) + "\nORDER BY "@ + level_name(steps.len())
        + ".id"@
}

/// The codes of a list of hops.
pub open spec fn codes_of(steps: Seq<StepView>) -> Seq<Seq<char>> {
    Seq::new(steps.len(), |i: int| steps[i].code)
}

/// A statement for the store, as characters.
pub struct StatementView {
    pub sql: Seq<char>,
    pub binds: Seq<Seq<char>>,
}

/// A statement for the store: its text, and the values for its
/// placeholders, in the order in which the placeholders stand.
#[derive(Debug)]
pub struct Statement {
    pub sql: String,
    pub bind_v: Vec<String>,
}

impl View for Statement {
    type V = StatementView;

    open spec fn view(&self) -> StatementView {
        StatementView { sql: self.sql@, binds: texts(self.bind_v@) }
    }
}

fn invalid_auth() -> (e: Error)
    ensures
        e.spec_kind() == ErrorKind::Unauthorized,
{
    Error::new(ErrorKind::Unauthorized, String::from_str("the paper or the pen is no identifier"))
}

/// Whether a hop leads forward.
pub fn forward(step: &Step) -> (r: bool)
    ensures
        r == is_forward(step@),
{
    proof {
        reveal_strlit("->");
        assert("->"@ =~= forward_arrow());
    }
    same_text(step.arrow.as_str(), "->")
}

/// The condition that keeps a query to what `auth` may see. The paper or
/// the pen is written into it as it is, so an authorization whose names are no
/// identifiers is refused.
pub fn gen_auth_con(auth: &Auth) -> (r: Result<String, Error>)
    ensures
        valid_auth(auth@) ==> r is Ok && r.unwrap()@ == auth_con(auth@),
        !valid_auth(auth@) ==> r is Err && r.unwrap_err().spec_kind() == ErrorKind::Unauthorized,
{
    if !auth.is_valid() {
        return Err(invalid_auth());
    }
    match auth {
        Auth::Root => Ok(String::new()),
        Auth::Writer(paper, _) => {
            let mut s = String::from_str(" AND paper = '");
            s.append(paper.as_str());
            s.append("'");
            Ok(s)
        },
        Auth::Printer(pen) => {
            let mut s = String::from_str(" AND pen = '");
            s.append(pen.as_str());
            s.append("'");
            Ok(s)
        },
    }
}

fn gen_level_name(i: usize) -> (r: String)
    ensures
        r@ == level_name(i as nat),
{
    let mut s = String::from_str("v");
    s.append(format_nat(i as u64).as_str());
    s
}

fn gen_first_level(forward: bool, con: &str) -> (r: String)
    ensures
        forall|auth: AuthView| con@ == auth_con(auth) ==> r@ == first_level(forward, auth),
{
    let mut s = if forward {
        String::from_str("(SELECT target AS root, id FROM edge WHERE source=? AND code=?")
    } else {
        String::from_str("(SELECT source AS root, id FROM edge WHERE target=? AND code=?")
    };
    s.append(con);
    s.append(") v0");
    s
}

fn gen_join_level(forward: bool, con: &str, i: usize) -> (r: String)
    requires
        i >= 1,
    ensures
        forall|auth: AuthView| con@ == auth_con(auth) ==> r@ == join_level(forward, auth, i as nat),
{
    let name = gen_level_name(i);
    let before = gen_level_name(i - 1);
    let mut s = String::from_str("\nJOIN ");
    if forward {
        s.append("(SELECT target AS root, source, id FROM edge WHERE code=?");
    } else {
        s.append("(SELECT source AS root, target, id FROM edge WHERE code=?");
    }
    s.append(con);
    s.append(") ");
    s.append(name.as_str());
    s.append(" ON ");
    s.append(name.as_str());
    if forward {
        s.append(".source = ");
    } else {
        s.append(".target = ");
    }
    s.append(before.as_str());
    s.append(".root");
    s
}

/// Compiles a path into a query. The root and the codes are bound, the
/// root first; the condition on paper or pen is written into the text, which
/// is why an authorization whose names are no identifiers is refused.
pub fn gen_sql_stm(auth: &Auth, first_step: &Step, step_v: &[Step]) -> (r: Result<String, Error>)
    ensures
        valid_auth(auth@) ==> r is Ok && r.unwrap()@ == select_sql(
            auth@,
            first_step@,
            step_views(step_v@),
        ),
        !valid_auth(auth@) ==> r is Err && r.unwrap_err().spec_kind() == ErrorKind::Unauthorized,
{
    let con = match gen_auth_con(auth) {
        Ok(con) => con,
        Err(e) => {
            return Err(e);
        },
    };
    let n = step_v.len();
    let ghost steps = step_views(step_v@);
    let mut joins = String::new();
    let mut i: usize = 0;
    while i < n
        invariant
            i <= n,
            n == step_v.len(),
            steps == step_views(step_v@),
            con@ == auth_con(auth@),
            joins@ == join_levels(steps, auth@, i as nat),
        decreases n - i,
    {
        let level = gen_join_level(forward(&step_v[i]), con.as_str(), i + 1);
        joins.append(level.as_str());
        i += 1;
    }
    let last = gen_level_name(n);
    let mut s = String::from_str("SELECT ");
    s.append(last.as_str());
    s.append(".root\nFROM ");
    s.append(gen_first_level(forward(first_step), con.as_str()).as_str());
    s.append(joins.as_str());
    s.append("\nORDER BY ");
    s.append(last.as_str());
    s.append(".id");
    Ok(s)
}

/// The values bound to the query for a path: the root, then the code of
/// each hop.
pub open spec fn select_binds(root: Seq<char>, steps: Seq<StepView>) -> Seq<Seq<char>> {
    seq![root] + codes_of(steps)
}

/// The query that walks `path` in the store, for a path with at least one
/// hop. A path without hops asks nothing of the store.
pub fn select_path(auth: &Auth, path: &Path) -> (r: Result<Option<Statement>, Error>)
    ensures
        path@.steps.len() == 0 ==> r is Ok && r.unwrap() is None,
        path@.steps.len() > 0 && valid_auth(auth@) ==> r is Ok && r.unwrap() is Some
            && r.unwrap().unwrap()@ == (StatementView {
            sql: select_sql(auth@, path@.steps[0], path@.steps.skip(1)),
            binds: select_binds(path@.root, path@.steps),
        }),
        path@.steps.len() > 0 && !valid_auth(auth@) ==> r is Err
            && r.unwrap_err().spec_kind() == ErrorKind::Unauthorized,
{
    let n = path.step_v.len();
    if n == 0 {
        return Ok(None);
    }
    let rest = vstd::slice::slice_subrange(path.step_v.as_slice(), 1, n);
    proof {
        assert(step_views(rest@) =~= path@.steps.skip(1));
    }
    let sql = match gen_sql_stm(auth, &path.step_v[0], rest) {
        Ok(sql) => sql,
        Err(e) => {
            return Err(e);
        },
    };
    let mut bind_v: Vec<String> = Vec::new();
    let root = path.root.clone();
    proof {
        lemma_texts_push(bind_v@, root);
    }
    bind_v.push(root);
    let mut i: usize = 0;
    proof {
        assert(texts(bind_v@) =~= seq![path@.root] + codes_of(path@.steps).take(0));
    }
    while i < n
        invariant
            i <= n,
            n == path.step_v.len(),
            texts(bind_v@) == seq![path@.root] + codes_of(path@.steps).take(i as int),
        decreases n - i,
    {
        let code = path.step_v[i].code.clone();
        proof {
            lemma_texts_push(bind_v@, code);
            assert((seq![path@.root] + codes_of(path@.steps).take(i as int)).push(code@) =~= seq![
                path@.root,
            ] + codes_of(path@.steps).take(i + 1));
        }
        bind_v.push(code);
        i += 1;
    }
    proof {
        assert(codes_of(path@.steps).take(n as int) =~= codes_of(path@.steps));
    }
    Ok(Some(Statement { sql, bind_v }))
}

/// The hop that follows the edges of `code`, forward or backward.
pub open spec fn hop(forward: bool, code: Seq<char>) -> StepView {
    StepView {
        arrow: if forward {
            forward_arrow()
        } else {
            crate::path::backward_arrow()
        },
        code,
    }
}

/// The query for one fibre: the targets that `node` has under `code`, or,
/// backward, the sources that have `node` under `code`.
pub open spec fn fibre_query(auth: AuthView, forward: bool, node: Seq<char>, code: Seq<char>)
    -> StatementView {
    StatementView {
        sql: select_sql(auth, hop(forward, code), Seq::empty()),
        binds: seq![node, code],
    }
}

fn two_binds(first: &str, second: &str) -> (r: Vec<String>)
    ensures
        texts(r@) == seq![first@, second@],
{
    let mut bind_v: Vec<String> = Vec::new();
    bind_v.push(first.to_owned());
    bind_v.push(second.to_owned());
    assert(texts(bind_v@) =~= seq![first@, second@]);
    bind_v
}

/// The query that reads one fibre from the store.
pub fn select_fibre(auth: &Auth, forward: bool, node: &str, code: &str) -> (r: Result<
    Statement,
    Error,
>)
    ensures
        valid_auth(auth@) ==> r is Ok && r.unwrap()@ == fibre_query(auth@, forward, node@, code@),
        !valid_auth(auth@) ==> r is Err && r.unwrap_err().spec_kind() == ErrorKind::Unauthorized,
{
    proof {
        reveal_strlit("->");
        reveal_strlit("<-");
        assert("->"@ =~= forward_arrow());
        assert("<-"@ =~= crate::path::backward_arrow());
    }
    let step = Step {
        arrow: if forward {
            String::from_str("->")
        } else {
            String::from_str("<-")
        },
        code: code.to_owned(),
    };
    let none: Vec<Step> = Vec::new();
    proof {
        assert(step_views(none@) =~= Seq::<StepView>::empty());
        assert(step@ == hop(forward, code@));
    }
    match gen_sql_stm(auth, &step, none.as_slice()) {
        Ok(sql) => Ok(Statement { sql, bind_v: two_binds(node, code) }),
        Err(e) => Err(e),
    }
}

/// The statement that deletes one fibre, as far as an authorization may
/// see it.
pub open spec fn fibre_delete(auth: AuthView, forward: bool, node: Seq<char>, code: Seq<char>)
    -> StatementView {
    StatementView {
        sql: (if forward {
            "DELETE FROM edge WHERE source=? AND code=?"@
        } else {
            "DELETE FROM edge WHERE target=? AND code=?"@
        }) + auth_con(auth),
        binds: seq![node, code],
    }
}

/// The statement that deletes one fibre from the store.
pub fn delete_fibre(auth: &Auth, forward: bool, node: &str, code: &str) -> (r: Result<
    Statement,
    Error,
>)
    ensures
        valid_auth(auth@) ==> r is Ok && r.unwrap()@ == fibre_delete(auth@, forward, node@, code@),
        !valid_auth(auth@) ==> r is Err && r.unwrap_err().spec_kind() == ErrorKind::Unauthorized,
{
    let con = match gen_auth_con(auth) {
        Ok(con) => con,
        Err(e) => {
            return Err(e);
        },
    };
    let mut sql = if forward {
        String::from_str("DELETE FROM edge WHERE source=? AND code=?")
    } else {
        String::from_str("DELETE FROM edge WHERE target=? AND code=?")
    };
    sql.append(con.as_str());
    Ok(Statement { sql, bind_v: two_binds(node, code) })
}

/// The statement that deletes all that an authorization may write: all
/// edges for the owner of everything, those of the paper for a writer, those of
/// the pen for a printer. The paper or the pen is bound.
pub open spec fn clear_statement(auth: AuthView) -> StatementView {
    match auth {
        AuthView::Root => StatementView { sql: "DELETE FROM edge"@, binds: Seq::empty() },
        AuthView::Writer(paper, _) => StatementView {
            sql: "DELETE FROM edge WHERE paper = ?"@,
            binds: seq![paper],
        },
        AuthView::Printer(pen) => StatementView {
            sql: "DELETE FROM edge WHERE pen = ?"@,
            binds: seq![pen],
        },
    }
}

/// The statement that deletes from the store all that `auth` may write.
pub fn delete_all(auth: &Auth) -> (r: Statement)
    ensures
        r@ == clear_statement(auth@),
{
    let mut bind_v: Vec<String> = Vec::new();
    match auth {
        Auth::Root => {
            assert(texts(bind_v@) =~= Seq::<Seq<char>>::empty());
            Statement { sql: String::from_str("DELETE FROM edge"), bind_v }
        },
        Auth::Writer(paper, _) => {
            bind_v.push(paper.clone());
            assert(texts(bind_v@) =~= seq![paper@]);
            Statement { sql: String::from_str("DELETE FROM edge WHERE paper = ?"), bind_v }
        },
        Auth::Printer(pen) => {
            bind_v.push(pen.clone());
            assert(texts(bind_v@) =~= seq![pen@]);
            Statement { sql: String::from_str("DELETE FROM edge WHERE pen = ?"), bind_v }
        },
    }
}

/// The placeholders for `n` rows of five values, separated by commas.
pub open spec fn row_marks(n: nat) -> Seq<char>
    decreases n,
{
    if n == 0 {
        Seq::empty()
    } else if n == 1 {
        "(?,?,?,?,?)"@
    } else {
        row_marks((n - 1) as nat) + ",(?,?,?,?,?)"@
    }
}

/// The values bound to an insert: for each edge its source, code and
/// target, then the paper and the pen.
pub open spec fn insert_binds(edges: Seq<EdgeView>, paper: Seq<char>, pen: Seq<char>) -> Seq<
    Seq<char>,
>
    decreases edges.len(),
{
    if edges.len() == 0 {
        Seq::empty()
    } else {
        insert_binds(edges.drop_last(), paper, pen) + seq![
            edges.last().source,
            edges.last().code,
            edges.last().target,
            paper,
            pen,
        ]
    }
}

/// The one statement that inserts a list of edges, labelled as `auth`
/// labels what it writes.
pub open spec fn insert_statement(auth: AuthView, edges: Seq<EdgeView>) -> StatementView {
    StatementView {
        sql: "INSERT INTO edge (source,code,target,paper,pen) VALUES "@ + row_marks(edges.len()),
        binds: insert_binds(edges, stamp_paper(auth), stamp_pen(auth)),
    }
}

/// In the values bound to an insert, the `i`-th edge takes the five places
/// from `5 * i` on, and the last two of them hold the paper and the pen.
pub proof fn lemma_insert_binds_row(edges: Seq<EdgeView>, paper: Seq<char>, pen: Seq<char>, i: int)
    requires
        0 <= i < edges.len(),
    ensures
        insert_binds(edges, paper, pen).len() == 5 * edges.len(),
        insert_binds(edges, paper, pen)[5 * i] == edges[i].source,
        insert_binds(edges, paper, pen)[5 * i + 1] == edges[i].code,
        insert_binds(edges, paper, pen)[5 * i + 2] == edges[i].target,
        insert_binds(edges, paper, pen)[5 * i + 3] == paper,
        insert_binds(edges, paper, pen)[5 * i + 4] == pen,
    decreases edges.len(),
{
    lemma_insert_binds_len(edges, paper, pen);
    lemma_insert_binds_len(edges.drop_last(), paper, pen);
    if i < edges.len() - 1 {
        lemma_insert_binds_row(edges.drop_last(), paper, pen, i);
    }
}

pub proof fn lemma_insert_binds_len(edges: Seq<EdgeView>, paper: Seq<char>, pen: Seq<char>)
    ensures
        insert_binds(edges, paper, pen).len() == 5 * edges.len(),
    decreases edges.len(),
{
    if edges.len() > 0 {
        lemma_insert_binds_len(edges.drop_last(), paper, pen);
    }
}

/// The statement that writes `edge_v` to the store in one go; none where
/// there is nothing to write.
pub fn insert_edges(auth: &Auth, edge_v: &Vec<Edge>) -> (r: Option<Statement>)
    ensures
        r is Some <==> edge_v.len() > 0,
        r is Some ==> r.unwrap()@ == insert_statement(auth@, edge_views(edge_v@)),
{
    let n = edge_v.len();
    if n == 0 {
        return None;
    }
    let paper = auth.paper();
    let pen = auth.pen();
    let ghost edges = edge_views(edge_v@);
    let mut marks = String::new();
    let mut bind_v: Vec<String> = Vec::new();
    let mut i: usize = 0;
    proof {
        assert(edges.take(0) =~= Seq::<EdgeView>::empty());
        assert(texts(bind_v@) =~= Seq::<Seq<char>>::empty());
    }
    while i < n
        invariant
            i <= n,
            n == edge_v.len(),
            edges == edge_views(edge_v@),
            paper@ == stamp_paper(auth@),
            pen@ == stamp_pen(auth@),
            marks@ == row_marks(i as nat),
            texts(bind_v@) == insert_binds(edges.take(i as int), paper@, pen@),
        decreases n - i,
    {
        if i == 0 {
            marks.append("(?,?,?,?,?)");
            assert(Seq::<char>::empty() + "(?,?,?,?,?)"@ =~= "(?,?,?,?,?)"@);
        } else {
            marks.append(",(?,?,?,?,?)");
        }
        let e = &edge_v[i];
        let ghost before = texts(bind_v@);
        let source = e.source.clone();
        let code = e.code.clone();
        let target = e.target.clone();
        let paper_i = paper.clone();
        let pen_i = pen.clone();
        proof {
            lemma_texts_push(bind_v@, source);
            lemma_texts_push(bind_v@.push(source), code);
            lemma_texts_push(bind_v@.push(source).push(code), target);
            lemma_texts_push(bind_v@.push(source).push(code).push(target), paper_i);
            lemma_texts_push(bind_v@.push(source).push(code).push(target).push(paper_i), pen_i);
        }
        bind_v.push(source);
        bind_v.push(code);
        bind_v.push(target);
        bind_v.push(paper_i);
        bind_v.push(pen_i);
        proof {
            assert(edges.take(i + 1).drop_last() =~= edges.take(i as int));
            assert(edges.take(i + 1).last() == e@);
            assert(texts(bind_v@) =~= before + seq![e@.source, e@.code, e@.target, paper@, pen@]);
        }
        i += 1;
    }
    proof {
        assert(edges.take(n as int) =~= edges);
    }
    let mut sql = String::from_str("INSERT INTO edge (source,code,target,paper,pen) VALUES ");
    sql.append(marks.as_str());
    Some(Statement { sql, bind_v })
}

} // verus!

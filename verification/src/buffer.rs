//! The write-buffering data manager. It keeps what a session has written in
//! a table in memory, and what it has read of the store in two more, one for
//! each direction of reading. It decides what has to be asked of the store:
//! each function here either answers from the tables or hands back the
//! statement to run, and the caller reports what the store returned.

use crate::auth::{valid_auth, Auth, AuthView};
use crate::data::{all_but, appended, fibre_of, new_edge, new_edges, replaced};
use crate::err::Error;
use crate::mem_table::{keep, EdgeView, MemTable, Select};
use crate::path::{is_temp, temp_name};
use crate::sql::{
    clear_statement, delete_all, delete_fibre, fibre_delete, fibre_query, insert_edges,
    insert_statement, select_fibre, Statement, StatementView,
};
use crate::text::{same_text, starts_with_char, texts};
use vstd::prelude::*;

verus! {

/// A fibre, as characters: a node, a code and the direction in which the
/// edges are followed from the node.
pub struct FibreView {
    pub forward: bool,
    pub node: Seq<char>,
    pub code: Seq<char>,
}

/// A fibre that the manager has taken note of.
#[derive(Debug)]
pub struct Fibre {
    pub forward: bool,
    pub node: String,
    pub code: String,
}

impl View for Fibre {
    type V = FibreView;

    open spec fn view(&self) -> FibreView {
        FibreView { forward: self.forward, node: self.node@, code: self.code@ }
    }
}

/// The mark of a fibre: its node, the arrow of its direction, its code.
pub open spec fn mark_of(key: FibreView) -> Seq<char> {
    key.node + (if key.forward {
        crate::path::forward_arrow()
    } else {
        crate::path::backward_arrow()
    }) + key.code
}

/// The marks of a list of fibres.
pub open spec fn marks_of(keys: Seq<FibreView>) -> Seq<Seq<char>> {
    Seq::new(keys.len(), |i: int| mark_of(keys[i]))
}

impl Fibre {
    /// The fibre as it is written in a path: `node->code` or `node<-code`.
    pub fn marker(&self) -> (r: String)
        ensures
            r@ == mark_of(self@),
    {
        proof {
            reveal_strlit("->");
            reveal_strlit("<-");
            assert("->"@ =~= crate::path::forward_arrow());
            assert("<-"@ =~= crate::path::backward_arrow());
        }
        let mut s = self.node.clone();
        if self.forward {
            s.append("->");
        } else {
            s.append("<-");
        }
        s.append(self.code.as_str());
        s
    }
}

/// The fibres of a vector, each by its view.
pub open spec fn fibre_views(v: Seq<Fibre>) -> Seq<FibreView> {
    Seq::new(v.len(), |i: int| v[i]@)
}

/// A fibre is temporary when its node or its code is: no edge of it can be
/// in the store.
pub open spec fn temp_fibre(key: FibreView) -> bool {
    temp_name(key.node) || temp_name(key.code)
}

/// The state of a manager.
pub struct BufferView {
    /// For whom the session acts.
    pub auth: AuthView,
    /// What the session has written, oldest first.
    pub edges: Seq<EdgeView>,
    /// The rows of the store that were read as targets, fibre by fibre.
    pub seen_targets: Seq<EdgeView>,
    /// The rows of the store that were read as sources, fibre by fibre.
    pub seen_sources: Seq<EdgeView>,
    /// The fibres of the store that the session has taken in.
    pub cached: Seq<FibreView>,
    /// The fibres that the next commit deletes from the store.
    pub deletes: Seq<FibreView>,
    /// Whether the next commit first deletes all that the session may write.
    pub cleared: bool,
}

/// The state of a new session.
pub open spec fn fresh(auth: AuthView) -> BufferView {
    BufferView {
        auth,
        edges: Seq::empty(),
        seen_targets: Seq::empty(),
        seen_sources: Seq::empty(),
        cached: Seq::empty(),
        deletes: Seq::empty(),
        cleared: false,
    }
}

/// Whether the session holds all of a fibre, so that reading it asks
/// nothing of the store.
pub open spec fn known(v: BufferView, key: FibreView) -> bool {
    v.cleared || temp_fibre(key) || v.cached.contains(key)
}

/// The rows of the store that the session has read in one direction.
pub open spec fn seen(v: BufferView, forward: bool) -> Seq<EdgeView> {
    if forward {
        v.seen_targets
    } else {
        v.seen_sources
    }
}

/// A fibre as the session holds it: what was read of it, then what was
/// written to it.
pub open spec fn held(v: BufferView, key: FibreView) -> Seq<Seq<char>> {
    fibre_of(seen(v, key.forward), key.forward, key.node, key.code) + fibre_of(
        v.edges,
        key.forward,
        key.node,
        key.code,
    )
}

/// What a read comes to.
pub enum LookupView {
    Hit(Seq<Seq<char>>),
    Miss(StatementView),
}

/// What reading a fibre comes to: the fibre as the session holds it, or the
/// query to run first.
pub open spec fn read(v: BufferView, key: FibreView) -> LookupView {
    if known(v, key) {
        LookupView::Hit(held(v, key))
    } else {
        LookupView::Miss(fibre_query(v.auth, key.forward, key.node, key.code))
    }
}

/// The edge that stands for a row read from the store. It is held as
/// temporary, so that it is never written back.
pub open spec fn seen_edge(key: FibreView, row: Seq<char>) -> EdgeView {
    if key.forward {
        EdgeView { source: key.node, code: key.code, target: row, temp: true }
    } else {
        EdgeView { source: row, code: key.code, target: key.node, temp: true }
    }
}

/// The edges that stand for the rows of a fibre read from the store.
pub open spec fn seen_edges(key: FibreView, rows: Seq<Seq<char>>) -> Seq<EdgeView> {
    Seq::new(rows.len(), |i: int| seen_edge(key, rows[i]))
}

/// Whether an edge of the store is to be deleted at the next commit: the
/// fibre of its source, or that of its target, was set.
pub open spec fn struck(deletes: Seq<FibreView>, e: EdgeView) -> bool {
    deletes.contains(FibreView { forward: true, node: e.source, code: e.code })
        || deletes.contains(FibreView { forward: false, node: e.target, code: e.code })
}

/// The rows of a fibre that are not to be deleted at the next commit, in
/// their order.
pub open spec fn kept_rows(deletes: Seq<FibreView>, key: FibreView, rows: Seq<Seq<char>>) -> Seq<
    Seq<char>,
>
    decreases rows.len(),
{
    if rows.len() == 0 {
        Seq::empty()
    } else if struck(deletes, seen_edge(key, rows.last())) {
        kept_rows(deletes, key, rows.drop_last())
    } else {
        kept_rows(deletes, key, rows.drop_last()).push(rows.last())
    }
}

/// The state after the store has answered the query for a fibre with
/// `rows`. A fibre is taken in once: for a known one nothing changes. Rows
/// that the session has deleted already are not taken in.
pub open spec fn seeded(v: BufferView, key: FibreView, rows: Seq<Seq<char>>) -> BufferView {
    if known(v, key) {
        v
    } else if key.forward {
        BufferView {
            seen_targets: v.seen_targets + seen_edges(key, kept_rows(v.deletes, key, rows)),
            cached: v.cached.push(key),
            ..v
        }
    } else {
        BufferView {
            seen_sources: v.seen_sources + seen_edges(key, kept_rows(v.deletes, key, rows)),
            cached: v.cached.push(key),
            ..v
        }
    }
}

/// The state after `items` were appended to a fibre.
pub open spec fn appended_to(v: BufferView, key: FibreView, items: Seq<Seq<char>>) -> BufferView {
    BufferView { edges: appended(v.edges, key.forward, key.node, key.code, items), ..v }
}

/// The state after a fibre was set to `items`: the session holds the fibre
/// from then on, what it had read of the fibre is dropped, and the store's
/// part of the fibre is to be deleted at the next commit.
pub open spec fn set_to(v: BufferView, key: FibreView, items: Seq<Seq<char>>) -> BufferView {
    BufferView {
        edges: replaced(v.edges, key.forward, key.node, key.code, items),
        seen_targets: keep(v.seen_targets, all_but(key.forward, key.node, key.code)),
        seen_sources: keep(v.seen_sources, all_but(key.forward, key.node, key.code)),
        cached: if known(v, key) {
            v.cached
        } else {
            v.cached.push(key)
        },
        deletes: if v.cleared || temp_fibre(key) || v.deletes.contains(key) {
            v.deletes
        } else {
            v.deletes.push(key)
        },
        ..v
    }
}

/// The state after all that the session may write was removed.
pub open spec fn wiped(v: BufferView) -> BufferView {
    BufferView {
        edges: keep(v.edges, Select::Session),
        seen_targets: Seq::empty(),
        seen_sources: Seq::empty(),
        cached: Seq::empty(),
        deletes: Seq::empty(),
        cleared: true,
        ..v
    }
}

/// The statements that delete the fibres of `deletes`.
pub open spec fn delete_statements(auth: AuthView, deletes: Seq<FibreView>) -> Seq<StatementView> {
    Seq::new(
        deletes.len(),
        |i: int| fibre_delete(auth, deletes[i].forward, deletes[i].node, deletes[i].code),
    )
}

/// What a commit hands to the store, in this order: the statement that
/// deletes everything, if the session was cleared; the deletion of each fibre
/// that was set; one insert of all edges that are to be written, oldest first.
pub open spec fn plan(v: BufferView) -> Seq<StatementView> {
    (if v.cleared {
        seq![clear_statement(v.auth)]
    } else {
        Seq::empty()
    }) + delete_statements(v.auth, v.deletes) + (if keep(v.edges, Select::Committed).len() > 0 {
        seq![insert_statement(v.auth, keep(v.edges, Select::Committed))]
    } else {
        Seq::empty()
    })
}

/// The state after the store has taken a commit: of what was written the
/// temporary edges are left, and no fibre of the store is held any more.
pub open spec fn settled(v: BufferView) -> BufferView {
    BufferView {
        edges: keep(v.edges, Select::Temp),
        seen_targets: Seq::empty(),
        seen_sources: Seq::empty(),
        cached: Seq::empty(),
        deletes: Seq::empty(),
        cleared: false,
        ..v
    }
}

/// What a read comes to.
#[derive(Debug)]
pub enum Lookup {
    /// The fibre, oldest first.
    Hit(Vec<String>),
    /// The query whose rows are to be handed to `seed`.
    Miss(Statement),
}

impl View for Lookup {
    type V = LookupView;

    open spec fn view(&self) -> LookupView {
        match self {
            Lookup::Hit(item_v) => LookupView::Hit(texts(item_v@)),
            Lookup::Miss(statement) => LookupView::Miss(statement@),
        }
    }
}

/// The write-buffering data manager of one session.
pub struct DataManager {
    auth: Auth,
    mem_table: MemTable,
    target_cache: MemTable,
    source_cache: MemTable,
    cache_v: Vec<Fibre>,
    delete_v: Vec<Fibre>,
    cleared: bool,
}

impl View for DataManager {
    type V = BufferView;

    closed spec fn view(&self) -> BufferView {
        BufferView {
            auth: self.auth@,
            edges: self.mem_table@,
            seen_targets: self.target_cache@,
            seen_sources: self.source_cache@,
            cached: fibre_views(self.cache_v@),
            deletes: fibre_views(self.delete_v@),
            cleared: self.cleared,
        }
    }
}

fn holds(list: &Vec<Fibre>, forward: bool, node: &str, code: &str) -> (r: bool)
    ensures
        r == fibre_views(list@).contains(FibreView { forward, node: node@, code: code@ }),
{
    let ghost key = FibreView { forward, node: node@, code: code@ };
    let mut i: usize = 0;
    while i < list.len()
        invariant
            i <= list.len(),
            key == (FibreView { forward, node: node@, code: code@ }),
            forall|j: int| 0 <= j < i ==> fibre_views(list@)[j] != key,
        decreases list.len() - i,
    {
        let f = &list[i];
        if f.forward == forward && same_text(f.node.as_str(), node) && same_text(
            f.code.as_str(),
            code,
        ) {
            assert(fibre_views(list@)[i as int] == key);
            return true;
        }
        i += 1;
    }
    false
}

fn note(list: &mut Vec<Fibre>, forward: bool, node: &str, code: &str)
    ensures
        fibre_views(final(list)@) == fibre_views(old(list)@).push(
            FibreView { forward, node: node@, code: code@ },
        ),
{
    let f = Fibre { forward, node: node.to_owned(), code: code.to_owned() };
    list.push(f);
    assert(fibre_views(list@) =~= fibre_views(old(list)@).push(f@));
}

impl DataManager {
    /// Whether the manager is in order: the names of its authorization are
    /// identifiers, so that they can be written into statements.
    pub closed spec fn wf(&self) -> bool {
        valid_auth(self.auth@)
    }

    /// A manager for a new session that acts for `auth`. It is refused
    /// where a name of `auth` is no identifier.
    pub fn new(auth: Auth) -> (r: Option<Self>)
        ensures
            r is Some <==> valid_auth(auth@),
            r is Some ==> r.unwrap().wf() && r.unwrap()@ == fresh(auth@),
    {
        if !auth.is_valid() {
            return None;
        }
        let r = Self {
            auth,
            mem_table: MemTable::new(),
            target_cache: MemTable::new(),
            source_cache: MemTable::new(),
            cache_v: Vec::new(),
            delete_v: Vec::new(),
            cleared: false,
        };
        proof {
            assert(fibre_views(r.cache_v@) =~= Seq::<FibreView>::empty());
            assert(fibre_views(r.delete_v@) =~= Seq::<FibreView>::empty());
        }
        Some(r)
    }

    /// For whom the session acts.
    pub fn get_auth(&self) -> (r: Auth)
        ensures
            r@ == self@.auth,
    {
        self.auth.clone()
    }

    /// A manager for another session, which acts for `auth`: it shares
    /// nothing with this one but the store.
    pub fn divide(&self, auth: Auth) -> (r: Option<Self>)
        ensures
            r is Some <==> valid_auth(auth@),
            r is Some ==> r.unwrap().wf() && r.unwrap()@ == fresh(auth@),
    {
        Self::new(auth)
    }

    fn knows(&self, forward: bool, node: &str, code: &str) -> (r: bool)
        ensures
            r == known(self@, FibreView { forward, node: node@, code: code@ }),
    {
        self.cleared || starts_with_char(node, '$') || starts_with_char(code, '$') || holds(
            &self.cache_v,
            forward,
            node,
            code,
        )
    }

    /// The marks of the fibres of the store that the session holds, in the
    /// order in which they were taken in.
    pub fn cached(&self) -> (r: Vec<String>)
        ensures
            texts(r@) == marks_of(self@.cached),
    {
        let ghost keys = fibre_views(self.cache_v@);
        let mut out: Vec<String> = Vec::new();
        let mut i: usize = 0;
        while i < self.cache_v.len()
            invariant
                i <= self.cache_v.len(),
                keys == fibre_views(self.cache_v@),
                out@.len() == i,
                forall|k: int| 0 <= k < i ==> (#[trigger] out@[k])@ == mark_of(keys[k]),
            decreases self.cache_v.len() - i,
        {
            out.push(self.cache_v[i].marker());
            i += 1;
        }
        proof {
            assert(texts(out@) =~= marks_of(keys));
        }
        out
    }

    /// Reads the fibre of `node` under `code`: the targets of `node` where
    /// `forward` is set, its sources where it is not.
    pub fn get_v(&self, forward: bool, node: &str, code: &str) -> (r: Lookup)
        requires
            self.wf(),
        ensures
            r@ == read(self@, FibreView { forward, node: node@, code: code@ }),
    {
        if self.knows(forward, node, code) {
            let (mut item_v, mut written) = if forward {
                (
                    self.target_cache.get_target_v_unchecked(node, code),
                    self.mem_table.get_target_v_unchecked(node, code),
                )
            } else {
                (
                    self.source_cache.get_source_v_unchecked(code, node),
                    self.mem_table.get_source_v_unchecked(code, node),
                )
            };
            proof {
                assert(texts(item_v@ + written@) =~= texts(item_v@) + texts(written@));
            }
            item_v.append(&mut written);
            Lookup::Hit(item_v)
        } else {
            match select_fibre(&self.auth, forward, node, code) {
                Ok(statement) => Lookup::Miss(statement),
                Err(_) => {
                    proof {
                        assert(false);
                    }
                    vstd::pervasive::unreached()
                },
            }
        }
    }

    /// Takes in the rows with which the store has answered the query for a
    /// fibre.
    pub fn seed(&mut self, forward: bool, node: &str, code: &str, row_v: &Vec<String>)
        requires
            old(self).wf(),
        ensures
            final(self).wf(),
            final(self)@ == seeded(
                old(self)@,
                FibreView { forward, node: node@, code: code@ },
                texts(row_v@),
            ),
    {
        if self.knows(forward, node, code) {
            return ;
        }
        let ghost key = FibreView { forward, node: node@, code: code@ };
        let ghost rows = texts(row_v@);
        let ghost deletes = fibre_views(self.delete_v@);
        note(&mut self.cache_v, forward, node, code);
        let mut i: usize = 0;
        proof {
            assert(rows.take(0) =~= Seq::<Seq<char>>::empty());
            assert(seen(self@, forward) + seen_edges(key, kept_rows(deletes, key, rows.take(0)))
                =~= seen(self@, forward));
        }
        while i < row_v.len()
            invariant
                i <= row_v.len(),
                rows == texts(row_v@),
                key == (FibreView { forward, node: node@, code: code@ }),
                deletes == fibre_views(self.delete_v@),
                self.auth == old(self).auth,
                fibre_views(self.cache_v@) == fibre_views(old(self).cache_v@).push(key),
                self.delete_v == old(self).delete_v,
                self.cleared == old(self).cleared,
                self.mem_table == old(self).mem_table,
                forward ==> self.source_cache == old(self).source_cache,
                !forward ==> self.target_cache == old(self).target_cache,
                seen(self@, forward) == seen(old(self)@, forward) + seen_edges(
                    key,
                    kept_rows(deletes, key, rows.take(i as int)),
                ),
            decreases row_v.len() - i,
        {
            let row = row_v[i].as_str();
            let (source, target) = if forward {
                (node, row)
            } else {
                (row, node)
            };
            proof {
                assert(rows.take(i + 1).drop_last() =~= rows.take(i as int));
                assert(rows.take(i + 1).last() == row@);
            }
            if !(holds(&self.delete_v, true, source, code) || holds(
                &self.delete_v,
                false,
                target,
                code,
            )) {
                if forward {
                    self.target_cache.append_exists_edge(source, code, target);
                } else {
                    self.source_cache.append_exists_edge(source, code, target);
                }
                proof {
                    let kept = kept_rows(deletes, key, rows.take(i as int));
                    assert((seen(old(self)@, forward) + seen_edges(key, kept)).push(
                        seen_edge(key, row@),
                    ) =~= seen(old(self)@, forward) + seen_edges(key, kept.push(row@)));
                }
            }
            i += 1;
        }
        proof {
            assert(rows.take(row_v.len() as int) =~= rows);
        }
    }

    fn insert_v(&mut self, forward: bool, node: &str, code: &str, item_v: &Vec<String>)
        ensures
            final(self).mem_table@ == appended(
                old(self).mem_table@,
                forward,
                node@,
                code@,
                texts(item_v@),
            ),
            final(self).auth == old(self).auth,
            final(self).target_cache == old(self).target_cache,
            final(self).source_cache == old(self).source_cache,
            final(self).cache_v == old(self).cache_v,
            final(self).delete_v == old(self).delete_v,
            final(self).cleared == old(self).cleared,
    {
        let ghost items = texts(item_v@);
        let mut i: usize = 0;
        proof {
            assert(self.mem_table@ + new_edges(forward, node@, code@, items.take(0))
                =~= self.mem_table@);
        }
        while i < item_v.len()
            invariant
                i <= item_v.len(),
                items == texts(item_v@),
                self.auth == old(self).auth,
                self.target_cache == old(self).target_cache,
                self.source_cache == old(self).source_cache,
                self.cache_v == old(self).cache_v,
                self.delete_v == old(self).delete_v,
                self.cleared == old(self).cleared,
                self.mem_table@ == old(self).mem_table@ + new_edges(
                    forward,
                    node@,
                    code@,
                    items.take(i as int),
                ),
            decreases item_v.len() - i,
        {
            let item = item_v[i].as_str();
            let (source, target) = if forward {
                (node, item)
            } else {
                (item, node)
            };
            if is_temp(source, code, target) {
                self.mem_table.insert_temp_edge(source, code, target);
            } else {
                self.mem_table.insert_edge(source, code, target);
            }
            proof {
                assert((old(self).mem_table@ + new_edges(
                    forward,
                    node@,
                    code@,
                    items.take(i as int),
                )).push(new_edge(forward, node@, code@, items[i as int])) =~= old(
                    self,
                ).mem_table@ + new_edges(forward, node@, code@, items.take(i + 1)));
            }
            i += 1;
        }
        proof {
            assert(items.take(item_v.len() as int) =~= items);
        }
    }

    /// Appends `item_v` to the fibre of `node` under `code`. The store is
    /// not asked: what it holds of the fibre comes before what is appended,
    /// whenever it is read.
    pub fn append_v(&mut self, forward: bool, node: &str, code: &str, item_v: &Vec<String>)
        requires
            old(self).wf(),
        ensures
            final(self).wf(),
            final(self)@ == appended_to(
                old(self)@,
                FibreView { forward, node: node@, code: code@ },
                texts(item_v@),
            ),
    {
        self.insert_v(forward, node, code, item_v);
    }

    /// Makes `item_v` the fibre of `node` under `code`.
    pub fn set_v(&mut self, forward: bool, node: &str, code: &str, item_v: &Vec<String>)
        requires
            old(self).wf(),
        ensures
            final(self).wf(),
            final(self)@ == set_to(
                old(self)@,
                FibreView { forward, node: node@, code: code@ },
                texts(item_v@),
            ),
    {
        if !self.knows(forward, node, code) {
            note(&mut self.cache_v, forward, node, code);
        }
        let temp = starts_with_char(node, '$') || starts_with_char(code, '$');
        if !self.cleared && !temp && !holds(&self.delete_v, forward, node, code) {
            note(&mut self.delete_v, forward, node, code);
        }
        if forward {
            self.mem_table.delete_edge_with_source_code(node, code);
            self.target_cache.delete_edge_with_source_code(node, code);
            self.source_cache.delete_edge_with_source_code(node, code);
        } else {
            self.mem_table.delete_edge_with_code_target(code, node);
            self.target_cache.delete_edge_with_code_target(code, node);
            self.source_cache.delete_edge_with_code_target(code, node);
        }
        self.insert_v(forward, node, code, item_v);
    }

    /// Removes all that the session may write: from its tables at once, from
    /// the store at the next commit.
    pub fn clear(&mut self)
        requires
            old(self).wf(),
        ensures
            final(self).wf(),
            final(self)@ == wiped(old(self)@),
    {
        self.mem_table.delete_persistent();
        self.target_cache = MemTable::new();
        self.source_cache = MemTable::new();
        self.cache_v = Vec::new();
        self.delete_v = Vec::new();
        self.cleared = true;
        proof {
            assert(fibre_views(self.cache_v@) =~= Seq::<FibreView>::empty());
            assert(fibre_views(self.delete_v@) =~= Seq::<FibreView>::empty());
        }
    }

    /// The statements that make the session's writes durable, to be run in
    /// this order and as one. The manager stays as it is, so that the commit can
    /// be tried again; once the store has taken the statements, call `settle`.
    pub fn commit(&self) -> (r: Vec<Statement>)
        requires
            self.wf(),
        ensures
            statement_views(r@) == plan(self@),
    {
        let mut out: Vec<Statement> = Vec::new();
        if self.cleared {
            out.push(delete_all(&self.auth));
        }
        let ghost head = statement_views(out@);
        proof {
            assert(head =~= if self.cleared {
                seq![clear_statement(self.auth@)]
            } else {
                Seq::<StatementView>::empty()
            });
            assert(head + delete_statements(self.auth@, fibre_views(self.delete_v@).take(0))
                =~= head);
        }
        let mut i: usize = 0;
        while i < self.delete_v.len()
            invariant
                i <= self.delete_v.len(),
                self.wf(),
                statement_views(out@) == head + delete_statements(
                    self.auth@,
                    fibre_views(self.delete_v@).take(i as int),
                ),
            decreases self.delete_v.len() - i,
        {
            let f = &self.delete_v[i];
            match delete_fibre(&self.auth, f.forward, f.node.as_str(), f.code.as_str()) {
                Ok(statement) => {
                    let ghost before = out@;
                    let ghost keys = fibre_views(self.delete_v@);
                    out.push(statement);
                    proof {
                        assert(statement_views(out@) =~= statement_views(before).push(statement@));
                        assert(keys.take(i + 1)[i as int] == f@);
                        assert(delete_statements(self.auth@, keys.take(i + 1)) =~= delete_statements(
                            self.auth@,
                            keys.take(i as int),
                        ).push(statement@));
                        assert(statement_views(out@) =~= head + delete_statements(
                            self.auth@,
                            keys.take(i + 1),
                        ));
                    }
                },
                Err(_) => {
                    proof {
                        assert(false);
                    }
                },
            }
            i += 1;
        }
        proof {
            assert(fibre_views(self.delete_v@).take(self.delete_v.len() as int) =~= fibre_views(
                self.delete_v@,
            ));
        }
        let edge_v = self.mem_table.committed();
        let ghost mid = statement_views(out@);
        match insert_edges(&self.auth, &edge_v) {
            Some(statement) => {
                out.push(statement);
                proof {
                    assert(statement_views(out@) =~= mid + seq![statement@]);
                }
            },
            None => {
                proof {
                    assert(statement_views(out@) =~= mid + Seq::<StatementView>::empty());
                }
            },
        }
        out
    }

    /// Takes note that the store has taken the statements of `commit`.
    pub fn settle(&mut self)
        requires
            old(self).wf(),
        ensures
            final(self).wf(),
            final(self)@ == settled(old(self)@),
    {
        let _ = self.mem_table.take_some();
        self.target_cache = MemTable::new();
        self.source_cache = MemTable::new();
        self.cache_v = Vec::new();
        self.delete_v = Vec::new();
        self.cleared = false;
        proof {
            assert(fibre_views(self.cache_v@) =~= Seq::<FibreView>::empty());
            assert(fibre_views(self.delete_v@) =~= Seq::<FibreView>::empty());
        }
    }
}

/// The statements of a vector, each by its view.
pub open spec fn statement_views(v: Seq<Statement>) -> Seq<StatementView> {
    Seq::new(v.len(), |i: int| v[i]@)
}

impl DataManager {
    /// Reads a fibre, asking the store through `fetch` if the session does
    /// not hold the fibre yet. The store is asked at most once, with the query
    /// for the fibre, and what it answers is taken in. If it fails, the manager
    /// stays as it was.
    pub fn read_through<F: Fn(&Statement) -> Result<Vec<String>, Error>>(
        &mut self,
        fetch: &F,
        forward: bool,
        node: &str,
        code: &str,
    ) -> (r: Result<Vec<String>, Error>)
        requires
            old(self).wf(),
            forall|s: &Statement| call_requires(*fetch, (s,)),
        ensures
            final(self).wf(),
            known(old(self)@, FibreView { forward, node: node@, code: code@ }) ==> r is Ok
                && final(self)@ == old(self)@,
            r is Ok ==> texts(r.unwrap()@) == held(
                final(self)@,
                FibreView { forward, node: node@, code: code@ },
            ),
            r is Ok ==> known(final(self)@, FibreView { forward, node: node@, code: code@ }),
            r is Err ==> final(self)@ == old(self)@,
            !known(old(self)@, FibreView { forward, node: node@, code: code@ }) ==> exists|
                asked: Statement,
                answer: Result<Vec<String>, Error>,
            |
                asked@ == fibre_query(old(self)@.auth, forward, node@, code@) && #[trigger] call_ensures(
                    *fetch,
                    (&asked,),
                    answer,
                ) && (answer is Err ==> r is Err) && (answer is Ok ==> r is Ok && final(self)@
                    == seeded(
                    old(self)@,
                    FibreView { forward, node: node@, code: code@ },
                    texts(answer.unwrap()@),
                )),
    {
        let ghost key = FibreView { forward, node: node@, code: code@ };
        match self.get_v(forward, node, code) {
            Lookup::Hit(item_v) => Ok(item_v),
            Lookup::Miss(statement) => {
                let answer = fetch(&statement);
                match answer {
                    Err(e) => Err(e),
                    Ok(row_v) => {
                        self.seed(forward, node, code, &row_v);
                        proof {
                            assert(self@.cached.last() == key);
                            assert(call_ensures(*fetch, (&statement,), Ok::<
                                Vec<String>,
                                Error,
                            >(row_v)));
                        }
                        match self.get_v(forward, node, code) {
                            Lookup::Hit(item_v) => Ok(item_v),
                            Lookup::Miss(_) => {
                                proof {
                                    assert(false);
                                }
                                vstd::pervasive::unreached()
                            },
                        }
                    },
                }
            },
        }
    }

    /// Commits through `run`, which hands the statements to the store as
    /// one. A commit with nothing for the store does not call `run`. If the
    /// store takes the statements the session is settled; if it fails, the
    /// manager stays as it was and nothing that was buffered is lost.
    pub fn commit_through<G: Fn(&Vec<Statement>) -> Result<(), Error>>(&mut self, run: &G) -> (r:
        Result<(), Error>)
        requires
            old(self).wf(),
            forall|p: &Vec<Statement>| call_requires(*run, (p,)),
        ensures
            final(self).wf(),
            r is Ok ==> final(self)@ == settled(old(self)@),
            r is Err ==> final(self)@ == old(self)@,
            plan(old(self)@).len() == 0 ==> r is Ok,
            plan(old(self)@).len() > 0 ==> exists|handed: Vec<Statement>|
                statement_views(handed@) == plan(old(self)@) && #[trigger] call_ensures(
                    *run,
                    (&handed,),
                    r,
                ),
    {
        let handed = self.commit();
        if handed.len() == 0 {
            self.settle();
            return Ok(());
        }
        let done = run(&handed);
        match done {
            Ok(_) => {
                self.settle();
            },
            Err(_) => {},
        }
        done
    }
}

} // verus!

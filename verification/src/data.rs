//! The contract between the interpreter and whatever holds the edges, and a
//! manager that holds them in memory.

use crate::auth::Auth;
use crate::err::Error;
use crate::mem_table::{keep, sources_of, targets_of, EdgeView, MemTable, Select};
use crate::path::{is_temp, temp_edge};
use crate::text::texts;
use vstd::prelude::*;

verus! {

/// The fibre of `node` under `code`: forward, the targets that `node` has
/// under `code`; backward, the sources that have `node` under `code`. Oldest
/// first.
pub open spec fn fibre_of(edges: Seq<EdgeView>, forward: bool, node: Seq<char>, code: Seq<char>)
    -> Seq<Seq<char>> {
    if forward {
        targets_of(edges, node, code)
    } else {
        sources_of(edges, code, node)
    }
}

/// The choice of all edges but those of one fibre.
pub open spec fn all_but(forward: bool, node: Seq<char>, code: Seq<char>) -> Select {
    if forward {
        Select::NotForward { source: node, code }
    } else {
        Select::NotBackward { code, target: node }
    }
}

/// The choice of the edges of one fibre.
pub open spec fn only(forward: bool, node: Seq<char>, code: Seq<char>) -> Select {
    if forward {
        Select::Forward { source: node, code }
    } else {
        Select::Backward { code, target: node }
    }
}

/// The edge that joins `node` and `item` under `code`, with `item` as the
/// target where `forward` is set and as the source where it is not. It is
/// temporary exactly if one of its names is.
pub open spec fn new_edge(forward: bool, node: Seq<char>, code: Seq<char>, item: Seq<char>)
    -> EdgeView {
    if forward {
        EdgeView { source: node, code, target: item, temp: temp_edge(node, code, item) }
    } else {
        EdgeView { source: item, code, target: node, temp: temp_edge(item, code, node) }
    }
}

/// The edges that join `node` to each of `items` under `code`, in the order
/// of `items`.
pub open spec fn new_edges(
    forward: bool,
    node: Seq<char>,
    code: Seq<char>,
    items: Seq<Seq<char>>,
) -> Seq<EdgeView> {
    Seq::new(items.len(), |i: int| new_edge(forward, node, code, items[i]))
}

/// The newest element of a fibre; the empty string for an empty fibre.
pub open spec fn newest(list: Seq<Seq<char>>) -> Seq<char> {
    if list.len() > 0 {
        list.last()
    } else {
        Seq::empty()
    }
}

/// What appending `items` to a fibre makes of the edges.
pub open spec fn appended(
    edges: Seq<EdgeView>,
    forward: bool,
    node: Seq<char>,
    code: Seq<char>,
    items: Seq<Seq<char>>,
) -> Seq<EdgeView> {
    edges + new_edges(forward, node, code, items)
}

/// What setting a fibre to `items` makes of the edges: the fibre is
/// emptied, then `items` are appended.
pub open spec fn replaced(
    edges: Seq<EdgeView>,
    forward: bool,
    node: Seq<char>,
    code: Seq<char>,
    items: Seq<Seq<char>>,
) -> Seq<EdgeView> {
    keep(edges, all_but(forward, node, code)) + new_edges(forward, node, code, items)
}

/// What the interpreter asks of a data manager. The manager is described
/// by the list of the edges that the session sees, oldest first: reading
/// leaves the list as it is, appending adds to its end, setting empties a fibre
/// first. A manager may fail, except one that declares itself reliable.
pub trait AsDataManager {
    /// The edges that the session sees, oldest first. A manager that
    /// does not say what they are leaves them open.
    open spec fn edges(&self) -> Seq<EdgeView> {
        arbitrary()
    }

    /// Whether no operation of this manager ever fails. A manager that
    /// does not say so is taken to fail at times.
    open spec fn reliable(&self) -> bool {
        false
    }

    /// The edges that the session has made durable, oldest first: what is
    /// left of its work when the session ends. Writing changes nothing of
    /// them; a commit makes them what the session sees, without the edges
    /// that have a temporary name. A manager that does not say what they are
    /// leaves them open.
    open spec fn saved(&self) -> Seq<EdgeView> {
        arbitrary()
    }

    /// The newest target of `source` under `code`; the empty string where
    /// there is none.
    fn get_target(&mut self, source: &str, code: &str) -> (r: Result<String, Error>)
        ensures
            final(self).edges() == old(self).edges(),
            final(self).reliable() == old(self).reliable(),
            final(self).saved() == old(self).saved(),
            old(self).reliable() ==> r is Ok,
            r is Ok ==> r.unwrap()@ == newest(fibre_of(old(self).edges(), true, source@, code@)),
    ;

    /// The newest source that has `target` under `code`; the empty string
    /// where there is none.
    fn get_source(&mut self, code: &str, target: &str) -> (r: Result<String, Error>)
        ensures
            final(self).edges() == old(self).edges(),
            final(self).reliable() == old(self).reliable(),
            final(self).saved() == old(self).saved(),
            old(self).reliable() ==> r is Ok,
            r is Ok ==> r.unwrap()@ == newest(fibre_of(old(self).edges(), false, target@, code@)),
    ;

    /// All targets of `source` under `code`, oldest first.
    fn get_target_v(&mut self, source: &str, code: &str) -> (r: Result<Vec<String>, Error>)
        ensures
            final(self).edges() == old(self).edges(),
            final(self).reliable() == old(self).reliable(),
            final(self).saved() == old(self).saved(),
            old(self).reliable() ==> r is Ok,
            r is Ok ==> texts(r.unwrap()@) == fibre_of(old(self).edges(), true, source@, code@),
    ;

    /// All sources that have `target` under `code`, oldest first.
    fn get_source_v(&mut self, code: &str, target: &str) -> (r: Result<Vec<String>, Error>)
        ensures
            final(self).edges() == old(self).edges(),
            final(self).reliable() == old(self).reliable(),
            final(self).saved() == old(self).saved(),
            old(self).reliable() ==> r is Ok,
            r is Ok ==> texts(r.unwrap()@) == fibre_of(old(self).edges(), false, target@, code@),
    ;

    /// Adds an edge from `source` to each of `target_v` under `code`.
    fn append_target_v(&mut self, source: &str, code: &str, target_v: &Vec<String>) -> (r: Result<
        (),
        Error,
    >)
        ensures
            final(self).reliable() == old(self).reliable(),
            final(self).saved() == old(self).saved(),
            old(self).reliable() ==> r is Ok,
            r is Ok ==> final(self).edges() == appended(
                old(self).edges(),
                true,
                source@,
                code@,
                texts(target_v@),
            ),
    ;

    /// Adds an edge from each of `source_v` to `target` under `code`.
    fn append_source_v(&mut self, source_v: &Vec<String>, code: &str, target: &str) -> (r: Result<
        (),
        Error,
    >)
        ensures
            final(self).reliable() == old(self).reliable(),
            final(self).saved() == old(self).saved(),
            old(self).reliable() ==> r is Ok,
            r is Ok ==> final(self).edges() == appended(
                old(self).edges(),
                false,
                target@,
                code@,
                texts(source_v@),
            ),
    ;

    /// Makes `target_v` the targets of `source` under `code`.
    fn set_target_v(&mut self, source: &str, code: &str, target_v: &Vec<String>) -> (r: Result<
        (),
        Error,
    >)
        ensures
            final(self).reliable() == old(self).reliable(),
            final(self).saved() == old(self).saved(),
            old(self).reliable() ==> r is Ok,
            r is Ok ==> final(self).edges() == replaced(
                old(self).edges(),
                true,
                source@,
                code@,
                texts(target_v@),
            ),
    ;

    /// Makes `source_v` the sources that have `target` under `code`.
    fn set_source_v(&mut self, source_v: &Vec<String>, code: &str, target: &str) -> (r: Result<
        (),
        Error,
    >)
        ensures
            final(self).reliable() == old(self).reliable(),
            final(self).saved() == old(self).saved(),
            old(self).reliable() ==> r is Ok,
            r is Ok ==> final(self).edges() == replaced(
                old(self).edges(),
                false,
                target@,
                code@,
                texts(source_v@),
            ),
    ;

    /// Removes every edge that the session may write and that is not its
    /// own alone: what stays are the edges with a temporary name.
    fn clear(&mut self) -> (r: Result<(), Error>)
        ensures
            final(self).reliable() == old(self).reliable(),
            final(self).saved() == old(self).saved(),
            old(self).reliable() ==> r is Ok,
            r is Ok ==> final(self).edges() == keep(old(self).edges(), Select::Session),
    ;

    /// Makes what was written durable: after it the durable edges are those
    /// that the session sees, without the edges that have a temporary name.
    /// The session sees the same edges after it as before. Where it fails,
    /// nothing has become durable that was not.
    fn commit(&mut self) -> (r: Result<(), Error>)
        ensures
            final(self).reliable() == old(self).reliable(),
            old(self).reliable() ==> r is Ok,
            final(self).edges() == old(self).edges(),
            r is Ok ==> final(self).saved() == keep(old(self).edges(), Select::Lasting),
            r is Err ==> final(self).saved() == old(self).saved(),
    ;
}

/// A data manager that holds its edges in memory and never fails. It has
/// no store: what it has made durable is on record only, as the edges that a
/// store would hold.
pub struct MemDataManager {
    auth: Auth,
    mem_table: MemTable,
    saved: Ghost<Seq<EdgeView>>,
}

impl MemDataManager {
    /// An empty manager that acts for `auth`.
    pub fn new(auth: Auth) -> (r: Self)
        ensures
            r.edges() == Seq::<EdgeView>::empty(),
            r.saved() == Seq::<EdgeView>::empty(),
            r.reliable(),
            r.spec_auth() == auth@,
    {
        Self { auth, mem_table: MemTable::new(), saved: Ghost(Seq::empty()) }
    }

    /// For whom the manager acts.
    pub closed spec fn spec_auth(&self) -> crate::auth::AuthView {
        self.auth@
    }

    /// For whom the manager acts.
    pub fn get_auth(&self) -> (r: Auth)
        ensures
            r@ == self.spec_auth(),
    {
        self.auth.clone()
    }

    /// A manager of its own for another session: it acts for `auth` and
    /// starts empty.
    pub fn divide(&self, auth: Auth) -> (r: Self)
        ensures
            r.edges() == Seq::<EdgeView>::empty(),
            r.saved() == Seq::<EdgeView>::empty(),
            r.reliable(),
            r.spec_auth() == auth@,
    {
        Self::new(auth)
    }

    fn append(&mut self, forward: bool, node: &str, code: &str, item_v: &Vec<String>)
        ensures
            final(self).edges() == appended(old(self).edges(), forward, node@, code@, texts(item_v@)),
            final(self).auth == old(self).auth,
            final(self).saved == old(self).saved,
    {
        let ghost items = texts(item_v@);
        let mut i: usize = 0;
        proof {
            assert(self.edges() + new_edges(forward, node@, code@, items.take(0)) =~= self.edges());
        }
        while i < item_v.len()
            invariant
                i <= item_v.len(),
                items == texts(item_v@),
                self.auth == old(self).auth,
                self.saved == old(self).saved,
                self.edges() == old(self).edges() + new_edges(
                    forward,
                    node@,
                    code@,
                    items.take(i as int),
                ),
            decreases item_v.len() - i,
        {
            let item = item_v[i].as_str();
            let (source, target) = if forward {
                (node, item)
            } else {
                (item, node)
            };
            if is_temp(source, code, target) {
                self.mem_table.insert_temp_edge(source, code, target);
            } else {
                self.mem_table.insert_edge(source, code, target);
            }
            proof {
                assert((old(self).edges() + new_edges(
                    forward,
                    node@,
                    code@,
                    items.take(i as int),
                )).push(new_edge(forward, node@, code@, items[i as int])) =~= old(self).edges()
                    + new_edges(forward, node@, code@, items.take(i + 1)));
            }
            i += 1;
        }
        proof {
            assert(items.take(item_v.len() as int) =~= items);
        }
    }
}

impl AsDataManager for MemDataManager {
    closed spec fn edges(&self) -> Seq<EdgeView> {
        self.mem_table@
    }

    open spec fn reliable(&self) -> bool {
        true
    }

    closed spec fn saved(&self) -> Seq<EdgeView> {
        self.saved@
    }

    fn get_target(&mut self, source: &str, code: &str) -> (r: Result<String, Error>) {
        match self.mem_table.get_target(source, code) {
            Some(target) => Ok(target),
            None => Ok(String::new()),
        }
    }

    fn get_source(&mut self, code: &str, target: &str) -> (r: Result<String, Error>) {
        match self.mem_table.get_source(code, target) {
            Some(source) => Ok(source),
            None => Ok(String::new()),
        }
    }

    fn get_target_v(&mut self, source: &str, code: &str) -> (r: Result<Vec<String>, Error>) {
        Ok(self.mem_table.get_target_v_unchecked(source, code))
    }

    fn get_source_v(&mut self, code: &str, target: &str) -> (r: Result<Vec<String>, Error>) {
        Ok(self.mem_table.get_source_v_unchecked(code, target))
    }

    fn append_target_v(&mut self, source: &str, code: &str, target_v: &Vec<String>) -> (r: Result<
        (),
        Error,
    >) {
        self.append(true, source, code, target_v);
        Ok(())
    }

    fn append_source_v(&mut self, source_v: &Vec<String>, code: &str, target: &str) -> (r: Result<
        (),
        Error,
    >) {
        self.append(false, target, code, source_v);
        Ok(())
    }

    fn set_target_v(&mut self, source: &str, code: &str, target_v: &Vec<String>) -> (r: Result<
        (),
        Error,
    >) {
        self.mem_table.delete_edge_with_source_code(source, code);
        self.append(true, source, code, target_v);
        Ok(())
    }

    fn set_source_v(&mut self, source_v: &Vec<String>, code: &str, target: &str) -> (r: Result<
        (),
        Error,
    >) {
        self.mem_table.delete_edge_with_code_target(code, target);
        self.append(false, target, code, source_v);
        Ok(())
    }

    fn clear(&mut self) -> (r: Result<(), Error>) {
        self.mem_table.delete_persistent();
        Ok(())
    }

    fn commit(&mut self) -> (r: Result<(), Error>) {
        self.saved = Ghost(keep(self.mem_table@, Select::Lasting));
        Ok(())
    }
}

} // verus!

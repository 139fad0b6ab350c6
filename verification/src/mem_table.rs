//! The in-memory table of a session: every edge that the session has
//! written or has read from the store, in the order in which it arrived.

use crate::path::{is_temp, temp_edge};
use crate::text::{decimal, format_nat, same_text};
use vstd::prelude::*;

verus! {

/// An entry of the table, as characters. `temp` is set for an entry that
/// must never be written to the store.
pub struct EdgeView {
    pub source: Seq<char>,
    pub code: Seq<char>,
    pub target: Seq<char>,
    pub temp: bool,
}

/// A choice of entries.
pub enum Select {
    /// The entries that leave `source` under `code`.
    Forward { source: Seq<char>, code: Seq<char> },
    /// The entries that reach `target` under `code`.
    Backward { code: Seq<char>, target: Seq<char> },
    /// All but those that leave `source` under `code`.
    NotForward { source: Seq<char>, code: Seq<char> },
    /// All but those that reach `target` under `code`.
    NotBackward { code: Seq<char>, target: Seq<char> },
    /// The entries that are to be written to the store.
    Committed,
    /// The entries that stay in the session.
    Temp,
    /// The entries with a temporary name: those that belong to the session
    /// alone, as against those that were read from the store.
    Session,
    /// The entries without a temporary name: those that can last beyond
    /// the session.
    Lasting,
}

/// Whether `e` leaves `source` under `code`.
pub open spec fn in_forward(e: EdgeView, source: Seq<char>, code: Seq<char>) -> bool {
    e.source == source && e.code == code
}

/// Whether `e` reaches `target` under `code`.
pub open spec fn in_backward(e: EdgeView, code: Seq<char>, target: Seq<char>) -> bool {
    e.code == code && e.target == target
}

/// Whether the choice `sel` takes the entry `e`.
pub open spec fn selects(sel: Select, e: EdgeView) -> bool {
    match sel {
        Select::Forward { source, code } => in_forward(e, source, code),
        Select::Backward { code, target } => in_backward(e, code, target),
        Select::NotForward { source, code } => !in_forward(e, source, code),
        Select::NotBackward { code, target } => !in_backward(e, code, target),
        Select::Committed => !e.temp,
        Select::Temp => e.temp,
        Select::Session => temp_edge(e.source, e.code, e.target),
        Select::Lasting => !temp_edge(e.source, e.code, e.target),
    }
}

/// The entries of `edges` that `sel` takes, in their order.
pub open spec fn keep(edges: Seq<EdgeView>, sel: Select) -> Seq<EdgeView>
    decreases edges.len(),
{
    if edges.len() == 0 {
        Seq::empty()
    } else if selects(sel, edges.last()) {
        keep(edges.drop_last(), sel).push(edges.last())
    } else {
        keep(edges.drop_last(), sel)
    }
}

/// The targets of the edges that leave `source` under `code`, oldest first.
pub open spec fn targets_of(edges: Seq<EdgeView>, source: Seq<char>, code: Seq<char>) -> Seq<
    Seq<char>,
> {
    targets_in(keep(edges, Select::Forward { source, code }))
}

/// The targets of a list of entries.
pub open spec fn targets_in(edges: Seq<EdgeView>) -> Seq<Seq<char>> {
    Seq::new(edges.len(), |i: int| edges[i].target)
}

/// The sources of a list of entries.
pub open spec fn sources_in(edges: Seq<EdgeView>) -> Seq<Seq<char>> {
    Seq::new(edges.len(), |i: int| edges[i].source)
}

pub proof fn lemma_targets_in_push(edges: Seq<EdgeView>, e: EdgeView)
    ensures
        targets_in(edges.push(e)) == targets_in(edges).push(e.target),
{
    assert(targets_in(edges.push(e)) =~= targets_in(edges).push(e.target));
}

pub proof fn lemma_sources_in_push(edges: Seq<EdgeView>, e: EdgeView)
    ensures
        sources_in(edges.push(e)) == sources_in(edges).push(e.source),
{
    assert(sources_in(edges.push(e)) =~= sources_in(edges).push(e.source));
}

pub proof fn lemma_targets_in_concat(a: Seq<EdgeView>, b: Seq<EdgeView>)
    ensures
        targets_in(a + b) == targets_in(a) + targets_in(b),
{
    assert(targets_in(a + b) =~= targets_in(a) + targets_in(b));
}

pub proof fn lemma_sources_in_concat(a: Seq<EdgeView>, b: Seq<EdgeView>)
    ensures
        sources_in(a + b) == sources_in(a) + sources_in(b),
{
    assert(sources_in(a + b) =~= sources_in(a) + sources_in(b));
}

/// The sources of the edges that reach `target` under `code`, oldest first.
pub open spec fn sources_of(edges: Seq<EdgeView>, code: Seq<char>, target: Seq<char>) -> Seq<
    Seq<char>,
> {
    sources_in(keep(edges, Select::Backward { code, target }))
}

pub proof fn lemma_keep_push(edges: Seq<EdgeView>, e: EdgeView, sel: Select)
    ensures
        keep(edges.push(e), sel) == if selects(sel, e) {
            keep(edges, sel).push(e)
        } else {
            keep(edges, sel)
        },
{
    assert(edges.push(e).drop_last() =~= edges);
}

pub proof fn lemma_keep_concat(a: Seq<EdgeView>, b: Seq<EdgeView>, sel: Select)
    ensures
        keep(a + b, sel) == keep(a, sel) + keep(b, sel),
    decreases b.len(),
{
    if b.len() == 0 {
        assert(a + b =~= a);
        assert(keep(a, sel) + keep(b, sel) =~= keep(a, sel));
    } else {
        lemma_keep_concat(a, b.drop_last(), sel);
        assert((a + b).drop_last() =~= a + b.drop_last());
        assert((a + b).last() == b.last());
        if selects(sel, b.last()) {
            assert(keep(a, sel) + keep(b.drop_last(), sel).push(b.last()) =~= (keep(a, sel) + keep(
                b.drop_last(),
                sel,
            )).push(b.last()));
        }
    }
}

/// Every entry that a choice keeps is one that it takes, and the choice
/// keeps no more entries than there are.
pub proof fn lemma_keep_selected(edges: Seq<EdgeView>, sel: Select)
    ensures
        keep(edges, sel).len() <= edges.len(),
        forall|i: int| 0 <= i < keep(edges, sel).len() ==> selects(sel, #[trigger] keep(edges, sel)[i]),
    decreases edges.len(),
{
    if edges.len() > 0 {
        lemma_keep_selected(edges.drop_last(), sel);
    }
}

/// A choice keeps all of a list whose entries it takes.
pub proof fn lemma_keep_all(edges: Seq<EdgeView>, sel: Select)
    requires
        forall|i: int| 0 <= i < edges.len() ==> selects(sel, #[trigger] edges[i]),
    ensures
        keep(edges, sel) == edges,
    decreases edges.len(),
{
    if edges.len() > 0 {
        lemma_keep_all(edges.drop_last(), sel);
        assert(edges.drop_last().push(edges.last()) =~= edges);
    }
}

/// A choice keeps nothing of a list none of whose entries it takes.
pub proof fn lemma_keep_none(edges: Seq<EdgeView>, sel: Select)
    requires
        forall|i: int| 0 <= i < edges.len() ==> !selects(sel, #[trigger] edges[i]),
    ensures
        keep(edges, sel) == Seq::<EdgeView>::empty(),
    decreases edges.len(),
{
    if edges.len() > 0 {
        lemma_keep_none(edges.drop_last(), sel);
    }
}

/// An edge held by the table.
#[derive(Debug)]
pub struct Edge {
    pub source: String,
    pub code: String,
    pub target: String,
    pub is_temp: bool,
}

impl View for Edge {
    type V = EdgeView;

    open spec fn view(&self) -> EdgeView {
        EdgeView { source: self.source@, code: self.code@, target: self.target@, temp: self.is_temp }
    }
}

impl Clone for Edge {
    fn clone(&self) -> (r: Edge)
        ensures
            r@ == self@,
    {
        Edge {
            source: self.source.clone(),
            code: self.code.clone(),
            target: self.target.clone(),
            is_temp: self.is_temp,
        }
    }
}

/// The entries of a vector, each by its view.
pub open spec fn edge_views(v: Seq<Edge>) -> Seq<EdgeView> {
    Seq::new(v.len(), |i: int| v[i]@)
}

pub proof fn lemma_edge_views_push(v: Seq<Edge>, e: Edge)
    ensures
        edge_views(v.push(e)) == edge_views(v).push(e@),
{
    assert(edge_views(v.push(e)) =~= edge_views(v).push(e@));
}

/// An entry of the table: an edge, and the number under which the table
/// holds it.
struct Entry {
    edge: Edge,
    id: u64,
}

/// The edges of a vector of entries.
spec fn entry_edges(v: Seq<Entry>) -> Seq<EdgeView> {
    Seq::new(v.len(), |i: int| v[i].edge@)
}

/// The numbers of a vector of entries.
spec fn entry_ids(v: Seq<Entry>) -> Seq<u64> {
    Seq::new(v.len(), |i: int| v[i].id)
}

proof fn lemma_entries_push(v: Seq<Entry>, e: Entry)
    ensures
        entry_edges(v.push(e)) == entry_edges(v).push(e.edge@),
        entry_ids(v.push(e)) == entry_ids(v).push(e.id),
{
    assert(entry_edges(v.push(e)) =~= entry_edges(v).push(e.edge@));
    assert(entry_ids(v.push(e)) =~= entry_ids(v).push(e.id));
}

/// The numbers of the entries that `sel` takes, where `ids` holds the
/// number of each entry of `edges` at its place.
pub open spec fn keep_ids(edges: Seq<EdgeView>, ids: Seq<u64>, sel: Select) -> Seq<u64>
    decreases edges.len(),
{
    if edges.len() == 0 || ids.len() != edges.len() {
        Seq::empty()
    } else if selects(sel, edges.last()) {
        keep_ids(edges.drop_last(), ids.drop_last(), sel).push(ids.last())
    } else {
        keep_ids(edges.drop_last(), ids.drop_last(), sel)
    }
}

/// The table. Its view is the list of its entries, oldest first; the order
/// within a fibre, which is what readers observe, is the order of that list.
/// Each entry has a number, its key, which stays with it while the table
/// changes and is given to no other entry.
pub struct MemTable {
    entry_v: Vec<Entry>,
    made: u64,
}

impl View for MemTable {
    type V = Seq<EdgeView>;

    closed spec fn view(&self) -> Seq<EdgeView> {
        entry_edges(self.entry_v@)
    }
}

impl MemTable {
    /// Whether the numbers are in order: no entry has a number that is
    /// still to be given. It holds of a new table, and every function of the
    /// table keeps it.
    pub closed spec fn numbered(&self) -> bool {
        forall|i: int|
            0 <= i < self.entry_v@.len() ==> (#[trigger] self.entry_v@[i]).id < self.made
                || self.made == u64::MAX
    }

    /// The numbers of the entries, each at the place of its entry.
    pub closed spec fn ids(&self) -> Seq<u64> {
        entry_ids(self.entry_v@)
    }

    /// The number that the next entry gets.
    pub closed spec fn made(&self) -> u64 {
        self.made
    }

    /// There is a number for each entry.
    pub proof fn lemma_ids_len(&self)
        ensures
            self.ids().len() == self@.len(),
    {
    }

    /// An empty table.
    pub fn new() -> (r: Self)
        ensures
            r@ == Seq::<EdgeView>::empty(),
            r.ids() == Seq::<u64>::empty(),
            r.made() == 0,
            r.numbered(),
    {
        let r = Self { entry_v: Vec::new(), made: 0 };
        assert(r@ =~= Seq::<EdgeView>::empty());
        assert(r.ids() =~= Seq::<u64>::empty());
        r
    }

    fn insert(&mut self, source: &str, code: &str, target: &str, is_temp: bool) -> (r: u64)
        ensures
            final(self)@ == old(self)@.push(
                EdgeView { source: source@, code: code@, target: target@, temp: is_temp },
            ),
            r == old(self).made(),
            final(self).ids() == old(self).ids().push(r),
            final(self).made() == if r < u64::MAX {
                (r + 1) as u64
            } else {
                r
            },
            old(self).numbered() ==> final(self).numbered(),
            old(self).numbered() && r < u64::MAX ==> !old(self).ids().contains(r),
    {
        let id = self.made;
        let entry = Entry {
            edge: Edge {
                source: source.to_owned(),
                code: code.to_owned(),
                target: target.to_owned(),
                is_temp,
            },
            id,
        };
        proof {
            lemma_entries_push(self.entry_v@, entry);
            if old(self).numbered() && id < u64::MAX && old(self).ids().contains(id) {
                let i = choose|i: int| 0 <= i < old(self).ids().len() && old(self).ids()[i] == id;
                assert(self.entry_v@[i].id == id);
            }
        }
        if id < u64::MAX {
            self.made = id + 1;
        }
        self.entry_v.push(entry);
        proof {
            if old(self).numbered() {
                assert forall|i: int| 0 <= i < self.entry_v@.len() implies (
                #[trigger] self.entry_v@[i]).id < self.made || self.made == u64::MAX by {
                    if i < old(self).entry_v@.len() {
                        assert(self.entry_v@[i] == old(self).entry_v@[i]);
                    }
                }
            }
        }
        id
    }

    /// Records an edge that was read from the store. It is held like a
    /// temporary one, so that a commit does not write it again.
    pub fn append_exists_edge(&mut self, source: &str, code: &str, target: &str)
        ensures
            final(self)@ == old(self)@.push(
                EdgeView { source: source@, code: code@, target: target@, temp: true },
            ),
            final(self).ids() == old(self).ids().push(old(self).made()),
            old(self).numbered() ==> final(self).numbered(),
    {
        let _ = self.insert(source, code, target, true);
    }

    /// Adds an edge that the next commit is to write to the store, and
    /// gives its key: the number of the entry, in decimal. The key is new to the
    /// table, unless as many entries were made as there are numbers.
    pub fn insert_edge(&mut self, source: &str, code: &str, target: &str) -> (r: String)
        ensures
            final(self)@ == old(self)@.push(
                EdgeView { source: source@, code: code@, target: target@, temp: false },
            ),
            r@ == decimal(old(self).made() as nat),
            final(self).ids() == old(self).ids().push(old(self).made()),
            final(self).made() == if old(self).made() < u64::MAX {
                (old(self).made() + 1) as u64
            } else {
                old(self).made()
            },
            old(self).numbered() ==> final(self).numbered(),
            old(self).numbered() && old(self).made() < u64::MAX ==> !old(self).ids().contains(
                old(self).made(),
            ),
    {
        let id = self.insert(source, code, target, false);
        format_nat(id)
    }

    /// Adds an edge that stays in the session, and gives its key, as
    /// `insert_edge` does.
    pub fn insert_temp_edge(&mut self, source: &str, code: &str, target: &str) -> (r: String)
        ensures
            final(self)@ == old(self)@.push(
                EdgeView { source: source@, code: code@, target: target@, temp: true },
            ),
            r@ == decimal(old(self).made() as nat),
            final(self).ids() == old(self).ids().push(old(self).made()),
            final(self).made() == if old(self).made() < u64::MAX {
                (old(self).made() + 1) as u64
            } else {
                old(self).made()
            },
            old(self).numbered() ==> final(self).numbered(),
            old(self).numbered() && old(self).made() < u64::MAX ==> !old(self).ids().contains(
                old(self).made(),
            ),
    {
        let id = self.insert(source, code, target, true);
        format_nat(id)
    }

    /// The number of entries.
    pub fn len(&self) -> (n: usize)
        ensures
            n == self@.len(),
    {
        self.entry_v.len()
    }

    /// The newest target under `source` and `code`, if there is one.
    pub fn get_target(&self, source: &str, code: &str) -> (r: Option<String>)
        ensures
            r is Some <==> targets_of(self@, source@, code@).len() > 0,
            r is Some ==> r.unwrap()@ == targets_of(self@, source@, code@).last(),
    {
        let ghost sel = Select::Forward { source: source@, code: code@ };
        let mut i: usize = self.entry_v.len();
        proof {
            assert(self@.take(i as int) =~= self@);
        }
        while i > 0
            invariant
                i <= self.entry_v.len(),
                sel == (Select::Forward { source: source@, code: code@ }),
                keep(self@, sel) == keep(self@.take(i as int), sel),
            decreases i,
        {
            let e = &self.entry_v[i - 1].edge;
            proof {
                assert(self@.take(i as int).drop_last() =~= self@.take(i - 1));
                assert(self@.take(i as int).last() == e@);
            }
            if same_text(e.source.as_str(), source) && same_text(e.code.as_str(), code) {
                return Some(e.target.clone());
            }
            i -= 1;
        }
        None
    }

    /// The targets under `source` and `code`, oldest first.
    pub fn get_target_v_unchecked(&self, source: &str, code: &str) -> (r: Vec<String>)
        ensures
            crate::text::texts(r@) == targets_of(self@, source@, code@),
    {
        let ghost sel = Select::Forward { source: source@, code: code@ };
        let mut arr: Vec<String> = Vec::new();
        let mut i: usize = 0;
        proof {
            assert(crate::text::texts(arr@) =~= targets_of(self@.take(0), source@, code@));
        }
        while i < self.entry_v.len()
            invariant
                i <= self.entry_v.len(),
                sel == (Select::Forward { source: source@, code: code@ }),
                crate::text::texts(arr@) == targets_of(self@.take(i as int), source@, code@),
            decreases self.entry_v.len() - i,
        {
            let e = &self.entry_v[i].edge;
            proof {
                assert(self@.take(i + 1) =~= self@.take(i as int).push(e@));
                lemma_keep_push(self@.take(i as int), e@, sel);
            }
            if same_text(e.source.as_str(), source) && same_text(e.code.as_str(), code) {
                let t = e.target.clone();
                proof {
                    crate::text::lemma_texts_push(arr@, t);
                    lemma_targets_in_push(keep(self@.take(i as int), sel), e@);
                }
                arr.push(t);
            }
            i += 1;
        }
        proof {
            assert(self@.take(self.entry_v.len() as int) =~= self@);
        }
        arr
    }

    /// The sources under `code` and `target`, oldest first.
    pub fn get_source_v_unchecked(&self, code: &str, target: &str) -> (r: Vec<String>)
        ensures
            crate::text::texts(r@) == sources_of(self@, code@, target@),
    {
        let ghost sel = Select::Backward { code: code@, target: target@ };
        let mut arr: Vec<String> = Vec::new();
        let mut i: usize = 0;
        proof {
            assert(crate::text::texts(arr@) =~= sources_of(self@.take(0), code@, target@));
        }
        while i < self.entry_v.len()
            invariant
                i <= self.entry_v.len(),
                sel == (Select::Backward { code: code@, target: target@ }),
                crate::text::texts(arr@) == sources_of(self@.take(i as int), code@, target@),
            decreases self.entry_v.len() - i,
        {
            let e = &self.entry_v[i].edge;
            proof {
                assert(self@.take(i + 1) =~= self@.take(i as int).push(e@));
                lemma_keep_push(self@.take(i as int), e@, sel);
            }
            if same_text(e.code.as_str(), code) && same_text(e.target.as_str(), target) {
                let s = e.source.clone();
                proof {
                    crate::text::lemma_texts_push(arr@, s);
                    lemma_sources_in_push(keep(self@.take(i as int), sel), e@);
                }
                arr.push(s);
            }
            i += 1;
        }
        proof {
            assert(self@.take(self.entry_v.len() as int) =~= self@);
        }
        arr
    }

    /// The newest source under `code` and `target`, if there is one.
    pub fn get_source(&self, code: &str, target: &str) -> (r: Option<String>)
        ensures
            r is Some <==> sources_of(self@, code@, target@).len() > 0,
            r is Some ==> r.unwrap()@ == sources_of(self@, code@, target@).last(),
    {
        let ghost sel = Select::Backward { code: code@, target: target@ };
        let mut i: usize = self.entry_v.len();
        proof {
            assert(self@.take(i as int) =~= self@);
        }
        while i > 0
            invariant
                i <= self.entry_v.len(),
                sel == (Select::Backward { code: code@, target: target@ }),
                keep(self@, sel) == keep(self@.take(i as int), sel),
            decreases i,
        {
            let e = &self.entry_v[i - 1].edge;
            proof {
                assert(self@.take(i as int).drop_last() =~= self@.take(i - 1));
                assert(self@.take(i as int).last() == e@);
            }
            if same_text(e.code.as_str(), code) && same_text(e.target.as_str(), target) {
                return Some(e.source.clone());
            }
            i -= 1;
        }
        None
    }

    /// The entries that `pick` takes, copied in their order.
    fn copies(&self, pick: Pick<'_>) -> (r: Vec<Edge>)
        ensures
            edge_views(r@) == keep(self@, pick@),
    {
        let mut out: Vec<Edge> = Vec::new();
        let mut i: usize = 0;
        proof {
            assert(edge_views(out@) =~= keep(self@.take(0), pick@));
        }
        while i < self.entry_v.len()
            invariant
                i <= self.entry_v.len(),
                edge_views(out@) == keep(self@.take(i as int), pick@),
            decreases self.entry_v.len() - i,
        {
            let e = &self.entry_v[i].edge;
            proof {
                assert(self@.take(i + 1) =~= self@.take(i as int).push(e@));
                lemma_keep_push(self@.take(i as int), e@, pick@);
            }
            if pick.takes(e) {
                let c = e.clone();
                proof {
                    lemma_edge_views_push(out@, c);
                }
                out.push(c);
            }
            i += 1;
        }
        proof {
            assert(self@.take(self.entry_v.len() as int) =~= self@);
        }
        out
    }

    /// The entries that `pick` takes, with their numbers, in their order.
    fn kept(&self, pick: Pick<'_>) -> (r: Vec<Entry>)
        ensures
            entry_edges(r@) == keep(self@, pick@),
            entry_ids(r@) == keep_ids(self@, self.ids(), pick@),
            forall|k: int|
                0 <= k < r@.len() ==> exists|j: int|
                    0 <= j < self.entry_v@.len() && (#[trigger] r@[k]).id == self.entry_v@[j].id,
    {
        let mut out: Vec<Entry> = Vec::new();
        let mut i: usize = 0;
        let ghost ids = self.ids();
        proof {
            assert(entry_edges(out@) =~= keep(self@.take(0), pick@));
            assert(entry_ids(out@) =~= keep_ids(self@.take(0), ids.take(0), pick@));
        }
        while i < self.entry_v.len()
            invariant
                i <= self.entry_v.len(),
                ids == self.ids(),
                entry_edges(out@) == keep(self@.take(i as int), pick@),
                entry_ids(out@) == keep_ids(self@.take(i as int), ids.take(i as int), pick@),
                forall|k: int|
                    0 <= k < out@.len() ==> exists|j: int|
                        0 <= j < self.entry_v@.len() && (#[trigger] out@[k]).id
                            == self.entry_v@[j].id,
            decreases self.entry_v.len() - i,
        {
            let e = &self.entry_v[i];
            proof {
                assert(self@.take(i + 1) =~= self@.take(i as int).push(e.edge@));
                assert(self@.take(i + 1).drop_last() =~= self@.take(i as int));
                assert(ids.take(i + 1).drop_last() =~= ids.take(i as int));
                assert(ids.take(i + 1).last() == e.id);
                lemma_keep_push(self@.take(i as int), e.edge@, pick@);
            }
            if pick.takes(&e.edge) {
                let c = Entry { edge: e.edge.clone(), id: e.id };
                proof {
                    lemma_entries_push(out@, c);
                }
                let ghost before = out@;
                out.push(c);
                proof {
                    assert forall|k: int| 0 <= k < out@.len() implies exists|j: int|
                        0 <= j < self.entry_v@.len() && (#[trigger] out@[k]).id
                            == self.entry_v@[j].id by {
                        if k < before.len() {
                            assert(out@[k] == before[k]);
                        } else {
                            assert(out@[k].id == self.entry_v@[i as int].id);
                        }
                    }
                }
            }
            i += 1;
        }
        proof {
            assert(self@.take(self.entry_v.len() as int) =~= self@);
            assert(ids.take(self.entry_v.len() as int) =~= ids);
        }
        out
    }

    /// Puts `entry_v`, entries of this table, in the place of its entries.
    fn keep_only(&mut self, entry_v: Vec<Entry>)
        requires
            forall|k: int|
                0 <= k < entry_v@.len() ==> exists|j: int|
                    0 <= j < old(self).entry_v@.len() && (#[trigger] entry_v@[k]).id == old(
                        self,
                    ).entry_v@[j].id,
        ensures
            final(self)@ == entry_edges(entry_v@),
            final(self).ids() == entry_ids(entry_v@),
            final(self).made() == old(self).made(),
            old(self).numbered() ==> final(self).numbered(),
    {
        proof {
            if self.numbered() {
                assert forall|k: int| 0 <= k < entry_v@.len() implies (#[trigger] entry_v@[k]).id
                    < self.made || self.made == u64::MAX by {
                    let j = choose|j: int|
                        0 <= j < self.entry_v@.len() && entry_v@[k].id == self.entry_v@[j].id;
                    assert(self.entry_v@[j].id < self.made || self.made == u64::MAX);
                }
            }
        }
        self.entry_v = entry_v;
    }

    /// Drops every entry that leaves `source` under `code`. The entries
    /// that stay keep their numbers.
    pub fn delete_edge_with_source_code(&mut self, source: &str, code: &str)
        ensures
            final(self)@ == keep(old(self)@, Select::NotForward { source: source@, code: code@ }),
            final(self).ids() == keep_ids(
                old(self)@,
                old(self).ids(),
                Select::NotForward { source: source@, code: code@ },
            ),
            final(self).made() == old(self).made(),
            old(self).numbered() ==> final(self).numbered(),
    {
        let entry_v = self.kept(Pick::NotForward { source, code });
        self.keep_only(entry_v);
    }

    /// Drops every entry that reaches `target` under `code`. The entries
    /// that stay keep their numbers.
    pub fn delete_edge_with_code_target(&mut self, code: &str, target: &str)
        ensures
            final(self)@ == keep(old(self)@, Select::NotBackward { code: code@, target: target@ }),
            final(self).ids() == keep_ids(
                old(self)@,
                old(self).ids(),
                Select::NotBackward { code: code@, target: target@ },
            ),
            final(self).made() == old(self).made(),
            old(self).numbered() ==> final(self).numbered(),
    {
        let entry_v = self.kept(Pick::NotBackward { code, target });
        self.keep_only(entry_v);
    }

    /// Drops every entry none of whose names is temporary: what the table
    /// holds of the store, read or to be written. The entries that stay keep
    /// their numbers.
    pub fn delete_persistent(&mut self)
        ensures
            final(self)@ == keep(old(self)@, Select::Session),
            final(self).ids() == keep_ids(old(self)@, old(self).ids(), Select::Session),
            final(self).made() == old(self).made(),
            old(self).numbered() ==> final(self).numbered(),
    {
        let entry_v = self.kept(Pick::Session);
        self.keep_only(entry_v);
    }

    /// The entries that are to be written to the store, oldest first.
    pub fn committed(&self) -> (r: Vec<Edge>)
        ensures
            edge_views(r@) == keep(self@, Select::Committed),
    {
        self.copies(Pick::Committed)
    }

    /// Empties the table and hands out the entries that are to be written
    /// to the store, oldest first. The temporary ones are dropped. No number
    /// that was given is given again.
    pub fn take(&mut self) -> (r: Vec<Edge>)
        ensures
            edge_views(r@) == keep(old(self)@, Select::Committed),
            final(self)@ == Seq::<EdgeView>::empty(),
            final(self).ids() == Seq::<u64>::empty(),
            final(self).made() == old(self).made(),
            final(self).numbered(),
    {
        let r = self.copies(Pick::Committed);
        self.entry_v = Vec::new();
        assert(self@ =~= Seq::<EdgeView>::empty());
        assert(self.ids() =~= Seq::<u64>::empty());
        r
    }

    /// Hands out the entries that are to be written to the store, oldest
    /// first, and keeps the temporary ones, in their order and with their
    /// numbers.
    pub fn take_some(&mut self) -> (r: Vec<Edge>)
        ensures
            edge_views(r@) == keep(old(self)@, Select::Committed),
            final(self)@ == keep(old(self)@, Select::Temp),
            final(self).ids() == keep_ids(old(self)@, old(self).ids(), Select::Temp),
            final(self).made() == old(self).made(),
            old(self).numbered() ==> final(self).numbered(),
    {
        let r = self.copies(Pick::Committed);
        let entry_v = self.kept(Pick::Temp);
        self.keep_only(entry_v);
        r
    }
}

/// A choice of entries, as the table's own functions hand it around.
enum Pick<'a> {
    NotForward { source: &'a str, code: &'a str },
    NotBackward { code: &'a str, target: &'a str },
    Committed,
    Temp,
    Session,
}

impl<'a> View for Pick<'a> {
    type V = Select;

    closed spec fn view(&self) -> Select {
        match self {
            Pick::NotForward { source, code } => Select::NotForward { source: source@, code: code@ },
            Pick::NotBackward { code, target } => Select::NotBackward {
                code: code@,
                target: target@,
            },
            Pick::Committed => Select::Committed,
            Pick::Temp => Select::Temp,
            Pick::Session => Select::Session,
        }
    }
}

impl<'a> Pick<'a> {
    fn takes(&self, e: &Edge) -> (r: bool)
        ensures
            r == selects(self@, e@),
    {
        match self {
            Pick::NotForward { source, code } => !(same_text(e.source.as_str(), source)
                && same_text(e.code.as_str(), code)),
            Pick::NotBackward { code, target } => !(same_text(e.code.as_str(), code) && same_text(
                e.target.as_str(),
                target,
            )),
            Pick::Committed => !e.is_temp,
            Pick::Temp => e.is_temp,
            Pick::Session => is_temp(e.source.as_str(), e.code.as_str(), e.target.as_str()),
        }
    }
}

} // verus!

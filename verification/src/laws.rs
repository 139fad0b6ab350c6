//! What holds of reading after writing, for every data manager that keeps
//! the contract of `AsDataManager`, and what holds of what the buffering
//! manager hands to the store.

use crate::auth::{may_see, stamp_paper, stamp_pen, AuthView};
use crate::buffer::{
    appended_to, fresh, kept_rows, known, plan, read, seeded, seen, seen_edge, seen_edges, set_to,
    settled, struck, temp_fibre, wiped, BufferView, FibreView, LookupView,
};
use crate::data::{all_but, appended, fibre_of, new_edges, only, replaced};
use crate::path::{temp_edge, temp_name};
use crate::sql::{
    hop, insert_statement, lemma_insert_binds_row, select_binds, select_sql, StatementView,
};
use crate::function::non_empty;
use crate::mem_table::{
    keep, lemma_keep_all, lemma_keep_concat, lemma_keep_none, lemma_keep_selected,
    lemma_sources_in_concat, lemma_targets_in_concat, selects, sources_in, targets_in, EdgeView,
    Select,
};
use crate::path::{PathView, StepView};
use crate::resolver::{assigned, hop_of, reached, resolve, resolve_each, written, written_each};
use crate::sql::is_forward;
use vstd::prelude::*;

verus! {

/// The new edges of a fibre belong to it, all of them.
pub proof fn lemma_new_edges_in_fibre(
    forward: bool,
    node: Seq<char>,
    code: Seq<char>,
    items: Seq<Seq<char>>,
)
    ensures
        keep(new_edges(forward, node, code, items), only(forward, node, code)) == new_edges(
            forward,
            node,
            code,
            items,
        ),
        keep(new_edges(forward, node, code, items), all_but(forward, node, code)) == Seq::<
            EdgeView,
        >::empty(),
        forward ==> targets_in(new_edges(forward, node, code, items)) == items,
        !forward ==> sources_in(new_edges(forward, node, code, items)) == items,
{
    let fresh = new_edges(forward, node, code, items);
    assert forall|i: int| 0 <= i < fresh.len() implies selects(
        only(forward, node, code),
        #[trigger] fresh[i],
    ) by {}
    assert forall|i: int| 0 <= i < fresh.len() implies !selects(
        all_but(forward, node, code),
        #[trigger] fresh[i],
    ) by {}
    lemma_keep_all(fresh, only(forward, node, code));
    lemma_keep_none(fresh, all_but(forward, node, code));
    if forward {
        assert(targets_in(fresh) =~= items);
    } else {
        assert(sources_in(fresh) =~= items);
    }
}

/// What is left when a fibre is taken away holds nothing of the fibre, and
/// taking the fibre away once more changes nothing.
pub proof fn lemma_fibre_gone(edges: Seq<EdgeView>, forward: bool, node: Seq<char>, code: Seq<char>)
    ensures
        keep(keep(edges, all_but(forward, node, code)), only(forward, node, code)) == Seq::<
            EdgeView,
        >::empty(),
        keep(keep(edges, all_but(forward, node, code)), all_but(forward, node, code)) == keep(
            edges,
            all_but(forward, node, code),
        ),
{
    let rest = keep(edges, all_but(forward, node, code));
    lemma_keep_selected(edges, all_but(forward, node, code));
    assert forall|i: int| 0 <= i < rest.len() implies !selects(
        only(forward, node, code),
        #[trigger] rest[i],
    ) by {}
    lemma_keep_none(rest, only(forward, node, code));
    lemma_keep_all(rest, all_but(forward, node, code));
}

/// The fibre as the edges hold it, by the choice of its edges.
proof fn lemma_fibre_by_choice(edges: Seq<EdgeView>, forward: bool, node: Seq<char>, code: Seq<char>)
    ensures
        forward ==> fibre_of(edges, forward, node, code) == targets_in(
            keep(edges, only(forward, node, code)),
        ),
        !forward ==> fibre_of(edges, forward, node, code) == sources_in(
            keep(edges, only(forward, node, code)),
        ),
{
}

/// A fibre that was set holds what it was set to.
pub proof fn lemma_fibre_after_set(
    edges: Seq<EdgeView>,
    forward: bool,
    node: Seq<char>,
    code: Seq<char>,
    items: Seq<Seq<char>>,
)
    ensures
        fibre_of(replaced(edges, forward, node, code, items), forward, node, code) == items,
{
    let rest = keep(edges, all_but(forward, node, code));
    let fresh = new_edges(forward, node, code, items);
    lemma_fibre_gone(edges, forward, node, code);
    lemma_new_edges_in_fibre(forward, node, code, items);
    lemma_keep_concat(rest, fresh, only(forward, node, code));
    lemma_fibre_by_choice(rest + fresh, forward, node, code);
    assert(Seq::<EdgeView>::empty() + fresh =~= fresh);
}

/// Setting a fibre twice to the same is setting it once.
pub proof fn lemma_set_twice(
    edges: Seq<EdgeView>,
    forward: bool,
    node: Seq<char>,
    code: Seq<char>,
    items: Seq<Seq<char>>,
)
    ensures
        replaced(replaced(edges, forward, node, code, items), forward, node, code, items)
            == replaced(edges, forward, node, code, items),
{
    let rest = keep(edges, all_but(forward, node, code));
    let fresh = new_edges(forward, node, code, items);
    lemma_fibre_gone(edges, forward, node, code);
    lemma_new_edges_in_fibre(forward, node, code, items);
    lemma_keep_concat(rest, fresh, all_but(forward, node, code));
    assert(rest + Seq::<EdgeView>::empty() =~= rest);
}

/// A fibre to which was appended holds what it held, then what was
/// appended.
pub proof fn lemma_fibre_after_append(
    edges: Seq<EdgeView>,
    forward: bool,
    node: Seq<char>,
    code: Seq<char>,
    items: Seq<Seq<char>>,
)
    ensures
        fibre_of(appended(edges, forward, node, code, items), forward, node, code) == fibre_of(
            edges,
            forward,
            node,
            code,
        ) + items,
{
    let fresh = new_edges(forward, node, code, items);
    lemma_new_edges_in_fibre(forward, node, code, items);
    lemma_keep_concat(edges, fresh, only(forward, node, code));
    lemma_fibre_by_choice(edges + fresh, forward, node, code);
    lemma_fibre_by_choice(edges, forward, node, code);
    if forward {
        lemma_targets_in_concat(keep(edges, only(forward, node, code)), fresh);
    } else {
        lemma_sources_in_concat(keep(edges, only(forward, node, code)), fresh);
    }
}

pub proof fn lemma_non_empty_concat(a: Seq<Seq<char>>, b: Seq<Seq<char>>)
    ensures
        non_empty(a + b) == non_empty(a) + non_empty(b),
    decreases b.len(),
{
    if b.len() == 0 {
        assert(a + b =~= a);
        assert(non_empty(a) + non_empty(b) =~= non_empty(a));
    } else {
        lemma_non_empty_concat(a, b.drop_last());
        assert((a + b).drop_last() =~= a + b.drop_last());
        assert((a + b).last() == b.last());
        if b.last().len() > 0 {
            assert(non_empty(a) + non_empty(b.drop_last()).push(b.last()) =~= (non_empty(a)
                + non_empty(b.drop_last())).push(b.last()));
        }
    }
}

/// Without hops each node that is not empty leads to itself.
pub proof fn lemma_resolve_each_at_end(edges: Seq<EdgeView>, nodes: Seq<Seq<char>>)
    ensures
        resolve_each(edges, nodes, Seq::empty()) == non_empty(nodes),
    decreases nodes.len(),
{
    let none = Seq::<StepView>::empty();
    if nodes.len() > 0 {
        lemma_resolve_each_at_end(edges, nodes.drop_last());
        assert(resolve_each(edges, nodes, none) == resolve_each(edges, nodes.drop_last(), none)
            + resolve(edges, nodes.last(), none));
        assert(resolve(edges, nodes.last(), none) == if nodes.last().len() == 0 {
            Seq::<Seq<char>>::empty()
        } else {
            seq![nodes.last()]
        });
        if nodes.last().len() > 0 {
            assert(non_empty(nodes.drop_last()) + seq![nodes.last()] =~= non_empty(
                nodes.drop_last(),
            ).push(nodes.last()));
        } else {
            assert(non_empty(nodes.drop_last()) + Seq::<Seq<char>>::empty() =~= non_empty(
                nodes.drop_last(),
            ));
        }
    }
}

/// Whether no element of a list is empty.
pub open spec fn all_filled(list: Seq<Seq<char>>) -> bool {
    forall|i: int| 0 <= i < list.len() ==> (#[trigger] list[i]).len() > 0
}

/// No endpoint is empty.
pub proof fn lemma_endpoints_not_empty(edges: Seq<EdgeView>, root: Seq<char>, steps: Seq<StepView>)
    ensures
        all_filled(resolve(edges, root, steps)),
    decreases steps.len(), 0nat, 0nat,
{
    if root.len() == 0 {
        assert(resolve(edges, root, steps) == Seq::<Seq<char>>::empty());
    } else if steps.len() == 0 {
        assert(resolve(edges, root, steps) == seq![root]);
    } else {
        lemma_endpoints_each_not_empty(edges, hop_of(edges, root, steps[0]), steps.skip(1));
        assert(resolve(edges, root, steps) == resolve_each(
            edges,
            hop_of(edges, root, steps[0]),
            steps.skip(1),
        ));
    }
}

proof fn lemma_endpoints_each_not_empty(
    edges: Seq<EdgeView>,
    nodes: Seq<Seq<char>>,
    steps: Seq<StepView>,
)
    ensures
        all_filled(resolve_each(edges, nodes, steps)),
    decreases steps.len(), 1nat, nodes.len(),
{
    if nodes.len() > 0 {
        lemma_endpoints_each_not_empty(edges, nodes.drop_last(), steps);
        lemma_endpoints_not_empty(edges, nodes.last(), steps);
        let a = resolve_each(edges, nodes.drop_last(), steps);
        let b = resolve(edges, nodes.last(), steps);
        assert(resolve_each(edges, nodes, steps) == a + b);
        assert forall|i: int| 0 <= i < (a + b).len() implies (#[trigger] (a + b)[i]).len() > 0 by {
            if i < a.len() {
                assert((a + b)[i] == a[i]);
            } else {
                assert((a + b)[i] == b[i - a.len()]);
            }
        }
    } else {
        assert(resolve_each(edges, nodes, steps) == Seq::<Seq<char>>::empty());
    }
}

proof fn lemma_resolve_each_concat(
    edges: Seq<EdgeView>,
    a: Seq<Seq<char>>,
    b: Seq<Seq<char>>,
    steps: Seq<StepView>,
)
    ensures
        resolve_each(edges, a + b, steps) == resolve_each(edges, a, steps) + resolve_each(
            edges,
            b,
            steps,
        ),
    decreases b.len(),
{
    if b.len() == 0 {
        assert(a + b =~= a);
        assert(resolve_each(edges, a, steps) + resolve_each(edges, b, steps) =~= resolve_each(
            edges,
            a,
            steps,
        ));
    } else {
        lemma_resolve_each_concat(edges, a, b.drop_last(), steps);
        assert((a + b).drop_last() =~= a + b.drop_last());
        assert((a + b).last() == b.last());
        assert(resolve_each(edges, a, steps) + (resolve_each(edges, b.drop_last(), steps)
            + resolve(edges, b.last(), steps)) =~= resolve_each(edges, a, steps) + resolve_each(
            edges,
            b.drop_last(),
            steps,
        ) + resolve(edges, b.last(), steps));
    }
}

/// A path leads to where its last hop leads from the endpoints of the
/// path without that hop.
pub proof fn lemma_resolve_by_last_hop(edges: Seq<EdgeView>, root: Seq<char>, steps: Seq<StepView>)
    requires
        steps.len() > 0,
    ensures
        resolve(edges, root, steps) == resolve_each(
            edges,
            resolve(edges, root, steps.drop_last()),
            seq![steps.last()],
        ),
    decreases steps.len(), 0nat, 0nat,
{
    let last = seq![steps.last()];
    let none = Seq::<Seq<char>>::empty();
    if root.len() == 0 {
        assert(resolve(edges, root, steps.drop_last()) == none);
    } else if steps.len() == 1 {
        assert(steps.drop_last() =~= Seq::<StepView>::empty());
        assert(steps =~= last);
        let one = seq![root];
        assert(resolve(edges, root, steps.drop_last()) == one);
        assert(one.drop_last() =~= none);
        assert(resolve_each(edges, one, last) == resolve_each(edges, one.drop_last(), last)
            + resolve(edges, one.last(), last));
        assert(none + resolve(edges, root, last) =~= resolve(edges, root, last));
    } else {
        lemma_resolve_each_by_last_hop(edges, hop_of(edges, root, steps[0]), steps.skip(1));
        assert(steps.skip(1).drop_last() =~= steps.drop_last().skip(1));
        assert(steps.skip(1).last() == steps.last());
        assert(steps.drop_last()[0] == steps[0]);
    }
}

proof fn lemma_resolve_each_by_last_hop(
    edges: Seq<EdgeView>,
    nodes: Seq<Seq<char>>,
    steps: Seq<StepView>,
)
    requires
        steps.len() > 0,
    ensures
        resolve_each(edges, nodes, steps) == resolve_each(
            edges,
            resolve_each(edges, nodes, steps.drop_last()),
            seq![steps.last()],
        ),
    decreases steps.len(), 1nat, nodes.len(),
{
    if nodes.len() > 0 {
        lemma_resolve_each_by_last_hop(edges, nodes.drop_last(), steps);
        lemma_resolve_by_last_hop(edges, nodes.last(), steps);
        lemma_resolve_each_concat(
            edges,
            resolve_each(edges, nodes.drop_last(), steps.drop_last()),
            resolve(edges, nodes.last(), steps.drop_last()),
            seq![steps.last()],
        );
    }
}

/// Where the path without its last hop leads to one endpoint, the path
/// leads to the fibre of that endpoint, without the empty strings in it, and
/// assigning to the path writes to that fibre.
pub proof fn lemma_path_to_one_fibre(edges: Seq<EdgeView>, path: PathView, node: Seq<char>)
    requires
        path.steps.len() > 0,
        resolve(edges, path.root, path.steps.drop_last()) == seq![node],
    ensures
        node.len() > 0,
        reached(edges, path) == non_empty(hop_of(edges, node, path.steps.last())),
        forall|set: bool, items: Seq<Seq<char>>| #[trigger]
            assigned(edges, path, set, items) == written(
                edges,
                node,
                path.steps.last(),
                set,
                items,
            ),
{
    let last = seq![path.steps.last()];
    let one = seq![node];
    let none = Seq::<Seq<char>>::empty();
    lemma_endpoints_not_empty(edges, path.root, path.steps.drop_last());
    assert(one[0].len() > 0);
    assert(one[0] == node);
    lemma_resolve_by_last_hop(edges, path.root, path.steps);
    assert(one.drop_last() =~= none);
    assert(resolve_each(edges, one, last) == resolve_each(edges, one.drop_last(), last) + resolve(
        edges,
        one.last(),
        last,
    ));
    assert(none + resolve(edges, node, last) =~= resolve(edges, node, last));
    assert(last.skip(1) =~= Seq::<StepView>::empty());
    lemma_resolve_each_at_end(edges, hop_of(edges, node, path.steps.last()));
    assert forall|set: bool, items: Seq<Seq<char>>| #[trigger]
        assigned(edges, path, set, items) == written(
            edges,
            node,
            path.steps.last(),
            set,
            items,
        ) by {
        assert(written_each(edges, one.drop_last(), path.steps.last(), set, items) == edges);
    }
}

/// Setting is idempotent: after a path was set to `items`, and set to
/// `items` again, it leads to the elements of `items` that are not empty, and
/// the second setting has changed nothing. This is said of a path that leads,
/// without its last hop, to one endpoint, before the setting and after it: a
/// path of one hop with a root does.
pub proof fn lemma_set_is_idempotent(
    edges: Seq<EdgeView>,
    path: PathView,
    items: Seq<Seq<char>>,
    node: Seq<char>,
)
    requires
        path.steps.len() > 0,
        resolve(edges, path.root, path.steps.drop_last()) == seq![node],
        resolve(assigned(edges, path, true, items), path.root, path.steps.drop_last()) == seq![
            node,
        ],
    ensures
        reached(assigned(assigned(edges, path, true, items), path, true, items), path) == non_empty(
            items,
        ),
        assigned(assigned(edges, path, true, items), path, true, items) == assigned(
            edges,
            path,
            true,
            items,
        ),
{
    let step = path.steps.last();
    let once = assigned(edges, path, true, items);
    lemma_path_to_one_fibre(edges, path, node);
    lemma_path_to_one_fibre(once, path, node);
    assert(once == written(edges, node, step, true, items));
    assert(assigned(once, path, true, items) == written(once, node, step, true, items));
    lemma_set_twice(edges, is_forward(step), node, step.code, items);
    lemma_fibre_after_set(edges, is_forward(step), node, step.code, items);
}

/// Appending keeps the order: after `a` was appended to a path, and then
/// `b`, the path leads to what it led to, then to `a`, then to `b`. An empty
/// string is no endpoint, so it does not show. This is said of a path that
/// leads, without its last hop, to one endpoint, before the appending and after
/// it: a path of one hop with a root does.
pub proof fn lemma_append_keeps_order(
    edges: Seq<EdgeView>,
    path: PathView,
    a: Seq<char>,
    b: Seq<char>,
    node: Seq<char>,
)
    requires
        path.steps.len() > 0,
        resolve(edges, path.root, path.steps.drop_last()) == seq![node],
        resolve(assigned(edges, path, false, seq![a]), path.root, path.steps.drop_last()) == seq![
            node,
        ],
        resolve(
            assigned(assigned(edges, path, false, seq![a]), path, false, seq![b]),
            path.root,
            path.steps.drop_last(),
        ) == seq![node],
    ensures
        reached(assigned(assigned(edges, path, false, seq![a]), path, false, seq![b]), path)
            == reached(edges, path) + non_empty(seq![a, b]),
        a.len() > 0 && b.len() > 0 ==> reached(
            assigned(assigned(edges, path, false, seq![a]), path, false, seq![b]),
            path,
        ) == reached(edges, path) + seq![a, b],
{
    let step = path.steps.last();
    let forward = is_forward(step);
    let once = assigned(edges, path, false, seq![a]);
    let twice = assigned(once, path, false, seq![b]);
    lemma_path_to_one_fibre(edges, path, node);
    lemma_path_to_one_fibre(once, path, node);
    lemma_path_to_one_fibre(twice, path, node);
    assert(once == written(edges, node, step, false, seq![a]));
    assert(twice == written(once, node, step, false, seq![b]));
    lemma_fibre_after_append(edges, forward, node, step.code, seq![a]);
    lemma_fibre_after_append(once, forward, node, step.code, seq![b]);
    let before = hop_of(edges, node, step);
    assert(before + seq![a] + seq![b] =~= before + seq![a, b]);
    lemma_non_empty_concat(before, seq![a, b]);
    if a.len() > 0 && b.len() > 0 {
        assert(seq![a, b].drop_last() =~= seq![a]);
        assert(seq![a].drop_last() =~= Seq::<Seq<char>>::empty());
        assert(non_empty(Seq::<Seq<char>>::empty()) =~= Seq::<Seq<char>>::empty());
        assert(non_empty(seq![a]) =~= seq![a]);
        assert(non_empty(seq![a, b]) =~= seq![a, b]);
    }
}

/// A path of one hop with a root leads, without its hop, to the root, and
/// no assignment changes that.
pub proof fn lemma_one_hop(edges: Seq<EdgeView>, path: PathView)
    requires
        path.steps.len() == 1,
        path.root.len() > 0,
    ensures
        resolve(edges, path.root, path.steps.drop_last()) == seq![path.root],
{
    assert(path.steps.drop_last() =~= Seq::<StepView>::empty());
}

/// What a writer commits is labelled as its own: in the insert that a
/// commit hands to the store, which is the last of its statements, the row of
/// each edge holds the names of the edge, then the paper and the pen of the
/// writer.
pub proof fn lemma_commit_labels_rows(v: BufferView, paper: Seq<char>, pen: Seq<char>, i: int)
    requires
        v.auth == AuthView::Writer(paper, pen),
        0 <= i < keep(v.edges, Select::Committed).len(),
    ensures
        plan(v).len() > 0,
        plan(v).last() == insert_statement(v.auth, keep(v.edges, Select::Committed)),
        plan(v).last().binds.len() == 5 * keep(v.edges, Select::Committed).len(),
        plan(v).last().binds[5 * i] == keep(v.edges, Select::Committed)[i].source,
        plan(v).last().binds[5 * i + 1] == keep(v.edges, Select::Committed)[i].code,
        plan(v).last().binds[5 * i + 2] == keep(v.edges, Select::Committed)[i].target,
        plan(v).last().binds[5 * i + 3] == paper,
        plan(v).last().binds[5 * i + 4] == pen,
{
    lemma_insert_binds_row(keep(v.edges, Select::Committed), paper, pen, i);
}

/// Whoever commits, the rows are labelled with the paper and the pen with
/// which the session stamps: a printer's pen stands for both.
pub proof fn lemma_commit_stamps_rows(v: BufferView, i: int)
    requires
        0 <= i < keep(v.edges, Select::Committed).len(),
    ensures
        plan(v).len() > 0,
        plan(v).last() == insert_statement(v.auth, keep(v.edges, Select::Committed)),
        plan(v).last().binds[5 * i + 3] == stamp_paper(v.auth),
        plan(v).last().binds[5 * i + 4] == stamp_pen(v.auth),
        may_see(v.auth, plan(v).last().binds[5 * i + 3], plan(v).last().binds[5 * i + 4]),
{
    lemma_insert_binds_row(
        keep(v.edges, Select::Committed),
        stamp_paper(v.auth),
        stamp_pen(v.auth),
        i,
    );
}

/// Whether `rows` can be what a session sees of the store: each row is
/// held as the session holds what it has read, and none has a temporary name.
pub open spec fn persistent(rows: Seq<EdgeView>) -> bool {
    forall|i: int|
        0 <= i < rows.len() ==> (#[trigger] rows[i]).temp && !temp_edge(
            rows[i].source,
            rows[i].code,
            rows[i].target,
        )
}

/// The rows of the store that are still there for the session: none once
/// the session was cleared, else those whose fibres were not set.
pub open spec fn surviving(rows: Seq<EdgeView>, cleared: bool, deletes: Seq<FibreView>) -> Seq<
    EdgeView,
>
    decreases rows.len(),
{
    if rows.len() == 0 {
        Seq::empty()
    } else if cleared || struck(deletes, rows.last()) {
        surviving(rows.drop_last(), cleared, deletes)
    } else {
        surviving(rows.drop_last(), cleared, deletes).push(rows.last())
    }
}

/// The edges that a session sees, where `rows` is what it sees of the
/// store: the rows that are still there, then what the session has written.
pub open spec fn visible(rows: Seq<EdgeView>, v: BufferView) -> Seq<EdgeView> {
    surviving(rows, v.cleared, v.deletes) + v.edges
}

/// Whether what the session has read agrees with the store: of a fibre
/// that it has taken in it holds the rows that are still there, and of any
/// other fibre it holds nothing.
pub open spec fn coherent(rows: Seq<EdgeView>, v: BufferView) -> bool {
    forall|forward: bool, node: Seq<char>, code: Seq<char>| #[trigger]
        keep(seen(v, forward), only(forward, node, code)) == if !v.cleared && v.cached.contains(
            FibreView { forward, node, code },
        ) {
            keep(surviving(rows, v.cleared, v.deletes), only(forward, node, code))
        } else {
            Seq::empty()
        }
}

proof fn lemma_keep_commute(edges: Seq<EdgeView>, a: Select, b: Select)
    ensures
        keep(keep(edges, a), b) == keep(keep(edges, b), a),
    decreases edges.len(),
{
    if edges.len() > 0 {
        lemma_keep_commute(edges.drop_last(), a, b);
        let init = edges.drop_last();
        let e = edges.last();
        crate::mem_table::lemma_keep_push(keep(init, a), e, b);
        crate::mem_table::lemma_keep_push(keep(init, b), e, a);
    }
}

proof fn lemma_fibre_concat(
    a: Seq<EdgeView>,
    b: Seq<EdgeView>,
    forward: bool,
    node: Seq<char>,
    code: Seq<char>,
)
    ensures
        fibre_of(a + b, forward, node, code) == fibre_of(a, forward, node, code) + fibre_of(
            b,
            forward,
            node,
            code,
        ),
{
    lemma_keep_concat(a, b, only(forward, node, code));
    lemma_fibre_by_choice(a + b, forward, node, code);
    lemma_fibre_by_choice(a, forward, node, code);
    lemma_fibre_by_choice(b, forward, node, code);
    if forward {
        lemma_targets_in_concat(
            keep(a, only(forward, node, code)),
            keep(b, only(forward, node, code)),
        );
    } else {
        lemma_sources_in_concat(
            keep(a, only(forward, node, code)),
            keep(b, only(forward, node, code)),
        );
    }
}

proof fn lemma_surviving(rows: Seq<EdgeView>, cleared: bool, deletes: Seq<FibreView>)
    ensures
        cleared ==> surviving(rows, cleared, deletes) == Seq::<EdgeView>::empty(),
        persistent(rows) ==> persistent(surviving(rows, cleared, deletes)),
        forall|i: int|
            0 <= i < surviving(rows, cleared, deletes).len() ==> !struck(
                deletes,
                #[trigger] surviving(rows, cleared, deletes)[i],
            ),
        deletes.len() == 0 && !cleared ==> surviving(rows, cleared, deletes) == rows,
    decreases rows.len(),
{
    if rows.len() > 0 {
        let init = rows.drop_last();
        lemma_surviving(init, cleared, deletes);
        if persistent(rows) {
            assert forall|i: int| 0 <= i < init.len() implies (#[trigger] init[i]).temp
                && !temp_edge(init[i].source, init[i].code, init[i].target) by {
                assert(init[i] == rows[i]);
            }
            assert(rows.last() == rows[rows.len() - 1]);
        }
        if deletes.len() == 0 && !cleared {
            assert(init.push(rows.last()) =~= rows);
        }
    }
}

/// No row of the store belongs to a temporary fibre, and none has a
/// temporary name.
proof fn lemma_persistent(rows: Seq<EdgeView>, forward: bool, node: Seq<char>, code: Seq<char>)
    requires
        persistent(rows),
    ensures
        temp_fibre(FibreView { forward, node, code }) ==> keep(rows, only(forward, node, code))
            == Seq::<EdgeView>::empty() && keep(rows, all_but(forward, node, code)) == rows,
        keep(rows, Select::Session) == Seq::<EdgeView>::empty(),
{
    assert forall|i: int| 0 <= i < rows.len() implies !selects(Select::Session, #[trigger] rows[i]) by {}
    lemma_keep_none(rows, Select::Session);
    if temp_fibre(FibreView { forward, node, code }) {
        assert forall|i: int| 0 <= i < rows.len() implies !selects(
            only(forward, node, code),
            #[trigger] rows[i],
        ) by {}
        assert forall|i: int| 0 <= i < rows.len() implies selects(
            all_but(forward, node, code),
            #[trigger] rows[i],
        ) by {}
        lemma_keep_none(rows, only(forward, node, code));
        lemma_keep_all(rows, all_but(forward, node, code));
    }
}

/// What a known fibre reads as is the fibre of the edges that the session
/// sees: the rows of the store that are still there, then what was written.
pub proof fn lemma_read_is_visible(rows: Seq<EdgeView>, v: BufferView, key: FibreView)
    requires
        persistent(rows),
        coherent(rows, v),
        known(v, key),
    ensures
        read(v, key) == LookupView::Hit(
            fibre_of(visible(rows, v), key.forward, key.node, key.code),
        ),
{
    let still = surviving(rows, v.cleared, v.deletes);
    lemma_surviving(rows, v.cleared, v.deletes);
    lemma_fibre_concat(still, v.edges, key.forward, key.node, key.code);
    lemma_fibre_by_choice(seen(v, key.forward), key.forward, key.node, key.code);
    lemma_fibre_by_choice(still, key.forward, key.node, key.code);
    let held_rows = keep(seen(v, key.forward), only(key.forward, key.node, key.code));
    assert(key == FibreView { forward: key.forward, node: key.node, code: key.code });
    if !v.cleared && v.cached.contains(key) {
        assert(held_rows == keep(still, only(key.forward, key.node, key.code)));
    } else {
        assert(held_rows == Seq::<EdgeView>::empty());
        if !v.cleared {
            lemma_persistent(still, key.forward, key.node, key.code);
        }
        assert(keep(still, only(key.forward, key.node, key.code)) == Seq::<EdgeView>::empty());
    }
}

/// The rows of a fibre that are taken in are the rows that are still there.
proof fn lemma_kept_rows(rows: Seq<EdgeView>, deletes: Seq<FibreView>, key: FibreView)
    requires
        persistent(rows),
    ensures
        seen_edges(
            key,
            kept_rows(deletes, key, fibre_of(rows, key.forward, key.node, key.code)),
        ) == keep(surviving(rows, false, deletes), only(key.forward, key.node, key.code)),
    decreases rows.len(),
{
    let sel = only(key.forward, key.node, key.code);
    lemma_fibre_by_choice(rows, key.forward, key.node, key.code);
    if rows.len() == 0 {
        assert(seen_edges(key, Seq::<Seq<char>>::empty()) =~= Seq::<EdgeView>::empty());
        assert(fibre_of(rows, key.forward, key.node, key.code) =~= Seq::<Seq<char>>::empty());
    } else {
        let init = rows.drop_last();
        let e = rows.last();
        assert forall|i: int| 0 <= i < init.len() implies (#[trigger] init[i]).temp && !temp_edge(
            init[i].source,
            init[i].code,
            init[i].target,
        ) by {
            assert(init[i] == rows[i]);
        }
        assert(e == rows[rows.len() - 1]);
        lemma_kept_rows(init, deletes, key);
        lemma_fibre_by_choice(init, key.forward, key.node, key.code);
        let names = fibre_of(init, key.forward, key.node, key.code);
        if selects(sel, e) {
            let name = if key.forward {
                e.target
            } else {
                e.source
            };
            assert(seen_edge(key, name) == e);
            if key.forward {
                crate::mem_table::lemma_targets_in_push(keep(init, sel), e);
            } else {
                crate::mem_table::lemma_sources_in_push(keep(init, sel), e);
            }
            assert(fibre_of(rows, key.forward, key.node, key.code) == names.push(name));
            assert(names.push(name).drop_last() =~= names);
            if !struck(deletes, e) {
                crate::mem_table::lemma_keep_push(surviving(init, false, deletes), e, sel);
                assert(seen_edges(key, kept_rows(deletes, key, names).push(name)) =~= seen_edges(
                    key,
                    kept_rows(deletes, key, names),
                ).push(e));
            }
        } else {
            assert(fibre_of(rows, key.forward, key.node, key.code) == names);
            if !struck(deletes, e) {
                crate::mem_table::lemma_keep_push(surviving(init, false, deletes), e, sel);
            }
        }
    }
}

/// Taking in what the store holds of a fibre changes nothing of what the
/// session sees, and what the session has read still agrees with the store.
pub proof fn lemma_seed_keeps_coherent(rows: Seq<EdgeView>, v: BufferView, key: FibreView)
    requires
        persistent(rows),
        coherent(rows, v),
    ensures
        coherent(rows, seeded(v, key, fibre_of(rows, key.forward, key.node, key.code))),
        visible(rows, seeded(v, key, fibre_of(rows, key.forward, key.node, key.code))) == visible(
            rows,
            v,
        ),
        known(seeded(v, key, fibre_of(rows, key.forward, key.node, key.code)), key),
{
    let after = seeded(v, key, fibre_of(rows, key.forward, key.node, key.code));
    assert(key == FibreView { forward: key.forward, node: key.node, code: key.code });
    if !known(v, key) {
        let fresh = seen_edges(
            key,
            kept_rows(v.deletes, key, fibre_of(rows, key.forward, key.node, key.code)),
        );
        lemma_kept_rows(rows, v.deletes, key);
        let still = surviving(rows, false, v.deletes);
        assert(after.cached.last() == key);
        assert forall|forward: bool, node: Seq<char>, code: Seq<char>| #[trigger]
            keep(seen(after, forward), only(forward, node, code)) == if !after.cleared
                && after.cached.contains(FibreView { forward, node, code }) {
                keep(still, only(forward, node, code))
            } else {
                Seq::<EdgeView>::empty()
            } by {
            let other = FibreView { forward, node, code };
            let before = keep(seen(v, forward), only(forward, node, code));
            assert(before == if !v.cleared && v.cached.contains(other) {
                keep(still, only(forward, node, code))
            } else {
                Seq::<EdgeView>::empty()
            });
            if other == key {
                lemma_keep_concat(seen(v, forward), fresh, only(forward, node, code));
                lemma_keep_selected(still, only(forward, node, code));
                lemma_keep_all(fresh, only(forward, node, code));
                assert(Seq::<EdgeView>::empty() + fresh =~= fresh);
            } else {
                assert(after.cached.contains(other) == v.cached.contains(other)) by {
                    if v.cached.contains(other) {
                        let i = choose|i: int| 0 <= i < v.cached.len() && v.cached[i] == other;
                        assert(after.cached[i] == other);
                    }
                    if after.cached.contains(other) {
                        let i = choose|i: int|
                            0 <= i < after.cached.len() && after.cached[i] == other;
                        assert(v.cached[i] == other);
                    }
                }
                if forward == key.forward {
                    lemma_keep_concat(seen(v, forward), fresh, only(forward, node, code));
                    assert forall|i: int| 0 <= i < fresh.len() implies !selects(
                        only(forward, node, code),
                        #[trigger] fresh[i],
                    ) by {}
                    lemma_keep_none(fresh, only(forward, node, code));
                    assert(before + Seq::<EdgeView>::empty() =~= before);
                }
            }
        }
    }
}

/// The first read of a fibre gives what the store gives: a session that
/// has written nothing and deleted nothing asks the store with the query
/// compiled from the path of one hop, and once the answer is taken in reads
/// the fibre as the store holds it.
pub proof fn lemma_read_is_the_store(rows: Seq<EdgeView>, v: BufferView, key: FibreView)
    requires
        persistent(rows),
        coherent(rows, v),
        v.edges.len() == 0,
        v.deletes.len() == 0,
        !v.cleared,
        !temp_fibre(key),
    ensures
        !known(v, key) ==> read(v, key) == LookupView::Miss(
            StatementView {
                sql: select_sql(v.auth, hop(key.forward, key.code), Seq::empty()),
                binds: select_binds(key.node, seq![hop(key.forward, key.code)]),
            },
        ),
        read(
            seeded(v, key, fibre_of(rows, key.forward, key.node, key.code)),
            key,
        ) == LookupView::Hit(fibre_of(rows, key.forward, key.node, key.code)),
{
    assert(select_binds(key.node, seq![hop(key.forward, key.code)]) =~= seq![key.node, key.code]);
    let after = seeded(v, key, fibre_of(rows, key.forward, key.node, key.code));
    lemma_seed_keeps_coherent(rows, v, key);
    lemma_read_is_visible(rows, after, key);
    lemma_surviving(rows, v.cleared, v.deletes);
    assert(visible(rows, v) =~= rows);
}

/// Appending shows in what the session sees as an append.
pub proof fn lemma_append_is_visible(
    rows: Seq<EdgeView>,
    v: BufferView,
    key: FibreView,
    items: Seq<Seq<char>>,
)
    requires
        coherent(rows, v),
    ensures
        coherent(rows, appended_to(v, key, items)),
        visible(rows, appended_to(v, key, items)) == appended(
            visible(rows, v),
            key.forward,
            key.node,
            key.code,
            items,
        ),
{
    let after = appended_to(v, key, items);
    assert(visible(rows, after) =~= visible(rows, v) + new_edges(
        key.forward,
        key.node,
        key.code,
        items,
    ));
    assert forall|forward: bool, node: Seq<char>, code: Seq<char>| #[trigger]
        keep(seen(after, forward), only(forward, node, code)) == if !after.cleared
            && after.cached.contains(FibreView { forward, node, code }) {
            keep(surviving(rows, after.cleared, after.deletes), only(forward, node, code))
        } else {
            Seq::<EdgeView>::empty()
        } by {
        assert(keep(seen(v, forward), only(forward, node, code)) == if !v.cleared
            && v.cached.contains(FibreView { forward, node, code }) {
            keep(surviving(rows, v.cleared, v.deletes), only(forward, node, code))
        } else {
            Seq::<EdgeView>::empty()
        });
    }
}

/// Of the rows that are still there, setting a fibre takes away those of
/// the fibre.
proof fn lemma_surviving_after_set(rows: Seq<EdgeView>, v: BufferView, key: FibreView)
    requires
        persistent(rows),
    ensures
        surviving(rows, v.cleared, set_to(v, key, Seq::empty()).deletes) == keep(
            surviving(rows, v.cleared, v.deletes),
            all_but(key.forward, key.node, key.code),
        ),
    decreases rows.len(),
{
    let after = set_to(v, key, Seq::empty()).deletes;
    let sel = all_but(key.forward, key.node, key.code);
    assert(key == FibreView { forward: key.forward, node: key.node, code: key.code });
    if rows.len() > 0 {
        let init = rows.drop_last();
        let e = rows.last();
        assert forall|i: int| 0 <= i < init.len() implies (#[trigger] init[i]).temp && !temp_edge(
            init[i].source,
            init[i].code,
            init[i].target,
        ) by {
            assert(init[i] == rows[i]);
        }
        assert(e == rows[rows.len() - 1]);
        lemma_surviving_after_set(init, v, key);
        if !v.cleared {
            crate::mem_table::lemma_keep_push(surviving(init, v.cleared, v.deletes), e, sel);
            if after == v.deletes {
                if v.deletes.contains(key) {
                    assert(!selects(sel, e) ==> struck(v.deletes, e));
                }
            } else {
                assert(after == v.deletes.push(key));
                assert(after.last() == key);
                assert forall|other: FibreView| after.contains(other) == (v.deletes.contains(
                    other,
                ) || other == key) by {
                    if v.deletes.contains(other) {
                        let i = choose|i: int| 0 <= i < v.deletes.len() && v.deletes[i] == other;
                        assert(after[i] == other);
                    }
                    if after.contains(other) {
                        let i = choose|i: int| 0 <= i < after.len() && after[i] == other;
                        if i < v.deletes.len() {
                            assert(v.deletes[i] == other);
                        }
                    }
                }
                assert(struck(after, e) == (struck(v.deletes, e) || !selects(sel, e)));
            }
        }
    }
}

/// Setting a fibre shows in what the session sees as setting it, and what
/// the session has read still agrees with the store.
pub proof fn lemma_set_is_visible(
    rows: Seq<EdgeView>,
    v: BufferView,
    key: FibreView,
    items: Seq<Seq<char>>,
)
    requires
        persistent(rows),
        coherent(rows, v),
    ensures
        coherent(rows, set_to(v, key, items)),
        visible(rows, set_to(v, key, items)) == replaced(
            visible(rows, v),
            key.forward,
            key.node,
            key.code,
            items,
        ),
        known(set_to(v, key, items), key),
{
    let after = set_to(v, key, items);
    let gone = all_but(key.forward, key.node, key.code);
    let still = surviving(rows, v.cleared, v.deletes);
    assert(key == FibreView { forward: key.forward, node: key.node, code: key.code });
    assert(after.deletes == set_to(v, key, Seq::empty()).deletes);
    lemma_surviving_after_set(rows, v, key);
    lemma_keep_concat(still, v.edges, gone);
    assert(visible(rows, after) =~= keep(visible(rows, v), gone) + new_edges(
        key.forward,
        key.node,
        key.code,
        items,
    ));
    if !known(v, key) {
        assert(after.cached.last() == key);
    }
    assert forall|forward: bool, node: Seq<char>, code: Seq<char>| #[trigger]
        keep(seen(after, forward), only(forward, node, code)) == if !after.cleared
            && after.cached.contains(FibreView { forward, node, code }) {
            keep(surviving(rows, after.cleared, after.deletes), only(forward, node, code))
        } else {
            Seq::<EdgeView>::empty()
        } by {
        let other = FibreView { forward, node, code };
        let sel = only(forward, node, code);
        let before = keep(seen(v, forward), sel);
        assert(before == if !v.cleared && v.cached.contains(other) {
            keep(still, sel)
        } else {
            Seq::<EdgeView>::empty()
        });
        lemma_keep_commute(seen(v, forward), gone, sel);
        lemma_keep_commute(still, gone, sel);
        assert(keep(seen(after, forward), sel) == keep(before, gone));
        if other == key {
            lemma_fibre_gone(seen(v, forward), forward, node, code);
            lemma_fibre_gone(still, forward, node, code);
        } else {
            assert(after.cached.contains(other) == v.cached.contains(other)) by {
                if v.cached.contains(other) {
                    let i = choose|i: int| 0 <= i < v.cached.len() && v.cached[i] == other;
                    assert(after.cached[i] == other);
                }
                if after.cached.contains(other) {
                    let i = choose|i: int| 0 <= i < after.cached.len() && after.cached[i] == other;
                    if i < v.cached.len() {
                        assert(v.cached[i] == other);
                    }
                }
            }
        }
    }
}

/// Clearing leaves of what the session sees the edges with a temporary
/// name, which are its own alone.
pub proof fn lemma_clear_is_visible(rows: Seq<EdgeView>, v: BufferView)
    requires
        persistent(rows),
    ensures
        coherent(rows, wiped(v)),
        visible(rows, wiped(v)) == keep(visible(rows, v), Select::Session),
{
    let still = surviving(rows, v.cleared, v.deletes);
    lemma_surviving(rows, true, Seq::empty());
    lemma_surviving(rows, v.cleared, v.deletes);
    lemma_persistent(still, true, Seq::empty(), Seq::empty());
    lemma_keep_concat(still, v.edges, Select::Session);
    assert(visible(rows, wiped(v)) =~= keep(visible(rows, v), Select::Session));
}

/// What the session sees of the store once the store has taken a commit:
/// the rows that were still there, then what was written to be kept, held as
/// rows are.
pub open spec fn store_after(rows: Seq<EdgeView>, v: BufferView) -> Seq<EdgeView> {
    surviving(rows, v.cleared, v.deletes) + Seq::new(
        keep(v.edges, Select::Committed).len(),
        |i: int| EdgeView { temp: true, ..keep(v.edges, Select::Committed)[i] },
    )
}

/// After a commit the session starts over: it holds nothing of the store,
/// and it sees the rows that the store holds now, then the temporary edges that
/// it has written.
pub proof fn lemma_settle_is_coherent(rows: Seq<EdgeView>, v: BufferView)
    ensures
        coherent(store_after(rows, v), settled(v)),
        visible(store_after(rows, v), settled(v)) == store_after(rows, v) + keep(
            v.edges,
            Select::Temp,
        ),
{
    lemma_surviving(store_after(rows, v), false, Seq::empty());
}

/// Whether a session has nothing for the store: it was not cleared, no
/// fibre is to be deleted, and no entry of its table is to be written.
pub open spec fn quiet(v: BufferView) -> bool {
    &&& !v.cleared
    &&& v.deletes.len() == 0
    &&& forall|i: int| 0 <= i < v.edges.len() ==> (#[trigger] v.edges[i]).temp
}

/// The commit of a quiet session hands nothing to the store.
pub proof fn lemma_quiet_commits_nothing(v: BufferView)
    requires
        quiet(v),
    ensures
        plan(v) == Seq::<StatementView>::empty(),
{
    assert forall|i: int| 0 <= i < v.edges.len() implies !selects(
        Select::Committed,
        #[trigger] v.edges[i],
    ) by {}
    lemma_keep_none(v.edges, Select::Committed);
    assert(plan(v) =~= Seq::<StatementView>::empty());
}

/// Whether every element of a list is a temporary name.
pub open spec fn all_temp(items: Seq<Seq<char>>) -> bool {
    forall|i: int| 0 <= i < items.len() ==> temp_name(#[trigger] items[i])
}

/// What is written under temporary names never reaches the store. Taking
/// in rows leaves a quiet session quiet. So does appending, where the node or
/// the code of the fibre is temporary, or every element that is appended. So
/// does setting, where the node or the code of the fibre is temporary: setting
/// a fibre that can last deletes what the store holds of it, whatever it is
/// set to.
pub proof fn lemma_temp_names_stay_quiet(v: BufferView, key: FibreView, items: Seq<Seq<char>>)
    requires
        quiet(v),
    ensures
        quiet(seeded(v, key, items)),
        temp_fibre(key) || all_temp(items) ==> quiet(appended_to(v, key, items)),
        temp_fibre(key) ==> quiet(set_to(v, key, items)),
{
    let fresh = new_edges(key.forward, key.node, key.code, items);
    let rest = keep(v.edges, all_but(key.forward, key.node, key.code));
    lemma_keep_selected(v.edges, all_but(key.forward, key.node, key.code));
    lemma_keep_temp(v.edges, all_but(key.forward, key.node, key.code));
    if temp_fibre(key) || all_temp(items) {
        assert forall|i: int| 0 <= i < fresh.len() implies (#[trigger] fresh[i]).temp by {
            assert(temp_fibre(key) || temp_name(items[i]));
        }
        assert forall|i: int| 0 <= i < (rest + fresh).len() implies (#[trigger] (rest
            + fresh)[i]).temp by {
            if i >= rest.len() {
                assert((rest + fresh)[i] == fresh[i - rest.len()]);
            }
        }
        assert forall|i: int| 0 <= i < (v.edges + fresh).len() implies (#[trigger] (v.edges
            + fresh)[i]).temp by {
            if i >= v.edges.len() {
                assert((v.edges + fresh)[i] == fresh[i - v.edges.len()]);
            }
        }
    }
}

/// A choice of temporary entries is made of temporary entries.
proof fn lemma_keep_temp(edges: Seq<EdgeView>, sel: Select)
    requires
        forall|i: int| 0 <= i < edges.len() ==> (#[trigger] edges[i]).temp,
    ensures
        forall|i: int| 0 <= i < keep(edges, sel).len() ==> (#[trigger] keep(edges, sel)[i]).temp,
    decreases edges.len(),
{
    if edges.len() > 0 {
        assert forall|i: int| 0 <= i < edges.drop_last().len() implies (
        #[trigger] edges.drop_last()[i]).temp by {
            assert(edges.drop_last()[i] == edges[i]);
        }
        lemma_keep_temp(edges.drop_last(), sel);
        assert(edges.last() == edges[edges.len() - 1]);
        assert forall|i: int| 0 <= i < keep(edges, sel).len() implies (#[trigger] keep(
            edges,
            sel,
        )[i]).temp by {
            if i < keep(edges.drop_last(), sel).len() {
                assert(keep(edges, sel)[i] == keep(edges.drop_last(), sel)[i]);
            }
        }
    }
}

/// A new session is quiet, and agrees with whatever the store holds.
pub proof fn lemma_new_session(auth: AuthView, rows: Seq<EdgeView>)
    ensures
        quiet(fresh(auth)),
        coherent(rows, fresh(auth)),
        visible(rows, fresh(auth)) == rows,
{
    lemma_surviving(rows, false, Seq::empty());
    assert(visible(rows, fresh(auth)) =~= rows);
}

} // verus!

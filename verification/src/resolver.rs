//! Paths against a data manager: what a path leads to, and what writing
//! through a path does.

use crate::data::{appended, fibre_of, replaced, AsDataManager};
use crate::err::Error;
use crate::mem_table::EdgeView;
use crate::path::{parse_path, step_views, Path, PathView, Step, StepView};
use crate::sql::{forward, is_forward};
use crate::text::{same_text, texts};
use vstd::prelude::*;

verus! {

/// What one hop leads to from `node`.
pub open spec fn hop_of(edges: Seq<EdgeView>, node: Seq<char>, step: StepView) -> Seq<Seq<char>> {
    fibre_of(edges, is_forward(step), node, step.code)
}

/// The endpoints that `steps` lead to from `root`. An empty root leads
/// nowhere; without hops a root leads to itself; else each endpoint of the
/// first hop is the root of what remains, and the results stand in a row.
pub open spec fn resolve(edges: Seq<EdgeView>, root: Seq<char>, steps: Seq<StepView>) -> Seq<
    Seq<char>,
>
    decreases steps.len(), 0nat, 0nat,
{
    if root.len() == 0 {
        Seq::empty()
    } else if steps.len() == 0 {
        seq![root]
    } else {
        resolve_each(edges, hop_of(edges, root, steps[0]), steps.skip(1))
    }
}

/// The endpoints that `steps` lead to from each of `nodes`, in a row.
pub open spec fn resolve_each(edges: Seq<EdgeView>, nodes: Seq<Seq<char>>, steps: Seq<StepView>)
    -> Seq<Seq<char>>
    decreases steps.len(), 1nat, nodes.len(),
{
    if nodes.len() == 0 {
        Seq::empty()
    } else {
        resolve_each(edges, nodes.drop_last(), steps) + resolve(edges, nodes.last(), steps)
    }
}

/// What a path leads to.
pub open spec fn reached(edges: Seq<EdgeView>, path: PathView) -> Seq<Seq<char>> {
    resolve(edges, path.root, path.steps)
}

pub proof fn lemma_texts_concat(a: Seq<String>, b: Seq<String>)
    ensures
        texts(a + b) == texts(a) + texts(b),
{
    assert(texts(a + b) =~= texts(a) + texts(b));
}

fn resolve_from<DM: AsDataManager>(dm: &mut DM, root: &str, step_v: &Vec<Step>, from: usize) -> (r:
    Result<Vec<String>, Error>)
    requires
        from <= step_v.len(),
    ensures
        final(dm).edges() == old(dm).edges(),
        final(dm).reliable() == old(dm).reliable(),
        old(dm).reliable() ==> r is Ok,
        r is Ok ==> texts(r.unwrap()@) == resolve(
            old(dm).edges(),
            root@,
            step_views(step_v@).skip(from as int),
        ),
    decreases step_v.len() - from,
{
    let ghost steps = step_views(step_v@).skip(from as int);
    let mut rs: Vec<String> = Vec::new();
    if root.is_empty() {
        proof {
            assert(texts(rs@) =~= Seq::<Seq<char>>::empty());
        }
        return Ok(rs);
    }
    if from == step_v.len() {
        rs.push(root.to_owned());
        proof {
            assert(texts(rs@) =~= seq![root@]);
        }
        return Ok(rs);
    }
    let step = &step_v[from];
    proof {
        assert(steps[0] == step@);
        assert(steps.skip(1) =~= step_views(step_v@).skip(from + 1));
    }
    let curr_v = if forward(step) {
        match dm.get_target_v(root, step.code.as_str()) {
            Ok(v) => v,
            Err(e) => {
                return Err(e);
            },
        }
    } else {
        match dm.get_source_v(step.code.as_str(), root) {
            Ok(v) => v,
            Err(e) => {
                return Err(e);
            },
        }
    };
    let ghost nodes = texts(curr_v@);
    let ghost rest = steps.skip(1);
    let mut i: usize = 0;
    proof {
        assert(nodes.take(0) =~= Seq::<Seq<char>>::empty());
        assert(texts(rs@) =~= Seq::<Seq<char>>::empty());
    }
    while i < curr_v.len()
        invariant
            i <= curr_v.len(),
            from < step_v.len(),
            nodes == texts(curr_v@),
            rest == step_views(step_v@).skip(from + 1),
            dm.edges() == old(dm).edges(),
            dm.reliable() == old(dm).reliable(),
            texts(rs@) == resolve_each(old(dm).edges(), nodes.take(i as int), rest),
        decreases curr_v.len() - i,
    {
        let mut sub = match resolve_from(dm, curr_v[i].as_str(), step_v, from + 1) {
            Ok(sub) => sub,
            Err(e) => {
                return Err(e);
            },
        };
        proof {
            lemma_texts_concat(rs@, sub@);
            assert(nodes.take(i + 1).drop_last() =~= nodes.take(i as int));
            assert(nodes.take(i + 1).last() == curr_v@[i as int]@);
        }
        rs.append(&mut sub);
        i += 1;
    }
    proof {
        assert(nodes.take(curr_v.len() as int) =~= nodes);
    }
    Ok(rs)
}

/// The endpoints that `path` leads to, in order.
pub fn get_all_by_path<DM: AsDataManager>(dm: &mut DM, path: &Path) -> (r: Result<
    Vec<String>,
    Error,
>)
    ensures
        final(dm).edges() == old(dm).edges(),
        final(dm).reliable() == old(dm).reliable(),
        old(dm).reliable() || path@.steps.len() == 0 || path@.root.len() == 0 ==> r is Ok,
        r is Ok ==> texts(r.unwrap()@) == reached(old(dm).edges(), path@),
{
    proof {
        assert(step_views(path.step_v@).skip(0) =~= path@.steps);
    }
    if path.root.as_str().is_empty() || path.step_v.len() == 0 {
        let mut rs: Vec<String> = Vec::new();
        if !path.root.as_str().is_empty() {
            rs.push(path.root.clone());
            proof {
                assert(texts(rs@) =~= seq![path@.root]);
            }
        } else {
            proof {
                assert(texts(rs@) =~= Seq::<Seq<char>>::empty());
            }
        }
        return Ok(rs);
    }
    resolve_from(dm, path.root.as_str(), &path.step_v, 0)
}

/// What writing `items` to a fibre makes of the edges: the fibre is set to
/// them, or they are appended to it.
pub open spec fn written(
    edges: Seq<EdgeView>,
    node: Seq<char>,
    step: StepView,
    set: bool,
    items: Seq<Seq<char>>,
) -> Seq<EdgeView> {
    if set {
        replaced(edges, is_forward(step), node, step.code, items)
    } else {
        appended(edges, is_forward(step), node, step.code, items)
    }
}

/// What writing `items` to the fibre of each of `nodes`, one after the
/// other, makes of the edges.
pub open spec fn written_each(
    edges: Seq<EdgeView>,
    nodes: Seq<Seq<char>>,
    step: StepView,
    set: bool,
    items: Seq<Seq<char>>,
) -> Seq<EdgeView>
    decreases nodes.len(),
{
    if nodes.len() == 0 {
        edges
    } else {
        written(written_each(edges, nodes.drop_last(), step, set, items), nodes.last(), step, set, items)
    }
}

/// What assigning `items` to a path makes of the edges. A path without
/// hops names no fibre: nothing changes. Else the path without its last hop
/// is resolved once, and `items` are written under the last hop to each
/// endpoint in turn.
pub open spec fn assigned(edges: Seq<EdgeView>, path: PathView, set: bool, items: Seq<Seq<char>>)
    -> Seq<EdgeView> {
    if path.steps.len() == 0 {
        edges
    } else {
        written_each(
            edges,
            resolve(edges, path.root, path.steps.drop_last()),
            path.steps.last(),
            set,
            items,
        )
    }
}

/// The operator that sets; every other one appends.
pub open spec fn set_operator() -> Seq<char> {
    seq!['=']
}

/// Writes `item_v` to the path `output`: sets where `operator` is `=`,
/// appends else.
pub fn asign<DM: AsDataManager>(dm: &mut DM, output: &str, operator: &str, item_v: &Vec<String>)
    -> (r: Result<(), Error>)
    ensures
        final(dm).reliable() == old(dm).reliable(),
        old(dm).reliable() || parse_path(output@).steps.len() == 0 ==> r is Ok,
        r is Ok ==> final(dm).edges() == assigned(
            old(dm).edges(),
            parse_path(output@),
            operator@ == set_operator(),
            texts(item_v@),
        ),
{
    let mut output_path = Path::from_str(output);
    let last_step = match output_path.step_v.pop() {
        Some(step) => step,
        None => {
            return Ok(());
        },
    };
    proof {
        assert(step_views(output_path.step_v@) =~= parse_path(output@).steps.drop_last());
        assert(last_step@ == parse_path(output@).steps.last());
        reveal_strlit("=");
        assert("="@ =~= set_operator());
    }
    let root_v = match get_all_by_path(dm, &output_path) {
        Ok(v) => v,
        Err(e) => {
            return Err(e);
        },
    };
    let set = same_text(operator, "=");
    let fwd = forward(&last_step);
    let ghost nodes = texts(root_v@);
    let ghost items = texts(item_v@);
    let mut i: usize = 0;
    proof {
        assert(nodes.take(0) =~= Seq::<Seq<char>>::empty());
    }
    while i < root_v.len()
        invariant
            i <= root_v.len(),
            nodes == texts(root_v@),
            items == texts(item_v@),
            set == (operator@ == set_operator()),
            fwd == is_forward(last_step@),
            parse_path(output@).steps.len() > 0,
            dm.reliable() == old(dm).reliable(),
            dm.edges() == written_each(old(dm).edges(), nodes.take(i as int), last_step@, set, items),
        decreases root_v.len() - i,
    {
        let node = root_v[i].as_str();
        let code = last_step.code.as_str();
        let done = if fwd {
            if set {
                dm.set_target_v(node, code, item_v)
            } else {
                dm.append_target_v(node, code, item_v)
            }
        } else {
            if set {
                dm.set_source_v(item_v, code, node)
            } else {
                dm.append_source_v(item_v, code, node)
            }
        };
        match done {
            Ok(_) => {},
            Err(e) => {
                return Err(e);
            },
        }
        proof {
            assert(nodes.take(i + 1).drop_last() =~= nodes.take(i as int));
            assert(nodes.take(i + 1).last() == root_v@[i as int]@);
        }
        i += 1;
    }
    proof {
        assert(nodes.take(root_v.len() as int) =~= nodes);
    }
    Ok(())
}

} // verus!

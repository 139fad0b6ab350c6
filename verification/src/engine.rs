//! The interpreter: instructions run against a data manager.

use crate::data::{fibre_of, newest, AsDataManager};
use crate::err::{Error, ErrorKind};
use crate::function::{accepts, apply, builtin_named, builtin_of, builtin_rel, ArithOp};
use crate::inc::{inc_views, Inc, IncView};
use crate::mem_table::{keep, EdgeView, Select};
use crate::path::{arrow_at, lemma_next_arrow, next_arrow, parse_path, Path, PathView};
use crate::resolver::{asign, assigned, get_all_by_path, reached, set_operator};
use crate::parser::{parse, parse_script};
use crate::text::{chars_of, same_text, text_of, texts};
use crate::tree::{
    lemma_script_tree_view, list_of, members_of, merge, merged, put, script_tree_views, Json,
    JsonView, MemberView, ScriptTree, ScriptTreeView,
};
use crate::util::{lower_hex, new_point, point_shape};
use vstd::prelude::*;

verus! {

/// The value that stands for a fresh identifier.
pub open spec fn fresh_mark() -> Seq<char> {
    seq!['?']
}

/// Whether `value` is a path from the local root: `$->` or `$<-` and what
/// follows.
pub open spec fn local_path(value: Seq<char>) -> bool {
    value.len() >= 3 && value[0] == '$' && arrow_at(value, 1)
}

/// What stands for `value` in an instruction that runs under `root`: `$`
/// is the root, `_` the empty string, a path from `$` the same path from the
/// root; anything else stands for itself.
pub open spec fn substituted(root: Seq<char>, value: Seq<char>) -> Seq<char> {
    if value == seq!['$'] {
        root
    } else if value == seq!['_'] {
        Seq::empty()
    } else if local_path(value) {
        root + value.skip(1)
    } else {
        value
    }
}

/// Whether `out` can stand for `value` under `root`: a fresh identifier
/// for `?`, and for anything else what `substituted` says.
pub open spec fn unwrap_rel(root: Seq<char>, value: Seq<char>, out: Seq<char>) -> bool {
    if value == fresh_mark() {
        point_shape(out)
    } else {
        out == substituted(root, value)
    }
}

/// Puts the root in the place of `$`, nothing in the place of `_`, and a
/// fresh identifier in the place of `?`.
pub fn unwrap_value(root: &str, value: &str) -> (r: String)
    ensures
        unwrap_rel(root@, value@, r@),
{
    proof {
        reveal_strlit("?");
        reveal_strlit("$");
        reveal_strlit("_");
        assert("?"@ =~= seq!['?']);
        assert("$"@ =~= seq!['$']);
        assert("_"@ =~= seq!['_']);
    }
    if same_text(value, "?") {
        new_point()
    } else if same_text(value, "$") {
        root.to_owned()
    } else if same_text(value, "_") {
        String::new()
    } else {
        let chars = chars_of(value);
        let n = chars.len();
        if n >= 3 && chars[0] == '$' && (chars[1] == '-' && chars[2] == '>' || chars[1] == '<'
            && chars[2] == '-') {
            let mut s = String::from_str(root);
            s.append(text_of(&chars, 1, n).as_str());
            s
        } else {
            value.to_owned()
        }
    }
}

/// A fresh identifier is a path without hops: it holds no arrow.
pub proof fn lemma_point_is_root(p: Seq<char>)
    requires
        point_shape(p),
    ensures
        parse_path(p) == (PathView { root: p, steps: Seq::empty() }),
{
    lemma_next_arrow(p, 0);
    let a = next_arrow(p, 0);
    if a < p.len() {
        assert(arrow_at(p, a));
        assert(lower_hex(p[a]) || p[a] == '-');
        assert(lower_hex(p[a + 1]) || p[a + 1] == '-');
    }
    assert(lower_hex(p[0]));
    assert(p.subrange(0, 36) =~= p);
}

/// Whether `out` can be the one endpoint that `id` stands for under
/// `root`.
pub open spec fn one_rel(edges: Seq<EdgeView>, root: Seq<char>, id: Seq<char>, out: Seq<char>)
    -> bool {
    exists|p: Seq<char>|
        unwrap_rel(root, id, p) && #[trigger] reached(edges, parse_path(p)) == seq![out]
}

fn resolution(msg: &str) -> (e: Error)
    ensures
        e.spec_kind() == ErrorKind::Resolution,
{
    Error::new(ErrorKind::Resolution, msg.to_owned())
}

/// The one endpoint that `id` stands for under `root`. It is an error of
/// resolution if `id` leads to no endpoint, or to more than one.
pub fn get_one<DM: AsDataManager>(dm: &mut DM, root: &str, id: &str) -> (r: Result<String, Error>)
    ensures
        final(dm).edges() == old(dm).edges(),
        final(dm).reliable() == old(dm).reliable(),
        r is Ok ==> one_rel(old(dm).edges(), root@, id@, r.unwrap()@),
        id@ == fresh_mark() ==> r is Ok,
        id@ != fresh_mark() && old(dm).reliable() ==> (r is Ok <==> reached(
            old(dm).edges(),
            parse_path(substituted(root@, id@)),
        ).len() == 1),
        r is Err && old(dm).reliable() ==> r.unwrap_err().spec_kind() == ErrorKind::Resolution,
{
    let path = unwrap_value(root, id);
    proof {
        if id@ == fresh_mark() {
            lemma_point_is_root(path@);
        }
    }
    let id_v = match get_all_by_path(dm, &Path::from_str(path.as_str())) {
        Ok(v) => v,
        Err(e) => {
            return Err(e);
        },
    };
    if id_v.len() != 1 {
        return Err(resolution("Not found"));
    }
    proof {
        assert(texts(id_v@) =~= seq![id_v@[0]@]);
        assert(reached(old(dm).edges(), parse_path(path@)) == seq![id_v@[0]@]);
    }
    Ok(id_v[0].clone())
}

/// Whether `id` stands for one endpoint under `root`. A fresh identifier
/// always does.
pub open spec fn resolves(edges: Seq<EdgeView>, root: Seq<char>, id: Seq<char>) -> bool {
    id == fresh_mark() || reached(edges, parse_path(substituted(root, id))).len() == 1
}

/// Whether `out` can be what the instruction `inc` becomes under `root`:
/// its output and its arguments are substituted, its operator and its function
/// are resolved to the one endpoint each stands for.
pub open spec fn inc_unwrap_rel(edges: Seq<EdgeView>, root: Seq<char>, inc: IncView, out: IncView)
    -> bool {
    &&& unwrap_rel(root, inc.output, out.output)
    &&& one_rel(edges, root, inc.operator, out.operator)
    &&& one_rel(edges, root, inc.function, out.function)
    &&& unwrap_rel(root, inc.input, out.input)
    &&& unwrap_rel(root, inc.input1, out.input1)
}

/// Makes an instruction ready to run under `root`.
pub fn unwrap_inc<DM: AsDataManager>(dm: &mut DM, root: &str, inc: &Inc) -> (r: Result<Inc, Error>)
    ensures
        final(dm).edges() == old(dm).edges(),
        final(dm).reliable() == old(dm).reliable(),
        r is Ok ==> inc_unwrap_rel(old(dm).edges(), root@, inc@, r.unwrap()@),
        r is Err && old(dm).reliable() ==> r.unwrap_err().spec_kind() == ErrorKind::Resolution,
        old(dm).reliable() ==> (r is Ok <==> resolves(old(dm).edges(), root@, inc@.operator)
            && resolves(old(dm).edges(), root@, inc@.function)),
{
    let output = unwrap_value(root, inc.output.as_str());
    let operator = match get_one(dm, root, inc.operator.as_str()) {
        Ok(v) => v,
        Err(e) => {
            return Err(e);
        },
    };
    let function = match get_one(dm, root, inc.function.as_str()) {
        Ok(v) => v,
        Err(e) => {
            return Err(e);
        },
    };
    let input = unwrap_value(root, inc.input.as_str());
    let input1 = unwrap_value(root, inc.input1.as_str());
    Ok(Inc { output, operator, function, input, input1 })
}

/// The instruction that hangs on `handle`: each part is the newest target
/// that `handle` has under the name of the part.
pub open spec fn inc_at(edges: Seq<EdgeView>, handle: Seq<char>) -> IncView {
    IncView {
        output: newest(fibre_of(edges, true, handle, "output"@)),
        operator: newest(fibre_of(edges, true, handle, "operator"@)),
        function: newest(fibre_of(edges, true, handle, "function"@)),
        input: newest(fibre_of(edges, true, handle, "input"@)),
        input1: newest(fibre_of(edges, true, handle, "input1"@)),
    }
}

/// The body of a user function: the instructions that hang on the targets
/// that `function` has under `inc`, in their order.
pub open spec fn body_of(edges: Seq<EdgeView>, function: Seq<char>) -> Seq<IncView> {
    Seq::new(
        fibre_of(edges, true, function, "inc"@).len(),
        |i: int| inc_at(edges, fibre_of(edges, true, function, "inc"@)[i]),
    )
}

/// Reads the body of a user function.
pub fn dump_inc_v<DM: AsDataManager>(dm: &mut DM, function: &str) -> (r: Result<Vec<Inc>, Error>)
    ensures
        final(dm).edges() == old(dm).edges(),
        final(dm).reliable() == old(dm).reliable(),
        old(dm).reliable() ==> r is Ok,
        r is Ok ==> inc_views(r.unwrap()@) == body_of(old(dm).edges(), function@),
{
    let inc_h_v = match dm.get_target_v(function, "inc") {
        Ok(v) => v,
        Err(e) => {
            return Err(e);
        },
    };
    let mut inc_v: Vec<Inc> = Vec::new();
    let mut i: usize = 0;
    while i < inc_h_v.len()
        invariant
            i <= inc_h_v.len(),
            dm.edges() == old(dm).edges(),
            dm.reliable() == old(dm).reliable(),
            texts(inc_h_v@) == fibre_of(old(dm).edges(), true, function@, "inc"@),
            inc_v@.len() == i,
            forall|k: int|
                0 <= k < i ==> (#[trigger] inc_v@[k])@ == inc_at(old(dm).edges(), inc_h_v@[k]@),
        decreases inc_h_v.len() - i,
    {
        let inc_h = inc_h_v[i].as_str();
        let output = match dm.get_target(inc_h, "output") {
            Ok(v) => v,
            Err(e) => {
                return Err(e);
            },
        };
        let operator = match dm.get_target(inc_h, "operator") {
            Ok(v) => v,
            Err(e) => {
                return Err(e);
            },
        };
        let function = match dm.get_target(inc_h, "function") {
            Ok(v) => v,
            Err(e) => {
                return Err(e);
            },
        };
        let input = match dm.get_target(inc_h, "input") {
            Ok(v) => v,
            Err(e) => {
                return Err(e);
            },
        };
        let input1 = match dm.get_target(inc_h, "input1") {
            Ok(v) => v,
            Err(e) => {
                return Err(e);
            },
        };
        inc_v.push(Inc { output, operator, function, input, input1 });
        i += 1;
    }
    proof {
        assert(inc_views(inc_v@) =~= body_of(old(dm).edges(), function@)) by {
            assert forall|k: int| 0 <= k < inc_v@.len() implies inc_views(inc_v@)[k] == body_of(
                old(dm).edges(),
                function@,
            )[k] by {
                assert(texts(inc_h_v@)[k] == inc_h_v@[k]@);
            }
        }
    }
    Ok(inc_v)
}

/// The families of the errors that a script can run into by itself: a name
/// that does not resolve, arguments that a function does not accept, and
/// calls nested too deep.
pub open spec fn script_error(kind: ErrorKind) -> bool {
    kind == ErrorKind::Resolution || kind == ErrorKind::InvalidArgs || kind == ErrorKind::Other
}

/// Whether an operator sets. Every other operator appends.
pub open spec fn is_set(operator: Seq<char>) -> bool {
    operator == set_operator()
}

/// The root under which a call of a user function runs: `$` and a fresh
/// identifier.
pub open spec fn call_root(point: Seq<char>) -> Seq<char> {
    seq!['$'] + point
}

/// The path to the first argument of what runs under `root`.
pub open spec fn input_of(root: Seq<char>) -> PathView {
    parse_path(root + "->$input"@)
}

/// The path to the second argument of what runs under `root`.
pub open spec fn input1_of(root: Seq<char>) -> PathView {
    parse_path(root + "->$input1"@)
}

/// The path to the result of what runs under `root`.
pub open spec fn output_of(root: Seq<char>) -> PathView {
    parse_path(root + "->$output"@)
}

/// Whether a call of the user function `function` under `new_root` can
/// leave the edges `mid` and give `rs`. The body is read first; the
/// arguments are set under the root; the body runs, one level deeper; the
/// result is read from under the root. A function without a body is unknown,
/// and at depth 0 nothing can be called.
pub open spec fn call_rel<K: Fn(ArithOp, &String, &String) -> Option<String>>(
    kernel: &K,
    edges: Seq<EdgeView>,
    function: Seq<char>,
    input: Seq<Seq<char>>,
    input1: Seq<Seq<char>>,
    new_root: Seq<char>,
    depth: nat,
    mid: Seq<EdgeView>,
    rs: Seq<Seq<char>>,
) -> bool
    decreases depth, 0nat, 0nat,
{
    if depth > 0 && body_of(edges, function).len() > 0 {
        &&& body_rel(
            kernel,
            assigned(
                assigned(edges, input_of(new_root), true, input),
                input1_of(new_root),
                true,
                input1,
            ),
            new_root,
            body_of(edges, function),
            (depth - 1) as nat,
            mid,
        )
        &&& rs == reached(mid, output_of(new_root))
    } else {
        false
    }
}

/// Whether the instruction `inc`, made ready, can turn `edges` into
/// `after`. Its arguments are resolved; a built-in function gives a result
/// from them, a user function is called; the result is assigned to the output:
/// set where the operator is `=`, appended else.
pub open spec fn inc_rel<K: Fn(ArithOp, &String, &String) -> Option<String>>(
    kernel: &K,
    edges: Seq<EdgeView>,
    inc: IncView,
    depth: nat,
    after: Seq<EdgeView>,
) -> bool
    decreases depth, 1nat, 0nat,
{
    match builtin_named(inc.function) {
        Some(b) => exists|rs: Seq<Seq<char>>|
            #[trigger] builtin_rel(
                kernel,
                edges,
                b,
                reached(edges, parse_path(inc.input)),
                reached(edges, parse_path(inc.input1)),
                rs,
            ) && after == assigned(edges, parse_path(inc.output), is_set(inc.operator), rs),
        None => exists|point: Seq<char>, mid: Seq<EdgeView>, rs: Seq<Seq<char>>|
            #![trigger point_shape(point), assigned(mid, parse_path(inc.output), is_set(inc.operator), rs)]
            point_shape(point) && call_rel(
                kernel,
                edges,
                inc.function,
                reached(edges, parse_path(inc.input)),
                reached(edges, parse_path(inc.input1)),
                call_root(point),
                depth,
                mid,
                rs,
            ) && after == assigned(mid, parse_path(inc.output), is_set(inc.operator), rs),
    }
}

/// Whether the instructions `inc_v`, run one after the other under `root`,
/// can turn `edges` into `after`. Each is made ready against the edges that
/// the one before it has left.
pub open spec fn body_rel<K: Fn(ArithOp, &String, &String) -> Option<String>>(
    kernel: &K,
    edges: Seq<EdgeView>,
    root: Seq<char>,
    inc_v: Seq<IncView>,
    depth: nat,
    after: Seq<EdgeView>,
) -> bool
    decreases depth, 2nat, inc_v.len(),
{
    if inc_v.len() == 0 {
        after == edges
    } else {
        exists|mid: Seq<EdgeView>, ready: IncView|
            body_rel(kernel, edges, root, inc_v.drop_last(), depth, mid) && #[trigger] inc_unwrap_rel(
                mid,
                root,
                inc_v.last(),
                ready,
            ) && inc_rel(kernel, mid, ready, depth, after)
    }
}

/// The edges with which the body of a user function starts to run under
/// `new_root`: the two arguments are set under the root.
pub open spec fn call_start(
    edges: Seq<EdgeView>,
    input: Seq<Seq<char>>,
    input1: Seq<Seq<char>>,
    new_root: Seq<char>,
) -> Seq<EdgeView> {
    assigned(assigned(edges, input_of(new_root), true, input), input1_of(new_root), true, input1)
}

/// Whether the instruction `inc`, made ready, can fail on `edges`, the data
/// manager being reliable: a built-in function does not accept its arguments;
/// or the function is unknown, having no body; or no level of depth is left to
/// call it; or its body fails, one level deeper.
pub open spec fn inc_fails<K: Fn(ArithOp, &String, &String) -> Option<String>>(
    kernel: &K,
    edges: Seq<EdgeView>,
    inc: IncView,
    depth: nat,
) -> bool
    decreases depth, 0nat,
{
    match builtin_named(inc.function) {
        Some(b) => !accepts(
            b,
            reached(edges, parse_path(inc.input)),
            reached(edges, parse_path(inc.input1)),
        ),
        None => if body_of(edges, inc.function).len() == 0 || depth == 0 {
            true
        } else {
            exists|point: Seq<char>| #[trigger]
                point_shape(point) && body_fails(
                    kernel,
                    call_start(
                        edges,
                        reached(edges, parse_path(inc.input)),
                        reached(edges, parse_path(inc.input1)),
                        call_root(point),
                    ),
                    call_root(point),
                    body_of(edges, inc.function),
                    (depth - 1) as nat,
                )
        },
    }
}

/// Whether the instruction `inc` can fail on `edges` under `root`: its
/// operator or its function does not stand for one endpoint, or, made ready,
/// it fails.
pub open spec fn step_fails<K: Fn(ArithOp, &String, &String) -> Option<String>>(
    kernel: &K,
    edges: Seq<EdgeView>,
    root: Seq<char>,
    inc: IncView,
    depth: nat,
) -> bool
    decreases depth, 1nat,
{
    ||| !resolves(edges, root, inc.operator)
    ||| !resolves(edges, root, inc.function)
    ||| exists|ready: IncView| #[trigger]
        inc_unwrap_rel(edges, root, inc, ready) && inc_fails(kernel, edges, ready, depth)
}

/// Whether the instructions `inc_v` can fail: some of them run, and the
/// next one fails on the edges that they have left.
pub open spec fn body_fails<K: Fn(ArithOp, &String, &String) -> Option<String>>(
    kernel: &K,
    edges: Seq<EdgeView>,
    root: Seq<char>,
    inc_v: Seq<IncView>,
    depth: nat,
) -> bool
    decreases depth, 2nat,
{
    exists|k: int, mid: Seq<EdgeView>|
        0 <= k < inc_v.len() && #[trigger] body_rel(kernel, edges, root, inc_v.take(k), depth, mid)
            && step_fails(kernel, mid, root, inc_v[k], depth)
}

fn too_deep() -> (e: Error)
    ensures
        e.spec_kind() == ErrorKind::Other,
{
    Error::new(ErrorKind::Other, String::from_str("the calls are nested too deep"))
}

fn under(root: &str, tail: &str) -> (r: String)
    ensures
        r@ == root@ + tail@,
{
    let mut s = String::from_str(root);
    s.append(tail);
    s
}

/// Runs one instruction that was made ready. `depth` is the number of
/// levels of user functions that may still be entered from here.
pub fn invoke_inc<DM: AsDataManager, K: Fn(ArithOp, &String, &String) -> Option<String>>(
    dm: &mut DM,
    kernel: &K,
    root: &str,
    inc: &Inc,
    depth: usize,
) -> (r: Result<(), Error>)
    requires
        forall|op: ArithOp, a: &String, b: &String| call_requires(*kernel, (op, a, b)),
    ensures
        final(dm).reliable() == old(dm).reliable(),
        r is Ok ==> inc_rel(kernel, old(dm).edges(), inc@, depth as nat, final(dm).edges()),
        old(dm).reliable() && builtin_named(inc@.function) is Some ==> (r is Ok <==> accepts(
            builtin_named(inc@.function).unwrap(),
            reached(old(dm).edges(), parse_path(inc@.input)),
            reached(old(dm).edges(), parse_path(inc@.input1)),
        )),
        old(dm).reliable() && builtin_named(inc@.function) is None && body_of(
            old(dm).edges(),
            inc@.function,
        ).len() == 0 ==> r is Err && r.unwrap_err().spec_kind() == ErrorKind::Resolution,
        old(dm).reliable() && builtin_named(inc@.function) is None && body_of(
            old(dm).edges(),
            inc@.function,
        ).len() > 0 && depth == 0 ==> r is Err && r.unwrap_err().spec_kind() == ErrorKind::Other,
        r is Err && old(dm).reliable() ==> script_error(r.unwrap_err().spec_kind()),
        r is Err && old(dm).reliable() ==> inc_fails(
            kernel,
            old(dm).edges(),
            inc@,
            depth as nat,
        ),
        r is Err && old(dm).reliable() && builtin_named(inc@.function) is Some
            ==> r.unwrap_err().spec_kind() == ErrorKind::InvalidArgs,
        r is Err && old(dm).reliable() && (builtin_named(inc@.function) is Some || depth == 0
            || body_of(old(dm).edges(), inc@.function).len() == 0) ==> final(dm).edges() == old(
            dm,
        ).edges(),
    decreases depth, 0nat,
{
    let input_item_v = match get_all_by_path(dm, &Path::from_str(inc.input.as_str())) {
        Ok(v) => v,
        Err(e) => {
            return Err(e);
        },
    };
    let input1_item_v = match get_all_by_path(dm, &Path::from_str(inc.input1.as_str())) {
        Ok(v) => v,
        Err(e) => {
            return Err(e);
        },
    };
    match builtin_of(inc.function.as_str()) {
        Some(b) => {
            let rs = match apply(dm, kernel, b, &input_item_v, &input1_item_v) {
                Ok(v) => v,
                Err(e) => {
                    return Err(e);
                },
            };
            let done = asign(dm, inc.output.as_str(), inc.operator.as_str(), &rs);
            proof {
                if done is Ok {
                    assert(builtin_rel(
                        kernel,
                        old(dm).edges(),
                        b,
                        reached(old(dm).edges(), parse_path(inc@.input)),
                        reached(old(dm).edges(), parse_path(inc@.input1)),
                        texts(rs@),
                    ));
                }
            }
            done
        },
        None => {
            let inc_v = match dump_inc_v(dm, inc.function.as_str()) {
                Ok(v) => v,
                Err(e) => {
                    return Err(e);
                },
            };
            if inc_v.len() == 0 {
                return Err(resolution("unknown function"));
            }
            if depth == 0 {
                return Err(too_deep());
            }
            let point = new_point();
            let new_root = under("$", point.as_str());
            proof {
                reveal_strlit("$");
                reveal_strlit("=");
                assert("$"@ =~= seq!['$']);
                assert("="@ =~= set_operator());
            }
            match asign(dm, under(new_root.as_str(), "->$input").as_str(), "=", &input_item_v) {
                Ok(_) => {},
                Err(e) => {
                    return Err(e);
                },
            }
            match asign(dm, under(new_root.as_str(), "->$input1").as_str(), "=", &input1_item_v) {
                Ok(_) => {},
                Err(e) => {
                    return Err(e);
                },
            }
            let ghost ready = dm.edges();
            proof {
                assert(ready == assigned(
                    assigned(
                        old(dm).edges(),
                        input_of(call_root(point@)),
                        true,
                        texts(input_item_v@),
                    ),
                    input1_of(call_root(point@)),
                    true,
                    texts(input1_item_v@),
                ));
            }
            match run_body(dm, kernel, new_root.as_str(), &inc_v, depth - 1) {
                Ok(_) => {},
                Err(e) => {
                    proof {
                        if old(dm).reliable() {
                            assert(point_shape(point@));
                            assert(body_fails(
                                kernel,
                                call_start(
                                    old(dm).edges(),
                                    texts(input_item_v@),
                                    texts(input1_item_v@),
                                    call_root(point@),
                                ),
                                call_root(point@),
                                body_of(old(dm).edges(), inc@.function),
                                (depth - 1) as nat,
                            ));
                        }
                    }
                    return Err(e);
                },
            }
            let ghost mid = dm.edges();
            proof {
                assert(body_rel(
                    kernel,
                    ready,
                    call_root(point@),
                    body_of(old(dm).edges(), inc@.function),
                    (depth - 1) as nat,
                    mid,
                ));
            }
            let rs = match get_all_by_path(
                dm,
                &Path::from_str(under(new_root.as_str(), "->$output").as_str()),
            ) {
                Ok(v) => v,
                Err(e) => {
                    return Err(e);
                },
            };
            let done = asign(dm, inc.output.as_str(), inc.operator.as_str(), &rs);
            proof {
                assert(texts(rs@) == reached(mid, output_of(call_root(point@))));
                if done is Ok {
                    assert(point_shape(point@));
                    assert(dm.edges() == assigned(
                        mid,
                        parse_path(inc@.output),
                        is_set(inc@.operator),
                        texts(rs@),
                    ));
                    assert(call_rel(
                        kernel,
                        old(dm).edges(),
                        inc@.function,
                        texts(input_item_v@),
                        texts(input1_item_v@),
                        call_root(point@),
                        depth as nat,
                        mid,
                        texts(rs@),
                    ));
                }
            }
            done
        },
    }
}

/// Runs the instructions of `inc_v` one after the other under `root`,
/// making each ready first.
pub fn run_body<DM: AsDataManager, K: Fn(ArithOp, &String, &String) -> Option<String>>(
    dm: &mut DM,
    kernel: &K,
    root: &str,
    inc_v: &Vec<Inc>,
    depth: usize,
) -> (r: Result<(), Error>)
    requires
        forall|op: ArithOp, a: &String, b: &String| call_requires(*kernel, (op, a, b)),
    ensures
        final(dm).reliable() == old(dm).reliable(),
        r is Ok ==> body_rel(
            kernel,
            old(dm).edges(),
            root@,
            inc_views(inc_v@),
            depth as nat,
            final(dm).edges(),
        ),
        inc_v@.len() == 0 ==> r is Ok,
        r is Err && old(dm).reliable() ==> script_error(r.unwrap_err().spec_kind()),
        r is Err && old(dm).reliable() ==> body_fails(
            kernel,
            old(dm).edges(),
            root@,
            inc_views(inc_v@),
            depth as nat,
        ),
    decreases depth, 1nat,
{
    let ghost all = inc_views(inc_v@);
    let mut i: usize = 0;
    proof {
        assert(all.take(0) =~= Seq::<IncView>::empty());
    }
    while i < inc_v.len()
        invariant
            i <= inc_v.len(),
            all == inc_views(inc_v@),
            forall|op: ArithOp, a: &String, b: &String| call_requires(*kernel, (op, a, b)),
            dm.reliable() == old(dm).reliable(),
            body_rel(kernel, old(dm).edges(), root@, all.take(i as int), depth as nat, dm.edges()),
        decreases inc_v.len() - i,
    {
        let ghost mid = dm.edges();
        proof {
            assert(all[i as int] == inc_v@[i as int]@);
        }
        let ready = match unwrap_inc(dm, root, &inc_v[i]) {
            Ok(v) => v,
            Err(e) => {
                proof {
                    if old(dm).reliable() {
                        assert(step_fails(kernel, mid, root@, all[i as int], depth as nat));
                        assert(body_rel(
                            kernel,
                            old(dm).edges(),
                            root@,
                            all.take(i as int),
                            depth as nat,
                            mid,
                        ));
                    }
                }
                return Err(e);
            },
        };
        match invoke_inc(dm, kernel, root, &ready, depth) {
            Ok(_) => {},
            Err(e) => {
                proof {
                    if old(dm).reliable() {
                        assert(inc_unwrap_rel(mid, root@, all[i as int], ready@));
                        assert(inc_fails(kernel, mid, ready@, depth as nat));
                        assert(step_fails(kernel, mid, root@, all[i as int], depth as nat));
                        assert(body_rel(
                            kernel,
                            old(dm).edges(),
                            root@,
                            all.take(i as int),
                            depth as nat,
                            mid,
                        ));
                    }
                }
                return Err(e);
            },
        }
        proof {
            assert(all.take(i + 1).drop_last() =~= all.take(i as int));
            assert(all.take(i + 1).last() == inc_v@[i as int]@);
            assert(body_rel(
                kernel,
                old(dm).edges(),
                root@,
                all.take(i + 1).drop_last(),
                depth as nat,
                mid,
            ));
            assert(inc_unwrap_rel(mid, root@, all.take(i + 1).last(), ready@));
            assert(inc_rel(kernel, mid, ready@, depth as nat, dm.edges()));
            assert(body_rel(
                kernel,
                old(dm).edges(),
                root@,
                all.take(i + 1),
                depth as nat,
                dm.edges(),
            ));
        }
        i += 1;
    }
    proof {
        assert(all.take(inc_v.len() as int) =~= all);
    }
    Ok(())
}

/// Runs a script under `root` and reads its result from `root->$output`.
pub fn invoke_inc_v<DM: AsDataManager, K: Fn(ArithOp, &String, &String) -> Option<String>>(
    dm: &mut DM,
    kernel: &K,
    root: &str,
    inc_v: &Vec<Inc>,
    depth: usize,
) -> (r: Result<Vec<String>, Error>)
    requires
        forall|op: ArithOp, a: &String, b: &String| call_requires(*kernel, (op, a, b)),
    ensures
        final(dm).reliable() == old(dm).reliable(),
        r is Ok ==> body_rel(
            kernel,
            old(dm).edges(),
            root@,
            inc_views(inc_v@),
            depth as nat,
            final(dm).edges(),
        ),
        r is Ok ==> texts(r.unwrap()@) == reached(final(dm).edges(), output_of(root@)),
        inc_v@.len() == 0 && old(dm).reliable() ==> r is Ok,
        r is Err && old(dm).reliable() ==> script_error(r.unwrap_err().spec_kind()),
        r is Err && old(dm).reliable() ==> body_fails(
            kernel,
            old(dm).edges(),
            root@,
            inc_views(inc_v@),
            depth as nat,
        ),
{
    match run_body(dm, kernel, root, inc_v, depth) {
        Ok(_) => {},
        Err(e) => {
            return Err(e);
        },
    }
    get_all_by_path(dm, &Path::from_str(under(root, "->$output").as_str()))
}

/// Where a run over a tree of scripts stands: the edges that it has left,
/// and the tree of results that it has made.
pub struct Stage {
    pub edges: Seq<EdgeView>,
    pub tree: JsonView,
}

/// Whether running the node `tree` on the item `input` can turn `edges`
/// into `after` and report `value`. The script is read; a root is made and
/// the item appended to its `$input`; the script runs. A node without
/// children reports the result as a list. Else the children run on each
/// element of the result in turn, and what they report is merged, element
/// after element.
pub open spec fn node_rel<K: Fn(ArithOp, &String, &String) -> Option<String>>(
    kernel: &K,
    edges: Seq<EdgeView>,
    input: Seq<char>,
    tree: ScriptTreeView,
    depth: nat,
    after: Seq<EdgeView>,
    value: JsonView,
) -> bool
    decreases tree, 2nat, 0nat,
{
    exists|point: Seq<char>, mid: Seq<EdgeView>|
        point_shape(point) && parse(tree.script) is Some && #[trigger] body_rel(
            kernel,
            assigned(edges, input_of(call_root(point)), false, seq![input]),
            call_root(point),
            parse(tree.script).unwrap(),
            depth,
            mid,
        ) && if tree.next_v.len() == 0 {
            after == mid && value == list_of(reached(mid, output_of(call_root(point))))
        } else {
            fork_rel(
                kernel,
                mid,
                reached(mid, output_of(call_root(point))),
                tree.next_v,
                depth,
                after,
                value,
            )
        }
}

/// Whether running `children` on each of `inputs` in turn can turn `edges`
/// into `after` and give `value`: what the children report for one element,
/// merged into what came of the elements before it.
pub open spec fn fork_rel<K: Fn(ArithOp, &String, &String) -> Option<String>>(
    kernel: &K,
    edges: Seq<EdgeView>,
    inputs: Seq<Seq<char>>,
    children: Seq<ScriptTreeView>,
    depth: nat,
    after: Seq<EdgeView>,
    value: JsonView,
) -> bool
    decreases children, 1nat, inputs.len(),
{
    if inputs.len() == 0 {
        after == edges && value == JsonView::Object(Seq::empty())
    } else {
        exists|at: Stage, sub: JsonView|
            fork_rel(kernel, edges, inputs.drop_last(), children, depth, at.edges, at.tree)
                && children_rel(
                kernel,
                at.edges,
                inputs.last(),
                children,
                children.len(),
                depth,
                after,
                sub,
            ) && value == #[trigger] merged(at.tree, sub)
    }
}

/// Whether running the first `n` of `children` on the item `input` can
/// turn `edges` into `after` and give the object `out`: each child puts what
/// it reports under its name.
pub open spec fn children_rel<K: Fn(ArithOp, &String, &String) -> Option<String>>(
    kernel: &K,
    edges: Seq<EdgeView>,
    input: Seq<char>,
    children: Seq<ScriptTreeView>,
    n: nat,
    depth: nat,
    after: Seq<EdgeView>,
    out: JsonView,
) -> bool
    decreases children, 0nat, n,
{
    if n == 0 || n > children.len() {
        after == edges && out == JsonView::Object(Seq::empty())
    } else {
        exists|at: Stage, value: JsonView|
            children_rel(
                kernel,
                edges,
                input,
                children,
                (n - 1) as nat,
                depth,
                at.edges,
                at.tree,
            ) && node_rel(kernel, at.edges, input, children[n - 1], depth, after, value) && out
                == JsonView::Object(
                #[trigger] put(members_of(at.tree), children[n - 1].name, value),
            )
    }
}

/// The edges with which the script of a node starts to run under the root
/// made of `point`: the item is appended to `$input` under the root.
pub open spec fn node_start(edges: Seq<EdgeView>, input: Seq<char>, point: Seq<char>) -> Seq<
    EdgeView,
> {
    assigned(edges, input_of(call_root(point)), false, seq![input])
}

/// Whether running the node `tree` on the item `input` can fail, the data
/// manager being reliable: its script does not parse; or the script fails; or
/// the script runs and its children fail on one of its results.
pub open spec fn node_fails<K: Fn(ArithOp, &String, &String) -> Option<String>>(
    kernel: &K,
    edges: Seq<EdgeView>,
    input: Seq<char>,
    tree: ScriptTreeView,
    depth: nat,
) -> bool
    decreases tree, 2nat,
{
    if parse(tree.script) is None {
        true
    } else {
        exists|point: Seq<char>| #[trigger]
            point_shape(point) && (body_fails(
                kernel,
                node_start(edges, input, point),
                call_root(point),
                parse(tree.script).unwrap(),
                depth,
            ) || (tree.next_v.len() > 0 && exists|mid: Seq<EdgeView>| #[trigger]
                body_rel(
                    kernel,
                    node_start(edges, input, point),
                    call_root(point),
                    parse(tree.script).unwrap(),
                    depth,
                    mid,
                ) && fork_fails(
                    kernel,
                    mid,
                    reached(mid, output_of(call_root(point))),
                    tree.next_v,
                    depth,
                )))
    }
}

/// Whether running `children` on each of `inputs` in turn can fail: they
/// run on some of the inputs, and fail on the next.
pub open spec fn fork_fails<K: Fn(ArithOp, &String, &String) -> Option<String>>(
    kernel: &K,
    edges: Seq<EdgeView>,
    inputs: Seq<Seq<char>>,
    children: Seq<ScriptTreeView>,
    depth: nat,
) -> bool
    decreases children, 1nat,
{
    exists|i: int, mid: Seq<EdgeView>, cur: JsonView|
        0 <= i < inputs.len() && #[trigger] fork_rel(
            kernel,
            edges,
            inputs.take(i),
            children,
            depth,
            mid,
            cur,
        ) && children_fail(kernel, mid, inputs[i], children, depth)
}

/// Whether running `children` on the item `input` can fail: some of them
/// run, and the next one fails.
pub open spec fn children_fail<K: Fn(ArithOp, &String, &String) -> Option<String>>(
    kernel: &K,
    edges: Seq<EdgeView>,
    input: Seq<char>,
    children: Seq<ScriptTreeView>,
    depth: nat,
) -> bool
    decreases children, 0nat,
{
    exists|j: nat, mid: Seq<EdgeView>, partial: JsonView|
        j < children.len() && #[trigger] children_rel(
            kernel,
            edges,
            input,
            children,
            j,
            depth,
            mid,
            partial,
        ) && node_fails(kernel, mid, input, children[j as int], depth)
}

/// Runs the node `script_tree` on the item `input` and puts what it
/// reports into `out_tree`, under the name of the node.
pub fn execute<DM: AsDataManager, K: Fn(ArithOp, &String, &String) -> Option<String>>(
    dm: &mut DM,
    kernel: &K,
    input: &str,
    script_tree: &ScriptTree,
    out_tree: &mut Json,
    depth: usize,
) -> (r: Result<(), Error>)
    requires
        forall|op: ArithOp, a: &String, b: &String| call_requires(*kernel, (op, a, b)),
    ensures
        final(dm).reliable() == old(dm).reliable(),
        r is Ok ==> exists|value: JsonView| #[trigger]
            node_rel(
                kernel,
                old(dm).edges(),
                input@,
                script_tree@,
                depth as nat,
                final(dm).edges(),
                value,
            ) && final(out_tree)@ == JsonView::Object(
                put(members_of(old(out_tree)@), script_tree@.name, value),
            ),
        r is Err ==> final(out_tree)@ == old(out_tree)@,
        parse(script_tree@.script) is None ==> r is Err && r.unwrap_err().spec_kind()
            == ErrorKind::InvalidScript && final(dm).edges() == old(dm).edges(),
        r is Err && old(dm).reliable() ==> script_error(r.unwrap_err().spec_kind())
            || r.unwrap_err().spec_kind() == ErrorKind::InvalidScript,
        r is Err && old(dm).reliable() && script_tree@.next_v.len() == 0 && parse(
            script_tree@.script,
        ) is Some ==> script_error(r.unwrap_err().spec_kind()),
        r is Err && old(dm).reliable() ==> node_fails(
            kernel,
            old(dm).edges(),
            input@,
            script_tree@,
            depth as nat,
        ),
        old(dm).reliable() && script_tree@.next_v.len() == 0 && parse(script_tree@.script) == Some(
            Seq::<IncView>::empty(),
        ) ==> r is Ok,
    decreases script_tree,
{
    let inc_v = match parse_script(script_tree.script.as_str()) {
        Ok(v) => v,
        Err(e) => {
            return Err(e);
        },
    };
    let point = new_point();
    let root = under("$", point.as_str());
    proof {
        reveal_strlit("$");
        reveal_strlit("+=");
        assert("$"@ =~= seq!['$']);
        assert("+="@.len() == 2);
        lemma_script_tree_view(script_tree);
    }
    let mut item_v: Vec<String> = Vec::new();
    item_v.push(input.to_owned());
    proof {
        assert(texts(item_v@) =~= seq![input@]);
    }
    match asign(dm, under(root.as_str(), "->$input").as_str(), "+=", &item_v) {
        Ok(_) => {},
        Err(e) => {
            return Err(e);
        },
    }
    let ghost seeded = dm.edges();
    proof {
        assert(seeded == assigned(
            old(dm).edges(),
            input_of(call_root(point@)),
            false,
            seq![input@],
        ));
    }
    let rs = match invoke_inc_v(dm, kernel, root.as_str(), &inc_v, depth) {
        Ok(v) => v,
        Err(e) => {
            proof {
                if old(dm).reliable() {
                    assert(point_shape(point@));
                    assert(body_fails(
                        kernel,
                        node_start(old(dm).edges(), input@, point@),
                        call_root(point@),
                        parse(script_tree@.script).unwrap(),
                        depth as nat,
                    ));
                }
            }
            return Err(e);
        },
    };
    let ghost mid = dm.edges();
    let ghost children = script_tree@.next_v;
    proof {
        assert(body_rel(
            kernel,
            seeded,
            call_root(point@),
            parse(script_tree@.script).unwrap(),
            depth as nat,
            mid,
        ));
        assert(texts(rs@) == reached(mid, output_of(call_root(point@))));
    }
    if script_tree.next_v.len() == 0 {
        let value = Json::list(&rs);
        proof {
            assert(script_tree@.next_v.len() == 0);
            assert(node_rel(
                kernel,
                old(dm).edges(),
                input@,
                script_tree@,
                depth as nat,
                mid,
                value@,
            ));
        }
        out_tree.insert(script_tree.name.as_str(), value);
        return Ok(());
    }
    let mut cur = Json::object();
    let ghost inputs = texts(rs@);
    let mut i: usize = 0;
    proof {
        assert(inputs.take(0) =~= Seq::<Seq<char>>::empty());
    }
    while i < rs.len()
        invariant
            i <= rs.len(),
            inputs == texts(rs@),
            children == script_tree@.next_v,
            children == script_tree_views(script_tree.next_v@),
            parse(script_tree@.script) is Some,
            forall|op: ArithOp, a: &String, b: &String| call_requires(*kernel, (op, a, b)),
            dm.reliable() == old(dm).reliable(),
            *out_tree == *old(out_tree),
            script_tree@.next_v.len() > 0,
            point_shape(point@),
            inputs == reached(mid, output_of(call_root(point@))),
            body_rel(
                kernel,
                node_start(old(dm).edges(), input@, point@),
                call_root(point@),
                parse(script_tree@.script).unwrap(),
                depth as nat,
                mid,
            ),
            fork_rel(kernel, mid, inputs.take(i as int), children, depth as nat, dm.edges(), cur@),
        decreases rs.len() - i,
    {
        let ghost before = dm.edges();
        let ghost cur_before = cur@;
        let mut sub = Json::object();
        let mut j: usize = 0;
        while j < script_tree.next_v.len()
            invariant
                j <= script_tree.next_v.len(),
                i < rs.len(),
                children == script_tree@.next_v,
                children == script_tree_views(script_tree.next_v@),
                parse(script_tree@.script) is Some,
                forall|op: ArithOp, a: &String, b: &String| call_requires(*kernel, (op, a, b)),
                dm.reliable() == old(dm).reliable(),
                *out_tree == *old(out_tree),
                inputs == texts(rs@),
                script_tree@.next_v.len() > 0,
                point_shape(point@),
                inputs == reached(mid, output_of(call_root(point@))),
                body_rel(
                    kernel,
                    node_start(old(dm).edges(), input@, point@),
                    call_root(point@),
                    parse(script_tree@.script).unwrap(),
                    depth as nat,
                    mid,
                ),
                fork_rel(
                    kernel,
                    mid,
                    inputs.take(i as int),
                    children,
                    depth as nat,
                    before,
                    cur_before,
                ),
                children_rel(
                    kernel,
                    before,
                    rs@[i as int]@,
                    children,
                    j as nat,
                    depth as nat,
                    dm.edges(),
                    sub@,
                ),
            decreases script_tree.next_v.len() - j,
        {
            let ghost here = dm.edges();
            let ghost partial = sub@;
            match execute(dm, kernel, rs[i].as_str(), &script_tree.next_v[j], &mut sub, depth) {
                Ok(_) => {},
                Err(e) => {
                    proof {
                        if old(dm).reliable() {
                            assert(children[j as int] == script_tree.next_v@[j as int]@);
                            assert(inputs[i as int] == rs@[i as int]@);
                            assert(node_fails(
                                kernel,
                                here,
                                inputs[i as int],
                                children[j as int],
                                depth as nat,
                            ));
                            assert(children_rel(
                                kernel,
                                before,
                                inputs[i as int],
                                children,
                                j as nat,
                                depth as nat,
                                here,
                                partial,
                            ));
                            assert(children_fail(
                                kernel,
                                before,
                                inputs[i as int],
                                children,
                                depth as nat,
                            ));
                            assert(fork_fails(kernel, mid, inputs, children, depth as nat));
                            assert(node_fails(
                                kernel,
                                old(dm).edges(),
                                input@,
                                script_tree@,
                                depth as nat,
                            ));
                        }
                    }
                    return Err(e);
                },
            }
            proof {
                let value = choose|value: JsonView| #[trigger]
                    node_rel(
                        kernel,
                        here,
                        rs@[i as int]@,
                        script_tree.next_v@[j as int]@,
                        depth as nat,
                        dm.edges(),
                        value,
                    ) && sub@ == JsonView::Object(
                        put(members_of(partial), script_tree.next_v@[j as int]@.name, value),
                    );
                assert(children[j as int] == script_tree.next_v@[j as int]@);
                let at = Stage { edges: here, tree: partial };
                let n = (j + 1) as nat;
                assert(children[n - 1] == children[j as int]);
                assert(sub@ == JsonView::Object(
                    put(members_of(at.tree), children[n - 1].name, value),
                ));
                assert(node_rel(
                    kernel,
                    at.edges,
                    rs@[i as int]@,
                    children[n - 1],
                    depth as nat,
                    dm.edges(),
                    value,
                ));
            }
            j += 1;
        }
        let ghost sub_view = sub@;
        merge(&mut cur, &sub);
        proof {
            assert(inputs.take(i + 1).drop_last() =~= inputs.take(i as int));
            assert(inputs.take(i + 1).last() == rs@[i as int]@);
            let at = Stage { edges: before, tree: cur_before };
            assert(cur@ == merged(at.tree, sub_view));
        }
        i += 1;
    }
    proof {
        assert(inputs.take(rs.len() as int) =~= inputs);
        assert(node_rel(
            kernel,
            old(dm).edges(),
            input@,
            script_tree@,
            depth as nat,
            dm.edges(),
            cur@,
        ));
    }
    out_tree.insert(script_tree.name.as_str(), cur);
    Ok(())
}

/// How many levels of user functions an engine lets a script enter, unless
/// it is told otherwise.
pub const CALL_DEPTH: usize = 64;

/// The engine of one session: a data manager, the kernel that computes on
/// numbers, and the limit on nested calls.
pub struct EdgeEngine<DM: AsDataManager, K: Fn(ArithOp, &String, &String) -> Option<String>> {
    dm: DM,
    kernel: K,
    depth: usize,
}

impl<DM: AsDataManager, K: Fn(ArithOp, &String, &String) -> Option<String>> EdgeEngine<DM, K> {
    /// Whether the engine is in order: its kernel answers every call.
    pub closed spec fn wf(&self) -> bool {
        forall|op: ArithOp, a: &String, b: &String| call_requires(self.kernel, (op, a, b))
    }

    /// The data manager of the engine.
    pub closed spec fn spec_dm(&self) -> DM {
        self.dm
    }

    /// The kernel of the engine.
    pub closed spec fn spec_kernel(&self) -> K {
        self.kernel
    }

    /// The limit on nested calls.
    pub closed spec fn spec_depth(&self) -> nat {
        self.depth as nat
    }

    /// An engine over `dm` that computes with `kernel` and lets scripts
    /// enter `CALL_DEPTH` levels of user functions.
    pub fn new(dm: DM, kernel: K) -> (r: Self)
        requires
            forall|op: ArithOp, a: &String, b: &String| call_requires(kernel, (op, a, b)),
        ensures
            r.wf(),
            r.spec_dm() == dm,
            r.spec_kernel() == kernel,
            r.spec_depth() == CALL_DEPTH,
    {
        Self { dm, kernel, depth: CALL_DEPTH }
    }

    /// An engine like `new`, with `depth` as the limit on nested calls.
    pub fn with_depth(dm: DM, kernel: K, depth: usize) -> (r: Self)
        requires
            forall|op: ArithOp, a: &String, b: &String| call_requires(kernel, (op, a, b)),
        ensures
            r.wf(),
            r.spec_dm() == dm,
            r.spec_kernel() == kernel,
            r.spec_depth() == depth,
    {
        Self { dm, kernel, depth }
    }

    /// The data manager, to read from.
    pub fn dm(&mut self) -> (r: &mut DM)
        ensures
            *r == old(self).spec_dm(),
            final(self).spec_dm() == *final(r),
            final(self).spec_kernel() == old(self).spec_kernel(),
            final(self).spec_depth() == old(self).spec_depth(),
    {
        &mut self.dm
    }

    /// Runs a tree of scripts on the empty item and gives the tree of
    /// results: an object with the result of the root under its name.
    pub fn execute(&mut self, script_tree: &ScriptTree) -> (r: Result<Json, Error>)
        requires
            old(self).wf(),
        ensures
            final(self).wf(),
            final(self).spec_kernel() == old(self).spec_kernel(),
            final(self).spec_depth() == old(self).spec_depth(),
            final(self).spec_dm().reliable() == old(self).spec_dm().reliable(),
            r is Ok ==> exists|value: JsonView| #[trigger]
                node_rel(
                    &old(self).spec_kernel(),
                    old(self).spec_dm().edges(),
                    Seq::empty(),
                    script_tree@,
                    old(self).spec_depth(),
                    final(self).spec_dm().edges(),
                    value,
                ) && r.unwrap()@ == JsonView::Object(
                    seq![MemberView { key: script_tree@.name, value }],
                ),
            parse(script_tree@.script) is None ==> r is Err && r.unwrap_err().spec_kind()
                == ErrorKind::InvalidScript,
            r is Err && old(self).spec_dm().reliable() ==> script_error(
                r.unwrap_err().spec_kind(),
            ) || r.unwrap_err().spec_kind() == ErrorKind::InvalidScript,
            r is Err && old(self).spec_dm().reliable() && script_tree@.next_v.len() == 0 && parse(
                script_tree@.script,
            ) is Some ==> script_error(r.unwrap_err().spec_kind()),
            r is Err && old(self).spec_dm().reliable() ==> node_fails(
                &old(self).spec_kernel(),
                old(self).spec_dm().edges(),
                Seq::empty(),
                script_tree@,
                old(self).spec_depth(),
            ),
            old(self).spec_dm().reliable() && script_tree@.next_v.len() == 0 && parse(
                script_tree@.script,
            ) == Some(Seq::<IncView>::empty()) ==> r is Ok,
    {
        let mut out_tree = Json::object();
        match execute(&mut self.dm, &self.kernel, "", script_tree, &mut out_tree, self.depth) {
            Ok(_) => {
                proof {
                    reveal_strlit("");
                    assert(""@ =~= Seq::<char>::empty());
                    let value = choose|value: JsonView| #[trigger]
                        node_rel(
                            &old(self).spec_kernel(),
                            old(self).spec_dm().edges(),
                            ""@,
                            script_tree@,
                            old(self).spec_depth(),
                            self.spec_dm().edges(),
                            value,
                        ) && out_tree@ == JsonView::Object(
                            put(Seq::empty(), script_tree@.name, value),
                        );
                    assert(put(Seq::empty(), script_tree@.name, value) =~= seq![
                        MemberView { key: script_tree@.name, value },
                    ]);
                }
                Ok(out_tree)
            },
            Err(e) => {
                proof {
                    reveal_strlit("");
                    assert(""@ =~= Seq::<char>::empty());
                }
                Err(e)
            },
        }
    }

    /// Makes durable what the scripts have written: it hands the commit to
    /// the data manager and gives back what the manager answers. Where the
    /// manager succeeds, the durable edges are those that the session sees,
    /// without the edges that have a temporary name; where it fails, nothing
    /// has become durable that was not. What the session sees stays.
    pub fn commit(&mut self) -> (r: Result<(), Error>)
        requires
            old(self).wf(),
        ensures
            final(self).wf(),
            final(self).spec_kernel() == old(self).spec_kernel(),
            final(self).spec_depth() == old(self).spec_depth(),
            final(self).spec_dm().reliable() == old(self).spec_dm().reliable(),
            final(self).spec_dm().edges() == old(self).spec_dm().edges(),
            old(self).spec_dm().reliable() ==> r is Ok,
            r is Ok ==> final(self).spec_dm().saved() == keep(
                old(self).spec_dm().edges(),
                Select::Lasting,
            ),
            r is Err ==> final(self).spec_dm().saved() == old(self).spec_dm().saved(),
    {
        self.dm.commit()
    }
}

} // verus!

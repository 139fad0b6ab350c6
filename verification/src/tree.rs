//! Trees: the tree of scripts that a client sends, and the tree of results
//! that comes back.

use crate::text::same_text;
use vstd::prelude::*;

verus! {

/// A member of an object, as characters.
pub struct MemberView {
    pub key: Seq<char>,
    pub value: JsonView,
}

/// A tree of results, as characters.
pub enum JsonView {
    Text(Seq<char>),
    Array(Seq<JsonView>),
    Object(Seq<MemberView>),
}

/// A member of an object: a key and what stands under it.
#[derive(Debug)]
pub struct Member {
    pub key: String,
    pub value: Json,
}

/// A tree of results: a string, a list, or an object whose members keep
/// the order in which they were put.
#[derive(Debug)]
pub enum Json {
    Text(String),
    Array(Vec<Json>),
    Object(Vec<Member>),
}

impl View for Json {
    type V = JsonView;

    open spec fn view(&self) -> JsonView
        decreases self,
    {
        match self {
            Json::Text(s) => JsonView::Text(s@),
            Json::Array(v) => JsonView::Array(
                Seq::new(
                    v@.len(),
                    |i: int|
                        if 0 <= i < v@.len() {
                            v@[i].view()
                        } else {
                            JsonView::Text(Seq::empty())
                        },
                ),
            ),
            Json::Object(v) => JsonView::Object(
                Seq::new(
                    v@.len(),
                    |i: int|
                        if 0 <= i < v@.len() {
                            MemberView { key: v@[i].key@, value: v@[i].value.view() }
                        } else {
                            MemberView { key: Seq::empty(), value: JsonView::Text(Seq::empty()) }
                        },
                ),
            ),
        }
    }
}

impl View for Member {
    type V = MemberView;

    open spec fn view(&self) -> MemberView {
        MemberView { key: self.key@, value: self.value@ }
    }
}

/// The members of a vector, each by its view.
pub open spec fn member_views(v: Seq<Member>) -> Seq<MemberView> {
    Seq::new(v.len(), |i: int| v[i]@)
}

/// The trees of a vector, each by its view.
pub open spec fn json_views(v: Seq<Json>) -> Seq<JsonView> {
    Seq::new(v.len(), |i: int| v[i]@)
}

pub proof fn lemma_object_view(v: Vec<Member>)
    ensures
        Json::Object(v)@ == JsonView::Object(member_views(v@)),
{
    assert(Json::Object(v)@->Object_0 =~= member_views(v@));
}

pub proof fn lemma_array_view(v: Vec<Json>)
    ensures
        Json::Array(v)@ == JsonView::Array(json_views(v@)),
{
    assert(Json::Array(v)@->Array_0 =~= json_views(v@));
}

/// The members of an object; none for what is no object.
pub open spec fn members_of(j: JsonView) -> Seq<MemberView> {
    match j {
        JsonView::Object(m) => m,
        _ => Seq::empty(),
    }
}

/// The place of the first member with the key `key`; the number of members
/// where there is none.
pub open spec fn key_index(m: Seq<MemberView>, key: Seq<char>) -> int
    decreases m.len(),
{
    if m.len() == 0 {
        0
    } else if key_index(m.drop_last(), key) < m.len() - 1 {
        key_index(m.drop_last(), key)
    } else if m.last().key == key {
        m.len() - 1
    } else {
        m.len() as int
    }
}

/// `key_index` is the least place with the key.
pub proof fn lemma_key_index(m: Seq<MemberView>, key: Seq<char>)
    ensures
        0 <= key_index(m, key) <= m.len(),
        key_index(m, key) < m.len() ==> m[key_index(m, key)].key == key,
        forall|j: int| 0 <= j < key_index(m, key) ==> (#[trigger] m[j]).key != key,
    decreases m.len(),
{
    if m.len() > 0 {
        lemma_key_index(m.drop_last(), key);
        assert forall|j: int| 0 <= j < key_index(m, key) implies (#[trigger] m[j]).key != key by {
            if j < m.len() - 1 {
                assert(m.drop_last()[j] == m[j]);
            }
        }
    }
}

/// `members` with `value` under `key`: in the place of the first member
/// with that key, or at the end where there is none.
pub open spec fn put(members: Seq<MemberView>, key: Seq<char>, value: JsonView) -> Seq<MemberView> {
    if key_index(members, key) < members.len() {
        members.update(key_index(members, key), MemberView { key, value })
    } else {
        members.push(MemberView { key, value })
    }
}

/// What merging the tree `s` into the tree `p` gives. Where `s` has no
/// members, `p` stays; else the result is an object: the members of `p`, each
/// member of `s` merged into them in turn.
pub open spec fn merged(p: JsonView, s: JsonView) -> JsonView
    decreases s, 0nat,
{
    match s {
        JsonView::Object(from) => if from.len() == 0 {
            p
        } else {
            JsonView::Object(merged_into(members_of(p), from, from.len()))
        },
        _ => p,
    }
}

/// `m` with the first `n` members of `from` merged into it, one after the
/// other.
pub open spec fn merged_into(m: Seq<MemberView>, from: Seq<MemberView>, n: nat) -> Seq<MemberView>
    decreases from, n,
{
    if n == 0 || n > from.len() {
        m
    } else {
        merged_one(merged_into(m, from, (n - 1) as nat), from[n - 1])
    }
}

/// `m` with one member merged into it. A list is added, whole, as one more
/// element to the list under its key, which is made if it is not there; under
/// a key that holds no list, nothing happens. Anything else is merged into
/// what stands under its key, an empty object where nothing does.
pub open spec fn merged_one(m: Seq<MemberView>, member: MemberView) -> Seq<MemberView>
    decreases member, 0nat,
{
    let i = key_index(m, member.key);
    match member.value {
        JsonView::Array(_) => if i < m.len() {
            match m[i].value {
                JsonView::Array(items) => m.update(
                    i,
                    MemberView { key: m[i].key, value: JsonView::Array(items.push(member.value)) },
                ),
                _ => m,
            }
        } else {
            m.push(MemberView { key: member.key, value: JsonView::Array(seq![member.value]) })
        },
        _ => if i < m.len() {
            m.update(i, MemberView { key: m[i].key, value: merged(m[i].value, member.value) })
        } else {
            m.push(
                MemberView {
                    key: member.key,
                    value: merged(JsonView::Object(Seq::empty()), member.value),
                },
            )
        },
    }
}

/// The list of strings `items` as a tree.
pub open spec fn list_of(items: Seq<Seq<char>>) -> JsonView {
    JsonView::Array(Seq::new(items.len(), |i: int| JsonView::Text(items[i])))
}

fn find(member_v: &Vec<Member>, key: &str) -> (r: usize)
    ensures
        r == key_index(member_views(member_v@), key@),
        r <= member_v.len(),
{
    let ghost m = member_views(member_v@);
    let mut i: usize = 0;
    proof {
        assert(m.take(0) =~= Seq::<MemberView>::empty());
    }
    while i < member_v.len()
        invariant
            i <= member_v.len(),
            m == member_views(member_v@),
            key_index(m.take(i as int), key@) == i,
        decreases member_v.len() - i,
    {
        proof {
            assert(m.take(i + 1).drop_last() =~= m.take(i as int));
            assert(m.take(i + 1).last() == member_v@[i as int]@);
        }
        if same_text(member_v[i].key.as_str(), key) {
            proof {
                lemma_key_index_found(m, key@, i + 1);
            }
            return i;
        }
        i += 1;
    }
    proof {
        assert(m.take(member_v.len() as int) =~= m);
    }
    i
}

proof fn lemma_key_index_found(m: Seq<MemberView>, key: Seq<char>, k: int)
    requires
        0 <= k <= m.len(),
        key_index(m.take(k), key) < k,
    ensures
        key_index(m, key) == key_index(m.take(k), key),
    decreases m.len() - k,
{
    if k < m.len() {
        assert(m.take(k + 1).drop_last() =~= m.take(k));
        lemma_key_index_found(m, key, k + 1);
    } else {
        assert(m.take(k) =~= m);
    }
}

impl Json {
    /// An object without members.
    pub fn object() -> (r: Json)
        ensures
            r@ == JsonView::Object(Seq::empty()),
    {
        let v: Vec<Member> = Vec::new();
        proof {
            lemma_object_view(v);
            assert(member_views(v@) =~= Seq::<MemberView>::empty());
        }
        Json::Object(v)
    }

    /// A list of strings.
    pub fn list(item_v: &Vec<String>) -> (r: Json)
        ensures
            r@ == list_of(crate::text::texts(item_v@)),
    {
        let mut out: Vec<Json> = Vec::new();
        let mut i: usize = 0;
        while i < item_v.len()
            invariant
                i <= item_v.len(),
                out@.len() == i,
                forall|k: int| 0 <= k < i ==> (#[trigger] out@[k])@ == JsonView::Text(item_v@[k]@),
            decreases item_v.len() - i,
        {
            out.push(Json::Text(item_v[i].clone()));
            i += 1;
        }
        proof {
            lemma_array_view(out);
            assert(json_views(out@) =~= list_of(crate::text::texts(item_v@))->Array_0);
        }
        Json::Array(out)
    }

    /// A copy of the tree.
    pub fn copy(&self) -> (r: Json)
        ensures
            r@ == self@,
        decreases self,
    {
        match self {
            Json::Text(s) => Json::Text(s.clone()),
            Json::Array(v) => {
                let mut out: Vec<Json> = Vec::new();
                let mut i: usize = 0;
                while i < v.len()
                    invariant
                        i <= v.len(),
                        out@.len() == i,
                        decreases_to!(self => v),
                        forall|j: int| 0 <= j < i ==> out@[j]@ == v@[j]@,
                    decreases v.len() - i,
                {
                    out.push(v[i].copy());
                    i += 1;
                }
                proof {
                    lemma_array_view(out);
                    lemma_array_view(*v);
                    assert(json_views(out@) =~= json_views(v@));
                }
                Json::Array(out)
            },
            Json::Object(v) => {
                let mut out: Vec<Member> = Vec::new();
                let mut i: usize = 0;
                while i < v.len()
                    invariant
                        i <= v.len(),
                        out@.len() == i,
                        decreases_to!(self => v),
                        forall|j: int| 0 <= j < i ==> out@[j]@ == v@[j]@,
                    decreases v.len() - i,
                {
                    out.push(Member { key: v[i].key.clone(), value: v[i].value.copy() });
                    i += 1;
                }
                proof {
                    lemma_object_view(out);
                    lemma_object_view(*v);
                    assert(member_views(out@) =~= member_views(v@));
                }
                Json::Object(out)
            },
        }
    }

    /// Puts `value` under `key`, in the place of what stands there or as a
    /// new member. What is no object becomes one first.
    pub fn insert(&mut self, key: &str, value: Json)
        ensures
            final(self)@ == JsonView::Object(put(members_of(old(self)@), key@, value@)),
    {
        let mut taken = Json::Text(String::new());
        core::mem::swap(self, &mut taken);
        let mut mine: Vec<Member> = match taken {
            Json::Object(m) => {
                proof {
                    lemma_object_view(m);
                }
                m
            },
            _ => Vec::new(),
        };
        proof {
            assert(member_views(mine@) =~= members_of(old(self)@));
        }
        let i = find(&mine, key);
        let ghost before = member_views(mine@);
        let member = Member { key: key.to_owned(), value };
        if i < mine.len() {
            mine.remove(i);
            mine.insert(i, member);
            proof {
                assert(member_views(mine@) =~= before.update(i as int, member@));
            }
        } else {
            mine.push(member);
            proof {
                assert(member_views(mine@) =~= before.push(member@));
            }
        }
        proof {
            lemma_object_view(mine);
        }
        *self = Json::Object(mine);
    }

    /// What stands under `key`, if this is an object that has the key.
    pub fn get(&self, key: &str) -> (r: Option<&Json>)
        ensures
            r is Some <==> key_index(members_of(self@), key@) < members_of(self@).len(),
            r is Some ==> r.unwrap()@ == members_of(self@)[key_index(members_of(self@), key@)].value,
    {
        match self {
            Json::Object(m) => {
                proof {
                    lemma_object_view(*m);
                }
                let i = find(m, key);
                if i < m.len() {
                    Some(&m[i].value)
                } else {
                    None
                }
            },
            _ => None,
        }
    }

    /// The element at `i`, if this is a list that reaches there.
    pub fn at(&self, i: usize) -> (r: Option<&Json>)
        ensures
            r is Some <==> self@ is Array && i < self@->Array_0.len(),
            r is Some ==> r.unwrap()@ == self@->Array_0[i as int],
    {
        match self {
            Json::Array(v) => {
                proof {
                    lemma_array_view(*v);
                }
                if i < v.len() {
                    Some(&v[i])
                } else {
                    None
                }
            },
            _ => None,
        }
    }

    /// The number of elements of a list, or of members of an object; 0 for
    /// a string.
    pub fn len(&self) -> (r: usize)
        ensures
            r == match self@ {
                JsonView::Text(_) => 0,
                JsonView::Array(items) => items.len(),
                JsonView::Object(members) => members.len(),
            },
    {
        match self {
            Json::Text(_) => 0,
            Json::Array(v) => v.len(),
            Json::Object(m) => m.len(),
        }
    }

    /// The string, if this is one.
    pub fn as_str(&self) -> (r: Option<&str>)
        ensures
            r is Some <==> self@ is Text,
            r is Some ==> r.unwrap()@ == self@->Text_0,
    {
        match self {
            Json::Text(s) => Some(s.as_str()),
            _ => None,
        }
    }
}

/// Merges the tree `s_tree` into the tree `p_tree`: each member of
/// `s_tree` in turn, a list as one more element of the list under its key,
/// anything else merged into what stands under its key.
pub fn merge(p_tree: &mut Json, s_tree: &Json)
    ensures
        final(p_tree)@ == merged(old(p_tree)@, s_tree@),
    decreases s_tree,
{
    let from = match s_tree {
        Json::Object(m) => m,
        _ => {
            return ;
        },
    };
    proof {
        lemma_object_view(*from);
    }
    if from.len() == 0 {
        return ;
    }
    let mut taken = Json::Text(String::new());
    core::mem::swap(p_tree, &mut taken);
    let mut mine: Vec<Member> = match taken {
        Json::Object(m) => {
            proof {
                lemma_object_view(m);
            }
            m
        },
        _ => Vec::new(),
    };
    let ghost start = members_of(old(p_tree)@);
    let ghost all = member_views(from@);
    proof {
        assert(member_views(mine@) =~= start);
    }
    let mut n: usize = 0;
    while n < from.len()
        invariant
            n <= from.len(),
            decreases_to!(s_tree => from),
            all == member_views(from@),
            member_views(mine@) == merged_into(start, all, n as nat),
        decreases from.len() - n,
    {
        let member = &from[n];
        let ghost before = member_views(mine@);
        let i = find(&mine, member.key.as_str());
        proof {
            assert(all[n as int] == member@);
        }
        match &member.value {
            Json::Array(_) => {
                if i < mine.len() {
                    let held = mine.remove(i);
                    let Member { key, value } = held;
                    let value = match value {
                        Json::Array(mut items) => {
                            proof {
                                lemma_array_view(items);
                            }
                            let ghost old_items = json_views(items@);
                            let one = member.value.copy();
                            items.push(one);
                            proof {
                                lemma_array_view(items);
                                assert(json_views(items@) =~= old_items.push(member@.value));
                            }
                            Json::Array(items)
                        },
                        other => other,
                    };
                    let fresh = Member { key, value };
                    mine.insert(i, fresh);
                    proof {
                        assert(member_views(mine@) =~= before.update(i as int, fresh@));
                        assert(before.update(i as int, before[i as int]) =~= before);
                    }
                } else {
                    let mut items: Vec<Json> = Vec::new();
                    items.push(member.value.copy());
                    proof {
                        lemma_array_view(items);
                        assert(json_views(items@) =~= seq![member@.value]);
                    }
                    let fresh = Member { key: member.key.clone(), value: Json::Array(items) };
                    mine.push(fresh);
                    proof {
                        assert(member_views(mine@) =~= before.push(fresh@));
                    }
                }
            },
            _ => {
                if i < mine.len() {
                    let held = mine.remove(i);
                    let Member { key, value } = held;
                    let mut slot = value;
                    merge(&mut slot, &member.value);
                    let fresh = Member { key, value: slot };
                    mine.insert(i, fresh);
                    proof {
                        assert(member_views(mine@) =~= before.update(i as int, fresh@));
                    }
                } else {
                    let mut slot = Json::object();
                    merge(&mut slot, &member.value);
                    let fresh = Member { key: member.key.clone(), value: slot };
                    mine.push(fresh);
                    proof {
                        assert(member_views(mine@) =~= before.push(fresh@));
                    }
                }
            },
        }
        proof {
            assert(member_views(mine@) == merged_one(before, member@));
        }
        n += 1;
    }
    proof {
        lemma_object_view(mine);
    }
    *p_tree = Json::Object(mine);
}

/// A tree of scripts, as characters.
pub struct ScriptTreeView {
    pub script: Seq<char>,
    pub name: Seq<char>,
    pub next_v: Seq<ScriptTreeView>,
}

/// A tree of scripts: a script, the name under which its result is
/// reported, and the scripts that run on each element of its result.
#[derive(Debug)]
pub struct ScriptTree {
    pub script: String,
    pub name: String,
    pub next_v: Vec<ScriptTree>,
}

impl View for ScriptTree {
    type V = ScriptTreeView;

    open spec fn view(&self) -> ScriptTreeView
        decreases self,
    {
        ScriptTreeView {
            script: self.script@,
            name: self.name@,
            next_v: Seq::new(
                self.next_v@.len(),
                |i: int|
                    if 0 <= i < self.next_v@.len() {
                        self.next_v@[i].view()
                    } else {
                        ScriptTreeView {
                            script: Seq::empty(),
                            name: Seq::empty(),
                            next_v: Seq::empty(),
                        }
                    },
            ),
        }
    }
}

/// The trees of a vector, each by its view.
pub open spec fn script_tree_views(v: Seq<ScriptTree>) -> Seq<ScriptTreeView> {
    Seq::new(v.len(), |i: int| v[i]@)
}

pub proof fn lemma_script_tree_view(t: &ScriptTree)
    ensures
        t@.next_v == script_tree_views(t.next_v@),
{
    assert(t@.next_v =~= script_tree_views(t.next_v@));
}

} // verus!

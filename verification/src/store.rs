//! The tree store: a forest of `TreeItem`s with get/add/update/delete/move.
//!
//! The store owns the forest as plain data. Callers that share it across
//! threads hold it behind their own lock, and write the forest out through
//! their own persistence adapter after each successful mutation; neither the
//! lock nor the file belongs to this module.

use vstd::prelude::*;
use vstd::string::StringExecFns;
use crate::models::{
    clone_forest, clone_opt_string, clone_strings, clone_versions, forest_view,
    lemma_forest_view, node_view, ItemMetadata, MetaView, NodeView, StoreError, TreeItem,
};

verus! {

broadcast use vstd::seq_lib::group_seq_properties;

/// Every id in a node's subtree, the node's own id first.
pub open spec fn node_ids(n: NodeView) -> Seq<Seq<char>>
    decreases n,
{
    seq![n.id] + forest_ids(n.children)
}

/// Every id in a forest, in preorder.
pub open spec fn forest_ids(f: Seq<NodeView>) -> Seq<Seq<char>>
    decreases f,
{
    if f.len() == 0 {
        seq![]
    } else {
        node_ids(f[0]) + forest_ids(f.drop_first())
    }
}

/// No id occurs twice anywhere in the forest.
pub open spec fn ids_unique(f: Seq<NodeView>) -> bool {
    forest_ids(f).no_duplicates()
}

/// The subtree rooted at `n` holds a node with this id.
pub open spec fn node_has_id(n: NodeView, id: Seq<char>) -> bool
    decreases n,
{
    n.id == id || forest_has_id(n.children, id)
}

/// The forest holds a node with this id.
pub open spec fn forest_has_id(f: Seq<NodeView>, id: Seq<char>) -> bool
    decreases f,
{
    f.len() > 0 && (node_has_id(f[0], id) || forest_has_id(f.drop_first(), id))
}

/// The first node with this id in a preorder walk of the subtree.
pub open spec fn find_in_node(n: NodeView, id: Seq<char>) -> Option<NodeView>
    decreases n,
{
    if n.id == id {
        Some(n)
    } else {
        find_in_forest(n.children, id)
    }
}

/// The first node with this id in a preorder walk of the forest.
pub open spec fn find_in_forest(f: Seq<NodeView>, id: Seq<char>) -> Option<NodeView>
    decreases f,
{
    if f.len() == 0 {
        None
    } else {
        match find_in_node(f[0], id) {
            Some(x) => Some(x),
            None => find_in_forest(f.drop_first(), id),
        }
    }
}

/// A find succeeds exactly where the id is present, and returns a node
/// carrying that id.
pub proof fn lemma_find_node_has(n: NodeView, id: Seq<char>)
    ensures
        find_in_node(n, id) is Some <==> node_has_id(n, id),
        find_in_node(n, id) matches Some(x) ==> x.id == id,
    decreases n,
{
    if n.id != id {
        lemma_find_forest_has(n.children, id);
    }
}

pub proof fn lemma_find_forest_has(f: Seq<NodeView>, id: Seq<char>)
    ensures
        find_in_forest(f, id) is Some <==> forest_has_id(f, id),
        find_in_forest(f, id) matches Some(x) ==> x.id == id,
    decreases f,
{
    if f.len() > 0 {
        lemma_find_node_has(f[0], id);
        lemma_find_forest_has(f.drop_first(), id);
    }
}

/// Skipping a prefix in which the id does not occur leaves the find result
/// unchanged.
pub proof fn lemma_find_skip(f: Seq<NodeView>, id: Seq<char>, k: int)
    requires
        0 <= k <= f.len(),
        forall|j: int| 0 <= j < k ==> find_in_node(#[trigger] f[j], id) is None,
    ensures
        find_in_forest(f, id) == find_in_forest(f.skip(k), id),
    decreases k,
{
    if k > 0 {
        lemma_find_skip(f.drop_first(), id, k - 1);
        assert(f.drop_first().skip(k - 1) =~= f.skip(k));
    }
}

/// Ids distribute over concatenation of forests.
pub proof fn lemma_forest_ids_concat(a: Seq<NodeView>, b: Seq<NodeView>)
    ensures
        forest_ids(a + b) == forest_ids(a) + forest_ids(b),
    decreases a,
{
    if a.len() == 0 {
        assert(a + b =~= b);
        assert(forest_ids(a + b) =~= forest_ids(a) + forest_ids(b));
    } else {
        assert((a + b)[0] == a[0]);
        assert((a + b).drop_first() =~= a.drop_first() + b);
        lemma_forest_ids_concat(a.drop_first(), b);
        assert(forest_ids(a + b) =~= forest_ids(a) + forest_ids(b));
    }
}

/// Appending a root appends exactly its subtree's ids.
pub proof fn lemma_ids_push(f: Seq<NodeView>, n: NodeView)
    ensures
        forest_ids(f.push(n)) == forest_ids(f) + node_ids(n),
{
    assert(f.push(n) =~= f + seq![n]);
    lemma_forest_ids_concat(f, seq![n]);
    assert(seq![n][0] == n);
    assert(seq![n].drop_first() =~= Seq::<NodeView>::empty());
    assert(forest_ids(Seq::<NodeView>::empty()) =~= Seq::<Seq<char>>::empty());
    assert(forest_ids(seq![n]) == node_ids(n) + forest_ids(seq![n].drop_first()));
    assert(forest_ids(seq![n]) =~= node_ids(n));
    assert(forest_ids(f.push(n)) =~= forest_ids(f) + node_ids(n));
}

/// Membership distributes over concatenation.
pub proof fn lemma_contains_concat(a: Seq<Seq<char>>, b: Seq<Seq<char>>, x: Seq<char>)
    ensures
        (a + b).contains(x) <==> a.contains(x) || b.contains(x),
{
    if (a + b).contains(x) {
        let i = choose|i: int| 0 <= i < (a + b).len() && (a + b)[i] == x;
        if i < a.len() {
            assert(a[i] == x);
        } else {
            assert(b[i - a.len()] == x);
        }
    }
    if a.contains(x) {
        let i = choose|i: int| 0 <= i < a.len() && a[i] == x;
        assert((a + b)[i] == x);
    }
    if b.contains(x) {
        let i = choose|i: int| 0 <= i < b.len() && b[i] == x;
        assert((a + b)[a.len() + i] == x);
    }
}

/// An id is held exactly when it occurs among the subtree's ids.
pub proof fn lemma_node_has_ids(n: NodeView, x: Seq<char>)
    ensures
        node_has_id(n, x) <==> node_ids(n).contains(x),
    decreases n,
{
    lemma_forest_has_ids(n.children, x);
    lemma_contains_concat(seq![n.id], forest_ids(n.children), x);
    if seq![n.id].contains(x) {
        let i = choose|i: int| 0 <= i < seq![n.id].len() && seq![n.id][i] == x;
        assert(i == 0);
    }
    if n.id == x {
        assert(seq![n.id][0] == x);
    }
}

/// An id is held exactly when it occurs among the forest's ids.
pub proof fn lemma_forest_has_ids(f: Seq<NodeView>, x: Seq<char>)
    ensures
        forest_has_id(f, x) <==> forest_ids(f).contains(x),
    decreases f,
{
    if f.len() == 0 {
        if forest_ids(f).contains(x) {
            let i = choose|i: int| 0 <= i < forest_ids(f).len() && forest_ids(f)[i] == x;
        }
    } else {
        lemma_node_has_ids(f[0], x);
        lemma_forest_has_ids(f.drop_first(), x);
        lemma_contains_concat(node_ids(f[0]), forest_ids(f.drop_first()), x);
    }
}

/// Two sequences with the same multiset share freedom from duplicates.
pub proof fn lemma_no_dup_transport(a: Seq<Seq<char>>, b: Seq<Seq<char>>)
    requires
        a.to_multiset() == b.to_multiset(),
        a.no_duplicates(),
    ensures
        b.no_duplicates(),
{
    broadcast use vstd::multiset::group_multiset_axioms;

    a.lemma_multiset_has_no_duplicates();
    b.lemma_multiset_has_no_duplicates_conv();
}

/// Attaching a child under a held id adds exactly the child's subtree ids.
pub proof fn lemma_attach_node_ids(n: NodeView, pid: Seq<char>, c: NodeView)
    requires
        node_has_id(n, pid),
    ensures
        node_ids(attach_in_node(n, pid, c)).to_multiset() == (node_ids(n)
            + node_ids(c)).to_multiset(),
    decreases n,
{
    broadcast use vstd::seq_lib::group_to_multiset_ensures;
    broadcast use vstd::seq_lib::lemma_multiset_commutative;
    broadcast use vstd::multiset::group_multiset_axioms;

    if n.id == pid {
        lemma_ids_push(n.children, c);
        assert(node_ids(attach_in_node(n, pid, c)) =~= node_ids(n) + node_ids(c));
    } else {
        lemma_attach_forest_ids(n.children, pid, c);
        let cf = forest_ids(attach_in_forest(n.children, pid, c));
        assert(node_ids(attach_in_node(n, pid, c)) == seq![n.id] + cf);
        assert((seq![n.id] + cf).to_multiset() =~= (node_ids(n) + node_ids(c)).to_multiset()) by {
            assert((forest_ids(n.children) + node_ids(c)).to_multiset() == forest_ids(
                n.children,
            ).to_multiset().add(node_ids(c).to_multiset()));
            assert((seq![n.id] + cf).to_multiset() == seq![n.id].to_multiset().add(cf.to_multiset()));
            assert((seq![n.id] + forest_ids(n.children)).to_multiset() == seq![
                n.id,
            ].to_multiset().add(forest_ids(n.children).to_multiset()));
            assert((node_ids(n) + node_ids(c)).to_multiset() == node_ids(n).to_multiset().add(
                node_ids(c).to_multiset(),
            ));
        }
    }
}

/// Attaching a child under a held id adds exactly the child's subtree ids.
pub proof fn lemma_attach_forest_ids(f: Seq<NodeView>, pid: Seq<char>, c: NodeView)
    requires
        forest_has_id(f, pid),
    ensures
        forest_ids(attach_in_forest(f, pid, c)).to_multiset() == (forest_ids(f)
            + node_ids(c)).to_multiset(),
    decreases f,
{
    broadcast use vstd::seq_lib::group_to_multiset_ensures;
    broadcast use vstd::seq_lib::lemma_multiset_commutative;
    broadcast use vstd::multiset::group_multiset_axioms;

    let f2 = attach_in_forest(f, pid, c);
    if node_has_id(f[0], pid) {
        lemma_attach_node_ids(f[0], pid, c);
        assert(f2 == seq![attach_in_node(f[0], pid, c)] + f.drop_first());
        assert(f2[0] == attach_in_node(f[0], pid, c));
        assert(f2.drop_first() =~= f.drop_first());
        assert(forest_ids(f2) == node_ids(attach_in_node(f[0], pid, c)) + forest_ids(
            f.drop_first(),
        ));
        assert(forest_ids(f2).to_multiset() =~= (forest_ids(f) + node_ids(c)).to_multiset()) by {
            assert((node_ids(f[0]) + node_ids(c)).to_multiset() == node_ids(f[0]).to_multiset().add(
                node_ids(c).to_multiset(),
            ));
        }
    } else {
        lemma_attach_forest_ids(f.drop_first(), pid, c);
        assert(f2 == seq![f[0]] + attach_in_forest(f.drop_first(), pid, c));
        assert(f2[0] == f[0]);
        assert(f2.drop_first() =~= attach_in_forest(f.drop_first(), pid, c));
        assert(forest_ids(f2) == node_ids(f[0]) + forest_ids(attach_in_forest(
            f.drop_first(),
            pid,
            c,
        )));
        assert(forest_ids(f2).to_multiset() =~= (forest_ids(f) + node_ids(c)).to_multiset()) by {
            assert((forest_ids(f.drop_first()) + node_ids(c)).to_multiset() == forest_ids(
                f.drop_first(),
            ).to_multiset().add(node_ids(c).to_multiset()));
        }
    }
}

/// An update never changes the forest's ids.
pub proof fn lemma_update_node_ids(n: NodeView, id: Seq<char>, p: NodeView, now: int)
    ensures
        node_ids(update_in_node(n, id, p, now)) == node_ids(n),
    decreases n,
{
    if n.id == id {
        assert(node_ids(update_in_node(n, id, p, now)) =~= node_ids(n));
    } else {
        lemma_update_forest_ids(n.children, id, p, now);
        assert(node_ids(update_in_node(n, id, p, now)) =~= node_ids(n));
    }
}

/// An update never changes the forest's ids.
pub proof fn lemma_update_forest_ids(f: Seq<NodeView>, id: Seq<char>, p: NodeView, now: int)
    ensures
        forest_ids(update_in_forest(f, id, p, now)) == forest_ids(f),
    decreases f,
{
    if f.len() > 0 {
        let f2 = update_in_forest(f, id, p, now);
        if node_has_id(f[0], id) {
            lemma_update_node_ids(f[0], id, p, now);
            assert(f2[0] == update_in_node(f[0], id, p, now));
            assert(f2.drop_first() =~= f.drop_first());
            assert(forest_ids(f2) =~= forest_ids(f));
        } else {
            lemma_update_forest_ids(f.drop_first(), id, p, now);
            assert(f2[0] == f[0]);
            assert(f2.drop_first() =~= update_in_forest(f.drop_first(), id, p, now));
            assert(forest_ids(f2) =~= forest_ids(f));
        }
    }
}

/// A candidate node as the add operation stores it: the caller's fields,
/// under a store-chosen id and creation time.
pub open spec fn stamped(item: NodeView, id: Seq<char>, now: int) -> NodeView {
    NodeView { id: id, metadata: MetaView { last_modified: Some(now), ..item.metadata }, ..item }
}

/// The field-level merge that an update applies to the node it finds:
/// `name`, `content` and `versions` are overwritten outright; `description`
/// and `tags` only by a present patch value; `last_modified` is refreshed.
pub open spec fn merged(n: NodeView, p: NodeView, now: int) -> NodeView {
    NodeView {
        id: n.id,
        name: p.name,
        kind: n.kind,
        children: n.children,
        parent_id: n.parent_id,
        content: p.content,
        versions: p.versions,
        metadata: MetaView {
            description: if p.metadata.description is Some {
                p.metadata.description
            } else {
                n.metadata.description
            },
            tags: if p.metadata.tags is Some {
                p.metadata.tags
            } else {
                n.metadata.tags
            },
            last_modified: Some(now),
        },
    }
}

/// The subtree after appending `child` under the first preorder node whose id
/// is `pid`.
pub open spec fn attach_in_node(n: NodeView, pid: Seq<char>, child: NodeView) -> NodeView
    decreases n,
{
    if n.id == pid {
        NodeView { children: n.children.push(child), ..n }
    } else {
        NodeView { children: attach_in_forest(n.children, pid, child), ..n }
    }
}

/// The forest after appending `child` under the first preorder node whose id
/// is `pid`; unchanged if the id is absent.
pub open spec fn attach_in_forest(f: Seq<NodeView>, pid: Seq<char>, child: NodeView) -> Seq<
    NodeView,
>
    decreases f,
{
    if f.len() == 0 {
        f
    } else if node_has_id(f[0], pid) {
        seq![attach_in_node(f[0], pid, child)] + f.drop_first()
    } else {
        seq![f[0]] + attach_in_forest(f.drop_first(), pid, child)
    }
}

/// The subtree after merging the patch into the first preorder node whose id
/// matches.
pub open spec fn update_in_node(n: NodeView, id: Seq<char>, p: NodeView, now: int) -> NodeView
    decreases n,
{
    if n.id == id {
        merged(n, p, now)
    } else {
        NodeView { children: update_in_forest(n.children, id, p, now), ..n }
    }
}

/// The forest after merging the patch into the first preorder node whose id
/// matches; unchanged if the id is absent.
pub open spec fn update_in_forest(f: Seq<NodeView>, id: Seq<char>, p: NodeView, now: int) -> Seq<
    NodeView,
>
    decreases f,
{
    if f.len() == 0 {
        f
    } else if node_has_id(f[0], id) {
        seq![update_in_node(f[0], id, p, now)] + f.drop_first()
    } else {
        seq![f[0]] + update_in_forest(f.drop_first(), id, p, now)
    }
}

/// The first position at this nesting level whose node carries the id, or
/// `f.len()` if none does.
pub open spec fn first_at_level(f: Seq<NodeView>, id: Seq<char>) -> int
    decreases f,
{
    if f.len() == 0 {
        0
    } else if f[0].id == id {
        0
    } else {
        1 + first_at_level(f.drop_first(), id)
    }
}

pub proof fn lemma_first_at_level(f: Seq<NodeView>, id: Seq<char>)
    ensures
        0 <= first_at_level(f, id) <= f.len(),
        first_at_level(f, id) < f.len() ==> f[first_at_level(f, id)].id == id,
        forall|j: int| 0 <= j < first_at_level(f, id) ==> f[j].id != id,
    decreases f,
{
    if f.len() > 0 && f[0].id != id {
        lemma_first_at_level(f.drop_first(), id);
        assert forall|j: int| 0 <= j < first_at_level(f, id) implies f[j].id != id by {
            if j > 0 {
                assert(f.drop_first()[j - 1] == f[j]);
            }
        }
    }
}

/// The deletion pass: splice out the first match at the current level, or,
/// when the level holds none, descend into the first subtree that holds the
/// id; at most one node (with its subtree) is ever removed, the first in
/// document order.
pub open spec fn remove_in_forest(f: Seq<NodeView>, id: Seq<char>) -> Seq<NodeView>
    decreases f,
    via remove_in_forest_dec
{
    if f.len() == 0 {
        f
    } else if first_at_level(f, id) < f.len() {
        f.remove(first_at_level(f, id))
    } else if forest_has_id(f[0].children, id) {
        seq![NodeView { children: remove_in_forest(f[0].children, id), ..f[0] }] + f.drop_first()
    } else {
        seq![f[0]] + remove_in_forest(f.drop_first(), id)
    }
}

#[via_fn]
proof fn remove_in_forest_dec(f: Seq<NodeView>, id: Seq<char>) {
    lemma_first_at_level(f, id);
}

/// An id is in a forest exactly when some root's subtree holds it.
pub proof fn lemma_forest_has_iff(f: Seq<NodeView>, id: Seq<char>)
    ensures
        forest_has_id(f, id) <==> exists|j: int|
            0 <= j < f.len() && node_has_id(#[trigger] f[j], id),
    decreases f,
{
    if f.len() > 0 {
        lemma_forest_has_iff(f.drop_first(), id);
        if forest_has_id(f.drop_first(), id) {
            let j = choose|j: int|
                0 <= j < f.drop_first().len() && node_has_id(#[trigger] f.drop_first()[j], id);
            assert(f[j + 1] == f.drop_first()[j]);
        }
        if exists|j: int| 0 <= j < f.len() && node_has_id(#[trigger] f[j], id) {
            let j = choose|j: int| 0 <= j < f.len() && node_has_id(#[trigger] f[j], id);
            if j > 0 {
                assert(f.drop_first()[j - 1] == f[j]);
            }
        }
    }
}

/// Where the scan's first hit is at position `k`, attaching rewrites exactly
/// that entry.
pub proof fn lemma_attach_at(f: Seq<NodeView>, pid: Seq<char>, c: NodeView, k: int)
    requires
        0 <= k < f.len(),
        forall|j: int| 0 <= j < k ==> !node_has_id(#[trigger] f[j], pid),
        node_has_id(f[k], pid),
    ensures
        attach_in_forest(f, pid, c) == f.update(k, attach_in_node(f[k], pid, c)),
        forest_has_id(f, pid),
    decreases k,
{
    if k == 0 {
        assert(attach_in_forest(f, pid, c) =~= f.update(0, attach_in_node(f[0], pid, c)));
    } else {
        assert forall|j: int| 0 <= j < k - 1 implies !node_has_id(
            #[trigger] f.drop_first()[j],
            pid,
        ) by {
            assert(f.drop_first()[j] == f[j + 1]);
        }
        assert(f.drop_first()[k - 1] == f[k]);
        lemma_attach_at(f.drop_first(), pid, c, k - 1);
        assert(attach_in_forest(f, pid, c) =~= f.update(k, attach_in_node(f[k], pid, c)));
    }
}

/// Where the scan's first hit is at position `k`, updating rewrites exactly
/// that entry.
pub proof fn lemma_update_at(f: Seq<NodeView>, id: Seq<char>, p: NodeView, now: int, k: int)
    requires
        0 <= k < f.len(),
        forall|j: int| 0 <= j < k ==> !node_has_id(#[trigger] f[j], id),
        node_has_id(f[k], id),
    ensures
        update_in_forest(f, id, p, now) == f.update(k, update_in_node(f[k], id, p, now)),
        forest_has_id(f, id),
    decreases k,
{
    if k == 0 {
        assert(update_in_forest(f, id, p, now) =~= f.update(0, update_in_node(f[0], id, p, now)));
    } else {
        assert forall|j: int| 0 <= j < k - 1 implies !node_has_id(
            #[trigger] f.drop_first()[j],
            id,
        ) by {
            assert(f.drop_first()[j] == f[j + 1]);
        }
        assert(f.drop_first()[k - 1] == f[k]);
        lemma_update_at(f.drop_first(), id, p, now, k - 1);
        assert(update_in_forest(f, id, p, now) =~= f.update(
            k,
            update_in_node(f[k], id, p, now),
        ));
    }
}

/// The store: the forest, in memory.
pub struct Store {
    pub data: Vec<TreeItem>,
}

impl View for Store {
    type V = Seq<NodeView>;

    open spec fn view(&self) -> Seq<NodeView> {
        forest_view(self.data@)
    }
}

/// Finds the first node with this id, preorder, within one subtree.
fn find_node_in<'a>(node: &'a TreeItem, id: &String) -> (r: Option<&'a TreeItem>)
    ensures
        match r {
            Some(n) => find_in_node(node@, id@) == Some(n@),
            None => find_in_node(node@, id@) is None,
        },
    decreases node,
{
    if node.id == *id {
        Some(node)
    } else {
        find_node_recursive(&node.children, id)
    }
}

/// Finds the first node with this id, preorder, across the forest.
pub fn find_node_recursive<'a>(nodes: &'a Vec<TreeItem>, id: &String) -> (r: Option<&'a TreeItem>)
    ensures
        match r {
            Some(n) => find_in_forest(forest_view(nodes@), id@) == Some(n@),
            None => find_in_forest(forest_view(nodes@), id@) is None,
        },
    decreases nodes,
{
    let ghost fv = forest_view(nodes@);
    proof {
        lemma_forest_view(nodes@);
    }
    let mut i: usize = 0;
    while i < nodes.len()
        invariant
            0 <= i <= nodes@.len(),
            fv == forest_view(nodes@),
            fv.len() == nodes@.len(),
            forall|j: int| 0 <= j < nodes@.len() ==> fv[j] == node_view(nodes@[j]),
            forall|j: int| 0 <= j < i ==> find_in_node(#[trigger] fv[j], id@) is None,
        decreases nodes@.len() - i,
    {
        proof {
            assert(decreases_to!(nodes => nodes[i as int]));
        }
        let r = find_node_in(&nodes[i], id);
        if r.is_some() {
            proof {
                lemma_find_skip(fv, id@, i as int);
                assert(fv.skip(i as int).len() > 0);
                assert(fv.skip(i as int)[0] == fv[i as int]);
            }
            return r;
        }
        i += 1;
    }
    proof {
        lemma_find_skip(fv, id@, i as int);
        assert(fv.skip(i as int) =~= Seq::<NodeView>::empty());
    }
    None
}

/// Relies on `uuid::Uuid::new_v4` and its `to_string`: a freshly drawn random
/// identifier, rendered in its hyphenated text form, which is always 36
/// characters. Of the randomness itself nothing can be stated.
#[verifier::external_body]
fn fresh_id() -> (r: String)
    ensures
        r@.len() == 36,
{
    uuid::Uuid::new_v4().to_string()
}

/// Relies on `chrono::Utc::now` and `DateTime::timestamp_millis`: the current
/// wall-clock time in milliseconds since the Unix epoch. The clock promises
/// nothing that a contract could state, so none is stated.
#[verifier::external_body]
fn now_millis() -> (r: i64) {
    chrono::Utc::now().timestamp_millis()
}

/// Rebuilds one subtree with `child` appended under the node carrying `pid`,
/// if that subtree holds it.
fn attach_in_node_exec(node: &TreeItem, pid: &String, child: &TreeItem) -> (r: Option<TreeItem>)
    ensures
        r is Some <==> node_has_id(node@, pid@),
        r matches Some(m) ==> m@ == attach_in_node(node@, pid@, child@),
    decreases node,
{
    if node.id == *pid {
        let mut c = clone_forest(&node.children);
        c.push(child.deep_clone());
        proof {
            lemma_forest_view(c@);
            lemma_forest_view(node.children@);
            assert(forest_view(c@) =~= node@.children.push(child@));
        }
        Some(node.with_children(c))
    } else {
        match attach_node_recursive(&node.children, pid, child) {
            Some(v) => Some(node.with_children(v)),
            None => None,
        }
    }
}

/// Rebuilds the forest with `child` appended under the first preorder node
/// carrying `pid`, if the forest holds it.
#[verifier::rlimit(100)]
pub fn attach_node_recursive(nodes: &Vec<TreeItem>, pid: &String, child: &TreeItem) -> (r: Option<
    Vec<TreeItem>,
>)
    ensures
        r is Some <==> forest_has_id(forest_view(nodes@), pid@),
        r matches Some(v) ==> forest_view(v@) == attach_in_forest(
            forest_view(nodes@),
            pid@,
            child@,
        ),
    decreases nodes,
{
    let ghost fv = forest_view(nodes@);
    proof {
        lemma_forest_view(nodes@);
        lemma_forest_has_iff(fv, pid@);
    }
    let mut i: usize = 0;
    while i < nodes.len()
        invariant
            0 <= i <= nodes@.len(),
            fv == forest_view(nodes@),
            fv.len() == nodes@.len(),
            forall|j: int| 0 <= j < nodes@.len() ==> fv[j] == node_view(nodes@[j]),
            forall|j: int| 0 <= j < i ==> !node_has_id(#[trigger] fv[j], pid@),
        decreases nodes@.len() - i,
    {
        proof {
            assert(decreases_to!(nodes => nodes[i as int]));
        }
        match attach_in_node_exec(&nodes[i], pid, child) {
            Some(m) => {
                let mut out: Vec<TreeItem> = Vec::new();
                let mut j: usize = 0;
                while j < i
                    invariant
                        0 <= j <= i < nodes@.len(),
                        out@.len() == j,
                        forall|t: int| 0 <= t < j ==> node_view(out@[t]) == node_view(nodes@[t]),
                    decreases i - j,
                {
                    proof {
                        assert(decreases_to!(nodes => nodes[j as int]));
                    }
                    out.push(nodes[j].deep_clone());
                    j += 1;
                }
                out.push(m);
                let mut k: usize = i + 1;
                while k < nodes.len()
                    invariant
                        i < k <= nodes@.len(),
                        out@.len() == k,
                        i < nodes@.len(),
                        node_view(out@[i as int]) == attach_in_node(
                            node_view(nodes@[i as int]),
                            pid@,
                            child@,
                        ),
                        forall|t: int| 0 <= t < i ==> node_view(out@[t]) == node_view(nodes@[t]),
                        forall|t: int|
                            i < t < k ==> node_view(out@[t]) == node_view(nodes@[t]),
                    decreases nodes@.len() - k,
                {
                    proof {
                        assert(decreases_to!(nodes => nodes[k as int]));
                    }
                    out.push(nodes[k].deep_clone());
                    k += 1;
                }
                proof {
                    lemma_attach_at(fv, pid@, child@, i as int);
                    lemma_forest_view(out@);
                    assert(forest_view(out@) =~= attach_in_forest(fv, pid@, child@));
                }
                return Some(out);
            },
            None => {},
        }
        i += 1;
    }
    None
}

/// Rebuilds one subtree with the patch merged into the node carrying `id`,
/// returning the rebuilt subtree and a copy of the merged node.
fn update_in_node_exec(node: &TreeItem, id: &String, updates: &TreeItem, now: i64) -> (r: Option<
    (TreeItem, TreeItem),
>)
    ensures
        r is Some <==> node_has_id(node@, id@),
        r matches Some((m, c)) ==> m@ == update_in_node(node@, id@, updates@, now as int) && Some(
            c@,
        ) == Some(merged(find_in_node(node@, id@)->0, updates@, now as int)),
    decreases node,
{
    if node.id == *id {
        let m = TreeItem {
            id: node.id.clone(),
            name: updates.name.clone(),
            item_type: node.item_type,
            children: clone_forest(&node.children),
            parent_id: clone_opt_string(&node.parent_id),
            content: clone_opt_string(&updates.content),
            versions: match &updates.versions {
                Some(v) => Some(clone_versions(v)),
                None => None,
            },
            metadata: ItemMetadata {
                description: match &updates.metadata.description {
                    Some(d) => Some(d.clone()),
                    None => clone_opt_string(&node.metadata.description),
                },
                tags: match &updates.metadata.tags {
                    Some(t) => Some(clone_strings(t)),
                    None => match &node.metadata.tags {
                        Some(t) => Some(clone_strings(t)),
                        None => None,
                    },
                },
                last_modified: Some(now),
            },
        };
        let c = m.deep_clone();
        proof {
            assert(m@ =~= merged(node@, updates@, now as int));
        }
        Some((m, c))
    } else {
        match update_node_recursive(&node.children, id, updates, now) {
            Some((v, c)) => Some((node.with_children(v), c)),
            None => None,
        }
    }
}

/// Rebuilds the forest with the patch merged into the first preorder node
/// carrying `id`, returning the rebuilt forest and a copy of the merged node.
#[verifier::rlimit(100)]
#[verifier::spinoff_prover]
pub fn update_node_recursive(nodes: &Vec<TreeItem>, id: &String, updates: &TreeItem, now: i64) -> (r:
    Option<(Vec<TreeItem>, TreeItem)>)
    ensures
        r is Some <==> forest_has_id(forest_view(nodes@), id@),
        r matches Some((v, c)) ==> forest_view(v@) == update_in_forest(
            forest_view(nodes@),
            id@,
            updates@,
            now as int,
        ) && Some(c@) == Some(merged(find_in_forest(forest_view(nodes@), id@)->0, updates@, now as int)),
    decreases nodes,
{
    let ghost fv = forest_view(nodes@);
    proof {
        lemma_forest_view(nodes@);
        lemma_forest_has_iff(fv, id@);
    }
    let mut i: usize = 0;
    while i < nodes.len()
        invariant
            0 <= i <= nodes@.len(),
            fv == forest_view(nodes@),
            fv.len() == nodes@.len(),
            forall|j: int| 0 <= j < nodes@.len() ==> fv[j] == node_view(nodes@[j]),
            forall|j: int| 0 <= j < i ==> !node_has_id(#[trigger] fv[j], id@),
        decreases nodes@.len() - i,
    {
        proof {
            assert(decreases_to!(nodes => nodes[i as int]));
        }
        match update_in_node_exec(&nodes[i], id, updates, now) {
            Some((m, c)) => {
                let mut out: Vec<TreeItem> = Vec::new();
                let mut j: usize = 0;
                while j < i
                    invariant
                        0 <= j <= i < nodes@.len(),
                        out@.len() == j,
                        forall|t: int| 0 <= t < j ==> node_view(out@[t]) == node_view(nodes@[t]),
                    decreases i - j,
                {
                    proof {
                        assert(decreases_to!(nodes => nodes[j as int]));
                    }
                    out.push(nodes[j].deep_clone());
                    j += 1;
                }
                let ghost mv = m@;
                out.push(m);
                let mut k: usize = i + 1;
                while k < nodes.len()
                    invariant
                        i < k <= nodes@.len(),
                        out@.len() == k,
                        i < nodes@.len(),
                        node_view(out@[i as int]) == mv,
                        forall|t: int| 0 <= t < i ==> node_view(out@[t]) == node_view(nodes@[t]),
                        forall|t: int|
                            i < t < k ==> node_view(out@[t]) == node_view(nodes@[t]),
                    decreases nodes@.len() - k,
                {
                    proof {
                        assert(decreases_to!(nodes => nodes[k as int]));
                    }
                    out.push(nodes[k].deep_clone());
                    k += 1;
                }
                proof {
                    lemma_update_at(fv, id@, updates@, now as int, i as int);
                    lemma_forest_view(out@);
                    assert(forest_view(out@) =~= update_in_forest(fv, id@, updates@, now as int));
                    // the copied node is the merge of the node that a preorder
                    // find would return
                    assert forall|j: int| 0 <= j < i implies find_in_node(
                        #[trigger] fv[j],
                        id@,
                    ) is None by {
                        lemma_find_node_has(fv[j], id@);
                    }
                    lemma_find_skip(fv, id@, i as int);
                    lemma_find_node_has(fv[i as int], id@);
                    assert(fv.skip(i as int).len() > 0);
                    assert(fv.skip(i as int)[0] == fv[i as int]);
                    assert(find_in_forest(fv, id@) == find_in_node(fv[i as int], id@));
                }
                return Some((out, c));
            },
            None => {},
        }
        i += 1;
    }
    None
}

/// Where no node at this level carries the id, and the children of position
/// `k` are the first that hold it, the deletion pass rewrites exactly that
/// entry.
pub proof fn lemma_remove_descend(f: Seq<NodeView>, id: Seq<char>, k: int)
    requires
        0 <= k < f.len(),
        forall|t: int| 0 <= t < f.len() ==> (#[trigger] f[t]).id != id,
        forall|t: int| 0 <= t < k ==> !forest_has_id((#[trigger] f[t]).children, id),
        forest_has_id(f[k].children, id),
    ensures
        remove_in_forest(f, id) == f.update(
            k,
            NodeView { children: remove_in_forest(f[k].children, id), ..f[k] },
        ),
    decreases k,
{
    lemma_first_at_level(f, id);
    assert(first_at_level(f, id) == f.len()) by {
        if first_at_level(f, id) < f.len() {
            assert(f[first_at_level(f, id)].id == id);
        }
    }
    if k == 0 {
        assert(remove_in_forest(f, id) =~= f.update(
            0,
            NodeView { children: remove_in_forest(f[0].children, id), ..f[0] },
        ));
    } else {
        assert forall|t: int| 0 <= t < f.drop_first().len() implies (#[trigger] f.drop_first()[t]).id
            != id by {
            assert(f.drop_first()[t] == f[t + 1]);
        }
        assert forall|t: int|
            0 <= t < k - 1 implies !forest_has_id((#[trigger] f.drop_first()[t]).children, id) by {
            assert(f.drop_first()[t] == f[t + 1]);
        }
        assert(f.drop_first()[k - 1] == f[k]);
        lemma_remove_descend(f.drop_first(), id, k - 1);
        assert(seq![f[0]] + f.drop_first().update(
            k - 1,
            NodeView { children: remove_in_forest(f[k].children, id), ..f[k] },
        ) =~= f.update(k, NodeView { children: remove_in_forest(f[k].children, id), ..f[k] }));
    }
}

/// Where neither the level nor any subtree holds the id, deletion changes
/// nothing.
pub proof fn lemma_remove_none(f: Seq<NodeView>, id: Seq<char>)
    requires
        forall|t: int| 0 <= t < f.len() ==> (#[trigger] f[t]).id != id,
        forall|t: int| 0 <= t < f.len() ==> !forest_has_id((#[trigger] f[t]).children, id),
    ensures
        remove_in_forest(f, id) == f,
        !forest_has_id(f, id),
    decreases f,
{
    lemma_first_at_level(f, id);
    if f.len() > 0 {
        assert(first_at_level(f, id) == f.len()) by {
            if first_at_level(f, id) < f.len() {
                assert(f[first_at_level(f, id)].id == id);
            }
        }
        assert(f[0].id != id);
        assert(!forest_has_id(f[0].children, id));
        assert forall|t: int|
            0 <= t < f.drop_first().len() implies (#[trigger] f.drop_first()[t]).id != id
            && !forest_has_id(f.drop_first()[t].children, id) by {
            assert(f.drop_first()[t] == f[t + 1]);
        }
        lemma_remove_none(f.drop_first(), id);
        assert(!node_has_id(f[0], id));
        assert(!forest_has_id(f, id));
        assert(remove_in_forest(f, id) =~= f);
    }
}

/// A copy of the forest without the entry at `k`./// A copy of the forest without the entry at `k`.
fn clone_except(nodes: &Vec<TreeItem>, k: usize) -> (r: Vec<TreeItem>)
    requires
        k < nodes@.len(),
    ensures
        forest_view(r@) == forest_view(nodes@).remove(k as int),
{
    let ghost fv = forest_view(nodes@);
    proof {
        lemma_forest_view(nodes@);
    }
    let mut r: Vec<TreeItem> = Vec::new();
    let mut i: usize = 0;
    while i < nodes.len()
        invariant
            0 <= i <= nodes@.len(),
            k < nodes@.len(),
            fv == forest_view(nodes@),
            fv.len() == nodes@.len(),
            forall|j: int| 0 <= j < nodes@.len() ==> fv[j] == node_view(nodes@[j]),
            r@.len() == (if i <= k {
                i as int
            } else {
                i - 1
            }),
            forall|t: int| 0 <= t < r@.len() && t < k ==> node_view(r@[t]) == fv[t],
            forall|t: int| k <= t < r@.len() ==> node_view(r@[t]) == fv[t + 1],
        decreases nodes@.len() - i,
    {
        proof {
            assert(decreases_to!(nodes => nodes[i as int]));
        }
        if i != k {
            r.push(nodes[i].deep_clone());
        }
        i += 1;
    }
    proof {
        lemma_forest_view(r@);
        assert(forest_view(r@) =~= fv.remove(k as int));
    }
    r
}

/// Rebuilds the forest without the first node found carrying this id (and
/// without its whole subtree); unchanged if the id is absent at every level.
pub fn delete_node_recursive(nodes: &Vec<TreeItem>, id: &String) -> (r: Vec<TreeItem>)
    ensures
        forest_view(r@) == remove_in_forest(forest_view(nodes@), id@),
    decreases nodes,
{
    let ghost fv = forest_view(nodes@);
    proof {
        lemma_forest_view(nodes@);
    }
    let mut i: usize = 0;
    while i < nodes.len()
        invariant
            0 <= i <= nodes@.len(),
            fv == forest_view(nodes@),
            fv.len() == nodes@.len(),
            forall|j: int| 0 <= j < nodes@.len() ==> fv[j] == node_view(nodes@[j]),
            forall|j: int| 0 <= j < i ==> (#[trigger] fv[j]).id != id@,
        decreases nodes@.len() - i,
    {
        if nodes[i].id == *id {
            proof {
                lemma_first_at_level(fv, id@);
                assert(first_at_level(fv, id@) == i) by {
                    if first_at_level(fv, id@) < i {
                        assert(fv[first_at_level(fv, id@)].id == id@);
                    }
                    if i < first_at_level(fv, id@) {
                        assert(fv[i as int].id != id@);
                    }
                }
            }
            return clone_except(nodes, i);
        }
        i += 1;
    }
    proof {
        lemma_first_at_level(fv, id@);
        assert(first_at_level(fv, id@) == fv.len()) by {
            if first_at_level(fv, id@) < fv.len() {
                assert(fv[first_at_level(fv, id@)].id == id@);
            }
        }
    }
    let mut j: usize = 0;
    while j < nodes.len()
        invariant
            0 <= j <= nodes@.len(),
            fv == forest_view(nodes@),
            fv.len() == nodes@.len(),
            forall|t: int| 0 <= t < nodes@.len() ==> fv[t] == node_view(nodes@[t]),
            forall|t: int| 0 <= t < nodes@.len() ==> (#[trigger] fv[t]).id != id@,
            forall|t: int| 0 <= t < j ==> !forest_has_id((#[trigger] fv[t]).children, id@),
        decreases nodes@.len() - j,
    {
        proof {
            assert(decreases_to!(nodes => nodes[j as int]));
        }
        let found = find_node_recursive(&nodes[j].children, id);
        proof {
            lemma_find_forest_has(forest_view(nodes[j as int].children@), id@);
        }
        if found.is_some() {
            let c = delete_node_recursive(&nodes[j].children, id);
            let rebuilt = nodes[j].with_children(c);
            let out = clone_with_at(nodes, j, rebuilt);
            proof {
                lemma_remove_descend(fv, id@, j as int);
            }
            return out;
        }
        j += 1;
    }
    proof {
        lemma_remove_none(fv, id@);
    }
    clone_forest(nodes)
}

/// A copy of the forest with the entry at `k` replaced.
fn clone_with_at(nodes: &Vec<TreeItem>, k: usize, repl: TreeItem) -> (r: Vec<TreeItem>)
    requires
        k < nodes@.len(),
    ensures
        forest_view(r@) == forest_view(nodes@).update(k as int, repl@),
{
    let ghost fv = forest_view(nodes@);
    let ghost rv = repl@;
    proof {
        lemma_forest_view(nodes@);
    }
    let mut r: Vec<TreeItem> = Vec::new();
    let mut i: usize = 0;
    while i < k
        invariant
            0 <= i <= k < nodes@.len(),
            fv == forest_view(nodes@),
            fv.len() == nodes@.len(),
            forall|j: int| 0 <= j < nodes@.len() ==> fv[j] == node_view(nodes@[j]),
            r@.len() == i,
            forall|t: int| 0 <= t < i ==> node_view(r@[t]) == fv[t],
        decreases k - i,
    {
        proof {
            assert(decreases_to!(nodes => nodes[i as int]));
        }
        r.push(nodes[i].deep_clone());
        i += 1;
    }
    r.push(repl);
    let n = nodes.len();
    proof {
        assert(k < n);
    }
    let mut t: usize = k + 1;
    while t < nodes.len()
        invariant
            k < t <= nodes@.len(),
            fv == forest_view(nodes@),
            fv.len() == nodes@.len(),
            forall|j: int| 0 <= j < nodes@.len() ==> fv[j] == node_view(nodes@[j]),
            r@.len() == t,
            k < nodes@.len(),
            node_view(r@[k as int]) == rv,
            forall|u: int| 0 <= u < k ==> node_view(r@[u]) == fv[u],
            forall|u: int| k < u < t ==> node_view(r@[u]) == fv[u],
        decreases nodes@.len() - t,
    {
        proof {
            assert(decreases_to!(nodes => nodes[t as int]));
        }
        r.push(nodes[t].deep_clone());
        t += 1;
    }
    proof {
        lemma_forest_view(r@);
        assert(forest_view(r@) =~= fv.update(k as int, rv));
    }
    r
}

/// Detaches the subtree of the first node found with this id (the current
/// level first, then the first subtree that holds it), returning the
/// remaining forest and the detached node.
pub open spec fn take_in_forest(f: Seq<NodeView>, id: Seq<char>) -> Option<
    (Seq<NodeView>, NodeView),
>
    decreases f,
    via take_in_forest_dec
{
    if f.len() == 0 {
        None
    } else if first_at_level(f, id) < f.len() {
        Some((f.remove(first_at_level(f, id)), f[first_at_level(f, id)]))
    } else {
        match take_in_forest(f[0].children, id) {
            Some((c, n)) => Some((seq![NodeView { children: c, ..f[0] }] + f.drop_first(), n)),
            None => match take_in_forest(f.drop_first(), id) {
                Some((rest, n)) => Some((seq![f[0]] + rest, n)),
                None => None,
            },
        }
    }
}

#[via_fn]
proof fn take_in_forest_dec(f: Seq<NodeView>, id: Seq<char>) {
    lemma_first_at_level(f, id);
}

/// Where no node at this level carries the id, a detach that succeeds in the
/// children of position `k` (and in none before it) rewrites exactly that
/// entry.
pub proof fn lemma_take_descend(
    f: Seq<NodeView>,
    id: Seq<char>,
    k: int,
    c: Seq<NodeView>,
    n: NodeView,
)
    requires
        0 <= k < f.len(),
        forall|j: int| 0 <= j < f.len() ==> (#[trigger] f[j]).id != id,
        forall|t: int| 0 <= t < k ==> take_in_forest((#[trigger] f[t]).children, id) is None,
        take_in_forest(f[k].children, id) == Some((c, n)),
    ensures
        take_in_forest(f, id) == Some((f.update(k, NodeView { children: c, ..f[k] }), n)),
    decreases k,
{
    lemma_first_at_level(f, id);
    assert(first_at_level(f, id) == f.len()) by {
        if first_at_level(f, id) < f.len() {
            assert(f[first_at_level(f, id)].id == id);
        }
    }
    if k == 0 {
        assert(seq![NodeView { children: c, ..f[0] }] + f.drop_first() =~= f.update(
            0,
            NodeView { children: c, ..f[0] },
        ));
    } else {
        assert forall|j: int| 0 <= j < f.drop_first().len() implies (#[trigger] f.drop_first()[j]).id
            != id by {
            assert(f.drop_first()[j] == f[j + 1]);
        }
        assert forall|t: int|
            0 <= t < k - 1 implies take_in_forest(
            (#[trigger] f.drop_first()[t]).children,
            id,
        ) is None by {
            assert(f.drop_first()[t] == f[t + 1]);
        }
        assert(f.drop_first()[k - 1] == f[k]);
        lemma_take_descend(f.drop_first(), id, k - 1, c, n);
        assert(take_in_forest(f[0].children, id) is None);
        assert(seq![f[0]] + f.drop_first().update(k - 1, NodeView { children: c, ..f[k] }) =~= f
            .update(k, NodeView { children: c, ..f[k] }));
    }
}

/// Where neither the level nor any subtree holds the id, a detach fails.
pub proof fn lemma_take_none(f: Seq<NodeView>, id: Seq<char>)
    requires
        forall|j: int| 0 <= j < f.len() ==> (#[trigger] f[j]).id != id,
        forall|j: int| 0 <= j < f.len() ==> take_in_forest((#[trigger] f[j]).children, id) is None,
    ensures
        take_in_forest(f, id) is None,
    decreases f,
{
    lemma_first_at_level(f, id);
    if f.len() > 0 {
        assert(first_at_level(f, id) == f.len()) by {
            if first_at_level(f, id) < f.len() {
                assert(f[first_at_level(f, id)].id == id);
            }
        }
        assert forall|j: int|
            0 <= j < f.drop_first().len() implies (#[trigger] f.drop_first()[j]).id != id
            && take_in_forest(f.drop_first()[j].children, id) is None by {
            assert(f.drop_first()[j] == f[j + 1]);
        }
        lemma_take_none(f.drop_first(), id);
    }
}

/// A detach succeeds exactly where the id is held, and detaches a node
/// carrying that id.
pub proof fn lemma_take_some(f: Seq<NodeView>, id: Seq<char>)
    ensures
        take_in_forest(f, id) is Some <==> forest_has_id(f, id),
        take_in_forest(f, id) matches Some((rest, n)) ==> n.id == id,
    decreases f,
{
    lemma_first_at_level(f, id);
    if f.len() > 0 {
        if first_at_level(f, id) < f.len() {
            lemma_forest_has_iff(f, id);
            assert(f[first_at_level(f, id)].id == id);
            assert(node_has_id(f[first_at_level(f, id)], id));
            assert(forest_has_id(f, id));
        } else {
            assert(f[0].id != id);
            lemma_take_some(f[0].children, id);
            lemma_take_some(f.drop_first(), id);
            assert(node_has_id(f[0], id) <==> forest_has_id(f[0].children, id));
            assert(forest_has_id(f, id) <==> (node_has_id(f[0], id) || forest_has_id(
                f.drop_first(),
                id,
            )));
        }
    }
}

/// A detach splits the forest's ids into the remainder's and the detached
/// subtree's.
#[verifier::rlimit(100)]
#[verifier::spinoff_prover]
pub proof fn lemma_take_ids(f: Seq<NodeView>, id: Seq<char>)
    ensures
        take_in_forest(f, id) matches Some((rest, n)) ==> forest_ids(f).to_multiset()
            == forest_ids(rest).to_multiset().add(node_ids(n).to_multiset()),
    decreases f,
{
    broadcast use vstd::seq_lib::group_to_multiset_ensures;
    broadcast use vstd::seq_lib::lemma_multiset_commutative;
    broadcast use vstd::multiset::group_multiset_axioms;

    lemma_first_at_level(f, id);
    if f.len() > 0 {
        let k = first_at_level(f, id);
        if k < f.len() {
            let pre = f.subrange(0, k);
            let post = f.subrange(k + 1, f.len() as int);
            assert(f =~= pre + (seq![f[k]] + post));
            lemma_forest_ids_concat(pre, seq![f[k]] + post);
            assert((seq![f[k]] + post)[0] == f[k]);
            assert((seq![f[k]] + post).drop_first() =~= post);
            assert(forest_ids(seq![f[k]] + post) == node_ids(f[k]) + forest_ids(post));
            assert(f.remove(k) =~= pre + post);
            lemma_forest_ids_concat(pre, post);
            assert(forest_ids(f).to_multiset() =~= forest_ids(f.remove(k)).to_multiset().add(
                node_ids(f[k]).to_multiset(),
            ));
        } else {
            match take_in_forest(f[0].children, id) {
                Some((c, n)) => {
                    lemma_take_ids(f[0].children, id);
                    let rest = seq![NodeView { children: c, ..f[0] }] + f.drop_first();
                    assert(rest[0] == (NodeView { children: c, ..f[0] }));
                    assert(rest.drop_first() =~= f.drop_first());
                    assert(node_ids(rest[0]) == seq![f[0].id] + forest_ids(c));
                    assert(forest_ids(rest) == node_ids(rest[0]) + forest_ids(rest.drop_first()));
                    assert(forest_ids(rest) =~= (seq![f[0].id] + forest_ids(c)) + forest_ids(
                        f.drop_first(),
                    ));
                    assert(node_ids(f[0]) == seq![f[0].id] + forest_ids(f[0].children));
                    assert(forest_ids(f) =~= (seq![f[0].id] + forest_ids(f[0].children))
                        + forest_ids(f.drop_first()));
                    assert(forest_ids(f).to_multiset() =~= forest_ids(rest).to_multiset().add(
                        node_ids(n).to_multiset(),
                    ));
                },
                None => {
                    match take_in_forest(f.drop_first(), id) {
                        Some((r2, n)) => {
                            lemma_take_ids(f.drop_first(), id);
                            let rest = seq![f[0]] + r2;
                            assert(rest[0] == f[0]);
                            assert(rest.drop_first() =~= r2);
                            assert(forest_ids(rest) == node_ids(f[0]) + forest_ids(r2));
                            assert(forest_ids(f).to_multiset() =~= forest_ids(
                                rest,
                            ).to_multiset().add(node_ids(n).to_multiset()));
                        },
                        None => {},
                    }
                },
            }
        }
    }
}

/// Deletion is the remainder of a detach: it removes exactly the detached
/// subtree, or nothing where the id is absent.
pub proof fn lemma_remove_is_take(f: Seq<NodeView>, id: Seq<char>)
    ensures
        match take_in_forest(f, id) {
            Some((rest, n)) => remove_in_forest(f, id) == rest,
            None => remove_in_forest(f, id) == f,
        },
    decreases f,
{
    lemma_first_at_level(f, id);
    if f.len() > 0 {
        let k = first_at_level(f, id);
        if k < f.len() {
        } else {
            lemma_take_some(f[0].children, id);
            lemma_take_some(f.drop_first(), id);
            lemma_remove_is_take(f[0].children, id);
            lemma_remove_is_take(f.drop_first(), id);
            if forest_has_id(f[0].children, id) {
            } else {
                match take_in_forest(f.drop_first(), id) {
                    Some((r2, n)) => {},
                    None => {
                        assert(remove_in_forest(f, id) =~= f);
                    },
                }
            }
        }
    }
}

/// Under unique ids, deleting an id removes that node's whole subtree and
/// nothing else: the remainder keeps uniqueness, resolves no id of the
/// removed subtree (the deleted id included), and holds no id it did not
/// hold before.
pub proof fn lemma_delete_resolves(f: Seq<NodeView>, id: Seq<char>)
    requires
        ids_unique(f),
    ensures
        ids_unique(remove_in_forest(f, id)),
        !forest_has_id(remove_in_forest(f, id), id),
        forall|x: Seq<char>|
            forest_has_id(remove_in_forest(f, id), x) ==> forest_has_id(f, x),
        match take_in_forest(f, id) {
            Some((rest, n)) => forall|x: Seq<char>|
                node_has_id(n, x) ==> !forest_has_id(remove_in_forest(f, id), x),
            None => remove_in_forest(f, id) == f,
        },
{
    broadcast use vstd::seq_lib::group_to_multiset_ensures;
    broadcast use vstd::multiset::group_multiset_axioms;

    lemma_remove_is_take(f, id);
    lemma_take_some(f, id);
    match take_in_forest(f, id) {
        None => {
            assert(!forest_has_id(f, id));
        },
        Some((rest, n)) => {
            lemma_take_ids(f, id);
            forest_ids(f).lemma_multiset_has_no_duplicates();
            // the remainder's ids count at most once
            assert forall|x: Seq<char>|
                forest_ids(rest).to_multiset().contains(x) implies forest_ids(
                rest,
            ).to_multiset().count(x) == 1 by {
                assert(forest_ids(f).to_multiset().count(x) >= forest_ids(
                    rest,
                ).to_multiset().count(x));
                assert(forest_ids(f).to_multiset().contains(x));
            }
            forest_ids(rest).lemma_multiset_has_no_duplicates_conv();
            // a subtree id counts at least once in the subtree, so zero times
            // in the remainder
            assert forall|x: Seq<char>|
                node_has_id(n, x) implies !forest_has_id(rest, x) by {
                lemma_node_has_ids(n, x);
                lemma_forest_has_ids(rest, x);
                assert(node_ids(n).to_multiset().count(x) >= 1);
                assert(forest_ids(f).to_multiset().count(x) <= 1);
                assert(forest_ids(rest).to_multiset().count(x) == 0);
            }
            assert(node_has_id(n, id));
            assert forall|x: Seq<char>|
                forest_has_id(rest, x) implies forest_has_id(f, x) by {
                lemma_forest_has_ids(rest, x);
                lemma_forest_has_ids(f, x);
                assert(forest_ids(rest).to_multiset().count(x) >= 1);
                assert(forest_ids(f).to_multiset().count(x) >= 1);
                assert(forest_ids(f).contains(x));
            }
        },
    }
}

/// A root added under an id the forest does not hold is the node a get then
/// resolves: the first preorder find of that id returns exactly it.
pub proof fn lemma_find_added_root(f: Seq<NodeView>, n: NodeView)
    requires
        !forest_has_id(f, n.id),
    ensures
        find_in_forest(f.push(n), n.id) == Some(n),
{
    lemma_forest_has_iff(f, n.id);
    assert forall|j: int| 0 <= j < f.len() implies find_in_node(
        #[trigger] f.push(n)[j],
        n.id,
    ) is None by {
        assert(f.push(n)[j] == f[j]);
        assert(!node_has_id(f[j], n.id));
        lemma_find_node_has(f[j], n.id);
    }
    lemma_find_skip(f.push(n), n.id, f.len() as int);
    assert(f.push(n).skip(f.len() as int) =~= seq![n]);
    assert(seq![n][0] == n);
    assert(find_in_node(n, n.id) == Some(n));
}

/// Rebuilds the forest without the first node found carrying this id, and
/// hands that node (with its whole subtree) back; `None` if the id is absent.
#[verifier::rlimit(100)]
#[verifier::spinoff_prover]
pub fn take_node_recursive(nodes: &Vec<TreeItem>, id: &String) -> (r: Option<
    (Vec<TreeItem>, TreeItem),
>)
    ensures
        match r {
            Some((v, n)) => take_in_forest(forest_view(nodes@), id@) == Some(
                (forest_view(v@), n@),
            ),
            None => take_in_forest(forest_view(nodes@), id@) is None,
        },
    decreases nodes,
{
    let ghost fv = forest_view(nodes@);
    proof {
        lemma_forest_view(nodes@);
    }
    let mut i: usize = 0;
    while i < nodes.len()
        invariant
            0 <= i <= nodes@.len(),
            fv == forest_view(nodes@),
            fv.len() == nodes@.len(),
            forall|j: int| 0 <= j < nodes@.len() ==> fv[j] == node_view(nodes@[j]),
            forall|j: int| 0 <= j < i ==> (#[trigger] fv[j]).id != id@,
        decreases nodes@.len() - i,
    {
        if nodes[i].id == *id {
            proof {
                lemma_first_at_level(fv, id@);
                assert(first_at_level(fv, id@) == i) by {
                    if first_at_level(fv, id@) < i {
                        assert(fv[first_at_level(fv, id@)].id == id@);
                    }
                    if i < first_at_level(fv, id@) {
                        assert(fv[i as int].id != id@);
                    }
                }
            }
            let taken = nodes[i].deep_clone();
            let rest = clone_except(nodes, i);
            return Some((rest, taken));
        }
        i += 1;
    }
    proof {
        lemma_first_at_level(fv, id@);
        assert(first_at_level(fv, id@) == fv.len()) by {
            if first_at_level(fv, id@) < fv.len() {
                assert(fv[first_at_level(fv, id@)].id == id@);
            }
        }
    }
    let mut j: usize = 0;
    while j < nodes.len()
        invariant
            0 <= j <= nodes@.len(),
            fv == forest_view(nodes@),
            fv.len() == nodes@.len(),
            forall|t: int| 0 <= t < nodes@.len() ==> fv[t] == node_view(nodes@[t]),
            forall|t: int| 0 <= t < nodes@.len() ==> (#[trigger] fv[t]).id != id@,
            forall|t: int| 0 <= t < j ==> take_in_forest((#[trigger] fv[t]).children, id@) is None,
        decreases nodes@.len() - j,
    {
        proof {
            assert(decreases_to!(nodes => nodes[j as int]));
        }
        match take_node_recursive(&nodes[j].children, id) {
            Some((c, n)) => {
                let ghost cv = forest_view(c@);
                let rebuilt = nodes[j].with_children(c);
                let out = clone_with_at(nodes, j, rebuilt);
                proof {
                    lemma_take_descend(fv, id@, j as int, cv, n@);
                }
                return Some((out, n));
            },
            None => {},
        }
        j += 1;
    }
    proof {
        lemma_take_none(fv, id@);
    }
    None
}

impl Store {
    /// Every id in the forest is globally unique.
    pub open spec fn wf(&self) -> bool {
        ids_unique(self@)
    }

    /// Builds a store over an already-loaded forest. The caller's persistence
    /// adapter reads the file (a missing or unreadable file is an empty
    /// forest) and hands the nodes in.
    pub fn new(data: Vec<TreeItem>) -> (s: Store)
        ensures
            s@ == forest_view(data@),
    {
        Store { data }
    }

    /// A deep copy of the entire forest.
    pub fn get_all(&self) -> (r: Vec<TreeItem>)
        ensures
            forest_view(r@) == self@,
    {
        clone_forest(&self.data)
    }

    /// A deep copy of the first node with this id, preorder, if any.
    pub fn get_item(&self, id: &str) -> (r: Option<TreeItem>)
        ensures
            match r {
                Some(n) => find_in_forest(self@, id@) == Some(n@),
                None => find_in_forest(self@, id@) is None,
            },
            r is Some <==> forest_has_id(self@, id@),
    {
        let key = String::from_str(id);
        proof {
            lemma_find_forest_has(self@, id@);
        }
        match find_node_recursive(&self.data, &key) {
            Some(n) => Some(n.deep_clone()),
            None => None,
        }
    }

    /// Adds a candidate under the given parent (or as a new root), under a
    /// caller-chosen fresh id and creation time.
    pub fn add_item_with_id(
        &mut self,
        parent_id: &Option<String>,
        item: TreeItem,
        id: String,
        now: i64,
    ) -> (r: Result<TreeItem, StoreError>)
        ensures
            ({
                let nv = stamped(item@, id@, now as int);
                match *parent_id {
                    None => r matches Ok(n) && n@ == nv && final(self)@ == old(self)@.push(nv),
                    Some(pid) => if forest_has_id(old(self)@, pid@) {
                        (r matches Ok(n) && n@ == nv) && final(self)@ == attach_in_forest(
                            old(self)@,
                            pid@,
                            nv,
                        )
                    } else {
                        r == Err::<TreeItem, StoreError>(StoreError::ParentNotFound) && final(self)@
                            == old(self)@
                    },
                }
            }),
            r is Ok && (forest_ids(old(self)@) + node_ids(
                stamped(item@, id@, now as int),
            )).no_duplicates() ==> ids_unique(final(self)@),
    {
        let ghost sv = stamped(item@, id@, now as int);
        let ghost fv0 = forest_view(self.data@);
        let ghost iv = item@;
        let mut item = item;
        item.id = id;
        item.metadata.last_modified = Some(now);
        proof {
            assert(item@ =~= stamped(iv, item.id@, now as int));
            assert(item@ == sv);
        }
        match parent_id {
            Some(pid) => {
                match attach_node_recursive(&self.data, pid, &item) {
                    Some(v) => {
                        self.data = v;
                        proof {
                            if (forest_ids(fv0) + node_ids(sv)).no_duplicates() {
                                lemma_attach_forest_ids(fv0, pid@, sv);
                                lemma_no_dup_transport(
                                    forest_ids(fv0) + node_ids(sv),
                                    forest_ids(forest_view(self.data@)),
                                );
                            }
                        }
                        Ok(item)
                    },
                    None => Err(StoreError::ParentNotFound),
                }
            },
            None => {
                let c = item.deep_clone();
                let ghost dv = self.data@;
                self.data.push(c);
                proof {
                    lemma_forest_view(self.data@);
                    lemma_forest_view(dv);
                    assert(forest_view(self.data@) =~= forest_view(dv).push(item@));
                    lemma_ids_push(fv0, sv);
                }
                Ok(item)
            },
        }
    }

    /// Adds a candidate node: a fresh id and the current time overwrite
    /// whatever the caller supplied for those two fields; the node is appended
    /// under the resolved parent, or as a new root when no parent is named.
    pub fn add_item(&mut self, parent_id: Option<String>, item: TreeItem) -> (r: Result<
        TreeItem,
        StoreError,
    >)
        ensures
            r matches Ok(n) ==> n@.metadata.last_modified is Some && n@ == stamped(
                item@,
                n@.id,
                n@.metadata.last_modified->0,
            ),
            r matches Ok(n) ==> match parent_id {
                None => final(self)@ == old(self)@.push(n@),
                Some(pid) => forest_has_id(old(self)@, pid@) && final(self)@ == attach_in_forest(
                    old(self)@,
                    pid@,
                    n@,
                ),
            },
            r is Err ==> r == Err::<TreeItem, StoreError>(StoreError::ParentNotFound) && final(self)@
                == old(self)@ && (parent_id matches Some(pid) && !forest_has_id(old(self)@, pid@)),
            parent_id is None ==> r is Ok,
            parent_id matches Some(pid) ==> (r is Ok <==> forest_has_id(old(self)@, pid@)),
            r matches Ok(n) ==> ((forest_ids(old(self)@) + node_ids(n@)).no_duplicates()
                ==> ids_unique(final(self)@)),
            r matches Ok(n) ==> n@.id.len() > 0,
    {
        let id = fresh_id();
        let now = now_millis();
        self.add_item_with_id(&parent_id, item, id, now)
    }

    /// Merges the patch into the node carrying this id, at a caller-chosen
    /// modification time.
    pub fn update_item_at(&mut self, id: &String, updates: &TreeItem, now: i64) -> (r: Result<
        TreeItem,
        StoreError,
    >)
        ensures
            r is Ok <==> forest_has_id(old(self)@, id@),
            r matches Ok(n) ==> final(self)@ == update_in_forest(old(self)@, id@, updates@, now as int)
                && n@ == merged(find_in_forest(old(self)@, id@)->0, updates@, now as int),
            r is Err ==> r == Err::<TreeItem, StoreError>(StoreError::ItemNotFound) && final(self)@
                == old(self)@,
            forest_ids(final(self)@) == forest_ids(old(self)@),
            ids_unique(old(self)@) ==> ids_unique(final(self)@),
    {
        let ghost fv0 = forest_view(self.data@);
        match update_node_recursive(&self.data, id, updates, now) {
            Some((v, c)) => {
                self.data = v;
                proof {
                    lemma_update_forest_ids(fv0, id@, updates@, now as int);
                }
                Ok(c)
            },
            None => Err(StoreError::ItemNotFound),
        }
    }

    /// Merges the patch into the node carrying this id: `name`, `content` and
    /// `versions` are overwritten outright; `description` and `tags` only by a
    /// present patch value; `last_modified` is refreshed to the current time.
    pub fn update_item(&mut self, id: String, updates: TreeItem) -> (r: Result<
        TreeItem,
        StoreError,
    >)
        ensures
            r is Ok <==> forest_has_id(old(self)@, id@),
            r matches Ok(n) ==> n@.metadata.last_modified is Some && final(self)@ == update_in_forest(
                old(self)@,
                id@,
                updates@,
                n@.metadata.last_modified->0,
            ) && n@ == merged(
                find_in_forest(old(self)@, id@)->0,
                updates@,
                n@.metadata.last_modified->0,
            ),
            r is Err ==> r == Err::<TreeItem, StoreError>(StoreError::ItemNotFound) && final(self)@
                == old(self)@,
            forest_ids(final(self)@) == forest_ids(old(self)@),
            ids_unique(old(self)@) ==> ids_unique(final(self)@),
    {
        let now = now_millis();
        self.update_item_at(&id, &updates, now)
    }

    /// Removes the first node found carrying this id, together with its whole
    /// subtree; an absent id is a no-op, not an error.
    pub fn delete_item(&mut self, id: String) -> (r: Result<(), StoreError>)
        ensures
            r is Ok,
            final(self)@ == remove_in_forest(old(self)@, id@),
            ids_unique(old(self)@) ==> ids_unique(final(self)@),
            ids_unique(old(self)@) ==> !forest_has_id(final(self)@, id@),
            ids_unique(old(self)@) ==> (forall|x: Seq<char>|
                forest_has_id(final(self)@, x) ==> forest_has_id(old(self)@, x)),
            ids_unique(old(self)@) ==> match take_in_forest(old(self)@, id@) {
                Some((rest, n)) => forall|x: Seq<char>|
                    node_has_id(n, x) ==> !forest_has_id(final(self)@, x),
                None => final(self)@ == old(self)@,
            },
    {
        let ghost fv0 = forest_view(self.data@);
        let out = delete_node_recursive(&self.data, &id);
        self.data = out;
        proof {
            if ids_unique(fv0) {
                lemma_delete_resolves(fv0, id@);
            }
        }
        Ok(())
    }

    /// Detaches the node carrying `item_id` (with its whole subtree) and
    /// re-attaches it under `new_parent_id`, or as a root when no parent is
    /// named; the moved node's `parent_id` back-reference is updated. The
    /// subtree is detached before the target is searched, so a move under the
    /// node's own descendant finds no target and is rejected as a cycle.
    pub fn move_item(&mut self, item_id: String, new_parent_id: Option<String>) -> (r: Result<
        TreeItem,
        StoreError,
    >)
        ensures
            match take_in_forest(old(self)@, item_id@) {
                None => r == Err::<TreeItem, StoreError>(StoreError::ItemNotFound) && final(self)@
                    == old(self)@,
                Some((rest, n)) => match new_parent_id {
                    None => {
                        let n2 = NodeView { parent_id: None, ..n };
                        (r matches Ok(m) && m@ == n2) && final(self)@ == rest.push(n2)
                    },
                    Some(pid) => if forest_has_id(rest, pid@) {
                        let n2 = NodeView { parent_id: Some(pid@), ..n };
                        (r matches Ok(m) && m@ == n2) && final(self)@ == attach_in_forest(
                            rest,
                            pid@,
                            n2,
                        )
                    } else if node_has_id(n, pid@) {
                        r == Err::<TreeItem, StoreError>(StoreError::CycleRejected)
                            && final(self)@ == old(self)@
                    } else {
                        r == Err::<TreeItem, StoreError>(StoreError::ItemNotFound)
                            && final(self)@ == old(self)@
                    },
                },
            },
    {
        match take_node_recursive(&self.data, &item_id) {
            None => Err(StoreError::ItemNotFound),
            Some((rest, node)) => {
                let ghost nv = node@;
                let mut node = node;
                match new_parent_id {
                    None => {
                        node.parent_id = None;
                        proof {
                            assert(node@ =~= (NodeView { parent_id: None, ..nv }));
                        }
                        let c = node.deep_clone();
                        let mut rest = rest;
                        let ghost rest0 = rest@;
                        let ghost restv = forest_view(rest@);
                        rest.push(c);
                        proof {
                            lemma_forest_view(rest@);
                            lemma_forest_view(rest0);
                            assert(rest@ =~= rest0.push(c));
                            assert(forest_view(rest@) =~= restv.push(node@));
                        }
                        self.data = rest;
                        Ok(node)
                    },
                    Some(pid) => {
                        node.parent_id = Some(pid.clone());
                        proof {
                            assert(node@ =~= (NodeView { parent_id: Some(pid@), ..nv }));
                            assert(node_has_id(node@, pid@) == node_has_id(nv, pid@));
                        }
                        match attach_node_recursive(&rest, &pid, &node) {
                            Some(v) => {
                                self.data = v;
                                Ok(node)
                            },
                            None => {
                                proof {
                                    lemma_find_node_has(node@, pid@);
                                }
                                match find_node_in(&node, &pid) {
                                    Some(_) => Err(StoreError::CycleRejected),
                                    None => Err(StoreError::ItemNotFound),
                                }
                            },
                        }
                    },
                }
            },
        }
    }
}

} // verus!

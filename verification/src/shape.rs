use vstd::prelude::*;
use crate::entries::{
    has_key, index_of, insertion_point, lemma_index_unique, lemma_insertion_point_exists,
    lemma_with_entry, lookup, sorted, value_of, with_entry,
};
use crate::entries::lemma_same_keys;
use crate::node::{Attribute, NodeContent, NodeView};

verus! {

/// `path` begins with the segments of `start`.
pub open spec fn starts_with(path: Seq<Seq<char>>, start: Seq<Seq<char>>) -> bool {
    &&& start.len() <= path.len()
    &&& forall|i: int| 0 <= i < start.len() ==> path[i] == start[i]
}

impl<T, J, A> NodeView<T, J, A> {
    /// The two nodes have the same name, value, attributes and jobs, and as
    /// many children.
    pub open spec fn same_top(self, other: Self) -> bool {
        &&& self.name == other.name
        &&& self.value == other.value
        &&& self.attributes == other.attributes
        &&& self.jobs == other.jobs
        &&& self.children.len() == other.children.len()
    }

    /// This node is `before` with `more` children more: it has the same name,
    /// value, attributes and jobs.
    pub open spec fn grown_by(self, before: Self, more: nat) -> bool {
        &&& self.name == before.name
        &&& self.value == before.value
        &&& self.attributes == before.attributes
        &&& self.jobs == before.jobs
        &&& self.children.len() == before.children.len() + more
    }

    /// In the whole subtree the children of a node stand in the order of the
    /// names under which they are kept, and each is kept under its own name.
    pub open spec fn well_kept(self) -> bool
        decreases self,
    {
        &&& sorted(self.children)
        &&& forall|i: int|
            0 <= i < self.children.len() ==> (#[trigger] self.children[i]).0
                == self.children[i].1.name && self.children[i].1.well_kept()
    }
}

/// A child that is found under a name stands in the sequence of the children.
pub proof fn lemma_child<T, J, A>(node: NodeView<T, J, A>, key: Seq<char>)
    requires
        node.child(key) is Some,
    ensures
        0 <= index_of(node.children, key) < node.children.len(),
        node.children[index_of(node.children, key)] == (key, node.child(key).unwrap()),
        decreases_to!(node => node.child(key).unwrap()),
{
}

/// A walk along two paths, one after the other, is a walk along the first and
/// from its end a walk along the second.
pub proof fn lemma_node_at_concat<T, J, A>(
    node: NodeView<T, J, A>,
    first: Seq<Seq<char>>,
    second: Seq<Seq<char>>,
)
    ensures
        node.node_at(first + second) == match node.node_at(first) {
            Some(n) => n.node_at(second),
            None => None,
        },
    decreases first.len(),
{
    if first.len() == 0 {
        assert(first + second =~= second);
    } else {
        assert((first + second).drop_first() =~= first.drop_first() + second);
        match node.child(first[0]) {
            Some(c) => {
                lemma_node_at_concat(c, first.drop_first(), second);
            },
            None => {},
        }
    }
}

/// A walk that goes one step further than `path` ends at a child of the node
/// at which `path` ends.
pub proof fn lemma_node_at_push<T, J, A>(
    node: NodeView<T, J, A>,
    path: Seq<Seq<char>>,
    key: Seq<char>,
)
    ensures
        node.node_at(path.push(key)) == match node.node_at(path) {
            Some(n) => n.child(key),
            None => None,
        },
{
    lemma_node_at_concat(node, path, seq![key]);
    assert(path + seq![key] =~= path.push(key));
    match node.node_at(path) {
        Some(n) => {
            let one = seq![key];
            assert(one[0] == key);
            assert(one.drop_first() =~= Seq::<Seq<char>>::empty());
            match n.child(key) {
                Some(c) => {
                    assert(c.node_at(one.drop_first()) == Some(c));
                },
                None => {},
            }
        },
        None => {},
    }
}

/// Two paths with the same first segment begin alike where their remainders do.
pub proof fn lemma_starts_with_step(path: Seq<Seq<char>>, start: Seq<Seq<char>>)
    requires
        path.len() > 0,
        start.len() > 0,
        path[0] == start[0],
    ensures
        starts_with(path, start) == starts_with(path.drop_first(), start.drop_first()),
{
    let p = path.drop_first();
    let s = start.drop_first();
    if starts_with(path, start) {
        assert forall|i: int| 0 <= i < s.len() implies p[i] == s[i] by {
            assert(path[i + 1] == start[i + 1]);
        }
    }
    if starts_with(p, s) {
        assert forall|i: int| 0 <= i < start.len() implies path[i] == start[i] by {
            if i > 0 {
                assert(p[i - 1] == s[i - 1]);
            }
        }
    }
}

/// Every node of a well kept subtree heads a well kept subtree.
pub proof fn lemma_node_at_well_kept<T, J, A>(node: NodeView<T, J, A>, path: Seq<Seq<char>>)
    requires
        node.well_kept(),
        node.node_at(path) is Some,
    ensures
        node.node_at(path).unwrap().well_kept(),
    decreases path.len(),
{
    if path.len() > 0 {
        lemma_child(node, path[0]);
        lemma_node_at_well_kept(node.child(path[0]).unwrap(), path.drop_first());
    }
}

/// Keeping a well kept node under its own name keeps the subtree well kept,
/// and changes what is found under that name only.
pub proof fn lemma_with_child<T, J, A>(
    node: NodeView<T, J, A>,
    key: Seq<char>,
    child: NodeView<T, J, A>,
)
    requires
        node.well_kept(),
        child.well_kept(),
        child.name == key,
    ensures
        node.with_child(key, child).well_kept(),
        node.with_child(key, child).name == node.name,
        node.with_child(key, child).child(key) == Some(child),
        forall|other: Seq<char>|
            other != key ==> node.with_child(key, child).child(other) == node.child(other),
{
    let es = node.children;
    let r = with_entry(es, key, child);
    lemma_with_entry(es, key, child);
    if has_key(es, key) {
        let i = index_of(es, key);
        assert forall|j: int| 0 <= j < r.len() implies (#[trigger] r[j]).0 == r[j].1.name
            && r[j].1.well_kept() by {
            if j != i {
                assert(r[j] == es[j]);
            }
        }
    } else {
        lemma_insertion_point_exists(es, key, 0);
        let p = insertion_point(es, key);
        assert forall|j: int| 0 <= j < r.len() implies (#[trigger] r[j]).0 == r[j].1.name
            && r[j].1.well_kept() by {
            if j < p {
                assert(r[j] == es[j]);
            } else if j > p {
                assert(r[j] == es[j - 1]);
            }
        }
    }
}

/// What replacing the node at the end of `path` does to the walks from `node`.
/// A walk that passes the end of `path` goes on from the new node. A walk that
/// ends before it finds a node that differs from the one before in its
/// subtrees only. Any other walk finds what it found before.
pub proof fn lemma_replaced_node_at<T, J, A>(
    node: NodeView<T, J, A>,
    path: Seq<Seq<char>>,
    new: NodeView<T, J, A>,
    walk: Seq<Seq<char>>,
)
    requires
        node.well_kept(),
        node.node_at(path) is Some,
        new.well_kept(),
        new.name == node.node_at(path).unwrap().name,
    ensures
        node.with_node_at(path, new).well_kept(),
        node.with_node_at(path, new).name == node.name,
        starts_with(walk, path) ==> node.with_node_at(path, new).node_at(walk) == new.node_at(
            walk.skip(path.len() as int),
        ),
        starts_with(path, walk) && walk.len() < path.len() ==> {
            &&& node.node_at(walk) is Some
            &&& node.with_node_at(path, new).node_at(walk) is Some
            &&& node.with_node_at(path, new).node_at(walk).unwrap().same_top(
                node.node_at(walk).unwrap(),
            )
        },
        !starts_with(walk, path) && !starts_with(path, walk) ==> node.with_node_at(
            path,
            new,
        ).node_at(walk) == node.node_at(walk),
    decreases path.len(),
{
    if path.len() == 0 {
        assert(walk.skip(0) =~= walk);
    } else {
        let key = path[0];
        let child = node.child(key).unwrap();
        lemma_child(node, key);
        let rest = path.drop_first();
        let new_child = child.with_node_at(rest, new);
        let further = if walk.len() > 0 {
            walk.drop_first()
        } else {
            walk
        };
        lemma_replaced_node_at(child, rest, new, further);
        lemma_with_child(node, key, new_child);
        if walk.len() > 0 {
            if walk[0] == key {
                lemma_starts_with_step(walk, path);
                lemma_starts_with_step(path, walk);
                if starts_with(walk, path) {
                    assert(walk.skip(path.len() as int) =~= walk.drop_first().skip(
                        rest.len() as int,
                    ));
                }
            }
        }
    }
}

/// Putting back the node that a walk found leaves the subtree as it was.
pub proof fn lemma_with_node_at_same<T, J, A>(node: NodeView<T, J, A>, path: Seq<Seq<char>>)
    requires
        node.node_at(path) is Some,
    ensures
        node.with_node_at(path, node.node_at(path).unwrap()) == node,
    decreases path.len(),
{
    if path.len() > 0 {
        let key = path[0];
        let child = node.child(key).unwrap();
        lemma_child(node, key);
        lemma_with_node_at_same(child, path.drop_first());
        let i = index_of(node.children, key);
        assert(node.children.update(i, (key, child)) =~= node.children);
    }
}

/// The number of nodes after one entry of the children was replaced.
pub proof fn lemma_count_all_update<T, J, A>(
    children: Seq<(Seq<char>, NodeView<T, J, A>)>,
    i: int,
    entry: (Seq<char>, NodeView<T, J, A>),
)
    requires
        0 <= i < children.len(),
    ensures
        NodeView::count_all(children.update(i, entry)) == NodeView::count_all(children)
            - children[i].1.count() + entry.1.count(),
    decreases children.len(),
{
    let changed = children.update(i, entry);
    if i == children.len() - 1 {
        assert(changed.drop_last() =~= children.drop_last());
    } else {
        assert(changed.drop_last() =~= children.drop_last().update(i, entry));
        lemma_count_all_update(children.drop_last(), i, entry);
    }
}

/// The number of nodes after one entry entered among the children.
pub proof fn lemma_count_all_insert<T, J, A>(
    children: Seq<(Seq<char>, NodeView<T, J, A>)>,
    p: int,
    entry: (Seq<char>, NodeView<T, J, A>),
)
    requires
        0 <= p <= children.len(),
    ensures
        NodeView::count_all(children.insert(p, entry)) == NodeView::count_all(children)
            + entry.1.count(),
    decreases children.len(),
{
    let changed = children.insert(p, entry);
    if p == children.len() {
        assert(changed.drop_last() =~= children);
    } else {
        assert(changed.drop_last() =~= children.drop_last().insert(p, entry));
        lemma_count_all_insert(children.drop_last(), p, entry);
    }
}

/// The number of nodes after a child was put under a name: those of the child
/// more, and those of the child that was kept there before less.
pub proof fn lemma_count_with_child<T, J, A>(
    node: NodeView<T, J, A>,
    key: Seq<char>,
    child: NodeView<T, J, A>,
)
    requires
        sorted(node.children),
    ensures
        node.with_child(key, child).count() == node.count() + child.count() - match node.child(
            key,
        ) {
            Some(before) => before.count(),
            None => 0,
        },
{
    if has_key(node.children, key) {
        lemma_count_all_update(node.children, index_of(node.children, key), (key, child));
    } else {
        lemma_insertion_point_exists(node.children, key, 0);
        lemma_count_all_insert(node.children, insertion_point(node.children, key), (key, child));
    }
}

/// The number of nodes after the node at the end of `path` was replaced.
pub proof fn lemma_count_replaced<T, J, A>(
    node: NodeView<T, J, A>,
    path: Seq<Seq<char>>,
    new: NodeView<T, J, A>,
)
    requires
        node.well_kept(),
        node.node_at(path) is Some,
    ensures
        node.with_node_at(path, new).count() == node.count() - node.node_at(
            path,
        ).unwrap().count() + new.count(),
    decreases path.len(),
{
    if path.len() > 0 {
        let key = path[0];
        let child = node.child(key).unwrap();
        lemma_child(node, key);
        lemma_count_replaced(child, path.drop_first(), new);
        lemma_count_with_child(node, key, child.with_node_at(path.drop_first(), new));
    }
}

/// An update changes no name and adds or removes no node. The subtree stays
/// well kept and has as many nodes as before.
pub proof fn lemma_updated_kept<T: NodeContent<J>, J: Clone, A: Attribute<J>>(
    node: NodeView<T, J, A>,
    inherited: Seq<J>,
)
    requires
        node.well_kept(),
    ensures
        node.updated(inherited).name == node.name,
        node.updated(inherited).well_kept(),
        node.updated(inherited).count() == node.count(),
    decreases node,
{
    let after = node.updated(inherited);
    let sent = node.forwarded_jobs(inherited);
    assert forall|i: int| 0 <= i < after.children.len() implies (#[trigger] after.children[i]).0
        == after.children[i].1.name && after.children[i].1.well_kept() && after.children[i].0
        == node.children[i].0 && after.children[i].1.count() == node.children[i].1.count() by {
        lemma_updated_kept(node.children[i].1, sent);
    }
    lemma_same_keys(node.children, after.children, Seq::empty());
    lemma_count_all_same(node.children, after.children);
}

/// Two sequences of children with as many nodes at each place have as many
/// nodes in all.
pub proof fn lemma_count_all_same<T, J, A>(
    a: Seq<(Seq<char>, NodeView<T, J, A>)>,
    b: Seq<(Seq<char>, NodeView<T, J, A>)>,
)
    requires
        a.len() == b.len(),
        forall|i: int| 0 <= i < a.len() ==> (#[trigger] a[i]).1.count() == b[i].1.count(),
    ensures
        NodeView::count_all(a) == NodeView::count_all(b),
    decreases a.len(),
{
    if a.len() > 0 {
        assert(a.last().1.count() == b.last().1.count());
        assert forall|i: int| 0 <= i < a.drop_last().len()
            implies (#[trigger] a.drop_last()[i]).1.count()
            == b.drop_last()[i].1.count() by {
            assert(a[i].1.count() == b[i].1.count());
        }
        lemma_count_all_same(a.drop_last(), b.drop_last());
    }
}

/// After an update a walk finds a node where it found one before, and the node
/// has the name it had.
pub proof fn lemma_updated_walk<T: NodeContent<J>, J: Clone, A: Attribute<J>>(
    node: NodeView<T, J, A>,
    inherited: Seq<J>,
    path: Seq<Seq<char>>,
)
    requires
        node.well_kept(),
    ensures
        node.updated(inherited).node_at(path) is Some <==> node.node_at(path) is Some,
        node.node_at(path) is Some ==> node.updated(inherited).node_at(path).unwrap().name
            == node.node_at(path).unwrap().name,
    decreases path.len(),
{
    let after = node.updated(inherited);
    lemma_updated_kept(node, inherited);
    if path.len() > 0 {
        lemma_same_keys(node.children, after.children, path[0]);
        if has_key(node.children, path[0]) {
            let i = index_of(node.children, path[0]);
            lemma_updated_walk(
                node.children[i].1,
                node.forwarded_jobs(inherited),
                path.drop_first(),
            );
        }
    }
}

/// The number of nodes in the subtrees of `children`, counted from the front.
pub proof fn lemma_count_all_front<T, J, A>(children: Seq<(Seq<char>, NodeView<T, J, A>)>)
    requires
        children.len() > 0,
    ensures
        NodeView::count_all(children) == children[0].1.count() + NodeView::count_all(
            children.drop_first(),
        ),
    decreases children.len(),
{
    if children.len() == 1 {
        assert(children.drop_last() =~= children.drop_first());
        assert(NodeView::count_all(children.drop_last()) == 0);
    } else {
        lemma_count_all_front(children.drop_last());
        assert(children.drop_last().drop_first() =~= children.drop_first().drop_last());
    }
}

} // verus!

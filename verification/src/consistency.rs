use vstd::prelude::*;
use crate::entries::{has_key, lemma_with_entry, lookup, sorted, value_of, with_entry};
use crate::node::{Attribute, NodeContent, NodeView};
use crate::shape::{
    lemma_updated_kept, lemma_updated_walk,
    lemma_child, lemma_count_replaced, lemma_count_with_child, lemma_node_at_concat,
    lemma_node_at_push, lemma_node_at_well_kept, lemma_replaced_node_at, lemma_with_child,
    starts_with,
};
use crate::names::normalized;
use crate::registry::lemma_unique_name;
use crate::shape::{lemma_count_all_front, lemma_with_node_at_same};
use crate::node::{copies_of, copy_of};
use crate::tree::TreeView;

verus! {

impl<T, J, A> TreeView<T, J, A> {
    /// The registry and the nodes agree. Every registered name leads to a node
    /// of that name, every node is registered under its name with the path
    /// that leads to it, and the registry has as many entries as the tree has
    /// nodes. The registry and the children of every node stand in the order
    /// of their names.
    pub open spec fn consistent(self) -> bool {
        &&& sorted(self.registry)
        &&& self.root.well_kept()
        &&& forall|name: Seq<char>| #[trigger]
            has_key(self.registry, name) ==> self.root.node_at(value_of(self.registry, name))
                is Some && self.root.node_at(value_of(self.registry, name)).unwrap().name == name
        &&& forall|path: Seq<Seq<char>>|
            (#[trigger] self.root.node_at(path)) is Some ==> lookup(
                self.registry,
                self.root.node_at(path).unwrap().name,
            ) == Some(path)
        &&& self.registry.len() == self.root.count()
    }
}

/// In a consistent tree every registered name leads to a node of that name,
/// and the registry has as many entries as the tree has nodes, the root
/// counted.
pub proof fn lemma_registry_resolves<T, J, A>(tree: TreeView<T, J, A>, name: Seq<char>)
    requires
        tree.consistent(),
        has_key(tree.registry, name),
    ensures
        tree.node_named(name) is Some,
        tree.node_named(name).unwrap().name == name,
        tree.registry.len() == tree.root.count(),
{
}

/// Looking a node up and leaving it as it is leaves the tree as it is, so the
/// next lookup of the same name finds the same node.
pub proof fn lemma_lookup_again<T, J, A>(tree: TreeView<T, J, A>, name: Seq<char>)
    requires
        tree.node_named(name) is Some,
    ensures
        tree.with_node_named(name, tree.node_named(name).unwrap()) == tree,
        tree.with_node_named(name, tree.node_named(name).unwrap()).node_named(name)
            == tree.node_named(name),
{
    lemma_with_node_at_same(tree.root, value_of(tree.registry, name));
}

/// A tree that was just made is consistent.
pub proof fn lemma_new_consistent<T, J, A>(name: Seq<char>, value: T, attributes: A)
    ensures
        (TreeView {
            name: name,
            registry: seq![(name, Seq::<Seq<char>>::empty())],
            root: NodeView::<T, J, A>::leaf(name, value, attributes),
        }).consistent(),
{
    let root = NodeView::<T, J, A>::leaf(name, value, attributes);
    let registry = seq![(name, Seq::<Seq<char>>::empty())];
    assert(registry[0].0 == name);
    assert forall|path: Seq<Seq<char>>| (#[trigger] root.node_at(path)) is Some implies lookup(
        registry,
        root.node_at(path).unwrap().name,
    ) == Some(path) by {
        if path.len() > 0 {
            assert(root.child(path[0]) is None);
        } else {
            assert(path =~= Seq::<Seq<char>>::empty());
        }
    }
    assert(NodeView::<T, J, A>::count_all(root.children) == 0);
}

/// Adding a node under a name that is not registered keeps a consistent tree
/// consistent.
pub proof fn lemma_added_consistent<T, J, A>(
    tree: TreeView<T, J, A>,
    parent: Seq<char>,
    name: Seq<char>,
    value: T,
    attributes: A,
)
    requires
        tree.consistent(),
        tree.can_add(parent),
        !has_key(tree.registry, name),
    ensures
        tree.added(parent, name, value, attributes).consistent(),
        tree.added(parent, name, value, attributes).registry.len() == tree.registry.len() + 1,
        forall|other: Seq<char>|
            tree.can_add(other) ==> #[trigger] tree.added(parent, name, value, attributes).can_add(
                other,
            ),
        tree.added(parent, name, value, attributes).can_add(name),
{
    let reg = tree.registry;
    let root = tree.root;
    let pp = value_of(reg, parent);
    let below = root.node_at(pp).unwrap();
    let leaf = NodeView::<T, J, A>::leaf(name, value, attributes);
    let below2 = below.with_child(name, leaf);
    let root2 = root.with_node_at(pp, below2);
    let reg2 = with_entry(reg, name, pp.push(name));
    let tree2 = tree.added(parent, name, value, attributes);
    assert(tree2.root == root2 && tree2.registry == reg2);

    lemma_node_at_well_kept(root, pp);
    assert(leaf.well_kept());
    lemma_with_child(below, name, leaf);
    if has_key(below.children, name) {
        lemma_child(below, name);
        lemma_node_at_push(root, pp, name);
        assert(root.node_at(pp.push(name)) is Some);
        assert(false);
    }
    assert(NodeView::<T, J, A>::count_all(leaf.children) == 0);
    lemma_count_with_child(below, name, leaf);
    lemma_count_replaced(root, pp, below2);
    lemma_with_entry(reg, name, pp.push(name));
    lemma_replaced_node_at(root, pp, below2, pp);
    assert(pp.skip(pp.len() as int) =~= Seq::<Seq<char>>::empty());
    assert(root2.node_at(pp) == Some(below2));
    lemma_node_at_push(root2, pp, name);
    assert(root2.node_at(pp.push(name)) == Some(leaf));

    assert forall|k: Seq<char>| #[trigger] has_key(reg2, k) implies root2.node_at(
        value_of(reg2, k),
    ) is Some && root2.node_at(value_of(reg2, k)).unwrap().name == k by {
        if k != name {
            assert(lookup(reg2, k) == lookup(reg, k));
            let q = value_of(reg, k);
            lemma_walk_kept(root, pp, below2, name, q);
        }
    }
    assert forall|q: Seq<Seq<char>>| (#[trigger] root2.node_at(q)) is Some implies lookup(
        reg2,
        root2.node_at(q).unwrap().name,
    ) == Some(q) by {
        lemma_replaced_node_at(root, pp, below2, q);
        if starts_with(q, pp) {
            let rest = q.skip(pp.len() as int);
            assert(pp + rest =~= q);
            lemma_node_at_concat(root, pp, rest);
            if rest.len() == 0 {
                assert(q =~= pp);
                assert(has_key(reg, below.name));
            } else if rest[0] == name {
                if rest.len() == 1 {
                    assert(q =~= pp.push(name));
                    assert(rest.drop_first() =~= Seq::<Seq<char>>::empty());
                } else {
                    assert(leaf.child(rest.drop_first()[0]) is None);
                    assert(leaf.node_at(rest.drop_first()) is None);
                }
            } else {
                assert(below2.child(rest[0]) == below.child(rest[0]));
                assert(has_key(reg, root.node_at(q).unwrap().name));
            }
        } else {
            assert(root.node_at(q) is Some);
            assert(has_key(reg, root.node_at(q).unwrap().name));
        }
    }
    assert forall|other: Seq<char>| tree.can_add(other) implies #[trigger] tree2.can_add(
        other,
    ) by {
        assert(has_key(reg, other));
        assert(lookup(reg2, other) == lookup(reg, other));
        lemma_walk_kept(root, pp, below2, name, value_of(reg, other));
    }
}

/// An update keeps a consistent tree consistent.
pub proof fn lemma_updated_consistent<T: NodeContent<J>, J: Clone, A: Attribute<J>>(
    tree: TreeView<T, J, A>,
)
    requires
        tree.consistent(),
    ensures
        (TreeView { root: tree.root.updated(Seq::<J>::empty()), ..tree }).consistent(),
{
    let none = Seq::<J>::empty();
    let root2 = tree.root.updated(none);
    lemma_updated_kept(tree.root, none);
    assert forall|k: Seq<char>| #[trigger] has_key(tree.registry, k) implies root2.node_at(
        value_of(tree.registry, k),
    ) is Some && root2.node_at(value_of(tree.registry, k)).unwrap().name == k by {
        lemma_updated_walk(tree.root, none, value_of(tree.registry, k));
    }
    assert forall|q: Seq<Seq<char>>| (#[trigger] root2.node_at(q)) is Some implies lookup(
        tree.registry,
        root2.node_at(q).unwrap().name,
    ) == Some(q) by {
        lemma_updated_walk(tree.root, none, q);
        assert(tree.root.node_at(q) is Some);
    }
}

/// Grafting onto a consistent tree keeps it consistent. The graft succeeds
/// where a node can be added below the target, and only there; it then adds as
/// many nodes as the donor has. Below whatever node one could add before, one
/// can add after.
pub proof fn lemma_grafted_consistent<T: NodeContent<J>, J, A>(
    tree: TreeView<T, J, A>,
    donor: NodeView<T, J, A>,
    target: Seq<char>,
)
    requires
        tree.consistent(),
    ensures
        tree.grafted(donor, target).0.consistent(),
        tree.grafted(donor, target).1 is None <==> tree.can_add(target),
        !tree.can_add(target) ==> tree.grafted(donor, target).0 == tree,
        tree.can_add(target) ==> tree.grafted(donor, target).0.registry.len()
            == tree.registry.len() + donor.count(),
        forall|other: Seq<char>|
            tree.can_add(other) ==> #[trigger] tree.grafted(donor, target).0.can_add(other),
    decreases donor,
{
    if tree.can_add(target) {
        let name = tree.name_for(donor.value.name_spec());
        lemma_unique_name(tree.registry, normalized(donor.value.name_spec()));
        lemma_added_consistent(tree, target, name, donor.value, donor.attributes);
        let next = tree.added(target, name, donor.value, donor.attributes);
        lemma_grafted_all_consistent(next, donor.children, name);
        let last = next.grafted_all(donor.children, name).0;
        assert forall|other: Seq<char>| tree.can_add(other) implies #[trigger] last.can_add(
            other,
        ) by {
            assert(next.can_add(other));
        }
    }
}

/// Grafting several donors below one node of a consistent tree, a node below
/// which one can add, succeeds and keeps the tree consistent.
pub proof fn lemma_grafted_all_consistent<T: NodeContent<J>, J, A>(
    tree: TreeView<T, J, A>,
    donors: Seq<(Seq<char>, NodeView<T, J, A>)>,
    target: Seq<char>,
)
    requires
        tree.consistent(),
        tree.can_add(target),
    ensures
        tree.grafted_all(donors, target).0.consistent(),
        tree.grafted_all(donors, target).1 is None,
        tree.grafted_all(donors, target).0.registry.len() == tree.registry.len()
            + NodeView::count_all(donors),
        forall|other: Seq<char>|
            tree.can_add(other) ==> #[trigger] tree.grafted_all(donors, target).0.can_add(other),
    decreases donors,
{
    if donors.len() > 0 {
        lemma_grafted_consistent(tree, donors[0].1, target);
        let next = tree.grafted(donors[0].1, target).0;
        assert(next.can_add(target));
        lemma_grafted_all_consistent(next, donors.drop_first(), target);
        lemma_count_all_front(donors);
        let last = next.grafted_all(donors.drop_first(), target).0;
        assert forall|other: Seq<char>| tree.can_add(other) implies #[trigger] last.can_add(
            other,
        ) by {
            assert(next.can_add(other));
        }
    }
}

/// What adding a node does to a node that was registered before. It keeps its
/// entry in the registry, its name, value, attributes and jobs. It gets one
/// child more if it is the parent, and keeps the number of its children if it
/// is not. The new node is found under its name, without children.
pub proof fn lemma_added_frame<T, J, A>(
    tree: TreeView<T, J, A>,
    parent: Seq<char>,
    name: Seq<char>,
    value: T,
    attributes: A,
    other: Seq<char>,
)
    requires
        tree.consistent(),
        tree.can_add(parent),
        !has_key(tree.registry, name),
        has_key(tree.registry, other),
    ensures
        lookup(tree.added(parent, name, value, attributes).registry, other) == lookup(
            tree.registry,
            other,
        ),
        tree.node_named(other) is Some,
        tree.added(parent, name, value, attributes).node_named(other) is Some,
        tree.added(parent, name, value, attributes).node_named(other).unwrap().grown_by(
            tree.node_named(other).unwrap(),
            if other == parent {
                1
            } else {
                0
            },
        ),
        tree.added(parent, name, value, attributes).node_named(name) == Some(
            NodeView::<T, J, A>::leaf(name, value, attributes),
        ),
        lookup(tree.added(parent, name, value, attributes).registry, name) == Some(
            value_of(tree.registry, parent).push(name),
        ),
{
    let reg = tree.registry;
    let root = tree.root;
    let pp = value_of(reg, parent);
    let below = root.node_at(pp).unwrap();
    let leaf = NodeView::<T, J, A>::leaf(name, value, attributes);
    let below2 = below.with_child(name, leaf);
    let root2 = root.with_node_at(pp, below2);
    let q = value_of(reg, other);

    lemma_node_at_well_kept(root, pp);
    assert(leaf.well_kept());
    lemma_with_child(below, name, leaf);
    if has_key(below.children, name) {
        lemma_child(below, name);
        lemma_node_at_push(root, pp, name);
        assert(root.node_at(pp.push(name)) is Some);
        assert(false);
    }
    lemma_with_entry(below.children, name, leaf);
    lemma_with_entry(reg, name, pp.push(name));
    lemma_replaced_node_at(root, pp, below2, pp);
    assert(pp.skip(pp.len() as int) =~= Seq::<Seq<char>>::empty());
    lemma_node_at_push(root2, pp, name);

    lemma_replaced_node_at(root, pp, below2, q);
    assert(has_key(reg, parent));
    if starts_with(q, pp) {
        let rest = q.skip(pp.len() as int);
        assert(pp + rest =~= q);
        lemma_node_at_concat(root, pp, rest);
        if rest.len() == 0 {
            assert(q =~= pp);
        } else {
            assert(below.child(rest[0]) is Some);
            assert(below2.child(rest[0]) == below.child(rest[0]));
        }
    }
}

/// What a graft does to a node that was registered before. It keeps its entry
/// in the registry, its name, value, attributes and jobs. It gets one child
/// more if it is the target, and keeps the number of its children if it is
/// not.
pub proof fn lemma_grafted_frame<T: NodeContent<J>, J, A>(
    tree: TreeView<T, J, A>,
    donor: NodeView<T, J, A>,
    target: Seq<char>,
    other: Seq<char>,
)
    requires
        tree.consistent(),
        has_key(tree.registry, other),
    ensures
        lookup(tree.grafted(donor, target).0.registry, other) == lookup(tree.registry, other),
        tree.node_named(other) is Some,
        tree.grafted(donor, target).0.node_named(other) is Some,
        tree.grafted(donor, target).0.node_named(other).unwrap().grown_by(
            tree.node_named(other).unwrap(),
            if other == target && tree.can_add(target) {
                1
            } else {
                0
            },
        ),
    decreases donor,
{
    if tree.can_add(target) {
        let name = tree.name_for(donor.value.name_spec());
        lemma_unique_name(tree.registry, normalized(donor.value.name_spec()));
        lemma_added_consistent(tree, target, name, donor.value, donor.attributes);
        lemma_added_frame(tree, target, name, donor.value, donor.attributes, other);
        let next = tree.added(target, name, donor.value, donor.attributes);
        lemma_grafted_all_frame(next, donor.children, name, other);
    }
}

/// What grafting several donors below one node does to a node that was
/// registered before. It gets as many children more as there are donors if it
/// is the target, and keeps the number of its children if it is not.
pub proof fn lemma_grafted_all_frame<T: NodeContent<J>, J, A>(
    tree: TreeView<T, J, A>,
    donors: Seq<(Seq<char>, NodeView<T, J, A>)>,
    target: Seq<char>,
    other: Seq<char>,
)
    requires
        tree.consistent(),
        tree.can_add(target),
        has_key(tree.registry, other),
    ensures
        lookup(tree.grafted_all(donors, target).0.registry, other) == lookup(
            tree.registry,
            other,
        ),
        tree.node_named(other) is Some,
        tree.grafted_all(donors, target).0.node_named(other) is Some,
        tree.grafted_all(donors, target).0.node_named(other).unwrap().grown_by(
            tree.node_named(other).unwrap(),
            if other == target {
                donors.len()
            } else {
                0
            },
        ),
    decreases donors,
{
    if donors.len() > 0 {
        lemma_grafted_frame(tree, donors[0].1, target, other);
        lemma_grafted_consistent(tree, donors[0].1, target);
        let next = tree.grafted(donors[0].1, target).0;
        assert(next.can_add(target));
        lemma_grafted_all_frame(next, donors.drop_first(), target, other);
    }
}

/// The node that a graft makes of the donor. It is registered under the name
/// made for the donor, with the path of the target and that name after it. It
/// has the value and the attributes of the donor, no jobs, and as many
/// children as the donor has.
pub proof fn lemma_grafted_shape<T: NodeContent<J>, J, A>(
    tree: TreeView<T, J, A>,
    donor: NodeView<T, J, A>,
    target: Seq<char>,
)
    requires
        tree.consistent(),
        tree.can_add(target),
    ensures
        ({
            let name = tree.name_for(donor.value.name_spec());
            let after = tree.grafted(donor, target).0;
            &&& lookup(after.registry, name) == Some(value_of(tree.registry, target).push(name))
            &&& after.node_named(name) is Some
            &&& after.node_named(name).unwrap().name == name
            &&& after.node_named(name).unwrap().value == donor.value
            &&& after.node_named(name).unwrap().attributes == donor.attributes
            &&& after.node_named(name).unwrap().jobs.len() == 0
            &&& after.node_named(name).unwrap().children.len() == donor.children.len()
        }),
{
    let name = tree.name_for(donor.value.name_spec());
    lemma_unique_name(tree.registry, normalized(donor.value.name_spec()));
    lemma_added_consistent(tree, target, name, donor.value, donor.attributes);
    assert(has_key(tree.registry, target));
    lemma_added_frame(tree, target, name, donor.value, donor.attributes, target);
    let next = tree.added(target, name, donor.value, donor.attributes);
    lemma_grafted_all_frame(next, donor.children, name, name);
}

/// A copy of a subtree has as many nodes as the subtree.
pub proof fn lemma_copy_count<T: Clone, J: Clone, A: Clone>(
    source: NodeView<T, J, A>,
    copy: NodeView<T, J, A>,
)
    requires
        copy_of(source, copy),
    ensures
        copy.count() == source.count(),
    decreases source,
{
    lemma_copies_count(source.children, copy.children);
}

/// Copies of subtrees have as many nodes as the subtrees.
pub proof fn lemma_copies_count<T: Clone, J: Clone, A: Clone>(
    sources: Seq<(Seq<char>, NodeView<T, J, A>)>,
    copies: Seq<(Seq<char>, NodeView<T, J, A>)>,
)
    requires
        copies_of(sources, copies),
    ensures
        NodeView::count_all(copies) == NodeView::count_all(sources),
    decreases sources,
{
    if sources.len() > 0 {
        let n = sources.len() - 1;
        assert(copy_of(sources[n].1, copies[n].1));
        lemma_copy_count(sources.last().1, copies.last().1);
        assert forall|i: int| 0 <= i < sources.drop_last().len() implies (
        #[trigger] copies.drop_last()[i]).0 == sources.drop_last()[i].0 && copy_of(
            sources.drop_last()[i].1,
            copies.drop_last()[i].1,
        ) by {
            assert(copy_of(sources[i].1, copies[i].1));
        }
        lemma_copies_count(sources.drop_last(), copies.drop_last());
    }
}

/// A walk that found a node before a child was added under a new name still
/// finds a node, of the same name.
proof fn lemma_walk_kept<T, J, A>(
    root: NodeView<T, J, A>,
    pp: Seq<Seq<char>>,
    below2: NodeView<T, J, A>,
    name: Seq<char>,
    q: Seq<Seq<char>>,
)
    requires
        root.well_kept(),
        root.node_at(pp) is Some,
        below2.well_kept(),
        below2.name == root.node_at(pp).unwrap().name,
        root.node_at(pp).unwrap().child(name) is None,
        forall|other: Seq<char>|
            other != name ==> below2.child(other) == root.node_at(pp).unwrap().child(other),
        root.node_at(q) is Some,
    ensures
        root.with_node_at(pp, below2).node_at(q) is Some,
        root.with_node_at(pp, below2).node_at(q).unwrap().name == root.node_at(q).unwrap().name,
{
    let below = root.node_at(pp).unwrap();
    lemma_replaced_node_at(root, pp, below2, q);
    if starts_with(q, pp) {
        let rest = q.skip(pp.len() as int);
        assert(pp + rest =~= q);
        lemma_node_at_concat(root, pp, rest);
        if rest.len() > 0 {
            assert(below.child(rest[0]) is Some);
            assert(below2.child(rest[0]) == below.child(rest[0]));
        }
    }
}

} // verus!

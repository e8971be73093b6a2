use vstd::prelude::*;
use std::time::Instant;
use crate::clock::{elapsed, now, subsec_nanos};
use crate::consistency::{
    lemma_added_consistent, lemma_copy_count, lemma_grafted_consistent, lemma_lookup_again,
    lemma_new_consistent, lemma_updated_consistent,
};
use crate::entries::{has_key, lemma_insertion_point_unique, lookup, value_of, with_entry};
use crate::names::{
    dot_free, lemma_normalized_dot_free, lemma_numbered_dot_free, normalize, normalized, numbered,
};
use crate::node::{
    copies_of, copy_of, lemma_copy_of_itself, lemma_updated_drained, walk_order, Attribute,
    Children, Node, NodeContent, NodeView,
};
use crate::path::{custom_path_iter, NodePath};
use crate::registry::{first_free, lemma_unique_name, unique_name, Registry};

verus! {

/// Why a node could not be reached or added.
#[derive(Debug)]
pub enum NodeErrors {
    /// The parent named for a new node is not in the tree: its name is not in
    /// the registry, or the path registered for it leads to no node.
    NoSuchChild(String),
    /// A walk along a path came to a node that has no child of the next name.
    NoNodeFound(String),
}

impl NodeErrors {
    /// The text that the error carries.
    pub open spec fn message(&self) -> Seq<char> {
        match self {
            NodeErrors::NoSuchChild(s) => s@,
            NodeErrors::NoNodeFound(s) => s@,
        }
    }

    /// The text that the error carries.
    pub fn to_string(&self) -> (text: String)
        ensures
            text@ == self.message(),
    {
        match self {
            NodeErrors::NoSuchChild(s) => s.clone(),
            NodeErrors::NoNodeFound(s) => s.clone(),
        }
    }
}

/// A tree as a value: its name, its registry in the order of the names, and its
/// root.
pub struct TreeView<T, J, A> {
    pub name: Seq<char>,
    pub registry: Seq<(Seq<char>, Seq<Seq<char>>)>,
    pub root: NodeView<T, J, A>,
}

impl<T, J, A> TreeView<T, J, A> {
    /// The node that the registry leads to for `name`: the end of the path
    /// registered for it, if the name is registered and the path leads to a
    /// node.
    pub open spec fn node_named(self, name: Seq<char>) -> Option<NodeView<T, J, A>> {
        match lookup(self.registry, name) {
            Some(path) => self.root.node_at(path),
            None => None,
        }
    }

    /// Whether a node can be added below the node called `parent`: the name is
    /// registered, and the path registered for it leads to a node.
    pub open spec fn can_add(self, parent: Seq<char>) -> bool {
        self.node_named(parent) is Some
    }

    /// The name that a node gets whose content is called `content_name`: the
    /// normal form of that name, made unique in the registry.
    pub open spec fn name_for(self, content_name: Seq<char>) -> Seq<char> {
        unique_name(self.registry, normalized(content_name))
    }

    /// The tree with a new node called `name` below the node called `parent`.
    /// The new node has no children, and is registered with the path of its
    /// parent and its own name after it.
    pub open spec fn added(
        self,
        parent: Seq<char>,
        name: Seq<char>,
        value: T,
        attributes: A,
    ) -> Self {
        let path = value_of(self.registry, parent);
        let below = self.root.node_at(path).unwrap();
        TreeView {
            name: self.name,
            registry: with_entry(self.registry, name, path.push(name)),
            root: self.root.with_node_at(
                path,
                below.with_child(name, NodeView::leaf(name, value, attributes)),
            ),
        }
    }

    /// What the error says when no node can be added below `parent`.
    pub open spec fn add_error(self, parent: Seq<char>) -> Seq<char> {
        if has_key(self.registry, parent) {
            "Could not find such a child"@
        } else {
            "Could not find "@ + parent + "in tree!"@
        }
    }

    /// The tree with `node` in place of the node that the registry leads to for
    /// `name`.
    pub open spec fn with_node_named(self, name: Seq<char>, node: NodeView<T, J, A>) -> Self {
        match lookup(self.registry, name) {
            Some(path) => TreeView { root: self.root.with_node_at(path, node), ..self },
            None => self,
        }
    }
}

impl<T: NodeContent<J>, J, A> TreeView<T, J, A> {
    /// The tree after `donor` and all below it were added below the node called
    /// `target`, and the text of the error that ended the work, if one did.
    /// `donor` is added first, under a name made for it here; then its children
    /// are added below that name, each with all below it, in their order. The
    /// first node that cannot be added ends the work, and what was added before
    /// stays.
    pub open spec fn grafted(self, donor: NodeView<T, J, A>, target: Seq<char>) -> (
        Self,
        Option<Seq<char>>,
    )
        decreases donor,
    {
        if self.can_add(target) {
            let name = self.name_for(donor.value.name_spec());
            self.added(target, name, donor.value, donor.attributes).grafted_all(
                donor.children,
                name,
            )
        } else {
            (self, Some(self.add_error(target)))
        }
    }

    /// The tree after each of `donors` was grafted below the node called
    /// `target`, the first of them first.
    pub open spec fn grafted_all(
        self,
        donors: Seq<(Seq<char>, NodeView<T, J, A>)>,
        target: Seq<char>,
    ) -> (Self, Option<Seq<char>>)
        decreases donors,
    {
        if donors.len() == 0 {
            (self, None)
        } else {
            let (next, failure) = self.grafted(donors[0].1, target);
            if failure is None {
                next.grafted_all(donors.drop_first(), target)
            } else {
                (next, failure)
            }
        }
    }
}

/// What a result says of how a join ended: the text of its error, if it has
/// one.
pub open spec fn failure_of(outcome: Result<(), NodeErrors>) -> Option<Seq<char>> {
    match outcome {
        Ok(_) => None,
        Err(e) => Some(e.message()),
    }
}

/// The attributes of a new node: those given, or the default ones.
pub open spec fn attributes_or_default<J: Clone, A: Attribute<J>>(attributes: Option<A>) -> A {
    match attributes {
        Some(a) => a,
        None => A::default_spec(),
    }
}

/// A tree of nodes, with a registry that holds the path to every node under
/// the node's name.
pub struct Tree<T: NodeContent<J> + Clone, J: Clone, A: Attribute<J> + Clone> {
    /// The name of the tree, taken from the content of the root. It is the name
    /// under which the root is registered.
    pub name: String,
    /// The path to every node of the tree, under the node's name.
    pub registry: Registry,
    /// The root of the tree.
    pub root_node: Node<T, J, A>,
    /// When the tree was last updated. It is no part of the tree as a value.
    pub last_tick: Instant,
}

impl<T: NodeContent<J> + Clone, J: Clone, A: Attribute<J> + Clone> View for Tree<T, J, A> {
    type V = TreeView<T, J, A>;

    open spec fn view(&self) -> TreeView<T, J, A> {
        TreeView { name: self.name@, registry: self.registry@, root: self.root_node@ }
    }
}

impl<T: NodeContent<J> + Clone, J: Clone, A: Attribute<J> + Clone> Clone for Tree<T, J, A> {
    /// A tree with the same name and the same registry, and with a copy of
    /// every node.
    fn clone(&self) -> (copy: Self)
        ensures
            copy@.name == self@.name,
            copy@.registry == self@.registry,
            copy_of(self@.root, copy@.root),
    {
        Tree {
            name: self.name.clone(),
            registry: self.registry.clone(),
            root_node: self.root_node.clone(),
            last_tick: self.last_tick.clone(),
        }
    }
}

impl<T: NodeContent<J> + Clone, J: Clone, A: Attribute<J> + Clone> Tree<T, J, A> {
    /// Creates a tree whose root stores `root`. The tree is named after the
    /// root, and the root is registered under that name with the empty path.
    pub fn new(root: T, root_attributes: A) -> (tree: Self)
        ensures
            tree@ == (TreeView {
                name: root.name_spec(),
                registry: seq![(root.name_spec(), Seq::<Seq<char>>::empty())],
                root: NodeView::<T, J, A>::leaf(root.name_spec(), root, root_attributes),
            }),
            tree@.consistent(),
    {
        proof {
            lemma_new_consistent::<T, J, A>(root.name_spec(), root, root_attributes);
        }
        let tree_name = root.get_name();
        let root_node = Node::new(root, root_attributes);
        let mut registry = Registry::new();
        registry.insert(tree_name.clone(), NodePath::root());
        proof {
            let none = Seq::<(Seq<char>, Seq<Seq<char>>)>::empty();
            let e = (tree_name@, Seq::<Seq<char>>::empty());
            assert(!has_key(none, tree_name@));
            assert(none.insert(0, e) =~= seq![e]);
            lemma_insertion_point_unique(none, tree_name@, 0);
        }
        Tree { name: tree_name, registry: registry, root_node: root_node, last_tick: now() }
    }

    /// Same as `add`, with the root as the parent: the node whose name is the
    /// name of the tree.
    pub fn add_at_root(&mut self, new_child: T, attributes: Option<A>) -> (added: Result<
        String,
        NodeErrors,
    >)
        ensures
            match added {
                Ok(name) => old(self)@.can_add(old(self)@.name)
                    && name@ == old(self)@.name_for(new_child.name_spec())
                    && final(self)@ == old(self)@.added(
                    old(self)@.name,
                    name@,
                    new_child,
                    attributes_or_default(attributes),
                ),
                Err(e) => !old(self)@.can_add(old(self)@.name) && final(self)@ == old(self)@
                    && e is NoSuchChild && e.message() == old(self)@.add_error(old(self)@.name),
            },
            added is Ok ==> !has_key(old(self)@.registry, added->Ok_0@) && dot_free(added->Ok_0@),
            old(self)@.consistent() ==> final(self)@.consistent(),
    {
        let root_name = self.name.clone();
        self.add(new_child, root_name, attributes)
    }

    /// Adds a node that stores `new_child` below the node called `parent_name`,
    /// with `attributes` or, if none are given, with those that the attribute
    /// type makes by default. Returns the name under which the node was added:
    /// the name of its content with every `'.'` replaced by `'_'`, and with a
    /// number after it where that name was taken. Fails, and leaves the tree as
    /// it is, where `parent_name` is not registered or its path leads to no
    /// node.
    pub fn add(&mut self, new_child: T, parent_name: String, attributes: Option<A>) -> (added:
        Result<String, NodeErrors>)
        ensures
            match added {
                Ok(name) => old(self)@.can_add(parent_name@)
                    && name@ == old(self)@.name_for(new_child.name_spec())
                    && final(self)@ == old(self)@.added(
                    parent_name@,
                    name@,
                    new_child,
                    attributes_or_default(attributes),
                ),
                Err(e) => !old(self)@.can_add(parent_name@) && final(self)@ == old(self)@
                    && e is NoSuchChild && e.message() == old(self)@.add_error(parent_name@),
            },
            added is Ok ==> !has_key(old(self)@.registry, added->Ok_0@) && dot_free(added->Ok_0@),
            old(self)@.consistent() ==> final(self)@.consistent(),
    {
        let ghost before = self@;
        let parent_path = match self.registry.get(parent_name.as_str()) {
            Some(parent_path) => parent_path.clone(),
            None => {
                let mut text = String::from_str("Could not find ");
                text.append(parent_name.as_str());
                text.append("in tree!");
                return Err(NodeErrors::NoSuchChild(text));
            },
        };
        let content_name = new_child.get_name();
        let unique_name = self.registry.unique_name(normalize(content_name.as_str()));
        let ghost attributes_used = attributes_or_default(attributes);
        proof {
            let base = normalized(new_child.name_spec());
            lemma_normalized_dot_free(new_child.name_spec());
            lemma_unique_name(before.registry, base);
            if unique_name@ != base {
                let k = choose|k: nat|
                    first_free(before.registry, base, k) && unique_name@ == numbered(base, k);
                lemma_numbered_dot_free(base, k);
            }
            if before.consistent() && before.can_add(parent_name@) {
                lemma_added_consistent(
                    before,
                    parent_name@,
                    unique_name@,
                    new_child,
                    attributes_used,
                );
            }
        }

        let mut new_path = parent_path.clone();
        new_path.push(unique_name.clone());

        match self.get_from_path(&parent_path) {
            Ok(k) => {
                let atrib = match attributes {
                    Some(atr) => atr,
                    None => A::default(),
                };
                k.add_with_name(new_child, unique_name.clone(), atrib);
            },
            Err(_) => {
                return Err(
                    NodeErrors::NoSuchChild(String::from_str("Could not find such a child")),
                );
            },
        }
        self.registry.insert(unique_name.clone(), new_path);
        Ok(unique_name)
    }

    /// Same as `join`, with the root as the target: the node whose name is the
    /// name of this tree.
    pub fn join_at_root(&mut self, tree: &Self) -> (outcome: Result<(), NodeErrors>)
        ensures
            exists|copy: NodeView<T, J, A>|
                copy_of(tree@.root, copy) && (final(self)@, failure_of(outcome))
                    == old(self)@.grafted(
                    copy,
                    old(self)@.name,
                ),
            outcome is Err ==> outcome->Err_0 is NoSuchChild,
            old(self)@.consistent() ==> final(self)@.consistent(),
            old(self)@.consistent() ==> (outcome is Ok <==> old(self)@.can_add(old(self)@.name)),
            old(self)@.consistent() && outcome is Ok
                ==> final(self)@.registry.len() == old(self)@.registry.len()
                + tree@.root.count(),
    {
        let root_name = self.name.clone();
        self.join(tree, root_name.as_str())
    }

    /// Grafts a copy of `tree` onto this tree, below the node called `name`.
    /// The root of `tree` is added below that node as `add` does it, under a
    /// name made for it here, with clones of its value and attributes; then the
    /// children of the root are added below the new node in the same way, each
    /// with all below it, in the order of their names. `tree` stays as it is.
    /// The first node that cannot be added ends the join with its error, and
    /// the nodes added before it stay in this tree.
    pub fn join(&mut self, tree: &Self, name: &str) -> (outcome: Result<(), NodeErrors>)
        ensures
            exists|copy: NodeView<T, J, A>|
                copy_of(tree@.root, copy) && (final(self)@, failure_of(outcome))
                    == old(self)@.grafted(
                    copy,
                    name@,
                ),
            outcome is Err ==> outcome->Err_0 is NoSuchChild,
            old(self)@.consistent() ==> final(self)@.consistent(),
            old(self)@.consistent() ==> (outcome is Ok <==> old(self)@.can_add(name@)),
            old(self)@.consistent() && outcome is Ok
                ==> final(self)@.registry.len() == old(self)@.registry.len()
                + tree@.root.count(),
    {
        let ghost before = self@;
        let outcome = tree.root_node.join(self, String::from_str(name));
        proof {
            let copy = choose|copy: NodeView<T, J, A>|
                copy_of(tree.root_node@, copy) && (self@, failure_of(outcome)) == before.grafted(
                    copy,
                    name@,
                );
            assert(copy_of(tree@.root, copy) && (self@, failure_of(outcome)) == before.grafted(
                copy,
                name@,
            ));
        }
        outcome
    }

    /// Returns true if the registry holds the name `node_name`.
    pub fn has_node(&self, node_name: &str) -> (found: bool)
        ensures
            found == has_key(self@.registry, node_name@),
    {
        self.registry.contains_key(node_name)
    }

    /// Walks from the root along `path` and returns the node at its end.
    pub fn get_from_path(&mut self, path: &NodePath) -> (found: Result<
        &mut Node<T, J, A>,
        NodeErrors,
    >)
        ensures
            match found {
                Ok(node) => old(self)@.root.node_at(path@) == Some(node@)
                    && final(self)@ == (TreeView {
                    root: old(self)@.root.with_node_at(path@, final(node)@),
                    ..old(self)@
                }),
                Err(e) => old(self)@.root.node_at(path@) is None
                    && final(self)@ == old(self)@
                    && e is NoNodeFound
                    && e.message() == "could not find node in children"@,
            },
    {
        let mut reverse_path = custom_path_iter(path);
        assert(walk_order(reverse_path@) =~= path@);
        if reverse_path.len() == 0 {
            return Ok(&mut self.root_node);
        }
        self.root_node.get_node(&mut reverse_path)
    }

    /// Returns the node registered under `name`: none where the name is not
    /// registered, and none where the path registered for it leads to no node.
    pub fn get_node(&mut self, name: &str) -> (found: Option<&mut Node<T, J, A>>)
        ensures
            match found {
                Some(node) => old(self)@.node_named(name@) == Some(node@)
                    && final(self)@ == old(self)@.with_node_named(name@, final(node)@)
                    && (final(node)@ == node@ ==> final(self)@ == old(self)@),
                None => old(self)@.node_named(name@) is None && final(self)@ == old(self)@,
            },
    {
        proof {
            if self@.node_named(name@) is Some {
                lemma_lookup_again(self@, name@);
            }
        }
        let path = match self.registry.get(name) {
            Some(path) => path.clone(),
            None => {
                return None;
            },
        };
        match self.get_from_path(&path) {
            Ok(n) => Some(n),
            Err(_) => None,
        }
    }

    /// Updates the whole tree: every job that waits on a node is carried out on
    /// that node and on all nodes below it.
    pub fn update(&mut self)
        ensures
            final(self)@ == (TreeView {
                root: old(self)@.root.updated(Seq::<J>::empty()),
                ..old(self)@
            }),
            final(self)@.root.drained(),
            old(self)@.consistent() ==> final(self)@.consistent(),
    {
        proof {
            lemma_updated_drained(self@.root, Seq::<J>::empty());
            if self@.consistent() {
                lemma_updated_consistent(self@);
            }
        }
        let time = subsec_nanos(&elapsed(&self.last_tick));
        self.last_tick = now();
        let none: Vec<J> = Vec::new();
        self.root_node.update(time, &none);
    }
}

impl<T: NodeContent<J> + Clone, J: Clone, A: Attribute<J> + Clone> Node<T, J, A> {
    /// Grafts a copy of this node and of all below it onto `parent_tree`, below
    /// the node called `parent_node`. This node is added first, as
    /// `Tree::add` does it; then its children are added below the new node in
    /// the same way, in the order of their names. The first node that cannot
    /// be added ends the join with its error, and the nodes added before it
    /// stay in the tree.
    pub fn join(&self, parent_tree: &mut Tree<T, J, A>, parent_node: String) -> (outcome: Result<
        (),
        NodeErrors,
    >)
        ensures
            exists|copy: NodeView<T, J, A>|
                copy_of(self@, copy) && (final(parent_tree)@, failure_of(outcome))
                    == old(parent_tree)@.grafted(
                    copy,
                    parent_node@,
                ),
            outcome is Err ==> outcome->Err_0 is NoSuchChild,
            old(parent_tree)@.consistent() ==> final(parent_tree)@.consistent(),
            old(parent_tree)@.consistent()
                ==> (outcome is Ok <==> old(parent_tree)@.can_add(parent_node@)),
            old(parent_tree)@.consistent() && outcome is Ok
                ==> final(parent_tree)@.registry.len() == old(parent_tree)@.registry.len()
                + self@.count(),
        decreases self@, 1nat, 0nat,
    {
        let ghost before = parent_tree@;
        let value = self.get_value().clone();
        let attributes = self.get_attrib().clone();
        proof {
            lemma_copy_of_itself(self@);
        }
        let new_name = match parent_tree.add(value, parent_node, Some(attributes)) {
            Ok(new_n) => new_n,
            Err(er) => {
                proof {
                    let copy = NodeView { value: value, attributes: attributes, ..self@ };
                    assert(copy_of(self@, copy));
                    assert((parent_tree@, failure_of(Err::<(), NodeErrors>(er))) == before.grafted(
                        copy,
                        parent_node@,
                    ));
                    if before.consistent() {
                        lemma_grafted_consistent(before, copy, parent_node@);
                    }
                }
                return Err(er);
            },
        };
        let ghost mid = parent_tree@;
        let outcome = join_from(self.get_children(), 0, parent_tree, &new_name, Ghost(self@));
        proof {
            let kids = choose|kids: Seq<(Seq<char>, NodeView<T, J, A>)>|
                copies_of(self@.children.skip(0), kids) && (parent_tree@, failure_of(outcome))
                    == mid.grafted_all(kids, new_name@);
            assert(self@.children.skip(0) =~= self@.children);
            let copy = NodeView {
                value: value,
                attributes: attributes,
                children: kids,
                ..self@
            };
            assert(copy_of(self@, copy));
            assert((parent_tree@, failure_of(outcome)) == before.grafted(copy, parent_node@));
            if before.consistent() {
                lemma_grafted_consistent(before, copy, parent_node@);
                lemma_copy_count(self@, copy);
            }
        }
        outcome
    }
}

/// Grafts the children from place `start` on, each with all below it, onto
/// `parent_tree`, below the node called `target`.
fn join_from<T: NodeContent<J> + Clone, J: Clone, A: Attribute<J> + Clone>(
    children: &Children<T, J, A>,
    start: usize,
    parent_tree: &mut Tree<T, J, A>,
    target: &String,
    Ghost(owner): Ghost<NodeView<T, J, A>>,
) -> (outcome: Result<(), NodeErrors>)
    requires
        children@ == owner.children,
        start <= children@.len(),
    ensures
        exists|kids: Seq<(Seq<char>, NodeView<T, J, A>)>|
            copies_of(children@.skip(start as int), kids) && (
                final(parent_tree)@,
                failure_of(outcome),
            ) == old(parent_tree)@.grafted_all(kids, target@),
        outcome is Err ==> outcome->Err_0 is NoSuchChild,
    decreases owner, 0nat, children@.len() - start,
{
    let ghost before = parent_tree@;
    let ghost rest = children@.skip(start as int);
    if start >= children.len() {
        proof {
            let kids = Seq::<(Seq<char>, NodeView<T, J, A>)>::empty();
            assert(copies_of(rest, kids));
            assert((parent_tree@, failure_of(Ok::<(), NodeErrors>(()))) == before.grafted_all(
                kids,
                target@,
            ));
        }
        return Ok(());
    }
    let child = children.node_at(start);
    let first = child.join(parent_tree, target.clone());
    let ghost mid = parent_tree@;
    let ghost head = choose|copy: NodeView<T, J, A>|
        copy_of(child@, copy) && (mid, failure_of(first)) == before.grafted(copy, target@);
    match first {
        Ok(_) => {
            let outcome = join_from(children, start + 1, parent_tree, target, Ghost(owner));
            proof {
                let tail = choose|kids: Seq<(Seq<char>, NodeView<T, J, A>)>|
                    copies_of(children@.skip(start + 1), kids) && (
                        parent_tree@,
                        failure_of(outcome),
                    ) == mid.grafted_all(kids, target@);
                let kids = seq![(rest[0].0, head)] + tail;
                assert(kids.drop_first() =~= tail);
                assert forall|i: int| 0 <= i < rest.len() implies (#[trigger] kids[i]).0
                    == rest[i].0 && copy_of(rest[i].1, kids[i].1) by {
                    if i > 0 {
                        assert(kids[i] == tail[i - 1]);
                        assert(rest[i] == children@.skip(start + 1)[i - 1]);
                    }
                }
                assert(copies_of(rest, kids));
                assert((parent_tree@, failure_of(outcome)) == before.grafted_all(kids, target@));
            }
            outcome
        },
        Err(e) => {
            proof {
                let kids = rest.update(0, (rest[0].0, head));
                assert forall|i: int| 0 <= i < rest.len() implies (#[trigger] kids[i]).0
                    == rest[i].0 && copy_of(rest[i].1, kids[i].1) by {
                    if i > 0 {
                        lemma_copy_of_itself(rest[i].1);
                    }
                }
                assert(copies_of(rest, kids));
                assert((parent_tree@, failure_of(first)) == before.grafted_all(kids, target@));
            }
            Err(e)
        },
    }
}

} // verus!

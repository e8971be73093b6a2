use vstd::prelude::*;
use crate::entries::{
    ascending, has_key, lemma_paired_sorted, lemma_same_keys, lemma_with_entry_mapped, lookup,
    mapped, paired, search, sorted, store, with_entry,
};
use crate::names::name_lt;
use crate::path::names_of;
use crate::shape::lemma_with_node_at_same;
use crate::tree::NodeErrors;

verus! {

/// The state that a node carries and that jobs act on.
///
/// `default_spec` and `execute_spec` say what `default` and `execute` do. A type
/// that is implemented in code that is not verified gives them as ordinary
/// functions; `default` and `execute` can then call them.
pub trait Attribute<J: Clone>: Sized {
    /// What the attributes are compared with.
    type Comparer;

    /// The attributes of a node that was given none.
    spec fn default_spec() -> Self;

    /// What a job makes of the attributes, and the job that goes on to the
    /// children of the node.
    spec fn execute_spec(self, job: J) -> (Self, J);

    /// Makes the attributes of a node that was given none.
    fn default() -> (attributes: Self)
        ensures
            attributes == Self::default_spec(),
    ;

    /// Carries `job` out on the attributes, and returns the job that goes on to
    /// the children: the same one, or one made for them.
    fn execute(&mut self, job: &J) -> (forwarded: J)
        ensures
            (*final(self), forwarded) == old(self).execute_spec(*job),
    ;

    /// Writes the attributes out, indented for a node `lvl` levels below the root.
    fn print_atr(&self, lvl: i32);

    /// Whether the attributes match `attributes`.
    fn compare(&self, attributes: &Self::Comparer) -> bool;
}

/// What a node stores. `J` is the type of the jobs that wait on the node.
///
/// `name_spec` and `update_spec` say what `get_name` and `update` do. A type
/// that is implemented in code that is not verified gives them as ordinary
/// functions that are never called.
pub trait NodeContent<J>: Sized {
    /// The name that the content gives itself. The name of its node is made
    /// from it.
    spec fn name_spec(&self) -> Seq<char>;

    /// What one update makes of the content and of the jobs that wait on its
    /// node.
    spec fn update_spec(self, jobs: Seq<J>) -> (Self, Seq<J>);

    /// Returns the name of the content.
    fn get_name(&self) -> (name: String)
        ensures
            name@ == self.name_spec(),
    ;

    /// Called once in each update of the node, before its jobs are carried out.
    /// It may add to `jobs`, the jobs that wait on the node.
    fn update(&mut self, jobs: &mut Vec<J>)
        ensures
            (*final(self), final(jobs)@) == old(self).update_spec(old(jobs)@),
    ;
}

/// A node as a value: its name, what it stores, its attributes, the jobs that
/// wait on it, and its children in the order of the names under which they are
/// kept.
pub struct NodeView<T, J, A> {
    pub name: Seq<char>,
    pub value: T,
    pub attributes: A,
    pub jobs: Seq<J>,
    pub children: Seq<(Seq<char>, NodeView<T, J, A>)>,
}

impl<T, J, A> NodeView<T, J, A> {
    /// A node without children and without jobs.
    pub open spec fn leaf(name: Seq<char>, value: T, attributes: A) -> Self {
        NodeView { name, value, attributes, jobs: Seq::empty(), children: Seq::empty() }
    }

    /// The child kept under `key`, if there is one.
    pub open spec fn child(self, key: Seq<char>) -> Option<Self> {
        lookup(self.children, key)
    }

    /// The node with `node` kept under `key`, in place of what was kept there.
    pub open spec fn with_child(self, key: Seq<char>, node: Self) -> Self {
        NodeView { children: with_entry(self.children, key, node), ..self }
    }

    /// The node that `path` leads to from this one, taking the child named by
    /// each segment in turn, if every one of them exists.
    pub open spec fn node_at(self, path: Seq<Seq<char>>) -> Option<Self>
        decreases path.len(),
    {
        if path.len() == 0 {
            Some(self)
        } else {
            match self.child(path[0]) {
                Some(c) => c.node_at(path.drop_first()),
                None => None,
            }
        }
    }

    /// This node with `node` in place of the node that `path` leads to; this
    /// node as it is where the path leads nowhere.
    pub open spec fn with_node_at(self, path: Seq<Seq<char>>, node: Self) -> Self
        decreases path.len(),
    {
        if path.len() == 0 {
            node
        } else {
            match self.child(path[0]) {
                Some(c) => self.with_child(path[0], c.with_node_at(path.drop_first(), node)),
                None => self,
            }
        }
    }

    /// The number of segments that a walk along `path` takes up: all of them
    /// where the walk arrives, else those that led to a node and the one that
    /// did not.
    pub open spec fn steps_taken(self, path: Seq<Seq<char>>) -> nat
        decreases path.len(),
    {
        if path.len() == 0 {
            0
        } else {
            match self.child(path[0]) {
                Some(c) => 1 + c.steps_taken(path.drop_first()),
                None => 1,
            }
        }
    }

    /// The number of nodes in the subtree, this node counted.
    pub open spec fn count(self) -> nat
        decreases self,
    {
        1 + Self::count_all(self.children)
    }

    /// The number of nodes in the subtrees of `children`.
    pub open spec fn count_all(children: Seq<(Seq<char>, Self)>) -> nat
        decreases children,
    {
        if children.len() == 0 {
            0
        } else {
            Self::count_all(children.drop_last()) + children.last().1.count()
        }
    }
}

impl<T: NodeContent<J>, J: Clone, A: Attribute<J>> NodeView<T, J, A> {
    /// What carrying out `jobs` in turn makes of `attributes`, and the jobs that
    /// go on to the children, one for each job carried out, in the same order.
    pub open spec fn run_jobs(attributes: A, jobs: Seq<J>) -> (A, Seq<J>)
        decreases jobs.len(),
    {
        if jobs.len() == 0 {
            (attributes, Seq::empty())
        } else {
            let (before, sent) = Self::run_jobs(attributes, jobs.drop_last());
            let (after, forwarded) = before.execute_spec(jobs.last());
            (after, sent.push(forwarded))
        }
    }

    /// The jobs that an update carries out on this node when `inherited` come
    /// down from its parent: the inherited ones, then those that wait on the
    /// node once its content has had its update.
    pub open spec fn effective_jobs(self, inherited: Seq<J>) -> Seq<J> {
        inherited + self.value.update_spec(self.jobs).1
    }

    /// The jobs that an update hands on to the children of this node.
    pub open spec fn forwarded_jobs(self, inherited: Seq<J>) -> Seq<J> {
        Self::run_jobs(self.attributes, self.effective_jobs(inherited)).1
    }

    /// The subtree after one update in which `inherited` come down from the
    /// parent. The content has its update, the effective jobs are carried out
    /// on the attributes, no job is left waiting, and every child is updated
    /// with the jobs that this node hands on.
    pub open spec fn updated(self, inherited: Seq<J>) -> Self
        decreases self,
    {
        NodeView {
            name: self.name,
            value: self.value.update_spec(self.jobs).0,
            attributes: Self::run_jobs(self.attributes, self.effective_jobs(inherited)).0,
            jobs: Seq::empty(),
            children: Seq::new(
                self.children.len(),
                |i: int|
                    if 0 <= i < self.children.len() {
                        (
                            self.children[i].0,
                            self.children[i].1.updated(self.forwarded_jobs(inherited)),
                        )
                    } else {
                        arbitrary()
                    },
            ),
        }
    }

    /// No job waits on any node of the subtree.
    pub open spec fn drained(self) -> bool
        decreases self,
    {
        &&& self.jobs.len() == 0
        &&& forall|i: int| 0 <= i < self.children.len()
            ==> (#[trigger] self.children[i]).1.drained()
    }
}

/// `copy` is `source` with a clone of each value, of each set of attributes
/// and of each job in place of the thing itself. The names and the shape of
/// the subtree are the same.
pub open spec fn copy_of<T: Clone, J: Clone, A: Clone>(
    source: NodeView<T, J, A>,
    copy: NodeView<T, J, A>,
) -> bool
    decreases source,
{
    &&& copy.name == source.name
    &&& copy.jobs.len() == source.jobs.len()
    &&& forall|i: int| 0 <= i < source.jobs.len()
        ==> cloned(source.jobs[i], #[trigger] copy.jobs[i])
    &&& cloned(source.value, copy.value)
    &&& cloned(source.attributes, copy.attributes)
    &&& copies_of(source.children, copy.children)
}

/// Each of `copies` is a copy of the one of `sources` at the same place, kept
/// under the same name.
pub open spec fn copies_of<T: Clone, J: Clone, A: Clone>(
    sources: Seq<(Seq<char>, NodeView<T, J, A>)>,
    copies: Seq<(Seq<char>, NodeView<T, J, A>)>,
) -> bool
    decreases sources,
{
    &&& copies.len() == sources.len()
    &&& forall|i: int|
        0 <= i < sources.len() ==> (#[trigger] copies[i]).0 == sources[i].0 && copy_of(
            sources[i].1,
            copies[i].1,
        )
}

/// Every subtree is a copy of itself.
pub proof fn lemma_copy_of_itself<T: Clone, J: Clone, A: Clone>(node: NodeView<T, J, A>)
    ensures
        copy_of(node, node),
        copies_of(node.children, node.children),
    decreases node,
{
    assert forall|i: int| 0 <= i < node.children.len() implies copy_of(
        node.children[i].1,
        (#[trigger] node.children[i]).1,
    ) by {
        lemma_copy_of_itself(node.children[i].1);
    }
}

/// Where a clone of a value, of attributes or of a job always equals what it
/// was cloned from, a copy of a subtree is that subtree.
pub proof fn lemma_exact_copy<T: Clone, J: Clone, A: Clone>(
    source: NodeView<T, J, A>,
    copy: NodeView<T, J, A>,
)
    requires
        forall|a: T, b: T| cloned(a, b) ==> a == b,
        forall|a: J, b: J| cloned(a, b) ==> a == b,
        forall|a: A, b: A| cloned(a, b) ==> a == b,
        copy_of(source, copy),
    ensures
        copy == source,
    decreases source,
{
    assert(copy.jobs =~= source.jobs);
    assert forall|i: int| 0 <= i < source.children.len() implies copy.children[i]
        == source.children[i] by {
        assert(copy_of(source.children[i].1, copy.children[i].1));
        lemma_exact_copy(source.children[i].1, copy.children[i].1);
    }
    assert(copy.children =~= source.children);
}

/// The children of a node, each kept under a name, in the order of the names.
pub struct Children<T: NodeContent<J> + Clone, J: Clone, A: Attribute<J> + Clone> {
    names: Vec<String>,
    nodes: Vec<Node<T, J, A>>,
}

/// A node of a tree. It has a name, stores one value, and has attributes, jobs
/// that wait for the next update, and children.
pub struct Node<T: NodeContent<J> + Clone, J: Clone, A: Attribute<J> + Clone> {
    name: String,
    value: T,
    children: Children<T, J, A>,
    jobs: Vec<J>,
    attributes: A,
}

impl<T: NodeContent<J> + Clone, J: Clone, A: Attribute<J> + Clone> View for Children<T, J, A> {
    type V = Seq<(Seq<char>, NodeView<T, J, A>)>;

    closed spec fn view(&self) -> Seq<(Seq<char>, NodeView<T, J, A>)> {
        mapped(paired(self.names@, self.nodes@), |n: Node<T, J, A>| n.model())
    }
}

impl<T: NodeContent<J> + Clone, J: Clone, A: Attribute<J> + Clone> View for Node<T, J, A> {
    type V = NodeView<T, J, A>;

    closed spec fn view(&self) -> NodeView<T, J, A> {
        self.model()
    }
}

impl<T: NodeContent<J> + Clone, J: Clone, A: Attribute<J> + Clone> Clone for Children<T, J, A> {
    /// Copies of all the children, under the same names.
    fn clone(&self) -> (copy: Self)
        ensures
            copies_of(self@, copy@),
        decreases self@,
    {
        proof {
            use_type_invariant(self);
        }
        let mut names: Vec<String> = Vec::new();
        let mut nodes: Vec<Node<T, J, A>> = Vec::new();
        let n = self.nodes.len();
        let mut i: usize = 0;
        while i < n
            invariant
                i <= n,
                n == self.nodes@.len(),
                n == self.names@.len(),
                names@.len() == i,
                nodes@.len() == i,
                forall|j: int| 0 <= j < i ==> (#[trigger] names@[j])@ == self.names@[j]@,
                forall|j: int| 0 <= j < i ==> copy_of(self.nodes@[j]@, (#[trigger] nodes@[j])@),
            decreases n - i,
        {
            names.push(self.names[i].clone());
            let node = &self.nodes[i];
            assert(node@ == self@[i as int].1);
            nodes.push(node.clone());
            i = i + 1;
        }
        proof {
            assert forall|a: int, b: int| 0 <= a < b < names@.len() implies name_lt(
                (#[trigger] names@[a])@,
                (#[trigger] names@[b])@,
            ) by {
                assert(name_lt(self.names@[a]@, self.names@[b]@));
            }
        }
        let copy = Children { names, nodes };
        proof {
            assert forall|j: int| 0 <= j < self@.len() implies (#[trigger] copy@[j]).0
                == self@[j].0 && copy_of(self@[j].1, copy@[j].1) by {
                assert(copy_of(self.nodes@[j]@, nodes@[j]@));
            }
        }
        copy
    }
}

impl<T: NodeContent<J> + Clone, J: Clone, A: Attribute<J> + Clone> Clone for Node<T, J, A> {
    /// A copy of the node and of all below it.
    fn clone(&self) -> (copy: Self)
        ensures
            copy_of(self@, copy@),
        decreases self@,
    {
        broadcast use lemma_node_model;

        Node {
            name: self.name.clone(),
            value: self.value.clone(),
            children: self.children.clone(),
            jobs: self.jobs.clone(),
            attributes: self.attributes.clone(),
        }
    }
}

impl<T: NodeContent<J> + Clone, J: Clone, A: Attribute<J> + Clone> Children<T, J, A> {
    #[verifier::type_invariant]
    closed spec fn inv(&self) -> bool {
        &&& self.names@.len() == self.nodes@.len()
        &&& ascending(self.names@)
    }

    /// No children.
    pub fn new() -> (children: Self)
        ensures
            children@ == Seq::<(Seq<char>, NodeView<T, J, A>)>::empty(),
    {
        let children = Children { names: Vec::new(), nodes: Vec::new() };
        assert(children@ =~= Seq::<(Seq<char>, NodeView<T, J, A>)>::empty());
        children
    }

    /// The number of children. They stand in the order of their names.
    pub fn len(&self) -> (n: usize)
        ensures
            n == self@.len(),
            sorted(self@),
    {
        proof {
            use_type_invariant(self);
            lemma_paired_sorted(self.names@, self.nodes@);
            lemma_same_keys(paired(self.names@, self.nodes@), self@, Seq::empty());
        }
        self.nodes.len()
    }

    /// Whether a child is kept under `key`.
    pub fn contains_key(&self, key: &str) -> (found: bool)
        ensures
            found == has_key(self@, key@),
    {
        proof {
            use_type_invariant(self);
            lemma_paired_sorted(self.names@, self.nodes@);
            lemma_same_keys(paired(self.names@, self.nodes@), self@, key@);
        }
        search(&self.names, &self.nodes, key).is_ok()
    }

    /// The child kept under `key`.
    pub fn get(&self, key: &str) -> (found: Option<&Node<T, J, A>>)
        ensures
            match found {
                Some(node) => lookup(self@, key@) == Some(node@),
                None => lookup(self@, key@) is None,
            },
    {
        proof {
            use_type_invariant(self);
            lemma_paired_sorted(self.names@, self.nodes@);
            lemma_same_keys(paired(self.names@, self.nodes@), self@, key@);
        }
        match search(&self.names, &self.nodes, key) {
            Ok(i) => Some(&self.nodes[i]),
            Err(_) => None,
        }
    }

    /// The name under which the child at place `i` is kept.
    pub fn name_at(&self, i: usize) -> (name: &String)
        requires
            i < self@.len(),
        ensures
            name@ == self@[i as int].0,
    {
        proof {
            use_type_invariant(self);
        }
        &self.names[i]
    }

    /// The child at place `i`.
    pub fn node_at(&self, i: usize) -> (node: &Node<T, J, A>)
        requires
            i < self@.len(),
        ensures
            node@ == self@[i as int].1,
    {
        &self.nodes[i]
    }

    /// The child at place `i`, to be changed.
    pub fn node_at_mut(&mut self, i: usize) -> (node: &mut Node<T, J, A>)
        requires
            i < old(self)@.len(),
        ensures
            node@ == old(self)@[i as int].1,
            final(self)@ == old(self)@.update(i as int, (old(self)@[i as int].0, final(node)@)),
    {
        proof {
            use_type_invariant(&*self);
            lemma_children_change(*self, i as int);
        }
        &mut self.nodes[i]
    }

    /// The child kept under `key`, to be changed.
    pub fn get_mut(&mut self, key: &str) -> (found: Option<&mut Node<T, J, A>>)
        ensures
            match found {
                Some(node) => lookup(old(self)@, key@) == Some(node@)
                    && final(self)@ == with_entry(old(self)@, key@, final(node)@)
                    && (final(node)@ == node@ ==> final(self)@ == old(self)@),
                None => lookup(old(self)@, key@) is None && final(self)@ == old(self)@,
            },
    {
        proof {
            use_type_invariant(&*self);
            lemma_paired_sorted(self.names@, self.nodes@);
            lemma_same_keys(paired(self.names@, self.nodes@), self@, key@);
        }
        match search(&self.names, &self.nodes, key) {
            Ok(i) => {
                proof {
                    lemma_children_change(*self, i as int);
                    assert(self@[i as int].0 == key@);
                    assert(self@.update(i as int, self@[i as int]) =~= self@);
                }
                Some(&mut self.nodes[i])
            },
            Err(_) => None,
        }
    }

    /// Keeps `node` under `key`, and hands back the child that was kept there
    /// before.
    pub fn insert(&mut self, key: String, node: Node<T, J, A>) -> (before: Option<Node<T, J, A>>)
        ensures
            final(self)@ == with_entry(old(self)@, key@, node@),
            match before {
                Some(b) => lookup(old(self)@, key@) == Some(b@),
                None => lookup(old(self)@, key@) is None,
            },
    {
        proof {
            use_type_invariant(&*self);
            lemma_paired_sorted(self.names@, self.nodes@);
            lemma_with_entry_mapped(
                paired(self.names@, self.nodes@),
                |n: Node<T, J, A>| n.model(),
                key@,
                node,
            );
        }
        let mut taken = Children { names: Vec::new(), nodes: Vec::new() };
        std::mem::swap(self, &mut taken);
        let Children { mut names, mut nodes } = taken;
        let before = store(&mut names, &mut nodes, key, node);
        *self = Children { names, nodes };
        before
    }
}

impl<T: NodeContent<J> + Clone, J: Clone, A: Attribute<J> + Clone> Node<T, J, A> {
    /// The node as a value.
    pub closed spec fn model(self) -> NodeView<T, J, A>
        decreases self,
    {
        NodeView {
            name: self.name@,
            value: self.value,
            attributes: self.attributes,
            jobs: self.jobs@,
            children: Seq::new(
                self.children.nodes@.len(),
                |i: int|
                    if 0 <= i < self.children.nodes@.len() {
                        (self.children.names@[i]@, self.children.nodes@[i].model())
                    } else {
                        arbitrary()
                    },
            ),
        }
    }

    /// Creates a node that stores `value`. Its name is the name of the value.
    pub fn new(value: T, attribute: A) -> (node: Self)
        ensures
            node@ == NodeView::<T, J, A>::leaf(value.name_spec(), value, attribute),
    {
        let node = Node {
            name: value.get_name(),
            value: value,
            children: Children::new(),
            jobs: Vec::new(),
            attributes: attribute,
        };
        proof {
            node.lemma_model();
        }
        node
    }

    proof fn lemma_model(self)
        ensures
            self@.name == self.name@,
            self@.value == self.value,
            self@.attributes == self.attributes,
            self@.jobs == self.jobs@,
            self@.children == self.children@,
    {
        assert(self.model().children =~= self.children@);
    }

    /// Adds a child that stores `new`, under the name `name`. A child that was
    /// kept under that name is dropped, with all below it.
    pub fn add_with_name(&mut self, new: T, name: String, attribute: A)
        ensures
            final(self)@ == old(self)@.with_child(
                name@,
                NodeView::<T, J, A>::leaf(name@, new, attribute),
            ),
    {
        broadcast use lemma_node_model;

        let new_child_node = Node {
            name: name.clone(),
            value: new,
            children: Children::new(),
            jobs: Vec::new(),
            attributes: attribute,
        };
        self.children.insert(name, new_child_node);
    }

    /// A node with clones of the name, the value and the attributes of this
    /// one, without its children and without its jobs.
    pub fn copy(&self) -> (copy: Self)
        ensures
            copy@.name == self@.name,
            cloned(self@.value, copy@.value),
            cloned(self@.attributes, copy@.attributes),
            copy@.jobs == Seq::<J>::empty(),
            copy@.children == Seq::<(Seq<char>, NodeView<T, J, A>)>::empty(),
    {
        broadcast use lemma_node_model;

        Node {
            name: self.name.clone(),
            value: self.value.clone(),
            children: Children::new(),
            jobs: Vec::new(),
            attributes: self.attributes.clone(),
        }
    }

    /// Walks down from this node, taking each step off the end of `path`, and
    /// returns the node at which `path` is used up. The walk fails at the first
    /// step that names no child.
    pub fn get_node(&mut self, path: &mut Vec<String>) -> (found: Result<&mut Self, NodeErrors>)
        ensures
            final(path)@ == old(path)@.take(
                old(path)@.len() - old(self)@.steps_taken(walk_order(old(path)@)),
            ),
            match found {
                Ok(node) => old(self)@.node_at(walk_order(old(path)@)) == Some(node@)
                    && final(self)@ == old(self)@.with_node_at(
                    walk_order(old(path)@),
                    final(node)@,
                ) && (final(node)@ == node@ ==> final(self)@ == old(self)@),
                Err(e) => old(self)@.node_at(walk_order(old(path)@)) is None
                    && final(self)@ == old(self)@
                    && e is NoNodeFound
                    && e.message() == "could not find node in children"@,
            },
        decreases old(path)@.len(),
    {
        broadcast use lemma_node_model;

        let ghost stack = path@;
        let ghost walk = walk_order(path@);
        proof {
            if self@.node_at(walk) is Some {
                lemma_with_node_at_same(self@, walk);
            }
        }
        let child_name = match path.pop() {
            None => {
                assert(path@.take(path@.len() as int) =~= path@);
                return Ok(self);
            },
            Some(node_with_this_name) => node_with_this_name,
        };
        proof {
            assert(walk[0] == child_name@);
            assert(walk.drop_first() =~= walk_order(path@));
            assert(path@ =~= stack.take(stack.len() - 1));
            lemma_steps_taken_bound(self@, walk);
            match self@.child(walk[0]) {
                Some(c) => {
                    lemma_steps_taken_bound(c, walk.drop_first());
                    let k = c.steps_taken(walk.drop_first());
                    assert(path@.take(path@.len() - k) =~= stack.take(stack.len() - (1 + k)));
                },
                None => {},
            }
        }
        match self.children.get_mut(child_name.as_str()) {
            Some(child) => child.get_node(path),
            None => Err(
                NodeErrors::NoNodeFound(String::from_str("could not find node in children")),
            ),
        }
    }

    /// Updates the subtree. The content of this node has its update first. Then
    /// `parent_jobs` and after them the jobs that wait on this node are carried
    /// out on its attributes, and what the attributes hand on is passed to every
    /// child in the same way. `delta_nanos` is the time since the last update,
    /// in nanoseconds.
    pub fn update(&mut self, delta_nanos: u32, parent_jobs: &Vec<J>)
        ensures
            final(self)@ == old(self)@.updated(parent_jobs@),
            final(self)@.drained(),
        decreases old(self)@,
    {
        broadcast use lemma_node_model;

        proof {
            lemma_updated_drained(self@, parent_jobs@);
        }
        let ghost before = self@;
        self.value.update(&mut self.jobs);
        let ghost effective = before.effective_jobs(parent_jobs@);
        let ghost mid = *self;

        let mut job_vec: Vec<J> = Vec::new();
        let mut i: usize = 0;
        while i < parent_jobs.len()
            invariant
                i <= parent_jobs@.len(),
                (self.attributes, job_vec@) == NodeView::<T, J, A>::run_jobs(
                    mid.attributes,
                    parent_jobs@.take(i as int),
                ),
                self.name == mid.name,
                self.value == mid.value,
                self.jobs == mid.jobs,
                self.children == mid.children,
            decreases parent_jobs@.len() - i,
        {
            assert(parent_jobs@.take(i + 1).drop_last() =~= parent_jobs@.take(i as int));
            let forwarded = self.attributes.execute(&parent_jobs[i]);
            job_vec.push(forwarded);
            i = i + 1;
        }
        assert(parent_jobs@.take(i as int) =~= parent_jobs@);
        assert(effective.take(parent_jobs@.len() as int) =~= parent_jobs@);
        let mut k: usize = 0;
        while k < self.jobs.len()
            invariant
                k <= self.jobs@.len(),
                effective == parent_jobs@ + self.jobs@,
                (self.attributes, job_vec@) == NodeView::<T, J, A>::run_jobs(
                    mid.attributes,
                    effective.take(parent_jobs@.len() + k),
                ),
                self.name == mid.name,
                self.value == mid.value,
                self.jobs == mid.jobs,
                self.children == mid.children,
            decreases self.jobs@.len() - k,
        {
            assert(effective.take(parent_jobs@.len() + k + 1).drop_last() =~= effective.take(
                parent_jobs@.len() + k,
            ));
            let forwarded = self.attributes.execute(&self.jobs[k]);
            job_vec.push(forwarded);
            k = k + 1;
        }
        assert(effective.take(parent_jobs@.len() + k) =~= effective);
        self.jobs.clear();
        let ghost ready = *self;

        let n = self.children.len();
        let mut c: usize = 0;
        while c < n
            invariant
                c <= n,
                n == before.children.len(),
                before == old(self)@,
                self.name == ready.name,
                self.value == ready.value,
                self.attributes == ready.attributes,
                self.jobs == ready.jobs,
                self.children@.len() == n,
                forall|j: int|
                    0 <= j < c ==> #[trigger] self.children@[j] == (
                        before.children[j].0,
                        before.children[j].1.updated(job_vec@),
                    ),
                forall|j: int| c <= j < n ==> #[trigger] self.children@[j] == before.children[j],
            decreases n - c,
        {
            let child = self.children.node_at_mut(c);
            assert(child@ == before.children[c as int].1);
            child.update(delta_nanos, &job_vec);
            c = c + 1;
        }
        assert(self@.children =~= before.updated(parent_jobs@).children);
    }

    /// Adds a job to those that wait for the next update.
    pub fn add_job(&mut self, job: J)
        ensures
            final(self)@ == (NodeView { jobs: old(self)@.jobs.push(job), ..old(self)@ }),
    {
        broadcast use lemma_node_model;

        self.jobs.push(job);
    }

    /// Carries `job` out on the attributes of this node at once. The job does
    /// not wait, and does not go on to the children.
    pub fn job_exec(&mut self, job: J)
        ensures
            final(self)@ == (NodeView {
                attributes: old(self)@.attributes.execute_spec(job).0,
                ..old(self)@
            }),
    {
        broadcast use lemma_node_model;

        self.attributes.execute(&job);
    }

    /// Returns a copy of the name.
    pub fn get_name(&self) -> (name: String)
        ensures
            name@ == self@.name,
    {
        broadcast use lemma_node_model;

        self.name.clone()
    }

    /// Returns the value of this node.
    pub fn get_value(&self) -> (value: &T)
        ensures
            *value == self@.value,
    {
        broadcast use lemma_node_model;

        &self.value
    }

    /// Returns the value of this node, to be changed.
    pub fn get_value_mut(&mut self) -> (value: &mut T)
        ensures
            *value == old(self)@.value,
            final(self)@ == (NodeView { value: *final(value), ..old(self)@ }),
    {
        broadcast use lemma_node_model;

        &mut self.value
    }

    /// Returns the jobs that wait for the next update.
    pub fn get_jobs(&self) -> (jobs: &Vec<J>)
        ensures
            jobs@ == self@.jobs,
    {
        broadcast use lemma_node_model;

        &self.jobs
    }

    /// Returns the attributes.
    pub fn get_attrib(&self) -> (attributes: &A)
        ensures
            *attributes == self@.attributes,
    {
        broadcast use lemma_node_model;

        &self.attributes
    }

    /// Returns the attributes, to be changed. A change made here, and not by a
    /// job, does not reach the children.
    pub fn get_attrib_mut(&mut self) -> (attributes: &mut A)
        ensures
            *attributes == old(self)@.attributes,
            final(self)@ == (NodeView { attributes: *final(attributes), ..old(self)@ }),
    {
        broadcast use lemma_node_model;

        &mut self.attributes
    }

    /// Returns the children.
    pub fn get_children(&self) -> (children: &Children<T, J, A>)
        ensures
            children@ == self@.children,
    {
        broadcast use lemma_node_model;

        &self.children
    }

    /// Returns the children, to be changed. A tree does not learn of a child
    /// that is added here.
    pub fn get_children_mut(&mut self) -> (children: &mut Children<T, J, A>)
        ensures
            children@ == old(self)@.children,
            final(self)@ == (NodeView { children: final(children)@, ..old(self)@ }),
    {
        broadcast use lemma_node_model;

        &mut self.children
    }
}

/// Carrying out two runs of jobs one after the other is carrying out the jobs
/// of the first run and then, on what they left, those of the second. So the
/// jobs that come down from the parent act on a node before its own, and its
/// children get them in that order.
pub proof fn lemma_run_jobs_split<T: NodeContent<J>, J: Clone, A: Attribute<J>>(
    attributes: A,
    first: Seq<J>,
    second: Seq<J>,
)
    ensures
        NodeView::<T, J, A>::run_jobs(attributes, first + second).0 == NodeView::<
            T,
            J,
            A,
        >::run_jobs(NodeView::<T, J, A>::run_jobs(attributes, first).0, second).0,
        NodeView::<T, J, A>::run_jobs(attributes, first + second).1 == NodeView::<
            T,
            J,
            A,
        >::run_jobs(attributes, first).1 + NodeView::<T, J, A>::run_jobs(
            NodeView::<T, J, A>::run_jobs(attributes, first).0,
            second,
        ).1,
        NodeView::<T, J, A>::run_jobs(attributes, first).1.len() == first.len(),
    decreases second.len(),
{
    let mid = NodeView::<T, J, A>::run_jobs(attributes, first);
    lemma_run_jobs_len::<T, J, A>(attributes, first);
    if second.len() == 0 {
        assert(first + second =~= first);
        assert(mid.1 + Seq::<J>::empty() =~= mid.1);
    } else {
        assert((first + second).drop_last() =~= first + second.drop_last());
        lemma_run_jobs_split::<T, J, A>(attributes, first, second.drop_last());
        let a = NodeView::<T, J, A>::run_jobs(attributes, first + second.drop_last());
        let b = NodeView::<T, J, A>::run_jobs(mid.0, second.drop_last());
        let out = a.0.execute_spec(second.last()).1;
        assert(a.1.push(out) =~= mid.1 + b.1.push(out));
    }
}

/// For every job carried out one job goes on to the children.
pub proof fn lemma_run_jobs_len<T: NodeContent<J>, J: Clone, A: Attribute<J>>(
    attributes: A,
    jobs: Seq<J>,
)
    ensures
        NodeView::<T, J, A>::run_jobs(attributes, jobs).1.len() == jobs.len(),
    decreases jobs.len(),
{
    if jobs.len() > 0 {
        lemma_run_jobs_len::<T, J, A>(attributes, jobs.drop_last());
    }
}

/// An update leaves no job waiting on any node of the subtree.
pub proof fn lemma_updated_drained<T: NodeContent<J>, J: Clone, A: Attribute<J>>(
    node: NodeView<T, J, A>,
    inherited: Seq<J>,
)
    ensures
        node.updated(inherited).drained(),
    decreases node,
{
    let after = node.updated(inherited);
    assert forall|i: int| 0 <= i < after.children.len()
        implies (#[trigger] after.children[i]).1.drained() by {
        lemma_updated_drained(node.children[i].1, node.forwarded_jobs(inherited));
    }
}

/// The order in which a walk takes the steps of `stack`: from its end.
pub open spec fn walk_order(stack: Seq<String>) -> Seq<Seq<char>> {
    names_of(stack).reverse()
}

/// A walk takes up no more segments than the path has.
pub proof fn lemma_steps_taken_bound<T, J, A>(node: NodeView<T, J, A>, path: Seq<Seq<char>>)
    ensures
        node.steps_taken(path) <= path.len(),
        node.node_at(path) is Some ==> node.steps_taken(path) == path.len(),
    decreases path.len(),
{
    if path.len() > 0 {
        match node.child(path[0]) {
            Some(c) => {
                lemma_steps_taken_bound(c, path.drop_first());
            },
            None => {},
        }
    }
}

/// A node as a value is made of its name, value, attributes and jobs as values,
/// and of its children as values.
broadcast proof fn lemma_node_model<T: NodeContent<J> + Clone, J: Clone, A: Attribute<J> + Clone>(
    n: Node<T, J, A>,
)
    ensures
        #[trigger] n.model() == (NodeView {
            name: n.name@,
            value: n.value,
            attributes: n.attributes,
            jobs: n.jobs@,
            children: n.children@,
        }),
{
    n.lemma_model();
}

/// Changing the child at place `i` changes the entry at place `i`, and no other.
proof fn lemma_children_change<T: NodeContent<J> + Clone, J: Clone, A: Attribute<J> + Clone>(
    a: Children<T, J, A>,
    i: int,
)
    requires
        a.names@.len() == a.nodes@.len(),
        0 <= i < a.nodes@.len(),
    ensures
        a@.len() == a.nodes@.len(),
        a@[i] == (a.names@[i]@, a.nodes@[i]@),
        forall|b: Children<T, J, A>, k: Node<T, J, A>|
            b.names == a.names && b.nodes@ == #[trigger] a.nodes@.update(i, k) ==> #[trigger] b@
                == a@.update(i, (a@[i].0, k@)),
{
    assert forall|b: Children<T, J, A>, k: Node<T, J, A>|
        b.names == a.names && b.nodes@ == #[trigger] a.nodes@.update(i, k) implies #[trigger] b@
        == a@.update(i, (a@[i].0, k@)) by {
        assert(b@ =~= a@.update(i, (a@[i].0, k@)));
    }
}

} // verus!

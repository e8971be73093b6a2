use vstd::prelude::*;

verus! {

/// The names that a sequence of strings holds.
pub open spec fn names_of(strings: Seq<String>) -> Seq<Seq<char>> {
    strings.map_values(|s: String| s@)
}

/// The way from the root of a tree to one of its nodes: the names of the nodes
/// passed on the way, the root's own name left out, the node's name last. The
/// path of the root is empty.
pub struct NodePath {
    pub segments: Vec<String>,
}

impl View for NodePath {
    type V = Seq<Seq<char>>;

    open spec fn view(&self) -> Seq<Seq<char>> {
        names_of(self.segments@)
    }
}

impl Clone for NodePath {
    fn clone(&self) -> (copy: Self)
        ensures
            copy@ == self@,
    {
        let mut segments: Vec<String> = Vec::new();
        let mut i: usize = 0;
        while i < self.segments.len()
            invariant
                i <= self.segments@.len(),
                segments@.len() == i,
                forall|j: int| 0 <= j < i ==> (#[trigger] segments@[j])@ == self@[j],
            decreases self.segments@.len() - i,
        {
            segments.push(self.segments[i].clone());
            i = i + 1;
        }
        let copy = NodePath { segments };
        assert(copy@ =~= self@);
        copy
    }
}

impl NodePath {
    /// The path of the root.
    pub fn root() -> (path: Self)
        ensures
            path@ == Seq::<Seq<char>>::empty(),
    {
        let path = NodePath { segments: Vec::new() };
        assert(path@ =~= Seq::<Seq<char>>::empty());
        path
    }

    /// Goes one node further down, to the child called `name`.
    pub fn push(&mut self, name: String)
        ensures
            final(self)@ == old(self)@.push(name@),
    {
        self.segments.push(name);
        assert(self@ =~= old(self)@.push(name@));
    }

    /// The number of nodes below the root that the path passes, its end counted.
    pub fn len(&self) -> (n: usize)
        ensures
            n == self@.len(),
    {
        self.segments.len()
    }
}

/// The segments of `path` in the order in which a walk from the root takes them
/// off the end of a vector: the deepest first, the child of the root last.
pub fn custom_path_iter(path: &NodePath) -> (steps: Vec<String>)
    ensures
        names_of(steps@) == path@.reverse(),
{
    let mut steps: Vec<String> = Vec::new();
    let n = path.segments.len();
    let mut i: usize = 0;
    while i < n
        invariant
            n == path.segments@.len(),
            i <= n,
            steps@.len() == i,
            forall|j: int| 0 <= j < i ==> (#[trigger] steps@[j])@ == path@[n - 1 - j],
        decreases n - i,
    {
        steps.push(path.segments[n - 1 - i].clone());
        i = i + 1;
    }
    assert(names_of(steps@) =~= path@.reverse());
    steps
}

} // verus!

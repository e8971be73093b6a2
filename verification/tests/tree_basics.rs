use jakar_tree::game_tree::DefaultContent;
use jakar_tree::node::{Attribute, Node, NodeContent};
use jakar_tree::path::NodePath;
use vstd::seq::Seq;
use jakar_tree::tree::{NodeErrors, Tree};

/// A job that adds to a counter, or doubles on the way down.
#[derive(Clone, Debug, PartialEq)]
enum Job {
    Add(i64),
    Halve(i64),
}

/// Attributes that keep a sum and the jobs that were carried out, in order.
#[derive(Clone, Debug, PartialEq)]
struct Log {
    sum: i64,
    seen: Vec<Job>,
}

impl Attribute<Job> for Log {
    type Comparer = i64;

    fn default_spec() -> Self {
        Log { sum: 0, seen: Vec::new() }
    }

    fn execute_spec(mut self, job: Job) -> (Self, Job) {
        self.seen.push(job.clone());
        match job {
            Job::Add(n) => {
                self.sum += n;
                (self, Job::Add(n))
            }
            Job::Halve(n) => {
                self.sum += n;
                (self, Job::Halve(n / 2))
            }
        }
    }

    fn default() -> Self {
        Self::default_spec()
    }

    fn execute(&mut self, job: &Job) -> Job {
        let (next, forwarded) = self.clone().execute_spec(job.clone());
        *self = next;
        forwarded
    }

    fn print_atr(&self, _lvl: i32) {}

    fn compare(&self, attributes: &i64) -> bool {
        self.sum == *attributes
    }
}

/// Content that queues one job of its own in every update.
#[derive(Clone, Debug, PartialEq)]
struct Busy {
    name: String,
    extra: i64,
}

impl NodeContent<Job> for Busy {
    fn name_spec(&self) -> Seq<char> {
        unreachable!()
    }

    fn update_spec(self, _jobs: Seq<Job>) -> (Self, Seq<Job>) {
        unreachable!()
    }

    fn get_name(&self) -> String {
        self.name.clone()
    }

    fn update(&mut self, jobs: &mut Vec<Job>) {
        jobs.push(Job::Add(self.extra));
    }
}

#[test]
fn hook_job_runs_in_same_update() {
    let mut tree: Tree<Busy, Job, Log> =
        Tree::new(Busy { name: "Root".to_string(), extra: 5 }, Log::default());
    tree.update();
    let root = tree.get_node("Root").unwrap();
    assert_eq!(root.get_attrib().sum, 5);
    assert_eq!(root.get_jobs().len(), 0);
}

fn mesh(name: &str) -> DefaultContent {
    DefaultContent::Mesh(name.to_string())
}

fn light(name: &str) -> DefaultContent {
    DefaultContent::Light(name.to_string())
}

fn new_tree(root: &str) -> Tree<DefaultContent, Job, Log> {
    Tree::new(light(root), Log::default())
}

fn count_nodes(node: &Node<DefaultContent, Job, Log>) -> usize {
    let children = node.get_children();
    let mut n = 1;
    for i in 0..children.len() {
        n += count_nodes(children.node_at(i));
    }
    n
}

/// Every registered name leads to a node of that name, and the registry has
/// as many entries as the tree has nodes.
fn assert_consistent(tree: &mut Tree<DefaultContent, Job, Log>) {
    assert_eq!(tree.registry.len(), count_nodes(&tree.root_node));
    for i in 0..tree.registry.len() {
        let name = tree.registry.name_at(i).clone();
        let path = tree.registry.path_at(i).clone();
        let by_path = match tree.get_from_path(&path) {
            Ok(node) => node.get_name(),
            Err(e) => panic!("{} leads nowhere: {}", name, e.to_string()),
        };
        assert_eq!(by_path, name);
        assert_eq!(tree.get_node(&name).unwrap().get_name(), name);
    }
}

#[test]
fn new_tree_registers_root() {
    let mut tree = new_tree("Root");
    assert_eq!(tree.name, "Root");
    assert!(tree.has_node("Root"));
    assert_eq!(tree.registry.len(), 1);
    assert_eq!(tree.registry.get("Root").unwrap().len(), 0);
    let root = tree.get_node("Root").unwrap();
    assert_eq!(root.get_name(), "Root");
    assert_eq!(root.get_children().len(), 0);
}

#[test]
fn add_collision_gets_suffix() {
    let mut tree = new_tree("Root");
    assert_eq!(tree.add(mesh("Mesh"), "Root".to_string(), None).unwrap(), "Mesh");
    assert_eq!(tree.add(mesh("Mesh"), "Root".to_string(), None).unwrap(), "Mesh_0");
    assert_eq!(tree.add(mesh("Mesh"), "Root".to_string(), None).unwrap(), "Mesh_1");
    assert_eq!(tree.add(mesh("Mesh"), "Mesh".to_string(), None).unwrap(), "Mesh_2");
    assert_eq!(tree.registry.len(), 5);
    assert!(tree.has_node("Mesh_0"));
    assert!(tree.has_node("Mesh_2"));
    assert!(!tree.has_node("Mesh_3"));
}

#[test]
fn add_unknown_parent_fails() {
    let mut tree = new_tree("Root");
    let err = tree.add(mesh("Mesh"), "Nobody".to_string(), None).unwrap_err();
    assert!(matches!(err, NodeErrors::NoSuchChild(_)));
    assert_eq!(err.to_string(), "Could not find Nobodyin tree!");
    assert_eq!(tree.registry.len(), 1);
}

#[test]
fn add_returns_name_and_registers_path() {
    let mut tree = new_tree("Root");
    let a = tree.add(mesh("A"), "Root".to_string(), None).unwrap();
    let b = tree.add(mesh("B"), a.clone(), None).unwrap();
    let c = tree.add(light("C"), b.clone(), None).unwrap();
    assert_eq!((a.as_str(), b.as_str(), c.as_str()), ("A", "B", "C"));
    assert_eq!(tree.registry.get("A").unwrap().segments, vec!["A"]);
    assert_eq!(tree.registry.get("B").unwrap().segments, vec!["A", "B"]);
    assert_eq!(tree.registry.get("C").unwrap().segments, vec!["A", "B", "C"]);
    let node = tree.get_node("C").unwrap();
    assert_eq!(node.get_name(), "C");
    assert!(node.get_value().as_mesh().is_none());
    assert_eq!(tree.root_node.get_children().len(), 1);
    assert_consistent(&mut tree);
}

#[test]
fn add_uses_given_or_default_attributes() {
    let mut tree = new_tree("Root");
    tree.add(mesh("given"), "Root".to_string(), Some(Log { sum: 4, seen: Vec::new() })).unwrap();
    tree.add(mesh("default"), "Root".to_string(), None).unwrap();
    assert_eq!(tree.get_node("given").unwrap().get_attrib().sum, 4);
    assert_eq!(*tree.get_node("default").unwrap().get_attrib(), Log::default());
}

#[test]
fn add_at_root_adds_below_the_root() {
    let mut tree = new_tree("Root");
    assert_eq!(tree.add_at_root(mesh("One"), None).unwrap(), "One");
    assert_eq!(tree.add_at_root(mesh("One"), None).unwrap(), "One_0");
    assert_eq!(tree.root_node.get_children().len(), 2);
    assert_eq!(tree.registry.get("One_0").unwrap().segments, vec!["One_0"]);
    assert_consistent(&mut tree);
}

#[test]
fn add_at_root_fails_after_the_tree_was_renamed() {
    let mut tree = new_tree("Root");
    tree.name = "Other".to_string();
    let err = tree.add_at_root(mesh("One"), None).unwrap_err();
    assert_eq!(err.to_string(), "Could not find Otherin tree!");
    assert_eq!(tree.root_node.get_children().len(), 0);
}

#[test]
fn dotted_name_is_one_segment() {
    let mut tree = new_tree("Root");
    let name = tree.add(mesh("a.b"), "Root".to_string(), None).unwrap();
    assert_eq!(name, "a_b");
    assert!(tree.has_node("a_b"));
    assert!(!tree.has_node("a.b"));
    assert!(!tree.has_node("a"));
    assert_eq!(tree.registry.get("a_b").unwrap().segments, vec!["a_b"]);
    assert_eq!(tree.get_node("a_b").unwrap().get_name(), "a_b");
    assert_eq!(tree.get_node("a_b").unwrap().get_value().as_mesh().unwrap(), "a.b");
    let below = tree.add(mesh("Rolfy"), name, None).unwrap();
    assert_eq!(tree.registry.get(&below).unwrap().segments, vec!["a_b", "Rolfy"]);
    assert_eq!(tree.registry.len(), 3);
    assert_consistent(&mut tree);
}

#[test]
fn dotted_names_collide_after_replacing() {
    let mut tree = new_tree("Root");
    assert_eq!(tree.add(mesh("a.b"), "Root".to_string(), None).unwrap(), "a_b");
    assert_eq!(tree.add(mesh("a_b"), "Root".to_string(), None).unwrap(), "a_b_0");
    assert_eq!(tree.add(mesh("a.b"), "Root".to_string(), None).unwrap(), "a_b_1");
    assert_consistent(&mut tree);
}

#[test]
fn slash_in_a_name_is_no_separator() {
    let mut tree = new_tree("Root");
    let name = tree.add(mesh("a/b"), "Root".to_string(), None).unwrap();
    assert_eq!(name, "a/b");
    assert_eq!(tree.registry.get("a/b").unwrap().segments, vec!["a/b"]);
    assert_eq!(tree.get_node("a/b").unwrap().get_name(), "a/b");
    assert_consistent(&mut tree);
}

#[test]
fn root_name_collision_gets_suffix() {
    let mut tree = new_tree("Root");
    assert_eq!(tree.add(mesh("Root"), "Root".to_string(), None).unwrap(), "Root_0");
    assert_eq!(tree.get_node("Root_0").unwrap().get_children().len(), 0);
    assert_eq!(tree.get_node("Root").unwrap().get_children().len(), 1);
    assert_consistent(&mut tree);
}

#[test]
fn add_fails_when_the_path_leads_nowhere() {
    let mut tree = new_tree("Root");
    tree.add(mesh("A"), "Root".to_string(), None).unwrap();
    let nowhere = NodePath { segments: vec!["A".to_string(), "Ghost".to_string()] };
    tree.registry.insert("Ghost".to_string(), nowhere);
    let err = tree.add(mesh("B"), "Ghost".to_string(), None).unwrap_err();
    assert!(matches!(err, NodeErrors::NoSuchChild(_)));
    assert_eq!(err.to_string(), "Could not find such a child");
    assert_eq!(tree.registry.len(), 3);
    assert!(!tree.has_node("B"));
    assert_eq!(tree.get_node("A").unwrap().get_children().len(), 0);
    assert!(tree.has_node("Ghost"));
    assert!(tree.get_node("Ghost").is_none());
}

#[test]
fn get_from_path_reports_missing_node() {
    let mut tree = new_tree("Root");
    tree.add(mesh("A"), "Root".to_string(), None).unwrap();
    let missing = NodePath { segments: vec!["A".to_string(), "B".to_string()] };
    let err = match tree.get_from_path(&missing) {
        Ok(_) => panic!("found a node that does not exist"),
        Err(e) => e,
    };
    assert!(matches!(err, NodeErrors::NoNodeFound(_)));
    assert_eq!(err.to_string(), "could not find node in children");
    let root = tree.get_from_path(&NodePath::root()).unwrap();
    assert_eq!(root.get_name(), "Root");
}

#[test]
fn get_node_of_unknown_name_is_none() {
    let mut tree = new_tree("Root");
    assert!(tree.get_node("Nobody").is_none());
    assert!(tree.get_node("").is_none());
    assert!(!tree.has_node(""));
}

#[test]
fn lookup_twice_finds_the_same_node() {
    let mut tree = new_tree("Root");
    tree.add(mesh("A"), "Root".to_string(), Some(Log { sum: 3, seen: Vec::new() })).unwrap();
    tree.add(mesh("B"), "A".to_string(), None).unwrap();
    let first = tree.get_node("A").unwrap().clone();
    let second = tree.get_node("A").unwrap().clone();
    assert_eq!(first.get_name(), second.get_name());
    assert_eq!(first.get_attrib(), second.get_attrib());
    assert_eq!(first.get_children().len(), second.get_children().len());
    assert_eq!(first.get_children().name_at(0), second.get_children().name_at(0));
    assert_eq!(tree.registry.len(), 3);
    assert_consistent(&mut tree);
}

#[test]
fn change_through_get_node_is_seen_by_the_next_lookup() {
    let mut tree = new_tree("Root");
    tree.add(mesh("A"), "Root".to_string(), None).unwrap();
    tree.get_node("A").unwrap().add_job(Job::Add(1));
    assert_eq!(*tree.get_node("A").unwrap().get_jobs(), vec![Job::Add(1)]);
}

#[test]
fn tree_update_cascades_from_the_root() {
    let mut tree = new_tree("Root");
    tree.add(mesh("A"), "Root".to_string(), None).unwrap();
    tree.add(mesh("B"), "A".to_string(), None).unwrap();
    tree.add(mesh("C"), "Root".to_string(), None).unwrap();
    tree.get_node("Root").unwrap().add_job(Job::Add(1));
    tree.get_node("A").unwrap().add_job(Job::Add(2));
    tree.update();
    assert_eq!(tree.get_node("Root").unwrap().get_attrib().seen, vec![Job::Add(1)]);
    assert_eq!(tree.get_node("A").unwrap().get_attrib().seen, vec![Job::Add(1), Job::Add(2)]);
    assert_eq!(tree.get_node("B").unwrap().get_attrib().seen, vec![Job::Add(1), Job::Add(2)]);
    assert_eq!(tree.get_node("C").unwrap().get_attrib().seen, vec![Job::Add(1)]);
    for name in ["Root", "A", "B", "C"] {
        assert_eq!(tree.get_node(name).unwrap().get_jobs().len(), 0);
    }
    tree.update();
    assert_eq!(tree.get_node("B").unwrap().get_attrib().sum, 3);
    assert_consistent(&mut tree);
}

#[test]
fn many_adds_stay_consistent() {
    let mut tree = new_tree("Root");
    let things = ["Mesh", "Teddy", "other_stuff", "Test", "Moor", "More", "Stuff", "To", "Tetzt"];
    for thing in things.iter() {
        tree.add(mesh(thing), "Root".to_string(), None).unwrap();
    }
    let subs = ["Subby", "TheThird", "Saeft", "Oi", "And ", "Some", "more", "low", "level"];
    for thing in things.iter() {
        for sub in subs.iter() {
            let wanted = format!("{}_{}", thing, sub);
            let added = tree.add(mesh(&wanted), thing.to_string(), None).unwrap();
            assert_eq!(added, wanted);
        }
    }
    for thing in things.iter() {
        let added = tree.add(mesh("Mesh"), thing.to_string(), None).unwrap();
        assert!(added.starts_with("Mesh_"));
    }
    assert_eq!(tree.registry.len(), 1 + 9 + 81 + 9);
    assert_consistent(&mut tree);
}

#[test]
fn error_text_is_what_to_string_gives() {
    assert_eq!(NodeErrors::NoSuchChild("one".to_string()).to_string(), "one");
    assert_eq!(NodeErrors::NoNodeFound("two".to_string()).to_string(), "two");
}

#[test]
fn tree_clone_is_independent() {
    let mut tree = new_tree("Root");
    tree.add(mesh("A"), "Root".to_string(), None).unwrap();
    let mut copy = tree.clone();
    copy.add(mesh("B"), "A".to_string(), None).unwrap();
    assert_eq!(tree.registry.len(), 2);
    assert_eq!(copy.registry.len(), 3);
    assert_eq!(copy.name, "Root");
    assert!(!tree.has_node("B"));
    assert_consistent(&mut tree);
    assert_consistent(&mut copy);
}

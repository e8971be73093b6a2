use jakar_tree::game_tree::DefaultContent;
use jakar_tree::node::{Attribute, Children, Node, NodeContent};
use jakar_tree::tree::NodeErrors;
use vstd::seq::Seq;

#[derive(Clone, Debug, PartialEq)]
enum Job {
    Add(i64),
    Halve(i64),
}

/// Attributes that keep a sum and the jobs that were carried out, in order.
#[derive(Clone, Debug, PartialEq)]
struct Log {
    sum: i64,
    seen: Vec<Job>,
}

impl Attribute<Job> for Log {
    type Comparer = i64;

    fn default_spec() -> Self {
        Log { sum: 0, seen: Vec::new() }
    }

    fn execute_spec(mut self, job: Job) -> (Self, Job) {
        self.seen.push(job.clone());
        match job {
            Job::Add(n) => {
                self.sum += n;
                (self, Job::Add(n))
            }
            Job::Halve(n) => {
                self.sum += n;
                (self, Job::Halve(n / 2))
            }
        }
    }

    fn default() -> Self {
        Self::default_spec()
    }

    fn execute(&mut self, job: &Job) -> Job {
        let (next, forwarded) = self.clone().execute_spec(job.clone());
        *self = next;
        forwarded
    }

    fn print_atr(&self, _lvl: i32) {}

    fn compare(&self, attributes: &i64) -> bool {
        self.sum == *attributes
    }
}

/// Content that queues one job of its own in every update, and counts them.
#[derive(Clone, Debug, PartialEq)]
struct Ticker {
    name: String,
    ticks: i64,
}

impl NodeContent<Job> for Ticker {
    fn name_spec(&self) -> Seq<char> {
        unreachable!()
    }

    fn update_spec(self, _jobs: Seq<Job>) -> (Self, Seq<Job>) {
        unreachable!()
    }

    fn get_name(&self) -> String {
        self.name.clone()
    }

    fn update(&mut self, jobs: &mut Vec<Job>) {
        self.ticks += 1;
        jobs.push(Job::Add(100));
    }
}

type SceneNode = Node<DefaultContent, Job, Log>;

fn mesh(name: &str) -> DefaultContent {
    DefaultContent::Mesh(name.to_string())
}

fn node(name: &str) -> SceneNode {
    Node::new(mesh(name), Log::default())
}

fn names_of(children: &Children<DefaultContent, Job, Log>) -> Vec<String> {
    (0..children.len()).map(|i| children.name_at(i).clone()).collect()
}

/// root -> {a -> {a1, a2}, b}
fn small_tree() -> SceneNode {
    let mut root = node("root");
    root.add_with_name(mesh("a"), "a".to_string(), Log::default());
    root.add_with_name(mesh("b"), "b".to_string(), Log::default());
    let a = root.get_children_mut().get_mut("a").unwrap();
    a.add_with_name(mesh("a1"), "a1".to_string(), Log::default());
    a.add_with_name(mesh("a2"), "a2".to_string(), Log::default());
    root
}

#[test]
fn new_node_is_a_leaf() {
    let n = node("Teddy");
    assert_eq!(n.get_name(), "Teddy");
    assert_eq!(n.get_value().as_mesh().unwrap(), "Teddy");
    assert_eq!(n.get_children().len(), 0);
    assert_eq!(n.get_jobs().len(), 0);
    assert_eq!(*n.get_attrib(), Log::default());
}

#[test]
fn new_node_keeps_dots_of_its_content() {
    let n = node("a.b");
    assert_eq!(n.get_name(), "a.b");
}

#[test]
fn children_stand_in_name_order() {
    let mut root = node("root");
    for name in ["m", "b", "z", "B", "a", "\u{e4}"] {
        root.add_with_name(mesh(name), name.to_string(), Log::default());
    }
    assert_eq!(names_of(root.get_children()), vec!["B", "a", "b", "m", "z", "\u{e4}"]);
    for i in 0..root.get_children().len() {
        assert_eq!(root.get_children().node_at(i).get_name(), *root.get_children().name_at(i));
    }
}

#[test]
fn add_with_name_uses_the_given_name() {
    let mut root = node("root");
    root.add_with_name(mesh("content"), "given".to_string(), Log { sum: 3, seen: Vec::new() });
    let child = root.get_children().get("given").unwrap();
    assert_eq!(child.get_name(), "given");
    assert_eq!(child.get_value().as_mesh().unwrap(), "content");
    assert_eq!(child.get_attrib().sum, 3);
    assert_eq!(child.get_children().len(), 0);
    assert!(root.get_children().get("content").is_none());
}

#[test]
fn add_with_name_replaces_same_name() {
    let mut root = small_tree();
    assert_eq!(root.get_children().get("a").unwrap().get_children().len(), 2);
    root.add_with_name(mesh("other"), "a".to_string(), Log::default());
    assert_eq!(root.get_children().len(), 2);
    let a = root.get_children().get("a").unwrap();
    assert_eq!(a.get_children().len(), 0);
    assert_eq!(a.get_value().as_mesh().unwrap(), "other");
}

#[test]
fn children_insert_and_lookup() {
    let mut children: Children<DefaultContent, Job, Log> = Children::new();
    assert_eq!(children.len(), 0);
    assert!(!children.contains_key("x"));
    assert!(children.insert("x".to_string(), node("x")).is_none());
    assert!(children.insert("k".to_string(), node("k")).is_none());
    assert!(children.contains_key("x"));
    assert!(children.get("y").is_none());
    assert!(children.get_mut("y").is_none());
    let before = children.insert("x".to_string(), node("second"));
    assert_eq!(before.unwrap().get_name(), "x");
    assert_eq!(children.get("x").unwrap().get_name(), "second");
    assert_eq!(names_of(&children), vec!["k", "x"]);
    children.node_at_mut(0).add_job(Job::Add(1));
    assert_eq!(children.get("k").unwrap().get_jobs().len(), 1);
    assert_eq!(children.get("x").unwrap().get_jobs().len(), 0);
}

#[test]
fn copy_drops_children_and_jobs() {
    let mut root = small_tree();
    root.add_job(Job::Add(1));
    root.get_attrib_mut().sum = 9;
    let copy = root.copy();
    assert_eq!(copy.get_name(), "root");
    assert_eq!(copy.get_value().as_mesh().unwrap(), "root");
    assert_eq!(copy.get_attrib().sum, 9);
    assert_eq!(copy.get_children().len(), 0);
    assert_eq!(copy.get_jobs().len(), 0);
    assert_eq!(root.get_children().len(), 2);
    assert_eq!(root.get_jobs().len(), 1);
}

#[test]
fn clone_copies_the_whole_subtree() {
    let mut root = small_tree();
    root.add_job(Job::Add(1));
    let mut copy = root.clone();
    assert_eq!(copy.get_name(), "root");
    assert_eq!(names_of(copy.get_children()), vec!["a", "b"]);
    assert_eq!(names_of(copy.get_children().get("a").unwrap().get_children()), vec!["a1", "a2"]);
    assert_eq!(*copy.get_jobs(), vec![Job::Add(1)]);
    copy.get_children_mut().get_mut("a").unwrap().get_attrib_mut().sum = 5;
    assert_eq!(root.get_children().get("a").unwrap().get_attrib().sum, 0);
}

#[test]
fn get_node_walks_from_the_end_of_the_path() {
    let mut root = small_tree();
    let mut path = vec!["a2".to_string(), "a".to_string()];
    let found = root.get_node(&mut path).unwrap();
    assert_eq!(found.get_name(), "a2");
    assert!(path.is_empty());

    let mut none: Vec<String> = Vec::new();
    assert_eq!(root.get_node(&mut none).unwrap().get_name(), "root");
}

#[test]
fn get_node_changes_reach_the_tree() {
    let mut root = small_tree();
    let mut path = vec!["a1".to_string(), "a".to_string()];
    root.get_node(&mut path).unwrap().get_attrib_mut().sum = 42;
    let a1 = root.get_children().get("a").unwrap().get_children().get("a1").unwrap();
    assert_eq!(a1.get_attrib().sum, 42);
    let a2 = root.get_children().get("a").unwrap().get_children().get("a2").unwrap();
    assert_eq!(a2.get_attrib().sum, 0);
}

#[test]
fn get_node_fails_at_missing_child() {
    let mut root = small_tree();
    let mut path = vec!["deep".to_string(), "missing".to_string(), "a".to_string()];
    let err = match root.get_node(&mut path) {
        Ok(_) => panic!("found a node that does not exist"),
        Err(e) => e,
    };
    assert!(matches!(err, NodeErrors::NoNodeFound(_)));
    assert_eq!(err.to_string(), "could not find node in children");
    assert_eq!(path, vec!["deep"]);

    let mut first = vec!["nobody".to_string()];
    assert!(root.get_node(&mut first).is_err());
    assert!(first.is_empty());
}

#[test]
fn add_job_waits_and_job_exec_does_not() {
    let mut n = node("n");
    n.add_job(Job::Add(2));
    n.add_job(Job::Add(3));
    assert_eq!(*n.get_jobs(), vec![Job::Add(2), Job::Add(3)]);
    assert_eq!(n.get_attrib().sum, 0);
    n.job_exec(Job::Add(7));
    assert_eq!(n.get_attrib().sum, 7);
    assert_eq!(n.get_jobs().len(), 2);
}

#[test]
fn job_exec_does_not_reach_children() {
    let mut root = small_tree();
    root.job_exec(Job::Add(7));
    assert_eq!(root.get_attrib().sum, 7);
    assert_eq!(root.get_children().get("a").unwrap().get_attrib().sum, 0);
    root.update(0, &Vec::new());
    assert_eq!(root.get_children().get("a").unwrap().get_attrib().sum, 0);
}

#[test]
fn jobs_cascade_in_order() {
    let mut root = small_tree();
    root.add_job(Job::Add(1));
    root.get_children_mut().get_mut("a").unwrap().add_job(Job::Add(2));
    root.update(0, &Vec::new());

    assert_eq!(root.get_attrib().seen, vec![Job::Add(1)]);
    let a = root.get_children().get("a").unwrap();
    assert_eq!(a.get_attrib().seen, vec![Job::Add(1), Job::Add(2)]);
    assert_eq!(a.get_attrib().sum, 3);
    for name in ["a1", "a2"] {
        let below = a.get_children().get(name).unwrap();
        assert_eq!(below.get_attrib().seen, vec![Job::Add(1), Job::Add(2)]);
    }
    let b = root.get_children().get("b").unwrap();
    assert_eq!(b.get_attrib().seen, vec![Job::Add(1)]);
}

#[test]
fn inherited_jobs_come_before_own_jobs() {
    let mut n = node("n");
    n.add_job(Job::Add(5));
    n.update(0, &vec![Job::Add(1), Job::Add(2)]);
    assert_eq!(n.get_attrib().seen, vec![Job::Add(1), Job::Add(2), Job::Add(5)]);
    assert_eq!(n.get_attrib().sum, 8);
}

#[test]
fn forwarded_job_is_the_transformed_one() {
    let mut root = small_tree();
    root.add_job(Job::Halve(8));
    root.update(0, &Vec::new());
    assert_eq!(root.get_attrib().seen, vec![Job::Halve(8)]);
    let a = root.get_children().get("a").unwrap();
    assert_eq!(a.get_attrib().seen, vec![Job::Halve(4)]);
    let a1 = a.get_children().get("a1").unwrap();
    assert_eq!(a1.get_attrib().seen, vec![Job::Halve(2)]);
    assert_eq!(a1.get_attrib().sum, 2);
}

#[test]
fn update_drains_every_queue() {
    let mut root = small_tree();
    root.add_job(Job::Add(1));
    root.get_children_mut().get_mut("b").unwrap().add_job(Job::Add(2));
    let mut path = vec!["a1".to_string(), "a".to_string()];
    root.get_node(&mut path).unwrap().add_job(Job::Add(3));
    root.update(0, &Vec::new());
    assert_eq!(root.get_jobs().len(), 0);
    assert_eq!(root.get_children().get("b").unwrap().get_jobs().len(), 0);
    let a = root.get_children().get("a").unwrap();
    assert_eq!(a.get_children().get("a1").unwrap().get_jobs().len(), 0);

    root.update(0, &Vec::new());
    assert_eq!(root.get_attrib().seen, vec![Job::Add(1)]);
    assert_eq!(a_sum(&root), 1);
}

fn a_sum(root: &SceneNode) -> i64 {
    root.get_children().get("a").unwrap().get_attrib().sum
}

#[test]
fn job_queued_by_the_content_runs_in_the_same_update() {
    let mut root: Node<Ticker, Job, Log> =
        Node::new(Ticker { name: "root".to_string(), ticks: 0 }, Log::default());
    let kid = Ticker { name: "kid".to_string(), ticks: 0 };
    root.add_with_name(kid, "kid".to_string(), Log::default());
    root.add_job(Job::Add(1));
    root.update(0, &Vec::new());

    assert_eq!(root.get_value().ticks, 1);
    assert_eq!(root.get_attrib().seen, vec![Job::Add(1), Job::Add(100)]);
    assert_eq!(root.get_jobs().len(), 0);
    let kid = root.get_children().get("kid").unwrap();
    assert_eq!(kid.get_value().ticks, 1);
    assert_eq!(kid.get_attrib().seen, vec![Job::Add(1), Job::Add(100), Job::Add(100)]);
    assert_eq!(kid.get_jobs().len(), 0);
}

#[test]
fn value_can_be_changed_in_place() {
    let mut n = node("n");
    *n.get_value_mut() = DefaultContent::Light("lamp".to_string());
    assert!(n.get_value().as_mesh().is_none());
    assert_eq!(n.get_name(), "n");
}

#[test]
fn default_content_names() {
    let m = DefaultContent::Mesh("m".to_string());
    let l = DefaultContent::Light("l".to_string());
    assert_eq!(m.as_mesh().unwrap(), "m");
    assert!(l.as_mesh().is_none());
    assert_eq!(NodeContent::<Job>::get_name(&m), "m");
    assert_eq!(NodeContent::<Job>::get_name(&l), "l");
    assert_eq!(l.clone().as_mesh(), None);
    assert_eq!(m.clone().as_mesh().unwrap(), "m");
}

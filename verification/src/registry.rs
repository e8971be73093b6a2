use vstd::prelude::*;
use crate::entries::{
    ascending, has_key, index_of, lemma_paired_sorted, lemma_same_keys, lemma_with_entry,
    lemma_with_entry_mapped, lookup,
    mapped, paired, search, sorted, store, with_entry,
};
use crate::names::{lemma_numbered_injective, name_lt, numbered, with_number};
use crate::path::NodePath;
use vstd::set_lib::{lemma_int_range, lemma_len_subset, lemma_map_size, set_int_range};

verus! {

/// `k` is the least number whose numbered variant of `base` has no entry.
pub open spec fn first_free(
    registry: Seq<(Seq<char>, Seq<Seq<char>>)>,
    base: Seq<char>,
    k: nat,
) -> bool {
    &&& !has_key(registry, numbered(base, k))
    &&& forall|j: nat| j < k ==> has_key(registry, #[trigger] numbered(base, j))
}

/// The name that a new node gets whose content asks for `base`: `base` itself
/// where it has no entry yet, else the first of `base_0`, `base_1`, `base_2`
/// and so on that has none.
pub open spec fn unique_name(registry: Seq<(Seq<char>, Seq<Seq<char>>)>, base: Seq<char>) -> Seq<
    char,
> {
    if has_key(registry, base) {
        numbered(base, choose|k: nat| first_free(registry, base, k))
    } else {
        base
    }
}

/// A registry has at least as many entries as it holds numbered variants of
/// one name.
pub proof fn lemma_numbered_taken(
    registry: Seq<(Seq<char>, Seq<Seq<char>>)>,
    base: Seq<char>,
    n: nat,
)
    requires
        forall|j: nat| j < n ==> has_key(registry, #[trigger] numbered(base, j)),
    ensures
        n <= registry.len(),
{
    let f = |j: int| index_of(registry, numbered(base, j as nat));
    let x = set_int_range(0, n as int);
    let y = x.map(f);
    lemma_int_range(0, n as int);
    assert forall|a: int, b: int| x.contains(a) && x.contains(b) && #[trigger] f(a) == #[trigger] f(
        b,
    ) implies a == b by {
        assert(has_key(registry, numbered(base, a as nat)));
        assert(has_key(registry, numbered(base, b as nat)));
        lemma_numbered_injective(base, a as nat, b as nat);
    }
    lemma_map_size(x, y, f);
    let all = set_int_range(0, registry.len() as int);
    lemma_int_range(0, registry.len() as int);
    assert forall|i: int| y.contains(i) implies all.contains(i) by {
        let j = choose|j: int| x.contains(j) && f(j) == i;
        assert(has_key(registry, numbered(base, j as nat)));
    }
    lemma_len_subset(y, all);
}

/// The unique name has no entry, and it is `base` or a numbered variant of it.
pub proof fn lemma_unique_name(registry: Seq<(Seq<char>, Seq<Seq<char>>)>, base: Seq<char>)
    ensures
        !has_key(registry, unique_name(registry, base)),
        unique_name(registry, base) == base || exists|k: nat|
            first_free(registry, base, k) && unique_name(registry, base) == numbered(base, k),
{
    if has_key(registry, base) {
        lemma_first_free_exists(registry, base, 0);
    }
}

/// Where `base` is taken, the unique name is its variant with the least number
/// that is free.
pub proof fn lemma_unique_name_numbered(
    registry: Seq<(Seq<char>, Seq<Seq<char>>)>,
    base: Seq<char>,
    k: nat,
)
    requires
        has_key(registry, base),
        first_free(registry, base, k),
    ensures
        unique_name(registry, base) == numbered(base, k),
{
    lemma_first_free_unique(registry, base, k);
}

/// Two nodes whose contents ask for the same name get different names. The
/// first gets the name itself where it is free, and the second then gets the
/// name with `_0` after it, where that is free too.
pub proof fn lemma_second_name_differs(
    registry: Seq<(Seq<char>, Seq<Seq<char>>)>,
    base: Seq<char>,
    path: Seq<Seq<char>>,
)
    requires
        sorted(registry),
    ensures
        unique_name(with_entry(registry, unique_name(registry, base), path), base) != unique_name(
            registry,
            base,
        ),
        !has_key(registry, base) ==> unique_name(registry, base) == base,
        !has_key(registry, base) && !has_key(registry, numbered(base, 0)) ==> unique_name(
            with_entry(registry, base, path),
            base,
        ) == numbered(base, 0),
{
    let first = unique_name(registry, base);
    let next = with_entry(registry, first, path);
    lemma_with_entry(registry, first, path);
    lemma_unique_name(next, base);
    assert(has_key(next, first));
    if !has_key(registry, base) && !has_key(registry, numbered(base, 0)) {
        lemma_numbered_injective(base, 0, 0);
        assert(lookup(next, numbered(base, 0)) == lookup(registry, numbered(base, 0)));
        assert(first_free(next, base, 0));
        lemma_unique_name_numbered(next, base, 0);
    }
}

/// Some numbered variant of `base` has no entry.
proof fn lemma_first_free_exists(
    registry: Seq<(Seq<char>, Seq<Seq<char>>)>,
    base: Seq<char>,
    n: nat,
)
    requires
        forall|j: nat| j < n ==> has_key(registry, #[trigger] numbered(base, j)),
    ensures
        exists|k: nat| first_free(registry, base, k),
    decreases registry.len() - n,
{
    lemma_numbered_taken(registry, base, n);
    if has_key(registry, numbered(base, n)) {
        lemma_numbered_taken(registry, base, n + 1);
        lemma_first_free_exists(registry, base, n + 1);
    } else {
        assert(first_free(registry, base, n));
    }
}

/// Only one number is the least whose numbered variant has no entry.
pub proof fn lemma_first_free_unique(
    registry: Seq<(Seq<char>, Seq<Seq<char>>)>,
    base: Seq<char>,
    k: nat,
)
    requires
        first_free(registry, base, k),
    ensures
        (choose|k: nat| first_free(registry, base, k)) == k,
{
    let c = choose|k: nat| first_free(registry, base, k);
    if c < k {
        assert(has_key(registry, numbered(base, c)));
    } else if k < c {
        assert(has_key(registry, numbered(base, k)));
    }
}

/// The index of a tree: for the name of each node the path that leads to it,
/// in the order of the names.
pub struct Registry {
    names: Vec<String>,
    paths: Vec<NodePath>,
}

impl View for Registry {
    type V = Seq<(Seq<char>, Seq<Seq<char>>)>;

    closed spec fn view(&self) -> Seq<(Seq<char>, Seq<Seq<char>>)> {
        mapped(paired(self.names@, self.paths@), |p: NodePath| p@)
    }
}

impl Clone for Registry {
    /// A registry with the same entries.
    fn clone(&self) -> (copy: Self)
        ensures
            copy@ == self@,
    {
        proof {
            use_type_invariant(self);
        }
        let mut names: Vec<String> = Vec::new();
        let mut paths: Vec<NodePath> = Vec::new();
        let n = self.paths.len();
        let mut i: usize = 0;
        while i < n
            invariant
                i <= n,
                n == self.paths@.len(),
                n == self.names@.len(),
                names@.len() == i,
                paths@.len() == i,
                forall|j: int| 0 <= j < i ==> (#[trigger] names@[j])@ == self.names@[j]@,
                forall|j: int| 0 <= j < i ==> (#[trigger] paths@[j])@ == self.paths@[j]@,
            decreases n - i,
        {
            names.push(self.names[i].clone());
            paths.push(self.paths[i].clone());
            i = i + 1;
        }
        proof {
            assert forall|a: int, b: int| 0 <= a < b < names@.len() implies name_lt(
                (#[trigger] names@[a])@,
                (#[trigger] names@[b])@,
            ) by {
                assert(name_lt(self.names@[a]@, self.names@[b]@));
            }
        }
        let copy = Registry { names, paths };
        assert(copy@ =~= self@);
        copy
    }
}

impl Registry {
    #[verifier::type_invariant]
    closed spec fn inv(&self) -> bool {
        &&& self.names@.len() == self.paths@.len()
        &&& ascending(self.names@)
    }

    /// A registry without entries.
    pub fn new() -> (registry: Self)
        ensures
            registry@ == Seq::<(Seq<char>, Seq<Seq<char>>)>::empty(),
    {
        let registry = Registry { names: Vec::new(), paths: Vec::new() };
        assert(registry@ =~= Seq::<(Seq<char>, Seq<Seq<char>>)>::empty());
        registry
    }

    /// The number of entries. They stand in the order of their names, so no
    /// name has two.
    pub fn len(&self) -> (n: usize)
        ensures
            n == self@.len(),
            sorted(self@),
    {
        proof {
            use_type_invariant(self);
            lemma_paired_sorted(self.names@, self.paths@);
            lemma_same_keys(paired(self.names@, self.paths@), self@, Seq::empty());
        }
        self.paths.len()
    }

    /// Whether `key` has an entry.
    pub fn contains_key(&self, key: &str) -> (found: bool)
        ensures
            found == has_key(self@, key@),
    {
        proof {
            use_type_invariant(self);
            lemma_paired_sorted(self.names@, self.paths@);
            lemma_same_keys(paired(self.names@, self.paths@), self@, key@);
        }
        search(&self.names, &self.paths, key).is_ok()
    }

    /// The path registered for `key`.
    pub fn get(&self, key: &str) -> (found: Option<&NodePath>)
        ensures
            match found {
                Some(path) => lookup(self@, key@) == Some(path@),
                None => lookup(self@, key@) is None,
            },
    {
        proof {
            use_type_invariant(self);
            lemma_paired_sorted(self.names@, self.paths@);
            lemma_same_keys(paired(self.names@, self.paths@), self@, key@);
        }
        match search(&self.names, &self.paths, key) {
            Ok(i) => Some(&self.paths[i]),
            Err(_) => None,
        }
    }

    /// The name for a new node whose content asks for `base`: one that has no
    /// entry yet.
    pub fn unique_name(&self, base: String) -> (name: String)
        ensures
            name@ == unique_name(self@, base@),
            !has_key(self@, name@),
    {
        if !self.contains_key(base.as_str()) {
            return base;
        }
        let len = self.len();
        let mut append_number: usize = 0;
        let mut name = with_number(base.as_str(), append_number);
        while self.contains_key(name.as_str())
            invariant
                len == self@.len(),
                has_key(self@, base@),
                name@ == numbered(base@, append_number as nat),
                forall|j: nat| j < append_number ==> has_key(self@, #[trigger] numbered(base@, j)),
            decreases len - append_number,
        {
            proof {
                lemma_numbered_taken(self@, base@, (append_number + 1) as nat);
            }
            append_number = append_number + 1;
            name = with_number(base.as_str(), append_number);
        }
        proof {
            assert(first_free(self@, base@, append_number as nat));
            lemma_first_free_unique(self@, base@, append_number as nat);
        }
        name
    }

    /// The name of the entry at place `i`.
    pub fn name_at(&self, i: usize) -> (name: &String)
        requires
            i < self@.len(),
        ensures
            name@ == self@[i as int].0,
    {
        proof {
            use_type_invariant(self);
        }
        &self.names[i]
    }

    /// The path of the entry at place `i`.
    pub fn path_at(&self, i: usize) -> (path: &NodePath)
        requires
            i < self@.len(),
        ensures
            path@ == self@[i as int].1,
    {
        &self.paths[i]
    }

    /// Registers `path` for `key`, and hands back the path that was registered
    /// for it before.
    pub fn insert(&mut self, key: String, path: NodePath) -> (before: Option<NodePath>)
        ensures
            final(self)@ == with_entry(old(self)@, key@, path@),
            match before {
                Some(b) => lookup(old(self)@, key@) == Some(b@),
                None => lookup(old(self)@, key@) is None,
            },
    {
        proof {
            use_type_invariant(&*self);
            lemma_paired_sorted(self.names@, self.paths@);
            lemma_with_entry_mapped(
                paired(self.names@, self.paths@),
                |p: NodePath| p@,
                key@,
                path,
            );
        }
        let mut taken = Registry { names: Vec::new(), paths: Vec::new() };
        std::mem::swap(self, &mut taken);
        let Registry { mut names, mut paths } = taken;
        let before = store(&mut names, &mut paths, key, path);
        *self = Registry { names, paths };
        before
    }
}

} // verus!

//! Recipes, targets, and the configuration that holds them by name.
use crate::text::{lemma_strs_push, lemma_strs_take, strs};
use indexmap::IndexMap;
use vstd::prelude::*;

verus! {

/// The insertion-ordered map of the `indexmap` crate, opaque here: what it holds
/// is seen through `map_entries`.
#[verifier::external_type_specification]
#[verifier::external_body]
#[verifier::reject_recursive_types(K)]
#[verifier::reject_recursive_types(V)]
#[verifier::reject_recursive_types(S)]
pub struct ExIndexMap<K, V, S>(IndexMap<K, V, S>);

/// The entries of a map of targets, in the map's order.
pub uninterp spec fn map_entries(m: IndexMap<String, Target>) -> Seq<(Seq<char>, Target)>;

/// Whether `k` is the key of some entry.
pub open spec fn has_key(e: Seq<(Seq<char>, Target)>, k: Seq<char>) -> bool {
    exists|i: int| 0 <= i < e.len() && #[trigger] e[i].0 == k
}

/// No two entries share a key.
pub open spec fn unique_keys(e: Seq<(Seq<char>, Target)>) -> bool {
    forall|i: int, j: int| 0 <= i < e.len() && 0 <= j < e.len() && #[trigger] e[i].0 == #[trigger] e[j].0 ==> i == j
}

/// The position of key `k` among the entries (meaningful where `has_key`).
pub open spec fn key_index(e: Seq<(Seq<char>, Target)>, k: Seq<char>) -> int {
    choose|i: int| 0 <= i < e.len() && #[trigger] e[i].0 == k
}

/// The entries after inserting `v` under `k`: a present key keeps its place
/// and takes the new value, a new key goes last.
pub open spec fn inserted(e: Seq<(Seq<char>, Target)>, k: Seq<char>, v: Target) -> Seq<(Seq<char>, Target)> {
    if has_key(e, k) {
        e.update(key_index(e, k), (k, v))
    } else {
        e.push((k, v))
    }
}

/// Relies on `IndexMap::new`: the map starts empty.
#[verifier::external_body]
fn map_new() -> (r: IndexMap<String, Target>)
    ensures
        map_entries(r) == Seq::<(Seq<char>, Target)>::empty(),
{
    IndexMap::new()
}

/// Relies on `IndexMap::len`: the number of entries.
#[verifier::external_body]
fn map_len(m: &IndexMap<String, Target>) -> (r: usize)
    ensures
        r == map_entries(*m).len(),
{
    m.len()
}

/// Relies on `IndexMap::get_index_of`: the position of the entry whose key equals `k`.
#[verifier::external_body]
fn map_index_of(m: &IndexMap<String, Target>, k: &str) -> (r: Option<usize>)
    ensures
        match r {
            Some(i) => i < map_entries(*m).len() && map_entries(*m)[i as int].0 == k@,
            None => !has_key(map_entries(*m), k@),
        },
{
    m.get_index_of(k)
}

/// Relies on `IndexMap::get_index`: the value of the entry at position `i`.
#[verifier::external_body]
fn map_get_index(m: &IndexMap<String, Target>, i: usize) -> (r: &Target)
    requires
        i < map_entries(*m).len(),
    ensures
        *r == map_entries(*m)[i as int].1,
{
    m.get_index(i).map(|(_, v)| v).unwrap()
}

/// Relies on `IndexMap::insert`: an equal key keeps its place and takes the new
/// value; a new key is placed last.
#[verifier::external_body]
fn map_insert(m: &mut IndexMap<String, Target>, k: String, v: Target)
    ensures
        map_entries(*final(m)) == inserted(map_entries(*old(m)), k@, v),
{
    m.insert(k, v);
}

/// One unit of work of a target: a script for an interpreter, or commands run
/// one by one.
#[derive(Clone, Debug)]
pub struct Recipe {
    /// The interpreter that reads the script on its standard input, if any.
    pub shell: Option<String>,
    /// The script (one string) where there is a shell, else the commands.
    pub commands: Vec<String>,
}

impl Recipe {
    pub fn new(shell: Option<String>, commands: Vec<String>) -> (r: Recipe)
        ensures
            r.shell == shell,
            r.commands@ == commands@,
    {
        Recipe { shell, commands }
    }
}

/// A named unit of the build: a file with a modification time, a phony name that
/// always runs, or a pattern rule from which file targets are derived.
#[derive(Clone, Debug)]
pub struct Target {
    pub name: String,
    /// Whether the name is a wildcard pattern such as `*.o`.
    pub is_pattern: bool,
    /// Whether the name is a path whose modification time matters.
    pub is_file: bool,
    /// The names this target depends on, in declared order.
    pub dependencies: Vec<String>,
    pub recipes: Vec<Recipe>,
}

impl Target {
    pub fn new(name: &str, is_file: bool, is_pattern: bool, dependencies: &Vec<String>, recipes: Vec<Recipe>) -> (r: Target)
        ensures
            r.name@ == name@,
            r.is_file == is_file,
            r.is_pattern == is_pattern,
            strs(r.dependencies@) == strs(dependencies@),
            r.recipes@ == recipes@,
    {
        Target {
            name: name.to_string(),
            is_pattern,
            is_file,
            dependencies: clone_strings(dependencies),
            recipes,
        }
    }

    /// The views of the dependencies.
    pub open spec fn deps(&self) -> Seq<Seq<char>> {
        strs(self.dependencies@)
    }
}

/// A copy of each string, in order.
pub fn clone_strings(v: &Vec<String>) -> (r: Vec<String>)
    ensures
        strs(r@) == strs(v@),
{
    let mut r: Vec<String> = Vec::new();
    let mut i: usize = 0;
    while i < v.len()
        invariant
            i <= v.len(),
            strs(r@) == strs(v@.take(i as int)),
        decreases v.len() - i,
    {
        let s = v[i].clone();
        let ghost prev = r@;
        r.push(s);
        proof {
            lemma_strs_push(prev, s);
            lemma_strs_take(v@, i as int);
        }
        i = i + 1;
    }
    assert(v@.take(v.len() as int) =~= v@);
    r
}

/// Why a build stops.
#[derive(Clone, Debug)]
pub enum BuildError {
    /// A configuration document does not exist.
    ConfigSourceMissing(String),
    /// A configuration document could not be read.
    ConfigSourceUnreadable(String),
    /// A requested or referenced name is neither a target nor matched by a
    /// pattern rule.
    UnknownTarget(String),
    /// A file that is only depended on, with nothing to build it, is absent.
    MissingRequiredFile(String),
    /// A command or script ended with this status.
    RecipeFailure(i32),
}

/// The targets of a build, by name, in the order in which they were declared.
#[derive(Debug)]
pub struct Config {
    pub targets: IndexMap<String, Target>,
}

/// Keys are unique and each is the name of its target.
pub open spec fn entries_named(e: Seq<(Seq<char>, Target)>) -> bool {
    &&& unique_keys(e)
    &&& forall|i: int| 0 <= i < e.len() ==> (#[trigger] e[i]).1.name@ == e[i].0
}

/// Every dependency of every target names a target.
pub open spec fn deps_closed(e: Seq<(Seq<char>, Target)>) -> bool {
    forall|i: int, j: int| 0 <= i < e.len() && 0 <= j < e[i].1.deps().len() ==> has_key(e, #[trigger] e[i].1.deps()[j])
}

/// A well-built configuration: named entries whose dependencies all name targets.
pub open spec fn entries_wf(e: Seq<(Seq<char>, Target)>) -> bool {
    entries_named(e) && deps_closed(e)
}

/// Inserting a target under its own name keeps the entries named, keeps every
/// key, and gives the name that target.
pub proof fn lemma_inserted(e: Seq<(Seq<char>, Target)>, t: Target)
    requires
        entries_named(e),
    ensures
        entries_named(inserted(e, t.name@, t)),
        forall|k: Seq<char>| has_key(e, k) ==> has_key(inserted(e, t.name@, t), k),
        has_key(inserted(e, t.name@, t), t.name@),
        inserted(e, t.name@, t)[key_index(inserted(e, t.name@, t), t.name@)].1 == t,
{
    let n = inserted(e, t.name@, t);
    if has_key(e, t.name@) {
        let k = key_index(e, t.name@);
        assert(n[k].0 == t.name@);
        assert forall|x: Seq<char>| has_key(e, x) implies has_key(n, x) by {
            let i = choose|i: int| 0 <= i < e.len() && #[trigger] e[i].0 == x;
            assert(n[i].0 == x);
        }
    } else {
        assert(n[e.len() as int].0 == t.name@);
        assert forall|x: Seq<char>| has_key(e, x) implies has_key(n, x) by {
            let i = choose|i: int| 0 <= i < e.len() && #[trigger] e[i].0 == x;
            assert(n[i].0 == x);
        }
    }
    let k2 = key_index(n, t.name@);
    assert(n[k2].0 == t.name@);
}

impl Config {
    /// The entries, name and target, in order.
    pub open spec fn entries(&self) -> Seq<(Seq<char>, Target)> {
        map_entries(self.targets)
    }

    pub open spec fn wf(&self) -> bool {
        entries_wf(self.entries())
    }

    /// Whether a target is named `n`.
    pub open spec fn contains(&self, n: Seq<char>) -> bool {
        has_key(self.entries(), n)
    }

    /// The target named `n` (meaningful where `contains`).
    pub open spec fn get(&self, n: Seq<char>) -> Target {
        self.entries()[key_index(self.entries(), n)].1
    }

    pub fn new() -> (r: Config)
        ensures
            r.entries().len() == 0,
            r.wf(),
    {
        Config { targets: map_new() }
    }

    pub fn len(&self) -> (r: usize)
        ensures
            r == self.entries().len(),
    {
        map_len(&self.targets)
    }

    /// The position of the target named `n`.
    pub fn index_of(&self, n: &str) -> (r: Option<usize>)
        requires
            entries_named(self.entries()),
        ensures
            match r {
                Some(i) => i < self.entries().len() && self.entries()[i as int].0 == n@
                    && key_index(self.entries(), n@) == i && self.contains(n@),
                None => !self.contains(n@),
            },
    {
        let r = map_index_of(&self.targets, n);
        if let Some(i) = r {
            proof {
                let e = self.entries();
                assert(e[i as int].0 == n@);
                let k = key_index(e, n@);
                assert(0 <= k < e.len() && e[k].0 == n@);
            }
        }
        r
    }

    /// Inserts `t` under its name: a target of that name is replaced in place, a
    /// new name goes last.
    pub fn insert_target(&mut self, t: Target)
        requires
            entries_named(old(self).entries()),
        ensures
            final(self).entries() == inserted(old(self).entries(), t.name@, t),
            entries_named(final(self).entries()),
            forall|k: Seq<char>| old(self).contains(k) ==> final(self).contains(k),
            final(self).contains(t.name@),
            final(self).get(t.name@) == t,
    {
        proof {
            lemma_inserted(self.entries(), t);
        }
        let k = t.name.clone();
        map_insert(&mut self.targets, k, t);
    }

    /// The target at position `i`.
    pub fn at(&self, i: usize) -> (r: &Target)
        requires
            i < self.entries().len(),
        ensures
            *r == self.entries()[i as int].1,
    {
        map_get_index(&self.targets, i)
    }

    /// Whether a target is named `n`.
    pub fn contains_key(&self, n: &str) -> (r: bool)
        requires
            entries_named(self.entries()),
        ensures
            r == self.contains(n@),
    {
        self.index_of(n).is_some()
    }
}

} // verus!

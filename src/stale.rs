//! The staleness rule: a file target must be rebuilt when a file it depends on,
//! through file targets only, was modified after it.
use crate::files::FileStates;
use crate::model::{has_key, key_index, Config, Target};
use vstd::prelude::*;

verus! {

/// Whether the target named `n` reports newer than `reference`, looking at most
/// `fuel` levels down: a file target does where its own time is later, or where
/// one of its dependencies does; a phony target or an unknown name never does.
pub open spec fn stale(e: Seq<(Seq<char>, Target)>, fs: FileStates, n: Seq<char>, reference: u128, fuel: nat) -> bool
    decreases fuel,
{
    if fuel == 0 || !has_key(e, n) {
        false
    } else {
        let t = e[key_index(e, n)].1;
        t.is_file && (fs.time(n) > reference || exists|j: int|
            0 <= j < t.deps().len() && stale(e, fs, #[trigger] t.deps()[j], reference, (fuel - 1) as nat))
    }
}

/// Whether `t` must be rebuilt relative to `reference`: `t` is a file target and
/// it, or a dependency within as many levels as there are targets, reports newer.
pub open spec fn outdated_spec(e: Seq<(Seq<char>, Target)>, fs: FileStates, t: Target, reference: u128) -> bool {
    t.is_file && (fs.time(t.name@) > reference || exists|j: int|
        0 <= j < t.deps().len() && stale(e, fs, #[trigger] t.deps()[j], reference, e.len()))
}

impl Config {
    /// Evaluates `stale` for the target named `n`.
    pub fn stale_within(&self, fs: &FileStates, n: &str, reference: u128, fuel: usize) -> (r: bool)
        requires
            self.wf(),
        ensures
            r == stale(self.entries(), *fs, n@, reference, fuel as nat),
        decreases fuel, 0nat,
    {
        if fuel == 0 {
            return false;
        }
        match self.index_of(n) {
            None => false,
            Some(i) => {
                let t = self.at(i);
                if !t.is_file {
                    return false;
                }
                if fs.mtime(n) > reference {
                    return true;
                }
                self.any_stale(fs, t, reference, fuel - 1)
            },
        }
    }

    /// Whether some dependency of `t` reports newer within `fuel` levels.
    fn any_stale(&self, fs: &FileStates, t: &Target, reference: u128, fuel: usize) -> (r: bool)
        requires
            self.wf(),
        ensures
            r == exists|j: int| 0 <= j < t.deps().len() && stale(self.entries(), *fs, #[trigger] t.deps()[j], reference, fuel as nat),
        decreases fuel, 1nat,
    {
        let mut j: usize = 0;
        while j < t.dependencies.len()
            invariant
                self.wf(),
                j <= t.dependencies.len(),
                forall|k: int| 0 <= k < j ==> !stale(self.entries(), *fs, #[trigger] t.deps()[k], reference, fuel as nat),
            decreases t.dependencies.len() - j,
        {
            if self.stale_within(fs, t.dependencies[j].as_str(), reference, fuel) {
                assert(t.deps()[j as int] == t.dependencies@[j as int]@);
                return true;
            }
            j = j + 1;
        }
        false
    }
}

impl Target {
    /// Whether this target must be rebuilt relative to `reference`.
    pub fn outdated(&self, reference: u128, cfg: &Config, fs: &FileStates) -> (r: bool)
        requires
            cfg.wf(),
        ensures
            r == outdated_spec(cfg.entries(), *fs, *self, reference),
    {
        if !self.is_file {
            return false;
        }
        if fs.mtime(self.name.as_str()) > reference {
            return true;
        }
        let n = cfg.len();
        cfg.any_stale(fs, self, reference, n)
    }
}

/// Whether `path` leads from its first name, each name a dependency of the one
/// before and every one a file target, to a file modified after `reference`.
pub open spec fn newer_chain(e: Seq<(Seq<char>, Target)>, fs: FileStates, path: Seq<Seq<char>>, reference: u128) -> bool {
    &&& path.len() > 0
    &&& forall|k: int| 0 <= k < path.len() ==> has_key(e, #[trigger] path[k]) && e[key_index(e, path[k])].1.is_file
    &&& forall|k: int| 0 <= k < path.len() - 1 ==> e[key_index(e, #[trigger] path[k])].1.deps().contains(path[k + 1])
    &&& fs.time(path.last()) > reference
}

/// A name reports newer within `fuel` levels exactly when a chain of at most
/// `fuel` file targets leads from it to a file modified after `reference`.
pub proof fn lemma_stale_chain(e: Seq<(Seq<char>, Target)>, fs: FileStates, n: Seq<char>, reference: u128, fuel: nat)
    ensures
        stale(e, fs, n, reference, fuel) <==> exists|path: Seq<Seq<char>>|
            path.len() <= fuel && path[0] == n && #[trigger] newer_chain(e, fs, path, reference),
    decreases fuel,
{
    if fuel == 0 {
        return;
    }
    if stale(e, fs, n, reference, fuel) {
        let t = e[key_index(e, n)].1;
        if fs.time(n) > reference {
            let path = seq![n];
            assert(path.last() == n);
            assert(newer_chain(e, fs, path, reference));
        } else {
            let j = choose|j: int| 0 <= j < t.deps().len() && stale(e, fs, #[trigger] t.deps()[j], reference, (fuel - 1) as nat);
            lemma_stale_chain(e, fs, t.deps()[j], reference, (fuel - 1) as nat);
            let rest = choose|path: Seq<Seq<char>>|
                path.len() <= fuel - 1 && path[0] == t.deps()[j] && #[trigger] newer_chain(e, fs, path, reference);
            let path = seq![n] + rest;
            assert(path.last() == rest.last());
            assert forall|k: int| 0 <= k < path.len() implies has_key(e, #[trigger] path[k]) && e[key_index(e, path[k])].1.is_file by {
                if k > 0 {
                    assert(path[k] == rest[k - 1]);
                }
            }
            assert forall|k: int| 0 <= k < path.len() - 1 implies e[key_index(e, #[trigger] path[k])].1.deps().contains(path[k + 1]) by {
                if k > 0 {
                    assert(path[k] == rest[k - 1]);
                    assert(path[k + 1] == rest[k]);
                } else {
                    assert(path[1] == t.deps()[j]);
                }
            }
            assert(newer_chain(e, fs, path, reference));
        }
    }
    if exists|path: Seq<Seq<char>>| path.len() <= fuel && path[0] == n && #[trigger] newer_chain(e, fs, path, reference) {
        let path = choose|path: Seq<Seq<char>>| path.len() <= fuel && path[0] == n && #[trigger] newer_chain(e, fs, path, reference);
        assert(has_key(e, path[0]));
        let t = e[key_index(e, n)].1;
        if path.len() > 1 {
            let rest = path.drop_first();
            assert(newer_chain(e, fs, rest, reference)) by {
                assert forall|k: int| 0 <= k < rest.len() implies has_key(e, #[trigger] rest[k]) && e[key_index(e, rest[k])].1.is_file by {
                    assert(rest[k] == path[k + 1]);
                }
                assert forall|k: int| 0 <= k < rest.len() - 1 implies e[key_index(e, #[trigger] rest[k])].1.deps().contains(rest[k + 1]) by {
                    assert(rest[k] == path[k + 1]);
                    assert(rest[k + 1] == path[k + 2]);
                }
                assert(rest.last() == path.last());
            }
            lemma_stale_chain(e, fs, rest[0], reference, (fuel - 1) as nat);
            assert(t.deps().contains(path[1]));
            let j = choose|j: int| 0 <= j < t.deps().len() && t.deps()[j] == path[1];
            assert(stale(e, fs, t.deps()[j], reference, (fuel - 1) as nat));
        } else {
            assert(path.last() == n);
        }
    }
}

/// A chain with a repeated name can be cut short at the repeat; so every chain
/// gives one without repeats that starts at the same name.
proof fn lemma_chain_without_repeats(e: Seq<(Seq<char>, Target)>, fs: FileStates, path: Seq<Seq<char>>, reference: u128)
    requires
        newer_chain(e, fs, path, reference),
    ensures
        exists|p: Seq<Seq<char>>| #[trigger] newer_chain(e, fs, p, reference) && p.no_duplicates() && p[0] == path[0],
    decreases path.len(),
{
    if path.no_duplicates() {
        assert(newer_chain(e, fs, path, reference) && path.no_duplicates() && path[0] == path[0]);
    } else {
        let (a, b) = choose|a: int, b: int| 0 <= a < path.len() && 0 <= b < path.len() && a != b && path[a] == path[b];
        let (a, b) = if a < b { (a, b) } else { (b, a) };
        let p = path.take(a + 1) + path.skip(b + 1);
        assert(p.len() == path.len() - (b - a));
        assert forall|k: int| 0 <= k < p.len() implies has_key(e, #[trigger] p[k]) && e[key_index(e, p[k])].1.is_file by {
            if k <= a {
                assert(p[k] == path[k]);
            } else {
                assert(p[k] == path[k + b - a]);
            }
        }
        assert forall|k: int| 0 <= k < p.len() - 1 implies e[key_index(e, #[trigger] p[k])].1.deps().contains(p[k + 1]) by {
            if k < a {
                assert(p[k] == path[k] && p[k + 1] == path[k + 1]);
            } else if k == a {
                assert(p[k] == path[b] && p[k + 1] == path[b + 1]);
            } else {
                assert(p[k] == path[k + b - a] && p[k + 1] == path[k + 1 + b - a]);
            }
        }
        if b == path.len() - 1 {
            assert(p.last() == path[a]);
        } else {
            assert(p.last() == path.last());
        }
        assert(p[0] == path[0]);
        assert(newer_chain(e, fs, p, reference));
        lemma_chain_without_repeats(e, fs, p, reference);
    }
}

/// A chain without repeats has no more names than there are targets.
proof fn lemma_chain_len(e: Seq<(Seq<char>, Target)>, fs: FileStates, path: Seq<Seq<char>>, reference: u128)
    requires
        newer_chain(e, fs, path, reference),
        path.no_duplicates(),
    ensures
        path.len() <= e.len(),
{
    let keys = e.map_values(|x: (Seq<char>, Target)| x.0);
    keys.lemma_cardinality_of_set();
    path.unique_seq_to_set();
    assert forall|x: Seq<char>| path.to_set().contains(x) implies keys.to_set().contains(x) by {
        let k = choose|k: int| 0 <= k < path.len() && path[k] == x;
        assert(has_key(e, path[k]));
        let i = choose|i: int| 0 <= i < e.len() && #[trigger] e[i].0 == x;
        assert(keys[i] == x);
    }
    vstd::set_lib::lemma_len_subset(path.to_set(), keys.to_set());
}

/// Staleness: a file target `out` counts as newer than `reference` exactly when
/// a chain of file targets, each a dependency of the one before, leads from
/// `out` to a file modified after `reference` (a phony target ends a chain).
/// With `reference` the time of `out` itself, this is when `out` is rebuilt.
pub proof fn staleness_law(cfg: Config, fs: FileStates, out: Seq<char>, reference: u128)
    requires
        cfg.wf(),
        cfg.contains(out),
        cfg.get(out).is_file,
    ensures
        outdated_spec(cfg.entries(), fs, cfg.get(out), reference) <==> exists|path: Seq<Seq<char>>|
            path[0] == out && #[trigger] newer_chain(cfg.entries(), fs, path, reference),
{
    let e = cfg.entries();
    let t = cfg.get(out);
    let n = (e.len() + 1) as nat;
    assert(e[key_index(e, out)].0 == out);
    assert(t.name@ == out);
    lemma_stale_chain(e, fs, out, reference, n);
    assert(stale(e, fs, out, reference, n) == outdated_spec(e, fs, t, reference));
    if exists|path: Seq<Seq<char>>| path[0] == out && #[trigger] newer_chain(e, fs, path, reference) {
        let path = choose|path: Seq<Seq<char>>| path[0] == out && #[trigger] newer_chain(e, fs, path, reference);
        lemma_chain_without_repeats(e, fs, path, reference);
        let p = choose|p: Seq<Seq<char>>| #[trigger] newer_chain(e, fs, p, reference) && p.no_duplicates() && p[0] == path[0];
        lemma_chain_len(e, fs, p, reference);
        assert(p.len() <= n);
    }
}

} // verus!

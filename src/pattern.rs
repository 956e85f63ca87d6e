//! Pattern rules: a target named like `*.o` whose first dependency is like
//! `*.c` gives, for a requested `a.o`, a file target `a.o` built from `a.c`.
use crate::files::{outdated, FileStates};
use crate::model::{inserted, deps_closed, entries_named, has_key, key_index, BuildError, Config, Recipe, Target};
use crate::text::{has_prefix, replace_all, replaced, strs};
use vstd::prelude::*;

verus! {

/// Whether the glob `pattern` matches `path`, or `None` where the glob is
/// malformed or does not compile.
pub uninterp spec fn glob_match_of(pattern: Seq<char>, path: Seq<char>) -> Option<bool>;

/// Relies on globset: `Glob::new(pattern)` added alone to a `GlobSetBuilder`,
/// whose `build` compiles it, then `GlobSet::is_match(path)`; `None` where
/// `Glob::new` or `build` returns an error.
#[verifier::external_body]
pub(crate) fn glob_matches(pattern: &str, path: &str) -> (r: Option<bool>)
    ensures
        r == glob_match_of(pattern@, path@),
{
    let g = globset::Glob::new(pattern).ok()?;
    globset::GlobSetBuilder::new().add(g).build().ok().map(|set| set.is_match(path))
}

/// What `Regex::new(pattern)` then `replace(text, rep)` returns, or `None` where
/// the pattern is malformed.
pub uninterp spec fn regex_replace_of(pattern: Seq<char>, text: Seq<char>, rep: Seq<char>) -> Option<Seq<char>>;

/// Relies on regex: `Regex::new(pattern)` and `Regex::replace`, which replaces
/// the leftmost match in `text` by `rep`; `None` where `Regex::new` fails.
#[verifier::external_body]
fn regex_replace(pattern: &str, text: &str, rep: &str) -> (r: Option<String>)
    ensures
        match r {
            Some(x) => regex_replace_of(pattern@, text@, rep@) == Some(x@),
            None => regex_replace_of(pattern@, text@, rep@) is None,
        },
{
    regex::Regex::new(pattern).ok().map(|re| re.replace(text, rep).to_string())
}

/// Whether the entry at `i` is a pattern rule whose glob matches `name`.
pub open spec fn matches_at(e: Seq<(Seq<char>, Target)>, i: int, name: Seq<char>) -> bool {
    e[i].1.is_pattern && glob_match_of(e[i].0, name) == Some(true)
}

/// The dependency that pattern rule `p` derives for `name`: the rule's suffix
/// (its name after `*.`), anchored at the end of `name`, replaced by the suffix
/// of the rule's first dependency (after its first two chars). `None` where the
/// rule has no such dependency, or the suffix does not form a regular expression.
pub open spec fn derived_dependency(p: Target, name: Seq<char>) -> Option<Seq<char>> {
    if !has_prefix(p.name@, "*."@) || p.deps().len() == 0 || p.deps()[0].len() < 2 {
        None
    } else {
        regex_replace_of(
            p.name@.subrange(2, p.name@.len() as int) + "$"@,
            name,
            p.deps()[0].subrange(2, p.deps()[0].len() as int),
        )
    }
}

/// Computes `derived_dependency`.
pub fn derive_dependency(p: &Target, name: &str) -> (r: Option<String>)
    ensures
        match r {
            Some(d) => derived_dependency(*p, name@) == Some(d@),
            None => derived_dependency(*p, name@) is None,
        },
{
    proof {
        reveal_strlit("*.");
    }
    if !crate::text::starts_with(p.name.as_str(), "*.") || p.dependencies.len() == 0 {
        return None;
    }
    let first = p.dependencies[0].as_str();
    assert(first@ == p.deps()[0]);
    let n = first.unicode_len();
    if n < 2 {
        return None;
    }
    let ext = first.substring_char(2, n);
    let len = p.name.as_str().unicode_len();
    let suffix = p.name.as_str().substring_char(2, len).to_string();
    let re = suffix.concat("$");
    regex_replace(re.as_str(), name, ext)
}

/// Whether `out` is `r` with `{0}` replaced by `dependency` and then `{target}`
/// by `target` in every command.
pub open spec fn is_fixed(r: Recipe, target: Seq<char>, dependency: Seq<char>, out: Recipe) -> bool {
    &&& out.shell == r.shell
    &&& out.commands@.len() == r.commands@.len()
    &&& forall|k: int| 0 <= k < r.commands@.len()
        ==> #[trigger] out.commands@[k]@ == fix_command(r.commands@[k]@, target, dependency)
}

/// A command with `{0}` replaced by `dependency` and then `{target}` by `target`.
pub open spec fn fix_command(c: Seq<char>, target: Seq<char>, dependency: Seq<char>) -> Seq<char> {
    replaced(replaced(c, "{0}"@, dependency), "{target}"@, target)
}

impl Recipe {
    /// This recipe for a target derived from a pattern rule: `{0}` becomes the
    /// derived dependency and `{target}` the target's name.
    pub fn fix(&self, target: &str, dependency: &str) -> (r: Recipe)
        ensures
            is_fixed(*self, target@, dependency@, r),
    {
        proof {
            reveal_strlit("{0}");
            reveal_strlit("{target}");
        }
        let mut commands: Vec<String> = Vec::new();
        let mut i: usize = 0;
        while i < self.commands.len()
            invariant
                i <= self.commands.len(),
                commands@.len() == i,
                forall|k: int| 0 <= k < i
                    ==> #[trigger] commands@[k]@ == fix_command(self.commands@[k]@, target@, dependency@),
            decreases self.commands.len() - i,
        {
            proof {
                reveal_strlit("{0}");
                reveal_strlit("{target}");
            }
            let a = replace_all(self.commands[i].as_str(), "{0}", dependency);
            let b = replace_all(a.as_str(), "{target}", target);
            commands.push(b);
            i = i + 1;
        }
        Recipe { shell: self.shell.clone(), commands }
    }
}

/// Whether `t` is what pattern rule `p` gives for `name` with derived
/// dependency `dep`: a file target that depends on `dep` alone, with the rule's
/// recipes fixed for `name` and `dep`.
pub open spec fn instance_of(p: Target, name: Seq<char>, dep: Seq<char>, t: Target) -> bool {
    &&& t.name@ == name
    &&& t.is_file
    &&& !t.is_pattern
    &&& t.deps() == seq![dep]
    &&& t.recipes@.len() == p.recipes@.len()
    &&& forall|k: int| 0 <= k < p.recipes@.len() ==> is_fixed(p.recipes@[k], name, dep, #[trigger] t.recipes@[k])
}

/// The target that pattern rule `p` gives for `name` with derived dependency `dep`.
pub fn instantiate(p: &Target, name: &str, dep: &str) -> (r: Target)
    ensures
        instance_of(*p, name@, dep@, r),
{
    let mut recipes: Vec<Recipe> = Vec::new();
    let mut i: usize = 0;
    while i < p.recipes.len()
        invariant
            i <= p.recipes.len(),
            recipes@.len() == i,
            forall|k: int| 0 <= k < i ==> is_fixed(p.recipes@[k], name@, dep@, #[trigger] recipes@[k]),
        decreases p.recipes.len() - i,
    {
        recipes.push(p.recipes[i].fix(name, dep));
        i = i + 1;
    }
    let deps = vec![dep.to_string()];
    proof {
        assert(strs(deps@) =~= seq![dep@]);
    }
    Target::new(name, true, false, &deps, recipes)
}

/// How a requested name was resolved.
#[derive(Clone, Copy, Debug, PartialEq, Eq)]
pub enum Resolved {
    /// A target of that name was declared.
    Declared,
    /// A pattern rule gave a target of that name, which was added.
    Derived,
    /// A pattern rule matches, and the file is present and not older than its
    /// derived dependency: nothing needs to be built.
    Fresh,
}

/// The first pattern rule, in declared order, that matches `name`.
pub open spec fn first_match(e: Seq<(Seq<char>, Target)>, name: Seq<char>, i: int) -> bool {
    0 <= i < e.len() && matches_at(e, i, name) && forall|j: int| 0 <= j < i ==> !matches_at(e, j, name)
}

/// Whether pattern rule `p` must build `name`: it derives a dependency, and the
/// build is forced, the file is absent, or the dependency is newer.
pub open spec fn must_build(p: Target, name: Seq<char>, force: bool, fs: FileStates) -> bool {
    &&& derived_dependency(p, name) is Some
    &&& (force || !fs.present(name) || fs.time(derived_dependency(p, name)->0) > fs.time(name))
}

/// The entries after deriving target `name` with dependency `d` from entries
/// `e`: a file target for `d` goes last where none is named so, then the new
/// target is inserted under `name`; the earlier entries keep their places and
/// values.
pub open spec fn derived_entries(e: Seq<(Seq<char>, Target)>, name: Seq<char>, d: Seq<char>, after: Config) -> bool {
    &&& e.len() <= after.entries().len()
    &&& after.entries().take(e.len() as int) == e
    &&& exists|mid: Seq<(Seq<char>, Target)>|
        {
            &&& (has_key(e, d) ==> mid == e)
            &&& (!has_key(e, d) ==> mid.len() == e.len() + 1 && mid.take(e.len() as int) == e
                && mid.last().0 == d && crate::markdown::derived_target(mid.last().1)
                && mid.last().1.name@ == d)
            &&& #[trigger] inserted(mid, name, after.get(name)) == after.entries()
        }
}

/// What resolving `name` in `before` gives: `after` and the result `r`.
pub open spec fn resolved(
    before: Config,
    after: Config,
    name: Seq<char>,
    force: bool,
    fs: FileStates,
    r: Result<Resolved, BuildError>,
) -> bool {
    let e = before.entries();
    if before.contains(name) {
        r == Ok::<Resolved, BuildError>(Resolved::Declared) && after.entries() == e
    } else {
        match r {
            Ok(Resolved::Declared) => false,
            Ok(Resolved::Derived) => exists|i: int|
                #![trigger e[i]]
                first_match(e, name, i) && must_build(e[i].1, name, force, fs) && after.contains(name)
                    && instance_of(e[i].1, name, derived_dependency(e[i].1, name)->0, after.get(name))
                    && derived_entries(e, name, derived_dependency(e[i].1, name)->0, after),
            Ok(Resolved::Fresh) => after.entries() == e && exists|i: int|
                #![trigger e[i]]
                first_match(e, name, i) && derived_dependency(e[i].1, name) is Some
                    && !must_build(e[i].1, name, force, fs),
            Err(x) => x is UnknownTarget && x->UnknownTarget_0@ == name && after.entries() == e
                && forall|i: int| first_match(e, name, i) ==> derived_dependency(#[trigger] e[i].1, name) is None,
        }
    }
}

impl Config {
    /// The position of the first pattern rule whose glob matches `name`.
    pub fn find_pattern(&self, name: &str) -> (r: Option<usize>)
        requires
            entries_named(self.entries()),
        ensures
            match r {
                Some(i) => first_match(self.entries(), name@, i as int),
                None => forall|j: int| 0 <= j < self.entries().len() ==> !matches_at(self.entries(), j, name@),
            },
    {
        let n = self.len();
        let mut i: usize = 0;
        while i < n
            invariant
                n == self.entries().len(),
                i <= n,
                entries_named(self.entries()),
                forall|j: int| 0 <= j < i ==> !matches_at(self.entries(), j, name@),
            decreases n - i,
        {
            let t = self.at(i);
            if t.is_pattern {
                if let Some(true) = glob_matches(t.name.as_str(), name) {
                    return Some(i);
                }
            }
            i = i + 1;
        }
        None
    }

    /// Resolves a requested name: a declared target as it is; else the first
    /// pattern rule that matches gives a target, added where it must be built
    /// (forced, file absent, or derived dependency newer), together with a file
    /// target for its dependency if none is declared.
    pub fn resolve(&mut self, name: &str, force: bool, fs: &FileStates) -> (r: Result<Resolved, BuildError>)
        requires
            old(self).wf(),
        ensures
            final(self).wf(),
            forall|k: Seq<char>| old(self).contains(k) ==> final(self).contains(k),
            resolved(*old(self), *final(self), name@, force, *fs, r),
    {
        if self.contains_key(name) {
            return Ok(Resolved::Declared);
        }
        let i = match self.find_pattern(name) {
            Some(i) => i,
            None => {
                proof {
                    assert forall|i: int| first_match(self.entries(), name@, i)
                        implies derived_dependency(#[trigger] self.entries()[i].1, name@) is None by {
                        assert(matches_at(self.entries(), i, name@));
                    }
                }
                return Err(BuildError::UnknownTarget(name.to_string()));
            },
        };
        let ghost e0 = self.entries();
        let dep = match derive_dependency(self.at(i), name) {
            Some(d) => d,
            None => {
                proof {
                    assert forall|k: int| first_match(e0, name@, k)
                        implies derived_dependency(#[trigger] e0[k].1, name@) is None by {
                        if k < i {
                            assert(!matches_at(e0, k, name@));
                        } else if k > i {
                            assert(!matches_at(e0, i as int, name@));
                        }
                    }
                }
                return Err(BuildError::UnknownTarget(name.to_string()));
            },
        };
        if force || !fs.is_present(name) || outdated(fs, dep.as_str(), name) {
            let t = instantiate(self.at(i), name, dep.as_str());
            let ghost mut mid = e0;
            if !self.contains_key(dep.as_str()) {
                let d = Target::new(dep.as_str(), true, false, &Vec::new(), Vec::new());
                let ghost before = self.entries();
                self.insert_target(d);
                proof {
                    mid = self.entries();
                    assert(mid.take(e0.len() as int) =~= e0);
                }
                proof {
                    assert(self.entries() == before.push((dep@, d)));
                    assert(self.entries()[before.len() as int].1.deps().len() == 0);
                    assert forall|a: int, b: int| 0 <= a < self.entries().len() && 0 <= b < self.entries()[a].1.deps().len()
                        implies has_key(self.entries(), #[trigger] self.entries()[a].1.deps()[b]) by {
                        if a < before.len() {
                            assert(self.entries()[a] == before[a]);
                            let k = before[a].1.deps()[b];
                            assert(has_key(before, k));
                            let x = choose|x: int| 0 <= x < before.len() && #[trigger] before[x].0 == k;
                            assert(self.entries()[x] == before[x]);
                        }
                    }
                }
            }
            assert(self.contains(dep@));
            assert(deps_closed(self.entries()));
            let ghost before = self.entries();
            self.insert_target(t);
            proof {
                let e = self.entries();
                assert forall|a: int, b: int| 0 <= a < e.len() && 0 <= b < e[a].1.deps().len()
                    implies has_key(e, #[trigger] e[a].1.deps()[b]) by {
                    let k = e[a].1.deps()[b];
                    let ki = key_index(e, name@);
                    if e[a].0 == name@ {
                        assert(e[ki].0 == name@);
                        assert(a == ki);
                        assert(k == dep@);
                        assert(has_key(before, dep@));
                    } else {
                        if has_key(before, name@) {
                            assert(e[a] == before[a]);
                        } else {
                            assert(e[before.len() as int].0 == name@);
                            assert(a < before.len());
                            assert(e[a] == before[a]);
                        }
                        assert(before[a].1.deps()[b] == k);
                        assert(has_key(before, k));
                    }
                    let x = choose|x: int| 0 <= x < before.len() && #[trigger] before[x].0 == k;
                    assert(e[x].0 == k);
                }
                assert(e0[i as int].1.is_pattern);
                assert(first_match(e0, name@, i as int));
                assert(e == inserted(mid, name@, self.get(name@)));
                assert(!has_key(e0, name@));
                assert(e.take(e0.len() as int) =~= e0) by {
                    if has_key(mid, name@) {
                        let ki = key_index(mid, name@);
                        assert(mid[ki].0 == name@);
                        assert(ki >= e0.len()) by {
                            if ki < e0.len() {
                                assert(mid.take(e0.len() as int)[ki] == mid[ki]);
                            }
                        }
                        assert forall|x: int| 0 <= x < e0.len() implies e[x] == e0[x] by {
                            assert(mid.take(e0.len() as int)[x] == mid[x]);
                        }
                    } else {
                        assert forall|x: int| 0 <= x < e0.len() implies e[x] == e0[x] by {
                            assert(mid.take(e0.len() as int)[x] == mid[x]);
                        }
                    }
                }
                assert(derived_entries(e0, name@, dep@, *self));
            }
            Ok(Resolved::Derived)
        } else {
            proof {
                assert(first_match(e0, name@, i as int));
            }
            Ok(Resolved::Fresh)
        }
    }
}

/// An unknown name: a name that is not a target and that no pattern rule
/// matches resolves to an error with status 5, and the configuration is left as
/// it was.
pub proof fn unknown_target_law(before: Config, after: Config, name: Seq<char>, force: bool, fs: FileStates, r: Result<Resolved, BuildError>)
    requires
        !before.contains(name),
        forall|i: int| 0 <= i < before.entries().len() ==> !matches_at(before.entries(), i, name),
        resolved(before, after, name, force, fs, r),
    ensures
        r is Err && r->Err_0 is UnknownTarget && crate::execute::exit_code_of(r->Err_0) == 5,
        after.entries() == before.entries(),
{
}

/// Whether `n` can be resolved: a target is named so, or the first pattern rule
/// that matches it derives a dependency for it.
pub open spec fn resolvable(e: Seq<(Seq<char>, Target)>, n: Seq<char>) -> bool {
    has_key(e, n) || exists|i: int| first_match(e, n, i) && derived_dependency(#[trigger] e[i].1, n) is Some
}

/// What checking the requested names gives: with none requested, the first
/// declared target (an error where there is none); else the names themselves
/// where each can be resolved, or an error naming the first that cannot.
pub open spec fn requests_checked(e: Seq<(Seq<char>, Target)>, names: Seq<Seq<char>>, r: Result<Vec<String>, BuildError>) -> bool {
    if names.len() == 0 {
        if e.len() == 0 {
            r is Err && r->Err_0 is UnknownTarget && r->Err_0->UnknownTarget_0@.len() == 0
        } else {
            r is Ok && strs(r->Ok_0@) == seq![e[0].0]
        }
    } else if forall|k: int| 0 <= k < names.len() ==> resolvable(e, #[trigger] names[k]) {
        r is Ok && strs(r->Ok_0@) == names
    } else {
        r is Err && r->Err_0 is UnknownTarget && exists|k: int|
            0 <= k < names.len() && #[trigger] names[k] == r->Err_0->UnknownTarget_0@ && !resolvable(e, names[k])
                && forall|l: int| 0 <= l < k ==> resolvable(e, #[trigger] names[l])
    }
}

impl Config {
    /// Whether the first pattern rule that matches `name` derives a dependency.
    fn pattern_resolves(&self, name: &str) -> (r: bool)
        requires
            entries_named(self.entries()),
        ensures
            r == exists|i: int| first_match(self.entries(), name@, i) && derived_dependency(#[trigger] self.entries()[i].1, name@) is Some,
    {
        let ghost e = self.entries();
        match self.find_pattern(name) {
            None => {
                proof {
                    assert forall|i: int| !(first_match(e, name@, i) && derived_dependency(#[trigger] e[i].1, name@) is Some) by {
                        if first_match(e, name@, i) {
                            assert(matches_at(e, i, name@));
                        }
                    }
                }
                false
            },
            Some(i) => {
                let d = derive_dependency(self.at(i), name);
                proof {
                    assert forall|k: int| first_match(e, name@, k) implies k == i by {
                        if k < i {
                            assert(!matches_at(e, k, name@));
                        } else if k > i {
                            assert(!matches_at(e, i as int, name@));
                        }
                    }
                }
                d.is_some()
            },
        }
    }

    /// Checks the requested names before anything runs: with none, the first
    /// declared target is requested; every name must be a target or be derived
    /// by a pattern rule.
    pub fn requested_targets(&self, names: &Vec<String>) -> (r: Result<Vec<String>, BuildError>)
        requires
            self.wf(),
        ensures
            requests_checked(self.entries(), strs(names@), r),
    {
        let ghost e = self.entries();
        if names.len() == 0 {
            if self.len() == 0 {
                return Err(BuildError::UnknownTarget(String::new()));
            }
            let first = self.at(0).name.clone();
            let r = vec![first];
            proof {
                assert(strs(r@) =~= seq![e[0].0]);
            }
            return Ok(r);
        }
        let mut k: usize = 0;
        while k < names.len()
            invariant
                self.wf(),
                e == self.entries(),
                k <= names.len(),
                forall|l: int| 0 <= l < k ==> resolvable(e, #[trigger] strs(names@)[l]),
            decreases names.len() - k,
        {
            let n = names[k].as_str();
            assert(n@ == strs(names@)[k as int]);
            if !self.contains_key(n) && !self.pattern_resolves(n) {
                let x = BuildError::UnknownTarget(n.to_string());
                proof {
                    assert(!resolvable(e, strs(names@)[k as int]));
                }
                return Err(x);
            }
            k = k + 1;
        }
        Ok(crate::model::clone_strings(names))
    }
}

/// An unknown request: where some requested name can be neither found nor
/// derived, the check made before anything runs fails with status 5.
pub proof fn unknown_request_law(e: Seq<(Seq<char>, Target)>, names: Seq<Seq<char>>, k: int, r: Result<Vec<String>, BuildError>)
    requires
        0 <= k < names.len(),
        !resolvable(e, names[k]),
        requests_checked(e, names, r),
    ensures
        r is Err && r->Err_0 is UnknownTarget && crate::execute::exit_code_of(r->Err_0) == 5,
{
}

} // verus!

//! What to do for each scheduled target, and how its recipes run.
use crate::files::{outdated, FileStates};
use crate::model::{entries_named, key_index, BuildError, Config, Recipe, Target};
use crate::pattern::{derive_dependency, derived_dependency, instance_of, instantiate, must_build};
use crate::stale::outdated_spec;
use crate::text::{join_lines, joined, strs};
use vstd::prelude::*;

verus! {

/// What processing a scheduled target comes to.
#[derive(Debug)]
pub enum Step {
    /// Run the recipes of the target at this position.
    Run(usize),
    /// Run the recipes of this target, which a pattern rule gives.
    RunDerived(Target),
    /// A file target with recipes that is present and fresh.
    UpToDate,
    /// A present file with nothing to build it.
    Nothing,
}

/// Whether the entry at `i` is a pattern rule that matches `name`, derives a
/// dependency for it, and must build it.
pub open spec fn applies_at(e: Seq<(Seq<char>, Target)>, i: int, name: Seq<char>, force: bool, fs: FileStates) -> bool {
    crate::pattern::matches_at(e, i, name) && must_build(e[i].1, name, force, fs)
}

/// What processing the target named `name` gives.
pub open spec fn processed_as(e: Seq<(Seq<char>, Target)>, name: Seq<char>, force: bool, fs: FileStates, r: Result<Step, BuildError>) -> bool {
    let k = key_index(e, name);
    let t = e[k].1;
    if !crate::model::has_key(e, name) {
        r matches Err(x) && x is UnknownTarget && x->UnknownTarget_0@ == name
    } else if !t.is_file {
        r == Ok::<Step, BuildError>(Step::Run(k as usize))
    } else if t.recipes@.len() > 0 {
        if force || !fs.present(name) || outdated_spec(e, fs, t, fs.time(name)) {
            r == Ok::<Step, BuildError>(Step::Run(k as usize))
        } else {
            r == Ok::<Step, BuildError>(Step::UpToDate)
        }
    } else if exists|i: int| 0 <= i < e.len() && applies_at(e, i, name, force, fs) {
        r matches Ok(Step::RunDerived(d)) && exists|i: int|
            #![trigger e[i]]
            0 <= i < e.len() && applies_at(e, i, name, force, fs)
                && (forall|j: int| 0 <= j < i ==> !applies_at(e, j, name, force, fs))
                && instance_of(e[i].1, name, derived_dependency(e[i].1, name)->0, d)
    } else if !fs.present(name) {
        r matches Err(x) && x is MissingRequiredFile && x->MissingRequiredFile_0@ == name
    } else {
        r == Ok::<Step, BuildError>(Step::Nothing)
    }
}

/// Decides what processing the target named `name` comes to: a phony target
/// runs; a file target with recipes runs where forced, absent or outdated; a
/// file with no recipes is built by the first pattern rule that must build it,
/// and otherwise must be present.
#[verifier::loop_isolation(false)]
pub fn process_target(name: &str, cfg: &Config, force: bool, fs: &FileStates) -> (r: Result<Step, BuildError>)
    requires
        cfg.wf(),
    ensures
        processed_as(cfg.entries(), name@, force, *fs, r),
{
    let ghost e = cfg.entries();
    let k = match cfg.index_of(name) {
        Some(k) => k,
        None => {
            return Err(BuildError::UnknownTarget(name.to_string()));
        },
    };
    let t = cfg.at(k);
    if !t.is_file {
        return Ok(Step::Run(k));
    }
    if t.recipes.len() > 0 {
        if force || !fs.is_present(name) || t.outdated(fs.mtime(name), cfg, fs) {
            return Ok(Step::Run(k));
        }
        return Ok(Step::UpToDate);
    }
    let n = cfg.len();
    let mut i: usize = 0;
    while i < n
        invariant
            n == e.len(),
            e == cfg.entries(),
            cfg.wf(),
            i <= n,
            forall|j: int| 0 <= j < i ==> !applies_at(e, j, name@, force, *fs),
        decreases n - i,
    {
        let p = cfg.at(i);
        if p.is_pattern {
            proof {
                assert(p.name@ == e[i as int].0);
            }
            if let Some(true) = crate::pattern::glob_matches(p.name.as_str(), name) {
                if let Some(dep) = derive_dependency(p, name) {
                    if force || !fs.is_present(name) || outdated(fs, dep.as_str(), name) {
                        let d = instantiate(p, name, dep.as_str());
                        proof {
                            assert(*p == e[i as int].1);
                            assert(applies_at(e, i as int, name@, force, *fs));
                            assert(derived_dependency(e[i as int].1, name@)->0 == dep@);
                            assert(instance_of(e[i as int].1, name@, derived_dependency(e[i as int].1, name@)->0, d));
                        }
                        return Ok(Step::RunDerived(d));
                    }
                }
            }
        }
        i = i + 1;
    }
    if !fs.is_present(name) {
        return Err(BuildError::MissingRequiredFile(name.to_string()));
    }
    Ok(Step::Nothing)
}

/// One process to start: a command line, and what it reads on its standard input.
#[derive(Clone, Debug)]
pub struct Invocation {
    pub command: String,
    pub stdin: Option<String>,
}

/// The interpreter that runs a whole plain block in script mode.
pub open spec fn script_shell(verbose: u8) -> Seq<char> {
    if verbose >= 1 {
        "bash -xeo pipefail"@
    } else {
        "bash -eo pipefail"@
    }
}

/// The processes that recipe `r` starts: its interpreter fed its script; in
/// script mode, `bash` fed the commands joined; else each command on its own.
pub open spec fn runs_of(r: Recipe, verbose: u8, script_mode: bool, out: Seq<Invocation>) -> bool {
    match r.shell {
        Some(sh) => out.len() == 1 && out[0].command@ == sh@ && (out[0].stdin is Some && out[0].stdin->0@ == joined(strs(r.commands@))),
        None => if script_mode {
            out.len() == 1 && out[0].command@ == script_shell(verbose) && (out[0].stdin is Some && out[0].stdin->0@ == joined(strs(r.commands@)))
        } else {
            out.len() == r.commands@.len() && forall|k: int| 0 <= k < out.len()
                ==> (#[trigger] out[k]).command@ == r.commands@[k]@ && out[k].stdin is None
        },
    }
}

impl Recipe {
    /// The processes this recipe starts, in order.
    pub fn run(&self, verbose: u8, script_mode: bool) -> (r: Vec<Invocation>)
        ensures
            runs_of(*self, verbose, script_mode, r@),
    {
        match &self.shell {
            Some(sh) => {
                vec![Invocation { command: sh.clone(), stdin: Some(join_lines(&self.commands)) }]
            },
            None => {
                if script_mode {
                    let command = if verbose >= 1 {
                        "bash -xeo pipefail".to_string()
                    } else {
                        "bash -eo pipefail".to_string()
                    };
                    vec![Invocation { command, stdin: Some(join_lines(&self.commands)) }]
                } else {
                    let mut out: Vec<Invocation> = Vec::new();
                    let mut i: usize = 0;
                    while i < self.commands.len()
                        invariant
                            i <= self.commands.len(),
                            out@.len() == i,
                            forall|k: int| 0 <= k < i
                                ==> (#[trigger] out@[k]).command@ == self.commands@[k]@ && out@[k].stdin is None,
                        decreases self.commands.len() - i,
                    {
                        out.push(Invocation { command: self.commands[i].clone(), stdin: None });
                        i = i + 1;
                    }
                    out
                }
            },
        }
    }
}

/// The status a finished process stops the build with, or `None` where the
/// build goes on: a status outside `allowed` stops it with that status; a
/// process with no status (not started, or killed) stops it with 1, except in
/// a dry run, where nothing was started.
pub open spec fn failure_of(code: Option<i32>, allowed: Seq<i32>, dry_run: bool) -> Option<i32> {
    match code {
        Some(c) => if allowed.contains(c) {
            None
        } else {
            Some(c)
        },
        None => if dry_run {
            None
        } else {
            Some(1)
        },
    }
}

/// Whether a finished process stops the build, and with which status.
pub fn exit_if_failed(code: Option<i32>, allowed: &Vec<i32>, dry_run: bool) -> (r: Option<i32>)
    ensures
        r == failure_of(code, allowed@, dry_run),
{
    match code {
        Some(c) => {
            let mut i: usize = 0;
            while i < allowed.len()
                invariant
                    code == Some(c),
                    i <= allowed.len(),
                    forall|k: int| 0 <= k < i ==> allowed@[k] != c,
                decreases allowed.len() - i,
            {
                if allowed[i] == c {
                    assert(allowed@[i as int] == c);
                    return None;
                }
                i = i + 1;
            }
            Some(c)
        },
        None => {
            if dry_run {
                None
            } else {
                Some(1)
            }
        },
    }
}

/// The status a build stopped by `e` exits with.
pub open spec fn exit_code_of(e: BuildError) -> i32 {
    match e {
        BuildError::ConfigSourceMissing(_) => 1i32,
        BuildError::ConfigSourceUnreadable(_) => 2i32,
        BuildError::MissingRequiredFile(_) => 3i32,
        BuildError::RecipeFailure(c) => c,
        BuildError::UnknownTarget(_) => 5i32,
    }
}

impl BuildError {
    /// The status the build process exits with.
    pub fn exit_code(&self) -> (r: i32)
        ensures
            r == exit_code_of(*self),
    {
        match self {
            BuildError::ConfigSourceMissing(_) => 1,
            BuildError::ConfigSourceUnreadable(_) => 2,
            BuildError::MissingRequiredFile(_) => 3,
            BuildError::RecipeFailure(c) => *c,
            BuildError::UnknownTarget(_) => 5,
        }
    }
}

/// Freshness: when nothing is forced, a present file target with recipes that
/// is not outdated relative to its own time processes as up to date, and the
/// schedule does not descend into its dependencies; so a second build with
/// nothing changed runs none of its recipes.
pub proof fn freshness_law(cfg: Config, fs: FileStates, name: Seq<char>)
    requires
        cfg.wf(),
        cfg.contains(name),
        cfg.get(name).is_file,
        cfg.get(name).recipes@.len() > 0,
        fs.present(name),
        !outdated_spec(cfg.entries(), fs, cfg.get(name), fs.time(name)),
    ensures
        forall|r: Result<Step, BuildError>| processed_as(cfg.entries(), name, false, fs, r)
            ==> r == Ok::<Step, BuildError>(Step::UpToDate),
        !crate::schedule::expands(cfg.entries(), fs, cfg.get(name), false),
{
    let e = cfg.entries();
    assert(e[key_index(e, name)].0 == name);
}

/// A missing file: a file target with no recipes that is absent, and that no
/// pattern rule must build, stops the build with status 3 and runs nothing.
pub proof fn missing_file_law(cfg: Config, fs: FileStates, name: Seq<char>, force: bool)
    requires
        cfg.wf(),
        cfg.contains(name),
        cfg.get(name).is_file,
        cfg.get(name).recipes@.len() == 0,
        !fs.present(name),
        forall|i: int| 0 <= i < cfg.entries().len() ==> !applies_at(cfg.entries(), i, name, force, fs),
    ensures
        forall|r: Result<Step, BuildError>| #[trigger] processed_as(cfg.entries(), name, force, fs, r)
            ==> (r is Err && r->Err_0 is MissingRequiredFile && exit_code_of(r->Err_0) == 3),
{
}

/// A dry run: no process starts, so none reports a status, and no recipe stops
/// the build.
pub proof fn dry_run_law(allowed: Seq<i32>)
    ensures
        failure_of(None, allowed, true) is None,
{
}

/// A failing command: a status outside the allowed ones stops the build, which
/// exits with that status.
pub proof fn failure_law(c: i32, allowed: Seq<i32>, dry_run: bool)
    requires
        !allowed.contains(c),
    ensures
        failure_of(Some(c), allowed, dry_run) == Some(c),
        exit_code_of(BuildError::RecipeFailure(c)) == c,
{
}

} // verus!

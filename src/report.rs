//! The text the build shows: headings, list items and markers. Styling and
//! writing it out is the caller's part.
use crate::execute::{runs_of, Invocation};
use crate::model::{has_key, key_index, Config, Target};
use vstd::prelude::*;

verus! {

/// `n` spaces.
pub open spec fn spaces(n: nat) -> Seq<char> {
    Seq::new(n, |i: int| ' ')
}

/// The heading of a file target: `# `name``, then a blank line.
pub fn print_file_target(name: &str) -> (r: String)
    ensures
        r@ == "# `"@ + name@ + "`\n\n"@,
{
    let r = "# `".to_string();
    let r = r.concat(name);
    r.concat("`\n\n")
}

/// The heading of a phony target: `# name`, then a blank line.
pub fn print_target(name: &str) -> (r: String)
    ensures
        r@ == "# "@ + name@ + "\n\n"@,
{
    let r = "# ".to_string();
    let r = r.concat(name);
    r.concat("\n\n")
}

/// Four spaces for each level of nesting.
pub fn print_indent(level: usize) -> (r: String)
    ensures
        r@ == spaces(4 * level as nat),
{
    let mut r = String::new();
    let mut i: usize = 0;
    proof {
        reveal_strlit("    ");
        assert(r@ =~= spaces(0));
    }
    while i < level
        invariant
            i <= level,
            r@ == spaces(4 * i as nat),
            "    "@ == seq![' ', ' ', ' ', ' '],
        decreases level - i,
    {
        r.append("    ");
        assert(r@ =~= spaces(4 * (i + 1) as nat));
        i = i + 1;
    }
    r
}

/// The bullet of a list item at `level`: its indent, then `* `.
pub fn print_bullet(level: usize) -> (r: String)
    ensures
        r@ == spaces(4 * level as nat) + "* "@,
{
    print_indent(level).concat("* ")
}

/// A list item for a file target: the bullet, and the name in backticks with
/// a line feed.
pub fn print_list_file_target(name: &str, level: usize) -> (r: (String, String))
    ensures
        r.0@ == spaces(4 * level as nat) + "* "@,
        r.1@ == "`"@ + name@ + "`\n"@,
{
    let item = "`".to_string().concat(name).concat("`\n");
    (print_bullet(level), item)
}

/// A list item for a phony target: the bullet, and the name with a line feed.
pub fn print_list_target(name: &str, level: usize) -> (r: (String, String))
    ensures
        r.0@ == spaces(4 * level as nat) + "* "@,
        r.1@ == name@ + "\n"@,
{
    let item = name.to_string().concat("\n");
    (print_bullet(level), item)
}

/// The note for a file target that needs no work.
pub fn print_up_to_date() -> (r: String)
    ensures
        r@ == "*Up to date*\n"@,
{
    "*Up to date*\n".to_string()
}

/// The marker that opens a fenced block.
pub fn print_fence() -> (r: String)
    ensures
        r@ == "```"@,
{
    "```".to_string()
}

/// The marker that closes a fenced block, and a blank line.
pub fn print_end_fence() -> (r: String)
    ensures
        r@ == "```\n\n"@,
{
    "```\n\n".to_string()
}

impl Target {
    /// The heading shown before the target's recipes run.
    pub fn print_heading(&self) -> (r: String)
        ensures
            self.is_file ==> r@ == "# `"@ + self.name@ + "`\n\n"@,
            !self.is_file ==> r@ == "# "@ + self.name@ + "\n\n"@,
    {
        if self.is_file {
            print_file_target(self.name.as_str())
        } else {
            print_target(self.name.as_str())
        }
    }

    /// Whether the heading is shown when the target runs: not when quiet; else
    /// where there are recipes, or at verbosity two and up.
    pub fn shows_heading(&self, verbose: u8, quiet: bool) -> (r: bool)
        ensures
            r == (!quiet && (self.recipes@.len() > 0 || verbose >= 2)),
    {
        !quiet && (self.recipes.len() > 0 || verbose >= 2)
    }

    /// The processes that running this target starts: those of each recipe, in order.
    pub fn run(&self, verbose: u8, script_mode: bool) -> (r: Vec<Vec<Invocation>>)
        ensures
            r@.len() == self.recipes@.len(),
            forall|k: int| 0 <= k < r@.len() ==> runs_of(self.recipes@[k], verbose, script_mode, (#[trigger] r@[k])@),
    {
        let mut r: Vec<Vec<Invocation>> = Vec::new();
        let mut i: usize = 0;
        while i < self.recipes.len()
            invariant
                i <= self.recipes.len(),
                r@.len() == i,
                forall|k: int| 0 <= k < i ==> runs_of(self.recipes@[k], verbose, script_mode, (#[trigger] r@[k])@),
            decreases self.recipes.len() - i,
        {
            r.push(self.recipes[i].run(verbose, script_mode));
            i = i + 1;
        }
        r
    }
}

/// Whether the plain listing shows `t`: a phony target, or one that depends on
/// something or has recipes.
pub open spec fn listed(t: Target) -> bool {
    !t.is_file || t.deps().len() > 0 || t.recipes@.len() > 0
}

impl Config {
    /// The positions of the targets the plain listing shows, in order.
    pub fn list_targets(&self) -> (r: Vec<usize>)
        ensures
            forall|k: int| 0 <= k < r@.len() ==> (#[trigger] r@[k]) < self.entries().len() && listed(self.entries()[r@[k] as int].1),
            forall|k: int, l: int| 0 <= k < l < r@.len() ==> r@[k] < r@[l],
            forall|x: int| 0 <= x < self.entries().len() && listed(self.entries()[x].1) ==> r@.contains(x as usize),
    {
        let n = self.len();
        let mut r: Vec<usize> = Vec::new();
        let mut i: usize = 0;
        while i < n
            invariant
                n == self.entries().len(),
                i <= n,
                forall|k: int| 0 <= k < r@.len() ==> (#[trigger] r@[k]) < i && listed(self.entries()[r@[k] as int].1),
                forall|k: int, l: int| 0 <= k < l < r@.len() ==> r@[k] < r@[l],
                forall|x: int| 0 <= x < i && listed(self.entries()[x].1) ==> r@.contains(x as usize),
            decreases n - i,
        {
            let t = self.at(i);
            let ghost before = r@;
            if !t.is_file || t.dependencies.len() > 0 || t.recipes.len() > 0 {
                r.push(i);
                assert(r@[r@.len() - 1] == i);
            }
            proof {
                assert forall|x: int| 0 <= x < i + 1 && listed(self.entries()[x].1) implies r@.contains(x as usize) by {
                    if x < i {
                        let y = choose|y: int| 0 <= y < before.len() && before[y] == x as usize;
                        assert(r@[y] == x as usize);
                    } else {
                        assert(r@[r@.len() - 1] == i);
                    }
                }
            }
            i = i + 1;
        }
        r
    }

    /// The dependency tree under `name`, as list items of (position, level) in
    /// depth-first order, each target followed by its dependencies one level
    /// deeper; `depth` bounds how many levels are shown.
    pub fn print_list_file_targets(&self, name: &str, level: usize, depth: usize) -> (r: Vec<(usize, usize)>)
        requires
            self.wf(),
            level + depth < usize::MAX,
        ensures
            r@ == tree(self.entries(), name@, level, depth),
        decreases depth,
    {
        let mut r: Vec<(usize, usize)> = Vec::new();
        if depth == 0 {
            return r;
        }
        let i = match self.index_of(name) {
            Some(i) => i,
            None => {
                return r;
            },
        };
        r.push((i, level));
        let t = self.at(i);
        let ghost e = self.entries();
        let ghost ds = t.deps();
        let ghost full = tree_deps(e, ds, 0, (level + 1) as usize, (depth - 1) as usize);
        let mut j: usize = 0;
        while j < t.dependencies.len()
            invariant
                self.wf(),
                e == self.entries(),
                ds == t.deps(),
                level + depth < usize::MAX,
                depth > 0,
                j <= t.dependencies.len(),
                seq![(i, level)] + full == r@ + tree_deps(e, ds, j as int, (level + 1) as usize, (depth - 1) as usize),
            decreases t.dependencies.len() - j,
        {
            let sub = self.print_list_file_targets(t.dependencies[j].as_str(), level + 1, depth - 1);
            let ghost r0 = r@;
            proof {
                assert(t.dependencies@[j as int]@ == ds[j as int]);
            }
            let mut k: usize = 0;
            while k < sub.len()
                invariant
                    k <= sub.len(),
                    r@ == r0 + sub@.take(k as int),
                decreases sub.len() - k,
            {
                r.push(sub[k]);
                proof {
                    assert(r@ =~= r0 + sub@.take(k as int + 1));
                }
                k = k + 1;
            }
            proof {
                assert(sub@.take(sub.len() as int) =~= sub@);
                let rest = tree_deps(e, ds, j as int + 1, (level + 1) as usize, (depth - 1) as usize);
                assert(tree_deps(e, ds, j as int, (level + 1) as usize, (depth - 1) as usize) == sub@ + rest);
                assert(r0 + (sub@ + rest) =~= r@ + rest);
            }
            j = j + 1;
        }
        proof {
            assert(tree_deps(e, ds, j as int, (level + 1) as usize, (depth - 1) as usize) =~= Seq::<(usize, usize)>::empty());
            assert(r@ =~= seq![(i, level)] + full);
            assert(key_index(e, name@) == i);
        }
        r
    }
}

/// The items of the dependency tree under `n` at `level`, at most `depth`
/// levels: the target itself, then the trees of its dependencies in order one
/// level deeper. An unknown name gives nothing.
pub open spec fn tree(e: Seq<(Seq<char>, Target)>, n: Seq<char>, level: usize, depth: usize) -> Seq<(usize, usize)>
    decreases depth, 0nat, 0nat,
{
    if depth == 0 || !has_key(e, n) {
        Seq::empty()
    } else {
        let k = key_index(e, n);
        seq![(k as usize, level)] + tree_deps(e, e[k].1.deps(), 0, (level + 1) as usize, (depth - 1) as usize)
    }
}

/// The trees under the dependencies `ds` from the `j`th on, one after another.
pub open spec fn tree_deps(e: Seq<(Seq<char>, Target)>, ds: Seq<Seq<char>>, j: int, level: usize, depth: usize) -> Seq<(usize, usize)>
    decreases depth, 1nat, ds.len() - j,
{
    if j < 0 || j >= ds.len() {
        Seq::empty()
    } else {
        tree(e, ds[j], level, depth) + tree_deps(e, ds, j + 1, level, depth)
    }
}

} // verus!

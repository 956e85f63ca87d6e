//! The document parser: from the events of a Markdown document to targets.
//!
//! A level-one heading opens a target, a bullet list after it gives its
//! dependencies, and each fenced block gives one recipe.
use crate::model::{deps_closed, entries_named, has_key, Config, Recipe, Target};
use crate::text::{
    has_prefix, lemma_strs_push, lemma_strs_take, lines_of, replace_all, replaced, split_lines,
    starts_with, strs, trim, trimmed,
};
use pulldown_cmark::{CodeBlockKind, Event, HeadingLevel, Options, Parser, Tag, TagEnd, TextMergeStream};
use vstd::prelude::*;

verus! {

/// The events of a document that the parser reads.
#[derive(Clone, Debug)]
pub enum MdEvent {
    HeadingStart,
    HeadingEnd,
    ListStart,
    ListEnd,
    /// The start of a fenced block, with its info string.
    FenceStart(String),
    FenceEnd,
    /// An inline code span.
    Code(String),
    Text(String),
    Other,
}

/// The events that pulldown-cmark reads in a document, consecutive texts merged.
pub uninterp spec fn markdown_events_of(s: Seq<char>) -> Seq<MdEvent>;

/// Relies on pulldown-cmark's `Parser` (all extensions on) and `TextMergeStream`:
/// the document's events in order; each kept variant is moved into `MdEvent`.
#[verifier::external_body]
pub(crate) fn markdown_events(s: &str) -> (r: Vec<MdEvent>)
    ensures
        r@ == markdown_events_of(s@),
{
    TextMergeStream::new(Parser::new_ext(s, Options::all())).map(|e| match e {
        Event::Start(Tag::Heading { level: HeadingLevel::H1, .. }) => MdEvent::HeadingStart,
        Event::End(TagEnd::Heading(HeadingLevel::H1)) => MdEvent::HeadingEnd,
        Event::Start(Tag::List(None)) => MdEvent::ListStart,
        Event::End(TagEnd::List(false)) => MdEvent::ListEnd,
        Event::Start(Tag::CodeBlock(CodeBlockKind::Fenced(i))) => MdEvent::FenceStart(i.to_string()),
        Event::End(TagEnd::CodeBlock) => MdEvent::FenceEnd,
        Event::Code(c) => MdEvent::Code(c.to_string()),
        Event::Text(t) => MdEvent::Text(t.to_string()),
        _ => MdEvent::Other,
    }).collect()
}

/// Relies on `expanduser::expanduser`: a path that does not start with `~` comes
/// back as it is; otherwise the result depends on the environment.
#[verifier::external_body]
fn expand_home(s: &str) -> (r: String)
    ensures
        !has_prefix(s@, "~"@) ==> r@ == s@,
{
    match expanduser::expanduser(s) {
        Ok(p) => p.display().to_string(),
        Err(_) => s.to_string(),
    }
}

/// Relies on `glob::glob`: the paths on disk that match the pattern, or `None`
/// for a malformed pattern. What it finds depends on the disk.
#[verifier::external_body]
fn glob_paths(p: &str) -> (r: Option<Vec<String>>) {
    glob::glob(p).ok().map(|ps| ps.filter_map(|x| x.ok()).map(|x| x.display().to_string()).collect())
}

/// Where the parser stands in the document.
#[derive(Clone, Debug)]
pub enum Section {
    Idle,
    Heading,
    Dependencies,
    /// Inside a fenced block that has not yielded its text yet, with the block's
    /// interpreter if its info string names one.
    Recipe(Option<String>),
}

/// Whether a heading's code span names a pattern rule.
pub open spec fn is_pattern_name(n: Seq<char>) -> bool {
    has_prefix(n, "*."@) && n.len() > 2
}

/// Whether a heading's code span names a pattern rule: it starts with `*.` and
/// has more after it.
pub fn pattern_heading(s: &str) -> (r: bool)
    ensures
        r == is_pattern_name(s@),
{
    starts_with(s, "*.") && s.unicode_len() > 2
}

/// The dependencies that one code span in a dependency list adds: the matches
/// found on disk, or the text itself where there are none or the owner is a pattern.
pub open spec fn added_dependencies(text: Seq<char>, matches: Seq<Seq<char>>, in_pattern: bool) -> Seq<Seq<char>> {
    if matches.len() == 0 || in_pattern {
        seq![text]
    } else {
        matches
    }
}

/// Appends the dependencies that a code span adds.
pub fn push_dependency(deps: &mut Vec<String>, text: String, matches: Vec<String>, in_pattern: bool)
    ensures
        strs(final(deps)@) == strs(old(deps)@) + added_dependencies(text@, strs(matches@), in_pattern),
{
    if matches.len() == 0 || in_pattern {
        let ghost before = deps@;
        deps.push(text);
        proof {
            lemma_strs_push(before, deps@.last());
            assert(strs(deps@) =~= strs(before) + seq![deps@.last()@]);
        }
    } else {
        let mut i: usize = 0;
        let ghost before = deps@;
        while i < matches.len()
            invariant
                i <= matches.len(),
                strs(deps@) == strs(before) + strs(matches@.take(i as int)),
            decreases matches.len() - i,
        {
            let ghost mid = deps@;
            deps.push(matches[i].clone());
            proof {
                lemma_strs_push(mid, deps@.last());
                lemma_strs_take(matches@, i as int);
                assert(strs(deps@) =~= strs(before) + strs(matches@.take(i as int + 1)));
            }
            i = i + 1;
        }
        assert(matches@.take(matches.len() as int) =~= matches@);
    }
}

/// Whether a line of a plain recipe is a command: neither empty nor a comment.
pub open spec fn is_command(l: Seq<char>) -> bool {
    l.len() > 0 && !has_prefix(l, "#"@)
}

/// The commands among `ls`, in order.
pub open spec fn commands_of(ls: Seq<Seq<char>>) -> Seq<Seq<char>>
    decreases ls.len(),
{
    if ls.len() == 0 {
        seq![]
    } else if is_command(ls.last()) {
        commands_of(ls.drop_last()).push(ls.last())
    } else {
        commands_of(ls.drop_last())
    }
}

/// The commands of a plain block: continuations joined, then one command per
/// line that is neither empty nor a comment.
pub open spec fn block_commands(s: Seq<char>) -> Seq<Seq<char>> {
    commands_of(lines_of(replaced(s, "\\\n"@, ""@)))
}

/// Splits a plain block into its commands.
pub fn split_commands(s: &str) -> (r: Vec<String>)
    ensures
        strs(r@) == block_commands(s@),
{
    proof {
        reveal_strlit("\\\n");
    }
    let joined = replace_all(s, "\\\n", "");
    let lines = split_lines(joined.as_str());
    let ghost ls = strs(lines@);
    let mut r: Vec<String> = Vec::new();
    let mut i: usize = 0;
    while i < lines.len()
        invariant
            i <= lines.len(),
            ls == strs(lines@),
            strs(r@) == commands_of(ls.take(i as int)),
        decreases lines.len() - i,
    {
        proof {
            lemma_strs_take(lines@, i as int);
            assert(ls.take(i as int + 1) =~= strs(lines@.take(i as int + 1)));
            assert(ls.take(i as int) =~= strs(lines@.take(i as int)));
            assert(ls.take(i as int + 1).drop_last() =~= ls.take(i as int));
        }
        let l = &lines[i];
        if l.as_str().unicode_len() > 0 && !starts_with(l.as_str(), "#") {
            let ghost before = r@;
            r.push(l.clone());
            proof {
                lemma_strs_push(before, r@.last());
            }
        }
        i = i + 1;
    }
    assert(ls.take(lines.len() as int) =~= ls);
    r
}

/// The text of a recipe block after substitution: trimmed; outside a pattern
/// rule, `{target}` becomes the target's name, `{dirname}` the directory's name
/// and then `{0}` the first dependency.
pub open spec fn recipe_text(
    s: Seq<char>,
    name: Option<Seq<char>>,
    first: Option<Seq<char>>,
    in_pattern: bool,
    dirname: Seq<char>,
) -> Seq<char> {
    let t = trimmed(s);
    if in_pattern {
        t
    } else {
        let t1 = match name {
            Some(n) => replaced(t, "{target}"@, n),
            None => t,
        };
        let t2 = replaced(t1, "{dirname}"@, dirname);
        match first {
            Some(d) => replaced(t2, "{0}"@, d),
            None => t2,
        }
    }
}

/// The recipe a block gives: with an interpreter, its whole text; else its commands.
pub open spec fn recipe_of(text: Seq<char>, shell: Option<String>, r: Recipe) -> bool {
    &&& r.shell == shell
    &&& match shell {
        Some(_) => strs(r.commands@) == seq![text],
        None => strs(r.commands@) == block_commands(text),
    }
}

/// Builds the recipe of a block whose text is `s`.
pub fn block_recipe(
    s: &str,
    shell: Option<String>,
    name: &Option<String>,
    first: Option<&String>,
    in_pattern: bool,
    dirname: &str,
) -> (r: Recipe)
    ensures
        recipe_of(
            recipe_text(s@, match name { Some(n) => Some(n@), None => None },
                match first { Some(d) => Some(d@), None => None }, in_pattern, dirname@),
            shell,
            r,
        ),
{
    proof {
        reveal_strlit("{target}");
        reveal_strlit("{dirname}");
        reveal_strlit("{0}");
    }
    let t = trim(s);
    let text = if in_pattern {
        t
    } else {
        let t1 = match name {
            Some(n) => replace_all(t.as_str(), "{target}", n.as_str()),
            None => t,
        };
        let t2 = replace_all(t1.as_str(), "{dirname}", dirname);
        match first {
            Some(d) => replace_all(t2.as_str(), "{0}", d.as_str()),
            None => t2,
        }
    };
    match shell {
        Some(sh) => {
            let ghost tv = text@;
            let commands = vec![text];
            proof {
                assert(strs(commands@) =~= seq![tv]);
            }
            Recipe::new(Some(sh), commands)
        },
        None => Recipe::new(None, split_commands(text.as_str())),
    }
}

/// A declaration being read: what the document has said of the current target
/// so far, and where the parser stands.
#[derive(Debug)]
pub struct DocParser {
    pub section: Section,
    pub name: Option<String>,
    pub is_file: bool,
    pub is_pattern: bool,
    pub dependencies: Vec<String>,
    pub recipes: Vec<Recipe>,
}

/// The target that a staged declaration named `n` becomes.
pub open spec fn staged_target(p: DocParser, n: Seq<char>, t: Target) -> bool {
    &&& t.name@ == n
    &&& t.is_file == p.is_file
    &&& t.is_pattern == p.is_pattern
    &&& t.deps() == strs(p.dependencies@)
    &&& t.recipes@ == p.recipes@
}

/// The view of an optional string.
pub open spec fn opt_view(o: Option<String>) -> Option<Seq<char>> {
    match o {
        Some(s) => Some(s@),
        None => None,
    }
}

/// Whether `b` holds the same declaration as `a`, wherever it stands.
pub open spec fn same_staged(a: DocParser, b: DocParser) -> bool {
    &&& opt_view(b.name) == opt_view(a.name)
    &&& b.is_file == a.is_file
    &&& b.is_pattern == a.is_pattern
    &&& strs(b.dependencies@) == strs(a.dependencies@)
    &&& b.recipes@ == a.recipes@
}

/// Whether `b` is `a` unchanged but for where it stands.
pub open spec fn moved_to(a: DocParser, b: DocParser, s: Section) -> bool {
    same_staged(a, b) && b.section == s
}

/// What one event does to the parser `p` (becoming `q`) and to the targets read
/// so far (`c` becoming `d`). A code span in a dependency list adds what its
/// home-expanded text gives on disk, which only the disk decides: the text
/// stays as it is where it does not start with `~`, and a pattern rule's
/// dependencies are never looked up on disk.
pub open spec fn fed(p: DocParser, c: Config, ev: MdEvent, dirname: Seq<char>, q: DocParser, d: Config) -> bool {
    match ev {
        MdEvent::HeadingStart => q.section is Heading && match p.name {
            None => d.entries() == c.entries() && same_staged(p, q),
            Some(n) => d.contains(n@) && staged_target(p, n@, d.get(n@))
                && d.entries() == crate::model::inserted(c.entries(), n@, d.get(n@))
                && q.name is None && !q.is_file && !q.is_pattern
                && q.dependencies@.len() == 0 && q.recipes@.len() == 0,
        },
        MdEvent::HeadingEnd => d.entries() == c.entries()
            && moved_to(p, q, if p.section is Heading { Section::Idle } else { p.section }),
        MdEvent::ListStart => d.entries() == c.entries() && moved_to(p, q, Section::Dependencies),
        MdEvent::ListEnd => d.entries() == c.entries()
            && moved_to(p, q, if p.section is Dependencies { Section::Idle } else { p.section }),
        MdEvent::FenceStart(info) => d.entries() == c.entries() && same_staged(p, q)
            && q.section is Recipe && opt_view(q.section->Recipe_0) == if info@.len() == 0 {
                None::<Seq<char>>
            } else {
                Some(info@)
            },
        MdEvent::FenceEnd => d.entries() == c.entries()
            && moved_to(p, q, if p.section is Recipe { Section::Idle } else { p.section }),
        MdEvent::Code(code) => d.entries() == c.entries() && q.section == p.section && {
            let s = replaced(code@, "{dirname}"@, dirname);
            match p.section {
                Section::Heading => opt_view(q.name) == Some(s) && strs(q.dependencies@) == strs(p.dependencies@)
                    && q.recipes@ == p.recipes@ && if is_pattern_name(s) {
                    q.is_pattern && q.is_file == p.is_file
                } else {
                    q.is_file && q.is_pattern == p.is_pattern
                },
                Section::Dependencies => opt_view(q.name) == opt_view(p.name) && q.is_file == p.is_file
                    && q.is_pattern == p.is_pattern && q.recipes@ == p.recipes@
                    && exists|text: Seq<char>, found: Seq<Seq<char>>|
                    (!has_prefix(s, "~"@) ==> text == s) && (p.is_pattern ==> found.len() == 0)
                        && strs(q.dependencies@) == strs(p.dependencies@) + #[trigger] added_dependencies(text, found, p.is_pattern),
                _ => same_staged(p, q),
            }
        },
        MdEvent::Text(t) => d.entries() == c.entries() && match p.section {
            Section::Heading => q.section == p.section && opt_view(q.name) == Some(t@) && !q.is_file
                && q.is_pattern == p.is_pattern && strs(q.dependencies@) == strs(p.dependencies@)
                && q.recipes@ == p.recipes@,
            Section::Dependencies => q.section == p.section && opt_view(q.name) == opt_view(p.name)
                && q.is_file == p.is_file && q.is_pattern == p.is_pattern && q.recipes@ == p.recipes@
                && strs(q.dependencies@) == strs(p.dependencies@).push(t@),
            Section::Recipe(shell) => q.section is Idle && opt_view(q.name) == opt_view(p.name)
                && q.is_file == p.is_file && q.is_pattern == p.is_pattern
                && strs(q.dependencies@) == strs(p.dependencies@)
                && q.recipes@.len() == p.recipes@.len() + 1
                && q.recipes@.take(p.recipes@.len() as int) == p.recipes@
                && recipe_of(
                    recipe_text(t@, opt_view(p.name),
                        if p.dependencies@.len() > 0 { Some(p.dependencies@[0]@) } else { None },
                        p.is_pattern, dirname),
                    shell,
                    q.recipes@.last(),
                ),
            Section::Idle => moved_to(p, q, p.section),
        },
        MdEvent::Other => d.entries() == c.entries() && moved_to(p, q, p.section),
    }
}

/// Whether `p` is a parser that has read nothing.
pub open spec fn fresh_parser(p: DocParser) -> bool {
    &&& p.section is Idle
    &&& p.name is None
    &&& !p.is_file
    &&& !p.is_pattern
    &&& p.dependencies@.len() == 0
    &&& p.recipes@.len() == 0
}

/// Whether parsers `ps` over targets `cs` trace the reading of `evs`: the
/// `k`th event takes the `k`th parser and targets to the next ones.
pub open spec fn fed_trace(ps: Seq<DocParser>, cs: Seq<Config>, evs: Seq<MdEvent>, dirname: Seq<char>) -> bool {
    &&& ps.len() == evs.len() + 1
    &&& cs.len() == evs.len() + 1
    &&& forall|k: int| 0 <= k < evs.len() ==> fed(ps[k], cs[k], #[trigger] evs[k], dirname, ps[k + 1], cs[k + 1])
}

/// Whether `f` is what ending a document gives from parser `p` over targets
/// `c`: the last declaration, if named, goes in; then each dependency that names
/// no target is added as a file target.
pub open spec fn ended(p: DocParser, c: Config, f: Config) -> bool {
    exists|c2: Config|
        {
            &&& match p.name {
                None => c2.entries() == c.entries(),
                Some(n) => c2.contains(n@) && staged_target(p, n@, c2.get(n@))
                    && c2.entries() == crate::model::inserted(c.entries(), n@, c2.get(n@)),
            }
            &&& #[trigger] derived_from(c2, f)
        }
}

/// Whether reading the document `s` takes targets `before` to `after`: the
/// document's events are fed in order to a fresh parser, then the document ends.
pub open spec fn loaded(before: Config, s: Seq<char>, dirname: Seq<char>, after: Config) -> bool {
    exists|ps: Seq<DocParser>, cs: Seq<Config>|
        #[trigger] fed_trace(ps, cs, markdown_events_of(s), dirname) && fresh_parser(ps[0]) && cs[0] == before
            && ended(ps.last(), cs.last(), after)
}

/// Whether `f` is `c` with a file target added for each dependency that names
/// no target.
pub open spec fn derived_from(c: Config, f: Config) -> bool {
    &&& f.wf()
    &&& c.entries().len() <= f.entries().len()
    &&& f.entries().take(c.entries().len() as int) == c.entries()
    &&& forall|i: int| c.entries().len() <= i < f.entries().len() ==> derived_target(#[trigger] f.entries()[i].1)
    &&& forall|i: int| c.entries().len() <= i < f.entries().len() ==> is_dependency(c.entries(), #[trigger] f.entries()[i].0)
}

impl DocParser {
    pub fn new() -> (r: DocParser)
        ensures
            r.section is Idle,
            r.name is None,
            !r.is_file,
            !r.is_pattern,
            r.dependencies@.len() == 0,
            r.recipes@.len() == 0,
    {
        DocParser {
            section: Section::Idle,
            name: None,
            is_file: false,
            is_pattern: false,
            dependencies: Vec::new(),
            recipes: Vec::new(),
        }
    }

    /// Ends the staged declaration, if it has a name: its target goes into `cfg`
    /// and the declaration starts afresh. Without a name nothing happens.
    pub fn commit(&mut self, cfg: &mut Config)
        requires
            entries_named(old(cfg).entries()),
        ensures
            entries_named(final(cfg).entries()),
            forall|k: Seq<char>| old(cfg).contains(k) ==> final(cfg).contains(k),
            final(self).section == old(self).section,
            match old(self).name {
                None => final(cfg).entries() == old(cfg).entries() && final(self).name is None
                    && final(self).is_file == old(self).is_file && final(self).is_pattern == old(self).is_pattern
                    && final(self).dependencies@ == old(self).dependencies@
                    && final(self).recipes@ == old(self).recipes@,
                Some(n) => final(cfg).contains(n@) && staged_target(*old(self), n@, final(cfg).get(n@))
                    && final(cfg).entries() == crate::model::inserted(old(cfg).entries(), n@, final(cfg).get(n@))
                    && final(self).name is None && !final(self).is_file && !final(self).is_pattern
                    && final(self).dependencies@.len() == 0 && final(self).recipes@.len() == 0,
            },
    {
        match self.name.take() {
            None => {},
            Some(n) => {
                let mut recipes: Vec<Recipe> = Vec::new();
                std::mem::swap(&mut recipes, &mut self.recipes);
                let t = Target::new(n.as_str(), self.is_file, self.is_pattern, &self.dependencies, recipes);
                cfg.insert_target(t);
                self.is_file = false;
                self.is_pattern = false;
                self.dependencies = Vec::new();
            },
        }
    }

    /// Reads one event of the document.
    pub fn feed(&mut self, cfg: &mut Config, ev: &MdEvent, dirname: &str)
        requires
            entries_named(old(cfg).entries()),
        ensures
            entries_named(final(cfg).entries()),
            forall|k: Seq<char>| old(cfg).contains(k) ==> final(cfg).contains(k),
            fed(*old(self), *old(cfg), *ev, dirname@, *final(self), *final(cfg)),
    {
        proof {
            reveal_strlit("{dirname}");
            reveal_strlit("~");
        }
        let ghost p0 = *self;
        let ghost c0 = *cfg;
        match ev {
            MdEvent::HeadingStart => {
                self.commit(cfg);
                self.section = Section::Heading;
            },
            MdEvent::HeadingEnd => {
                if let Section::Heading = self.section {
                    self.section = Section::Idle;
                }
            },
            MdEvent::ListStart => {
                self.section = Section::Dependencies;
            },
            MdEvent::ListEnd => {
                if let Section::Dependencies = self.section {
                    self.section = Section::Idle;
                }
            },
            MdEvent::FenceStart(info) => {
                let shell = if info.as_str().unicode_len() == 0 {
                    None
                } else {
                    Some(info.clone())
                };
                self.section = Section::Recipe(shell);
            },
            MdEvent::FenceEnd => {
                if let Section::Recipe(_) = self.section {
                    self.section = Section::Idle;
                }
            },
            MdEvent::Code(c) => {
                let code = replace_all(c.as_str(), "{dirname}", dirname);
                match self.section {
                    Section::Heading => {
                        if pattern_heading(code.as_str()) {
                            self.is_pattern = true;
                        } else {
                            self.is_file = true;
                        }
                        self.name = Some(code);
                    },
                    Section::Dependencies => {
                        let text = expand_home(code.as_str());
                        let matches = if self.is_pattern {
                            Vec::new()
                        } else {
                            match glob_paths(text.as_str()) {
                                Some(m) => m,
                                None => Vec::new(),
                            }
                        };
                        let ghost tv = text@;
                        let ghost found = strs(matches@);
                        push_dependency(&mut self.dependencies, text, matches, self.is_pattern);
                        proof {
                            assert(strs(self.dependencies@) == strs(p0.dependencies@) + added_dependencies(tv, found, p0.is_pattern));
                        }
                    },
                    _ => {},
                }
            },
            MdEvent::Text(t) => {
                match &self.section {
                    Section::Heading => {
                        self.is_file = false;
                        self.name = Some(t.clone());
                    },
                    Section::Dependencies => {
                        let ghost before = self.dependencies@;
                        self.dependencies.push(t.clone());
                        proof {
                            lemma_strs_push(before, self.dependencies@.last());
                        }
                            },
                    Section::Recipe(shell) => {
                        let first = if self.dependencies.len() > 0 {
                            Some(&self.dependencies[0])
                        } else {
                            None
                        };
                        let sh = shell.clone();
                        assert(sh == *shell);
                        let r = block_recipe(t.as_str(), sh, &self.name, first, self.is_pattern, dirname);
                        let ghost before = self.recipes@;
                        self.recipes.push(r);
                        self.section = Section::Idle;
                        proof {
                            assert(self.recipes@.take(before.len() as int) =~= before);
                        }
                    },
                    Section::Idle => {},
                }
            },
            MdEvent::Other => {},
        }
    }
}

impl Config {
    /// Adds a file target with no dependencies and no recipes for every
    /// dependency that names no target.
    pub fn add_derived_targets(&mut self)
        requires
            entries_named(old(self).entries()),
        ensures
            final(self).wf(),
            old(self).entries().len() <= final(self).entries().len(),
            final(self).entries().take(old(self).entries().len() as int) == old(self).entries(),
            forall|i: int| old(self).entries().len() <= i < final(self).entries().len()
                ==> derived_target(#[trigger] final(self).entries()[i].1),
            forall|i: int| old(self).entries().len() <= i < final(self).entries().len()
                ==> is_dependency(old(self).entries(), #[trigger] final(self).entries()[i].0),
    {
        let ghost start = self.entries();
        let n = self.len();
        let mut i: usize = 0;
        assert(self.entries().take(n as int) =~= start);
        while i < n
            invariant
                n == start.len() <= self.entries().len(),
                i <= n,
                self.entries().take(n as int) == start,
                entries_named(self.entries()),
                forall|x: int| n <= x < self.entries().len() ==> derived_target(#[trigger] self.entries()[x].1),
                forall|x: int| n <= x < self.entries().len() ==> is_dependency(start, #[trigger] self.entries()[x].0),
                forall|a: int, b: int| 0 <= a < i && 0 <= b < start[a].1.deps().len()
                    ==> has_key(self.entries(), #[trigger] start[a].1.deps()[b]),
            decreases n - i,
        {
            let deps = crate::model::clone_strings(&self.at(i).dependencies);
            proof {
                assert(self.entries()[i as int] == start[i as int]);
            }
            let mut j: usize = 0;
            while j < deps.len()
                invariant
                    n == start.len() <= self.entries().len(),
                    i < n,
                    j <= deps.len(),
                    strs(deps@) == start[i as int].1.deps(),
                    self.entries().take(n as int) == start,
                    entries_named(self.entries()),
                    forall|x: int| n <= x < self.entries().len() ==> derived_target(#[trigger] self.entries()[x].1),
                    forall|x: int| n <= x < self.entries().len() ==> is_dependency(start, #[trigger] self.entries()[x].0),
                    forall|a: int, b: int| 0 <= a < i && 0 <= b < start[a].1.deps().len()
                        ==> has_key(self.entries(), #[trigger] start[a].1.deps()[b]),
                    forall|b: int| 0 <= b < j ==> has_key(self.entries(), #[trigger] start[i as int].1.deps()[b]),
                decreases deps.len() - j,
            {
                let d = deps[j].as_str();
                assert(d@ == start[i as int].1.deps()[j as int]);
                if !self.contains_key(d) {
                    let ghost before = self.entries();
                    let t = Target::new(d, true, false, &Vec::new(), Vec::new());
                    self.insert_target(t);
                    proof {
                        assert(self.entries() == before.push((d@, t)));
                        assert(self.entries().take(n as int) =~= before.take(n as int));
                        assert(self.entries()[before.len() as int] == (d@, t));
                        assert(is_dependency(start, d@)) by {
                            assert(start[i as int].1.deps()[j as int] == d@);
                        }
                        assert forall|x: int| n <= x < self.entries().len() implies derived_target(#[trigger] self.entries()[x].1) by {
                            if x < before.len() {
                                assert(self.entries()[x] == before[x]);
                            }
                        }
                        assert forall|x: int| n <= x < self.entries().len() implies is_dependency(start, #[trigger] self.entries()[x].0) by {
                            if x < before.len() {
                                assert(self.entries()[x] == before[x]);
                            }
                        }
                        assert forall|a: int, b: int| 0 <= a <= i && 0 <= b < start[a].1.deps().len()
                            && has_key(before, start[a].1.deps()[b])
                            implies has_key(self.entries(), #[trigger] start[a].1.deps()[b]) by {
                            let k = start[a].1.deps()[b];
                            let x = choose|x: int| 0 <= x < before.len() && #[trigger] before[x].0 == k;
                            assert(self.entries()[x] == before[x]);
                        }
                    }
                }
                j = j + 1;
            }
            i = i + 1;
        }
        proof {
            let e = self.entries();
            assert forall|a: int, b: int| 0 <= a < e.len() && 0 <= b < e[a].1.deps().len()
                implies has_key(e, #[trigger] e[a].1.deps()[b]) by {
                if a < n {
                    assert(e[a] == e.take(n as int)[a]);
                } else {
                    assert(derived_target(e[a].1));
                }
            }
        }
    }
}

/// A target derived from a dependency: a file, no pattern, nothing it depends
/// on, nothing to run.
pub open spec fn derived_target(t: Target) -> bool {
    t.is_file && !t.is_pattern && t.deps().len() == 0 && t.recipes@.len() == 0
}

/// Whether `k` is a dependency of some entry.
pub open spec fn is_dependency(e: Seq<(Seq<char>, Target)>, k: Seq<char>) -> bool {
    exists|a: int, b: int| 0 <= a < e.len() && 0 <= b < e[a].1.deps().len() && #[trigger] e[a].1.deps()[b] == k
}

impl Config {
    /// Reads the events of one document into the configuration: its targets are
    /// added after those already there, a name declared again is replaced in
    /// place, and dependencies that name no target become file targets.
    pub fn load_events(&mut self, events: &Vec<MdEvent>, dirname: &str)
        requires
            old(self).wf(),
        ensures
            final(self).wf(),
            forall|k: Seq<char>| old(self).contains(k) ==> final(self).contains(k),
            exists|ps: Seq<DocParser>, cs: Seq<Config>|
                #[trigger] fed_trace(ps, cs, events@, dirname@) && fresh_parser(ps[0]) && cs[0] == *old(self)
                    && ended(ps.last(), cs.last(), *final(self)),
    {
        let mut parser = DocParser::new();
        let ghost mut ps = seq![parser];
        let ghost mut cs = seq![*self];
        let mut i: usize = 0;
        while i < events.len()
            invariant
                entries_named(self.entries()),
                forall|k: Seq<char>| old(self).contains(k) ==> self.contains(k),
                i <= events.len(),
                fed_trace(ps, cs, events@.take(i as int), dirname@),
                fresh_parser(ps[0]),
                cs[0] == *old(self),
                ps.last() == parser,
                cs.last() == *self,
            decreases events.len() - i,
        {
            parser.feed(self, &events[i], dirname);
            proof {
                let ps2 = ps.push(parser);
                let cs2 = cs.push(*self);
                let evs = events@.take(i as int + 1);
                assert forall|k: int| 0 <= k < evs.len()
                    implies fed(ps2[k], cs2[k], #[trigger] evs[k], dirname@, ps2[k + 1], cs2[k + 1]) by {
                    if k < i {
                        assert(evs[k] == events@.take(i as int)[k]);
                    }
                }
                ps = ps2;
                cs = cs2;
            }
            i = i + 1;
        }
        assert(events@.take(events.len() as int) =~= events@);
        let ghost pe = parser;
        let ghost ce = *self;
        parser.commit(self);
        let ghost c2 = *self;
        let ghost before = self.entries();
        self.add_derived_targets();
        proof {
            assert(derived_from(c2, *self));
            assert(ended(pe, ce, *self));
        }
        proof {
            assert forall|k: Seq<char>| old(self).contains(k) implies self.contains(k) by {
                assert(has_key(before, k));
                let x = choose|x: int| 0 <= x < before.len() && #[trigger] before[x].0 == k;
                assert(self.entries().take(before.len() as int)[x] == before[x]);
                assert(self.entries()[x].0 == k);
            }
        }
    }

    /// Reads a Markdown document into the configuration, as `load_events` does
    /// with the document's events.
    pub fn load_markdown(&mut self, s: &str, dirname: &str)
        requires
            old(self).wf(),
        ensures
            final(self).wf(),
            forall|k: Seq<char>| old(self).contains(k) ==> final(self).contains(k),
            loaded(*old(self), s@, dirname@, *final(self)),
    {
        let events = markdown_events(s);
        self.load_events(&events, dirname);
    }

    /// The configuration that the documents give, read in order.
    pub fn from(documents: &Vec<String>, dirname: &str) -> (r: Config)
        ensures
            r.wf(),
            exists|cs: Seq<Config>|
                #![trigger cs.len()]
                cs.len() == documents@.len() + 1 && cs[0].entries().len() == 0 && cs.last() == r
                    && forall|k: int| 0 <= k < documents@.len() ==> loaded(cs[k], #[trigger] documents@[k]@, dirname@, cs[k + 1]),
    {
        let mut r = Config::new();
        let ghost mut cs = seq![r];
        let mut i: usize = 0;
        while i < documents.len()
            invariant
                r.wf(),
                i <= documents.len(),
                cs.len() == i + 1,
                cs[0].entries().len() == 0,
                cs.last() == r,
                forall|k: int| 0 <= k < i ==> loaded(cs[k], #[trigger] documents@[k]@, dirname@, cs[k + 1]),
            decreases documents.len() - i,
        {
            let ghost before = r;
            r.load_markdown(documents[i].as_str(), dirname);
            proof {
                let cs2 = cs.push(r);
                assert forall|k: int| 0 <= k < i + 1 implies loaded(cs2[k], #[trigger] documents@[k]@, dirname@, cs2[k + 1]) by {
                    if k < i {
                        assert(cs2[k] == cs[k] && cs2[k + 1] == cs[k + 1]);
                    } else {
                        assert(cs2[k] == before);
                    }
                }
                cs = cs2;
            }
            i = i + 1;
        }
        r
    }
}

} // verus!

//! The schedule: from a requested target, the targets to process, each after
//! the dependencies it descends into and at most once per build.
use crate::files::FileStates;
use crate::model::{entries_wf, entries_named, has_key, key_index, BuildError, Config, Target};
use crate::stale::outdated_spec;
use crate::text::{lemma_strs_push, lemma_strs_take, str_eq, strs};
use vstd::prelude::*;

verus! {

/// The number of positions not yet marked.
pub open spec fn unmarked(m: Seq<bool>) -> nat
    decreases m.len(),
{
    if m.len() == 0 {
        0
    } else {
        unmarked(m.drop_last()) + if m.last() {
            0nat
        } else {
            1nat
        }
    }
}

/// Marking more positions leaves fewer unmarked.
proof fn lemma_unmarked_mono(a: Seq<bool>, b: Seq<bool>)
    requires
        a.len() == b.len(),
        forall|k: int| 0 <= k < a.len() && a[k] ==> b[k],
    ensures
        unmarked(b) <= unmarked(a),
    decreases a.len(),
{
    if a.len() > 0 {
        lemma_unmarked_mono(a.drop_last(), b.drop_last());
    }
}

/// Marking an unmarked position leaves one fewer unmarked.
proof fn lemma_unmarked_mark(m: Seq<bool>, i: int)
    requires
        0 <= i < m.len(),
        !m[i],
    ensures
        unmarked(m.update(i, true)) + 1 == unmarked(m),
    decreases m.len(),
{
    if i == m.len() - 1 {
        assert(m.update(i, true).drop_last() =~= m.drop_last());
    } else {
        assert(m.update(i, true).drop_last() =~= m.drop_last().update(i, true));
        lemma_unmarked_mark(m.drop_last(), i);
    }
}

/// Whether the schedule descends into the dependencies of `t`: always for a
/// phony target; for a file target where forced, absent, or outdated relative to
/// its own modification time.
pub open spec fn expands(e: Seq<(Seq<char>, Target)>, fs: FileStates, t: Target, force: bool) -> bool {
    !t.is_file || force || !fs.present(t.name@) || outdated_spec(e, fs, t, fs.time(t.name@))
}

/// What a walk over `e` keeps true of its marks and of the order so far: each
/// scheduled name is a target whose position is marked, and none comes twice.
pub open spec fn walk_inv(e: Seq<(Seq<char>, Target)>, m: Seq<bool>, order: Seq<Seq<char>>) -> bool {
    &&& m.len() == e.len()
    &&& order.no_duplicates()
    &&& forall|p: int| 0 <= p < order.len() ==> has_key(e, #[trigger] order[p]) && m[key_index(e, order[p])]
}

/// Whether each name of `path` after the first is a dependency of the one before.
pub open spec fn dep_path(e: Seq<(Seq<char>, Target)>, path: Seq<Seq<char>>) -> bool {
    forall|k: int| 0 <= k < path.len() - 1 ==> has_key(e, #[trigger] path[k])
        && e[key_index(e, path[k])].1.deps().contains(path[k + 1])
}

/// Whether `b` can be reached from `a` by following dependencies (a name
/// reaches itself).
pub open spec fn reaches(e: Seq<(Seq<char>, Target)>, a: Seq<char>, b: Seq<char>) -> bool {
    exists|path: Seq<Seq<char>>| path.len() > 0 && path[0] == a && path.last() == b && #[trigger] dep_path(e, path)
}

/// Whether the name at position `p` of `order` comes after what it depends on:
/// where the schedule descends into it, each dependency was processed before
/// (`done`), comes earlier in `order`, or depends in turn on the name (a cycle).
pub open spec fn placed_after_deps(
    e: Seq<(Seq<char>, Target)>,
    fs: FileStates,
    force: bool,
    done: Seq<Seq<char>>,
    order: Seq<Seq<char>>,
    p: int,
) -> bool {
    let t = e[key_index(e, order[p])].1;
    expands(e, fs, t, force) ==> forall|j: int| 0 <= j < t.deps().len() ==> {
        let d = #[trigger] t.deps()[j];
        done.contains(d) || order.take(p).contains(d) || reaches(e, d, order[p])
    }
}

/// Every name of `order` comes after what it depends on.
pub open spec fn deps_first(e: Seq<(Seq<char>, Target)>, fs: FileStates, force: bool, done: Seq<Seq<char>>, order: Seq<Seq<char>>) -> bool {
    forall|p: int| 0 <= p < order.len() ==> #[trigger] placed_after_deps(e, fs, force, done, order, p)
}

/// Extending an order leaves what holds of its earlier names.
proof fn lemma_deps_first_prefix(
    e: Seq<(Seq<char>, Target)>,
    fs: FileStates,
    force: bool,
    done: Seq<Seq<char>>,
    o1: Seq<Seq<char>>,
    o2: Seq<Seq<char>>,
)
    requires
        o1.len() <= o2.len(),
        o2.take(o1.len() as int) == o1,
        deps_first(e, fs, force, done, o1),
    ensures
        forall|p: int| 0 <= p < o1.len() ==> #[trigger] placed_after_deps(e, fs, force, done, o2, p),
{
    assert forall|p: int| 0 <= p < o1.len() implies #[trigger] placed_after_deps(e, fs, force, done, o2, p) by {
        assert(o2[p] == o1[p]);
        assert(o2.take(p) =~= o1.take(p));
        assert(placed_after_deps(e, fs, force, done, o1, p));
    }
}

/// Each target marked, neither processed before nor scheduled yet, is one the
/// walk is still inside of.
pub open spec fn in_progress_on(e: Seq<(Seq<char>, Target)>, m: Seq<bool>, done: Seq<Seq<char>>, order: Seq<Seq<char>>, stack: Seq<int>) -> bool {
    forall|k: int| 0 <= k < e.len() && m[k] && !done.contains(e[k].0) && !order.contains(#[trigger] e[k].0) ==> stack.contains(k)
}

/// The targets the walk is inside of, outermost first, each a dependency of the
/// one before, and `i` a dependency of the innermost.
pub open spec fn stack_leads_to(e: Seq<(Seq<char>, Target)>, stack: Seq<int>, i: int) -> bool {
    &&& forall|a: int| 0 <= a < stack.len() ==> 0 <= #[trigger] stack[a] < e.len()
    &&& forall|a: int| 0 <= a < stack.len() - 1 ==> e[#[trigger] stack[a]].1.deps().contains(e[stack[a + 1]].0)
    &&& stack.len() > 0 ==> e[stack.last()].1.deps().contains(e[i].0)
}

/// A target on the stack reaches the one being visited.
proof fn lemma_stack_reaches(e: Seq<(Seq<char>, Target)>, stack: Seq<int>, i: int, a: int)
    requires
        entries_named(e),
        stack_leads_to(e, stack, i),
        0 <= a < stack.len(),
        0 <= i < e.len(),
    ensures
        reaches(e, e[stack[a]].0, e[i].0),
{
    let n = stack.len() - a;
    let path = Seq::new((n + 1) as nat, |q: int| if q < n { e[stack[a + q]].0 } else { e[i].0 });
    assert forall|q: int| 0 <= q < path.len() - 1 implies has_key(e, #[trigger] path[q])
        && e[key_index(e, path[q])].1.deps().contains(path[q + 1]) by {
        let s = stack[a + q];
        assert(path[q] == e[s].0);
        assert(has_key(e, e[s].0));
        assert(key_index(e, path[q]) == s) by {
            assert(e[key_index(e, path[q])].0 == e[s].0);
        }
        if q < n - 1 {
            assert(path[q + 1] == e[stack[a + q + 1]].0);
        } else {
            assert(path[q + 1] == e[i].0);
        }
    }
    assert(dep_path(e, path));
    assert(path.last() == e[i].0);
}

/// The walk from the target at position `i` over marks `m`: mark it, walk its
/// dependencies in declared order where it expands, then place its name. The
/// result is the marks after the walk and the names placed, in order. `fuel`
/// bounds the depth; the schedule gives more than enough.
pub open spec fn walk(
    e: Seq<(Seq<char>, Target)>,
    fs: FileStates,
    force: bool,
    i: int,
    m: Seq<bool>,
    fuel: nat,
) -> (Seq<bool>, Seq<Seq<char>>)
    decreases fuel, 0nat, 0nat,
{
    if fuel == 0 {
        (m, Seq::empty())
    } else {
        let m1 = m.update(i, true);
        if expands(e, fs, e[i].1, force) {
            let r = walk_deps(e, fs, force, e[i].1.deps(), 0, m1, (fuel - 1) as nat);
            (r.0, r.1.push(e[i].0))
        } else {
            (m1, seq![e[i].0])
        }
    }
}

/// The walk over the dependencies `ds` from the `j`th on: each that names a
/// target not yet marked is walked, in order.
pub open spec fn walk_deps(
    e: Seq<(Seq<char>, Target)>,
    fs: FileStates,
    force: bool,
    ds: Seq<Seq<char>>,
    j: int,
    m: Seq<bool>,
    fuel: nat,
) -> (Seq<bool>, Seq<Seq<char>>)
    decreases fuel, 1nat, ds.len() - j,
{
    if j < 0 || j >= ds.len() {
        (m, Seq::empty())
    } else {
        let k = key_index(e, ds[j]);
        let a = if has_key(e, ds[j]) && !m[k] {
            walk(e, fs, force, k, m, fuel)
        } else {
            (m, Seq::<Seq<char>>::empty())
        };
        let b = walk_deps(e, fs, force, ds, j + 1, a.0, fuel);
        (b.0, a.1 + b.1)
    }
}

/// No more positions are unmarked than there are.
proof fn lemma_unmarked_len(m: Seq<bool>)
    ensures
        unmarked(m) <= m.len(),
    decreases m.len(),
{
    if m.len() > 0 {
        lemma_unmarked_len(m.drop_last());
    }
}

/// The schedule of `name`: the walk from it over the marks of the names in
/// `done`, or nothing where it is among them.
pub open spec fn schedule_of(e: Seq<(Seq<char>, Target)>, fs: FileStates, force: bool, done: Seq<Seq<char>>, name: Seq<char>) -> Seq<Seq<char>> {
    let m = Seq::new(e.len(), |k: int| done.contains(e[k].0));
    let i = key_index(e, name);
    if m[i] {
        Seq::empty()
    } else {
        walk(e, fs, force, i, m, (e.len() + 1) as nat).1
    }
}

impl Config {
    /// Visits the target at position `i`: marks it, descends into its
    /// dependencies where it expands, then appends its name to the order.
    /// `done` holds the names processed before; `stack` the positions the walk
    /// is inside of.
    fn visit(
        &self,
        i: usize,
        force: bool,
        fs: &FileStates,
        marks: &mut Vec<bool>,
        order: &mut Vec<String>,
        budget: Ghost<nat>,
        done: Ghost<Seq<Seq<char>>>,
        stack: Ghost<Seq<int>>,
    )
        requires
            budget@ > unmarked(old(marks)@),
            self.wf(),
            i < self.entries().len(),
            !old(marks)@[i as int],
            walk_inv(self.entries(), old(marks)@, strs(old(order)@)),
            in_progress_on(self.entries(), old(marks)@, done@, strs(old(order)@), stack@),
            stack_leads_to(self.entries(), stack@, i as int),
            forall|a: int| 0 <= a < stack@.len() ==> old(marks)@[#[trigger] stack@[a]],
            deps_first(self.entries(), *fs, force, done@, strs(old(order)@)),
        ensures
            walk_inv(self.entries(), final(marks)@, strs(final(order)@)),
            final(marks)@[i as int],
            forall|k: int| 0 <= k < old(marks)@.len() && old(marks)@[k] ==> final(marks)@[k],
            final(order)@.len() > old(order)@.len(),
            final(order)@.take(old(order)@.len() as int) == old(order)@,
            final(order)@.last()@ == self.entries()[i as int].0,
            forall|p: int| old(order)@.len() <= p < final(order)@.len()
                ==> !old(marks)@[key_index(self.entries(), #[trigger] final(order)@[p]@)],
            in_progress_on(self.entries(), final(marks)@, done@, strs(final(order)@), stack@),
            deps_first(self.entries(), *fs, force, done@, strs(final(order)@)),
            final(marks)@ == walk(self.entries(), *fs, force, i as int, old(marks)@, budget@).0,
            strs(final(order)@) == strs(old(order)@) + walk(self.entries(), *fs, force, i as int, old(marks)@, budget@).1,
        decreases budget@,
    {
        let ghost e = self.entries();
        let ghost m0 = marks@;
        let ghost o0 = order@;
        let ghost inner = stack@.push(i as int);
        marks.set(i, true);
        proof {
            lemma_unmarked_mark(m0, i as int);
            let so = strs(order@);
            assert(!so.contains(e[i as int].0)) by {
                if so.contains(e[i as int].0) {
                    let p = choose|p: int| 0 <= p < so.len() && so[p] == e[i as int].0;
                    assert(has_key(e, so[p]) && m0[key_index(e, so[p])]);
                    assert(e[key_index(e, so[p])].0 == e[i as int].0);
                }
            }
            assert forall|k: int| 0 <= k < e.len() && marks@[k] && !done@.contains(e[k].0)
                && !strs(order@).contains(#[trigger] e[k].0) implies inner.contains(k) by {
                if k == i {
                    assert(inner[inner.len() - 1] == k);
                } else {
                    assert(stack@.contains(k));
                    let a = choose|a: int| 0 <= a < stack@.len() && stack@[a] == k;
                    assert(inner[a] == k);
                }
            }
        }
        let ghost m1s = marks@;
        let ghost f = (budget@ - 1) as nat;
        let t = self.at(i);
        proof {
            assert(m1s == m0.update(i as int, true));
            assert(budget@ >= 1);
        }
        let expand = !t.is_file || force || !fs.is_present(t.name.as_str())
            || t.outdated(fs.mtime(t.name.as_str()), self, fs);
        assert(expand == expands(e, *fs, *t, force));
        if expand {
            let mut j: usize = 0;
            while j < t.dependencies.len()
                invariant
                    self.wf(),
                    e == self.entries(),
                    i < e.len(),
                    *t == e[i as int].1,
                    j <= t.dependencies.len(),
                    marks@.len() == e.len(),
                    m0.len() == e.len(),
                    marks@[i as int],
                    forall|k: int| 0 <= k < m0.len() && m0[k] ==> marks@[k],
                    walk_inv(e, marks@, strs(order@)),
                    order@.len() >= o0.len(),
                    order@.take(o0.len() as int) == o0,
                    forall|p: int| o0.len() <= p < order@.len() ==> !m0[key_index(e, #[trigger] order@[p]@)],
                    !strs(order@).contains(e[i as int].0),
                    unmarked(m0) == unmarked(m0.update(i as int, true)) + 1,
                    budget@ > unmarked(m0),
                    f == (budget@ - 1) as nat,
                    walk_deps(e, *fs, force, t.deps(), 0, m1s, f).0 == walk_deps(e, *fs, force, t.deps(), j as int, marks@, f).0,
                    strs(o0) + walk_deps(e, *fs, force, t.deps(), 0, m1s, f).1
                        == strs(order@) + walk_deps(e, *fs, force, t.deps(), j as int, marks@, f).1,
                    inner == stack@.push(i as int),
                    in_progress_on(e, marks@, done@, strs(order@), inner),
                    stack_leads_to(e, stack@, i as int),
                    forall|a: int| 0 <= a < stack@.len() ==> marks@[#[trigger] stack@[a]],
                    deps_first(e, *fs, force, done@, strs(order@)),
                    forall|j2: int| 0 <= j2 < j ==> marks@[key_index(e, #[trigger] t.deps()[j2])],
                decreases t.dependencies.len() - j,
            {
                let d = t.dependencies[j].as_str();
                let ghost mb = marks@;
                let ghost ob = order@;
                proof {
                    assert(d@ == t.deps()[j as int]);
                    assert(e[i as int].1.deps()[j as int] == d@);
                    assert(crate::model::deps_closed(e));
                    assert(has_key(e, e[i as int].1.deps()[j as int]));
                }
                match self.index_of(d) {
                    Some(k) => {
                        if !marks[k] {
                            let ghost m1 = marks@;
                            let ghost o1 = order@;
                            proof {
                                assert(m1.len() == e.len());
                                assert(m0.update(i as int, true).len() == e.len());
                                assert forall|x: int| 0 <= x < m1.len() && #[trigger] m0.update(i as int, true)[x]
                                    implies m1[x] by {
                                    if x != i {
                                        assert(m0[x]);
                                    }
                                }
                                lemma_unmarked_mono(m0.update(i as int, true), m1);
                                assert(unmarked(m1) < unmarked(m0));
                                assert(t.deps().contains(e[k as int].0)) by {
                                    assert(t.deps()[j as int] == e[k as int].0);
                                }
                                assert forall|a: int| 0 <= a < inner.len() - 1
                                    implies e[#[trigger] inner[a]].1.deps().contains(e[inner[a + 1]].0) by {
                                    if a < stack@.len() - 1 {
                                        assert(inner[a] == stack@[a] && inner[a + 1] == stack@[a + 1]);
                                    } else {
                                        assert(inner[a] == stack@.last() && inner[a + 1] == i);
                                    }
                                }
                                assert(stack_leads_to(e, inner, k as int));
                                assert forall|a: int| 0 <= a < inner.len() implies m1[#[trigger] inner[a]] by {
                                    if a < stack@.len() {
                                        assert(inner[a] == stack@[a]);
                                    }
                                }
                            }
                            self.visit(k, force, fs, marks, order, Ghost(f), done, Ghost(inner));
                            proof {
                                assert(order@.take(o0.len() as int) =~= o1.take(o0.len() as int)) by {
                                    assert(order@.take(o1.len() as int) == o1);
                                }
                                assert forall|p: int| o0.len() <= p < order@.len()
                                    implies !m0[key_index(e, #[trigger] order@[p]@)] by {
                                    if p < o1.len() {
                                        assert(order@[p] == order@.take(o1.len() as int)[p]);
                                    } else {
                                        let x = key_index(e, order@[p]@);
                                        assert(has_key(e, strs(order@)[p]));
                                        assert(0 <= x < e.len());
                                        assert(!m1[x]);
                                        assert(!m0[x]);
                                    }
                                }
                                assert(!strs(order@).contains(e[i as int].0)) by {
                                    let so = strs(order@);
                                    if so.contains(e[i as int].0) {
                                        let p = choose|p: int| 0 <= p < so.len() && so[p] == e[i as int].0;
                                        assert(key_index(e, so[p]) == i) by {
                                            assert(e[key_index(e, so[p])].0 == e[i as int].0);
                                        }
                                        if p < o1.len() {
                                            assert(order@[p] == o1[p]);
                                            assert(!strs(o1).contains(e[i as int].0));
                                            assert(strs(o1)[p] == e[i as int].0);
                                        } else {
                                            assert(!m1[i as int]);
                                        }
                                    }
                                }
                                assert forall|a: int| 0 <= a < stack@.len() implies marks@[#[trigger] stack@[a]] by {
                                    assert(m1[stack@[a]]);
                                }
                            }
                        }
                        proof {
                            assert(key_index(e, t.deps()[j as int]) == k);
                            let ds = t.deps();
                            let a = if has_key(e, ds[j as int]) && !mb[k as int] {
                                walk(e, *fs, force, k as int, mb, f)
                            } else {
                                (mb, Seq::<Seq<char>>::empty())
                            };
                            assert(marks@ == a.0);
                            assert(strs(order@) =~= strs(ob) + a.1);
                            let wj = walk_deps(e, *fs, force, ds, j as int, mb, f);
                            let wn = walk_deps(e, *fs, force, ds, j as int + 1, marks@, f);
                            assert(wj == (wn.0, a.1 + wn.1));
                            assert(strs(ob) + wj.1 =~= strs(order@) + wn.1);
                        }
                    },
                    None => {},
                }
                j = j + 1;
            }
        }
        let name = t.name.clone();
        let ghost o2 = order@;
        let ghost m2 = marks@;
        order.push(name);
        proof {
            let so = strs(order@);
            assert(strs(o2).push(name@) =~= so);
            assert(so.last() == e[i as int].0);
            assert(order@.take(o0.len() as int) =~= o2.take(o0.len() as int));
            assert forall|p: int| 0 <= p < so.len() implies has_key(e, #[trigger] so[p]) && marks@[key_index(e, so[p])] by {
                if p < o2.len() {
                    assert(so[p] == strs(o2)[p]);
                } else {
                    assert(so[p] == e[i as int].0);
                    assert(key_index(e, so[p]) == i) by {
                        assert(e[key_index(e, so[p])].0 == e[i as int].0);
                    }
                }
            }
            assert(so.no_duplicates()) by {
                assert forall|a: int, b: int| 0 <= a < so.len() && 0 <= b < so.len() && a != b implies so[a] != so[b] by {
                    if a < o2.len() && b < o2.len() {
                        assert(so[a] == strs(o2)[a] && so[b] == strs(o2)[b]);
                    } else if a < o2.len() {
                        assert(so[a] == strs(o2)[a]);
                    } else {
                        assert(so[b] == strs(o2)[b]);
                    }
                }
            }
            assert forall|p: int| o0.len() <= p < order@.len()
                implies !m0[key_index(e, #[trigger] order@[p]@)] by {
                if p < o2.len() {
                    assert(order@[p] == o2[p]);
                } else {
                    assert(key_index(e, order@[p]@) == i) by {
                        assert(e[key_index(e, order@[p]@)].0 == e[i as int].0);
                    }
                }
            }
            assert forall|k: int| 0 <= k < e.len() && marks@[k] && !done@.contains(e[k].0)
                && !so.contains(#[trigger] e[k].0) implies stack@.contains(k) by {
                assert(so[so.len() - 1] == e[i as int].0);
                if k != i {
                    assert(!strs(o2).contains(e[k].0)) by {
                        if strs(o2).contains(e[k].0) {
                            let q = choose|q: int| 0 <= q < strs(o2).len() && strs(o2)[q] == e[k].0;
                            assert(so[q] == e[k].0);
                        }
                    }
                    assert(inner.contains(k));
                    let a = choose|a: int| 0 <= a < inner.len() && inner[a] == k;
                    assert(a < stack@.len());
                    assert(stack@[a] == k);
                }
            }
            assert(so.take(strs(o2).len() as int) =~= strs(o2));
            lemma_deps_first_prefix(e, *fs, force, done@, strs(o2), so);
            let p = o2.len() as int;
            assert(key_index(e, so[p]) == i) by {
                assert(e[key_index(e, so[p])].0 == e[i as int].0);
            }
            assert(so.take(p) =~= strs(o2));
            if expand {
                let tt = e[i as int].1;
                assert forall|j: int| 0 <= j < tt.deps().len() implies {
                    let d = #[trigger] tt.deps()[j];
                    done@.contains(d) || so.take(p).contains(d) || reaches(e, d, so[p])
                } by {
                    let d = tt.deps()[j];
                    let kd = key_index(e, d);
                    assert(m2[kd]);
                    assert(has_key(e, d));
                    assert(e[kd].0 == d);
                    if !done@.contains(d) && !strs(o2).contains(d) {
                        assert(inner.contains(kd));
                        let a = choose|a: int| 0 <= a < inner.len() && inner[a] == kd;
                        if a == stack@.len() {
                            assert(kd == i);
                            let path = seq![d];
                            assert(dep_path(e, path));
                            assert(path.last() == d);
                        } else {
                            assert(stack@[a] == kd);
                            lemma_stack_reaches(e, stack@, i as int, a);
                        }
                    }
                }
            }
            assert(placed_after_deps(e, *fs, force, done@, so, p));
            let w = walk(e, *fs, force, i as int, m0, budget@);
            if expand {
                let wd = walk_deps(e, *fs, force, t.deps(), t.deps().len() as int, m2, f);
                assert(wd.1 =~= Seq::<Seq<char>>::empty());
                assert(w.1 == walk_deps(e, *fs, force, e[i as int].1.deps(), 0, m1s, f).1.push(e[i as int].0));
                assert(strs(o2) =~= strs(o0) + walk_deps(e, *fs, force, t.deps(), 0, m1s, f).1);
                assert(so =~= strs(o0) + w.1);
            } else {
                assert(m2 == m1s);
                assert(so =~= strs(o0) + w.1);
            }
        }
    }
}

/// Whether `v` holds a string equal to `s`.
pub fn contains_str(v: &Vec<String>, s: &str) -> (r: bool)
    ensures
        r == strs(v@).contains(s@),
{
    let mut i: usize = 0;
    while i < v.len()
        invariant
            i <= v.len(),
            forall|k: int| 0 <= k < i ==> v@[k]@ != s@,
        decreases v.len() - i,
    {
        if str_eq(v[i].as_str(), s) {
            assert(strs(v@)[i as int] == s@);
            return true;
        }
        i = i + 1;
    }
    proof {
        if strs(v@).contains(s@) {
            let k = choose|k: int| 0 <= k < strs(v@).len() && strs(v@)[k] == s@;
            assert(v@[k]@ == s@);
        }
    }
    false
}

/// What `schedule` returns for a known name: each name once, each a target
/// not processed before, the requested name last unless it was processed
/// before, in which case nothing is scheduled.
pub open spec fn scheduled(e: Seq<(Seq<char>, Target)>, done: Seq<Seq<char>>, name: Seq<char>, order: Seq<Seq<char>>) -> bool {
    &&& order.no_duplicates()
    &&& forall|p: int| 0 <= p < order.len() ==> has_key(e, #[trigger] order[p]) && !done.contains(order[p])
    &&& done.contains(name) ==> order.len() == 0
    &&& !done.contains(name) ==> order.len() > 0 && order.last() == name
}

impl Config {
    /// The order in which to process `name` and the dependencies it descends
    /// into: each dependency is visited in declared order before its dependent,
    /// a name already in `processed` (or already visited) is not visited again,
    /// and the names scheduled are appended to `processed`.
    pub fn schedule(&self, name: &str, force: bool, fs: &FileStates, processed: &mut Vec<String>) -> (r: Result<Vec<String>, BuildError>)
        requires
            self.wf(),
        ensures
            match r {
                Err(x) => !self.contains(name@) && x is UnknownTarget && x->UnknownTarget_0@ == name@
                    && final(processed)@ == old(processed)@,
                Ok(order) => self.contains(name@)
                    && scheduled(self.entries(), strs(old(processed)@), name@, strs(order@))
                    && deps_first(self.entries(), *fs, force, strs(old(processed)@), strs(order@))
                    && strs(order@) == schedule_of(self.entries(), *fs, force, strs(old(processed)@), name@)
                    && strs(final(processed)@) == strs(old(processed)@) + strs(order@),
            },
    {
        let root = match self.index_of(name) {
            Some(i) => i,
            None => {
                return Err(BuildError::UnknownTarget(name.to_string()));
            },
        };
        let ghost e = self.entries();
        let ghost done = strs(processed@);
        let n = self.len();
        let mut marks: Vec<bool> = Vec::new();
        let mut k: usize = 0;
        while k < n
            invariant
                n == e.len(),
                e == self.entries(),
                self.wf(),
                k <= n,
                marks@.len() == k,
                done == strs(processed@),
                forall|x: int| 0 <= x < k ==> (#[trigger] marks@[x] <==> done.contains(e[x].0)),
            decreases n - k,
        {
            let t = self.at(k);
            let seen = contains_str(processed, t.name.as_str());
            marks.push(seen);
            proof {
                assert(t.name@ == e[k as int].0);
            }
            k = k + 1;
        }
        let ghost m0 = marks@;
        let mut order: Vec<String> = Vec::new();
        proof {
            assert(strs(order@) =~= Seq::<Seq<char>>::empty());
        }
        if !marks[root] {
            proof {
                lemma_unmarked_len(m0);
            }
            self.visit(root, force, fs, &mut marks, &mut order, Ghost((n + 1) as nat), Ghost(done), Ghost(Seq::empty()));
        }
        proof {
            assert(m0 =~= Seq::new(e.len(), |x: int| done.contains(e[x].0)));
            let so = strs(order@);
            assert forall|p: int| 0 <= p < so.len() implies has_key(e, #[trigger] so[p]) && !done.contains(so[p]) by {
                let x = key_index(e, so[p]);
                assert(!m0[x]);
                assert(e[x].0 == so[p]);
            }
            if done.contains(name@) {
                assert(m0[root as int]);
            } else {
                assert(!m0[root as int]);
            }
        }
        let mut i: usize = 0;
        while i < order.len()
            invariant
                i <= order.len(),
                strs(processed@) == done + strs(order@.take(i as int)),
            decreases order.len() - i,
        {
            let ghost before = processed@;
            processed.push(order[i].clone());
            proof {
                lemma_strs_push(before, processed@.last());
                lemma_strs_take(order@, i as int);
                assert(strs(processed@) =~= done + strs(order@.take(i as int + 1)));
            }
            i = i + 1;
        }
        assert(order@.take(order.len() as int) =~= order@);
        Ok(order)
    }
}

/// Determinism: the schedule is a function of the targets, the observed files,
/// the force flag, the names processed before and the requested name; two
/// builds that agree on these schedule the same names in the same order.
pub proof fn determinism_law(
    a: Config,
    b: Config,
    fs: FileStates,
    force: bool,
    done: Seq<Seq<char>>,
    name: Seq<char>,
    order_a: Seq<Seq<char>>,
    order_b: Seq<Seq<char>>,
)
    requires
        a.entries() == b.entries(),
        order_a == schedule_of(a.entries(), fs, force, done, name),
        order_b == schedule_of(b.entries(), fs, force, done, name),
    ensures
        order_a == order_b,
{
}

/// A name that depends on `b`, which reaches `c`, reaches `c` too.
proof fn lemma_reaches_prepend(e: Seq<(Seq<char>, Target)>, a: Seq<char>, b: Seq<char>, c: Seq<char>)
    requires
        has_key(e, a),
        e[key_index(e, a)].1.deps().contains(b),
        reaches(e, b, c),
    ensures
        reaches(e, a, c),
{
    let path = choose|path: Seq<Seq<char>>| path.len() > 0 && path[0] == b && path.last() == c && #[trigger] dep_path(e, path);
    let p2 = seq![a] + path;
    assert forall|k: int| 0 <= k < p2.len() - 1 implies has_key(e, #[trigger] p2[k])
        && e[key_index(e, p2[k])].1.deps().contains(p2[k + 1]) by {
        if k > 0 {
            assert(p2[k] == path[k - 1] && p2[k + 1] == path[k]);
        } else {
            assert(p2[1] == b);
        }
    }
    assert(p2.last() == c);
    assert(dep_path(e, p2));
}

/// A name reaches itself.
proof fn lemma_reaches_self(e: Seq<(Seq<char>, Target)>, a: Seq<char>)
    ensures
        reaches(e, a, a),
{
    let p = seq![a];
    assert(dep_path(e, p));
    assert(p.last() == a);
}

/// What a walk keeps: marks only grow; each newly marked target is placed;
/// each placed name was unmarked and is reached from the start; the start is
/// marked and placed last.
proof fn lemma_walk(e: Seq<(Seq<char>, Target)>, fs: FileStates, force: bool, i: int, m: Seq<bool>, f: nat)
    requires
        entries_wf(e),
        m.len() == e.len(),
        0 <= i < e.len(),
        !m[i],
    ensures
        walk(e, fs, force, i, m, f).0.len() == m.len(),
        forall|k: int| 0 <= k < m.len() && m[k] ==> #[trigger] walk(e, fs, force, i, m, f).0[k],
        forall|k: int| 0 <= k < m.len() && walk(e, fs, force, i, m, f).0[k] && !m[k]
            ==> walk(e, fs, force, i, m, f).1.contains(#[trigger] e[k].0),
        forall|q: int| 0 <= q < walk(e, fs, force, i, m, f).1.len() ==> {
            let x = #[trigger] walk(e, fs, force, i, m, f).1[q];
            has_key(e, x) && !m[key_index(e, x)] && reaches(e, e[i].0, x)
        },
        f > 0 ==> walk(e, fs, force, i, m, f).1.len() > 0 && walk(e, fs, force, i, m, f).1.last() == e[i].0
            && walk(e, fs, force, i, m, f).0[i],
    decreases f, 0nat, 0nat,
{
    if f > 0 {
        let m1 = m.update(i, true);
        let ds = e[i].1.deps();
        assert(e[i].0 == e[key_index(e, e[i].0)].0);
        assert(has_key(e, e[i].0));
        assert(key_index(e, e[i].0) == i);
        lemma_reaches_self(e, e[i].0);
        if expands(e, fs, e[i].1, force) {
            assert forall|k: int| 0 <= k < ds.len() implies has_key(e, #[trigger] ds[k]) by {
                assert(e[i].1.deps()[k] == ds[k]);
            }
            lemma_walk_deps(e, fs, force, ds, 0, m1, (f - 1) as nat);
            let r = walk_deps(e, fs, force, ds, 0, m1, (f - 1) as nat);
            let o = r.1.push(e[i].0);
            assert(walk(e, fs, force, i, m, f) == (r.0, o));
            assert forall|q: int| 0 <= q < o.len() implies {
                let x = #[trigger] o[q];
                has_key(e, x) && !m[key_index(e, x)] && reaches(e, e[i].0, x)
            } by {
                if q < r.1.len() {
                    let x = o[q];
                    assert(x == r.1[q]);
                    let k = choose|k: int| 0 <= k < ds.len() && reaches(e, #[trigger] ds[k], x);
                    assert(ds.contains(ds[k]));
                    lemma_reaches_prepend(e, e[i].0, ds[k], x);
                    assert(key_index(e, x) != i);
                }
            }
            assert forall|k: int| 0 <= k < m.len() && r.0[k] && !m[k] implies o.contains(#[trigger] e[k].0) by {
                if k == i {
                    assert(o[o.len() - 1] == e[i].0);
                } else {
                    assert(!m1[k]);
                    let q = choose|q: int| 0 <= q < r.1.len() && r.1[q] == e[k].0;
                    assert(o[q] == e[k].0);
                }
            }
        } else {
            let o = seq![e[i].0];
            assert(walk(e, fs, force, i, m, f) == (m1, o));
            assert forall|k: int| 0 <= k < m.len() && m1[k] && !m[k] implies o.contains(#[trigger] e[k].0) by {
                assert(k == i);
                assert(o[0] == e[i].0);
            }
        }
    }
}

/// What a walk over dependencies keeps, as for `lemma_walk`; each placed name
/// is reached from one of the dependencies walked, and each of them that names
/// a target ends marked.
proof fn lemma_walk_deps(e: Seq<(Seq<char>, Target)>, fs: FileStates, force: bool, ds: Seq<Seq<char>>, j: int, m: Seq<bool>, f: nat)
    requires
        entries_wf(e),
        m.len() == e.len(),
        0 <= j,
        forall|k: int| 0 <= k < ds.len() ==> has_key(e, #[trigger] ds[k]),
    ensures
        walk_deps(e, fs, force, ds, j, m, f).0.len() == m.len(),
        forall|k: int| 0 <= k < m.len() && m[k] ==> #[trigger] walk_deps(e, fs, force, ds, j, m, f).0[k],
        forall|k: int| 0 <= k < m.len() && walk_deps(e, fs, force, ds, j, m, f).0[k] && !m[k]
            ==> walk_deps(e, fs, force, ds, j, m, f).1.contains(#[trigger] e[k].0),
        forall|q: int| 0 <= q < walk_deps(e, fs, force, ds, j, m, f).1.len() ==> {
            let x = #[trigger] walk_deps(e, fs, force, ds, j, m, f).1[q];
            has_key(e, x) && !m[key_index(e, x)] && exists|k: int| j <= k < ds.len() && reaches(e, #[trigger] ds[k], x)
        },
        f > 0 ==> forall|k: int| j <= k < ds.len() ==> #[trigger] walk_deps(e, fs, force, ds, j, m, f).0[key_index(e, ds[k])],
    decreases f, 1nat, ds.len() - j,
{
    if j < ds.len() {
        let k0 = key_index(e, ds[j]);
        assert(has_key(e, ds[j]));
        assert(e[k0].0 == ds[j]);
        let a = if !m[k0] { walk(e, fs, force, k0, m, f) } else { (m, Seq::<Seq<char>>::empty()) };
        if !m[k0] {
            lemma_walk(e, fs, force, k0, m, f);
        }
        lemma_walk_deps(e, fs, force, ds, j + 1, a.0, f);
        let b = walk_deps(e, fs, force, ds, j + 1, a.0, f);
        let o = a.1 + b.1;
        assert(walk_deps(e, fs, force, ds, j, m, f) == (b.0, o));
        assert forall|q: int| 0 <= q < o.len() implies {
            let x = #[trigger] o[q];
            has_key(e, x) && !m[key_index(e, x)] && exists|k: int| j <= k < ds.len() && reaches(e, #[trigger] ds[k], x)
        } by {
            if q < a.1.len() {
                assert(o[q] == a.1[q]);
                assert(reaches(e, ds[j], o[q]));
            } else {
                let x = o[q];
                assert(x == b.1[q - a.1.len()]);
                let k = choose|k: int| j + 1 <= k < ds.len() && reaches(e, #[trigger] ds[k], x);
                assert(reaches(e, ds[k], x));
            }
        }
        assert forall|k: int| 0 <= k < m.len() && b.0[k] && !m[k] implies o.contains(#[trigger] e[k].0) by {
            if a.0[k] {
                let q = choose|q: int| 0 <= q < a.1.len() && a.1[q] == e[k].0;
                assert(o[q] == e[k].0);
            } else {
                let q = choose|q: int| 0 <= q < b.1.len() && b.1[q] == e[k].0;
                assert(o[a.1.len() + q] == e[k].0);
            }
        }
        if f > 0 {
            assert(a.0[k0]);
            assert(b.0[k0]);
        }
    }
}

/// A walk over dependencies from the `a`th on splits at the `b`th: what the
/// dependencies before the `b`th place comes first, and each of them ends marked.
proof fn lemma_walk_deps_split(
    e: Seq<(Seq<char>, Target)>,
    fs: FileStates,
    force: bool,
    ds: Seq<Seq<char>>,
    a: int,
    m: Seq<bool>,
    f: nat,
    b: int,
)
    requires
        entries_wf(e),
        m.len() == e.len(),
        0 <= a <= b <= ds.len(),
        forall|k: int| 0 <= k < ds.len() ==> has_key(e, #[trigger] ds[k]),
    ensures
        exists|mb: Seq<bool>, pre: Seq<Seq<char>>|
            #![trigger walk_deps(e, fs, force, ds, b, mb, f), pre.len()]
            {
                &&& walk_deps(e, fs, force, ds, a, m, f) == (walk_deps(e, fs, force, ds, b, mb, f).0,
                    pre + walk_deps(e, fs, force, ds, b, mb, f).1)
                &&& mb.len() == m.len()
                &&& forall|k: int| 0 <= k < m.len() && m[k] ==> #[trigger] mb[k]
                &&& forall|k: int| 0 <= k < m.len() && mb[k] && !m[k] ==> pre.contains(#[trigger] e[k].0)
                &&& forall|q: int| #![trigger pre[q]] 0 <= q < pre.len() ==> exists|k: int| a <= k < b && reaches(e, #[trigger] ds[k], pre[q])
                &&& f > 0 ==> forall|k: int| a <= k < b ==> mb[key_index(e, #[trigger] ds[k])]
            },
    decreases b - a,
{
    if a == b {
        let pre = Seq::<Seq<char>>::empty();
        assert(walk_deps(e, fs, force, ds, a, m, f).1 =~= pre + walk_deps(e, fs, force, ds, b, m, f).1);
        assert(walk_deps(e, fs, force, ds, a, m, f) == (walk_deps(e, fs, force, ds, b, m, f).0,
            pre + walk_deps(e, fs, force, ds, b, m, f).1));
    } else {
        let k0 = key_index(e, ds[a]);
        assert(has_key(e, ds[a]));
        assert(e[k0].0 == ds[a]);
        let first = if !m[k0] { walk(e, fs, force, k0, m, f) } else { (m, Seq::<Seq<char>>::empty()) };
        if !m[k0] {
            lemma_walk(e, fs, force, k0, m, f);
        }
        lemma_walk_deps_split(e, fs, force, ds, a + 1, first.0, f, b);
        let (mb, rest) = choose|mb: Seq<bool>, pre: Seq<Seq<char>>|
            #![trigger walk_deps(e, fs, force, ds, b, mb, f), pre.len()]
            {
                &&& walk_deps(e, fs, force, ds, a + 1, first.0, f) == (walk_deps(e, fs, force, ds, b, mb, f).0,
                    pre + walk_deps(e, fs, force, ds, b, mb, f).1)
                &&& mb.len() == first.0.len()
                &&& forall|k: int| 0 <= k < first.0.len() && first.0[k] ==> #[trigger] mb[k]
                &&& forall|k: int| 0 <= k < first.0.len() && mb[k] && !first.0[k] ==> pre.contains(#[trigger] e[k].0)
                &&& forall|q: int| #![trigger pre[q]] 0 <= q < pre.len() ==> exists|k: int| a + 1 <= k < b && reaches(e, #[trigger] ds[k], pre[q])
                &&& f > 0 ==> forall|k: int| a + 1 <= k < b ==> mb[key_index(e, #[trigger] ds[k])]
            };
        let pre = first.1 + rest;
        let tail = walk_deps(e, fs, force, ds, b, mb, f);
        assert(walk_deps(e, fs, force, ds, a, m, f).1 == first.1 + (rest + tail.1));
        assert(first.1 + (rest + tail.1) =~= pre + tail.1);
        assert forall|k: int| 0 <= k < m.len() && mb[k] && !m[k] implies pre.contains(#[trigger] e[k].0) by {
            if first.0[k] {
                let q = choose|q: int| 0 <= q < first.1.len() && first.1[q] == e[k].0;
                assert(pre[q] == e[k].0);
            } else {
                let q = choose|q: int| 0 <= q < rest.len() && rest[q] == e[k].0;
                assert(pre[first.1.len() + q] == e[k].0);
            }
        }
        assert forall|q: int| #![trigger pre[q]] 0 <= q < pre.len() implies exists|k: int| a <= k < b && reaches(e, #[trigger] ds[k], pre[q]) by {
            if q < first.1.len() {
                assert(pre[q] == first.1[q]);
                assert(reaches(e, ds[a], pre[q]));
            } else {
                assert(pre[q] == rest[q - first.1.len()]);
                let k = choose|k: int| a + 1 <= k < b && reaches(e, #[trigger] ds[k], rest[q - first.1.len()]);
                assert(reaches(e, ds[k], pre[q]));
            }
        }
        if f > 0 {
            assert(first.0[k0]);
            assert forall|k: int| a <= k < b implies mb[key_index(e, #[trigger] ds[k])] by {
                if k == a {
                    assert(mb[k0]);
                }
            }
        }
        assert(walk_deps(e, fs, force, ds, a, m, f) == (tail.0, pre + tail.1));
    }
}

/// Sibling order: for the requested target, of two dependencies declared one
/// after the other, the later one is scheduled, and after the earlier one
/// wherever that is scheduled too, provided the later one was not processed
/// before, is not the target itself, and is not reached from any dependency
/// declared before it (the earlier one not being the target either).
pub proof fn sibling_order_law(
    cfg: Config,
    fs: FileStates,
    force: bool,
    done: Seq<Seq<char>>,
    name: Seq<char>,
    order: Seq<Seq<char>>,
    j: int,
)
    requires
        cfg.wf(),
        cfg.contains(name),
        !done.contains(name),
        scheduled(cfg.entries(), done, name, order),
        order == schedule_of(cfg.entries(), fs, force, done, name),
        expands(cfg.entries(), fs, cfg.get(name), force),
        0 <= j && j + 1 < cfg.get(name).deps().len(),
        !done.contains(cfg.get(name).deps()[j + 1]),
        cfg.get(name).deps()[j + 1] != name,
        cfg.get(name).deps()[j] != name,
        forall|k: int| 0 <= k <= j ==> !reaches(cfg.entries(), #[trigger] cfg.get(name).deps()[k], cfg.get(name).deps()[j + 1]),
    ensures
        exists|q2: int|
            0 <= q2 < order.len() && order[q2] == cfg.get(name).deps()[j + 1] && forall|q: int|
                0 <= q < order.len() && #[trigger] order[q] == cfg.get(name).deps()[j] ==> q < q2,
{
    let e = cfg.entries();
    let t = cfg.get(name);
    let ds = t.deps();
    let ti = key_index(e, name);
    assert(e[ti].0 == name);
    let m0 = Seq::new(e.len(), |k: int| done.contains(e[k].0));
    assert(!m0[ti]);
    let f = (e.len() + 1) as nat;
    let m1 = m0.update(ti, true);
    let n = e.len() as nat;
    assert forall|k: int| 0 <= k < ds.len() implies has_key(e, #[trigger] ds[k]) by {
        assert(e[ti].1.deps()[k] == ds[k]);
    }
    lemma_walk(e, fs, force, ti, m0, f);
    let w = walk_deps(e, fs, force, ds, 0, m1, n);
    assert(order == w.1.push(name));
    lemma_walk_deps_split(e, fs, force, ds, 0, m1, n, j + 1);
    let (mb, pre) = choose|mb: Seq<bool>, pre: Seq<Seq<char>>|
        #![trigger walk_deps(e, fs, force, ds, j + 1, mb, n), pre.len()]
        {
            &&& walk_deps(e, fs, force, ds, 0, m1, n) == (walk_deps(e, fs, force, ds, j + 1, mb, n).0,
                pre + walk_deps(e, fs, force, ds, j + 1, mb, n).1)
            &&& mb.len() == m1.len()
            &&& forall|k: int| 0 <= k < m1.len() && m1[k] ==> #[trigger] mb[k]
            &&& forall|k: int| 0 <= k < m1.len() && mb[k] && !m1[k] ==> pre.contains(#[trigger] e[k].0)
            &&& forall|q: int| #![trigger pre[q]] 0 <= q < pre.len() ==> exists|k: int| 0 <= k < j + 1 && reaches(e, #[trigger] ds[k], pre[q])
            &&& n > 0 ==> forall|k: int| 0 <= k < j + 1 ==> mb[key_index(e, #[trigger] ds[k])]
        };
    let kd = key_index(e, ds[j + 1]);
    assert(has_key(e, ds[j + 1]));
    assert(e[kd].0 == ds[j + 1]);
    assert(!mb[kd]) by {
        if mb[kd] {
            if m1[kd] {
                if kd == ti {
                    assert(ds[j + 1] == name);
                } else {
                    assert(m0[kd]);
                }
            } else {
                assert(pre.contains(e[kd].0));
                let q = choose|q: int| 0 <= q < pre.len() && pre[q] == e[kd].0;
                let k = choose|k: int| 0 <= k < j + 1 && reaches(e, #[trigger] ds[k], pre[q]);
                assert(reaches(e, ds[k], ds[j + 1]));
            }
        }
    }
    lemma_walk(e, fs, force, kd, mb, n);
    let own = walk(e, fs, force, kd, mb, n);
    let rest = walk_deps(e, fs, force, ds, j + 2, own.0, n);
    assert(walk_deps(e, fs, force, ds, j + 1, mb, n).1 == own.1 + rest.1);
    let q2 = pre.len() + own.1.len() - 1;
    assert(order == pre + (own.1 + rest.1) + seq![name]) by {
        assert(order =~= pre + (own.1 + rest.1) + seq![name]);
    }
    assert(order[q2] == ds[j + 1]);
    assert forall|q: int| 0 <= q < order.len() && #[trigger] order[q] == ds[j] implies q < q2 by {
        let kj = key_index(e, ds[j]);
        assert(has_key(e, ds[j]));
        assert(e[kj].0 == ds[j]);
        assert(mb[kj]);
        if m1[kj] {
            if kj == ti {
                assert(ds[j] == name);
            } else {
                assert(m0[kj]);
                assert(q < order.len() - 1);
                assert(order[q] == walk(e, fs, force, ti, m0, f).1[q]);
                assert(key_index(e, order[q]) == kj);
            }
        } else {
            assert(pre.contains(e[kj].0));
            let q1 = choose|q1: int| 0 <= q1 < pre.len() && pre[q1] == e[kj].0;
            assert(order[q1] == ds[j]);
            assert(order.no_duplicates());
            assert(q == q1);
        }
    }
}

} // verus!

//! The derivation of a theorem: the theorem and the theorems from which
//! it was derived, back to the axioms.

use vstd::prelude::*;
use crate::context::{Context, Entries, Source};
use crate::formula::language::Language;

verus! {

/// Whether a source of the entry at `child` names the index of the
/// entry at `parent`.
pub open spec fn parent_of<L: Language>(e: Entries<L>, child: int, parent: int) -> bool {
    exists|s: int|
        0 <= s < e[child].1.sources@.len() && names(#[trigger] e[child].1.sources@[s], e[parent].1.index)
}

/// Whether the source is a pair that has the index in it.
pub open spec fn names(s: Source, index: usize) -> bool {
    match s {
        Source::Axiom => false,
        Source::MP(a, b) => a == index || b == index,
    }
}

/// Whether each entry of the path but the first is named by a source of
/// the one before it.
pub open spec fn chain<L: Language>(e: Entries<L>, path: Seq<int>) -> bool {
    forall|t: int|
        1 <= t < path.len() ==> 0 <= path[t - 1] < e.len() && parent_of(
            e,
            path[t - 1],
            #[trigger] path[t],
        )
}

/// Whether the entry at `m` is the entry at `k` or one from which it
/// was derived, in one or more steps.
pub open spec fn ancestor<L: Language>(e: Entries<L>, k: int, m: int) -> bool {
    exists|path: Seq<int>|
        #[trigger] chain(e, path) && path.len() > 0 && path[0] == k && path.last() == m
}

/// The number of places among the first `n` that are not marked.
pub open spec fn unmarked(marks: Seq<bool>, n: int) -> nat
    decreases n,
{
    if n <= 0 {
        0
    } else {
        unmarked(marks, n - 1) + if marks[n - 1] {
            0nat
        } else {
            1nat
        }
    }
}

/// To mark a place that was not marked leaves one less unmarked.
proof fn lemma_mark(marks: Seq<bool>, at: int, n: int)
    requires
        0 <= at < marks.len(),
        0 <= n <= marks.len(),
        !marks[at],
    ensures
        unmarked(marks.update(at, true), n) == unmarked(marks, n) - if at < n {
            1int
        } else {
            0int
        },
    decreases n,
{
    if n > 0 {
        lemma_mark(marks, at, n - 1);
    }
}

/// Whether the marks hold the entry at `k` and only entries that it
/// descends from, and every entry that a source of a marked entry
/// names is marked too, unless the marked entry still waits in `todo`.
pub open spec fn marking<L: Language>(
    e: Entries<L>,
    k: int,
    marks: Seq<bool>,
    todo: Seq<usize>,
) -> bool {
    &&& marks.len() == e.len()
    &&& 0 <= k < e.len()
    &&& marks[k]
    &&& forall|m: int| 0 <= m < e.len() && #[trigger] marks[m] ==> ancestor(e, k, m)
    &&& forall|t: int| 0 <= t < todo.len() ==> (#[trigger] todo[t]) < e.len() && marks[todo[t] as int]
    &&& forall|m: int, p: int|
        0 <= m < e.len() && 0 <= p < e.len() && marks[m] && !todo.contains(m as usize)
            && #[trigger] parent_of(e, m, p) ==> #[trigger] marks[p]
}

/// Marks that are closed hold every entry of a path from the entry at
/// `k`.
proof fn lemma_closed<L: Language>(e: Entries<L>, k: int, marks: Seq<bool>, path: Seq<int>, t: int)
    requires
        marking(e, k, marks, Seq::empty()),
        chain(e, path),
        path.len() > 0,
        path[0] == k,
        0 <= t < path.len(),
        0 <= path[t] < e.len(),
    ensures
        marks[path[t]],
    decreases t,
{
    if t > 0 {
        assert(0 <= path[t - 1] < e.len() && parent_of(e, path[t - 1], path[t]));
        lemma_closed(e, k, marks, path, t - 1);
        assert(!Seq::<usize>::empty().contains(path[t - 1] as usize));
    }
}

/// A parent of an ancestor is an ancestor.
proof fn lemma_ancestor_step<L: Language>(e: Entries<L>, k: int, c: int, m: int)
    requires
        0 <= c < e.len(),
        ancestor(e, k, c),
        parent_of(e, c, m),
    ensures
        ancestor(e, k, m),
{
    let path = choose|path: Seq<int>|
        #[trigger] chain(e, path) && path.len() > 0 && path[0] == k && path.last() == c;
    let longer = path.push(m);
    assert forall|t: int| 1 <= t < longer.len() implies 0 <= longer[t - 1] < e.len() && parent_of(
        e,
        longer[t - 1],
        #[trigger] longer[t],
    ) by {
        if t < path.len() {
            assert(parent_of(e, path[t - 1], path[t]));
        }
    }
    assert(longer[0] == path[0]);
    assert(longer.last() == m);
    assert(chain(e, longer));
}

impl<L: Language> Context<L> {
    /// Marks every entry that has the index `index` and is not marked
    /// yet, and puts it on the list of entries to visit.
    fn mark_index(
        &self,
        index: usize,
        marks: &mut Vec<bool>,
        todo: &mut Vec<usize>,
        Ghost(k): Ghost<int>,
        Ghost(from): Ghost<int>,
        Ghost(source): Ghost<Source>,
    )
        requires
            old(marks)@.len() == self@.len(),
            0 <= from < self@.len(),
            ancestor(self@, k, from),
            self@[from].1.sources@.contains(source),
            names(source, index),
            forall|t: int|
                0 <= t < old(todo)@.len() ==> (#[trigger] old(todo)@[t]) < self@.len() && old(marks)@[old(todo)@[t] as int],
            forall|m: int|
                0 <= m < self@.len() && #[trigger] old(marks)@[m] ==> ancestor(self@, k, m),
        ensures
            final(marks)@.len() == self@.len(),
            forall|m: int| 0 <= m < self@.len() && old(marks)@[m] ==> #[trigger] final(marks)@[m],
            forall|m: int|
                0 <= m < self@.len() && #[trigger] final(marks)@[m] ==> ancestor(self@, k, m),
            forall|m: int|
                0 <= m < self@.len() && (#[trigger] self@[m]).1.index == index ==> final(marks)@[m],
            forall|t: int|
                0 <= t < final(todo)@.len() ==> (#[trigger] final(todo)@[t]) < self@.len() && final(marks)@[final(todo)@[t] as int],
            forall|t: int| 0 <= t < old(todo)@.len() ==> final(todo)@[t] == old(todo)@[t],
            old(todo)@.len() <= final(todo)@.len(),
            forall|x: int|
                0 <= x < self@.len() && final(marks)@[x] && !old(marks)@[x] ==> final(todo)@.contains(x as usize),
            unmarked(final(marks)@, self@.len() as int) + final(todo)@.len() == unmarked(
                old(marks)@,
                self@.len() as int,
            ) + old(todo)@.len(),
    {
        let ghost e = self@;
        let entries = self.entries();
        let n = entries.len();
        let mut m: usize = 0;
        while m < n
            invariant
                entries@ == e,
                e == self@,
                n == e.len(),
                m <= n,
                marks@.len() == n,
                0 <= from < e.len(),
                ancestor(e, k, from),
                e[from].1.sources@.contains(source),
                names(source, index),
                forall|x: int| 0 <= x < n && old(marks)@[x] ==> #[trigger] marks@[x],
                forall|x: int| 0 <= x < n && #[trigger] marks@[x] ==> ancestor(e, k, x),
                forall|x: int| 0 <= x < m && (#[trigger] e[x]).1.index == index ==> marks@[x],
                forall|t: int|
                    0 <= t < todo@.len() ==> (#[trigger] todo@[t]) < n && marks@[todo@[t] as int],
                forall|t: int| 0 <= t < old(todo)@.len() ==> todo@[t] == old(todo)@[t],
                old(todo)@.len() <= todo@.len(),
                forall|x: int|
                    0 <= x < n && marks@[x] && !old(marks)@[x] ==> todo@.contains(x as usize),
                unmarked(marks@, n as int) + todo@.len() == unmarked(old(marks)@, n as int) + old(todo)@.len(),
            decreases n - m,
        {
            if entries[m].1.index == index && !marks[m] {
                let ghost before = marks@;
                let ghost waiting = todo@;
                proof {
                    lemma_mark(before, m as int, n as int);
                    let s = choose|s: int|
                        0 <= s < e[from].1.sources@.len() && e[from].1.sources@[s] == source;
                    assert(names(e[from].1.sources@[s], e[m as int].1.index));
                    assert(parent_of(e, from, m as int));
                    lemma_ancestor_step(e, k, from, m as int);
                }
                marks.set(m, true);
                todo.push(m);
                proof {
                    assert(todo@[waiting.len() as int] == m);
                    assert forall|x: int|
                        0 <= x < n && marks@[x] && !old(marks)@[x] implies todo@.contains(
                        x as usize,
                    ) by {
                        if x == m {
                        } else {
                            assert(before[x]);
                            let t = choose|t: int| 0 <= t < waiting.len() && waiting[t] == x as usize;
                            assert(todo@[t] == x as usize);
                        }
                    }
                }
            }
            m += 1;
        }
    }

    /// The derivation of the theorem at `place`: the places of the
    /// theorem and of every theorem from which it was derived, in one or
    /// more steps, each once, in the order of their indices.
    pub fn derivation(&self, place: usize) -> (found: Vec<usize>)
        requires
            self.wf(),
            place < self@.len(),
        ensures
            forall|m: usize|
                found@.contains(m) <==> m < self@.len() && ancestor(self@, place as int, m as int),
            forall|t: int, u: int|
                0 <= t < u < found@.len() ==> self@[(#[trigger] found@[t]) as int].1.index < self@[(
                #[trigger] found@[u]) as int].1.index,
    {
        let ghost e = self@;
        let ghost k = place as int;
        let entries = self.entries();
        let n = entries.len();
        let mut marks: Vec<bool> = Vec::new();
        let mut i: usize = 0;
        while i < n
            invariant
                i <= n,
                marks@.len() == i,
                forall|m: int| 0 <= m < i ==> !#[trigger] marks@[m],
            decreases n - i,
        {
            marks.push(false);
            i += 1;
        }
        marks.set(place, true);
        let mut todo: Vec<usize> = Vec::new();
        todo.push(place);
        proof {
            let alone = seq![k];
            assert(chain(e, alone) && alone[0] == k && alone.last() == k);
            assert(todo@[0] == place);
            assert(todo@.contains(place));
            assert forall|m: int, p: int|
                0 <= m < e.len() && 0 <= p < e.len() && marks@[m] && !todo@.contains(m as usize)
                    && #[trigger] parent_of(e, m, p) implies #[trigger] marks@[p] by {}
        }
        while todo.len() > 0
            invariant
                entries@ == e,
                e == self@,
                n == e.len(),
                k == place,
                marking(e, k, marks@, todo@),
            decreases unmarked(marks@, n as int), todo@.len(),
        {
            let ghost was_todo = todo@;
            let ghost was_marks = marks@;
            let m = todo.pop().unwrap();
            let ghost rest = todo@;
            proof {
                assert(was_todo[was_todo.len() - 1] == m);
                assert(rest =~= was_todo.drop_last());
                assert forall|t: int| 0 <= t < rest.len() implies (#[trigger] rest[t]) < e.len()
                    && marks@[rest[t] as int] by {
                    assert(rest[t] == was_todo[t]);
                }
            }
            proof {
                assert(was_marks[m as int]);
                assert(ancestor(e, k, m as int));
            }
            let count = entries[m].1.sources.len();
            let mut s: usize = 0;
            while s < count
                invariant
                    entries@ == e,
                    e == self@,
                    n == e.len(),
                    k == place,
                    place < n,
                    m < n,
                    was_marks[m as int],
                    ancestor(e, k, m as int),
                    count == e[m as int].1.sources@.len(),
                    s <= count,
                    marks@.len() == n,
                    marks@[k],
                    was_marks.len() == n,
                    forall|x: int| 0 <= x < n && was_marks[x] ==> #[trigger] marks@[x],
                    forall|x: int| 0 <= x < n && #[trigger] marks@[x] ==> ancestor(e, k, x),
                    forall|t: int|
                        0 <= t < todo@.len() ==> (#[trigger] todo@[t]) < n && marks@[todo@[t] as int],
                    forall|t: int| 0 <= t < rest.len() ==> todo@[t] == rest[t],
                    rest.len() <= todo@.len(),
                    forall|x: int|
                        0 <= x < n && marks@[x] && !was_marks[x] ==> todo@.contains(x as usize),
                    unmarked(marks@, n as int) + todo@.len() == unmarked(was_marks, n as int)
                        + rest.len(),
                    forall|t: int, p: int|
                        0 <= t < s && 0 <= p < n && names(
                            #[trigger] e[m as int].1.sources@[t],
                            (#[trigger] e[p]).1.index,
                        ) ==> marks@[p],
                decreases count - s,
            {
                let source = entries[m].1.sources[s];
                let ghost src = e[m as int].1.sources@[s as int];
                proof {
                    assert(e[m as int].1.sources@.contains(src));
                    assert(was_marks[m as int]);
                }
                match source {
                    Source::Axiom => {},
                    Source::MP(a, b) => {
                        self.mark_index(a, &mut marks, &mut todo, Ghost(k), Ghost(m as int), Ghost(src));
                        self.mark_index(b, &mut marks, &mut todo, Ghost(k), Ghost(m as int), Ghost(src));
                    },
                }
                s += 1;
            }
            proof {
                assert forall|x: int, p: int|
                    0 <= x < e.len() && 0 <= p < e.len() && marks@[x] && !todo@.contains(x as usize)
                        && #[trigger] parent_of(e, x, p) implies #[trigger] marks@[p] by {
                    if x == m {
                        let t = choose|t: int|
                            0 <= t < e[x].1.sources@.len() && names(
                                #[trigger] e[x].1.sources@[t],
                                e[p].1.index,
                            );
                        assert(names(e[m as int].1.sources@[t], e[p].1.index));
                    } else {
                        assert(was_marks[x]);
                        if was_todo.contains(x as usize) {
                            let t = choose|t: int|
                                0 <= t < was_todo.len() && was_todo[t] == x as usize;
                            assert(t < rest.len());
                            assert(todo@[t] == rest[t]);
                            assert(rest[t] == was_todo[t]);
                            assert(todo@.contains(x as usize));
                        }
                        assert(was_marks[p]);
                    }
                }
                if unmarked(marks@, n as int) == unmarked(was_marks, n as int) {
                    assert(todo@.len() == rest.len());
                }
            }
        }
        proof {
            assert(todo@ =~= Seq::<usize>::empty());
            assert forall|m: int| 0 <= m < e.len() && ancestor(e, k, m) implies marks@[m] by {
                let path = choose|path: Seq<int>|
                    #[trigger] chain(e, path) && path.len() > 0 && path[0] == k && path.last()
                        == m;
                lemma_closed(e, k, marks@, path, path.len() - 1);
            }
        }
        self.sorted_marks(&marks)
    }

    /// The marked places, in the order of the indices of the entries.
    fn sorted_marks(&self, marks: &Vec<bool>) -> (found: Vec<usize>)
        requires
            self.wf(),
            marks@.len() == self@.len(),
        ensures
            forall|x: usize| found@.contains(x) <==> x < self@.len() && marks@[x as int],
            forall|t: int, u: int|
                0 <= t < u < found@.len() ==> self@[(#[trigger] found@[t]) as int].1.index < self@[(
                #[trigger] found@[u]) as int].1.index,
    {
        let ghost e = self@;
        let entries = self.entries();
        let n = entries.len();
        let mut found: Vec<usize> = Vec::new();
        let mut m: usize = 0;
        proof {
            self.lemma_regular();
        }
        while m < n
            invariant
                entries@ == e,
                e == self@,
                n == e.len(),
                marks@.len() == n,
                m <= n,
                crate::context::regular::<L>(e, self.next_index()),
                forall|x: usize| found@.contains(x) <==> x < m && marks@[x as int],
                forall|t: int, u: int|
                    0 <= t < u < found@.len() ==> e[(#[trigger] found@[t]) as int].1.index < e[(
                    #[trigger] found@[u]) as int].1.index,
            decreases n - m,
        {
            if marks[m] {
                let index = entries[m].1.index;
                let ghost before = found@;
                proof {
                    assert forall|t: int| 0 <= t < before.len() implies (#[trigger] before[t]) < m by {
                        assert(before.contains(before[t]));
                    }
                }
                let mut at: usize = 0;
                while at < found.len() && entries[found[at]].1.index < index
                    invariant
                        entries@ == e,
                        n == e.len(),
                        m < n,
                        found@ == before,
                        at <= found@.len(),
                        forall|t: int| 0 <= t < found@.len() ==> (#[trigger] found@[t]) < m,
                        forall|t: int| 0 <= t < at ==> e[(#[trigger] found@[t]) as int].1.index < index,
                    decreases found@.len() - at,
                {
                    at += 1;
                }
                found.insert(at, m);
                proof {
                    let now = found@;
                    before.insert_ensures(at as int, m);
                    assert forall|t: int| at < t < now.len() implies #[trigger] now[t] == before[t
                        - 1] by {
                        assert(now[(t - 1) + 1] == before[t - 1]);
                    }
                    assert forall|x: usize| now.contains(x) <==> x < m + 1 && marks@[x as int] by {
                        if now.contains(x) {
                            let t = choose|t: int| 0 <= t < now.len() && now[t] == x;
                            if t < at {
                                assert(before[t] == x);
                                assert(before.contains(x));
                            } else if t > at {
                                assert(before[t - 1] == x);
                                assert(before.contains(x));
                            }
                        }
                        if x < m + 1 && marks@[x as int] {
                            if x == m {
                                assert(now[at as int] == x);
                            } else {
                                assert(before.contains(x));
                                let t = choose|t: int| 0 <= t < before.len() && before[t] == x;
                                if t < at {
                                    assert(now[t] == x);
                                } else {
                                    assert(now[t + 1] == x);
                                }
                            }
                        }
                    }
                    assert forall|t: int, u: int| 0 <= t < u < now.len() implies e[(
                    #[trigger] now[t]) as int].1.index < e[(#[trigger] now[u]) as int].1.index by {
                        if u < at {
                            assert(now[t] == before[t] && now[u] == before[u]);
                        } else if u == at {
                            assert(now[t] == before[t]);
                        } else if t < at {
                            assert(now[t] == before[t] && now[u] == before[u - 1]);
                            if t == u - 1 {
                            }
                        } else if t == at {
                            assert(now[u] == before[u - 1]);
                            let other = before[u - 1];
                            assert(other < m);
                            assert(e[other as int].1.index != e[m as int].1.index);
                            if u - 1 > at {
                                assert(e[before[at as int] as int].1.index < e[before[u
                                    - 1] as int].1.index);
                            }
                        } else {
                            assert(now[t] == before[t - 1] && now[u] == before[u - 1]);
                        }
                    }
                }
            }
            m += 1;
        }
        found
    }
}

} // verus!

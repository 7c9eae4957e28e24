//! What is written of a context: the line of a theorem in a derivation,
//! and how many theorems there are of each length.

use vstd::prelude::*;
use crate::context::{Context, Entries, Source};
use crate::formula::digits::{decimal, push_decimal};
use crate::formula::language::Language;
use crate::formula::polish::{render, Notation};

verus! {

/// The first `n` of the sources in their written forms, with `; `
/// between them.
pub open spec fn joined(sources: Seq<Source>, n: int) -> Seq<char>
    decreases n,
{
    if n <= 0 {
        Seq::empty()
    } else if n == 1 {
        sources[0].written()
    } else {
        joined(sources, n - 1) + seq![';', ' '] + sources[n - 1].written()
    }
}

/// The line of the entry at `k`: its index, a colon, its formula, and
/// its sources in brackets.
pub open spec fn line<L: Notation>(e: Entries<L>, k: int) -> Seq<char> {
    decimal(e[k].1.index as nat) + seq![':', ' '] + render::<L>(e[k].0@) + seq![' ', '(']
        + joined(e[k].1.sources@, e[k].1.sources@.len() as int) + seq![')']
}

/// The number of the first `n` entries whose formula has `len` symbols.
pub open spec fn of_length<L: Language>(e: Entries<L>, len: nat, n: int) -> nat
    decreases n,
{
    if n <= 0 {
        0
    } else {
        of_length(e, len, n - 1) + if e[n - 1].0@.len() == len {
            1nat
        } else {
            0nat
        }
    }
}

/// Whether one of the rows is for the length `len`.
pub open spec fn has_row(rows: Seq<(usize, usize)>, len: nat) -> bool {
    exists|r: int| 0 <= r < rows.len() && (#[trigger] rows[r]).0 == len
}

/// There are no more entries of one length than entries.
pub proof fn lemma_of_length<L: Language>(e: Entries<L>, len: nat, n: int)
    requires
        0 <= n <= e.len(),
    ensures
        of_length(e, len, n) <= n,
    decreases n,
{
    if n > 0 {
        lemma_of_length(e, len, n - 1);
    }
}

impl<L: Language> Context<L> {
    /// The line of the theorem at `place` in a derivation: its index, a
    /// colon, the formula, and in brackets the sources with `; ` between
    /// them.
    pub fn describe(&self, place: usize) -> (text: String) where L: Notation
        requires
            place < self@.len(),
        ensures
            text@ == line::<L>(self@, place as int),
    {
        proof {
            reveal_strlit(": ");
            reveal_strlit(" (");
            reveal_strlit("; ");
            reveal_strlit(")");
        }
        let entries = self.entries();
        let meta = &entries[place].1;
        let ghost sources = meta.sources@;
        let mut out = String::new();
        push_decimal(&mut out, meta.index);
        out.append(": ");
        let formula = entries[place].0.to_string();
        out.append(formula.as_str());
        out.append(" (");
        let ghost head = out@;
        let mut s: usize = 0;
        while s < meta.sources.len()
            invariant
                sources == meta.sources@,
                s <= sources.len(),
                out@ == head + joined(sources, s as int),
            decreases sources.len() - s,
        {
            let ghost sofar = joined(sources, s as int);
            proof {
                reveal_strlit("; ");
            }
            if s > 0 {
                out.append("; ");
            }
            meta.sources[s].write_to(&mut out);
            proof {
                let more = joined(sources, s as int + 1);
                if s == 0 {
                    assert(sofar =~= Seq::<char>::empty());
                    assert(more == sources[0].written());
                } else {
                    assert(more == sofar + seq![';', ' '] + sources[s as int].written());
                }
                assert(out@ =~= head + more);
            }
            s += 1;
        }
        out.append(")");
        proof {
            assert(out@ =~= line::<L>(self@, place as int));
        }
        out
    }

    /// How many theorems there are of each length: a row for each length
    /// that occurs, with the number of theorems of that length, in the
    /// order of the lengths.
    pub fn histogram(&self) -> (rows: Vec<(usize, usize)>)
        ensures
            forall|r: int|
                0 <= r < rows@.len() ==> (#[trigger] rows@[r]).1 > 0 && rows@[r].1 == of_length(
                    self@,
                    rows@[r].0 as nat,
                    self@.len() as int,
                ),
            forall|r: int, q: int| 0 <= r < q < rows@.len() ==> (#[trigger] rows@[r]).0 < (
            #[trigger] rows@[q]).0,
            forall|k: int|
                0 <= k < self@.len() ==> has_row(rows@, (#[trigger] self@[k]).0@.len()),
    {
        let ghost e = self@;
        let entries = self.entries();
        let n = entries.len();
        let mut rows: Vec<(usize, usize)> = Vec::new();
        let mut k: usize = 0;
        while k < n
            invariant
                entries@ == e,
                n == e.len(),
                k <= n,
                forall|r: int|
                    0 <= r < rows@.len() ==> (#[trigger] rows@[r]).1 > 0 && rows@[r].1
                        == of_length(e, rows@[r].0 as nat, k as int),
                forall|r: int, q: int| 0 <= r < q < rows@.len() ==> (#[trigger] rows@[r]).0 < (
                #[trigger] rows@[q]).0,
                forall|len: nat| #[trigger] of_length(e, len, k as int) > 0 ==> has_row(rows@, len),
            decreases n - k,
        {
            let len = entries[k].0.len();
            let ghost before = rows@;
            let mut at: usize = 0;
            while at < rows.len() && rows[at].0 < len
                invariant
                    rows@ == before,
                    at <= rows@.len(),
                    forall|r: int| 0 <= r < at ==> (#[trigger] rows@[r]).0 < len,
                decreases rows@.len() - at,
            {
                at += 1;
            }
            if at < rows.len() && rows[at].0 == len {
                let amount = rows[at].1;
                proof {
                    lemma_of_length(e, len as nat, k as int);
                }
                rows.set(at, (len, amount + 1));
                proof {
                    let now = rows@;
                    assert forall|r: int| 0 <= r < now.len() implies (#[trigger] now[r]).1 > 0
                        && now[r].1 == of_length(e, now[r].0 as nat, k as int + 1) by {
                        if r != at {
                            assert(now[r] == before[r]);
                            if r < at {
                                assert(before[r].0 < before[at as int].0);
                            } else {
                                assert(before[at as int].0 < before[r].0);
                            }
                        }
                    }
                    assert forall|r: int, q: int| 0 <= r < q < now.len() implies (
                    #[trigger] now[r]).0 < (#[trigger] now[q]).0 by {
                        assert(now[r].0 == before[r].0 && now[q].0 == before[q].0);
                    }
                    assert forall|l: nat| #[trigger] of_length(e, l, k as int + 1) > 0 implies has_row(
                        now,
                        l,
                    ) by {
                        if l == len {
                            assert(now[at as int].0 == l);
                        } else {
                            assert(of_length(e, l, k as int) > 0);
                            let r = choose|r: int| 0 <= r < before.len() && (#[trigger] before[r]).0
                                == l;
                            assert(now[r].0 == l);
                        }
                    }
                }
            } else {
                proof {
                    if of_length(e, len as nat, k as int) > 0 {
                        let r = choose|r: int| 0 <= r < before.len() && (#[trigger] before[r]).0
                            == len;
                        if r < at {
                        } else if r > at {
                            assert(before[at as int].0 < before[r].0);
                        }
                        assert(false);
                    }
                }
                rows.insert(at, (len, 1));
                proof {
                    let now = rows@;
                    before.insert_ensures(at as int, (len, 1usize));
                    assert forall|r: int| at < r < now.len() implies #[trigger] now[r] == before[r
                        - 1] by {
                        assert(now[(r - 1) + 1] == before[r - 1]);
                    }
                    assert forall|r: int| 0 <= r < now.len() implies (#[trigger] now[r]).1 > 0
                        && now[r].1 == of_length(e, now[r].0 as nat, k as int + 1) by {
                        if r < at {
                            assert(now[r] == before[r]);
                        } else if r > at {
                            assert(now[r] == before[r - 1]);
                            if r - 1 > at {
                                assert(before[at as int].0 < before[r - 1].0);
                            }
                        }
                    }
                    assert forall|r: int, q: int| 0 <= r < q < now.len() implies (
                    #[trigger] now[r]).0 < (#[trigger] now[q]).0 by {
                        if q < at {
                            assert(now[r] == before[r] && now[q] == before[q]);
                        } else if q == at {
                            assert(now[r] == before[r]);
                        } else if r < at {
                            assert(now[r] == before[r] && now[q] == before[q - 1]);
                            if q - 1 > at {
                                assert(before[at as int].0 < before[q - 1].0);
                            }
                        } else if r == at {
                            assert(now[q] == before[q - 1]);
                            if q - 1 > at {
                                assert(before[at as int].0 < before[q - 1].0);
                            }
                        } else {
                            assert(now[r] == before[r - 1] && now[q] == before[q - 1]);
                        }
                    }
                    assert forall|l: nat| #[trigger] of_length(e, l, k as int + 1) > 0 implies has_row(
                        now,
                        l,
                    ) by {
                        if l == len {
                            assert(now[at as int].0 == l);
                        } else {
                            assert(of_length(e, l, k as int) > 0);
                            let r = choose|r: int| 0 <= r < before.len() && (#[trigger] before[r]).0
                                == l;
                            if r < at {
                                assert(now[r].0 == l);
                            } else {
                                assert(now[r + 1] == before[r]);
                            }
                        }
                    }
                }
            }
            k += 1;
        }
        proof {
            assert forall|k: int| 0 <= k < e.len() implies has_row(
                rows@,
                (#[trigger] e[k]).0@.len(),
            ) by {
                lemma_counted(e, e[k].0@.len(), k, e.len() as int);
            }
        }
        rows
    }
}

/// An entry is counted among those of its length.
proof fn lemma_counted<L: Language>(e: Entries<L>, len: nat, k: int, n: int)
    requires
        0 <= k < n <= e.len(),
        e[k].0@.len() == len,
    ensures
        of_length(e, len, n) > 0,
    decreases n,
{
    if k < n - 1 {
        lemma_counted(e, len, k, n - 1);
    }
}

} // verus!

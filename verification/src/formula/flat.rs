//! Formulas as sequences of symbols in prefix order: each constructor is
//! followed by its operands, from left to right.

use vstd::prelude::*;
use crate::formula::language::Language;

verus! {

/// One symbol of a flat formula.
pub enum Sym<K> {
    /// A variable.
    Var(nat),
    /// A constructor; its operands follow it.
    Op(K),
}

/// A flat sequence of symbols.
pub type Flat<K> = Seq<Sym<K>>;

/// The number of operands that follow a symbol.
pub open spec fn weight<L: Language>(s: Sym<L::Shape>) -> nat {
    match s {
        Sym::Var(_) => 0,
        Sym::Op(k) => L::arity(k),
    }
}

/// The number of subterms that are still owed after the first `n` symbols
/// of `f`, where one is owed at the start. It may be negative.
pub open spec fn pending<L: Language>(f: Flat<L::Shape>, n: int) -> int
    decreases n,
{
    if n <= 0 {
        1
    } else {
        pending::<L>(f, n - 1) + weight::<L>(f[n - 1]) - 1
    }
}

/// The position at which the `k` subterms that begin at `i` end. Where
/// `f` ends before they do, the result lies beyond the end of `f`.
pub open spec fn skip<L: Language>(f: Flat<L::Shape>, i: int, k: nat) -> int
    decreases f.len() - i,
{
    if k == 0 {
        i
    } else if i < 0 || i >= f.len() {
        (f.len() + k) as int
    } else {
        skip::<L>(f, i + 1, (k - 1 + weight::<L>(f[i])) as nat)
    }
}

/// Whether `f` is one complete term: the prefix form of a tree.
pub open spec fn is_formula<L: Language>(f: Flat<L::Shape>) -> bool {
    skip::<L>(f, 0, 1) == f.len()
}

/// The position at which the subterm that begins at `i` ends.
pub open spec fn end_of<L: Language>(f: Flat<L::Shape>, i: int) -> int {
    skip::<L>(f, i, 1)
}

/// The subterm of `f` that begins at `i`.
pub open spec fn subterm<L: Language>(f: Flat<L::Shape>, i: int) -> Flat<L::Shape> {
    f.subrange(i, end_of::<L>(f, i))
}

/// Every subterm takes at least one symbol.
pub proof fn lemma_skip_lower<L: Language>(f: Flat<L::Shape>, i: int, k: nat)
    requires
        0 <= i <= f.len(),
    ensures
        skip::<L>(f, i, k) >= i + k,
    decreases f.len() - i,
{
    if k != 0 && i < f.len() {
        lemma_skip_lower::<L>(f, i + 1, (k - 1 + weight::<L>(f[i])) as nat);
    }
}

/// More subterms end later.
pub proof fn lemma_skip_more<L: Language>(f: Flat<L::Shape>, i: int, a: nat, b: nat)
    requires
        0 <= i <= f.len(),
    ensures
        skip::<L>(f, i, a + b) >= skip::<L>(f, i, a) + b,
    decreases f.len() - i,
{
    if a == 0 {
        lemma_skip_lower::<L>(f, i, b);
    } else if i < f.len() {
        let w = weight::<L>(f[i]);
        assert((a + b - 1 + w) as nat == (a - 1 + w) as nat + b);
        lemma_skip_more::<L>(f, i + 1, (a - 1 + w) as nat, b);
    }
}

/// To pass `a + b` subterms is to pass `a` and then `b`.
pub proof fn lemma_skip_split<L: Language>(f: Flat<L::Shape>, i: int, a: nat, b: nat)
    requires
        0 <= i <= f.len(),
        skip::<L>(f, i, a) <= f.len(),
    ensures
        skip::<L>(f, i, a + b) == skip::<L>(f, skip::<L>(f, i, a), b),
    decreases f.len() - i,
{
    if a != 0 {
        let w = weight::<L>(f[i]);
        assert((a + b - 1 + w) as nat == (a - 1 + w) as nat + b);
        lemma_skip_split::<L>(f, i + 1, (a - 1 + w) as nat, b);
    }
}

/// Where the subterms end depends only on the symbols that they take:
/// a sequence that holds the same symbols, `d` places further on, has
/// them end `d` places further on.
pub proof fn lemma_skip_moved<L: Language>(
    f: Flat<L::Shape>,
    g: Flat<L::Shape>,
    i: int,
    k: nat,
    d: int,
)
    requires
        0 <= i <= f.len(),
        0 <= i + d,
        skip::<L>(f, i, k) <= f.len(),
        skip::<L>(f, i, k) + d <= g.len(),
        forall|t: int| i <= t < skip::<L>(f, i, k) ==> g[t + d] == f[t],
    ensures
        skip::<L>(g, i + d, k) == skip::<L>(f, i, k) + d,
    decreases f.len() - i,
{
    if k != 0 {
        let w = weight::<L>(f[i]);
        lemma_skip_lower::<L>(f, i + 1, (k - 1 + w) as nat);
        assert(g[i + d] == f[i]);
        lemma_skip_moved::<L>(f, g, i + 1, (k - 1 + w) as nat, d);
    }
}

/// Where the subterms end depends only on how many operands each symbol
/// takes.
pub proof fn lemma_skip_by_weight<L: Language>(
    f: Flat<L::Shape>,
    g: Flat<L::Shape>,
    i: int,
    k: nat,
)
    requires
        0 <= i <= f.len(),
        f.len() == g.len(),
        forall|t: int| 0 <= t < f.len() ==> weight::<L>(f[t]) == weight::<L>(g[t]),
    ensures
        skip::<L>(g, i, k) == skip::<L>(f, i, k),
    decreases f.len() - i,
{
    if k != 0 && i < f.len() {
        lemma_skip_by_weight::<L>(f, g, i + 1, (k - 1 + weight::<L>(f[i])) as nat);
    }
}

/// The subterms that begin at `i` end where they do in the whole
/// sequence when all that comes after them is cut off, and begin at 0
/// when all that comes before them is cut off too.
pub proof fn lemma_skip_subrange<L: Language>(f: Flat<L::Shape>, i: int, k: nat)
    requires
        0 <= i <= f.len(),
        skip::<L>(f, i, k) <= f.len(),
    ensures
        skip::<L>(f.subrange(i, skip::<L>(f, i, k)), 0, k) == skip::<L>(f, i, k) - i,
{
    lemma_skip_lower::<L>(f, i, k);
    let j = skip::<L>(f, i, k);
    lemma_skip_moved::<L>(f, f.subrange(i, j), i, k, -i);
}

/// A subterm of a sequence is a formula.
pub proof fn lemma_subterm_is_formula<L: Language>(f: Flat<L::Shape>, i: int)
    requires
        0 <= i <= f.len(),
        end_of::<L>(f, i) <= f.len(),
    ensures
        is_formula::<L>(subterm::<L>(f, i)),
{
    lemma_skip_subrange::<L>(f, i, 1);
    lemma_skip_lower::<L>(f, i, 1);
}

/// A formula followed by anything: the first subterm is the formula, and
/// what is owed after it is read from the rest.
pub proof fn lemma_skip_past<L: Language>(a: Flat<L::Shape>, rest: Flat<L::Shape>, k: nat)
    requires
        is_formula::<L>(a),
    ensures
        skip::<L>(a + rest, 0, 1) == a.len(),
        skip::<L>(a + rest, 0, k + 1) == skip::<L>(rest, 0, k) + a.len(),
{
    let whole = a + rest;
    assert forall|t: int| 0 <= t < a.len() implies whole[t] == a[t] by {}
    lemma_skip_moved::<L>(a, whole, 0, 1, 0);
    lemma_skip_split::<L>(whole, 0, 1, k);
    lemma_skip_tail::<L>(whole, rest, a.len() as int, k);
}

/// What is read from position `d` of `f` on is read from `g` at 0, where
/// `g` is what `f` holds from `d` on.
pub proof fn lemma_skip_tail<L: Language>(f: Flat<L::Shape>, g: Flat<L::Shape>, d: int, k: nat)
    requires
        0 <= d <= f.len(),
        g =~= f.subrange(d, f.len() as int),
    ensures
        skip::<L>(f, d, k) == skip::<L>(g, 0, k) + d,
{
    lemma_skip_tail_at::<L>(f, g, d, 0, k);
}

proof fn lemma_skip_tail_at<L: Language>(
    f: Flat<L::Shape>,
    g: Flat<L::Shape>,
    d: int,
    i: int,
    k: nat,
)
    requires
        0 <= d <= f.len(),
        0 <= i <= g.len(),
        g =~= f.subrange(d, f.len() as int),
    ensures
        skip::<L>(f, d + i, k) == skip::<L>(g, i, k) + d,
    decreases g.len() - i,
{
    if k != 0 && i < g.len() {
        assert(g[i] == f[d + i]);
        lemma_skip_tail_at::<L>(f, g, d, i + 1, (k - 1 + weight::<L>(g[i])) as nat);
    }
}

/// No formula is a proper prefix of another: two formulas that begin
/// the same sequence are one.
pub proof fn lemma_unique_reading<L: Language>(
    a: Flat<L::Shape>,
    x: Flat<L::Shape>,
    b: Flat<L::Shape>,
    y: Flat<L::Shape>,
)
    requires
        is_formula::<L>(a),
        is_formula::<L>(b),
        a + x == b + y,
    ensures
        a == b,
        x == y,
{
    lemma_skip_past::<L>(a, x, 0);
    lemma_skip_past::<L>(b, y, 0);
    assert(a.len() == b.len());
    assert(a =~= (a + x).subrange(0, a.len() as int));
    assert(b =~= (b + y).subrange(0, b.len() as int));
    assert(x =~= (a + x).subrange(a.len() as int, (a + x).len() as int));
    assert(y =~= (b + y).subrange(b.len() as int, (b + y).len() as int));
}

/// A formula is not empty.
pub proof fn lemma_formula_not_empty<L: Language>(f: Flat<L::Shape>)
    requires
        is_formula::<L>(f),
    ensures
        f.len() > 0,
{
}

/// As long as something is owed at every position before `i`, the
/// subterm that begins at 0 ends where what is owed at `i` ends.
pub proof fn lemma_skip_pending<L: Language>(f: Flat<L::Shape>, i: int)
    requires
        0 <= i <= f.len(),
        forall|m: int| 0 <= m < i ==> pending::<L>(f, m) > 0,
        pending::<L>(f, i) >= 0,
    ensures
        skip::<L>(f, 0, 1) == skip::<L>(f, i, pending::<L>(f, i) as nat),
    decreases i,
{
    if i > 0 {
        lemma_skip_pending::<L>(f, i - 1);
    }
}

/// A sequence is a formula exactly if nothing is owed at its end and
/// something is owed at every position before it.
pub proof fn lemma_formula_by_pending<L: Language>(f: Flat<L::Shape>)
    ensures
        is_formula::<L>(f) <==> pending::<L>(f, f.len() as int) == 0 && forall|m: int|
            0 <= m < f.len() ==> pending::<L>(f, m) > 0,
{
    let n = f.len() as int;
    if forall|m: int| 0 <= m < n ==> pending::<L>(f, m) > 0 {
        if n > 0 {
            assert(pending::<L>(f, n - 1) > 0);
        }
        lemma_skip_pending::<L>(f, n);
        lemma_skip_lower::<L>(f, n, pending::<L>(f, n) as nat);
    } else {
        let m = choose|m: int| 0 <= m < n && !(pending::<L>(f, m) > 0);
        lemma_first_settled::<L>(f, n - 1);
    }
}

/// If something is owed at every position up to `i` inclusive, the
/// subterm that begins at 0 ends after `i`; else it ends at the first
/// position at which nothing is owed.
proof fn lemma_first_settled<L: Language>(f: Flat<L::Shape>, i: int)
    requires
        0 <= i <= f.len(),
    ensures
        (forall|m: int| 0 <= m <= i ==> pending::<L>(f, m) > 0) ==> skip::<L>(f, 0, 1) > i,
        !(forall|m: int| 0 <= m <= i ==> pending::<L>(f, m) > 0) ==> skip::<L>(f, 0, 1) <= i
            && pending::<L>(f, skip::<L>(f, 0, 1)) == 0 && skip::<L>(f, 0, 1) >= 0,
    decreases i,
{
    if i > 0 {
        lemma_first_settled::<L>(f, i - 1);
        if forall|m: int| 0 <= m <= i - 1 ==> pending::<L>(f, m) > 0 {
            if pending::<L>(f, i) > 0 {
                assert forall|m: int| 0 <= m <= i implies pending::<L>(f, m) > 0 by {}
                lemma_skip_pending::<L>(f, i);
                lemma_skip_lower::<L>(f, i, pending::<L>(f, i) as nat);
            } else {
                assert(pending::<L>(f, i) == 0) by {
                    assert(pending::<L>(f, i - 1) > 0);
                }
                lemma_skip_pending::<L>(f, i);
            }
        }
    } else {
        lemma_skip_lower::<L>(f, 0, 1);
    }
}

} // verus!

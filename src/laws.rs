//! What whole traversals hand out, for the shapes of table that matter:
//! empty tables, single chains, and tables forwarded into a later one.
use vstd::prelude::*;
use crate::machine::{
    Cursor, Frame, advance, frame_ok, inv, lemma_step, recover, resolve, step, terminated,
};
use crate::table::{BinEntry, Generations};
use crate::traverser::start;

verus! {

/// What `k` successive requests hand out, starting from `c`.
pub open spec fn run(g: Generations, c: Cursor, k: nat) -> Seq<Option<nat>>
    decreases k,
{
    if k == 0 {
        seq![]
    } else {
        seq![advance(g, c).1] + run(g, advance(g, c).0, (k - 1) as nat)
    }
}

/// `k` answers that say nothing is left.
pub open spec fn nones(k: nat) -> Seq<Option<nat>> {
    Seq::new(k, |i: int| None)
}

/// Reading the bins of table `t`, which has `n` bins, at top-level bin `b`.
pub open spec fn at_top(t: nat, n: nat, b: nat, p: Option<nat>) -> Cursor {
    Cursor {
        table: Some(t),
        frames: seq![],
        prev: p,
        index: b,
        base_index: b,
        base_limit: n,
        base_size: n,
    }
}

/// Inside table `t1`, at bin `i`, after a dive from bin `b` of table `t`.
pub open spec fn in_dive(t: nat, n: nat, t1: nat, b: nat, i: nat, p: Option<nat>) -> Cursor {
    Cursor {
        table: Some(t1),
        frames: seq![Frame { table: t, length: n, index: b }],
        prev: p,
        index: i,
        base_index: b,
        base_limit: n,
        base_size: n,
    }
}

proof fn lemma_inv_top(g: Generations, t: nat, b: nat, p: Option<nat>)
    requires
        g.wf(),
        t < g.bins.len(),
        b <= g.table_len(t as int),
        p matches Some(x) ==> x < g.links.len(),
    ensures
        inv(g, at_top(t, g.table_len(t as int), b, p)),
{
}

proof fn lemma_inv_dive(g: Generations, t: nat, t1: nat, b: nat, i: nat, p: Option<nat>)
    requires
        g.wf(),
        t < t1 < g.bins.len(),
        b < g.table_len(t as int),
        i < g.table_len(t1 as int),
        p matches Some(x) ==> x < g.links.len(),
    ensures
        inv(g, in_dive(t, g.table_len(t as int), t1, b, i, p)),
{
    let c = in_dive(t, g.table_len(t as int), t1, b, i, p);
    assert forall|d: int| 0 <= d < c.frames.len() implies #[trigger] frame_ok(g, c, d) by {}
}

/// `c` with `p` as the node handed out last.
pub open spec fn with_prev(c: Cursor, p: Option<nat>) -> Cursor {
    Cursor { prev: p, ..c }
}

proof fn lemma_recover_prev(c: Cursor, n: nat, p: Option<nat>)
    ensures
        recover(with_prev(c, p), n) == with_prev(recover(c, n), p),
    decreases c.frames.len(),
{
    if c.frames.len() > 0 {
        let f = c.frames.last();
        if !(c.index + f.length < n) {
            lemma_recover_prev(
                Cursor { frames: c.frames.drop_last(), index: f.index, table: Some(f.table), ..c },
                f.length,
                p,
            );
        }
    }
}

/// What reading bins hands out does not depend on the node handed out before.
proof fn lemma_resolve_prev(g: Generations, c: Cursor)
    requires
        inv(g, c),
    ensures
        resolve(g, c) == resolve(g, with_prev(c, None)),
    decreases crate::machine::rank(g, c),
{
    let c0 = Cursor { prev: None, ..c };
    assert(inv(g, c0)) by {
        assert forall|d: int| 0 <= d < c0.frames.len() implies #[trigger] frame_ok(g, c0, d) by {
            assert(frame_ok(g, c, d));
        }
    }
    if !terminated(g, c) {
        lemma_step(g, c);
        let t = c.table->0;
        let n = g.table_len(t as int);
        lemma_recover_prev(c0, n, c.prev);
        lemma_recover_prev(c0, n, None);
        assert(c == with_prev(c0, c.prev));
        assert(c0 == with_prev(c0, None));
        let r0 = recover(c0, n);
        assert(with_prev(with_prev(r0, c.prev), None) == with_prev(r0, None));
        let c1 = step(g, c).0;
        if step(g, c).1 is None {
            lemma_resolve_prev(g, c1);
            match g.bins[t as int][c.index as int] {
                Some(BinEntry::Moved(_)) => {
                    assert(step(g, c0).0 == c1);
                },
                _ => {
                    assert(step(g, c0).0 == with_prev(c1, None));
                },
            }
            assert(!terminated(g, c0));
            lemma_step(g, c0);
            assert(step(g, c0).1 is None);
            assert(resolve(g, c) == resolve(g, c1));
            assert(resolve(g, c0) == resolve(g, step(g, c0).0));
        } else {
            match g.bins[t as int][c.index as int] {
                Some(BinEntry::Moved(_)) => {},
                _ => {
                    assert(step(g, c0).0 == with_prev(c1, None));
                },
            }
            assert(step(g, c0).1 == step(g, c).1);
            assert(with_prev(c1, step(g, c).1) == with_prev(step(g, c0).0, step(g, c).1));
        }
    }
}

proof fn lemma_top_empty(g: Generations, t: nat, b: nat, e: nat)
    requires
        g.wf(),
        t < g.bins.len(),
        b <= e <= g.table_len(t as int),
        forall|i: int| b <= i < e ==> g.bins[t as int][i] is None,
    ensures
        resolve(g, at_top(t, g.table_len(t as int), b, None)) == resolve(
            g,
            at_top(t, g.table_len(t as int), e, None),
        ),
    decreases e - b,
{
    let n = g.table_len(t as int);
    lemma_inv_top(g, t, b, None);
    if b < e {
        let c = at_top(t, n, b, None);
        assert(step(g, c).0 == at_top(t, n, b + 1, None));
        lemma_top_empty(g, t, b + 1, e);
    }
}

proof fn lemma_top_node(g: Generations, t: nat, b: nat, x: usize)
    requires
        g.wf(),
        t < g.bins.len(),
        b < g.table_len(t as int),
        g.bins[t as int][b as int] == Some(BinEntry::Node(x)),
    ensures
        resolve(g, at_top(t, g.table_len(t as int), b, None)) == (
        at_top(t, g.table_len(t as int), b + 1, Some(x as nat)),
        Some(x as nat),
    ),
{
    let n = g.table_len(t as int);
    lemma_inv_top(g, t, b, None);
    assert(step(g, at_top(t, n, b, None)).0 == at_top(t, n, b + 1, None));
}

proof fn lemma_top_end(g: Generations, t: nat)
    requires
        g.wf(),
        t < g.bins.len(),
    ensures
        resolve(g, at_top(t, g.table_len(t as int), g.table_len(t as int), None)) == (
        at_top(t, g.table_len(t as int), g.table_len(t as int), None),
        None::<nat>,
    ),
{
    lemma_inv_top(g, t, g.table_len(t as int), None);
}

/// Once nothing is left, every further request says so and changes nothing.
proof fn lemma_run_end(g: Generations, t: nat, k: nat)
    requires
        g.wf(),
        t < g.bins.len(),
    ensures
        run(g, at_top(t, g.table_len(t as int), g.table_len(t as int), None), k) == nones(k),
    decreases k,
{
    let n = g.table_len(t as int);
    if k > 0 {
        lemma_top_end(g, t);
        lemma_run_end(g, t, (k - 1) as nat);
        assert(run(g, at_top(t, n, n, None), k) =~= nones(k));
    }
}

proof fn lemma_dive_in(g: Generations, t: nat, t1: nat, b: nat)
    requires
        g.wf(),
        t < g.bins.len(),
        b < g.table_len(t as int),
        g.bins[t as int][b as int] == Some(BinEntry::Moved(t1 as usize)),
        t1 <= usize::MAX,
    ensures
        t < t1 < g.bins.len(),
        g.table_len(t as int) <= g.table_len(t1 as int),
        resolve(g, at_top(t, g.table_len(t as int), b, None)) == resolve(
            g,
            in_dive(t, g.table_len(t as int), t1, b, b, None),
        ),
{
    let n = g.table_len(t as int);
    assert(g.bin_ok(t as int, g.bins[t as int][b as int]));
    lemma_inv_top(g, t, b, None);
    assert(step(g, at_top(t, n, b, None)).0 == in_dive(t, n, t1, b, b, None));
}

/// Where the dive at bin `b` goes after reading bin `i` of the forwarded table.
pub open spec fn dive_next(t: nat, n: nat, t1: nat, m: nat, b: nat, i: nat, p: Option<nat>) -> Cursor {
    if i + n < m {
        in_dive(t, n, t1, b, i + n, p)
    } else {
        at_top(t, n, b + 1, p)
    }
}

proof fn lemma_dive_step(g: Generations, t: nat, t1: nat, b: nat, i: nat)
    requires
        g.wf(),
        t < t1 < g.bins.len(),
        b < g.table_len(t as int),
        i < g.table_len(t1 as int),
        !(g.bins[t1 as int][i as int] matches Some(BinEntry::Moved(_))),
    ensures
        ({
            let n = g.table_len(t as int);
            let m = g.table_len(t1 as int);
            let c = in_dive(t, n, t1, b, i, None);
            &&& inv(g, c)
            &&& !terminated(g, c)
            &&& step(g, c).0 == dive_next(t, n, t1, m, b, i, None)
        }),
{
    let n = g.table_len(t as int);
    let m = g.table_len(t1 as int);
    lemma_inv_dive(g, t, t1, b, i, None);
    let c = in_dive(t, n, t1, b, i, None);
    let up = Cursor { frames: c.frames.drop_last(), index: b, table: Some(t), ..c };
    assert(c.frames.drop_last() =~= seq![]);
    assert(up == at_top(t, n, b, None));
    assert(recover(up, n) == at_top(t, n, b + 1, None));
    assert(recover(c, m) == dive_next(t, n, t1, m, b, i, None));
}

/// The answers that hand out the nodes of `xs`, in order.
pub open spec fn handed(xs: Seq<usize>) -> Seq<Option<nat>> {
    xs.map_values(|x: usize| Some(x as nat))
}

proof fn lemma_run_absent(g: Generations, k: nat)
    requires
        g.wf(),
    ensures
        run(g, start(g, None), k) == nones(k),
    decreases k,
{
    if k > 0 {
        let c = start(g, None);
        assert(inv(g, c));
        assert(advance(g, c) == (c, None::<nat>));
        lemma_run_absent(g, (k - 1) as nat);
        assert(run(g, c, k) =~= nones(k));
    }
}

/// A traversal of an absent table, or of a table whose bins are all
/// empty, hands out nothing, however often it is asked.
pub proof fn law_empty_table(g: Generations, table: Option<usize>, k: nat)
    requires
        g.wf(),
        table matches Some(t) ==> t < g.bins.len(),
        table matches Some(t) ==> forall|i: int|
            0 <= i < g.table_len(t as int) ==> g.bins[t as int][i] is None,
    ensures
        run(g, start(g, table), k) == nones(k),
{
    match table {
        None => lemma_run_absent(g, k),
        Some(t) => {
            let n = g.table_len(t as int);
            assert(start(g, table) == at_top(t as nat, n, 0, None));
            lemma_run_end(g, t as nat, k);
            if k > 0 {
                lemma_top_empty(g, t as nat, 0, n);
                lemma_top_end(g, t as nat);
                lemma_run_end(g, t as nat, (k - 1) as nat);
                assert(run(g, start(g, table), k) =~= nones(k));
            }
        },
    }
}

proof fn lemma_chain_rest(g: Generations, t: nat, j: nat, xs: Seq<usize>, i: int, k: nat)
    requires
        g.wf(),
        t < g.bins.len(),
        j < g.table_len(t as int),
        0 <= i < xs.len(),
        xs[i] < g.links.len(),
        forall|q: int| 0 <= q < g.table_len(t as int) && q != j ==> g.bins[t as int][q] is None,
        forall|q: int| 0 <= q < xs.len() - 1 ==> g.links[xs[q] as int] == Some(xs[q + 1]),
        g.links[xs.last() as int] is None,
    ensures
        run(g, at_top(t, g.table_len(t as int), j + 1, Some(xs[i] as nat)), (xs.len() - 1 - i + k) as nat)
            == handed(xs.subrange(i + 1, xs.len() as int)) + nones(k),
    decreases xs.len() - i,
{
    let n = g.table_len(t as int);
    let c = at_top(t, n, j + 1, Some(xs[i] as nat));
    let len = (xs.len() - 1 - i + k) as nat;
    lemma_inv_top(g, t, j + 1, Some(xs[i] as nat));
    if i == xs.len() - 1 {
        if k > 0 {
            lemma_resolve_prev(g, c);
            assert(with_prev(c, None) == at_top(t, n, j + 1, None));
            lemma_top_empty(g, t, j + 1, n);
            lemma_top_end(g, t);
            lemma_run_end(g, t, (k - 1) as nat);
            assert(advance(g, c) == (at_top(t, n, n, None), None::<nat>));
        }
        assert(run(g, c, len) =~= handed(xs.subrange(i + 1, xs.len() as int)) + nones(k));
    } else {
        let x = xs[i + 1];
        assert(g.links[xs[i] as int] matches Some(y) ==> y < g.links.len());
        assert(advance(g, c) == (at_top(t, n, j + 1, Some(x as nat)), Some(x as nat)));
        lemma_chain_rest(g, t, j, xs, i + 1, k);
        assert(run(g, c, len) =~= handed(xs.subrange(i + 1, xs.len() as int)) + nones(k));
    }
}

/// A table whose one populated bin holds a chain: the chain is handed out
/// whole, each node once and in chain order, and after it nothing, however
/// often the traversal is asked again.
pub proof fn law_single_chain(g: Generations, t: usize, j: nat, xs: Seq<usize>, k: nat)
    requires
        g.wf(),
        t < g.bins.len(),
        j < g.table_len(t as int),
        xs.len() > 0,
        g.bins[t as int][j as int] == Some(BinEntry::Node(xs[0])),
        forall|q: int| 0 <= q < g.table_len(t as int) && q != j ==> g.bins[t as int][q] is None,
        forall|q: int| 0 <= q < xs.len() - 1 ==> g.links[xs[q] as int] == Some(xs[q + 1]),
        g.links[xs.last() as int] is None,
    ensures
        run(g, start(g, Some(t)), xs.len() + k) == handed(xs) + nones(k),
{
    let n = g.table_len(t as int);
    let c = start(g, Some(t));
    assert(c == at_top(t as nat, n, 0, None));
    assert(g.bin_ok(t as int, g.bins[t as int][j as int]));
    lemma_top_empty(g, t as nat, 0, j);
    lemma_top_node(g, t as nat, j, xs[0]);
    lemma_chain_rest(g, t as nat, j, xs, 0, k);
    assert(advance(g, c) == (at_top(t as nat, n, j + 1, Some(xs[0] as nat)), Some(xs[0] as nat)));
    assert(run(g, c, xs.len() + k) =~= handed(xs) + nones(k));
}

proof fn lemma_inv_next(g: Generations, t: nat, t1: nat, b: nat, i: nat, p: Option<nat>)
    requires
        g.wf(),
        t < t1 < g.bins.len(),
        b < g.table_len(t as int),
        p matches Some(x) ==> x < g.links.len(),
    ensures
        inv(g, dive_next(t, g.table_len(t as int), t1, g.table_len(t1 as int), b, i, p)),
{
    let n = g.table_len(t as int);
    let m = g.table_len(t1 as int);
    if i + n < m {
        lemma_inv_dive(g, t, t1, b, i + n, p);
    } else {
        lemma_inv_top(g, t, b + 1, p);
    }
}

proof fn lemma_dive_node(g: Generations, t: nat, t1: nat, b: nat, i: nat, x: usize)
    requires
        g.wf(),
        t < t1 < g.bins.len(),
        b < g.table_len(t as int),
        i < g.table_len(t1 as int),
        g.bins[t1 as int][i as int] == Some(BinEntry::Node(x)),
    ensures
        x < g.links.len(),
        resolve(g, in_dive(t, g.table_len(t as int), t1, b, i, None)) == (
        dive_next(t, g.table_len(t as int), t1, g.table_len(t1 as int), b, i, Some(x as nat)),
        Some(x as nat),
    ),
{
    let n = g.table_len(t as int);
    let m = g.table_len(t1 as int);
    assert(g.bin_ok(t1 as int, g.bins[t1 as int][i as int]));
    lemma_dive_step(g, t, t1, b, i);
    assert(with_prev(dive_next(t, n, t1, m, b, i, None), Some(x as nat)) == dive_next(
        t,
        n,
        t1,
        m,
        b,
        i,
        Some(x as nat),
    ));
}

proof fn lemma_dive_skip(g: Generations, t: nat, t1: nat, b: nat, i: nat)
    requires
        g.wf(),
        t < t1 < g.bins.len(),
        b < g.table_len(t as int),
        i < g.table_len(t1 as int),
        i % g.table_len(t as int) == b,
        forall|q: int|
            i <= q < g.table_len(t1 as int) && q % (g.table_len(t as int) as int) == b
                ==> g.bins[t1 as int][q] is None,
    ensures
        resolve(g, in_dive(t, g.table_len(t as int), t1, b, i, None)) == resolve(
            g,
            at_top(t, g.table_len(t as int), b + 1, None),
        ),
    decreases g.table_len(t1 as int) - i,
{
    let n = g.table_len(t as int);
    let m = g.table_len(t1 as int);
    lemma_dive_step(g, t, t1, b, i);
    if i + n < m {
        vstd::arithmetic::div_mod::lemma_mod_add_multiples_vanish(i as int, n as int);
        lemma_dive_skip(g, t, t1, b, i + n);
    }
}

proof fn lemma_forwarded_skip(g: Generations, t: nat, t1: usize, b: nat, e: nat)
    requires
        g.wf(),
        t < g.bins.len(),
        b <= e <= g.table_len(t as int),
        forall|q: int| b <= q < e ==> g.bins[t as int][q] == Some(BinEntry::Moved(t1)),
        forall|q: int|
            0 <= q < g.table_len(t1 as int) && b <= q % (g.table_len(t as int) as int) < e
                ==> g.bins[t1 as int][q] is None,
    ensures
        resolve(g, at_top(t, g.table_len(t as int), b, None)) == resolve(
            g,
            at_top(t, g.table_len(t as int), e, None),
        ),
    decreases e - b,
{
    let n = g.table_len(t as int);
    if b < e {
        lemma_dive_in(g, t, t1 as nat, b);
        vstd::arithmetic::div_mod::lemma_small_mod(b, n);
        lemma_dive_skip(g, t, t1 as nat, b, b);
        lemma_forwarded_skip(g, t, t1, b + 1, e);
    }
}

/// Bins from `a` on forwarded to one later table whose only populated bin,
/// holding a single node, is one that a forwarded bin maps to: however
/// many markers the traversal dives through, it hands out that node once,
/// and after it nothing.
pub proof fn law_forwarded_single(
    g: Generations,
    t: usize,
    t1: usize,
    a: nat,
    j: nat,
    x: usize,
    k: nat,
)
    requires
        g.wf(),
        t < g.bins.len(),
        t1 < g.bins.len(),
        a <= j < g.table_len(t as int),
        forall|q: int| 0 <= q < a ==> g.bins[t as int][q] is None,
        forall|q: int|
            a <= q < g.table_len(t as int) ==> g.bins[t as int][q] == Some(BinEntry::Moved(t1)),
        g.bins[t1 as int][j as int] == Some(BinEntry::Node(x)),
        g.links[x as int] is None,
        forall|q: int| 0 <= q < g.table_len(t1 as int) && q != j ==> g.bins[t1 as int][q] is None,
    ensures
        run(g, start(g, Some(t)), k + 1) == seq![Some(x as nat)] + nones(k),
{
    let n = g.table_len(t as int);
    let m = g.table_len(t1 as int);
    let c = start(g, Some(t));
    assert(c == at_top(t as nat, n, 0, None));
    lemma_dive_in(g, t as nat, t1 as nat, j);
    vstd::arithmetic::div_mod::lemma_small_mod(j, n);
    lemma_top_empty(g, t as nat, 0, a);
    assert forall|q: int|
        0 <= q < m && a <= q % (n as int) < j implies g.bins[t1 as int][q] is None by {
        if q == j {
            assert(q % (n as int) == j);
        }
    }
    lemma_forwarded_skip(g, t as nat, t1, a, j);
    lemma_dive_node(g, t as nat, t1 as nat, j, j, x);
    let d1 = dive_next(t as nat, n, t1 as nat, m, j, j, Some(x as nat));
    assert(advance(g, c) == (d1, Some(x as nat)));
    if k > 0 {
        lemma_inv_next(g, t as nat, t1 as nat, j, j, Some(x as nat));
        lemma_resolve_prev(g, d1);
        let d0 = dive_next(t as nat, n, t1 as nat, m, j, j, None);
        assert(with_prev(d1, None) == d0);
        if j + n < m {
            vstd::arithmetic::div_mod::lemma_mod_add_multiples_vanish(j as int, n as int);
            assert forall|q: int|
                j + n <= q < m && q % (n as int) == j implies g.bins[t1 as int][q] is None by {}
            lemma_dive_skip(g, t as nat, t1 as nat, j, j + n);
        }
        assert forall|q: int|
            0 <= q < m && j + 1 <= q % (n as int) < n implies g.bins[t1 as int][q] is None by {
            if q == j {
                assert(q % (n as int) == j);
            }
        }
        lemma_forwarded_skip(g, t as nat, t1, j + 1, n);
        lemma_top_end(g, t as nat);
        lemma_run_end(g, t as nat, (k - 1) as nat);
        assert(advance(g, d1) == (at_top(t as nat, n, n, None), None::<nat>));
    }
    assert(run(g, d1, k) =~= nones(k));
    assert(run(g, c, k + 1) =~= seq![Some(x as nat)] + nones(k));
}

/// A table of `n` bins forwarded, every bin, to a table of `2n` bins whose
/// only populated bins are `i` and `i + n`, each holding one node: the
/// traversal hands out both nodes, once each, and after them nothing.
pub proof fn law_doubling(g: Generations, t: usize, t1: usize, i: nat, x: usize, y: usize, k: nat)
    requires
        g.wf(),
        t < g.bins.len(),
        t1 < g.bins.len(),
        i < g.table_len(t as int),
        g.table_len(t1 as int) == 2 * g.table_len(t as int),
        forall|q: int|
            0 <= q < g.table_len(t as int) ==> g.bins[t as int][q] == Some(BinEntry::Moved(t1)),
        g.bins[t1 as int][i as int] == Some(BinEntry::Node(x)),
        g.bins[t1 as int][(i + g.table_len(t as int)) as int] == Some(BinEntry::Node(y)),
        g.links[x as int] is None,
        g.links[y as int] is None,
        forall|q: int|
            0 <= q < g.table_len(t1 as int) && q != i && q != i + g.table_len(t as int)
                ==> g.bins[t1 as int][q] is None,
    ensures
        run(g, start(g, Some(t)), k + 2) == seq![Some(x as nat), Some(y as nat)] + nones(k),
{
    let n = g.table_len(t as int);
    let m = g.table_len(t1 as int);
    let c = start(g, Some(t));
    assert(c == at_top(t as nat, n, 0, None));
    lemma_dive_in(g, t as nat, t1 as nat, i);
    vstd::arithmetic::div_mod::lemma_small_mod(i, n);
    vstd::arithmetic::div_mod::lemma_mod_add_multiples_vanish(i as int, n as int);
    assert forall|q: int|
        0 <= q < m && 0 <= q % (n as int) < i implies g.bins[t1 as int][q] is None by {}
    lemma_forwarded_skip(g, t as nat, t1, 0, i);
    lemma_dive_node(g, t as nat, t1 as nat, i, i, x);
    let d1 = in_dive(t as nat, n, t1 as nat, i, i + n, Some(x as nat));
    assert(advance(g, c) == (d1, Some(x as nat)));
    lemma_inv_dive(g, t as nat, t1 as nat, i, i + n, Some(x as nat));
    lemma_resolve_prev(g, d1);
    assert(with_prev(d1, None) == in_dive(t as nat, n, t1 as nat, i, i + n, None));
    lemma_dive_node(g, t as nat, t1 as nat, i, i + n, y);
    let d2 = at_top(t as nat, n, i + 1, Some(y as nat));
    assert(advance(g, d1) == (d2, Some(y as nat)));
    if k > 0 {
        lemma_inv_top(g, t as nat, i + 1, Some(y as nat));
        lemma_resolve_prev(g, d2);
        assert(with_prev(d2, None) == at_top(t as nat, n, i + 1, None));
        assert forall|q: int|
            0 <= q < m && i + 1 <= q % (n as int) < n implies g.bins[t1 as int][q] is None by {}
        lemma_forwarded_skip(g, t as nat, t1, i + 1, n);
        lemma_top_end(g, t as nat);
        lemma_run_end(g, t as nat, (k - 1) as nat);
        assert(advance(g, d2) == (at_top(t as nat, n, n, None), None::<nat>));
        assert(run(g, d2, k) =~= nones(k));
    }
    assert(run(g, d1, k + 1) =~= seq![Some(y as nat)] + nones(k));
    assert(run(g, c, k + 2) =~= seq![Some(x as nat), Some(y as nat)] + nones(k));
}

} // verus!

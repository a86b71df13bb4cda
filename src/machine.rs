//! The traversal as a state machine over table generations, and the rank
//! that every step of it lowers.
use vstd::prelude::*;
use crate::table::{BinEntry, Generations, max_bins};

verus! {

/// A resume point: the table that was left by a dive, its bin count, and
/// the bin whose forwarding marker was followed.
pub struct Frame {
    pub table: nat,
    pub length: nat,
    pub index: nat,
}

/// Where a traversal stands.
pub struct Cursor {
    pub table: Option<nat>,
    pub frames: Seq<Frame>,
    pub prev: Option<nat>,
    pub index: nat,
    pub base_index: nat,
    pub base_limit: nat,
    pub base_size: nat,
}

/// No bin is left to read.
pub open spec fn terminated(g: Generations, c: Cursor) -> bool {
    c.base_index >= c.base_limit || c.table is None || g.table_len(c.table->0 as int) <= c.index
}

/// Moves on within the top-level bin, or to the next top-level bin.
pub open spec fn top_advance(c: Cursor, n: nat) -> Cursor {
    if c.index + c.base_size >= n {
        Cursor { base_index: c.base_index + 1, index: c.base_index + 1, ..c }
    } else {
        Cursor { index: c.index + c.base_size, ..c }
    }
}

/// Moves the cursor on once a bin of a table with `n` bins was read: to the
/// next shadow position of the innermost dive, or out of finished dives.
pub open spec fn recover(c: Cursor, n: nat) -> Cursor
    decreases c.frames.len(),
{
    if c.frames.len() == 0 {
        top_advance(c, n)
    } else {
        let f = c.frames.last();
        if c.index + f.length < n {
            Cursor { index: c.index + f.length, ..c }
        } else {
            recover(
                Cursor { frames: c.frames.drop_last(), index: f.index, table: Some(f.table), ..c },
                f.length,
            )
        }
    }
}

/// Reads the bin under the cursor: dives through a forwarding marker, or
/// moves on and hands out the chain head found there, if any.
pub open spec fn step(g: Generations, c: Cursor) -> (Cursor, Option<nat>) {
    let t = c.table->0;
    let i = c.index;
    let n = g.table_len(t as int);
    match g.bins[t as int][i as int] {
        Some(BinEntry::Moved(nt)) => (
            Cursor {
                table: Some(nt as nat),
                prev: None,
                frames: c.frames.push(Frame { table: t, length: n, index: i }),
                ..c
            },
            None,
        ),
        Some(BinEntry::Node(x)) => (recover(c, n), Some(x as nat)),
        None => (recover(c, n), None),
    }
}

/// The table that the top-level bins belong to.
pub open spec fn root(c: Cursor) -> nat {
    if c.frames.len() == 0 {
        c.table->0
    } else {
        c.frames[0].table
    }
}

/// The table read at dive depth `d`.
pub open spec fn level_table(c: Cursor, d: int) -> nat {
    if d < c.frames.len() {
        c.frames[d].table
    } else {
        c.table->0
    }
}

pub open spec fn frame_ok(g: Generations, c: Cursor, d: int) -> bool {
    let f = c.frames[d];
    &&& f.table < g.bins.len()
    &&& d <= f.table
    &&& f.length == g.table_len(f.table as int)
    &&& f.index < f.length
    &&& f.table < level_table(c, d + 1)
}

/// The cursor's invariant: frames record dives into ever later
/// generations, and the top level walks the bins of the root table.
pub open spec fn inv(g: Generations, c: Cursor) -> bool {
    &&& g.wf()
    &&& (c.prev matches Some(p) ==> p < g.links.len())
    &&& c.base_size == c.base_limit
    &&& c.base_index <= c.base_limit
    &&& match c.table {
        None => c.base_limit == 0 && c.frames.len() == 0 && c.index == c.base_index,
        Some(t) => {
            &&& t < g.bins.len()
            &&& c.frames.len() <= t
            &&& g.table_len(root(c) as int) == c.base_size
            &&& (c.frames.len() == 0 ==> c.index == c.base_index)
            &&& (c.frames.len() > 0 ==> {
                &&& c.frames[0].index == c.base_index
                &&& c.base_index < c.base_limit
                &&& c.index < g.table_len(t as int)
            })
            &&& forall|d: int| 0 <= d < c.frames.len() ==> #[trigger] frame_ok(g, c, d)
        },
    }
}

/// One more than the largest digit of a rank.
pub open spec fn radix() -> nat {
    2 * max_bins() + 2
}

/// How much is left at dive depth `d`; depths not yet entered count as
/// the largest digit.
pub open spec fn digit(g: Generations, c: Cursor, d: int) -> nat {
    let k = c.frames.len() as int;
    if d > k {
        (radix() - 1) as nat
    } else if d == 0 {
        if k == 0 {
            (2 * (c.base_limit - c.base_index) + 1) as nat
        } else {
            2 * (c.base_limit - c.base_index) as nat
        }
    } else if d < k {
        2 * (c.frames[d].length - c.frames[d].index) as nat
    } else {
        (2 * (g.table_len(c.table->0 as int) - c.index) + 1) as nat
    }
}

/// The digits, shallowest first, read as a number.
pub open spec fn num(s: Seq<nat>) -> nat
    decreases s.len(),
{
    if s.len() == 0 {
        0
    } else {
        num(s.drop_last()) * radix() + s.last()
    }
}

pub open spec fn rank(g: Generations, c: Cursor) -> nat {
    if c.table is None {
        0
    } else {
        num(Seq::new(g.bins.len(), |d: int| digit(g, c, d)))
    }
}

proof fn lemma_lex(a: Seq<nat>, b: Seq<nat>, j: int)
    requires
        a.len() == b.len(),
        0 <= j < a.len(),
        forall|i: int| 0 <= i < j ==> a[i] == b[i],
        a[j] < b[j],
        forall|i: int| 0 <= i < a.len() ==> a[i] < radix(),
    ensures
        num(a) < num(b),
    decreases a.len(),
{
    let x = num(a.drop_last());
    let y = num(b.drop_last());
    if j == a.len() - 1 {
        assert(a.drop_last() =~= b.drop_last());
    } else {
        lemma_lex(a.drop_last(), b.drop_last(), j);
        let al = a.last();
        let bl = b.last();
        let r = radix();
        assert(x * r + al < y * r + bl) by (nonlinear_arith)
            requires
                x < y,
                al < r,
        ;
    }
}

proof fn lemma_digit_bound(g: Generations, c: Cursor, d: int)
    requires
        inv(g, c),
        c.table is Some,
        0 <= d,
    ensures
        digit(g, c, d) < radix(),
{
    let k = c.frames.len() as int;
    if k > 0 {
        assert(frame_ok(g, c, 0));
    }
    assert(g.table_len(root(c) as int) <= max_bins());
    assert(g.table_len(c.table->0 as int) <= max_bins());
    if 0 < d < k {
        assert(frame_ok(g, c, d));
    }
}

proof fn lemma_rank_lt(g: Generations, a: Cursor, b: Cursor, j: int)
    requires
        inv(g, a),
        inv(g, b),
        a.table is Some,
        b.table is Some,
        0 <= j < g.bins.len(),
        forall|d: int| 0 <= d < j ==> digit(g, a, d) == digit(g, b, d),
        digit(g, a, j) < digit(g, b, j),
    ensures
        rank(g, a) < rank(g, b),
{
    let sa = Seq::new(g.bins.len(), |d: int| digit(g, a, d));
    let sb = Seq::new(g.bins.len(), |d: int| digit(g, b, d));
    assert forall|i: int| 0 <= i < sa.len() implies sa[i] < radix() by {
        lemma_digit_bound(g, a, i);
    }
    lemma_lex(sa, sb, j);
}

/// Moving on from an intermediate state of recovery keeps the invariant and
/// lowers the rank below that of the state that recovery started from.
proof fn lemma_recover(g: Generations, c0: Cursor, c: Cursor, n: nat)
    requires
        inv(g, c0),
        inv(g, c),
        c0.table is Some,
        c.table is Some,
        c.frames.len() <= c0.frames.len(),
        c.frames == c0.frames.subrange(0, c.frames.len() as int),
        c.base_index == c0.base_index,
        c.base_limit == c0.base_limit,
        c.base_index < c.base_limit,
        n == g.table_len(c.table->0 as int),
        c.index < n,
        digit(g, c0, c.frames.len() as int) >= 2 * (n - c.index),
    ensures
        inv(g, recover(c, n)),
        rank(g, recover(c, n)) < rank(g, c0),
        recover(c, n).prev == c.prev,
    decreases c.frames.len(),
{
    let k = c.frames.len() as int;
    let r = recover(c, n);
    assert forall|d: int| 0 <= d < k implies digit(g, c, d) == digit(g, c0, d) by {
        if d > 0 {
            assert(c.frames[d] == c0.frames[d]);
        }
    }
    if k == 0 {
        assert(r.base_index == c.base_index + 1);
        lemma_rank_lt(g, r, c0, 0);
    } else {
        let f = c.frames.last();
        assert(frame_ok(g, c, k - 1));
        if c.index + f.length < n {
            assert forall|d: int| 0 <= d < r.frames.len() implies #[trigger] frame_ok(g, r, d) by {
                assert(frame_ok(g, c, d));
            }
            assert(digit(g, r, k) < digit(g, c0, k));
            assert forall|d: int| 0 <= d < k implies digit(g, r, d) == digit(g, c0, d) by {
                if d > 0 {
                    assert(c.frames[d] == c0.frames[d]);
                }
            }
            lemma_rank_lt(g, r, c0, k);
        } else {
            let c1 = Cursor {
                frames: c.frames.drop_last(),
                index: f.index,
                table: Some(f.table),
                ..c
            };
            assert forall|d: int| 0 <= d < c1.frames.len() implies #[trigger] frame_ok(g, c1, d) by {
                assert(frame_ok(g, c, d));
            }
            assert(c1.frames == c0.frames.subrange(0, k - 1));
            assert(c0.frames[k - 1] == f);
            if k - 1 > 0 {
                assert(frame_ok(g, c, 0));
            }
            lemma_recover(g, c0, c1, f.length);
        }
    }
}

/// One step keeps the invariant and lowers the rank.
pub proof fn lemma_step(g: Generations, c: Cursor)
    requires
        inv(g, c),
        !terminated(g, c),
    ensures
        inv(g, step(g, c).0),
        rank(g, step(g, c).0) < rank(g, c),
{
    let t = c.table->0;
    let i = c.index;
    let n = g.table_len(t as int);
    let k = c.frames.len() as int;
    assert(g.bin_ok(t as int, g.bins[t as int][i as int]));
    if k > 0 {
        assert(frame_ok(g, c, 0));
    }
    match g.bins[t as int][i as int] {
        Some(BinEntry::Moved(nt)) => {
            let c1 = step(g, c).0;
            assert forall|d: int| 0 <= d < c1.frames.len() implies #[trigger] frame_ok(g, c1, d) by {
                if d < k {
                    assert(frame_ok(g, c, d));
                }
            }
            assert forall|d: int| 0 <= d < k implies digit(g, c1, d) == digit(g, c, d) by {
                if d > 0 {
                    assert(c1.frames[d] == c.frames[d]);
                }
            }
            lemma_rank_lt(g, c1, c, k);
        },
        _ => {
            assert(c.frames == c.frames.subrange(0, k));
            lemma_recover(g, c, c, n);
        },
    }
}

/// Reads bins until one yields a chain head or none is left.
pub open spec fn resolve(g: Generations, c: Cursor) -> (Cursor, Option<nat>)
    decreases rank(g, c),
    when inv(g, c)
{
    if terminated(g, c) {
        (Cursor { prev: None, ..c }, None)
    } else {
        proof {
            lemma_step(g, c);
        }
        let (c1, e) = step(g, c);
        if e is Some {
            (Cursor { prev: e, ..c1 }, e)
        } else {
            resolve(g, c1)
        }
    }
}

/// What one request for the next entry does: continue the chain of the
/// entry handed out last, or else read bins.
pub open spec fn advance(g: Generations, c: Cursor) -> (Cursor, Option<nat>) {
    match c.prev {
        Some(p) => match g.links[p as int] {
            Some(x) => (Cursor { prev: Some(x as nat), ..c }, Some(x as nat)),
            None => resolve(g, c),
        },
        None => resolve(g, c),
    }
}

/// The largest value of any counter of a cursor that keeps the invariant.
pub proof fn lemma_inv_bounds(g: Generations, c: Cursor)
    requires
        inv(g, c),
    ensures
        c.index <= max_bins(),
        c.base_limit <= max_bins(),
        forall|d: int|
            0 <= d < c.frames.len() ==> #[trigger] c.frames[d].length <= max_bins()
                && c.frames[d].index < c.frames[d].length,
{
    if let Some(t) = c.table {
        if c.frames.len() > 0 {
            assert(frame_ok(g, c, 0));
        }
        assert(g.table_len(root(c) as int) <= max_bins());
        assert(g.table_len(t as int) <= max_bins());
        assert forall|d: int| 0 <= d < c.frames.len() implies #[trigger] c.frames[d].length
            <= max_bins() && c.frames[d].index < c.frames[d].length by {
            assert(frame_ok(g, c, d));
            assert(g.table_len(c.frames[d].table as int) <= max_bins());
        }
    }
}

proof fn lemma_with_prev(g: Generations, c: Cursor, p: Option<nat>)
    requires
        inv(g, c),
        p matches Some(x) ==> x < g.links.len(),
    ensures
        inv(g, Cursor { prev: p, ..c }),
{
    let c1 = Cursor { prev: p, ..c };
    assert forall|d: int| 0 <= d < c1.frames.len() implies #[trigger] frame_ok(g, c1, d) by {
        assert(frame_ok(g, c, d));
    }
}

/// A traversal that hands out nothing has no dive open and has passed the
/// last top-level bin; what it hands out is a node of the heap.
pub proof fn lemma_resolve(g: Generations, c: Cursor)
    requires
        inv(g, c),
    ensures
        inv(g, resolve(g, c).0),
        resolve(g, c).1 matches Some(x) ==> x < g.links.len() && resolve(g, c).0.prev == Some(x),
        resolve(g, c).1 is None ==> resolve(g, c).0.frames.len() == 0
            && resolve(g, c).0.base_index >= resolve(g, c).0.base_limit
            && resolve(g, c).0.prev is None,
    decreases rank(g, c),
{
    if terminated(g, c) {
        if let Some(t) = c.table {
            if c.frames.len() > 0 {
                assert(frame_ok(g, c, 0));
            }
        }
        lemma_with_prev(g, c, None);
    } else {
        lemma_step(g, c);
        let (c1, e) = step(g, c);
        let t = c.table->0;
        assert(g.bin_ok(t as int, g.bins[t as int][c.index as int]));
        if e is None {
            lemma_resolve(g, c1);
        } else {
            lemma_with_prev(g, c1, e);
        }
    }
}

/// One request keeps the invariant, with the same outcome on termination.
pub proof fn lemma_advance(g: Generations, c: Cursor)
    requires
        inv(g, c),
    ensures
        inv(g, advance(g, c).0),
        advance(g, c).1 matches Some(x) ==> x < g.links.len() && advance(g, c).0.prev == Some(x),
        advance(g, c).1 is None ==> advance(g, c).0.frames.len() == 0
            && advance(g, c).0.base_index >= advance(g, c).0.base_limit
            && advance(g, c).0.prev is None,
{
    lemma_resolve(g, c);
    if let Some(p) = c.prev {
        if let Some(y) = g.links[p as int] {
            lemma_with_prev(g, c, Some(y as nat));
        }
    }
}

} // verus!

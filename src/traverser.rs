//! The iterator that walks every bin of a table, following forwarding
//! markers into later generations and coming back out of them.
use vstd::prelude::*;
use crate::machine::{
    Cursor, Frame, advance, inv, lemma_advance, lemma_inv_bounds, lemma_step, rank, recover,
    resolve, step,
};
use crate::table::{BinEntry, Generations, Heap, max_bins};

verus! {

/// A resume point kept while the iterator is inside a forwarded table.
#[derive(Debug)]
pub struct TableStack {
    /// Bin count of the table that was left.
    pub length: usize,
    /// The bin of that table whose forwarding marker was followed.
    pub index: usize,
    /// The table that was left.
    pub table: usize,
}

impl TableStack {
    pub open spec fn view(&self) -> Frame {
        Frame { table: self.table as nat, length: self.length as nat, index: self.index as nat }
    }
}

pub open spec fn as_nat(o: Option<usize>) -> Option<nat> {
    match o {
        Some(x) => Some(x as nat),
        None => None,
    }
}

/// The cursor that a traversal of `table` starts from.
pub open spec fn start(g: Generations, table: Option<usize>) -> Cursor {
    let len = match table {
        Some(t) => g.table_len(t as int),
        None => 0,
    };
    Cursor {
        table: as_nat(table),
        frames: seq![],
        prev: None,
        index: 0,
        base_index: 0,
        base_limit: len,
        base_size: len,
    }
}

/// Hands out, one at a time, the index of every node reachable from a
/// table: bin by bin, each chain in order, diving through forwarding
/// markers into the tables that superseded it.
pub struct NodeIter<'g, K, V> {
    /// Borrowed for the iterator's whole life: no table or node it can
    /// reach is freed or moved before the traversal ends.
    heap: &'g Heap<K, V>,
    /// Current table; changes on every dive and on every return from one.
    table: Option<usize>,
    stack: Vec<TableStack>,
    /// Frames popped off `stack`, kept for reuse.
    spare: Vec<TableStack>,
    /// The node handed out last.
    prev: Option<usize>,
    /// Index of the bin to read next.
    index: usize,
    /// Current bin of the initial table.
    base_index: usize,
    /// Bound on the bins of the initial table.
    base_limit: usize,
    /// Bin count of the initial table.
    base_size: usize,
    /// The deepest the stack of frames has been.
    peak: Ghost<nat>,
}

impl<'g, K, V> NodeIter<'g, K, V> {
    pub closed spec fn generations(&self) -> Generations {
        self.heap@
    }

    pub closed spec fn cursor(&self) -> Cursor {
        Cursor {
            table: as_nat(self.table),
            frames: self.stack@.map_values(|f: TableStack| f@),
            prev: as_nat(self.prev),
            index: self.index as nat,
            base_index: self.base_index as nat,
            base_limit: self.base_limit as nat,
            base_size: self.base_size as nat,
        }
    }

    /// Number of frames kept for reuse.
    pub closed spec fn pooled(&self) -> nat {
        self.spare.len() as nat
    }

    /// The greatest number of dives that were open at once.
    pub closed spec fn peak(&self) -> nat {
        self.peak@
    }

    /// The pool of frames holds no more than the deepest stack needed.
    pub closed spec fn wf(&self) -> bool {
        &&& inv(self.heap@, self.cursor())
        &&& self.stack.len() + self.spare.len() == self.peak@
    }

    /// Starts a traversal of the table `table` of `heap`; with no table,
    /// the traversal is over from the start.
    pub fn new(heap: &'g Heap<K, V>, table: Option<usize>) -> (r: Self)
        requires
            heap.wf(),
            table matches Some(t) ==> t < heap.tables.len(),
        ensures
            r.wf(),
            r.generations() == heap@,
            r.cursor() == start(heap@, table),
            r.peak() == 0,
            r.pooled() == 0,
    {
        let len = match table {
            Some(t) => heap.tables[t].bins.len(),
            None => 0,
        };
        let r = NodeIter {
            heap,
            table,
            stack: Vec::new(),
            spare: Vec::new(),
            prev: None,
            index: 0,
            base_index: 0,
            base_limit: len,
            base_size: len,
            peak: Ghost(0),
        };
        proof {
            assert(r.cursor().frames =~= seq![]);
        }
        r
    }

    /// A traversal has a dive open only while top-level bins are left, and
    /// keeps no more frames, open or pooled, than the deepest it has dived.
    pub proof fn lemma_frames_bounded(&self)
        requires
            self.wf(),
        ensures
            self.cursor().base_index >= self.cursor().base_limit ==> self.cursor().frames.len() == 0,
            self.pooled() + self.cursor().frames.len() == self.peak(),
    {
    }

    /// Records where to resume once the dive from bin `i` of table `t`,
    /// which has `n` bins, is done; reuses a pooled frame if there is one.
    fn push_state(&mut self, t: usize, i: usize, n: usize)
        requires
            old(self).stack.len() + old(self).spare.len() == old(self).peak@,
        ensures
            final(self).stack@ == old(self).stack@.push(TableStack { length: n, index: i, table: t }),
            final(self).stack.len() + final(self).spare.len() == final(self).peak@,
            final(self).peak@ == if old(self).peak@ >= final(self).stack.len() {
                old(self).peak@
            } else {
                final(self).stack.len() as nat
            },
            final(self).heap == old(self).heap,
            final(self).table == old(self).table,
            final(self).prev == old(self).prev,
            final(self).index == old(self).index,
            final(self).base_index == old(self).base_index,
            final(self).base_limit == old(self).base_limit,
            final(self).base_size == old(self).base_size,
    {
        let target = match self.spare.pop() {
            Some(mut s) => {
                s.table = t;
                s.length = n;
                s.index = i;
                s
            },
            None => {
                self.peak = Ghost(self.peak@ + 1);
                TableStack { length: n, index: i, table: t }
            },
        };
        self.stack.push(target);
    }

    /// Moves on after a bin of a table with `n` bins was read: to the next
    /// shadow position of the innermost dive, out of every finished dive,
    /// and on along the initial table once no dive is open.
    fn recover_state(&mut self, n: usize)
        requires
            inv(old(self).heap@, old(self).cursor()),
            old(self).stack.len() + old(self).spare.len() == old(self).peak@,
        ensures
            final(self).cursor() == recover(old(self).cursor(), n as nat),
            final(self).stack.len() + final(self).spare.len() == final(self).peak@,
            final(self).peak@ == old(self).peak@,
            final(self).heap == old(self).heap,
    {
        let ghost target = recover(self.cursor(), n as nat);
        proof {
            lemma_inv_bounds(self.heap@, self.cursor());
            assert forall|d: int| 0 <= d < self.stack.len() implies #[trigger] self.stack@[d].length
                <= max_bins() && self.stack@[d].index < self.stack@[d].length by {
                assert(self.cursor().frames[d] == self.stack@[d]@);
                assert(self.cursor().frames[d].length <= max_bins());
                assert(self.cursor().frames[d].index < self.cursor().frames[d].length);
            }
        }
        let mut m = n;
        while self.stack.len() > 0
            invariant
                recover(self.cursor(), m as nat) == target,
                target == recover(old(self).cursor(), n as nat),
                self.stack.len() + self.spare.len() == self.peak@,
                self.peak@ == old(self).peak@,
                self.heap == old(self).heap,
                self.index <= max_bins(),
                self.base_size <= max_bins(),
                self.base_index <= self.base_limit,
                self.base_limit == self.base_size,
                forall|d: int|
                    0 <= d < self.stack.len() ==> #[trigger] self.stack@[d].length <= max_bins()
                        && self.stack@[d].index < self.stack@[d].length,
            decreases self.stack.len(),
        {
            let top = self.stack.len() - 1;
            let len = self.stack[top].length;
            let ghost before = self.cursor();
            assert(before.frames.last() == self.stack@[top as int]@);
            if self.index + len < m {
                self.index = self.index + len;
                assert(self.cursor() == recover(before, m as nat));
                return;
            }
            let s = self.stack.pop().unwrap();
            m = s.length;
            self.index = s.index;
            self.table = Some(s.table);
            self.spare.push(s);
            assert(self.cursor().frames =~= before.frames.drop_last());
        }
        self.index = self.index + self.base_size;
        if self.index >= m {
            self.base_index = self.base_index + 1;
            self.index = self.base_index;
        }
    }

    /// Hands out the next node, or `None` once every bin has been read.
    /// After the last chain head comes the rest of its chain; a dive
    /// through a forwarding marker visits, in the larger table, every
    /// position that the bin it left was split into.
    pub fn next(&mut self) -> (r: Option<usize>)
        requires
            old(self).wf(),
        ensures
            final(self).wf(),
            final(self).generations() == old(self).generations(),
            final(self).cursor() == advance(old(self).generations(), old(self).cursor()).0,
            as_nat(r) == advance(old(self).generations(), old(self).cursor()).1,
            r matches Some(x) ==> x < old(self).generations().links.len(),
            r is None ==> final(self).cursor().frames.len() == 0
                && final(self).cursor().base_index >= final(self).cursor().base_limit,
            final(self).pooled() + final(self).cursor().frames.len() == final(self).peak(),
            final(self).peak() >= old(self).peak(),
    {
        let heap = self.heap;
        let ghost g = heap@;
        proof {
            lemma_advance(g, self.cursor());
        }
        if let Some(p) = self.prev {
            let next = heap.nodes[p].next;
            if let Some(x) = next {
                self.prev = Some(x);
                return Some(x);
            }
        }
        let ghost c0 = self.cursor();
        loop
            invariant
                self.wf(),
                self.heap == heap,
                old(self).heap == heap,
                g == heap@,
                inv(g, c0),
                advance(g, old(self).cursor()) == resolve(g, c0),
                inv(g, advance(g, old(self).cursor()).0),
                advance(g, old(self).cursor()).1 matches Some(x) ==> x < g.links.len(),
                resolve(g, self.cursor()) == resolve(g, c0),
                self.peak@ >= old(self).peak@,
            decreases rank(g, self.cursor()),
        {
            let t = match self.table {
                Some(t) => t,
                None => {
                    self.prev = None;
                    return None;
                },
            };
            if self.base_index >= self.base_limit || heap.tables[t].bins.len() <= self.index {
                self.prev = None;
                return None;
            }
            let i = self.index;
            let n = heap.tables[t].bins.len();
            let ghost c = self.cursor();
            proof {
                lemma_step(g, c);
            }
            let mut e: Option<usize> = None;
            match heap.tables[t].bins[i] {
                Some(BinEntry::Moved(next_table)) => {
                    self.table = Some(next_table);
                    self.prev = None;
                    self.push_state(t, i, n);
                    assert(self.cursor().frames =~= step(g, c).0.frames);
                    continue;
                },
                Some(BinEntry::Node(node)) => {
                    e = Some(node);
                },
                None => {},
            }
            self.recover_state(n);
            if e.is_some() {
                self.prev = e;
                assert(self.cursor() == resolve(g, c).0);
                return e;
            }
        }
    }
}

} // verus!

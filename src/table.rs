//! The bins, chains and table generations that a traversal reads.
use vstd::prelude::*;

verus! {

/// What a populated bin holds.
#[derive(Clone, Copy, Debug, PartialEq, Eq, Structural)]
pub enum BinEntry {
    /// The head of a chain: the index of its first node in the heap.
    Node(usize),
    /// A forwarding marker: the index of the table that superseded this one.
    Moved(usize),
}

/// One element of a bin's chain.
#[derive(Debug)]
pub struct Node<K, V> {
    pub hash: u64,
    pub key: K,
    pub value: V,
    /// Index of the next node of the same chain, if any.
    pub next: Option<usize>,
}

/// One generation of the table: a fixed number of bins.
#[derive(Debug)]
pub struct Table {
    pub bins: Vec<Option<BinEntry>>,
}

/// Every table generation and every chain node that a traversal may reach.
/// Forwarding markers and chain links are indices into these vectors.
#[derive(Debug)]
pub struct Heap<K, V> {
    pub tables: Vec<Table>,
    pub nodes: Vec<Node<K, V>>,
}

/// What the traversal sees of a heap: the bins of each table and the
/// successor link of each node.
pub struct Generations {
    pub bins: Seq<Seq<Option<BinEntry>>>,
    pub links: Seq<Option<usize>>,
}

/// The largest number of bins a table can have: an allocation never
/// exceeds `isize::MAX` bytes.
pub open spec fn max_bins() -> nat {
    isize::MAX as nat
}

impl Generations {
    pub open spec fn table_len(self, t: int) -> nat {
        self.bins[t].len()
    }

    /// A bin refers only to nodes and tables that exist; a forwarding
    /// marker points to a later generation that is no smaller.
    pub open spec fn bin_ok(self, t: int, e: Option<BinEntry>) -> bool {
        match e {
            None => true,
            Some(BinEntry::Node(x)) => x < self.links.len(),
            Some(BinEntry::Moved(nt)) => t < nt < self.bins.len() && self.table_len(t)
                <= self.table_len(nt as int),
        }
    }

    pub open spec fn wf(self) -> bool {
        &&& forall|t: int| 0 <= t < self.bins.len() ==> self.table_len(t) <= max_bins()
        &&& forall|t: int, i: int|
            0 <= t < self.bins.len() && 0 <= i < self.bins[t].len() ==> #[trigger] self.bin_ok(
                t,
                self.bins[t][i],
            )
        &&& forall|x: int|
            0 <= x < self.links.len() ==> match #[trigger] self.links[x] {
                Some(y) => y < self.links.len(),
                None => true,
            }
    }
}

impl<K, V> Heap<K, V> {
    pub open spec fn view(&self) -> Generations {
        Generations {
            bins: self.tables@.map_values(|t: Table| t.bins@),
            links: self.nodes@.map_values(|n: Node<K, V>| n.next),
        }
    }

    pub open spec fn wf(&self) -> bool {
        self@.wf()
    }

    /// Whether every bin and link refers to what exists, every forwarding
    /// marker to a later table that is no smaller, and no table is larger
    /// than an allocation can be.
    pub fn is_well_formed(&self) -> (r: bool)
        ensures
            r == self.wf(),
    {
        let ghost g = self@;
        let mut x: usize = 0;
        while x < self.nodes.len()
            invariant
                g == self@,
                x <= self.nodes.len(),
                forall|y: int|
                    0 <= y < x ==> match #[trigger] g.links[y] {
                        Some(z) => z < g.links.len(),
                        None => true,
                    },
            decreases self.nodes.len() - x,
        {
            if let Some(z) = self.nodes[x].next {
                if z >= self.nodes.len() {
                    assert(!(match g.links[x as int] {
                        Some(z) => z < g.links.len(),
                        None => true,
                    }));
                    return false;
                }
            }
            x = x + 1;
        }
        let mut t: usize = 0;
        while t < self.tables.len()
            invariant
                g == self@,
                t <= self.tables.len(),
                forall|y: int|
                    0 <= y < g.links.len() ==> match #[trigger] g.links[y] {
                        Some(z) => z < g.links.len(),
                        None => true,
                    },
                forall|u: int| 0 <= u < t ==> g.table_len(u) <= max_bins(),
                forall|u: int, i: int|
                    0 <= u < t && 0 <= i < g.bins[u].len() ==> #[trigger] g.bin_ok(u, g.bins[u][i]),
            decreases self.tables.len() - t,
        {
            let n = self.tables[t].bins.len();
            if n > isize::MAX as usize {
                assert(g.table_len(t as int) > max_bins());
                return false;
            }
            let mut i: usize = 0;
            while i < n
                invariant
                    g == self@,
                    t < self.tables.len(),
                    n == g.table_len(t as int),
                    i <= n,
                    forall|j: int| 0 <= j < i ==> #[trigger] g.bin_ok(t as int, g.bins[t as int][j]),
                decreases n - i,
            {
                match self.tables[t].bins[i] {
                    Some(BinEntry::Node(y)) => {
                        if y >= self.nodes.len() {
                            assert(!g.bin_ok(t as int, g.bins[t as int][i as int]));
                            return false;
                        }
                    },
                    Some(BinEntry::Moved(u)) => {
                        if u <= t || u >= self.tables.len() || self.tables[u].bins.len() < n {
                            assert(!g.bin_ok(t as int, g.bins[t as int][i as int]));
                            return false;
                        }
                    },
                    None => {},
                }
                i = i + 1;
            }
            t = t + 1;
        }
        true
    }
}

} // verus!

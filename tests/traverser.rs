use flurry::table::{BinEntry, Heap, Node, Table};
use flurry::traverser::NodeIter;

fn node(key: usize, next: Option<usize>) -> Node<usize, usize> {
    Node { hash: 0, key, value: key, next }
}

fn empty_table(len: usize) -> Table {
    Table { bins: vec![None; len] }
}

fn drain(iter: &mut NodeIter<usize, usize>) -> Vec<usize> {
    let mut out = Vec::new();
    while let Some(e) = iter.next() {
        out.push(e);
    }
    out
}

#[test]
fn iter_new() {
    let heap: Heap<usize, usize> = Heap { tables: Vec::new(), nodes: Vec::new() };
    let mut iter = NodeIter::new(&heap, None);
    assert_eq!(drain(&mut iter).len(), 0);
}

#[test]
fn iter_empty() {
    let heap: Heap<usize, usize> = Heap { tables: vec![empty_table(16)], nodes: Vec::new() };
    let mut iter = NodeIter::new(&heap, Some(0));
    assert_eq!(drain(&mut iter).len(), 0);
}

#[test]
fn iter_simple() {
    let mut table = empty_table(16);
    table.bins[8] = Some(BinEntry::Node(0));
    let heap = Heap { tables: vec![table], nodes: vec![node(0, None)] };
    let mut iter = NodeIter::new(&heap, Some(0));
    let e = iter.next().unwrap();
    assert_eq!(heap.nodes[e].key, 0);
    assert!(iter.next().is_none());
}

#[test]
fn iter_fw() {
    // the forwarded-from table comes first, the table it forwards to after it
    let mut table = empty_table(16);
    for bin in &mut table.bins[8..] {
        *bin = Some(BinEntry::Moved(1));
    }
    let mut deep_table = empty_table(16);
    deep_table.bins[8] = Some(BinEntry::Node(0));
    let heap = Heap { tables: vec![table, deep_table], nodes: vec![node(0, None)] };
    let mut iter = NodeIter::new(&heap, Some(0));
    let e = iter.next().unwrap();
    assert_eq!(heap.nodes[e].key, 0);
    assert!(iter.next().is_none());
}

#[test]
fn iter_end_is_final() {
    let mut table = empty_table(4);
    table.bins[2] = Some(BinEntry::Node(0));
    let heap = Heap { tables: vec![table], nodes: vec![node(7, None)] };
    let mut iter = NodeIter::new(&heap, Some(0));
    assert_eq!(iter.next(), Some(0));
    assert_eq!(iter.next(), None);
    assert_eq!(iter.next(), None);
    assert_eq!(iter.next(), None);
}

#[test]
fn iter_chain_in_order() {
    let mut table = empty_table(8);
    table.bins[3] = Some(BinEntry::Node(2));
    let nodes = vec![node(10, None), node(11, Some(0)), node(12, Some(1))];
    let heap = Heap { tables: vec![table], nodes };
    let mut iter = NodeIter::new(&heap, Some(0));
    let keys: Vec<usize> = drain(&mut iter).into_iter().map(|e| heap.nodes[e].key).collect();
    assert_eq!(keys, vec![12, 11, 10]);
    assert_eq!(iter.next(), None);
}

#[test]
fn iter_chains_in_several_bins() {
    let mut table = empty_table(4);
    table.bins[0] = Some(BinEntry::Node(0));
    table.bins[3] = Some(BinEntry::Node(2));
    let nodes = vec![node(1, Some(1)), node(2, None), node(3, None)];
    let heap = Heap { tables: vec![table], nodes };
    let mut iter = NodeIter::new(&heap, Some(0));
    assert_eq!(drain(&mut iter), vec![0, 1, 2]);
}

#[test]
fn iter_doubling_visits_both_halves() {
    let mut table = empty_table(4);
    for bin in table.bins.iter_mut() {
        *bin = Some(BinEntry::Moved(1));
    }
    let mut bigger = empty_table(8);
    bigger.bins[1] = Some(BinEntry::Node(0));
    bigger.bins[5] = Some(BinEntry::Node(1));
    let heap = Heap { tables: vec![table, bigger], nodes: vec![node(1, None), node(5, None)] };
    let mut iter = NodeIter::new(&heap, Some(0));
    assert_eq!(drain(&mut iter), vec![0, 1]);
    assert_eq!(iter.next(), None);
}

#[test]
fn iter_forwarded_suffix_into_larger_table() {
    let mut table = empty_table(8);
    for bin in &mut table.bins[4..] {
        *bin = Some(BinEntry::Moved(1));
    }
    let mut bigger = empty_table(16);
    bigger.bins[13] = Some(BinEntry::Node(0));
    let heap = Heap { tables: vec![table, bigger], nodes: vec![node(13, None)] };
    let mut iter = NodeIter::new(&heap, Some(0));
    assert_eq!(drain(&mut iter), vec![0]);
}

#[test]
fn iter_two_resizes_every_position_once() {
    let mut t0 = empty_table(2);
    for bin in t0.bins.iter_mut() {
        *bin = Some(BinEntry::Moved(1));
    }
    let mut t1 = empty_table(4);
    for bin in t1.bins.iter_mut() {
        *bin = Some(BinEntry::Moved(2));
    }
    let mut t2 = empty_table(8);
    let mut nodes = Vec::new();
    for i in 0..8 {
        t2.bins[i] = Some(BinEntry::Node(i));
        nodes.push(node(i, None));
    }
    let heap = Heap { tables: vec![t0, t1, t2], nodes };
    let mut iter = NodeIter::new(&heap, Some(0));
    assert_eq!(drain(&mut iter), vec![0, 4, 2, 6, 1, 5, 3, 7]);
    assert_eq!(iter.next(), None);
}

#[test]
fn iter_mixed_bins_and_markers() {
    // bin 0 holds a chain in place; bin 1 was moved to a table of twice the size
    let mut t0 = empty_table(2);
    t0.bins[0] = Some(BinEntry::Node(0));
    t0.bins[1] = Some(BinEntry::Moved(1));
    let mut t1 = empty_table(4);
    t1.bins[1] = Some(BinEntry::Node(1));
    t1.bins[3] = Some(BinEntry::Node(2));
    let heap = Heap { tables: vec![t0, t1], nodes: vec![node(0, None), node(1, None), node(3, None)] };
    let mut iter = NodeIter::new(&heap, Some(0));
    assert_eq!(drain(&mut iter), vec![0, 1, 2]);
}

#[test]
fn well_formed_heaps_are_accepted() {
    let mut t0 = empty_table(4);
    t0.bins[0] = Some(BinEntry::Node(0));
    t0.bins[1] = Some(BinEntry::Moved(1));
    let t1 = empty_table(8);
    let heap = Heap { tables: vec![t0, t1], nodes: vec![node(0, Some(1)), node(1, None)] };
    assert!(heap.is_well_formed());
    let empty: Heap<usize, usize> = Heap { tables: Vec::new(), nodes: Vec::new() };
    assert!(empty.is_well_formed());
}

#[test]
fn dangling_link_is_refused() {
    let heap = Heap { tables: vec![empty_table(2)], nodes: vec![node(0, Some(5))] };
    assert!(!heap.is_well_formed());
}

#[test]
fn dangling_chain_head_is_refused() {
    let mut t0 = empty_table(2);
    t0.bins[1] = Some(BinEntry::Node(3));
    let heap = Heap { tables: vec![t0], nodes: vec![node(0, None)] };
    assert!(!heap.is_well_formed());
}

#[test]
fn marker_to_earlier_table_is_refused() {
    let t0 = empty_table(2);
    let mut t1 = empty_table(4);
    t1.bins[0] = Some(BinEntry::Moved(0));
    let heap: Heap<usize, usize> = Heap { tables: vec![t0, t1], nodes: Vec::new() };
    assert!(!heap.is_well_formed());
}

#[test]
fn marker_to_smaller_table_is_refused() {
    let mut t0 = empty_table(4);
    t0.bins[3] = Some(BinEntry::Moved(1));
    let t1 = empty_table(2);
    let heap: Heap<usize, usize> = Heap { tables: vec![t0, t1], nodes: Vec::new() };
    assert!(!heap.is_well_formed());
}

#[test]
fn marker_to_missing_table_is_refused() {
    let mut t0 = empty_table(4);
    t0.bins[0] = Some(BinEntry::Moved(1));
    let heap: Heap<usize, usize> = Heap { tables: vec![t0], nodes: Vec::new() };
    assert!(!heap.is_well_formed());
}

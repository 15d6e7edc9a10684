use scarlet::vm::array::{
    elements, empty, from_values, get, len, push, range, range_len, slice, skip, take, Items,
};
use scarlet::vm::heap::Heap;
use scarlet::vm::record::Kind;
use scarlet::vm::rrb::plan;
use scarlet::vm::tree::End;
use scarlet::vm::value::{Cell, Value, View};

const B: usize = 32;
const BITS: usize = 5;

struct Root {
    len: usize,
    shift: usize,
    offset: usize,
    head: Value,
    tree: Value,
    tail: Value,
}

fn root(heap: &Heap, array: Cell) -> Root {
    assert_eq!(heap.kind(array), Kind::ArrayRoot);
    let d = heap.data(array);
    Root {
        len: d[0] as usize,
        shift: d[1] as usize,
        offset: d[2] as usize,
        head: Value::from_bits(d[3]),
        tree: Value::from_bits(d[4]),
        tail: Value::from_bits(d[5]),
    }
}

fn leaf_len(heap: &Heap, v: Value) -> usize {
    match v.as_cell() {
        Some(c) => {
            assert_eq!(heap.kind(c), Kind::ArrayLeaf);
            heap.len(c)
        }
        None => 0,
    }
}

/// Every invariant of the tree: each node's height, each leaf's and branch's
/// slot count, each running total, and the root's length.
fn check(heap: &Heap, array: Cell) {
    let r = root(heap, array);
    for buf in [r.head, r.tail] {
        let n = leaf_len(heap, buf);
        assert!(
            buf.as_cell().is_none() || (1..=B).contains(&n),
            "a buffer of {n}"
        );
    }
    assert!(
        r.offset < leaf_len(heap, r.head).max(1),
        "an offset past its leaf"
    );
    let tree_len = if r.tree.as_cell().is_some() {
        check_node(heap, r.tree, r.shift)
    } else {
        0
    };
    assert_eq!(
        r.len,
        leaf_len(heap, r.head) - r.offset + tree_len + leaf_len(heap, r.tail)
    );
    assert_eq!(elements(heap, array).len(), r.len);
}

fn check_node(heap: &Heap, n: Value, shift: usize) -> usize {
    let c = n.as_cell().expect("a node");
    let d = heap.data(c);
    match heap.kind(c) {
        Kind::ArrayLeaf => {
            assert_eq!(shift, 0, "a leaf above the bottom");
            assert!((1..=B).contains(&d.len()));
            d.len()
        }
        Kind::ArrayBranch => {
            let kids = (d.len() - 1) / 2;
            assert_eq!(d[0] as usize, shift, "a branch at the wrong height");
            assert!((1..=B).contains(&kids));
            let mut total = 0;
            for i in 0..kids {
                total += check_node(heap, Value::from_bits(d[1 + kids + i]), shift - BITS);
                assert_eq!(d[1 + i] as usize, total);
            }
            total
        }
        other => panic!("not a node: {other:?}"),
    }
}


fn ints(heap: &Heap, array: Cell) -> Vec<i64> {
    elements(heap, array)
        .into_iter()
        .map(|v| match v.view() {
            View::Int(n) => n,
            other => panic!("not an Int: {other:?}"),
        })
        .collect()
}

fn small(v: Value) -> Option<i64> {
    match v.view() {
        View::Int(n) => Some(n),
        _ => None,
    }
}

fn array_of(heap: &mut Heap, range: std::ops::Range<i64>) -> Cell {
    let items: Vec<Value> = range.map(|n| Value::small_int(n).expect("small")).collect();
    from_values(heap, &items).expect("room")
}

#[test]
fn an_array_reads_back_at_every_size() {
    let mut heap = Heap::new();
    for n in [0, 1, 31, 32, 33, 64, 65, 1024, 1025, 40_000] {
        let a = array_of(&mut heap, 0..n);
        check(&heap, a);
        assert_eq!(len(&heap, a), n as usize);
        assert_eq!(ints(&heap, a), (0..n).collect::<Vec<_>>());
        for i in [0, n / 2, n - 1] {
            if n > 0 {
                assert_eq!(
                    get(&heap, a, i as usize).map(Value::view),
                    Value::small_int(i).map(Value::view)
                );
            }
        }
        assert!(get(&heap, a, n as usize).is_none());
        heap.release(a);
        assert_eq!(heap.live(), 0, "size {n}");
    }
}

/// Pushes at both ends, 3,000 of each, keep every invariant and leave the
/// array they started from as it was.
#[test]
fn pushing_at_either_end_leaves_the_old_array_alone() {
    let mut heap = Heap::new();
    let first = array_of(&mut heap, 0..10);
    let mut a = first;
    heap.share(a);
    let mut want: std::collections::VecDeque<i64> = (0..10).collect();
    for i in 0..3000 {
        let (end, x) = if i % 3 == 0 {
            (End::Front, -i)
        } else {
            (End::Back, 100 + i)
        };
        let next = push(&mut heap, a, Value::small_int(x).expect("small"), end).expect("room");
        heap.release(a);
        a = next;
        match end {
            End::Front => want.push_front(x),
            End::Back => want.push_back(x),
        }
    }
    check(&heap, a);
    assert_eq!(ints(&heap, a), want.into_iter().collect::<Vec<_>>());
    assert_eq!(ints(&heap, first), (0..10).collect::<Vec<_>>());
    heap.release(a);
    heap.release(first);
    assert_eq!(heap.live(), 0);
}

#[test]
fn take_and_skip_cut_anywhere() {
    let mut heap = Heap::new();
    let mut a = array_of(&mut heap, 0..10);
    for i in 0..40 {
        let next =
            push(&mut heap, a, Value::small_int(-1 - i).expect("small"), End::Front).expect("room");
        heap.release(a);
        a = next;
    }
    let tail = array_of(&mut heap, 10..1500);
    let joined = scarlet::vm::array::concat(&mut heap, a, tail).expect("room");
    let all = ints(&heap, joined);
    for n in [0, 1, 5, 39, 40, 41, 50, 51, 700, 1539, 1540, 1541, 5000] {
        let t = take(&mut heap, joined, n).expect("room");
        check(&heap, t);
        assert_eq!(ints(&heap, t), all[..n.min(all.len())], "take {n}");
        let s = skip(&mut heap, joined, n).expect("room");
        check(&heap, s);
        assert_eq!(ints(&heap, s), all[n.min(all.len())..], "skip {n}");
        heap.release(t);
        heap.release(s);
    }
    for c in [a, tail, joined] {
        heap.release(c);
    }
    assert_eq!(heap.live(), 0);
}

/// Walking an array one element at a time, the way `[h, ..t]` does. Each
/// step keeps the same leaf and moves the offset along, and the tree is
/// cut only when a leaf runs out, so the cells this makes are a small
/// multiple of the number of leaves rather than of the elements. Every
/// step still reads back as the plain list does, from either end and
/// through `get`.
#[test]
fn walking_an_array_from_the_front_copies_no_leaf() {
    let mut heap = Heap::new();
    let n = 1000;
    let a = array_of(&mut heap, 0..n);
    let mut cur = a;
    heap.share(cur);
    // Every leaf the walk reads from. A leaf it copied would be a cell of
    // its own, so counting them is counting the copies.
    let mut heads: Vec<Option<Cell>> = Vec::new();
    for i in 0..n {
        assert_eq!(get(&heap, cur, 0).and_then(small), Some(i), "head at {i}");
        assert_eq!(len(&heap, cur), (n - i) as usize);
        let head = root(&heap, cur).head.as_cell();
        if heads.last() != Some(&head) {
            heads.push(head);
        }
        let next = skip(&mut heap, cur, 1).expect("room");
        check(&heap, next);
        heap.release(cur);
        cur = next;
    }
    assert_eq!(len(&heap, cur), 0);
    heap.release(cur);
    let leaves = (n as usize).div_ceil(B);
    assert!(
        heads.len() <= leaves + 1,
        "{} leaves read for {leaves} in the array",
        heads.len()
    );
    heap.release(a);
    assert_eq!(heap.live(), 0);
}

/// An array partly walked is an ordinary array: what it left behind is
/// invisible to reading it, cutting it, joining it and pushing onto it,
/// and none of those reach past its own front.
#[test]
fn an_array_walked_part_way_behaves_like_the_rest_of_it() {
    let mut heap = Heap::new();
    let whole = array_of(&mut heap, 0..200);
    let other = array_of(&mut heap, 200..260);
    for k in [1, 5, 31, 32, 33, 40, 64, 100] {
        let s = skip(&mut heap, whole, k).expect("room");
        check(&heap, s);
        let rest: Vec<i64> = (k as i64..200).collect();
        assert_eq!(ints(&heap, s), rest, "skip {k}");
        assert_eq!(get(&heap, s, 0).and_then(small), Some(k as i64));
        assert_eq!(get(&heap, s, 3).and_then(small), Some(k as i64 + 3));

        let t = take(&mut heap, s, 7).expect("room");
        check(&heap, t);
        assert_eq!(ints(&heap, t), rest[..7], "take after skip {k}");

        let again = skip(&mut heap, s, 9).expect("room");
        check(&heap, again);
        assert_eq!(ints(&heap, again), rest[9..], "skip twice {k}");

        let joined = scarlet::vm::array::concat(&mut heap, s, other).expect("room");
        check(&heap, joined);
        let want: Vec<i64> = rest.iter().copied().chain(200..260).collect();
        assert_eq!(ints(&heap, joined), want, "concat after skip {k}");

        let front =
            push(&mut heap, s, Value::small_int(-1).expect("small"), End::Front).expect("room");
        check(&heap, front);
        let want: Vec<i64> = std::iter::once(-1).chain(rest.iter().copied()).collect();
        assert_eq!(ints(&heap, front), want, "push front after skip {k}");

        let back = push(&mut heap, s, Value::small_int(-1).expect("small"), End::Back).expect("room");
        check(&heap, back);
        let want: Vec<i64> = rest.iter().copied().chain(std::iter::once(-1)).collect();
        assert_eq!(ints(&heap, back), want, "push back after skip {k}");

        for c in [s, t, again, joined, front, back] {
            heap.release(c);
        }
    }
    heap.release(whole);
    heap.release(other);
    assert_eq!(heap.live(), 0);
}

/// Joins of every size against every size, and a long run of joins,
/// keep every invariant, and the tree stays shallow.
#[test]
fn concat_keeps_the_tree_balanced() {
    let mut heap = Heap::new();
    let sizes = [0, 1, 17, 32, 33, 100, 1024, 1057, 5000];
    for &x in &sizes {
        for &y in &sizes {
            let l = array_of(&mut heap, 0..x);
            let r = array_of(&mut heap, x..x + y);
            let j = scarlet::vm::array::concat(&mut heap, l, r).expect("room");
            check(&heap, j);
            assert_eq!(ints(&heap, j), (0..x + y).collect::<Vec<_>>(), "{x} ++ {y}");
            for c in [l, r, j] {
                heap.release(c);
            }
        }
    }
    let mut acc = empty(&mut heap).expect("room");
    let mut want = Vec::new();
    for i in 0..300 {
        let piece = array_of(&mut heap, i * 7..i * 7 + (i % 40));
        want.extend(i * 7..i * 7 + (i % 40));
        let next = scarlet::vm::array::concat(&mut heap, acc, piece).expect("room");
        heap.release(acc);
        heap.release(piece);
        acc = next;
    }
    check(&heap, acc);
    assert_eq!(ints(&heap, acc), want);
    assert!(
        root(&heap, acc).shift <= 3 * BITS,
        "height {}",
        root(&heap, acc).shift
    );
    heap.release(acc);
    assert_eq!(heap.live(), 0);
}

#[test]
fn a_slice_is_cut_where_its_bounds_fit() {
    let mut heap = Heap::new();
    let a = array_of(&mut heap, 0..100);
    let s = slice(&mut heap, a, 10, 40).expect("room").expect("bounds that fit");
    check(&heap, s);
    assert_eq!(ints(&heap, s), (10..40).collect::<Vec<_>>());
    assert_eq!(slice(&mut heap, a, 40, 10).expect("room"), None);
    assert_eq!(slice(&mut heap, a, 0, 101).expect("room"), None);
    heap.release(s);
    heap.release(a);
    assert_eq!(heap.live(), 0);
}

#[test]
fn a_range_is_as_long_as_its_ends_are_apart() {
    let mut heap = Heap::new();
    assert_eq!(range_len(3, 7), 4);
    assert_eq!(range_len(7, 3), 0);
    assert_eq!(range_len(i64::MIN, i64::MAX), u64::MAX);
    let r = range(&mut heap, 3, 7).expect("room");
    let items = scarlet::vm::array::seq(&heap, r).expect("an array");
    assert_eq!(items.len(&heap), 4);
    match items {
        Items::Range { start, end } => assert_eq!((start, end), (3, 7)),
        Items::Tree(_) => panic!("a tree"),
    }
    let s = heap.string(b"no array").expect("room");
    assert!(scarlet::vm::array::seq(&heap, s).is_none());
}

/// An array and a range of the same Ints are equal, hash alike, and differ from
/// any other.
#[test]
fn a_range_is_the_array_of_its_ints() {
    let mut heap = Heap::new();
    let r = range(&mut heap, 0, 50).expect("room");
    let a = array_of(&mut heap, 0..50);
    let b = array_of(&mut heap, 1..51);
    let (r, a, b) = (Value::cell(r), Value::cell(a), Value::cell(b));
    assert!(scarlet::vm::eq::equal(&heap, r, a));
    assert!(scarlet::vm::eq::equal(&heap, a, r));
    assert!(!scarlet::vm::eq::equal(&heap, r, b));
    assert_eq!(scarlet::vm::hash::hash(&heap, r), scarlet::vm::hash::hash(&heap, a));
    assert_ne!(scarlet::vm::hash::hash(&heap, r), scarlet::vm::hash::hash(&heap, b));
}

/// The greedy plan: the first sparse node is poured into those after it, until
/// two nodes more than the tightest packing are left.
#[test]
fn a_level_is_repacked_from_its_first_sparse_node() {
    assert_eq!(plan(vec![1, 1, 1, 1], 1), [2, 1, 1]);
    assert_eq!(plan(vec![1, 1, 1], 1), [1, 1, 1]);
    assert_eq!(plan(vec![32, 1, 32, 1, 1, 1], 3), [32, 32, 2, 1, 1]);
    assert_eq!(plan(vec![31, 30, 5, 1, 1, 1, 1], 3), [31, 32, 5, 1, 1]);
}

/// Joining with nothing gives the other array itself.
#[test]
fn concat_with_an_empty_side_shares_the_other() {
    let mut heap = Heap::new();
    let none = empty(&mut heap).expect("room");
    let a = from_values(&mut heap, &[Value::nil(), Value::bool(true)]).expect("room");
    let live = heap.live();
    assert_eq!(scarlet::vm::array::concat(&mut heap, none, a).ok(), Some(a));
    assert_eq!(scarlet::vm::array::concat(&mut heap, a, none).ok(), Some(a));
    assert_eq!(scarlet::vm::array::concat(&mut heap, none, none).ok(), Some(none));
    assert_eq!(heap.live(), live);
}

use scarlet::vm::bytecode::hash::Surroundings;
use scarlet::vm::bytecode::object::{Body, MapBox, ProcHeap, Value};

fn heap() -> ProcHeap {
    ProcHeap::new()
}

fn none() -> Surroundings {
    Surroundings::none()
}

fn hash_value(v: &Value) -> u64 {
    scarlet::vm::bytecode::hash::hash_value(v, &none())
}

fn values_equal(a: &Value, b: &Value) -> bool {
    scarlet::vm::bytecode::equal::values_equal(a, b, &none())
}

fn empty(h: &mut ProcHeap) -> Value {
    scarlet::vm::bytecode::hamt::empty(h, &none())
}

fn size(m: &Value) -> usize {
    scarlet::vm::bytecode::hamt::size(m, &none())
}

fn get(m: &Value, k: &Value, hash: u64) -> Option<Value> {
    scarlet::vm::bytecode::hamt::get(m, k, hash, &none())
}

fn insert(h: &mut ProcHeap, m: Value, k: Value, v: Value, hash: u64) -> Value {
    scarlet::vm::bytecode::hamt::insert(h, m, k, v, hash, &none())
}

fn remove(h: &mut ProcHeap, m: Value, k: &Value, hash: u64) -> Value {
    scarlet::vm::bytecode::hamt::remove(h, m, k, hash, &none())
}

/// The five bits of `hash` that pick a slot at a depth.
fn slot(hash: u64, shift: u32) -> u32 {
    ((hash >> shift) & 31) as u32
}

fn root_body(m: &Value) -> &Body {
    match &m.obj.as_ref().expect("an object").body {
        Body::MapRoot(MapBox::Hamt { root, .. }) => &root.obj.as_ref().expect("a node").body,
        _ => panic!("not a map"),
    }
}

fn key(i: i64) -> Value {
    Value::small_int(i)
}

fn set(h: &mut ProcHeap, m: &Value, k: i64, v: i64) -> Value {
    let kv = key(k);
    let hash = hash_value(&kv);
    insert(h, m.clone(), kv, key(v), hash)
}

fn lookup(m: &Value, k: i64) -> Option<i64> {
    get(m, &key(k), hash_value(&key(k))).and_then(|v| v.as_int())
}

#[test]
fn empty_has_no_entries() {
    let mut h = heap();
    let m = empty(&mut h);
    assert_eq!(size(&m), 0);
    assert_eq!(lookup(&m, 1), None);
}

#[test]
fn insert_get_and_overwrite() {
    let mut h = heap();
    let m = empty(&mut h);
    let m = set(&mut h, &m, 1, 10);
    let m = set(&mut h, &m, 2, 20);
    assert_eq!(size(&m), 2);
    assert_eq!(lookup(&m, 1), Some(10));
    assert_eq!(lookup(&m, 2), Some(20));
    assert_eq!(lookup(&m, 3), None);

    // Overwrite does not grow the map.
    let m = set(&mut h, &m, 1, 99);
    assert_eq!(size(&m), 2);
    assert_eq!(lookup(&m, 1), Some(99));
}

#[test]
fn updates_are_persistent() {
    let mut h = heap();
    let m0 = empty(&mut h);
    let base = set(&mut h, &m0, 1, 10);
    let derived = set(&mut h, &base, 2, 20);
    // The earlier version is untouched by the later insert.
    assert_eq!(size(&base), 1);
    assert_eq!(lookup(&base, 2), None);
    assert_eq!(size(&derived), 2);
    assert_eq!(lookup(&derived, 2), Some(20));
}

#[test]
fn many_keys_round_trip() {
    let mut h = heap();
    let mut m = empty(&mut h);
    for i in 0..2000 {
        m = set(&mut h, &m, i, i * 3);
    }
    assert_eq!(size(&m), 2000);
    for i in 0..2000 {
        assert_eq!(lookup(&m, i), Some(i * 3), "key {i}");
    }
    assert_eq!(lookup(&m, 2000), None);
}

#[test]
fn remove_present_and_absent() {
    let mut h = heap();
    let mut m = empty(&mut h);
    for i in 0..100 {
        m = set(&mut h, &m, i, i);
    }
    // Removing an absent key returns the same map value unchanged.
    let same = remove(&mut h, m.clone(), &key(1000), hash_value(&key(1000)));
    assert_eq!(size(&same), 100);

    // Remove the even keys; odds survive, evens are gone, size halves.
    let mut r = m.clone();
    for i in (0..100).step_by(2) {
        r = remove(&mut h, r, &key(i), hash_value(&key(i)));
    }
    assert_eq!(size(&r), 50);
    for i in 0..100 {
        assert_eq!(lookup(&r, i), if i % 2 == 0 { None } else { Some(i) });
    }
    // The pre-removal version still has everything (persistence).
    assert_eq!(size(&m), 100);
    assert_eq!(lookup(&m, 0), Some(0));
}

#[test]
fn remove_collapses_single_child_branch_chain() {
    let mut h = heap();
    // Two keys whose hashes share the level-0 slot, so `split` builds at
    // least one single-child branch on the path between them.
    let a = 0i64;
    let sa = slot(hash_value(&key(a)), 0);
    let b = (1..).find(|&i| slot(hash_value(&key(i)), 0) == sa).unwrap();

    let m0 = empty(&mut h);
    let m_a = set(&mut h, &m0, a, 1);
    let m_ab = set(&mut h, &m_a, b, 2);
    let m_back = remove(&mut h, m_ab.clone(), &key(b), hash_value(&key(b)));

    // After removing `b` the trie must collapse to the same shape as a
    // fresh single insert of `a`: a leaf at the root, no branch chain.
    assert!(matches!(root_body(&m_back), Body::HamtEntry(..)));
    assert_eq!(size(&m_back), 1);
    assert_eq!(lookup(&m_back, a), Some(1));
}

#[test]
fn remove_to_empty() {
    let mut h = heap();
    let m0 = empty(&mut h);
    let m = set(&mut h, &m0, 42, 1);
    let m = remove(&mut h, m, &key(42), hash_value(&key(42)));
    assert_eq!(size(&m), 0);
    assert_eq!(lookup(&m, 42), None);
}

#[test]
fn structural_equality_is_order_independent() {
    let mut h = heap();
    let e1 = empty(&mut h);
    let a1 = set(&mut h, &e1, 1, 10);
    let a = set(&mut h, &a1, 2, 20);
    let e2 = empty(&mut h);
    let b1 = set(&mut h, &e2, 2, 20);
    let b = set(&mut h, &b1, 1, 10);
    assert!(values_equal(&a, &b));
    assert_eq!(hash_value(&a), hash_value(&b));

    // A differing value breaks equality.
    let c = set(&mut h, &a, 1, 11);
    assert!(!values_equal(&a, &c));
}

// No pair of small-int keys really collides, so the collision tests below
// inject the same `hash` for different keys. Faithful because
// `insert`/`get`/`remove` only ever see the hash the caller passes.

/// `set`, but with an injected hash instead of `hash_value(k)`.
fn set_h(h: &mut ProcHeap, m: &Value, k: i64, v: i64, hash: u64) -> Value {
    insert(h, m.clone(), key(k), key(v), hash)
}

/// `lookup`, but with an injected hash instead of `hash_value(k)`.
fn lookup_h(m: &Value, k: i64, hash: u64) -> Option<i64> {
    get(m, &key(k), hash).and_then(|v| v.as_int())
}

/// A two-key map whose keys collide on `hash_value(&key(1))`.
fn collision_pair(h: &mut ProcHeap) -> (Value, u64) {
    let hash = hash_value(&key(1));
    let m = empty(h);
    let m = set_h(h, &m, 1, 10, hash);
    let m = set_h(h, &m, 2, 20, hash);
    (m, hash)
}

#[test]
fn unique_map_is_edited_in_place() {
    let mut h = heap();
    let mut m = empty(&mut h);
    for i in 0..500 {
        m = set(&mut h, &m, i, i);
    }
    // `set` clones (shared path); consume the only reference directly to
    // take the in-place path, and the map object must keep its address.
    let addr = m.heap_obj();
    let kv = key(3);
    let hash = hash_value(&kv);
    let m = insert(&mut h, m, kv, key(999), hash);
    assert_eq!(m.heap_obj(), addr, "unique overwrite must reuse the map");
    assert_eq!(lookup(&m, 3), Some(999));
    assert_eq!(size(&m), 500);

    // Growing and shrinking through the unique path keeps the contents.
    let kv = key(500);
    let hash = hash_value(&kv);
    let m = insert(&mut h, m, kv, key(1000), hash);
    assert_eq!(m.heap_obj(), addr);
    assert_eq!(size(&m), 501);
    let m = remove(&mut h, m, &key(500), hash_value(&key(500)));
    assert_eq!(m.heap_obj(), addr);
    assert_eq!(size(&m), 500);
    for i in 0..500 {
        assert_eq!(lookup(&m, i), Some(if i == 3 { 999 } else { i }), "key {i}");
    }
}

#[test]
fn shared_map_is_never_edited_in_place() {
    let mut h = heap();
    let mut m = empty(&mut h);
    for i in 0..100 {
        m = set(&mut h, &m, i, i);
    }
    // Two references alive: the edit must path-copy and leave `m` intact.
    let edited = insert(&mut h, m.clone(), key(0), key(42), hash_value(&key(0)));
    assert_eq!(lookup(&edited, 0), Some(42));
    assert_eq!(lookup(&m, 0), Some(0), "shared original must be untouched");
    let shrunk = remove(&mut h, m.clone(), &key(1), hash_value(&key(1)));
    assert_eq!(size(&shrunk), 99);
    assert_eq!(lookup(&m, 1), Some(1), "shared original must be untouched");
}

#[test]
fn unique_churn_grow_and_shrink_round_trips() {
    let mut h = heap();
    let mut m = empty(&mut h);
    for i in 0..64 {
        let kv = key(i);
        let hash = hash_value(&kv);
        m = insert(&mut h, m, kv, key(i * 2), hash);
    }
    // bench_map's churn shape: add key i, delete key i-1, all unique.
    for i in 64..2064 {
        let kv = key(i);
        let hash = hash_value(&kv);
        m = insert(&mut h, m, kv, key(i), hash);
        m = remove(&mut h, m, &key(i - 64), hash_value(&key(i - 64)));
    }
    assert_eq!(size(&m), 64);
    for i in 2000..2064 {
        assert_eq!(lookup(&m, i), Some(i), "key {i}");
    }
    assert_eq!(lookup(&m, 1999), None);
}

#[test]
fn colliding_keys_are_both_found() {
    let mut h = heap();
    let (m, hash) = collision_pair(&mut h);
    assert_eq!(size(&m), 2);
    assert_eq!(lookup_h(&m, 1, hash), Some(10));
    assert_eq!(lookup_h(&m, 2, hash), Some(20));
    assert_eq!(lookup_h(&m, 3, hash), None);
}

#[test]
fn colliding_overwrite_keeps_size_and_updates_value() {
    let mut h = heap();
    let (m, hash) = collision_pair(&mut h);
    let m = set_h(&mut h, &m, 2, 99, hash);
    assert_eq!(size(&m), 2);
    assert_eq!(lookup_h(&m, 1, hash), Some(10));
    assert_eq!(lookup_h(&m, 2, hash), Some(99));
}

#[test]
fn third_colliding_key_appends_to_the_bucket() {
    let mut h = heap();
    let (m, hash) = collision_pair(&mut h);
    let m = set_h(&mut h, &m, 3, 30, hash);
    assert_eq!(size(&m), 3);
    assert_eq!(lookup_h(&m, 1, hash), Some(10));
    assert_eq!(lookup_h(&m, 2, hash), Some(20));
    assert_eq!(lookup_h(&m, 3, hash), Some(30));
}

#[test]
fn removing_to_one_entry_collapses_the_bucket() {
    let mut h = heap();
    let (m, hash) = collision_pair(&mut h);
    let m = remove(&mut h, m, &key(1), hash);
    assert_eq!(size(&m), 1);
    assert_eq!(lookup_h(&m, 1, hash), None);
    assert_eq!(lookup_h(&m, 2, hash), Some(20));
    // The bucket collapsed to a plain entry, and the single-child branch
    // chain `split` built above it unwound with it.
    assert!(matches!(root_body(&m), Body::HamtEntry(..)));
}

#[test]
fn entries_are_listed_once_each() {
    let mut h = heap();
    let mut m = empty(&mut h);
    for i in 0..200 {
        m = set(&mut h, &m, i, i + 1);
    }
    let mut all: Vec<(i64, i64)> = scarlet::vm::bytecode::hamt::collect_entries(&m, &none())
        .iter()
        .map(|(k, v)| (k.as_int().unwrap(), v.as_int().unwrap()))
        .collect();
    all.sort();
    assert_eq!(all, (0..200).map(|i| (i, i + 1)).collect::<Vec<_>>());
}

fn shape(body: &Body) -> String {
    match body {
        Body::HamtEntry(k, v) => format!("{:?}={:?}", k.as_int(), v.as_int()),
        Body::HamtBranch(bitmap, children) => {
            let parts: Vec<String> = children
                .iter()
                .map(|c| shape(&c.obj.as_ref().expect("a node").body))
                .collect();
            format!("{bitmap:x}[{}]", parts.join(" "))
        }
        _ => "bucket".to_string(),
    }
}

#[test]
fn equal_maps_have_one_shape() {
    let mut h = heap();
    let mut up = empty(&mut h);
    for i in 0..200 {
        up = set(&mut h, &up, i, i * 2);
    }
    // The same entries, in the other order and with others come and gone.
    let mut down = empty(&mut h);
    for i in (0..600).rev() {
        down = set(&mut h, &down, i, i * 2);
    }
    for i in 200..600 {
        down = remove(&mut h, down, &key(i), hash_value(&key(i)));
    }
    assert!(values_equal(&up, &down));
    assert_eq!(shape(root_body(&up)), shape(root_body(&down)));
    let more = set(&mut h, &up, 1000, 0);
    assert_ne!(shape(root_body(&up)), shape(root_body(&more)));
}

/// A bucket left alone under its branches takes their place.
#[test]
fn removing_from_a_bucket_unwinds_the_branches_over_it() {
    let mut h = heap();
    let (m, hash) = collision_pair(&mut h);
    let m = set_h(&mut h, &m, 3, 30, hash);
    assert!(matches!(root_body(&m), Body::HamtBranch(..)));
    // Once with nothing else referring to the map, once with.
    let kept = m.clone();
    let shared = remove(&mut h, m, &key(1), hash);
    let owned = remove(&mut h, kept, &key(1), hash);
    for m in [shared, owned] {
        assert_eq!(size(&m), 2);
        assert!(matches!(root_body(&m), Body::HamtCollision(..)));
        assert_eq!(lookup_h(&m, 2, hash), Some(20));
        assert_eq!(lookup_h(&m, 3, hash), Some(30));
    }
}

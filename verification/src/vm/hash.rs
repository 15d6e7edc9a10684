//! A value's hash, which places it in a map.
//!
//! Two values that are `==` always hash the same, so the hash reads what a
//! value is, as equality does. Each value goes in as a tag saying what it is,
//! then its parts, with a count before any run of them.
//!
//! The hash is SipHash-1-3 with a fixed key, so that a map's order is the same
//! on every run and every machine. The walk is a list of values still to hash
//! rather than recursion.

use crate::vm::array::{elements, Items, range_count};
use crate::vm::bigint::{magnitude, Number};
use crate::vm::binary::{bits, bytes, octets};
use crate::vm::cells::{all_ok, text_of};
use crate::vm::eq::lemma_below_usable;
use crate::vm::heap::Heap;
use crate::vm::meaning::{
    Data, lemma_meaning, lemma_values_in, lemma_weights_add, lemma_weights_one, meaning, meanings,
    parts, range_data, weight, weights,
};
use crate::vm::nodes::{all_live, live};
use crate::vm::record::{Kind, Record};
use crate::vm::sip::{plus, Sip, sip, word_bytes};
use crate::vm::sound::{big_value, digits_value, is_big, signed_value, sound, valid};
use crate::vm::value::{Cell, Value, variant_bits};
use vstd::prelude::*;

verus! {

/// The key: "scarlet:" and "map-hash", as little-endian words.
pub const K0: u64 = 0x3a74_656c_7261_6373;

pub const K1: u64 = 0x6873_6168_2d70_616d;

pub const TAG_INT: u64 = 1;

pub const TAG_FLOAT: u64 = 2;

/// `Nil`, a Bool, a constructor with no fields or a function with no captures.
pub const TAG_WORD: u64 = 3;

pub const TAG_STRING: u64 = 4;

pub const TAG_CTOR: u64 = 5;

pub const TAG_CLOSURE: u64 = 6;

pub const TAG_TUPLE: u64 = 7;

pub const TAG_ARRAY: u64 = 8;

pub const TAG_BINARY: u64 = 9;

pub const TAG_MAP: u64 = 10;

/// Keys whose whole hashes are equal, in a map.
pub const TAG_COLLISION: u64 = 11;

/// The digits of a number, the least first, none at the top zero.
pub open spec fn digits_of(m: nat) -> Seq<u64>
    decreases m,
{
    if m == 0 {
        Seq::empty()
    } else {
        seq![(m % 0x1_0000_0000_0000_0000) as u64] + digits_of(m / 0x1_0000_0000_0000_0000)
    }
}

pub open spec fn words_stream(ws: Seq<u64>) -> Seq<u8>
    decreases ws.len(),
{
    if ws.len() == 0 {
        Seq::empty()
    } else {
        words_stream(ws.drop_last()) + word_bytes(ws.last())
    }
}

/// An Int by its number: its sign, then its magnitude.
pub open spec fn int_stream(n: int) -> Seq<u8> {
    let ds = digits_of(magnitude(n) as nat);
    word_bytes(TAG_INT) + word_bytes(
        if n < 0 {
            1
        } else {
            0
        },
    ) + word_bytes(ds.len() as u64) + words_stream(ds)
}

/// What a value feeds the hash.
pub open spec fn stream(d: Data) -> Seq<u8>
    decreases d,
{
    match d {
        Data::Int(n) => int_stream(n),
        Data::Float(bits) => word_bytes(TAG_FLOAT) + word_bytes(bits),
        Data::Nil => word_bytes(TAG_WORD) + word_bytes(0xFFFA_0000_0000_0000),
        Data::Bool(b) => word_bytes(TAG_WORD) + word_bytes(
            if b {
                0xFFFB_0000_0000_0001
            } else {
                0xFFFB_0000_0000_0000
            },
        ),
        Data::Func(f) => word_bytes(TAG_WORD) + word_bytes((0xFFFC_0000_0000_0000 + f.0) as u64),
        Data::Nullary(v) => word_bytes(TAG_WORD) + word_bytes(
            (0xFFFE_0000_0000_0000 + variant_bits(v)) as u64,
        ),
        Data::Text(text) => word_bytes(TAG_STRING) + word_bytes(text.len() as u64) + text,
        Data::Ctor(v, kids) => word_bytes(TAG_CTOR) + word_bytes(variant_bits(v)) + word_bytes(
            kids.len() as u64,
        ) + streams(kids),
        Data::Closure(f, kids) => word_bytes(TAG_CLOSURE) + word_bytes(f.0 as u64) + word_bytes(
            kids.len() as u64,
        ) + streams(kids),
        Data::Tuple(kids) => word_bytes(TAG_TUPLE) + word_bytes(kids.len() as u64) + streams(kids),
        Data::Array(kids) => word_bytes(TAG_ARRAY) + word_bytes(kids.len() as u64) + streams(kids),
        Data::Bits(bits) => word_bytes(TAG_BINARY) + word_bytes(bits.len() as u64) + octets(bits),
        Data::Inner(_) => Seq::empty(),
    }
}

pub open spec fn streams(ds: Seq<Data>) -> Seq<u8>
    decreases ds,
{
    if ds.len() == 0 {
        Seq::empty()
    } else {
        streams(ds.drop_last()) + stream(ds.last())
    }
}

pub proof fn lemma_streams_add(a: Seq<Data>, b: Seq<Data>)
    ensures
        streams(a + b) == streams(a) + streams(b),
    decreases b.len(),
{
    if b.len() == 0 {
        assert(a + b =~= a);
        assert(streams(a) + streams(b) =~= streams(a));
    } else {
        lemma_streams_add(a, b.drop_last());
        assert((a + b).drop_last() =~= a + b.drop_last());
        assert((a + b).last() == b.last());
        assert(streams(a + b) =~= streams(a) + streams(b));
    }
}

pub proof fn lemma_streams_one(d: Data)
    ensures
        streams(seq![d]) == stream(d),
{
    assert(seq![d].drop_last() =~= Seq::empty());
    assert(streams(Seq::<Data>::empty()) =~= Seq::empty());
    assert(seq![d].last() == d);
    assert(streams(seq![d]) =~= stream(d));
}

/// What the hash of a value is.
pub open spec fn hash_of(d: Data) -> u64 {
    sip(K0, K1, 1, 3, stream(d))
}

/// Values that are equal hash alike.
pub proof fn law_equal_values_hash_alike(r: Record, a: Value, b: Value)
    requires
        meaning(r, a) == meaning(r, b),
    ensures
        hash_of(meaning(r, a)) == hash_of(meaning(r, b)),
{
}

/// A hash that has the fixed key.
pub open spec fn keyed(s: Sip<1, 3>) -> bool {
    s.wf() && s.keys() == (K0, K1)
}

/// What is still to hash, the first on top.
pub open spec fn pending(r: Record, todo: Seq<Value>) -> Seq<Data> {
    meanings(r, todo.reverse())
}

/// `v`'s hash.
pub fn hash(heap: &Heap, v: Value) -> (r: u64)
    requires
        heap.wf(),
        sound(heap.record()),
        v.ok(),
        live(heap.record(), v),
    ensures
        r == hash_of(meaning(heap.record(), v)),
{
    let ghost rec = heap.record();
    let s: Sip<1, 3> = Sip::new(K0, K1);
    let mut todo: Vec<Value> = Vec::new();
    todo.push(v);
    proof {
        assert(todo@.reverse() =~= seq![v]);
        assert(pending(rec, todo@) =~= seq![meaning(rec, v)]);
        lemma_streams_one(meaning(rec, v));
        assert(s.message() + streams(pending(rec, todo@)) =~= stream(meaning(rec, v)));
    }
    rest(heap, s, todo)
}

/// Hash what is still to hash.
fn rest(heap: &Heap, s: Sip<1, 3>, todo: Vec<Value>) -> (r: u64)
    requires
        heap.wf(),
        sound(heap.record()),
        keyed(s),
        all_ok(todo@),
        all_live(heap.record(), todo@),
    ensures
        r == sip(K0, K1, 1, 3, s.message() + streams(pending(heap.record(), todo@))),
{
    let ghost rec = heap.record();
    let ghost whole = s.message() + streams(pending(rec, todo@));
    let mut s = s;
    let mut todo = todo;
    proof {
        heap.lemma_record_ok();
    }
    while todo.len() > 0
        invariant
            heap.wf(),
            rec == heap.record(),
            rec.shaped(),
            sound(rec),
            keyed(s),
            all_ok(todo@),
            all_live(rec, todo@),
            s.message() + streams(pending(rec, todo@)) == whole,
        decreases weights(pending(rec, todo@)),
    {
        let ghost before = todo@;
        let n: usize = todo.len();
        let x = todo[n - 1];
        todo.truncate(n - 1);
        let ghost left = todo@;
        let ghost fed = s.message();
        proof {
            assert(left =~= before.drop_last());
            assert(before[n - 1] == x);
            assert(before[n - 1].ok() && live(rec, before[n - 1]));
            assert forall|i: int| 0 <= i < left.len() implies (#[trigger] left[i]).ok() && live(
                rec,
                left[i],
            ) by {
                assert(before[i].ok() && live(rec, before[i]));
            }
            let d = meaning(rec, x);
            assert(pending(rec, before) =~= seq![d] + pending(rec, left));
            lemma_streams_add(seq![d], pending(rec, left));
            lemma_streams_one(d);
            lemma_weights_add(seq![d], pending(rec, left));
            lemma_weights_one(d);
        }
        one(heap, x, &mut s, &mut todo);
        proof {
            let more = todo@.skip(left.len() as int);
            assert(todo@ =~= left + more);
            assert(pending(rec, todo@) =~= pending(rec, more) + pending(rec, left));
            lemma_streams_add(pending(rec, more), pending(rec, left));
            lemma_weights_add(pending(rec, more), pending(rec, left));
            assert(s.message() + streams(pending(rec, todo@)) =~= s.message() + streams(
                pending(rec, more),
            ) + streams(pending(rec, left)));
            assert(fed + streams(pending(rec, before)) =~= fed + stream(meaning(rec, x)) + streams(
                pending(rec, left),
            ));
            assert forall|i: int| 0 <= i < todo@.len() implies (#[trigger] todo@[i]).ok() && live(
                rec,
                todo@[i],
            ) by {
                if i < left.len() {
                    assert(left[i].ok() && live(rec, left[i]));
                } else {
                    assert(more[i - left.len()].ok() && live(rec, more[i - left.len()]));
                }
            }
        }
    }
    proof {
        assert(todo@.reverse() =~= Seq::empty());
        assert(pending(rec, todo@) =~= Seq::empty());
        assert(s.message() =~= whole);
    }
    s.finish()
}

/// What hashing one value does: what it feeds, and what it leaves to hash, make
/// up the value's stream.
pub open spec fn hashed(
    r: Record,
    fed: Seq<u8>,
    now: Seq<u8>,
    before: Seq<Value>,
    after: Seq<Value>,
    d: Data,
) -> bool {
    let more = after.skip(before.len() as int);
    &&& after.len() >= before.len()
    &&& after.take(before.len() as int) == before
    &&& all_ok(more)
    &&& all_live(r, more)
    &&& now + streams(pending(r, more)) == fed + stream(d)
    &&& weights(pending(r, more)) < weight(d)
}

proof fn lemma_hashed_now(r: Record, fed: Seq<u8>, now: Seq<u8>, todo: Seq<Value>, d: Data)
    requires
        now == fed + stream(d),
    ensures
        hashed(r, fed, now, todo, todo, d),
{
    let more = todo.skip(todo.len() as int);
    assert(more =~= Seq::empty());
    assert(more.reverse() =~= Seq::empty());
    assert(pending(r, more) =~= Seq::empty());
    assert(now + streams(pending(r, more)) =~= now);
    assert(todo.take(todo.len() as int) =~= todo);
    lemma_weights_one(d);
}

proof fn lemma_hashed_queue(
    r: Record,
    fed: Seq<u8>,
    now: Seq<u8>,
    before: Seq<Value>,
    after: Seq<Value>,
    vs: Seq<Value>,
    d: Data,
)
    requires
        after == before + vs.reverse(),
        all_ok(vs),
        all_live(r, vs),
        now + streams(meanings(r, vs)) == fed + stream(d),
        weight(d) == 1 + weights(meanings(r, vs)),
    ensures
        hashed(r, fed, now, before, after, d),
{
    let more = after.skip(before.len() as int);
    assert(more =~= vs.reverse());
    assert(more.reverse() =~= vs);
    assert(after.take(before.len() as int) =~= before);
    assert forall|i: int| 0 <= i < more.len() implies (#[trigger] more[i]).ok() && live(r, more[i]) by {
        let k = vs.len() - 1 - i;
        assert(vs[k].ok() && live(r, vs[k]));
    }
}

/// Queue values so that the first is hashed first.
fn queue(todo: &mut Vec<Value>, vs: Vec<Value>)
    ensures
        final(todo)@ == old(todo)@ + vs@.reverse(),
{
    let n: usize = vs.len();
    let ghost first = todo@;
    let ghost back = vs@.reverse();
    let mut i: usize = 0;
    proof {
        assert(todo@ =~= first + back.take(0));
    }
    while i < n
        invariant
            n == vs@.len(),
            i <= n,
            back == vs@.reverse(),
            todo@ == first + back.take(i as int),
        decreases n - i,
    {
        todo.push(vs[n - 1 - i]);
        proof {
            assert(back.take(i + 1) =~= back.take(i as int).push(back[i as int]));
            assert(todo@ =~= first + back.take(i + 1));
        }
        i += 1;
    }
    proof {
        assert(back.take(n as int) =~= back);
    }
}

/// Hash `v` itself, and queue what it holds, first part on top.
fn one(heap: &Heap, v: Value, s: &mut Sip<1, 3>, todo: &mut Vec<Value>)
    requires
        heap.wf(),
        heap.record().shaped(),
        sound(heap.record()),
        v.ok(),
        live(heap.record(), v),
        keyed(*old(s)),
    ensures
        keyed(*final(s)),
        hashed(
            heap.record(),
            old(s).message(),
            final(s).message(),
            old(todo)@,
            final(todo)@,
            meaning(heap.record(), v),
        ),
{
    let ghost rec = heap.record();
    let ghost fed = s.message();
    proof {
        lemma_meaning(rec, v);
    }
    match v.view() {
        crate::vm::value::View::Int(n) => {
            small(s, n as i128);
        },
        crate::vm::value::View::Float(bits) => {
            s.word(TAG_FLOAT);
            s.word(
                if bits == 0x8000_0000_0000_0000 {
                    0
                } else {
                    bits
                },
            );
            proof {
                assert(s.message() =~= fed + stream(meaning(rec, v)));
            }
        },
        crate::vm::value::View::Cell(c) => {
            proof {
                assert(v.spec_cell() == Some(c));
            }
            cell(heap, c, s, todo, Ghost(v));
            return;
        },
        _ => {
            s.word(TAG_WORD);
            s.word(v.bits());
            proof {
                lemma_one_word(v);
                assert(s.message() =~= fed + stream(meaning(rec, v)));
            }
        },
    }
    proof {
        lemma_hashed_now(rec, fed, s.message(), todo@, meaning(rec, v));
    }
}

/// The word of a value that is one word.
pub proof fn lemma_one_word(v: Value)
    requires
        v.ok(),
    ensures
        v.spec_view() is Nil ==> v.bits == 0xFFFA_0000_0000_0000,
        v.spec_view() matches crate::vm::value::View::Bool(b) ==> v.bits == if b {
            0xFFFB_0000_0000_0001u64
        } else {
            0xFFFB_0000_0000_0000u64
        },
        v.spec_view() matches crate::vm::value::View::Func(f) ==> v.bits == 0xFFFC_0000_0000_0000
            + f.0,
        v.spec_view() matches crate::vm::value::View::Nullary(n) ==> v.bits
            == 0xFFFE_0000_0000_0000 + variant_bits(n),
{
    let p = v.bits % 0x1_0000_0000_0000;
    assert(v.bits == v.bits / 0x1_0000_0000_0000 * 0x1_0000_0000_0000 + p);
    if v.spec_view() is Nullary {
        crate::vm::value::lemma_variant_back(p);
    }
}

/// Hash a cell.
#[verifier::rlimit(60)]
fn cell(heap: &Heap, c: Cell, s: &mut Sip<1, 3>, todo: &mut Vec<Value>, Ghost(v): Ghost<Value>)
    requires
        heap.wf(),
        heap.record().shaped(),
        sound(heap.record()),
        v.ok(),
        v.spec_view() == crate::vm::value::View::Cell(c),
        heap.record().has(c),
        keyed(*old(s)),
    ensures
        keyed(*final(s)),
        hashed(
            heap.record(),
            old(s).message(),
            final(s).message(),
            old(todo)@,
            final(todo)@,
            meaning(heap.record(), v),
        ),
{
    let ghost rec = heap.record();
    let ghost fed = s.message();
    let ghost d = meaning(rec, v);
    let ghost before = todo@;
    proof {
        lemma_meaning(rec, v);
        assert(valid(rec, c));
        lemma_below_usable(rec, parts(rec, c), rec.rank[c]);
    }
    match crate::vm::array::seq(heap, c) {
        Some(list) => {
            s.word(TAG_ARRAY);
            s.word(list.len(heap));
            match list {
                Items::Range { start, end } => {
                    range_ints(s, start, end);
                    proof {
                        assert(s.message() =~= fed + stream(d));
                        lemma_hashed_now(rec, fed, s.message(), before, d);
                    }
                },
                Items::Tree(t) => {
                    let vs = elements(heap, t);
                    queue(todo, vs);
                    proof {
                        assert(s.message() + streams(meanings(rec, parts(rec, c))) =~= fed + stream(
                            d,
                        ));
                        lemma_hashed_queue(rec, fed, s.message(), before, todo@, parts(rec, c), d);
                    }
                },
            }
            return;
        },
        None => {},
    }
    match bits(heap, c) {
        Some(b) => {
            s.word(TAG_BINARY);
            s.word(b.len);
            let packed = bytes(heap, b);
            s.bytes(packed.as_slice());
            proof {
                assert(s.message() =~= fed + stream(d));
                lemma_hashed_now(rec, fed, s.message(), before, d);
            }
            return;
        },
        None => {},
    }
    match heap.kind(c) {
        Kind::String => {
            s.word(TAG_STRING);
            let mut text: Vec<u8> = Vec::new();
            heap.read_string(c, &mut text);
            s.word(text.len() as u64);
            s.bytes(text.as_slice());
            proof {
                assert(text@ =~= text_of(rec.cells[c]));
                assert(s.message() =~= fed + stream(d));
                lemma_hashed_now(rec, fed, s.message(), before, d);
            }
        },
        Kind::BigInt => {
            big(heap, c, s);
            proof {
                lemma_hashed_now(rec, fed, s.message(), before, d);
            }
        },
        Kind::Ctor => {
            s.word(TAG_CTOR);
            let variant = heap.variant(c);
            s.word(crate::vm::value::variant_to_bits(variant));
            let vs = heap.fields(c);
            proof {
                lemma_values_in(vs@, rec.cells[c].data, 1);
            }
            counted(s, todo, vs);
            proof {
                assert(s.message() + streams(meanings(rec, parts(rec, c))) =~= fed + stream(d));
                lemma_hashed_queue(rec, fed, s.message(), before, todo@, parts(rec, c), d);
            }
        },
        Kind::Closure => {
            s.word(TAG_CLOSURE);
            let f = heap.closure_func(c);
            s.word(f.0 as u64);
            let vs = heap.fields(c);
            proof {
                lemma_values_in(vs@, rec.cells[c].data, 1);
            }
            counted(s, todo, vs);
            proof {
                assert(s.message() + streams(meanings(rec, parts(rec, c))) =~= fed + stream(d));
                lemma_hashed_queue(rec, fed, s.message(), before, todo@, parts(rec, c), d);
            }
        },
        Kind::Tuple => {
            s.word(TAG_TUPLE);
            let vs = heap.elements(c);
            proof {
                assert(rec.cells[c].data.skip(0) =~= rec.cells[c].data);
                lemma_values_in(vs@, rec.cells[c].data, 0);
            }
            counted(s, todo, vs);
            proof {
                assert(s.message() + streams(meanings(rec, parts(rec, c))) =~= fed + stream(d));
                lemma_hashed_queue(rec, fed, s.message(), before, todo@, parts(rec, c), d);
            }
        },
        _ => {
            proof {
                assert(s.message() =~= fed + stream(d));
                lemma_hashed_now(rec, fed, s.message(), before, d);
            }
        },
    }
}

/// How many parts there are, then the parts.
fn counted(s: &mut Sip<1, 3>, todo: &mut Vec<Value>, vs: Vec<Value>)
    requires
        keyed(*old(s)),
    ensures
        keyed(*final(s)),
        final(s).message() == old(s).message() + word_bytes(vs@.len() as u64),
        final(todo)@ == old(todo)@ + vs@.reverse(),
{
    s.word(vs.len() as u64);
    queue(todo, vs);
}

/// An Int, small or big, by its number.
fn small(s: &mut Sip<1, 3>, n: i128)
    requires
        keyed(*old(s)),
    ensures
        keyed(*final(s)),
        final(s).message() == old(s).message() + int_stream(n as int),
{
    let ghost fed = s.message();
    let m = Number::from_i128(n);
    s.word(TAG_INT);
    s.word(
        if n < 0 {
            1
        } else {
            0
        },
    );
    proof {
        lemma_digits(m.negative, m.digits@);
    }
    digits(s, m.digits.as_slice());
    proof {
        assert(s.message() =~= fed + int_stream(n as int));
    }
}

/// How many digits there are, then the digits.
fn digits(s: &mut Sip<1, 3>, ds: &[u64])
    requires
        keyed(*old(s)),
    ensures
        keyed(*final(s)),
        final(s).message() == old(s).message() + word_bytes(ds@.len() as u64) + words_stream(ds@),
{
    s.word(ds.len() as u64);
    let ghost fed = s.message();
    let mut i: usize = 0;
    proof {
        assert(ds@.take(0) =~= Seq::empty());
        assert(fed + words_stream(ds@.take(0)) =~= fed);
    }
    while i < ds.len()
        invariant
            i <= ds@.len(),
            keyed(*s),
            s.message() == fed + words_stream(ds@.take(i as int)),
        decreases ds@.len() - i,
    {
        s.word(ds[i]);
        proof {
            assert(ds@.take(i + 1).drop_last() =~= ds@.take(i as int));
            assert(ds@.take(i + 1).last() == ds@[i as int]);
            assert(s.message() =~= fed + words_stream(ds@.take(i + 1)));
        }
        i += 1;
    }
    proof {
        assert(ds@.take(i as int) =~= ds@);
    }
}

/// Digits in their one form are the digits of their number.
proof fn lemma_digits(negative: bool, ds: Seq<u64>)
    requires
        ds.len() > 0 ==> ds.last() != 0,
        ds.len() == 0 ==> !negative,
    ensures
        ds == digits_of(digits_value(ds)),
        magnitude(signed_value(negative, ds)) == digits_value(ds),
        signed_value(negative, ds) < 0 <==> negative,
    decreases ds.len(),
{
    let m = digits_value(ds);
    if ds.len() > 0 {
        let rest = ds.skip(1);
        if rest.len() > 0 {
            assert(rest.last() == ds.last());
        }
        lemma_digits(false, rest);
        assert(m == ds[0] + 0x1_0000_0000_0000_0000 * digits_value(rest));
        if m == 0 {
            assert(digits_value(rest) == 0);
            assert(digits_of(0) =~= Seq::empty());
            assert(rest.len() == 0);
            assert(ds.last() == ds[0]);
            assert(false);
        }
        assert(m % 0x1_0000_0000_0000_0000 == ds[0] as nat);
        assert(m / 0x1_0000_0000_0000_0000 == digits_value(rest));
        assert(ds =~= seq![ds[0]] + rest);
    } else {
        assert(ds =~= digits_of(0));
    }
}

/// A cell of digits, hashed as its number is.
fn big(heap: &Heap, c: Cell, s: &mut Sip<1, 3>)
    requires
        heap.wf(),
        heap.record().has(c),
        is_big(heap.record().cells[c]),
        keyed(*old(s)),
    ensures
        keyed(*final(s)),
        final(s).message() == old(s).message() + int_stream(big_value(heap.record().cells[c])),
{
    let ghost fed = s.message();
    let m = heap.read_big_int(c);
    s.word(TAG_INT);
    s.word(
        if m.negative {
            1
        } else {
            0
        },
    );
    proof {
        lemma_digits(m.negative, m.digits@);
    }
    digits(s, m.digits.as_slice());
    proof {
        assert(s.message() =~= fed + int_stream(m.value()));
    }
}

/// The Ints of a range, in order.
fn range_ints(s: &mut Sip<1, 3>, start: i64, end: i64)
    requires
        keyed(*old(s)),
    ensures
        keyed(*final(s)),
        final(s).message() == old(s).message() + streams(
            range_data(start as int, range_count(start as int, end as int)),
        ),
{
    let ghost fed = s.message();
    let ghost all = range_data(start as int, range_count(start as int, end as int));
    let mut n: i128 = start as i128;
    proof {
        assert(all.take(0) =~= Seq::empty());
        assert(fed + streams(all.take(0)) =~= fed);
    }
    while n < end as i128
        invariant
            start <= n,
            n <= end || n == start,
            keyed(*s),
            all == range_data(start as int, range_count(start as int, end as int)),
            s.message() == fed + streams(all.take(n - start)),
        decreases end - n,
    {
        small(s, n);
        proof {
            let k = n - start;
            assert(all.take(k + 1).drop_last() =~= all.take(k));
            assert(all.take(k + 1).last() == Data::Int(n as int));
            assert(stream(Data::Int(n as int)) == int_stream(n as int));
            assert(streams(all.take(k + 1)) == streams(all.take(k)) + int_stream(n as int));
            assert(s.message() =~= fed + streams(all.take(k + 1)));
        }
        n = n + 1;
    }
    proof {
        assert(all.take(n - start) =~= all);
    }
}

/// What a map's trie gives out, in its order: an entry, or the entries whose
/// keys' whole hashes are equal, in the order they went in.
pub enum Piece {
    Entry(Value, Value),
    Collision(Vec<(Value, Value)>),
}

/// The hash of an entry of a collision, by the hashes of its key and value.
#[verifier::opaque]
pub open spec fn entry_hash(r: Record, e: (Value, Value)) -> u64 {
    sip(
        K0,
        K1,
        1,
        3,
        word_bytes(hash_of(meaning(r, e.0))) + word_bytes(hash_of(meaning(r, e.1))),
    )
}

/// The hashes of entries, added up.
pub open spec fn hash_sum(r: Record, es: Seq<(Value, Value)>) -> u64
    decreases es.len(),
{
    if es.len() == 0 {
        0
    } else {
        plus(hash_sum(r, es.drop_last()), entry_hash(r, es.last()))
    }
}

/// What pieces feed the hash at once: a collision its sum, an entry nothing.
pub open spec fn sums_stream(r: Record, ps: Seq<Piece>) -> Seq<u8>
    decreases ps.len(),
{
    if ps.len() == 0 {
        Seq::empty()
    } else {
        sums_stream(r, ps.drop_last()) + match ps.last() {
            Piece::Entry(_, _) => Seq::<u8>::empty(),
            Piece::Collision(es) => word_bytes(TAG_COLLISION) + word_bytes(hash_sum(r, es@)),
        }
    }
}

/// The keys and values that follow, each entry's key first.
pub open spec fn entry_parts(ps: Seq<Piece>) -> Seq<Value>
    decreases ps.len(),
{
    if ps.len() == 0 {
        Seq::empty()
    } else {
        entry_parts(ps.drop_last()) + match ps.last() {
            Piece::Entry(k, v) => seq![k, v],
            Piece::Collision(_) => Seq::<Value>::empty(),
        }
    }
}

/// Pieces whose values can be hashed.
pub open spec fn hashable(r: Record, ps: Seq<Piece>) -> bool {
    forall|i: int| 0 <= i < ps.len() ==> match #[trigger] ps[i] {
        Piece::Entry(k, v) => k.ok() && v.ok() && live(r, k) && live(r, v),
        Piece::Collision(es) => usable_pairs(r, es@),
    }
}

pub open spec fn usable_pairs(r: Record, es: Seq<(Value, Value)>) -> bool {
    forall|i: int|
        0 <= i < es.len() ==> (#[trigger] es[i]).0.ok() && es[i].1.ok() && live(r, es[i].0) && live(
            r,
            es[i].1,
        )
}

/// What a map of `size` entries feeds the hash.
pub open spec fn map_stream(r: Record, size: u64, ps: Seq<Piece>) -> Seq<u8> {
    word_bytes(TAG_MAP) + word_bytes(size) + sums_stream(r, ps) + streams(
        meanings(r, entry_parts(ps)),
    )
}

/// The hash of a map, by its size and the pieces of its trie. Equal maps have
/// the same shape, so their entries come out in the same order; all but those
/// of a collision, which add up their own hashes.
pub fn map_hash(heap: &Heap, size: u64, pieces: &[Piece]) -> (r: u64)
    requires
        heap.wf(),
        sound(heap.record()),
        hashable(heap.record(), pieces@),
    ensures
        r == sip(K0, K1, 1, 3, map_stream(heap.record(), size, pieces@)),
{
    let ghost rec = heap.record();
    let mut s: Sip<1, 3> = Sip::new(K0, K1);
    let mut todo: Vec<Value> = Vec::new();
    map_cell(heap, size, pieces, &mut s, &mut todo);
    proof {
        let vs = entry_parts(pieces@);
        assert(todo@ =~= vs.reverse());
        assert(todo@.reverse() =~= vs);
        assert(s.message() + streams(meanings(rec, vs)) =~= map_stream(rec, size, pieces@));
        assert forall|i: int| 0 <= i < todo@.len() implies (#[trigger] todo@[i]).ok() && live(
            rec,
            todo@[i],
        ) by {
            let k = vs.len() - 1 - i;
            assert(vs[k].ok() && live(rec, vs[k]));
        }
    }
    rest(heap, s, todo)
}

/// Hash a map itself, and queue its entries.
pub fn map_cell(
    heap: &Heap,
    size: u64,
    pieces: &[Piece],
    s: &mut Sip<1, 3>,
    todo: &mut Vec<Value>,
)
    requires
        heap.wf(),
        sound(heap.record()),
        hashable(heap.record(), pieces@),
        keyed(*old(s)),
    ensures
        keyed(*final(s)),
        final(s).message() == old(s).message() + word_bytes(TAG_MAP) + word_bytes(size)
            + sums_stream(heap.record(), pieces@),
        final(todo)@ == old(todo)@ + entry_parts(pieces@).reverse(),
        all_ok(entry_parts(pieces@)),
        all_live(heap.record(), entry_parts(pieces@)),
{
    let ghost rec = heap.record();
    let ghost fed = s.message() + word_bytes(TAG_MAP) + word_bytes(size);
    s.word(TAG_MAP);
    s.word(size);
    let mut parts: Vec<Value> = Vec::new();
    let mut i: usize = 0;
    proof {
        assert(pieces@.take(0) =~= Seq::empty());
        assert(s.message() =~= fed + sums_stream(rec, pieces@.take(0)));
        assert(parts@ =~= entry_parts(pieces@.take(0)));
    }
    while i < pieces.len()
        invariant
            i <= pieces@.len(),
            heap.wf(),
            rec == heap.record(),
            sound(rec),
            hashable(rec, pieces@),
            keyed(*s),
            s.message() == fed + sums_stream(rec, pieces@.take(i as int)),
            parts@ == entry_parts(pieces@.take(i as int)),
            all_ok(parts@),
            all_live(rec, parts@),
        decreases pieces@.len() - i,
    {
        let ghost p0 = parts@;
        let ghost m0 = s.message();
        proof {
            assert(pieces@.take(i + 1).drop_last() =~= pieces@.take(i as int));
            assert(pieces@.take(i + 1).last() == pieces@[i as int]);
        }
        match &pieces[i] {
            Piece::Entry(k, v) => {
                parts.push(*k);
                parts.push(*v);
                proof {
                    assert(parts@ =~= p0 + seq![*k, *v]);
                    assert(m0 + Seq::<u8>::empty() =~= m0);
                    assert forall|j: int| 0 <= j < parts@.len() implies (#[trigger] parts@[j]).ok()
                        && live(rec, parts@[j]) by {
                        if j < p0.len() {
                            assert(p0[j].ok() && live(rec, p0[j]));
                        }
                    }
                }
            },
            Piece::Collision(es) => {
                let sum = collision_sum(heap, es);
                s.word(TAG_COLLISION);
                s.word(sum);
                proof {
                    assert(parts@ + Seq::<Value>::empty() =~= parts@);
                }
            },
        }
        proof {
            assert(s.message() =~= fed + sums_stream(rec, pieces@.take(i + 1)));
        }
        i += 1;
    }
    proof {
        assert(pieces@.take(i as int) =~= pieces@);
    }
    queue(todo, parts);
}

/// The hash of an entry of a collision.
pub fn hash_entry(heap: &Heap, k: Value, v: Value) -> (r: u64)
    requires
        heap.wf(),
        sound(heap.record()),
        k.ok(),
        v.ok(),
        live(heap.record(), k),
        live(heap.record(), v),
    ensures
        r == entry_hash(heap.record(), (k, v)),
{
    let kh = hash(heap, k);
    let vh = hash(heap, v);
    let mut e: Sip<1, 3> = Sip::new(K0, K1);
    e.word(kh);
    e.word(vh);
    proof {
        assert(e.message() =~= word_bytes(kh) + word_bytes(vh));
        reveal(entry_hash);
    }
    e.finish()
}

/// The hashes of a collision's entries, added up.
pub fn collision_sum(heap: &Heap, es: &Vec<(Value, Value)>) -> (r: u64)
    requires
        heap.wf(),
        sound(heap.record()),
        usable_pairs(heap.record(), es@),
    ensures
        r == hash_sum(heap.record(), es@),
{
    let ghost rec = heap.record();
    let mut sum: u64 = 0;
    let mut i: usize = 0;
    while i < es.len()
        invariant
            i <= es@.len(),
            heap.wf(),
            rec == heap.record(),
            sound(rec),
            usable_pairs(rec, es@),
            sum == hash_sum(rec, es@.take(i as int)),
        decreases es@.len() - i,
    {
        proof {
            assert(es@.take(i + 1).drop_last() =~= es@.take(i as int));
            assert(es@.take(i + 1).last() == es@[i as int]);
        }
        sum = sum.wrapping_add(hash_entry(heap, es[i].0, es[i].1));
        i += 1;
    }
    proof {
        assert(es@.take(i as int) =~= es@);
    }
    sum
}

/// A collision's sum does not go by the order of its entries.
pub proof fn law_collision_order(r: Record, es: Seq<(Value, Value)>, fs: Seq<(Value, Value)>)
    requires
        es.to_multiset() == fs.to_multiset(),
    ensures
        hash_sum(r, es) == hash_sum(r, fs),
    decreases es.len(),
{
    broadcast use vstd::seq_lib::group_to_multiset_ensures;

    if es.len() == 0 {
        assert(fs.len() == fs.to_multiset().len());
        assert(es.len() == es.to_multiset().len());
    } else {
        let e = es.last();
        assert(es.to_multiset().count(e) > 0) by {
            assert(es.contains(e));
        }
        assert(fs.contains(e));
        let i = choose|i: int| 0 <= i < fs.len() && fs[i] == e;
        assert(es.drop_last() =~= es.remove(es.len() - 1));
        assert(es.drop_last().to_multiset() =~= fs.remove(i).to_multiset());
        law_collision_order(r, es.drop_last(), fs.remove(i));
        lemma_sum_without(r, fs, i);
    }
}

proof fn lemma_sum_without(r: Record, es: Seq<(Value, Value)>, i: int)
    requires
        0 <= i < es.len(),
    ensures
        hash_sum(r, es) == plus(hash_sum(r, es.remove(i)), entry_hash(r, es[i])),
    decreases es.len(),
{
    let n = es.len() - 1;
    if i == n {
        assert(es.remove(i) =~= es.drop_last());
    } else {
        let init = es.drop_last();
        lemma_sum_without(r, init, i);
        assert(es.remove(i).drop_last() =~= init.remove(i));
        assert(es.remove(i).last() == es.last());
        lemma_plus(hash_sum(r, init.remove(i)), entry_hash(r, es[i]), entry_hash(r, es.last()));
    }
}

proof fn lemma_plus(a: u64, b: u64, c: u64)
    ensures
        plus(plus(a, b), c) == plus(plus(a, c), b),
{
}

} // verus!

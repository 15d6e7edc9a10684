//! What values feed the hash: no two feed it the same bytes.

use crate::vm::bigint::magnitude;
use crate::vm::binary::{lemma_number_bound, number, octet, octets, window};
use crate::vm::hash::{
    digits_of, int_stream, lemma_streams_add, lemma_streams_one, stream, streams, TAG_ARRAY,
    TAG_BINARY, TAG_CLOSURE, TAG_CTOR, TAG_FLOAT, TAG_INT, TAG_STRING, TAG_TUPLE, TAG_WORD,
    words_stream,
};
use crate::vm::meaning::Data;
use crate::vm::sip::{lemma_word_bytes, word_bytes};
use crate::vm::sound::digits_value;
use crate::vm::value::{variant_bits, variant_of, VariantRef};
use vstd::prelude::*;

verus! {

/// A value of which every count fits a word.
pub open spec fn countable_data(d: Data) -> bool
    decreases d,
{
    match d {
        Data::Int(n) => digits_of(magnitude(n) as nat).len() <= u64::MAX,
        Data::Text(text) => text.len() <= u64::MAX,
        Data::Bits(bits) => bits.len() <= u64::MAX,
        Data::Ctor(_, kids) | Data::Closure(_, kids) | Data::Tuple(kids) | Data::Array(kids) => {
            kids.len() <= u64::MAX && all_countable(kids)
        },
        Data::Float(_) | Data::Nil | Data::Bool(_) | Data::Func(_) | Data::Nullary(_) => true,
        Data::Inner(_) => false,
    }
}

pub open spec fn all_countable(ds: Seq<Data>) -> bool
    decreases ds,
{
    forall|i: int| 0 <= i < ds.len() ==> countable_data(#[trigger] ds[i])
}

/// The first word of a feed is told from the rest of it.
proof fn lemma_word(x: u64, u: Seq<u8>, y: u64, v: Seq<u8>)
    requires
        word_bytes(x) + u == word_bytes(y) + v,
    ensures
        x == y,
        u == v,
{
    let (a, b) = (word_bytes(x), word_bytes(y));
    assert(a =~= (a + u).take(8));
    assert(b =~= (b + v).take(8));
    assert(u =~= (a + u).skip(8));
    assert(v =~= (b + v).skip(8));
    lemma_word_bytes(x);
    lemma_word_bytes(y);
}

/// Of feeds that begin alike, parts of one length are the same.
proof fn lemma_run(a: Seq<u8>, u: Seq<u8>, b: Seq<u8>, v: Seq<u8>)
    requires
        a + u == b + v,
        a.len() == b.len(),
    ensures
        a == b,
        u == v,
{
    let n = a.len() as int;
    assert(a =~= (a + u).take(n));
    assert(b =~= (b + v).take(n));
    assert(u =~= (a + u).skip(n));
    assert(v =~= (b + v).skip(n));
}

proof fn lemma_words_len(ws: Seq<u64>)
    ensures
        words_stream(ws).len() == 8 * ws.len(),
    decreases ws.len(),
{
    if ws.len() > 0 {
        lemma_words_len(ws.drop_last());
    }
}

proof fn lemma_words_tell(a: Seq<u64>, b: Seq<u64>)
    requires
        words_stream(a) == words_stream(b),
    ensures
        a == b,
    decreases a.len(),
{
    lemma_words_len(a);
    lemma_words_len(b);
    if a.len() > 0 {
        let (c, d) = (a.drop_last(), b.drop_last());
        lemma_words_len(c);
        lemma_words_len(d);
        lemma_run(words_stream(c), word_bytes(a.last()), words_stream(d), word_bytes(b.last()));
        lemma_words_tell(c, d);
        lemma_word_bytes(a.last());
        lemma_word_bytes(b.last());
        assert(a =~= c.push(a.last()));
        assert(b =~= d.push(b.last()));
    } else {
        assert(a =~= b);
    }
}

/// Digits make the number they are the digits of.
proof fn lemma_digits_back(m: nat)
    ensures
        digits_value(digits_of(m)) == m,
    decreases m,
{
    if m > 0 {
        let n = m / 0x1_0000_0000_0000_0000;
        lemma_digits_back(n);
        assert(digits_of(m).skip(1) =~= digits_of(n));
        assert(digits_of(m)[0] == (m % 0x1_0000_0000_0000_0000) as u64);
    }
}

proof fn lemma_int_tells(n: int, u: Seq<u8>, m: int, v: Seq<u8>)
    requires
        countable_data(Data::Int(n)),
        countable_data(Data::Int(m)),
        int_stream(n) + u == int_stream(m) + v,
    ensures
        n == m,
        u == v,
{
    let (ds, es) = (digits_of(magnitude(n) as nat), digits_of(magnitude(m) as nat));
    let s: u64 = if n < 0 {
        1
    } else {
        0
    };
    let t: u64 = if m < 0 {
        1
    } else {
        0
    };
    let (k, l) = (ds.len() as u64, es.len() as u64);
    let (a, b) = (words_stream(ds), words_stream(es));
    let tag = TAG_INT;
    assert(int_stream(n) + u =~= word_bytes(tag) + (word_bytes(s) + (word_bytes(k) + (a + u))));
    assert(int_stream(m) + v =~= word_bytes(tag) + (word_bytes(t) + (word_bytes(l) + (b + v))));
    lemma_word(
        tag,
        word_bytes(s) + (word_bytes(k) + (a + u)),
        tag,
        word_bytes(t) + (word_bytes(l) + (b + v)),
    );
    lemma_word(s, word_bytes(k) + (a + u), t, word_bytes(l) + (b + v));
    lemma_word(k, a + u, l, b + v);
    lemma_words_len(ds);
    lemma_words_len(es);
    lemma_run(a, u, b, v);
    lemma_words_tell(ds, es);
    lemma_digits_back(magnitude(n) as nat);
    lemma_digits_back(magnitude(m) as nat);
}

/// A constructor's bits are its own.
proof fn lemma_variant_tells(v: VariantRef, w: VariantRef)
    ensures
        variant_of(variant_bits(v)) == v,
        variant_bits(v) < 0x1_0000_0000_0000,
        variant_bits(v) == variant_bits(w) ==> v == w,
{
    assert(variant_of(variant_bits(v)) == v);
    assert(variant_of(variant_bits(w)) == w);
}

proof fn lemma_number_tells(a: Seq<bool>, b: Seq<bool>)
    requires
        a.len() == b.len(),
        number(a) == number(b),
    ensures
        a == b,
    decreases a.len(),
{
    if a.len() > 0 {
        lemma_number_tells(a.drop_last(), b.drop_last());
        assert(a =~= a.drop_last().push(a.last()));
        assert(b =~= b.drop_last().push(b.last()));
    } else {
        assert(a =~= b);
    }
}

proof fn lemma_octets_tell(a: Seq<bool>, b: Seq<bool>)
    requires
        a.len() == b.len(),
        octets(a) == octets(b),
    ensures
        a == b,
{
    vstd::arithmetic::power2::lemma2_to64();
    assert forall|i: int| 0 <= i < a.len() implies a[i] == b[i] by {
        let k = i / 8;
        let (x, y) = (window(a, 8 * k, 8), window(b, 8 * k, 8));
        assert(octets(a)[k] == octet(a, 8 * k));
        assert(octets(b)[k] == octet(b, 8 * k));
        lemma_number_bound(x);
        lemma_number_bound(y);
        lemma_number_tells(x, y);
        assert(x[i % 8] == a[i]);
        assert(y[i % 8] == b[i]);
    }
    assert(a =~= b);
}

/// What comes after a value's tag.
spec fn after_tag(d: Data) -> Seq<u8> {
    stream(d).skip(8)
}

/// Which tag a value has.
spec fn tag_of(d: Data) -> u64 {
    match d {
        Data::Int(_) => TAG_INT,
        Data::Float(_) => TAG_FLOAT,
        Data::Text(_) => TAG_STRING,
        Data::Ctor(_, _) => TAG_CTOR,
        Data::Closure(_, _) => TAG_CLOSURE,
        Data::Tuple(_) => TAG_TUPLE,
        Data::Array(_) => TAG_ARRAY,
        Data::Bits(_) => TAG_BINARY,
        _ => TAG_WORD,
    }
}

/// The word of a value that is one.
spec fn word_of(d: Data) -> u64 {
    match d {
        Data::Nil => 0xFFFA_0000_0000_0000,
        Data::Bool(b) => if b {
            0xFFFB_0000_0000_0001
        } else {
            0xFFFB_0000_0000_0000
        },
        Data::Func(f) => (0xFFFC_0000_0000_0000 + f.0) as u64,
        Data::Nullary(v) => (0xFFFE_0000_0000_0000 + variant_bits(v)) as u64,
        _ => 0,
    }
}

proof fn lemma_word_tells(a: Data, b: Data)
    requires
        tag_of(a) == TAG_WORD,
        tag_of(b) == TAG_WORD,
        !(a is Inner),
        !(b is Inner),
        word_of(a) == word_of(b),
    ensures
        a == b,
{
    if let Data::Nullary(v) = a {
        lemma_variant_tells(v, v);
        if let Data::Nullary(w) = b {
            lemma_variant_tells(w, v);
        }
    }
    if let Data::Nullary(w) = b {
        lemma_variant_tells(w, w);
    }
}

/// A feed begins with the tag of what it is.
proof fn lemma_tag(d: Data)
    requires
        !(d is Inner),
    ensures
        stream(d) == word_bytes(tag_of(d)) + after_tag(d),
        tag_of(d) == TAG_WORD ==> after_tag(d) == word_bytes(word_of(d)),
{
    let tag = word_bytes(tag_of(d));
    match d {
        Data::Int(n) => {
            assert(stream(d).take(8) =~= tag);
        },
        _ => {
            assert(stream(d).take(8) =~= tag);
        },
    }
    assert(stream(d) =~= stream(d).take(8) + stream(d).skip(8));
    if tag_of(d) == TAG_WORD {
        assert(stream(d).skip(8) =~= word_bytes(word_of(d)));
    }
}

/// Two values that begin one feed are the same value.
#[verifier::rlimit(60)]
proof fn lemma_feed_tells(a: Data, u: Seq<u8>, b: Data, v: Seq<u8>)
    requires
        countable_data(a),
        countable_data(b),
        stream(a) + u == stream(b) + v,
    ensures
        a == b,
        u == v,
    decreases a,
{
    lemma_tag(a);
    lemma_tag(b);
    assert(stream(a) + u =~= word_bytes(tag_of(a)) + (after_tag(a) + u));
    assert(stream(b) + v =~= word_bytes(tag_of(b)) + (after_tag(b) + v));
    lemma_word(tag_of(a), after_tag(a) + u, tag_of(b), after_tag(b) + v);
    match a {
        Data::Int(n) => {
            if let Data::Int(m) = b {
                lemma_int_tells(n, u, m, v);
            }
        },
        Data::Float(x) => {
            if let Data::Float(y) = b {
                assert(after_tag(a) =~= word_bytes(x));
                assert(after_tag(b) =~= word_bytes(y));
                lemma_word(x, u, y, v);
            }
        },
        Data::Text(x) => {
            if let Data::Text(y) = b {
                let (k, l) = (x.len() as u64, y.len() as u64);
                assert(after_tag(a) + u =~= word_bytes(k) + (x + u));
                assert(after_tag(b) + v =~= word_bytes(l) + (y + v));
                lemma_word(k, x + u, l, y + v);
                lemma_run(x, u, y, v);
            }
        },
        Data::Bits(x) => {
            if let Data::Bits(y) = b {
                let (k, l) = (x.len() as u64, y.len() as u64);
                assert(after_tag(a) + u =~= word_bytes(k) + (octets(x) + u));
                assert(after_tag(b) + v =~= word_bytes(l) + (octets(y) + v));
                lemma_word(k, octets(x) + u, l, octets(y) + v);
                lemma_run(octets(x), u, octets(y), v);
                lemma_octets_tell(x, y);
            }
        },
        Data::Ctor(x, xs) => {
            if let Data::Ctor(y, ys) = b {
                let (p, q) = (variant_bits(x), variant_bits(y));
                let (k, l) = (xs.len() as u64, ys.len() as u64);
                assert(after_tag(a) + u =~= word_bytes(p) + (word_bytes(k) + (streams(xs) + u)));
                assert(after_tag(b) + v =~= word_bytes(q) + (word_bytes(l) + (streams(ys) + v)));
                lemma_word(
                    p,
                    word_bytes(k) + (streams(xs) + u),
                    q,
                    word_bytes(l) + (streams(ys) + v),
                );
                lemma_word(k, streams(xs) + u, l, streams(ys) + v);
                lemma_variant_tells(x, y);
                lemma_feeds_tell(xs, u, ys, v);
            }
        },
        Data::Closure(x, xs) => {
            if let Data::Closure(y, ys) = b {
                let (p, q) = (x.0 as u64, y.0 as u64);
                let (k, l) = (xs.len() as u64, ys.len() as u64);
                assert(after_tag(a) + u =~= word_bytes(p) + (word_bytes(k) + (streams(xs) + u)));
                assert(after_tag(b) + v =~= word_bytes(q) + (word_bytes(l) + (streams(ys) + v)));
                lemma_word(
                    p,
                    word_bytes(k) + (streams(xs) + u),
                    q,
                    word_bytes(l) + (streams(ys) + v),
                );
                lemma_word(k, streams(xs) + u, l, streams(ys) + v);
                lemma_feeds_tell(xs, u, ys, v);
            }
        },
        Data::Tuple(xs) => {
            if let Data::Tuple(ys) = b {
                let (k, l) = (xs.len() as u64, ys.len() as u64);
                assert(after_tag(a) + u =~= word_bytes(k) + (streams(xs) + u));
                assert(after_tag(b) + v =~= word_bytes(l) + (streams(ys) + v));
                lemma_word(k, streams(xs) + u, l, streams(ys) + v);
                lemma_feeds_tell(xs, u, ys, v);
            }
        },
        Data::Array(xs) => {
            if let Data::Array(ys) = b {
                let (k, l) = (xs.len() as u64, ys.len() as u64);
                assert(after_tag(a) + u =~= word_bytes(k) + (streams(xs) + u));
                assert(after_tag(b) + v =~= word_bytes(l) + (streams(ys) + v));
                lemma_word(k, streams(xs) + u, l, streams(ys) + v);
                lemma_feeds_tell(xs, u, ys, v);
            }
        },
        _ => {
            lemma_word(word_of(a), u, word_of(b), v);
            lemma_word_tells(a, b);
        },
    }
}

/// The same of runs of as many values.
proof fn lemma_feeds_tell(xs: Seq<Data>, u: Seq<u8>, ys: Seq<Data>, v: Seq<u8>)
    requires
        all_countable(xs),
        all_countable(ys),
        xs.len() == ys.len(),
        streams(xs) + u == streams(ys) + v,
    ensures
        xs == ys,
        u == v,
    decreases xs,
{
    if xs.len() == 0 {
        assert(streams(xs) + u =~= u);
        assert(streams(ys) + v =~= v);
        assert(xs =~= ys);
    } else {
        let (a, b) = (xs[0], ys[0]);
        let (c, d) = (xs.subrange(1, xs.len() as int), ys.subrange(1, ys.len() as int));
        assert(xs =~= seq![a] + c);
        assert(ys =~= seq![b] + d);
        lemma_streams_add(seq![a], c);
        lemma_streams_add(seq![b], d);
        lemma_streams_one(a);
        lemma_streams_one(b);
        assert(streams(xs) + u =~= stream(a) + (streams(c) + u));
        assert(streams(ys) + v =~= stream(b) + (streams(d) + v));
        lemma_feed_tells(a, streams(c) + u, b, streams(d) + v);
        assert forall|i: int| 0 <= i < c.len() implies countable_data(#[trigger] c[i]) by {
            assert(c[i] == xs[i + 1]);
        }
        assert forall|i: int| 0 <= i < d.len() implies countable_data(#[trigger] d[i]) by {
            assert(d[i] == ys[i + 1]);
        }
        lemma_feeds_tell(c, u, d, v);
    }
}

/// Two different values never feed the hash the same bytes.
pub proof fn law_no_two_values_feed_alike(a: Data, b: Data)
    requires
        countable_data(a),
        countable_data(b),
    ensures
        stream(a) == stream(b) <==> a == b,
{
    if stream(a) == stream(b) {
        assert(stream(a) + Seq::<u8>::empty() =~= stream(b) + Seq::<u8>::empty());
        lemma_feed_tells(a, Seq::empty(), b, Seq::empty());
    }
}

} // verus!

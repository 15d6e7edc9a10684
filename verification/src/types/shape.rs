//! The shape of a `<<>>` pattern, which its key says exactly.
//!
//! Patterns of one shape match the same binaries, so an arm whose key an
//! earlier arm has is unreachable. That is right only as long as no two shapes
//! share a key.

use crate::syntax::{BinSegmentPat, BinSpec, NumberLiteral, Pattern, PatternLiteral, SizeExpr, Span};
use crate::text::{decimal, decimal_int, digit};
use crate::types::exhaustiveness::{
    bin_key, number_key, place_key, segment_spec_key, segment_value_key, segments_key, spec_size,
};
use vstd::prelude::*;
use vstd::utf8::encode_utf8;

verus! {

/// A number in a pattern: its value, or its digits when that is too large.
pub enum NumberShape {
    Value(int),
    Digits(Seq<char>),
}

/// What a segment matches: anything, one number, one text, or what the pattern
/// at a place does.
pub enum ValueShape {
    Any,
    Number(NumberShape),
    Text(Seq<char>),
    Place(int, int),
}

/// How a segment's size is given.
pub enum SizeShape {
    Open,
    Number(NumberShape),
    Place(int, int),
}

pub enum SegmentKind {
    Int,
    Binary,
    Utf8,
}

/// A segment of a `<<>>` pattern.
pub struct SegmentShape {
    pub value: ValueShape,
    pub kind: SegmentKind,
    pub size: SizeShape,
}

pub open spec fn number_shape(n: NumberLiteral) -> NumberShape {
    match n.int {
        Some(i) => NumberShape::Value(i as int),
        None => NumberShape::Digits(n.digits@),
    }
}

pub open spec fn value_shape(p: Pattern) -> ValueShape {
    match p {
        Pattern::Var { name } => ValueShape::Any,
        Pattern::Literal(PatternLiteral::Number(n)) => ValueShape::Number(number_shape(n)),
        Pattern::Literal(PatternLiteral::String(s)) => ValueShape::Text(s.value@),
        _ => ValueShape::Place(
            p.spec_span().start_line as int,
            p.spec_span().start_column as int,
        ),
    }
}

pub open spec fn size_shape(s: Option<SizeExpr>) -> SizeShape {
    match s {
        None => SizeShape::Open,
        Some(SizeExpr::NumberLiteral(n)) => SizeShape::Number(number_shape(n)),
        Some(SizeExpr::Other { span }) => SizeShape::Place(
            span.start_line as int,
            span.start_column as int,
        ),
    }
}

pub open spec fn segment_shape(s: BinSegmentPat) -> SegmentShape {
    SegmentShape {
        value: value_shape(s.value),
        kind: match s.spec {
            BinSpec::Int { bits } => SegmentKind::Int,
            BinSpec::Binary { bytes } => SegmentKind::Binary,
            BinSpec::Utf8 => SegmentKind::Utf8,
        },
        size: size_shape(spec_size(s.spec)),
    }
}

pub open spec fn shape(ss: Seq<BinSegmentPat>) -> Seq<SegmentShape> {
    ss.map_values(|s: BinSegmentPat| segment_shape(s))
}

/// A character that digits are written with: not the letter of a segment's
/// kind, and not what ends a segment.
pub open spec fn in_number(c: char) -> bool {
    c != 'i' && c != 'b' && c != 'u' && c != ','
}

/// How a number begins: with a digit or a sign.
pub open spec fn starts_number(c: char) -> bool {
    c == '-' || '0' <= c <= '9'
}

/// Digits as a program writes them.
pub open spec fn is_numeral(s: Seq<char>) -> bool {
    &&& s.len() > 0
    &&& starts_number(s[0])
    &&& forall|i: int| 0 <= i < s.len() ==> in_number(#[trigger] s[i])
}

/// A number whose digits are kept only when its value is too large.
pub open spec fn number_ok(n: NumberLiteral) -> bool {
    n.int is None ==> is_numeral(n.digits@) && forall|i: i64|
        n.digits@ != #[trigger] decimal_int(i as int)
}

pub open spec fn segment_ok(s: BinSegmentPat) -> bool {
    &&& s.value matches Pattern::Literal(PatternLiteral::Number(n)) ==> number_ok(n)
    &&& spec_size(s.spec) matches Some(SizeExpr::NumberLiteral(n)) ==> number_ok(n)
}

pub open spec fn segments_ok(ss: Seq<BinSegmentPat>) -> bool {
    forall|i: int| 0 <= i < ss.len() ==> segment_ok(#[trigger] ss[i])
}

/// A text is a run of decimal digits.
spec fn all_digits(s: Seq<char>) -> bool {
    forall|i: int| 0 <= i < s.len() ==> '0' <= #[trigger] s[i] <= '9'
}

proof fn lemma_decimal(n: nat)
    ensures
        decimal(n).len() > 0,
        all_digits(decimal(n)),
        n >= 10 ==> decimal(n).len() > 1,
    decreases n,
{
    if n >= 10 {
        lemma_decimal(n / 10);
    }
}

/// No two numbers are written alike.
pub proof fn lemma_decimal_tells(n: nat, m: nat)
    requires
        decimal(n) == decimal(m),
    ensures
        n == m,
    decreases n,
{
    lemma_decimal(n);
    lemma_decimal(m);
    if n >= 10 {
        assert(decimal(n).drop_last() =~= decimal(n / 10));
        assert(decimal(m).drop_last() =~= decimal(m / 10));
        assert(decimal(n).last() == digit(n % 10));
        assert(decimal(m).last() == digit(m % 10));
        lemma_decimal_tells(n / 10, m / 10);
    } else {
        assert(decimal(n)[0] == digit(n));
        assert(decimal(m)[0] == digit(m));
    }
}

pub proof fn lemma_decimal_int(i: int)
    ensures
        is_numeral(decimal_int(i)),
        forall|k: int|
            0 <= k < decimal_int(i).len() ==> #[trigger] decimal_int(i)[k] != ':' && decimal_int(
                i,
            )[k] != '<',
{
    if i < 0 {
        lemma_decimal((-i) as nat);
        assert forall|k: int| 0 <= k < decimal_int(i).len() implies #[trigger] decimal_int(i)[k]
            != ':' && decimal_int(i)[k] != '<' && in_number(decimal_int(i)[k]) by {
            if k > 0 {
                assert(decimal_int(i)[k] == decimal((-i) as nat)[k - 1]);
            }
        }
    } else {
        lemma_decimal(i as nat);
    }
}

pub proof fn lemma_decimal_int_tells(i: int, j: int)
    requires
        decimal_int(i) == decimal_int(j),
    ensures
        i == j,
{
    if i < 0 {
        lemma_decimal((-i) as nat);
        assert(decimal_int(i).skip(1) =~= decimal((-i) as nat));
        assert(decimal_int(i)[0] == '-');
    } else {
        lemma_decimal(i as nat);
    }
    if j < 0 {
        lemma_decimal((-j) as nat);
        assert(decimal_int(j).skip(1) =~= decimal((-j) as nat));
        assert(decimal_int(j)[0] == '-');
    } else {
        lemma_decimal(j as nat);
    }
    if i < 0 && j < 0 {
        lemma_decimal_tells((-i) as nat, (-j) as nat);
    } else if i >= 0 && j >= 0 {
        lemma_decimal_tells(i as nat, j as nat);
    }
}

/// Where two texts are the same, so are their parts up to the first character
/// that ends one.
pub proof fn lemma_split(x: Seq<char>, u: Seq<char>, y: Seq<char>, v: Seq<char>, ends: spec_fn(char) -> bool)
    requires
        x + u == y + v,
        u.len() > 0,
        v.len() > 0,
        ends(u[0]),
        ends(v[0]),
        forall|i: int| 0 <= i < x.len() ==> !ends(#[trigger] x[i]),
        forall|i: int| 0 <= i < y.len() ==> !ends(#[trigger] y[i]),
    ensures
        x == y,
        u == v,
{
    let t = x + u;
    if x.len() < y.len() {
        assert(t[x.len() as int] == u[0]);
        assert((y + v)[x.len() as int] == y[x.len() as int]);
    } else if y.len() < x.len() {
        assert((y + v)[y.len() as int] == v[0]);
        assert(t[y.len() as int] == x[y.len() as int]);
    }
    assert(x =~= t.take(x.len() as int));
    assert(y =~= (y + v).take(y.len() as int));
    assert(u =~= t.skip(x.len() as int));
    assert(v =~= (y + v).skip(y.len() as int));
}

/// A character that both texts begin with can be left out of both.
pub proof fn lemma_strip(c: char, u: Seq<char>, v: Seq<char>)
    requires
        seq![c] + u == seq![c] + v,
    ensures
        u == v,
{
    assert((seq![c] + u).skip(1) =~= u);
    assert((seq![c] + v).skip(1) =~= v);
}

proof fn lemma_number(n: NumberLiteral)
    requires
        number_ok(n),
    ensures
        is_numeral(number_key(n)),
{
    if let Some(i) = n.int {
        lemma_decimal_int(i as int);
    }
}

proof fn lemma_number_tells(n: NumberLiteral, m: NumberLiteral)
    requires
        number_ok(n),
        number_ok(m),
        number_key(n) == number_key(m),
    ensures
        number_shape(n) == number_shape(m),
{
    if let Some(i) = n.int {
        if let Some(j) = m.int {
            lemma_decimal_int_tells(i as int, j as int);
        }
    }
}

proof fn lemma_place(s: Span)
    ensures
        is_numeral(place_key(s)),
{
    reveal_strlit(":");
    let a = decimal_int(s.start_line as int);
    let b = decimal_int(s.start_column as int);
    lemma_decimal_int(s.start_line as int);
    lemma_decimal_int(s.start_column as int);
    assert forall|i: int| 0 <= i < place_key(s).len() implies in_number(
        #[trigger] place_key(s)[i],
    ) by {
        if i < a.len() {
            assert(place_key(s)[i] == a[i]);
        } else if i > a.len() {
            assert(place_key(s)[i] == b[i - a.len() - 1]);
        }
    }
    assert(place_key(s)[0] == a[0]);
}

proof fn lemma_place_tells(s: Span, t: Span)
    requires
        place_key(s) == place_key(t),
    ensures
        s.start_line == t.start_line,
        s.start_column == t.start_column,
{
    reveal_strlit(":");
    lemma_decimal_int(s.start_line as int);
    lemma_decimal_int(t.start_line as int);
    let (a, b) = (decimal_int(s.start_line as int), decimal_int(s.start_column as int));
    let (c, d) = (decimal_int(t.start_line as int), decimal_int(t.start_column as int));
    assert(place_key(s) =~= a + (seq![':'] + b));
    assert(place_key(t) =~= c + (seq![':'] + d));
    lemma_split(a, seq![':'] + b, c, seq![':'] + d, |x: char| x == ':');
    lemma_strip(':', b, d);
    lemma_decimal_int_tells(s.start_line as int, t.start_line as int);
    lemma_decimal_int_tells(s.start_column as int, t.start_column as int);
}

/// A longer text takes more bytes.
proof fn lemma_bytes_grow(a: Seq<char>, n: int)
    requires
        0 <= n < a.len(),
    ensures
        encode_utf8(a.take(n)).len() < encode_utf8(a).len(),
    decreases n,
{
    if n == 0 {
        assert(a.take(0) =~= Seq::empty());
    } else {
        lemma_bytes_grow(a.drop_first(), n - 1);
        assert(a.take(n).drop_first() =~= a.drop_first().take(n - 1));
        assert(a.take(n)[0] == a[0]);
    }
}

/// Of texts that begin one text, those of the same number of bytes are the
/// same.
proof fn lemma_text_tells(a: Seq<char>, u: Seq<char>, b: Seq<char>, v: Seq<char>)
    requires
        a + u == b + v,
        encode_utf8(a).len() == encode_utf8(b).len(),
    ensures
        a == b,
        u == v,
{
    let t = a + u;
    assert(a =~= t.take(a.len() as int));
    assert(b =~= (b + v).take(b.len() as int));
    if a.len() < b.len() {
        assert(a =~= b.take(a.len() as int));
        lemma_bytes_grow(b, a.len() as int);
    } else if b.len() < a.len() {
        assert(b =~= a.take(b.len() as int));
        lemma_bytes_grow(a, b.len() as int);
    }
    assert(u =~= t.skip(a.len() as int));
    assert(v =~= (b + v).skip(b.len() as int));
}

/// The letter of a segment's kind, which ends what the segment matches.
spec fn ends_value(c: char) -> bool {
    c == 'i' || c == 'b' || c == 'u'
}

/// What a segment matches is told by how its key begins.
proof fn lemma_value_begins(p: Pattern)
    requires
        p matches Pattern::Literal(PatternLiteral::Number(n)) ==> number_ok(n),
    ensures
        segment_value_key(p).len() > 0,
        match value_shape(p) {
            ValueShape::Any => segment_value_key(p) == seq!['_'],
            ValueShape::Number(_) => is_numeral(segment_value_key(p)),
            ValueShape::Text(t) => segment_value_key(p) == seq!['s'] + (decimal(
                encode_utf8(t).len(),
            ) + (seq![':'] + t)),
            ValueShape::Place(..) => segment_value_key(p) == seq!['@'] + place_key(p.spec_span()),
        },
{
    reveal_strlit("_");
    reveal_strlit("s");
    reveal_strlit(":");
    reveal_strlit("@");
    match p {
        Pattern::Var { name } => {
            assert("_"@ =~= seq!['_']);
        },
        Pattern::Literal(PatternLiteral::Number(n)) => {
            lemma_number(n);
        },
        Pattern::Literal(PatternLiteral::String(s)) => {
            let t = s.value@;
            assert(segment_value_key(p) =~= seq!['s'] + (decimal(encode_utf8(t).len()) + (seq![':']
                + t)));
        },
        _ => {
            assert("@"@ =~= seq!['@']);
        },
    }
}

proof fn lemma_value_tells(p: Pattern, u: Seq<char>, q: Pattern, v: Seq<char>)
    requires
        p matches Pattern::Literal(PatternLiteral::Number(n)) ==> number_ok(n),
        q matches Pattern::Literal(PatternLiteral::Number(n)) ==> number_ok(n),
        segment_value_key(p) + u == segment_value_key(q) + v,
        u.len() > 0,
        v.len() > 0,
        ends_value(u[0]),
        ends_value(v[0]),
    ensures
        value_shape(p) == value_shape(q),
        u == v,
{
    let (a, b) = (segment_value_key(p), segment_value_key(q));
    lemma_value_begins(p);
    lemma_value_begins(q);
    assert((a + u)[0] == a[0]);
    assert((b + v)[0] == b[0]);
    match (value_shape(p), value_shape(q)) {
        (ValueShape::Any, ValueShape::Any) => {
            lemma_strip('_', u, v);
        },
        (ValueShape::Number(_), ValueShape::Number(_)) => {
            lemma_split(a, u, b, v, |c: char| ends_value(c));
            if let Pattern::Literal(PatternLiteral::Number(n)) = p {
                if let Pattern::Literal(PatternLiteral::Number(m)) = q {
                    lemma_number_tells(n, m);
                }
            }
        },
        (ValueShape::Text(x), ValueShape::Text(y)) => {
            let (m, n) = (encode_utf8(x).len(), encode_utf8(y).len());
            assert(a + u =~= seq!['s'] + (decimal(m) + (seq![':'] + (x + u))));
            assert(b + v =~= seq!['s'] + (decimal(n) + (seq![':'] + (y + v))));
            lemma_strip(
                's',
                decimal(m) + (seq![':'] + (x + u)),
                decimal(n) + (seq![':'] + (y + v)),
            );
            lemma_decimal(m);
            lemma_decimal(n);
            lemma_split(
                decimal(m),
                seq![':'] + (x + u),
                decimal(n),
                seq![':'] + (y + v),
                |c: char| c == ':',
            );
            lemma_strip(':', x + u, y + v);
            lemma_decimal_tells(m, n);
            lemma_text_tells(x, u, y, v);
        },
        (ValueShape::Place(..), ValueShape::Place(..)) => {
            let (s, t) = (p.spec_span(), q.spec_span());
            assert(a + u =~= seq!['@'] + (place_key(s) + u));
            assert(b + v =~= seq!['@'] + (place_key(t) + v));
            lemma_strip('@', place_key(s) + u, place_key(t) + v);
            lemma_place(s);
            lemma_place(t);
            lemma_split(place_key(s), u, place_key(t), v, |c: char| ends_value(c));
            lemma_place_tells(s, t);
        },
        _ => {},
    }
}

/// A segment's size, as its key says it.
spec fn size_key(s: Option<SizeExpr>) -> Seq<char> {
    match s {
        None => Seq::empty(),
        Some(SizeExpr::NumberLiteral(n)) => number_key(n),
        Some(SizeExpr::Other { span }) => seq!['?'] + place_key(span),
    }
}

spec fn kind_letter(s: BinSpec) -> char {
    match s {
        BinSpec::Int { bits } => 'i',
        BinSpec::Binary { bytes } => 'b',
        BinSpec::Utf8 => 'u',
    }
}

proof fn lemma_spec_key(s: BinSpec)
    ensures
        segment_spec_key(s) == seq![kind_letter(s)] + size_key(spec_size(s)),
{
    reveal_strlit("i");
    reveal_strlit("b");
    reveal_strlit("u");
    reveal_strlit("?");
    assert("?"@ =~= seq!['?']);
    assert(segment_spec_key(s) =~= seq![kind_letter(s)] + size_key(spec_size(s)));
}

proof fn lemma_size_tells(s: Option<SizeExpr>, u: Seq<char>, t: Option<SizeExpr>, v: Seq<char>)
    requires
        s matches Some(SizeExpr::NumberLiteral(n)) ==> number_ok(n),
        t matches Some(SizeExpr::NumberLiteral(n)) ==> number_ok(n),
        size_key(s) + u == size_key(t) + v,
        u.len() > 0,
        v.len() > 0,
        u[0] == ',',
        v[0] == ',',
    ensures
        size_shape(s) == size_shape(t),
        u == v,
{
    let (a, b) = (size_key(s), size_key(t));
    if let Some(SizeExpr::NumberLiteral(n)) = s {
        lemma_number(n);
    }
    if let Some(SizeExpr::NumberLiteral(n)) = t {
        lemma_number(n);
    }
    assert((a + u)[0] == if a.len() == 0 {
        u[0]
    } else {
        a[0]
    });
    assert((b + v)[0] == if b.len() == 0 {
        v[0]
    } else {
        b[0]
    });
    match (s, t) {
        (None, None) => {
            assert(a + u =~= u);
            assert(b + v =~= v);
        },
        (Some(SizeExpr::NumberLiteral(n)), Some(SizeExpr::NumberLiteral(m))) => {
            lemma_split(a, u, b, v, |c: char| c == ',');
            lemma_number_tells(n, m);
        },
        (Some(SizeExpr::Other { span: x }), Some(SizeExpr::Other { span: y })) => {
            assert(a + u =~= seq!['?'] + (place_key(x) + u));
            assert(b + v =~= seq!['?'] + (place_key(y) + v));
            lemma_strip('?', place_key(x) + u, place_key(y) + v);
            lemma_place(x);
            lemma_place(y);
            lemma_split(place_key(x), u, place_key(y), v, |c: char| c == ',');
            lemma_place_tells(x, y);
        },
        _ => {},
    }
}

/// One segment's key.
spec fn segment_key(s: BinSegmentPat) -> Seq<char> {
    segment_value_key(s.value) + segment_spec_key(s.spec) + ","@
}

proof fn lemma_segment_tells(a: BinSegmentPat, u: Seq<char>, b: BinSegmentPat, v: Seq<char>)
    requires
        segment_ok(a),
        segment_ok(b),
        segment_key(a) + u == segment_key(b) + v,
    ensures
        segment_shape(a) == segment_shape(b),
        u == v,
{
    reveal_strlit(",");
    lemma_spec_key(a.spec);
    lemma_spec_key(b.spec);
    let (x, y) = (kind_letter(a.spec), kind_letter(b.spec));
    let (k, l) = (size_key(spec_size(a.spec)), size_key(spec_size(b.spec)));
    let (ru, rv) = (seq![','] + u, seq![','] + v);
    assert(segment_key(a) + u =~= segment_value_key(a.value) + (seq![x] + (k + ru)));
    assert(segment_key(b) + v =~= segment_value_key(b.value) + (seq![y] + (l + rv)));
    lemma_value_tells(a.value, seq![x] + (k + ru), b.value, seq![y] + (l + rv));
    assert((seq![x] + (k + ru))[0] == x);
    assert((seq![y] + (l + rv))[0] == y);
    lemma_strip(x, k + ru, l + rv);
    lemma_size_tells(spec_size(a.spec), ru, spec_size(b.spec), rv);
    lemma_strip(',', u, v);
}

/// The key of segments begins with that of the first.
proof fn lemma_segments_begin(ss: Seq<BinSegmentPat>)
    requires
        ss.len() > 0,
    ensures
        segments_key(ss) == segment_key(ss[0]) + segments_key(ss.drop_first()),
    decreases ss.len(),
{
    if ss.len() == 1 {
        assert(ss.drop_last() =~= Seq::empty());
        assert(ss.drop_first() =~= Seq::empty());
    } else {
        lemma_segments_begin(ss.drop_last());
        assert(ss.drop_last().drop_first() =~= ss.drop_first().drop_last());
        assert(ss.drop_first().last() == ss.last());
    }
    assert(segments_key(ss) =~= segment_key(ss[0]) + segments_key(ss.drop_first()));
}

proof fn lemma_segment_begins(s: BinSegmentPat)
    requires
        segment_ok(s),
    ensures
        segment_key(s).len() > 0,
        segment_key(s)[0] != '.',
{
    lemma_value_begins(s.value);
    assert(segment_key(s)[0] == segment_value_key(s.value)[0]);
}

/// How a key ends, after its segments.
spec fn ending(has_rest: bool) -> Seq<char> {
    if has_rest {
        seq!['.', '.']
    } else {
        Seq::empty()
    }
}

proof fn lemma_shape_told(a: Seq<BinSegmentPat>, more_a: bool, b: Seq<BinSegmentPat>, more_b: bool)
    requires
        segments_ok(a),
        segments_ok(b),
        segments_key(a) + ending(more_a) == segments_key(b) + ending(more_b),
    ensures
        shape(a) == shape(b),
        more_a == more_b,
    decreases a.len(),
{
    let (u, v) = (ending(more_a), ending(more_b));
    if a.len() > 0 {
        lemma_segments_begin(a);
        lemma_segment_begins(a[0]);
        assert((segments_key(a) + u)[0] == segment_key(a[0])[0]);
    }
    if b.len() > 0 {
        lemma_segments_begin(b);
        lemma_segment_begins(b[0]);
        assert((segments_key(b) + v)[0] == segment_key(b[0])[0]);
    }
    if a.len() > 0 && b.len() > 0 {
        let (c, d) = (a.drop_first(), b.drop_first());
        assert(segments_key(a) + u =~= segment_key(a[0]) + (segments_key(c) + u));
        assert(segments_key(b) + v =~= segment_key(b[0]) + (segments_key(d) + v));
        lemma_segment_tells(a[0], segments_key(c) + u, b[0], segments_key(d) + v);
        assert forall|i: int| 0 <= i < c.len() implies segment_ok(#[trigger] c[i]) by {
            assert(c[i] == a[i + 1]);
        }
        assert forall|i: int| 0 <= i < d.len() implies segment_ok(#[trigger] d[i]) by {
            assert(d[i] == b[i + 1]);
        }
        lemma_shape_told(c, more_a, d, more_b);
        assert(shape(c).len() == shape(d).len());
        assert(a.len() == b.len());
        assert(shape(a) =~= seq![segment_shape(a[0])] + shape(c));
        assert(shape(b) =~= seq![segment_shape(b[0])] + shape(d));
        assert(shape(a) =~= shape(b));
    } else {
        assert(segments_key(a) + u =~= if a.len() == 0 {
            u
        } else {
            segments_key(a) + u
        });
        assert(segments_key(b) + v =~= if b.len() == 0 {
            v
        } else {
            segments_key(b) + v
        });
        assert(a.len() == 0 && b.len() == 0) by {
            if a.len() > 0 {
                assert((segments_key(a) + u).len() > 0);
                assert(v[0] == '.');
            }
            if b.len() > 0 {
                assert((segments_key(b) + v).len() > 0);
                assert(u[0] == '.');
            }
        }
        assert(u.len() == v.len());
        assert(shape(a) =~= shape(b));
    }
}

proof fn lemma_one_shape_one_key(a: Seq<BinSegmentPat>, b: Seq<BinSegmentPat>)
    requires
        shape(a) == shape(b),
    ensures
        segments_key(a) == segments_key(b),
    decreases a.len(),
{
    assert(shape(a).len() == a.len());
    assert(shape(b).len() == b.len());
    if a.len() > 0 {
        let (c, d) = (a.drop_last(), b.drop_last());
        assert(shape(c) =~= shape(a).drop_last());
        assert(shape(d) =~= shape(b).drop_last());
        lemma_one_shape_one_key(c, d);
        assert(shape(a).last() == segment_shape(a.last()));
        assert(shape(b).last() == segment_shape(b.last()));
    }
}

/// No two shapes share a key: two `<<>>` patterns have one key exactly when
/// their segments match alike, one by one, and both or neither end in a rest.
pub proof fn law_key_is_injective(
    a: Seq<BinSegmentPat>,
    more_a: bool,
    b: Seq<BinSegmentPat>,
    more_b: bool,
)
    requires
        segments_ok(a),
        segments_ok(b),
    ensures
        bin_key(a, more_a) == bin_key(b, more_b) <==> shape(a) == shape(b) && more_a == more_b,
{
    reveal_strlit("..");
    assert(".."@ =~= seq!['.', '.']);
    let head = "#bin:"@;
    assert(bin_key(a, more_a) =~= head + (segments_key(a) + ending(more_a)));
    assert(bin_key(b, more_b) =~= head + (segments_key(b) + ending(more_b)));
    if bin_key(a, more_a) == bin_key(b, more_b) {
        let n = head.len() as int;
        assert(bin_key(a, more_a).skip(n) =~= segments_key(a) + ending(more_a));
        assert(bin_key(b, more_b).skip(n) =~= segments_key(b) + ending(more_b));
        lemma_shape_told(a, more_a, b, more_b);
    }
    if shape(a) == shape(b) && more_a == more_b {
        lemma_one_shape_one_key(a, b);
    }
}

} // verus!

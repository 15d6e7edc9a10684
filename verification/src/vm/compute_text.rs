//! The instructions over Ints and strings.

use crate::text::decimal_int;
use crate::vm::array::out_of_room;
use crate::vm::bigint::{self, answer, Answer, huge, Int, int_of, lemma_not_huge, Number};
use crate::vm::bitio::{utf8, utf8_len, utf8_payload};
use crate::vm::cells::{text_of, too_long};
use crate::vm::compute::{
    answers, body_of, ends, first_stop, int_value, joined_texts, kind_of, new_text, no_int,
    not_text, read_int, text_value,
};
use crate::vm::core_ir::Intrinsic;
use crate::vm::heap::Heap;
use crate::vm::instr::Instr;
use crate::vm::list::{length, list_of, no_list};
use crate::vm::nodes::{all_live, live};
use crate::vm::record::{Kind, Record};
use crate::vm::scene::{Fault, Scene, Stop};
use crate::vm::sound::{sound, valid};
use crate::vm::value::Value;
use vstd::prelude::*;

verus! {

/// How many code points bytes are, or `None` when they are not UTF-8.
pub open spec fn text_chars(bytes: Seq<u8>) -> Option<nat>
    decreases bytes.len(),
{
    if bytes.len() == 0 {
        Some(0)
    } else {
        let n = utf8_len(bytes[0]);
        if 1 <= n <= bytes.len() && utf8(bytes.take(n)) {
            match text_chars(bytes.skip(n)) {
                Some(m) => Some(m + 1),
                None => None,
            }
        } else {
            None
        }
    }
}

/// The length of the code point at `from`, or `None` when there is none.
fn code_point(bytes: &Vec<u8>, from: usize) -> (r: Option<usize>)
    requires
        from < bytes@.len(),
    ensures
        match r {
            Some(n) => {
                &&& n == utf8_len(bytes@[from as int])
                &&& 1 <= n
                &&& from + n <= bytes@.len()
                &&& utf8(bytes@.subrange(from as int, from + n))
            },
            None => {
                let n = utf8_len(bytes@[from as int]);
                !(1 <= n && from + n <= bytes@.len() && utf8(bytes@.subrange(from as int, from + n)))
            },
        },
{
    let first = bytes[from];
    let n: usize = if first < 0x80 {
        1
    } else if first < 0xC0 {
        return None;
    } else if first < 0xE0 {
        2
    } else if first < 0xF0 {
        3
    } else if first < 0xF8 {
        4
    } else {
        return None;
    };
    if bytes.len() - from < n {
        return None;
    }
    let mut c: u32 = if first < 0x80 {
        first as u32
    } else if first < 0xE0 {
        first as u32 - 0xC0
    } else if first < 0xF0 {
        first as u32 - 0xE0
    } else {
        first as u32 - 0xF0
    };
    let ghost s = bytes@.subrange(from as int, from + n);
    let size: usize = bytes.len();
    let mut k: usize = 1;
    proof {
        assert(s[0] == first);
        assert(s.take(1) =~= seq![s[0]]);
    }
    while k < n
        invariant
            1 <= k <= n <= 4,
            size == bytes@.len(),
            from + n <= bytes@.len(),
            s == bytes@.subrange(from as int, from + n),
            n == utf8_len(bytes@[from as int]),
            c == utf8_payload(s.take(k as int)),
            k == 1 ==> c < 0x80,
            k == 2 ==> c < 0x2000,
            k == 3 ==> c < 0x8_0000,
            k == 4 ==> c < 0x200_0000,
            forall|i: int| 1 <= i < k ==> 0x80 <= #[trigger] s[i] < 0xC0,
        decreases n - k,
    {
        let x = bytes[from + k];
        proof {
            assert(s[k as int] == x);
        }
        if x < 0x80 || x >= 0xC0 {
            proof {
                assert(!(0x80 <= s[k as int] < 0xC0));
                assert(!utf8(s));
            }
            return None;
        }
        proof {
            assert(s.take(k + 1).drop_last() =~= s.take(k as int));
            assert(s.take(k + 1).last() == x);
        }
        c = c * 64 + (x % 64) as u32;
        k += 1;
    }
    proof {
        assert(s.take(n as int) =~= s);
    }
    if n == 2 && c < 0x80 || n == 3 && c < 0x800 || n == 4 && c < 0x1_0000 {
        return None;
    }
    if c > 0x10_FFFF || 0xD800 <= c && c <= 0xDFFF {
        return None;
    }
    Some(n)
}

/// How many code points bytes are, or `None` when they are not UTF-8.
pub fn count_chars(bytes: &Vec<u8>) -> (r: Option<usize>)
    ensures
        match r {
            Some(n) => text_chars(bytes@) == Some(n as nat),
            None => text_chars(bytes@) is None,
        },
{
    let mut count: usize = 0;
    let mut i: usize = 0;
    proof {
        assert(bytes@.skip(0) =~= bytes@);
        assert(bytes@.len() == bytes.len());
    }
    while i < bytes.len()
        invariant
            count <= i <= bytes@.len(),
            text_chars(bytes@) == (match text_chars(bytes@.skip(i as int)) {
                Some(m) => Some((m + count) as nat),
                None => None,
            }),
        decreases bytes@.len() - i,
    {
        let ghost rest = bytes@.skip(i as int);
        let point = code_point(bytes, i);
        proof {
            let n = utf8_len(rest[0]);
            assert(rest[0] == bytes@[i as int]);
            if 1 <= n && i + n <= bytes@.len() {
                assert(rest.take(n) =~= bytes@.subrange(i as int, i + n));
                assert(rest.skip(n) =~= bytes@.skip(i + n));
            }
        }
        match point {
            Some(n) => {
                i = i + n;
                count = count + 1;
            },
            None => {
                return None;
            },
        }
    }
    proof {
        assert(bytes@.skip(i as int) =~= Seq::empty());
    }
    Some(count)
}

/// What a built-in over one value gives.
pub open spec fn gives_builtin(k: Intrinsic, x: Value, a: Record, b: Record, v: Value) -> bool {
    match k {
        Intrinsic::StringLength => text_chars(text_of(body_of(a, x))) matches Some(n) && int_of(b, v)
            == Some(n as int),
        Intrinsic::ArrayLength => list_of(a, x) matches Some(l) && int_of(b, v) == Some(l.count(a)),
        Intrinsic::IntToString => int_of(a, x) matches Some(n) && new_text(
            a,
            b,
            v,
            vstd::utf8::encode_utf8(decimal_int(n)),
        ),
        _ => false,
    }
}

/// What stops a built-in over one value.
pub open spec fn stops_builtin(k: Intrinsic, x: Value, a: Record) -> Option<Stop> {
    match k {
        Intrinsic::StringLength => if kind_of(a, x) != Some(Kind::String) {
            Some(Stop::BadProgram(Fault::LengthOf(x)))
        } else if text_chars(text_of(body_of(a, x))) is None {
            Some(Stop::BadProgram(Fault::NotUtf8))
        } else {
            None
        },
        Intrinsic::ArrayLength => no_list(a, x),
        Intrinsic::IntToString => no_int(a, x),
        _ => Some(Stop::NotBuiltYet(Fault::Builtin)),
    }
}

pub open spec fn gives_text(i: Instr, s: Scene, a: Record, b: Record, v: Value) -> bool {
    match i {
        Instr::Str { dst, text } => new_text(a, b, v, text@),
        Instr::BigInt { dst, n } => int_of(b, v) == Some(n as int),
        Instr::Int { dst, op, a: x, b: y } => int_of(a, s.at(x)) matches Some(m) && int_of(
            a,
            s.at(y),
        ) matches Some(n) && answers(b, v, answer(op, m, n)),
        Instr::IntNeg { dst, a: x } => int_of(a, s.at(x)) matches Some(n) && int_of(b, v) == Some(
            -n,
        ),
        Instr::Concat { dst, parts } => new_text(a, b, v, joined_texts(a, s.all_at(parts@))),
        Instr::Builtin { dst, intrinsic, args } => gives_builtin(
            intrinsic,
            s.at(args@[0]),
            a,
            b,
            v,
        ),
        _ => false,
    }
}

pub open spec fn stops_text(i: Instr, s: Scene, a: Record) -> Option<Stop> {
    match i {
        Instr::Int { dst, op, a: x, b: y } => first_stop(
            no_int(a, s.at(x)),
            no_int(a, s.at(y)),
        ),
        Instr::IntNeg { dst, a: x } => no_int(a, s.at(x)),
        Instr::Concat { dst, parts } => match not_text(a, s.all_at(parts@)) {
            Some(v) => Some(Stop::NotBuiltYet(Fault::Joining(v))),
            None => None,
        },
        Instr::Builtin { dst, intrinsic, args } => if args@.len() != 1 {
            Some(Stop::BadProgram(Fault::BuiltinArgs(args@.len() as usize)))
        } else {
            stops_builtin(intrinsic, s.at(args@[0]), a)
        },
        _ => None,
    }
}

pub open spec fn over_text(i: Instr) -> bool {
    i is Str || i is BigInt || i is Int || i is IntNeg || i is Concat || i is Builtin
}

/// The texts of values, joined, or the first that is no string.
fn join_all(heap: &Heap, vs: &Vec<Value>) -> (r: Result<Vec<u8>, Stop>)
    requires
        heap.wf(),
        sound(heap.record()),
        all_live(heap.record(), vs@),
    ensures
        match r {
            Ok(text) => not_text(heap.record(), vs@) is None && text@ == joined_texts(
                heap.record(),
                vs@,
            ),
            Err(e) => not_text(heap.record(), vs@) matches Some(v) && e == Stop::NotBuiltYet(
                Fault::Joining(v),
            ),
        },
{
    let ghost rec = heap.record();
    let mut text: Vec<u8> = Vec::new();
    let mut i: usize = 0;
    proof {
        assert(vs@.take(0) =~= Seq::empty());
    }
    while i < vs.len()
        invariant
            i <= vs@.len(),
            heap.wf(),
            rec == heap.record(),
            sound(rec),
            all_live(rec, vs@),
            not_text(rec, vs@.take(i as int)) is None,
            text@ == joined_texts(rec, vs@.take(i as int)),
        decreases vs@.len() - i,
    {
        let v = vs[i];
        proof {
            assert(live(rec, vs@[i as int]));
            assert(vs@.take(i + 1).drop_last() =~= vs@.take(i as int));
            assert(vs@.take(i + 1).last() == v);
        }
        match v.as_cell() {
            Some(c) => {
                proof {
                    assert(rec.has(c));
                    assert(valid(rec, c));
                }
                if heap.kind(c) != Kind::String {
                    proof {
                        lemma_not_text(rec, vs@, i + 1);
                    }
                    return Err(Stop::NotBuiltYet(Fault::Joining(v)));
                }
                heap.read_string(c, &mut text);
            },
            None => {
                proof {
                    lemma_not_text(rec, vs@, i + 1);
                }
                return Err(Stop::NotBuiltYet(Fault::Joining(v)));
            },
        }
        i += 1;
    }
    proof {
        assert(vs@.take(i as int) =~= vs@);
    }
    Ok(text)
}

/// The first that is no string stays the first.
proof fn lemma_not_text(r: Record, vs: Seq<Value>, n: int)
    requires
        0 <= n <= vs.len(),
        not_text(r, vs.take(n)) is Some,
    ensures
        not_text(r, vs) == not_text(r, vs.take(n)),
    decreases vs.len() - n,
{
    if n == vs.len() {
        assert(vs.take(n) =~= vs);
    } else {
        assert(vs.take(n + 1).drop_last() =~= vs.take(n));
        lemma_not_text(r, vs, n + 1);
    }
}

/// A number whose text no cell holds.
pub open spec fn long_number(k: Intrinsic, x: Value, a: Record) -> bool {
    k is IntToString && (int_of(a, x) matches Some(n) && too_long(
        vstd::utf8::encode_utf8(crate::text::decimal_int(n)),
    ))
}

/// A text or a number that no cell holds.
pub open spec fn too_large(i: Instr, s: Scene, a: Record) -> bool {
    match i {
        Instr::Str { dst, text } => too_long(text@),
        Instr::Int { dst, op, a: x, b: y } => int_of(a, s.at(x)) matches Some(m) && int_of(
            a,
            s.at(y),
        ) matches Some(n) && (answer(op, m, n) matches Answer::Number(k) && huge(k)),
        Instr::IntNeg { dst, a: x } => int_of(a, s.at(x)) matches Some(n) && huge(-n),
        Instr::Concat { dst, parts } => too_long(joined_texts(a, s.all_at(parts@))),
        Instr::Builtin { dst, intrinsic, args } => args@.len() == 1 && long_number(
            intrinsic,
            s.at(args@[0]),
            a,
        ),
        _ => false,
    }
}

/// What built-in `k` gives for `x`, which it only reads.
fn builtin(heap: &mut Heap, k: &Intrinsic, x: Value) -> (r: Result<Value, Stop>)
    requires
        old(heap).wf(),
        sound(old(heap).record()),
        x.ok(),
        live(old(heap).record(), x),
    ensures
        r matches Err(Stop::HeapFull) ==> out_of_room(*final(heap)) || long_number(*k, x, old(heap).record()),
        final(heap).wf(),
        ends(
            old(heap).record(),
            final(heap).record(),
            r,
            stops_builtin(*k, x, old(heap).record()),
        ),
        r matches Ok(v) ==> gives_builtin(*k, x, old(heap).record(), final(heap).record(), v),
{
    let ghost a = heap.record();
    match k {
        Intrinsic::StringLength => {
            let c = match x.as_cell() {
                Some(c) => c,
                None => {
                    return Err(Stop::BadProgram(Fault::LengthOf(x)));
                },
            };
            proof {
                assert(a.has(c));
                assert(valid(a, c));
            }
            if heap.kind(c) != Kind::String {
                return Err(Stop::BadProgram(Fault::LengthOf(x)));
            }
            let mut bytes: Vec<u8> = Vec::new();
            heap.read_string(c, &mut bytes);
            proof {
                assert(bytes@ =~= text_of(a.cells[c]));
            }
            match count_chars(&bytes) {
                Some(n) => {
                    proof {
                        lemma_not_huge(n as int);
                    }
                    int_value(heap, Number::from_i128(n as i128))
                },
                None => Err(Stop::BadProgram(Fault::NotUtf8)),
            }
        },
        Intrinsic::ArrayLength => length(heap, x),
        Intrinsic::IntToString => {
            let n = read_int(heap, x)?;
            let text = n.text();
            text_value(heap, text.as_str().as_bytes())
        },
        _ => Err(Stop::NotBuiltYet(Fault::Builtin)),
    }
}

/// Run an instruction over Ints and strings.
pub(crate) fn compute_text(heap: &mut Heap, s: &Scene, i: &Instr) -> (r: Result<Value, Stop>)
    requires
        old(heap).wf(),
        sound(old(heap).record()),
        s.ok(old(heap).record()),
        over_text(*i),
    ensures
        r matches Err(Stop::HeapFull) ==> out_of_room(*final(heap)) || too_large(*i, *s, old(heap).record()),
        final(heap).wf(),
        ends(
            old(heap).record(),
            final(heap).record(),
            r,
            stops_text(*i, *s, old(heap).record()),
        ),
        r matches Ok(v) ==> gives_text(*i, *s, old(heap).record(), final(heap).record(), v),
{
    let ghost a = heap.record();
    match i {
        Instr::Str { dst, text } => text_value(heap, text.as_slice()),
        Instr::BigInt { dst, n } => {
            proof {
                lemma_not_huge(*n as int);
            }
            int_value(heap, Number::from_i128(*n as i128))
        },
        Instr::Int { dst, op, a: x, b: y } => {
            proof {
                s.lemma_at(a, *x);
                s.lemma_at(a, *y);
            }
            let m = read_int(heap, s.get(*x))?;
            let n = read_int(heap, s.get(*y))?;
            match bigint::op(heap, *op, m, n) {
                Ok(v) => Ok(v),
                Err(_) => Err(Stop::HeapFull),
            }
        },
        Instr::IntNeg { dst, a: x } => {
            proof {
                s.lemma_at(a, *x);
            }
            let m = read_int(heap, s.get(*x))?;
            match bigint::neg(heap, m) {
                Ok(v) => Ok(v),
                Err(_) => Err(Stop::HeapFull),
            }
        },
        Instr::Concat { dst, parts } => {
            let vs = s.get_all(parts);
            proof {
                s.lemma_all_at(a, parts@);
            }
            let text = join_all(heap, &vs)?;
            text_value(heap, text.as_slice())
        },
        Instr::Builtin { dst, intrinsic, args } => {
            if args.len() != 1 {
                return Err(Stop::BadProgram(Fault::BuiltinArgs(args.len())));
            }
            proof {
                s.lemma_at(a, args@[0]);
            }
            builtin(heap, intrinsic, s.get(args[0]))
        },
        _ => vstd::pervasive::unreached(),
    }
}

} // verus!

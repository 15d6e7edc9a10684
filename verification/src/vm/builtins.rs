//! What the built-ins do, told by what values are.

use crate::text::decimal_int;
use crate::vm::arrays::{lemma_list, lemma_made_int};
use crate::vm::bitio::{utf8, utf8_len, utf8_payload};
use crate::vm::compute_text::{gives_builtin, gives_text, stops_text, text_chars};
use crate::vm::core_ir::Intrinsic;
use crate::vm::exec::{
    computes, Event, gives, jumps, Machine, stepped, stop_of, stops, target, Wait,
};
use crate::vm::instr::{Instr, Reg};
use crate::vm::meaning::{Data, lemma_meaning, meaning};
use crate::vm::nodes::live;
use crate::vm::scene::Stop;
use crate::vm::sense::{lemma_look, lemma_wrote, locals, look, put, shared, steps, went_on};
use vstd::prelude::*;
use vstd::utf8::{encode_scalar, encode_utf8};

verus! {

proof fn lemma_two(c: u32)
    by (bit_vector)
    requires
        0x80 <= c <= 0x7FF,
    ensures
        0xC0u8 <= (0xC0u8 | ((c >> 6) & 0x1F) as u8) < 0xE0u8,
        0x80u8 <= (0x80u8 | (c & 0x3F) as u8) < 0xC0u8,
        64 * ((0xC0u8 | ((c >> 6) & 0x1F) as u8) - 0xC0) + (0x80u8 | (c & 0x3F) as u8) % 64 == c,
{
}

proof fn lemma_three(c: u32)
    by (bit_vector)
    requires
        0x800 <= c <= 0xFFFF,
    ensures
        0xE0u8 <= (0xE0u8 | ((c >> 12) & 0x0F) as u8) < 0xF0u8,
        0x80u8 <= (0x80u8 | ((c >> 6) & 0x3F) as u8) < 0xC0u8,
        0x80u8 <= (0x80u8 | (c & 0x3F) as u8) < 0xC0u8,
        64 * (64 * ((0xE0u8 | ((c >> 12) & 0x0F) as u8) - 0xE0) + (0x80u8 | ((c >> 6)
            & 0x3F) as u8) % 64) + (0x80u8 | (c & 0x3F) as u8) % 64 == c,
{
}

proof fn lemma_four(c: u32)
    by (bit_vector)
    requires
        0x1_0000 <= c <= 0x10_FFFF,
    ensures
        0xF0u8 <= (0xF0u8 | ((c >> 18) & 0x7) as u8) < 0xF8u8,
        0x80u8 <= (0x80u8 | ((c >> 12) & 0x3F) as u8) < 0xC0u8,
        0x80u8 <= (0x80u8 | ((c >> 6) & 0x3F) as u8) < 0xC0u8,
        0x80u8 <= (0x80u8 | (c & 0x3F) as u8) < 0xC0u8,
        64 * (64 * (64 * ((0xF0u8 | ((c >> 18) & 0x7) as u8) - 0xF0) + (0x80u8 | ((c >> 12)
            & 0x3F) as u8) % 64) + (0x80u8 | ((c >> 6) & 0x3F) as u8) % 64) + (0x80u8 | (c
            & 0x3F) as u8) % 64 == c,
{
}

proof fn lemma_one(c: u32)
    by (bit_vector)
    requires
        c <= 0x7F,
    ensures
        ((c & 0x7F) as u8) as u32 == c,
        ((c & 0x7F) as u8) < 0x80u8,
{
}

/// One character's bytes are one code point.
proof fn lemma_char(c: char)
    ensures
        encode_scalar(c as u32).len() >= 1,
        utf8_len(encode_scalar(c as u32)[0]) == encode_scalar(c as u32).len(),
        utf8(encode_scalar(c as u32)),
{
    let n = c as u32;
    let e = encode_scalar(n);
    reveal_with_fuel(utf8_payload, 5);
    if n <= 0x7F {
        lemma_one(n);
        assert(utf8_payload(e) == n);
    } else if n <= 0x7FF {
        lemma_two(n);
        assert(e.drop_last() =~= seq![e[0]]);
        assert(utf8_payload(e) == n);
    } else if n <= 0xFFFF {
        lemma_three(n);
        assert(e.drop_last() =~= seq![e[0], e[1]]);
        assert(e.drop_last().drop_last() =~= seq![e[0]]);
        assert(utf8_payload(e) == n);
    } else {
        lemma_four(n);
        assert(e.drop_last() =~= seq![e[0], e[1], e[2]]);
        assert(e.drop_last().drop_last() =~= seq![e[0], e[1]]);
        assert(e.drop_last().drop_last().drop_last() =~= seq![e[0]]);
        assert(utf8_payload(e) == n);
    }
}

/// A text's length is how many characters it has.
pub proof fn law_a_length_counts_characters(s: Seq<char>)
    ensures
        text_chars(encode_utf8(s)) == Some(s.len()),
    decreases s.len(),
{
    if s.len() > 0 {
        let e = encode_scalar(s[0] as u32);
        let rest = encode_utf8(s.drop_first());
        let all = encode_utf8(s);
        lemma_char(s[0]);
        law_a_length_counts_characters(s.drop_first());
        assert(all == e + rest);
        let n = e.len() as int;
        assert(all[0] == e[0]);
        assert(all.take(n) =~= e);
        assert(all.skip(n) =~= rest);
    }
}

/// A built-in of one argument does what it says: the length of a text is how
/// many characters it has, that of an array how many elements, and an Int's text
/// is its decimal digits. Everything else stays as it was.
pub proof fn law_a_built_in_does_what_it_says(
    a: Machine,
    b: Machine,
    ev: Event,
    dst: Reg,
    kind: Intrinsic,
    arg: Reg,
    s: Seq<char>,
)
    requires
        steps(a, b, Ok::<Event, Stop>(ev)),
        a.instr() matches Instr::Builtin { dst: d, intrinsic, args } && d == dst && intrinsic
            == kind && args@ == seq![arg],
        !(kind is StringInspect),
        dst.0 < locals(a).len(),
    ensures
        ev == Event::Going,
        b.wf(),
        exists|d: Data| {
            &&& #[trigger] went_on(a, b, a.top().pc + 1, put(locals(a), dst, d), shared(a))
            &&& match kind {
                Intrinsic::StringLength => look(locals(a), arg) == Data::Text(encode_utf8(s)) ==> d
                    == Data::Int(s.len() as int),
                Intrinsic::ArrayLength => look(locals(a), arg) matches Data::Array(ds) && d
                    == Data::Int(ds.len() as int),
                Intrinsic::IntToString => look(locals(a), arg) matches Data::Int(n) && d
                    == Data::Text(encode_utf8(decimal_int(n))),
                _ => false,
            }
        },
{
    let i = a.instr();
    assert(target(i) == dst) by {
        reveal(target);
    }
    assert(computes(i)) by {
        reveal(computes);
    }
    reveal(stepped);
    let (x, m, y) = (a.heap.record(), b.made@, b.heap.record());
    let scene = a.scene();
    let at = a.top().base + dst.0;
    lemma_look(a, dst);
    lemma_look(b, dst);
    lemma_look(a, arg);
    let v = b.regs@[at];
    assert(v.ok() && live(y, v));
    lemma_wrote(a, b, dst, v);
    assert(gives_text(i, scene, x, m, v)) by {
        reveal(gives);
    }
    assert(stops_text(i, scene, x) is None) by {
        reveal(stop_of);
        reveal(stops);
        reveal(computes);
    }
    let w = scene.at(arg);
    assert(gives_builtin(kind, w, x, m, v)) by {
        if let Instr::Builtin { dst: _, intrinsic: _, args } = i {
            assert(args@[0] == arg);
        }
    }
    lemma_meaning(x, w);
    lemma_made_int(a, b, v);
    lemma_list(a, w);
    law_a_length_counts_characters(s);
    b.heap.lemma_record_ok();
    lemma_meaning(y, v);
    if v.spec_cell() is Some {
        assert(y.has(v.spec_cell()->Some_0));
        assert(y.cells[v.spec_cell()->Some_0] == m.cells[v.spec_cell()->Some_0]);
    }
    let d = meaning(y, v);
    assert(went_on(a, b, a.top().pc + 1, put(locals(a), dst, d), shared(a)));
}

/// The value that an instruction asks the host about, and what the run waits for
/// then.
pub open spec fn asks(a: Machine) -> Option<(Data, Wait)> {
    let env = locals(a);
    match a.instr() {
        Instr::Println { dst, arg } => Some((look(env, arg), Wait::Printed { dst })),
        Instr::ToString { dst, a: x } => if look(env, x) is Text {
            None
        } else {
            Some((look(env, x), Wait::Text { dst }))
        },
        Instr::Builtin { dst, intrinsic, args } => if intrinsic is StringInspect && args@.len()
            == 1 {
            Some((look(env, args@[0]), Wait::Text { dst }))
        } else {
            None
        },
        _ => None,
    }
}

/// What is printed or shown is the value that the instruction names, and the run
/// waits for the answer behind it with everything as it was.
pub proof fn law_asking_names_the_value(a: Machine, b: Machine, ev: Event)
    requires
        steps(a, b, Ok::<Event, Stop>(ev)),
        asks(a) is Some,
    ensures
        ({
            let (d, wait) = asks(a)->Some_0;
            &&& b.wf()
            &&& b.waiting == Some(wait)
            &&& b.top().pc == a.top().pc + 1
            &&& b.frames@.len() == a.frames@.len()
            &&& b.regs@ == a.regs@
            &&& b.heap.record() == a.heap.record()
            &&& shared(b) == shared(a)
            &&& match wait {
                Wait::Printed { .. } => ev matches Event::Print(v) && meaning(
                    b.heap.record(),
                    v,
                ) == d,
                Wait::Text { .. } => ev matches Event::Show(v) && meaning(b.heap.record(), v) == d,
            }
        }),
{
    reveal(stepped);
    reveal(jumps);
    reveal(computes);
    reveal(stop_of);
    let _ = a.top().body.instrs.len();
    match a.instr() {
        Instr::Println { dst, arg } => {
            lemma_look(a, arg);
        },
        Instr::ToString { dst, a: x } => {
            lemma_look(a, x);
            lemma_meaning(a.heap.record(), a.scene().at(x));
        },
        Instr::Builtin { dst, intrinsic, args } => {
            lemma_look(a, args@[0]);
        },
        _ => {},
    }
}

} // verus!

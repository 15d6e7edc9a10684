//! Object headers.
//!
//! Header bits, low first: a marker that is always set, five bits of
//! [`HeapTag`], one bit for an object that owns something outside the heap, one
//! for an immortal object, and the payload length in words.

use vstd::prelude::*;

verus! {

/// What an object is.
#[derive(Debug, Clone, Copy, PartialEq, Eq, Structural)]
pub enum HeapTag {
    BigInt,
    Range,
    Str,
    Binary,
    Tuple,
    Enum,
    Closure,
    /// Persistent-vector root.
    SeqRoot,
    /// Vector leaf node, interior to an array.
    SeqLeaf,
    /// Vector branch node, interior to an array.
    SeqBranch,
    /// A map.
    MapRoot,
    /// Trie branch, one child per set bit of its bitmap. Interior to a map.
    HamtBranch,
    /// Trie leaf, a key and a value. Interior to a map.
    HamtEntry,
    /// Bucket of distinct keys that share one hash. Interior to a map.
    HamtCollision,
    /// The owning handle of a mailbox.
    Subject,
}

impl HeapTag {
    pub open spec fn spec_code(self) -> u64 {
        match self {
            HeapTag::BigInt => 0,
            HeapTag::Range => 1,
            HeapTag::Str => 2,
            HeapTag::Binary => 3,
            HeapTag::Tuple => 4,
            HeapTag::Enum => 5,
            HeapTag::Closure => 6,
            HeapTag::SeqRoot => 7,
            HeapTag::SeqLeaf => 8,
            HeapTag::SeqBranch => 9,
            HeapTag::MapRoot => 10,
            HeapTag::HamtBranch => 11,
            HeapTag::HamtEntry => 12,
            HeapTag::HamtCollision => 13,
            HeapTag::Subject => 14,
        }
    }

    /// The number a header holds for the tag.
    pub fn code(self) -> (r: u64)
        ensures
            r == self.spec_code(),
            r <= 14,
    {
        match self {
            HeapTag::BigInt => 0,
            HeapTag::Range => 1,
            HeapTag::Str => 2,
            HeapTag::Binary => 3,
            HeapTag::Tuple => 4,
            HeapTag::Enum => 5,
            HeapTag::Closure => 6,
            HeapTag::SeqRoot => 7,
            HeapTag::SeqLeaf => 8,
            HeapTag::SeqBranch => 9,
            HeapTag::MapRoot => 10,
            HeapTag::HamtBranch => 11,
            HeapTag::HamtEntry => 12,
            HeapTag::HamtCollision => 13,
            HeapTag::Subject => 14,
        }
    }
}

pub const HEADER_BIT: u64 = 1;

pub const HEADER_TAG_MASK: u64 = 0x3E;

pub const HEADER_OFF_HEAP_BIT: u64 = 0x40;

/// Reference counting must never touch this object.
pub const HEADER_IMMORTAL_BIT: u64 = 0x80;

proof fn lemma_header(tag: u64, off: u64, len: u64, imm: u64)
    by (bit_vector)
    requires
        tag <= 31,
        off == 0 || off == 0x40,
        imm == 0 || imm == 0x80,
        len < 0x100_0000_0000_0000,
    ensures
        (1 | (tag << 1) | off | (len << 8) | imm) & 1 == 1,
        ((1 | (tag << 1) | off | (len << 8) | imm) & 0x3E) >> 1 == tag,
        (1 | (tag << 1) | off | (len << 8) | imm) & 0x40 == off,
        (1 | (tag << 1) | off | (len << 8) | imm) & 0x80 == imm,
        (1 | (tag << 1) | off | (len << 8) | imm) >> 8 == len,
        (1 | (tag << 1) | off | (len << 8) | 0) == (1 | (tag << 1) | off | (len << 8)),
{
}

/// The word of a header with these fields.
pub open spec fn header_word(tag: HeapTag, words: int, off_heap: bool, immortal: bool) -> u64 {
    1u64 | (tag.spec_code() << 1) | (if off_heap {
        0x40u64
    } else {
        0u64
    }) | ((words as u64) << 8) | (if immortal {
        0x80u64
    } else {
        0u64
    })
}

/// Pack an object header word.
pub fn pack_header(tag: HeapTag, payload_words: usize, off_heap: bool) -> (r: u64)
    requires
        payload_words < 0x100_0000_0000_0000,
    ensures
        r == header_word(tag, payload_words as int, off_heap, false),
{
    let off: u64 = if off_heap {
        HEADER_OFF_HEAP_BIT
    } else {
        0
    };
    proof {
        lemma_header(tag.spec_code(), off, payload_words as u64, 0);
    }
    HEADER_BIT | (tag.code() << 1) | off | ((payload_words as u64) << 8)
}

/// A header with the immortal bit set.
pub fn mark_immortal(word: u64) -> (r: u64)
    ensures
        r == word | HEADER_IMMORTAL_BIT,
{
    word | HEADER_IMMORTAL_BIT
}

/// Whether a word is a live object header.
pub fn header_marks_object(word: u64) -> (r: bool)
    ensures
        r == (word & HEADER_BIT != 0),
{
    word & HEADER_BIT != 0
}

/// The tag in a header, or `None` for a number that is no tag.
pub fn header_tag(word: u64) -> (r: Option<HeapTag>)
    ensures
        match r {
            Some(t) => t.spec_code() == (word & HEADER_TAG_MASK) >> 1,
            None => (word & HEADER_TAG_MASK) >> 1 > 14,
        },
{
    let c: u64 = (word & HEADER_TAG_MASK) >> 1;
    if c == 0 {
        Some(HeapTag::BigInt)
    } else if c == 1 {
        Some(HeapTag::Range)
    } else if c == 2 {
        Some(HeapTag::Str)
    } else if c == 3 {
        Some(HeapTag::Binary)
    } else if c == 4 {
        Some(HeapTag::Tuple)
    } else if c == 5 {
        Some(HeapTag::Enum)
    } else if c == 6 {
        Some(HeapTag::Closure)
    } else if c == 7 {
        Some(HeapTag::SeqRoot)
    } else if c == 8 {
        Some(HeapTag::SeqLeaf)
    } else if c == 9 {
        Some(HeapTag::SeqBranch)
    } else if c == 10 {
        Some(HeapTag::MapRoot)
    } else if c == 11 {
        Some(HeapTag::HamtBranch)
    } else if c == 12 {
        Some(HeapTag::HamtEntry)
    } else if c == 13 {
        Some(HeapTag::HamtCollision)
    } else if c == 14 {
        Some(HeapTag::Subject)
    } else {
        None
    }
}

/// Payload length in words encoded in a header.
pub fn header_payload_words(word: u64) -> (r: u64)
    ensures
        r == word >> 8,
{
    word >> 8
}

/// Total object size, header and payload, in words.
pub fn header_total_words(word: u64) -> (r: u64)
    ensures
        r == (word >> 8) + 1,
{
    proof {
        lemma_len(word);
    }
    1 + header_payload_words(word)
}

proof fn lemma_len(word: u64)
    by (bit_vector)
    ensures
        word >> 8 < 0x100_0000_0000_0000,
{
}

/// Whether the object owns something outside the heap.
pub fn header_has_off_heap_link(word: u64) -> (r: bool)
    ensures
        r == (word & HEADER_OFF_HEAP_BIT != 0),
{
    word & HEADER_OFF_HEAP_BIT != 0
}

/// Whether the object is immortal.
pub fn header_is_immortal(word: u64) -> (r: bool)
    ensures
        r == (word & HEADER_IMMORTAL_BIT != 0),
{
    word & HEADER_IMMORTAL_BIT != 0
}

/// A header reads back as it was packed.
pub proof fn law_header_roundtrip(tag: HeapTag, words: int, off_heap: bool, immortal: bool)
    requires
        0 <= words < 0x100_0000_0000_0000,
    ensures
        ({
            let w = header_word(tag, words, off_heap, immortal);
            &&& w & HEADER_BIT != 0
            &&& (w & HEADER_TAG_MASK) >> 1 == tag.spec_code()
            &&& off_heap <==> w & HEADER_OFF_HEAP_BIT != 0
            &&& immortal <==> w & HEADER_IMMORTAL_BIT != 0
            &&& w >> 8 == words
            &&& w == header_word(tag, words, off_heap, false) | (if immortal {
                HEADER_IMMORTAL_BIT
            } else {
                0
            })
        }),
{
    let off: u64 = if off_heap {
        0x40
    } else {
        0
    };
    let imm: u64 = if immortal {
        0x80
    } else {
        0
    };
    lemma_header(tag.spec_code(), off, words as u64, imm);
    lemma_header(tag.spec_code(), off, words as u64, 0);
}

} // verus!

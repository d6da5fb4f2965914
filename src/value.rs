//! Typed control values and their byte encodings.
//!
//! A 32-bit float is held as its IEEE 754 bit pattern (`f32::to_bits`), so every value is a
//! short run of 32-bit words; its encoding is those words, each in little-endian byte order.
use vstd::prelude::*;
use vstd::bytes::{
    lemma_auto_spec_u32_to_from_le_bytes, spec_u32_from_le_bytes, spec_u32_to_le_bytes,
    u32_from_le_bytes, u32_to_le_bytes,
};
use vstd::slice::slice_subrange;

verus! {

/// The six kinds of value a control group holds.
#[derive(Clone, Copy, Debug, PartialEq, Eq, Structural)]
pub enum ValueKind {
    Int,
    Bool,
    Float,
    Vec2,
    Vec3,
    Vec4,
}

/// How many 32-bit words a value of kind `k` is made of.
pub open spec fn word_count(k: ValueKind) -> nat {
    match k {
        ValueKind::Vec2 => 2,
        ValueKind::Vec3 => 3,
        ValueKind::Vec4 => 4,
        _ => 1,
    }
}

/// The size in bytes of a value of kind `k`: 4, 4, 4, 8, 12 or 16.
pub open spec fn kind_size(k: ValueKind) -> nat {
    4 * word_count(k)
}

/// Whether the words of kind `k` are float bit patterns.
pub open spec fn holds_floats(k: ValueKind) -> bool {
    k != ValueKind::Int && k != ValueKind::Bool
}

/// Whether bit pattern `b` is a NaN: all exponent bits set, mantissa not zero.
pub open spec fn is_nan_bits(b: u32) -> bool {
    b & 0x7f80_0000u32 == 0x7f80_0000u32 && b & 0x007f_ffffu32 != 0
}

/// IEEE 754 equality of two floats given by their bit patterns: a NaN equals nothing,
/// the two zeros are equal, and otherwise equal floats have equal bits.
pub open spec fn float_eq_bits(a: u32, b: u32) -> bool {
    !is_nan_bits(a) && !is_nan_bits(b) && (a == b || (a | b) & 0x7fff_ffffu32 == 0)
}

/// The little-endian bytes of a run of words, word after word.
pub open spec fn words_bytes(ws: Seq<u32>) -> Seq<u8>
    decreases ws.len(),
{
    if ws.len() == 0 {
        Seq::empty()
    } else {
        words_bytes(ws.drop_last()) + spec_u32_to_le_bytes(ws.last())
    }
}

/// The words read back from little-endian bytes, four bytes each.
pub open spec fn bytes_words(b: Seq<u8>) -> Seq<u32> {
    Seq::new(b.len() / 4, |i: int| spec_u32_from_le_bytes(b.subrange(4 * i, 4 * i + 4)))
}

/// A value as seen in contracts: its kind, its words, and the bytes held with it.
pub struct ValueModel {
    pub kind: ValueKind,
    pub words: Seq<u32>,
    pub bytes: Seq<u8>,
}

/// Whether a model is one that a value can have: the right number of words, a boolean
/// held as 0 or 1, and the held bytes equal to the encoding of the words.
pub open spec fn model_ok(m: ValueModel) -> bool {
    &&& m.words.len() == word_count(m.kind)
    &&& m.kind == ValueKind::Bool ==> (m.words[0] == 0 || m.words[0] == 1)
    &&& m.bytes == words_bytes(m.words)
}

/// Two values compare equal component by component: same kind, and each word equal,
/// as an integer or as a float by its kind.
pub open spec fn same_value(a: ValueModel, b: ValueModel) -> bool {
    &&& a.kind == b.kind
    &&& a.words.len() == b.words.len()
    &&& forall|i: int|
        0 <= i < a.words.len() ==> if holds_floats(a.kind) {
            float_eq_bits(#[trigger] a.words[i], b.words[i])
        } else {
            a.words[i] == b.words[i]
        }
}

/// A typed value with its byte encoding and a marker that the encoding was regenerated.
/// Floats are held as their bit patterns.
#[derive(Debug)]
pub enum ControlValue {
    Int(i32, Vec<u8>, bool),
    Bool(i32, Vec<u8>, bool),
    Float(u32, Vec<u8>, bool),
    Vec2([u32; 2], Vec<u8>, bool),
    Vec3([u32; 3], Vec<u8>, bool),
    Vec4([u32; 4], Vec<u8>, bool),
}

impl View for ControlValue {
    type V = ValueModel;

    open spec fn view(&self) -> ValueModel {
        match self {
            ControlValue::Int(n, b, _) => ValueModel {
                kind: ValueKind::Int,
                words: seq![*n as u32],
                bytes: b@,
            },
            ControlValue::Bool(n, b, _) => ValueModel {
                kind: ValueKind::Bool,
                words: seq![*n as u32],
                bytes: b@,
            },
            ControlValue::Float(x, b, _) => ValueModel {
                kind: ValueKind::Float,
                words: seq![*x],
                bytes: b@,
            },
            ControlValue::Vec2(a, b, _) => ValueModel { kind: ValueKind::Vec2, words: a@, bytes: b@ },
            ControlValue::Vec3(a, b, _) => ValueModel { kind: ValueKind::Vec3, words: a@, bytes: b@ },
            ControlValue::Vec4(a, b, _) => ValueModel { kind: ValueKind::Vec4, words: a@, bytes: b@ },
        }
    }
}

/// The length of the encoding of `n` words.
pub proof fn lemma_words_bytes_len(ws: Seq<u32>)
    ensures
        words_bytes(ws).len() == 4 * ws.len(),
    decreases ws.len(),
{
    lemma_auto_spec_u32_to_from_le_bytes();
    if ws.len() > 0 {
        lemma_words_bytes_len(ws.drop_last());
    }
}

/// The four bytes at word position `i` of an encoding are those of word `i`.
pub proof fn lemma_words_bytes_chunk(ws: Seq<u32>, i: int)
    requires
        0 <= i < ws.len(),
    ensures
        words_bytes(ws).subrange(4 * i, 4 * i + 4) == spec_u32_to_le_bytes(ws[i]),
    decreases ws.len(),
{
    lemma_auto_spec_u32_to_from_le_bytes();
    let front = ws.drop_last();
    lemma_words_bytes_len(front);
    let all = words_bytes(ws);
    assert(all == words_bytes(front) + spec_u32_to_le_bytes(ws.last()));
    if i < ws.len() - 1 {
        lemma_words_bytes_chunk(front, i);
        assert(all.subrange(4 * i, 4 * i + 4) =~= words_bytes(front).subrange(4 * i, 4 * i + 4));
    } else {
        assert(all.subrange(4 * i, 4 * i + 4) =~= spec_u32_to_le_bytes(ws.last()));
    }
}

/// Reading back the encoding of any run of words gives the same words.
pub proof fn lemma_words_round_trip(ws: Seq<u32>)
    ensures
        bytes_words(words_bytes(ws)) == ws,
{
    lemma_auto_spec_u32_to_from_le_bytes();
    lemma_words_bytes_len(ws);
    let back = bytes_words(words_bytes(ws));
    assert(back.len() == ws.len());
    assert forall|i: int| 0 <= i < ws.len() implies back[i] == ws[i] by {
        lemma_words_bytes_chunk(ws, i);
        let c = words_bytes(ws).subrange(4 * i, 4 * i + 4);
        assert(back[i] == spec_u32_from_le_bytes(c));
        assert(c == spec_u32_to_le_bytes(ws[i]));
        assert(spec_u32_to_le_bytes(ws[i]).len() == 4);
    }
    assert(back =~= ws);
}

/// A value's bytes are as long as its kind says, and reading them back gives its words.
pub proof fn lemma_encoding_round_trip(m: ValueModel)
    requires
        model_ok(m),
    ensures
        m.bytes.len() == kind_size(m.kind),
        bytes_words(m.bytes) == m.words,
{
    lemma_words_bytes_len(m.words);
    lemma_words_round_trip(m.words);
}

/// Values of one kind with equal bytes are the same value.
pub proof fn lemma_encoding_injective(a: ValueModel, b: ValueModel)
    requires
        model_ok(a),
        model_ok(b),
        a.kind == b.kind,
        a.bytes == b.bytes,
    ensures
        a == b,
{
    lemma_encoding_round_trip(a);
    lemma_encoding_round_trip(b);
}

/// Appends the little-endian bytes of `w`.
fn push_word(out: &mut Vec<u8>, w: u32)
    ensures
        final(out)@ == old(out)@ + spec_u32_to_le_bytes(w),
{
    let mut b = u32_to_le_bytes(w);
    out.append(&mut b);
}

/// The little-endian bytes of `ws`, word after word.
fn encode_words(ws: &[u32]) -> (r: Vec<u8>)
    ensures
        r@ == words_bytes(ws@),
{
    let mut out: Vec<u8> = Vec::new();
    let mut i: usize = 0;
    while i < ws.len()
        invariant
            i <= ws@.len(),
            out@ == words_bytes(ws@.subrange(0, i as int)),
        decreases ws@.len() - i,
    {
        push_word(&mut out, ws[i]);
        assert(ws@.subrange(0, i + 1).drop_last() =~= ws@.subrange(0, i as int));
        i = i + 1;
    }
    assert(ws@.subrange(0, ws@.len() as int) =~= ws@);
    out
}

/// IEEE 754 equality of two floats given by their bit patterns.
pub fn float_bits_eq(a: u32, b: u32) -> (r: bool)
    ensures
        r == float_eq_bits(a, b),
{
    let a_nan = a & 0x7f80_0000u32 == 0x7f80_0000u32 && a & 0x007f_ffffu32 != 0;
    let b_nan = b & 0x7f80_0000u32 == 0x7f80_0000u32 && b & 0x007f_ffffu32 != 0;
    !a_nan && !b_nan && (a == b || (a | b) & 0x7fff_ffffu32 == 0)
}

impl ControlValue {
    /// The held bytes are the encoding of the value, and a boolean is 0 or 1.
    pub open spec fn wf(&self) -> bool {
        model_ok(self@)
    }

    /// A value of `kind` made of `words`.
    pub fn from_words(kind: ValueKind, words: &[u32]) -> (r: ControlValue)
        requires
            words@.len() == word_count(kind),
            kind == ValueKind::Bool ==> (words@[0] == 0 || words@[0] == 1),
        ensures
            r@.kind == kind,
            r@.words == words@,
            r.wf(),
    {
        let bytes = encode_words(words);
        match kind {
            ValueKind::Int => {
                let w = words[0];
                let n = w as i32;
                assert((w as i32) as u32 == w) by (bit_vector);
                assert(seq![n as u32] =~= words@);
                ControlValue::Int(n, bytes, true)
            },
            ValueKind::Bool => {
                let n = words[0] as i32;
                assert(seq![n as u32] =~= words@);
                ControlValue::Bool(n, bytes, true)
            },
            ValueKind::Float => {
                assert(seq![words[0]] =~= words@);
                ControlValue::Float(words[0], bytes, true)
            },
            ValueKind::Vec2 => {
                let a = [words[0], words[1]];
                assert(a@ =~= words@);
                ControlValue::Vec2(a, bytes, true)
            },
            ValueKind::Vec3 => {
                let a = [words[0], words[1], words[2]];
                assert(a@ =~= words@);
                ControlValue::Vec3(a, bytes, true)
            },
            ValueKind::Vec4 => {
                let a = [words[0], words[1], words[2], words[3]];
                assert(a@ =~= words@);
                ControlValue::Vec4(a, bytes, true)
            },
        }
    }

    /// An integer value.
    pub fn from_int(v: i32) -> (r: ControlValue)
        ensures
            r@.kind == ValueKind::Int,
            r@.words == seq![v as u32],
            r.wf(),
    {
        let ws = [v as u32];
        let bytes = encode_words(vstd::array::array_as_slice(&ws));
        assert(ws@ =~= seq![v as u32]);
        ControlValue::Int(v, bytes, true)
    }

    /// A boolean value, held as 1 or 0.
    pub fn from_bool(v: bool) -> (r: ControlValue)
        ensures
            r@.kind == ValueKind::Bool,
            r@.words == seq![if v { 1u32 } else { 0u32 }],
            r.wf(),
    {
        let n: i32 = if v { 1 } else { 0 };
        let ws = [n as u32];
        let bytes = encode_words(vstd::array::array_as_slice(&ws));
        assert(ws@ =~= seq![n as u32]);
        ControlValue::Bool(n, bytes, true)
    }

    /// A float value, given by its bit pattern.
    pub fn from_float_bits(v: u32) -> (r: ControlValue)
        ensures
            r@.kind == ValueKind::Float,
            r@.words == seq![v],
            r.wf(),
    {
        let ws = [v];
        let bytes = encode_words(vstd::array::array_as_slice(&ws));
        assert(ws@ =~= seq![v]);
        ControlValue::Float(v, bytes, true)
    }

    /// A two-component vector, given by the bit patterns of its floats.
    pub fn from_vec2_bits(v: [u32; 2]) -> (r: ControlValue)
        ensures
            r@.kind == ValueKind::Vec2,
            r@.words == v@,
            r.wf(),
    {
        let bytes = encode_words(vstd::array::array_as_slice(&v));
        ControlValue::Vec2(v, bytes, true)
    }

    /// A three-component vector, given by the bit patterns of its floats.
    pub fn from_vec3_bits(v: [u32; 3]) -> (r: ControlValue)
        ensures
            r@.kind == ValueKind::Vec3,
            r@.words == v@,
            r.wf(),
    {
        let bytes = encode_words(vstd::array::array_as_slice(&v));
        ControlValue::Vec3(v, bytes, true)
    }

    /// A four-component vector, given by the bit patterns of its floats.
    pub fn from_vec4_bits(v: [u32; 4]) -> (r: ControlValue)
        ensures
            r@.kind == ValueKind::Vec4,
            r@.words == v@,
            r.wf(),
    {
        let bytes = encode_words(vstd::array::array_as_slice(&v));
        ControlValue::Vec4(v, bytes, true)
    }

    /// The kind of the value.
    pub fn kind(&self) -> (r: ValueKind)
        ensures
            r == self@.kind,
    {
        match self {
            ControlValue::Int(_, _, _) => ValueKind::Int,
            ControlValue::Bool(_, _, _) => ValueKind::Bool,
            ControlValue::Float(_, _, _) => ValueKind::Float,
            ControlValue::Vec2(_, _, _) => ValueKind::Vec2,
            ControlValue::Vec3(_, _, _) => ValueKind::Vec3,
            ControlValue::Vec4(_, _, _) => ValueKind::Vec4,
        }
    }

    /// The size in bytes of the value's encoding: 4, 4, 4, 8, 12 or 16 by its kind.
    pub fn size(&self) -> (r: usize)
        ensures
            r == kind_size(self@.kind),
    {
        match self {
            ControlValue::Int(_, _, _) => 4,
            ControlValue::Bool(_, _, _) => 4,
            ControlValue::Float(_, _, _) => 4,
            ControlValue::Vec2(_, _, _) => 8,
            ControlValue::Vec3(_, _, _) => 12,
            ControlValue::Vec4(_, _, _) => 16,
        }
    }

    /// The value's byte encoding.
    pub fn get_bytes(&self) -> (r: &[u8])
        ensures
            r@ == self@.bytes,
    {
        match self {
            ControlValue::Int(_, b, _) => b.as_slice(),
            ControlValue::Bool(_, b, _) => b.as_slice(),
            ControlValue::Float(_, b, _) => b.as_slice(),
            ControlValue::Vec2(_, b, _) => b.as_slice(),
            ControlValue::Vec3(_, b, _) => b.as_slice(),
            ControlValue::Vec4(_, b, _) => b.as_slice(),
        }
    }

    /// Whether the two values are equal component by component.
    pub fn same_as(&self, other: &ControlValue) -> (r: bool)
        ensures
            r == same_value(self@, other@),
    {
        let ghost x = self@.words;
        let ghost y = other@.words;
        match (self, other) {
            (ControlValue::Int(a, _, _), ControlValue::Int(b, _, _)) => {
                let (a, b) = (*a, *b);
                assert((a as u32 == b as u32) == (a == b)) by (bit_vector);
                assert(x[0] == a as u32 && y[0] == b as u32);
                a == b
            },
            (ControlValue::Bool(a, _, _), ControlValue::Bool(b, _, _)) => {
                let (a, b) = (*a, *b);
                assert((a as u32 == b as u32) == (a == b)) by (bit_vector);
                assert(x[0] == a as u32 && y[0] == b as u32);
                a == b
            },
            (ControlValue::Float(a, _, _), ControlValue::Float(b, _, _)) => {
                assert(x[0] == *a && y[0] == *b);
                float_bits_eq(*a, *b)
            },
            (ControlValue::Vec2(a, _, _), ControlValue::Vec2(b, _, _)) => {
                assert(x[0] == a[0] && x[1] == a[1] && y[0] == b[0] && y[1] == b[1]);
                float_bits_eq(a[0], b[0]) && float_bits_eq(a[1], b[1])
            },
            (ControlValue::Vec3(a, _, _), ControlValue::Vec3(b, _, _)) => {
                assert(x[0] == a[0] && x[1] == a[1] && x[2] == a[2]);
                assert(y[0] == b[0] && y[1] == b[1] && y[2] == b[2]);
                float_bits_eq(a[0], b[0]) && float_bits_eq(a[1], b[1]) && float_bits_eq(
                    a[2],
                    b[2],
                )
            },
            (ControlValue::Vec4(a, _, _), ControlValue::Vec4(b, _, _)) => {
                assert(x[0] == a[0] && x[1] == a[1] && x[2] == a[2] && x[3] == a[3]);
                assert(y[0] == b[0] && y[1] == b[1] && y[2] == b[2] && y[3] == b[3]);
                float_bits_eq(a[0], b[0]) && float_bits_eq(a[1], b[1]) && float_bits_eq(
                    a[2],
                    b[2],
                ) && float_bits_eq(a[3], b[3])
            },
            _ => false,
        }
    }

    /// Reads a value of `kind` back from its encoding. `None` when the length is not the
    /// kind's size, or a boolean is neither 0 nor 1.
    pub fn decode(kind: ValueKind, bytes: &[u8]) -> (r: Option<ControlValue>)
        ensures
            match r {
                Some(v) => {
                    &&& bytes@.len() == kind_size(kind)
                    &&& v@ == ValueModel { kind, words: bytes_words(bytes@), bytes: bytes@ }
                    &&& v.wf()
                },
                None => !(bytes@.len() == kind_size(kind) && model_ok(
                    ValueModel { kind, words: bytes_words(bytes@), bytes: bytes@ },
                )),
            },
    {
        let n: usize = match kind {
            ValueKind::Vec2 => 2,
            ValueKind::Vec3 => 3,
            ValueKind::Vec4 => 4,
            _ => 1,
        };
        if bytes.len() != 4 * n {
            return None;
        }
        let mut words: Vec<u32> = Vec::new();
        let mut i: usize = 0;
        while i < n
            invariant
                i <= n,
                n == word_count(kind),
                bytes@.len() == 4 * n,
                words@ == bytes_words(bytes@).subrange(0, i as int),
            decreases n - i,
        {
            let w = u32_from_le_bytes(slice_subrange(bytes, 4 * i, 4 * i + 4));
            words.push(w);
            assert(words@ =~= bytes_words(bytes@).subrange(0, i + 1));
            i = i + 1;
        }
        assert(words@ =~= bytes_words(bytes@));
        if kind == ValueKind::Bool && words[0] != 0 && words[0] != 1 {
            return None;
        }
        let v = ControlValue::from_words(kind, words.as_slice());
        proof {
            lemma_auto_spec_u32_to_from_le_bytes();
            assert forall|j: int| 0 <= j < n implies bytes@.subrange(4 * j, 4 * j + 4)
                == spec_u32_to_le_bytes(words@[j]) by {
                assert(bytes@.subrange(4 * j, 4 * j + 4).len() == 4);
            }
            lemma_words_bytes_len(words@);
            assert forall|j: int| 0 <= j < n implies #[trigger] bytes_words(v@.bytes)[j]
                == bytes_words(bytes@)[j] by {
                lemma_words_bytes_chunk(words@, j);
            }
            lemma_words_round_trip(words@);
            let e = v@.bytes;
            assert forall|j: int| 0 <= j < bytes@.len() implies e[j] == bytes@[j] by {
                let q = j / 4;
                lemma_words_bytes_chunk(words@, q);
                assert(e.subrange(4 * q, 4 * q + 4)[j - 4 * q] == e[j]);
                assert(bytes@.subrange(4 * q, 4 * q + 4)[j - 4 * q] == bytes@[j]);
            }
            assert(e =~= bytes@);
        }
        Some(v)
    }
}

} // verus!

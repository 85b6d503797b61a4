use vstd::prelude::*;
use vstd::utf8::*;
use crate::text::{after_first_line, break_at, first_line, lemma_break_at};

verus! {

/// Whether the bytes of a carriage return and a line feed stand at `i` and
/// `i + 1`.
pub open spec fn is_break_bytes(b: Seq<u8>, i: int) -> bool {
    0 <= i && i + 1 < b.len() && b[i] == 13 && b[i + 1] == 10
}

proof fn lemma_width_1(v: u32)
    by (bit_vector)
    requires
        v <= 0x7F,
    ensures
        ((v & 0x7F) as u8) as u32 == v,
{
}

proof fn lemma_high_bit(x: u8)
    by (bit_vector)
    ensures
        0x80u8 | x >= 0x80,
        0xC0u8 | x >= 0x80,
        0xE0u8 | x >= 0x80,
        0xF0u8 | x >= 0x80,
{
}

/// A character below 128 is encoded as the one byte of the same value;
/// every byte of any other character is 128 or more.
pub proof fn lemma_scalar_bytes(c: char)
    ensures
        1 <= encode_scalar(c as u32).len() <= 4,
        c as u32 <= 0x7F ==> encode_scalar(c as u32).len() == 1 && encode_scalar(c as u32)[0] as u32
            == c as u32,
        c as u32 > 0x7F ==> forall|j: int|
            0 <= j < encode_scalar(c as u32).len() ==> #[trigger] encode_scalar(c as u32)[j]
                >= 0x80,
{
    let v: u32 = c as u32;
    if v <= 0x7F {
        lemma_width_1(v);
    } else {
        lemma_high_bit(((v >> 6) & 0x1F) as u8);
        lemma_high_bit(((v >> 12) & 0x0F) as u8);
        lemma_high_bit(((v >> 18) & 0x7) as u8);
        lemma_high_bit((v & 0x3F) as u8);
        lemma_high_bit(((v >> 6) & 0x3F) as u8);
        lemma_high_bit(((v >> 12) & 0x3F) as u8);
    }
}

/// Two texts with the same bytes are the same text.
pub proof fn lemma_encode_injective(a: Seq<char>, b: Seq<char>)
    requires
        encode_utf8(a) == encode_utf8(b),
    ensures
        a == b,
{
    encode_utf8_decode_utf8(a);
    encode_utf8_decode_utf8(b);
}

/// A text has at most as many characters as bytes.
pub proof fn lemma_encode_len(t: Seq<char>)
    ensures
        t.len() <= encode_utf8(t).len(),
    decreases t.len(),
{
    if t.len() > 0 {
        lemma_scalar_bytes(t[0]);
        lemma_encode_len(t.drop_first());
    }
}

/// What the first byte of a text says of its first character.
pub proof fn lemma_first_byte(t: Seq<char>)
    requires
        t.len() > 0,
    ensures
        encode_utf8(t).len() > 0,
        encode_utf8(t)[0] < 0x80 <==> t[0] as u32 <= 0x7F,
        encode_utf8(t)[0] < 0x80 ==> {
            &&& encode_utf8(t)[0] as u32 == t[0] as u32
            &&& encode_utf8(t.drop_first()) == encode_utf8(t).subrange(
                1,
                encode_utf8(t).len() as int,
            )
            &&& is_char_boundary(encode_utf8(t), 1)
        },
{
    let b = encode_utf8(t);
    lemma_scalar_bytes(t[0]);
    encode_utf8_valid_utf8(t);
    if b[0] < 0x80 {
        assert(encode_utf8(t.drop_first()) =~= b.subrange(1, b.len() as int));
        assert(pop_first_scalar(b) == b.subrange(1, b.len() as int));
        reveal_with_fuel(is_char_boundary, 2);
        reveal_with_fuel(valid_utf8, 2);
    }
}

/// Where the first delimiter stands among the bytes of a text, the first
/// line and what is behind it are the bytes on either side.
pub proof fn lemma_line_bytes(t: Seq<char>, i: int)
    requires
        0 <= i <= encode_utf8(t).len(),
        forall|p: int| 0 <= p < i ==> !is_break_bytes(encode_utf8(t), p),
        is_break_bytes(encode_utf8(t), i) || i == encode_utf8(t).len(),
    ensures
        encode_utf8(first_line(t)) == encode_utf8(t).subrange(0, i),
        i < encode_utf8(t).len() ==> encode_utf8(after_first_line(t)) == encode_utf8(t).subrange(
            i + 2,
            encode_utf8(t).len() as int,
        ),
        i == encode_utf8(t).len() ==> after_first_line(t) == Seq::<char>::empty(),
    decreases t.len(),
{
    let b = encode_utf8(t);
    if t.len() == 0 {
        assert(first_line(t) =~= t);
        assert(b.subrange(0, i) =~= b);
    } else {
        let c = t[0];
        let e = encode_scalar(c as u32);
        let u = t.drop_first();
        let bu = encode_utf8(u);
        assert(b == e + bu);
        lemma_scalar_bytes(c);
        if t.len() >= 2 {
            lemma_scalar_bytes(u[0]);
            assert(bu == encode_scalar(u[0] as u32) + encode_utf8(u.drop_first()));
        }
        if t.len() >= 2 && t[0] == '\r' && t[1] == '\n' {
            assert(is_break_bytes(b, 0));
            assert(first_line(t) =~= Seq::<char>::empty());
            assert(after_first_line(t) =~= u.drop_first());
            assert(b.subrange(2, b.len() as int) =~= encode_utf8(u.drop_first()));
            assert(b.subrange(0, 0) =~= encode_utf8(Seq::<char>::empty()));
        } else {
            assert forall|p: int| 0 <= p < e.len() implies !is_break_bytes(b, p) by {
                if c as u32 <= 0x7F {
                    assert(b[0] == e[0]);
                    if b[0] == 13 && t.len() >= 2 {
                        char_u32_cast(c, 13u32);
                        assert(b[1] == bu[0]);
                        assert(bu[0] == encode_scalar(u[0] as u32)[0]);
                        if bu[0] == 10 {
                            char_u32_cast(u[0], 10u32);
                        }
                    }
                } else {
                    assert(b[p] == e[p]);
                }
            }
            assert(i >= e.len());
            assert forall|p: int| 0 <= p < i - e.len() implies !is_break_bytes(bu, p) by {
                assert(!is_break_bytes(b, p + e.len()));
                assert(bu[p] == b[p + e.len()]);
                if p + 1 < bu.len() {
                    assert(bu[p + 1] == b[p + 1 + e.len()]);
                }
            }
            if is_break_bytes(b, i) {
                assert(bu[i - e.len()] == b[i]);
                assert(bu[i - e.len() + 1] == b[i + 1]);
            }
            lemma_line_bytes(u, i - e.len());
            lemma_break_at(u);
            let fu = first_line(u);
            assert(first_line(t) =~= seq![c] + fu);
            assert((seq![c] + fu).drop_first() =~= fu);
            assert(e + bu.subrange(0, i - e.len()) =~= b.subrange(0, i));
            assert(after_first_line(t) =~= after_first_line(u));
            if i < b.len() {
                assert(bu.subrange(i - e.len() + 2, bu.len() as int) =~= b.subrange(
                    i + 2,
                    b.len() as int,
                ));
            }
        }
    }
}

} // verus!

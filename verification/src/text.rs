use vstd::prelude::*;
use vstd::string::*;
use vstd::utf8::*;
use crate::bytes::{is_break_bytes, lemma_encode_injective, lemma_encode_len, lemma_line_bytes};

verus! {

/// Whether a carriage return and a line feed stand at `i` and `i + 1`.
pub open spec fn is_break(t: Seq<char>, i: int) -> bool {
    0 <= i && i + 1 < t.len() && t[i] == '\r' && t[i + 1] == '\n'
}

/// Whether no delimiter stands anywhere in `t`.
pub open spec fn unbroken(t: Seq<char>) -> bool {
    forall|i: int| !is_break(t, i)
}

/// The index of the first delimiter in `t`, or the length of `t` where it
/// holds none.
pub open spec fn break_at(t: Seq<char>) -> int
    decreases t.len(),
{
    if t.len() < 2 {
        t.len() as int
    } else if t[0] == '\r' && t[1] == '\n' {
        0
    } else {
        1 + break_at(t.drop_first())
    }
}

/// The text before the first delimiter: all of `t` where it holds none.
pub open spec fn first_line(t: Seq<char>) -> Seq<char> {
    t.subrange(0, break_at(t))
}

/// The text behind the first delimiter: empty where `t` holds none.
pub open spec fn after_first_line(t: Seq<char>) -> Seq<char> {
    if break_at(t) + 2 <= t.len() {
        t.subrange(break_at(t) + 2, t.len() as int)
    } else {
        Seq::empty()
    }
}

/// The lines of `t`: the text between delimiters. A delimiter at the very
/// end closes the last line and opens no new one, and the empty text has no
/// line.
pub open spec fn lines(t: Seq<char>) -> Seq<Seq<char>>
    decreases t.len(),
{
    if t.len() == 0 {
        Seq::empty()
    } else {
        if break_at(t) + 2 <= t.len() {
            proof {
                lemma_break_at(t);
            }
            seq![first_line(t)] + lines(after_first_line(t))
        } else {
            seq![first_line(t)]
        }
    }
}

/// `break_at` is where the first delimiter stands.
pub proof fn lemma_break_at(t: Seq<char>)
    ensures
        0 <= break_at(t) <= t.len(),
        forall|i: int| 0 <= i < break_at(t) ==> !is_break(t, i),
        break_at(t) < t.len() ==> is_break(t, break_at(t)),
    decreases t.len(),
{
    if t.len() >= 2 && !(t[0] == '\r' && t[1] == '\n') {
        let u = t.drop_first();
        lemma_break_at(u);
        assert forall|i: int| 0 <= i < break_at(t) implies !is_break(t, i) by {
            if i > 0 {
                assert(!is_break(u, i - 1));
            }
        }
    }
}

/// A text of the shape `a`, delimiter, `b` splits into `a` and `b` when
/// no delimiter starts inside `a`.
pub proof fn lemma_split(a: Seq<char>, b: Seq<char>)
    requires
        forall|i: int| 0 <= i < a.len() ==> !is_break(a + seq!['\r', '\n'] + b, i),
    ensures
        break_at(a + seq!['\r', '\n'] + b) == a.len(),
        first_line(a + seq!['\r', '\n'] + b) == a,
        after_first_line(a + seq!['\r', '\n'] + b) == b,
{
    let t = a + seq!['\r', '\n'] + b;
    lemma_break_at(t);
    assert(is_break(t, a.len() as int));
    assert(break_at(t) == a.len());
    assert(t.subrange(0, a.len() as int) =~= a);
    assert(t.subrange(a.len() as int + 2, t.len() as int) =~= b);
}

/// A text without a delimiter is one line with nothing behind it.
pub proof fn lemma_no_break(t: Seq<char>)
    requires
        unbroken(t),
    ensures
        first_line(t) == t,
        after_first_line(t) == Seq::<char>::empty(),
{
    lemma_break_at(t);
    assert(t.subrange(0, t.len() as int) =~= t);
}

/// Whether `c` is white space: a character with the Unicode property
/// White_Space.
pub open spec fn is_space(c: char) -> bool {
    let v = c as u32;
    ||| 0x09 <= v <= 0x0d
    ||| v == 0x20
    ||| v == 0x85
    ||| v == 0xa0
    ||| v == 0x1680
    ||| 0x2000 <= v <= 0x200a
    ||| v == 0x2028
    ||| v == 0x2029
    ||| v == 0x202f
    ||| v == 0x205f
    ||| v == 0x3000
}

/// `t` without the white space at its start and at its end.
pub open spec fn trimmed(t: Seq<char>) -> Seq<char>
    decreases t.len(),
{
    if t.len() > 0 && is_space(t[0]) {
        trimmed(t.drop_first())
    } else if t.len() > 0 && is_space(t.last()) {
        trimmed(t.drop_last())
    } else {
        t
    }
}

/// The trimmed text is what stands between the white space at the start
/// and the white space at the end.
pub proof fn lemma_trimmed(t: Seq<char>, from: int, to: int)
    requires
        0 <= from <= to <= t.len(),
        forall|i: int| 0 <= i < from ==> is_space(#[trigger] t[i]),
        forall|i: int| to <= i < t.len() ==> is_space(#[trigger] t[i]),
        from < to ==> !is_space(t[from]) && !is_space(t[to - 1]),
    ensures
        trimmed(t) == t.subrange(from, to),
    decreases t.len(),
{
    if t.len() > 0 && is_space(t[0]) {
        let u = t.drop_first();
        let from_u = if from == 0 { 0 } else { from - 1 };
        let to_u = if from == 0 { 0 } else { to - 1 };
        assert forall|i: int| 0 <= i < u.len() && (i < from_u || to_u <= i) implies is_space(
            #[trigger] u[i],
        ) by {
            assert(u[i] == t[i + 1]);
        }
        lemma_trimmed(u, from_u, to_u);
        assert(t.subrange(from, to) =~= u.subrange(from_u, to_u));
    } else if t.len() > 0 && is_space(t.last()) {
        let u = t.drop_last();
        assert forall|i: int| to <= i < u.len() implies is_space(#[trigger] u[i]) by {
            assert(u[i] == t[i]);
        }
        lemma_trimmed(u, from, to);
        assert(t.subrange(from, to) =~= u.subrange(from, to));
    } else {
        assert(t.subrange(from, to) =~= t);
    }
}

/// Whether `c` is white space.
pub fn is_space_char(c: char) -> (r: bool)
    ensures
        r == is_space(c),
{
    let v: u32 = c as u32;
    (0x09 <= v && v <= 0x0d) || v == 0x20 || v == 0x85 || v == 0xa0 || v == 0x1680 || (0x2000 <= v
        && v <= 0x200a) || v == 0x2028 || v == 0x2029 || v == 0x202f || v == 0x205f || v == 0x3000
}

/// `s` without the white space at its start and at its end.
pub fn trim<'a>(s: &'a str) -> (r: &'a str)
    ensures
        r@ == trimmed(s@),
{
    let n: usize = s.unicode_len();
    let mut from: usize = 0;
    while from < n && is_space_char(s.get_char(from))
        invariant
            from <= n,
            n == s@.len(),
            forall|i: int| 0 <= i < from ==> is_space(#[trigger] s@[i]),
        decreases n - from,
    {
        from = from + 1;
    }
    let mut to: usize = n;
    while to > from && is_space_char(s.get_char(to - 1))
        invariant
            from <= to <= n,
            n == s@.len(),
            forall|i: int| to <= i < n ==> is_space(#[trigger] s@[i]),
        decreases to,
    {
        to = to - 1;
    }
    proof {
        lemma_trimmed(s@, from as int, to as int);
    }
    s.substring_char(from, to)
}

/// Splits `s` at its first delimiter into the line before it and the text
/// behind it. Without a delimiter all of `s` is the line.
pub fn split_line<'a>(s: &'a str) -> (r: (&'a str, &'a str))
    ensures
        r.0@ == first_line(s@),
        r.1@ == after_first_line(s@),
        s@.len() <= usize::MAX,
{
    let bytes = s.as_bytes();
    let n: usize = bytes.len();
    let mut i: usize = 0;
    proof {
        encode_utf8_valid_utf8(s@);
        lemma_encode_len(s@);
    }
    while i < n
        invariant
            i <= n,
            n == bytes@.len(),
            bytes@ == encode_utf8(s@),
            valid_utf8(bytes@),
            s@.len() <= n,
            forall|p: int| 0 <= p < i ==> !is_break_bytes(bytes@, p),
        decreases n - i,
    {
        if bytes[i] == 13 && i + 1 < n && bytes[i + 1] == 10 {
            proof {
                is_char_boundary_iff_not_is_continuation_byte(bytes@, i as int);
                lemma_line_bytes(s@, i as int);
            }
            let (line, tail) = s.split_at(i);
            proof {
                encode_utf8_valid_utf8(tail@);
                reveal_with_fuel(valid_utf8, 3);
                reveal_with_fuel(is_char_boundary, 3);
                let tb = tail.spec_bytes();
                assert(tb[0] == 13 && tb[1] == 10);
                assert(pop_first_scalar(tb) == tb.subrange(1, tb.len() as int));
                assert(pop_first_scalar(pop_first_scalar(tb)) == tb.subrange(1, tb.len() as int).subrange(
                    1,
                    tb.len() - 1,
                ));
            }
            let (_, rest) = tail.split_at(2);
            proof {
                assert(rest.spec_bytes() =~= bytes@.subrange(i + 2, n as int));
                lemma_encode_injective(line@, first_line(s@));
                lemma_encode_injective(rest@, after_first_line(s@));
            }
            return (line, rest);
        }
        i = i + 1;
    }
    proof {
        lemma_line_bytes(s@, n as int);
        assert(bytes@.subrange(0, n as int) =~= bytes@);
        lemma_encode_injective(s@, first_line(s@));
        reveal_strlit("");
        assert(""@ =~= Seq::<char>::empty());
    }
    (s, "")
}

} // verus!

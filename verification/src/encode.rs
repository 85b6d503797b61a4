use vstd::prelude::*;
use vstd::utf8::*;
use crate::error::Error;
use crate::number::{
    decimal, is_digit, lemma_decimal, lemma_integer_of_decimal, lemma_length_of_decimal,
    signed_decimal,
};
use crate::parser::{decode, elements, frame, lemma_count_all_concat, lemma_count_all_one};
use crate::text::{after_first_line, first_line, is_break, lemma_split, lines, unbroken};
use crate::value::{count_all, stub, Tree};

verus! {

/// The lines of `ls` in a row, each closed by the delimiter.
pub open spec fn join(ls: Seq<Seq<char>>) -> Seq<char>
    decreases ls.len(),
{
    if ls.len() == 0 {
        Seq::empty()
    } else {
        ls[0] + seq!['\r', '\n'] + join(ls.drop_first())
    }
}

/// The lines that write a run of values, one value after the other.
pub open spec fn encoded_lines_all(items: Seq<Tree>) -> Seq<Seq<char>>
    decreases items,
{
    if items.len() == 0 {
        Seq::empty()
    } else {
        items[0].encoded_lines() + encoded_lines_all(items.drop_first())
    }
}

impl Tree {
    /// The line that opens the value: the character of its kind, then the
    /// payload of a scalar or the declared count.
    pub open spec fn header(self) -> Seq<char> {
        match self {
            Tree::SimpleString(s) => seq!['+'] + s,
            Tree::SimpleError(s) => seq!['-'] + s,
            Tree::Integer(n) => seq![':'] + signed_decimal(n as int),
            Tree::BulkString(n, _) => seq!['$'] + decimal(n),
            Tree::Array(n, _) => seq!['*'] + decimal(n),
        }
    }

    /// The lines that write the value: its header, then the payload of a
    /// bulk string as text, or the lines of the elements of an array.
    pub open spec fn encoded_lines(self) -> Seq<Seq<char>>
        decreases self,
    {
        match self {
            Tree::BulkString(_, bytes) => seq![self.header(), decode_utf8(bytes)],
            Tree::Array(_, items) => seq![self.header()] + encoded_lines_all(items),
            _ => seq![self.header()],
        }
    }

    /// The text that writes the value.
    pub open spec fn encoded(self) -> Seq<char> {
        join(self.encoded_lines())
    }

    /// Whether no bulk string declared with zero stands anywhere in the
    /// value. Such a value counts for exactly the lines that write it.
    pub open spec fn filled(self) -> bool
        decreases self,
    {
        match self {
            Tree::BulkString(n, _) => n > 0,
            Tree::Array(_, items) => forall|i: int|
                0 <= i < items.len() ==> (#[trigger] items[i]).filled(),
            _ => true,
        }
    }

    /// Whether the value can be written and read back: every declared
    /// count is the number of bytes or elements held and fits the machine,
    /// no text holds a delimiter, a payload is the bytes of a text, and a
    /// bulk string declared with zero stands only where nothing of the
    /// value follows it. The empty line written behind such a bulk string
    /// is not counted for it, so a value behind it would be read from that
    /// empty line.
    pub open spec fn well_formed(self) -> bool
        decreases self,
    {
        match self {
            Tree::SimpleString(s) => unbroken(s),
            Tree::SimpleError(s) => unbroken(s),
            Tree::Integer(_) => true,
            Tree::BulkString(n, bytes) => {
                &&& n == bytes.len()
                &&& n <= usize::MAX
                &&& valid_utf8(bytes)
                &&& unbroken(decode_utf8(bytes))
            },
            Tree::Array(n, items) => {
                &&& n == items.len()
                &&& n <= usize::MAX
                &&& forall|i: int| 0 <= i < items.len() ==> (#[trigger] items[i]).well_formed()
                &&& forall|i: int| 0 <= i && i + 1 < items.len() ==> (#[trigger] items[i]).filled()
            },
        }
    }
}

/// Lines without a delimiter, joined, split into the same lines again.
pub proof fn lemma_lines_of_join(ls: Seq<Seq<char>>)
    requires
        forall|i: int| 0 <= i < ls.len() ==> unbroken(#[trigger] ls[i]),
    ensures
        lines(join(ls)) == ls,
        ls.len() > 0 ==> first_line(join(ls)) == ls[0] && lines(after_first_line(join(ls)))
            == ls.drop_first(),
    decreases ls.len(),
{
    if ls.len() > 0 {
        let a = ls[0];
        let more = ls.drop_first();
        let b = join(more);
        let t = a + seq!['\r', '\n'] + b;
        assert forall|i: int| 0 <= i < more.len() implies unbroken(#[trigger] more[i]) by {
            assert(more[i] == ls[i + 1]);
        }
        lemma_lines_of_join(more);
        assert forall|i: int| 0 <= i < a.len() implies !is_break(t, i) by {
            assert(unbroken(a));
            assert(!is_break(a, i));
            assert(t[i] == a[i]);
            if i + 1 < a.len() {
                assert(t[i + 1] == a[i + 1]);
            } else {
                assert(t[i + 1] == '\r');
            }
        }
        lemma_split(a, b);
        assert(seq![a] + more =~= ls);
    }
}

/// The header of a well-formed value holds no delimiter.
pub proof fn lemma_header_unbroken(t: Tree)
    requires
        t.well_formed(),
    ensures
        unbroken(t.header()),
{
    let h = t.header();
    assert forall|i: int| !is_break(h, i) by {
        if 0 <= i && i + 1 < h.len() && h[i] == '\r' {
            match t {
                Tree::SimpleString(s) => {
                    assert(i >= 1);
                    assert(!is_break(s, i - 1));
                    assert(h[i] == s[i - 1] && h[i + 1] == s[i]);
                },
                Tree::SimpleError(s) => {
                    assert(i >= 1);
                    assert(!is_break(s, i - 1));
                    assert(h[i] == s[i - 1] && h[i + 1] == s[i]);
                },
                Tree::Integer(n) => {
                    if n < 0 {
                        let m = (-n) as nat;
                        lemma_decimal(m);
                        assert(i >= 2);
                        assert(h[i] == decimal(m)[i - 2]);
                        assert(is_digit(decimal(m)[i - 2]));
                    } else {
                        lemma_decimal(n as nat);
                        assert(i >= 1);
                        assert(h[i] == decimal(n as nat)[i - 1]);
                        assert(is_digit(decimal(n as nat)[i - 1]));
                    }
                },
                Tree::BulkString(n, _) => {
                    lemma_decimal(n);
                    assert(i >= 1);
                    assert(h[i] == decimal(n)[i - 1]);
                    assert(is_digit(decimal(n)[i - 1]));
                },
                Tree::Array(n, _) => {
                    lemma_decimal(n);
                    assert(i >= 1);
                    assert(h[i] == decimal(n)[i - 1]);
                    assert(is_digit(decimal(n)[i - 1]));
                },
            }
        }
    }
}

/// No line that writes a well-formed value holds a delimiter.
pub proof fn lemma_encoded_lines_unbroken(t: Tree)
    requires
        t.well_formed(),
    ensures
        t.encoded_lines().len() >= 1,
        forall|i: int| 0 <= i < t.encoded_lines().len() ==> unbroken(#[trigger] t.encoded_lines()[i]),
    decreases t, 0nat,
{
    lemma_header_unbroken(t);
    if let Tree::Array(_, items) = t {
        lemma_encoded_lines_all_unbroken(items);
    }
}

/// No line that writes a run of well-formed values holds a delimiter.
pub proof fn lemma_encoded_lines_all_unbroken(items: Seq<Tree>)
    requires
        forall|i: int| 0 <= i < items.len() ==> (#[trigger] items[i]).well_formed(),
    ensures
        encoded_lines_all(items).len() >= items.len(),
        forall|i: int|
            0 <= i < encoded_lines_all(items).len() ==> unbroken(
                #[trigger] encoded_lines_all(items)[i],
            ),
    decreases items, 1nat,
{
    if items.len() > 0 {
        lemma_encoded_lines_unbroken(items[0]);
        let more = items.drop_first();
        assert forall|i: int| 0 <= i < more.len() implies (#[trigger] more[i]).well_formed() by {
            assert(more[i] == items[i + 1]);
        }
        lemma_encoded_lines_all_unbroken(more);
    }
}

/// The lines that write a well-formed value, with any lines behind them,
/// decode to the value. Without a bulk string declared with zero in it,
/// the value counts for exactly its own lines.
pub proof fn lemma_frame_encoded(t: Tree, behind: Seq<Seq<char>>)
    requires
        t.well_formed(),
    ensures
        frame(t.encoded_lines() + behind) == Ok::<Tree, Error>(t),
        t.filled() ==> t.count() == t.encoded_lines().len(),
    decreases t, 0nat,
{
    let ls = t.encoded_lines() + behind;
    let h = t.header();
    assert(ls[0] == h);
    assert(h.drop_first() =~= match t {
        Tree::SimpleString(s) => s,
        Tree::SimpleError(s) => s,
        Tree::Integer(n) => signed_decimal(n as int),
        Tree::BulkString(n, _) => decimal(n),
        Tree::Array(n, _) => decimal(n),
    });
    match t {
        Tree::Integer(n) => {
            lemma_integer_of_decimal(n);
        },
        Tree::BulkString(n, bytes) => {
            lemma_length_of_decimal(n as usize);
            assert(ls[1] == decode_utf8(bytes));
            decode_utf8_encode_utf8(bytes);
            if n == 0 {
                assert(bytes =~= Seq::<u8>::empty());
            }
        },
        Tree::Array(n, items) => {
            lemma_length_of_decimal(n as usize);
            if n == 0 {
                assert(items =~= Seq::<Tree>::empty());
                assert(encoded_lines_all(items) =~= Seq::<Seq<char>>::empty());
                assert(count_all(items) == 0);
            } else {
                lemma_elements_encoded(items, behind);
                lemma_encoded_lines_all_unbroken(items);
                assert(ls.skip(1) =~= encoded_lines_all(items) + behind);
            }
        },
        _ => {},
    }
}

/// The lines that write a run of well-formed values, with any lines behind
/// them, decode to the run, where no value but the last holds a bulk string
/// declared with zero.
pub proof fn lemma_elements_encoded(items: Seq<Tree>, behind: Seq<Seq<char>>)
    requires
        items.len() >= 1,
        forall|i: int| 0 <= i < items.len() ==> (#[trigger] items[i]).well_formed(),
        forall|i: int| 0 <= i && i + 1 < items.len() ==> (#[trigger] items[i]).filled(),
    ensures
        elements(encoded_lines_all(items) + behind, items.len()) == Ok::<Seq<Tree>, Error>(items),
        (forall|i: int| 0 <= i < items.len() ==> (#[trigger] items[i]).filled()) ==> count_all(
            items,
        ) == encoded_lines_all(items).len(),
    decreases items, 1nat,
{
    let v = items[0];
    let more = items.drop_first();
    let ls = encoded_lines_all(items) + behind;
    assert forall|i: int| 0 <= i < more.len() implies (#[trigger] more[i]).well_formed() by {
        assert(more[i] == items[i + 1]);
    }
    assert forall|i: int| 0 <= i && i + 1 < more.len() implies (#[trigger] more[i]).filled() by {
        assert(more[i] == items[i + 1]);
    }
    lemma_frame_encoded(v, encoded_lines_all(more) + behind);
    assert(ls =~= v.encoded_lines() + (encoded_lines_all(more) + behind));
    lemma_count_all_one(v);
    lemma_count_all_concat(seq![v], more);
    assert(seq![v] + more =~= items);
    lemma_encoded_lines_all_unbroken(more);
    if more.len() == 0 {
        assert(encoded_lines_all(more) =~= Seq::<Seq<char>>::empty());
        assert(count_all(more) == 0);
    } else {
        assert(v.filled());
        lemma_elements_encoded(more, behind);
        assert(ls.skip(v.count() as int) =~= encoded_lines_all(more) + behind);
        if forall|i: int| 0 <= i < items.len() ==> (#[trigger] items[i]).filled() {
            assert forall|i: int| 0 <= i < more.len() implies (#[trigger] more[i]).filled() by {
                assert(more[i] == items[i + 1]);
            }
        }
    }
}

/// Writing a well-formed value and decoding the text gives the value back.
pub proof fn lemma_round_trip(t: Tree)
    requires
        t.well_formed(),
    ensures
        decode(t.encoded()) == Ok::<Tree, Error>(t),
{
    let ls = t.encoded_lines();
    lemma_encoded_lines_unbroken(t);
    lemma_lines_of_join(ls);
    lemma_frame_encoded(t, Seq::empty());
    assert(seq![ls[0]] + ls.drop_first() =~= ls);
    assert(ls + Seq::<Seq<char>>::empty() =~= ls);
}

} // verus!

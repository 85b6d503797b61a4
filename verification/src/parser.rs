use vstd::prelude::*;
use vstd::utf8::*;
use crate::error::Error;
use crate::number::{integer_of, is_digit};
use crate::text::{
    after_first_line, break_at, first_line, is_break, lemma_break_at, lemma_no_break,
    lemma_split, lines, split_line, unbroken,
};
use crate::value::{count_all, lemma_trees, seen, stub, trees, Tree, Value};

verus! {

/// The value that opens at the first of `ls` and may take the lines behind
/// it: a bulk string declared above zero takes the next line as its payload,
/// an array declared above zero takes its elements from the lines that
/// follow. With no line behind the first, the value stays as its line alone
/// reads. Where `ls` is empty there is no first character to read.
pub open spec fn frame(ls: Seq<Seq<char>>) -> Result<Tree, Error>
    decreases ls.len(), 0nat,
{
    if ls.len() == 0 {
        Err(Error::first_char())
    } else {
        match stub(ls[0]) {
            Err(e) => Err(e),
            Ok(v) => if ls.len() == 1 || v.is_null() {
                Ok(v)
            } else {
                match v {
                    Tree::BulkString(n, _) => Ok(Tree::BulkString(n, encode_utf8(ls[1]))),
                    Tree::Array(n, _) => match elements(ls.skip(1), n) {
                        Ok(items) => Ok(Tree::Array(n, items)),
                        Err(e) => Err(e),
                    },
                    _ => Ok(v),
                }
            },
        }
    }
}

/// Up to `n` values in a row, the first opening at the first of `ls`. Each
/// next one opens as many lines further as the one before it counts for.
/// Where that would be past the last line, the run ends short.
pub open spec fn elements(ls: Seq<Seq<char>>, n: nat) -> Result<Seq<Tree>, Error>
    decreases ls.len(), 1nat,
{
    match frame(ls) {
        Err(e) => Err(e),
        Ok(v) => if n <= 1 || v.count() >= ls.len() {
            Ok(seq![v])
        } else {
            match elements(ls.skip(v.count() as int), (n - 1) as nat) {
                Ok(more) => Ok(seq![v] + more),
                Err(e) => Err(e),
            }
        },
    }
}

/// What a whole buffer decodes to: the value that opens at its first line.
pub open spec fn decode(t: Seq<char>) -> Result<Tree, Error> {
    frame(seq![first_line(t)] + lines(after_first_line(t)))
}

/// A buffer of one line, closed by a delimiter or not, decodes to what the
/// line alone reads.
pub proof fn lemma_decode_line(line: Seq<char>)
    requires
        unbroken(line),
    ensures
        decode(line) == stub(line),
        decode(line + seq!['\r', '\n']) == stub(line),
{
    let none = Seq::<char>::empty();
    lemma_no_break(line);
    assert(lines(none) =~= Seq::<Seq<char>>::empty());
    assert(seq![line] + Seq::<Seq<char>>::empty() =~= seq![line]);
    let closed = line + seq!['\r', '\n'];
    assert(closed + none =~= closed);
    assert forall|i: int| 0 <= i < line.len() implies !is_break(closed + none, i) by {
        assert(!is_break(line, i));
        assert(closed[i] == line[i]);
        if i + 1 < line.len() {
            assert(closed[i + 1] == line[i + 1]);
        } else {
            assert(closed[i + 1] == '\r');
        }
    }
    lemma_split(line, none);
}

/// A line of `+` or `-` and a text decodes to the simple string or the
/// simple error of exactly that text.
pub proof fn lemma_decode_simple(x: Seq<char>)
    requires
        unbroken(x),
    ensures
        decode(seq!['+'] + x) == Ok::<Tree, Error>(Tree::SimpleString(x)),
        decode(seq!['+'] + x + seq!['\r', '\n']) == Ok::<Tree, Error>(Tree::SimpleString(x)),
        decode(seq!['-'] + x) == Ok::<Tree, Error>(Tree::SimpleError(x)),
        decode(seq!['-'] + x + seq!['\r', '\n']) == Ok::<Tree, Error>(Tree::SimpleError(x)),
{
    let plus = seq!['+'] + x;
    let minus = seq!['-'] + x;
    assert forall|i: int| !is_break(plus, i) && !is_break(minus, i) by {
        if i >= 1 && i + 1 < plus.len() {
            assert(!is_break(x, i - 1));
            assert(plus[i] == x[i - 1] && plus[i + 1] == x[i]);
            assert(minus[i] == x[i - 1] && minus[i + 1] == x[i]);
        }
    }
    lemma_decode_line(plus);
    lemma_decode_line(minus);
    assert(plus.drop_first() =~= x);
    assert(minus.drop_first() =~= x);
}

/// A line of `:` and the digits of an integer that fits, with or without
/// a sign, decodes to exactly that integer.
pub proof fn lemma_decode_integer(x: Seq<char>, n: i64)
    requires
        integer_of(x) == Some(n),
    ensures
        decode(seq![':'] + x) == Ok::<Tree, Error>(Tree::Integer(n)),
        decode(seq![':'] + x + seq!['\r', '\n']) == Ok::<Tree, Error>(Tree::Integer(n)),
{
    let line = seq![':'] + x;
    assert forall|i: int| !is_break(line, i) by {
        if i >= 1 && i + 1 < line.len() && line[i] == '\r' {
            assert(line[i] == x[i - 1]);
            if x[0] == '-' || x[0] == '+' {
                assert(i >= 2);
                assert(x.drop_first()[i - 2] == x[i - 1]);
                assert(is_digit(x.drop_first()[i - 2]));
            } else {
                assert(is_digit(x[i - 1]));
            }
        }
    }
    lemma_decode_line(line);
    assert(line.drop_first() =~= x);
}

/// `done`, then what `more` holds; the error of `more` where it is one.
spec fn prepend(done: Seq<Tree>, more: Result<Seq<Tree>, Error>) -> Result<
    Seq<Tree>,
    Error,
> {
    match more {
        Ok(m) => Ok(done + m),
        Err(e) => Err(e),
    }
}

/// A run of values counts for what its two parts count for together.
pub proof fn lemma_count_all_concat(a: Seq<Tree>, b: Seq<Tree>)
    ensures
        count_all(a + b) == count_all(a) + count_all(b),
    decreases b.len(),
{
    if b.len() == 0 {
        assert(a + b =~= a);
    } else {
        lemma_count_all_concat(a, b.drop_last());
        assert((a + b).drop_last() =~= a + b.drop_last());
    }
}

/// A run of one value counts for what the value counts for.
pub proof fn lemma_count_all_one(v: Tree)
    ensures
        count_all(seq![v]) == v.count(),
{
    assert(seq![v].drop_last() =~= Seq::<Tree>::empty());
    assert(seq![v].last() == v);
    reveal_with_fuel(count_all, 2);
}

/// Each value of a run counts for at most what the run counts for.
pub proof fn lemma_count_all_index(items: Seq<Tree>, i: int)
    requires
        0 <= i < items.len(),
    ensures
        count_all(items.subrange(0, i)) + items[i].count() == count_all(items.subrange(0, i + 1)),
        count_all(items.subrange(0, i + 1)) <= count_all(items),
    decreases items.len(),
{
    assert(items.subrange(0, i + 1).drop_last() =~= items.subrange(0, i));
    lemma_count_all_concat(items.subrange(0, i + 1), items.subrange(i + 1, items.len() as int));
    assert(items.subrange(0, i + 1) + items.subrange(i + 1, items.len() as int) =~= items);
}

/// A text has at most one line for every two characters, and one more.
pub proof fn lemma_lines_len(t: Seq<char>)
    ensures
        2 * lines(t).len() <= t.len() + 2,
        t.len() > 0 ==> lines(t).len() > 0,
        t.len() == 0 ==> lines(t).len() == 0,
    decreases t.len(),
{
    if t.len() > 0 {
        lemma_break_at(t);
        if break_at(t) + 2 <= t.len() {
            lemma_lines_len(after_first_line(t));
        }
    }
}

/// A decoded value counts for at least one line and at most one more than
/// there are, and holds no more than it declares.
pub proof fn lemma_frame_bound(ls: Seq<Seq<char>>)
    requires
        ls.len() > 0,
    ensures
        frame(ls) matches Ok(v) ==> 1 <= v.count() <= ls.len() + 1 && v.within_declared(),
    decreases ls.len(), 0nat,
{
    if let Ok(v) = stub(ls[0]) {
        if !(ls.len() == 1 || v.is_null()) {
            if let Tree::Array(n, _) = v {
                lemma_elements_bound(ls.skip(1), n);
            }
        } else {
            if let Tree::Array(_, items) = v {
                assert(count_all(items) == 0);
            }
        }
    }
}

/// A decoded run counts for at most one line more than there are, and is
/// of one value at least and of `n` at most, each holding no more than it
/// declares.
pub proof fn lemma_elements_bound(ls: Seq<Seq<char>>, n: nat)
    requires
        ls.len() > 0,
    ensures
        elements(ls, n) matches Ok(items) ==> {
            &&& count_all(items) <= ls.len() + 1
            &&& 1 <= items.len()
            &&& n >= 1 ==> items.len() <= n
            &&& forall|i: int| 0 <= i < items.len() ==> (#[trigger] items[i]).within_declared()
        },
    decreases ls.len(), 1nat,
{
    lemma_frame_bound(ls);
    if let Ok(v) = frame(ls) {
        lemma_count_all_one(v);
        if !(n <= 1 || v.count() >= ls.len()) {
            let rest = ls.skip(v.count() as int);
            lemma_elements_bound(rest, (n - 1) as nat);
            if let Ok(more) = elements(rest, (n - 1) as nat) {
                lemma_count_all_concat(seq![v], more);
            }
        }
    }
}

/// Whatever a buffer decodes to holds no more than it declares: an array
/// never has more elements than its header line counts.
pub proof fn lemma_decode_within_declared(t: Seq<char>)
    ensures
        decode(t) matches Ok(v) ==> v.within_declared(),
{
    lemma_frame_bound(seq![first_line(t)] + lines(after_first_line(t)));
}

/// The number of lines that `r` is counted for: one for a scalar and for a
/// bulk string declared with zero, two for any other bulk string, and for
/// an array one more than its elements together.
pub fn count_steps(r: &Value) -> (n: usize)
    requires
        r@.count() <= usize::MAX,
    ensures
        n == r@.count(),
    decreases r@.count(),
{
    match r {
        Value::Array(_, a) => {
            let ghost items = trees(a@);
            proof {
                lemma_trees(a@);
            }
            let mut total: usize = 1;
            let mut i: usize = 0;
            while i < a.len()
                invariant
                    i <= a.len(),
                    items == trees(a@),
                    items.len() == a@.len(),
                    forall|j: int| 0 <= j < a@.len() ==> #[trigger] items[j] == a@[j]@,
                    r@.count() == 1 + count_all(items),
                    1 + count_all(items) <= usize::MAX,
                    total == 1 + count_all(items.subrange(0, i as int)),
                decreases a.len() - i,
            {
                proof {
                    lemma_count_all_index(items, i as int);
                    assert(items[i as int] == a@[i as int]@);
                }
                let c: usize = count_steps(&a[i]);
                total = total + c;
                i = i + 1;
            }
            proof {
                assert(items.subrange(0, i as int) =~= items);
            }
            total
        },
        Value::BulkString(n, _) => if *n == 0 {
            1
        } else {
            2
        },
        _ => 1,
    }
}

/// Decodes the value that opens at `line`, taking what it needs from the
/// lines of `rest`.
pub fn parse_recursive<'a>(line: &'a str, rest: &'a str) -> (r: Result<Value<'a>, Error>)
    ensures
        seen(r) == frame(seq![line@] + lines(rest@)),
    decreases rest@.len(),
{
    let ghost ls = seq![line@] + lines(rest@);
    let result = match Value::init(line) {
        Ok(v) => v,
        Err(e) => {
            return Err(e);
        },
    };
    proof {
        lemma_lines_len(rest@);
    }
    if rest.is_empty() || result.is_null() {
        return Ok(result);
    }
    let (first, tail) = split_line(rest);
    proof {
        lemma_break_at(rest@);
        assert(lines(rest@) =~= seq![first@] + lines(tail@));
        assert(ls.skip(1) =~= seq![first@] + lines(tail@));
        assert(ls[1] == first@);
    }
    match result {
        Value::BulkString(n, payload) => {
            let mut bytes = payload;
            bytes.extend_from_slice(first.as_bytes());
            assert(bytes@ =~= encode_utf8(first@));
            Ok(Value::BulkString(n, bytes))
        },
        Value::Array(n, empty) => {
            let mut a = empty;
            let mut current = first;
            let mut cursor = tail;
            let ghost mut from: int = 1;
            let ghost whole = match elements(ls.skip(1), n as nat) {
                Ok(items) => Ok(Tree::Array(n as nat, items)),
                Err(e) => Err(e),
            };
            assert(result@ is Array);
            assert(result@->Array_1.len() == a@.len());
            assert(frame(ls) == whole);
            assert(trees(a@) =~= Seq::<Tree>::empty());
            assert(Seq::<Tree>::empty() + elements(ls.skip(1), n as nat)->Ok_0 =~= elements(
                ls.skip(1),
                n as nat,
            )->Ok_0);
            loop
                invariant_except_break
                    1 <= from < ls.len(),
                    ls.skip(from) =~= seq![current@] + lines(cursor@),
                    a@.len() < n,
                    elements(ls.skip(1), n as nat) == prepend(
                        trees(a@),
                        elements(ls.skip(from), (n - a@.len()) as nat),
                    ),
                invariant
                    ls == seq![line@] + lines(rest@),
                    frame(ls) == whole,
                    whole == match elements(ls.skip(1), n as nat) {
                        Ok(items) => Ok(Tree::Array(n as nat, items)),
                        Err(e) => Err(e),
                    },
                    cursor@.len() < rest@.len(),
                    2 * ls.len() <= usize::MAX + 4,
                ensures
                    elements(ls.skip(1), n as nat) == Ok::<Seq<Tree>, Error>(trees(a@)),
                decreases cursor@.len(),
            {
                let ghost here = ls.skip(from);
                let ghost want = (n - a@.len()) as nat;
                let ghost done = trees(a@);
                let item = match parse_recursive(current, cursor) {
                    Ok(v) => v,
                    Err(e) => {
                        return Err(e);
                    },
                };
                proof {
                    lemma_frame_bound(here);
                }
                let steps: usize = count_steps(&item);
                let ghost tree = item@;
                let ghost held = a@;
                a.push(item);
                proof {
                    assert(a@.drop_last() =~= held);
                    assert(trees(a@) =~= done + seq![tree]);
                }
                if a.len() == n {
                    break ;
                }
                let mut taken: usize = 0;
                let mut exhausted = false;
                let ghost before = cursor@.len();
                while taken < steps && !exhausted
                    invariant
                        taken <= steps,
                        1 <= from,
                        from + taken < ls.len(),
                        ls.skip(from + taken) =~= seq![current@] + lines(cursor@),
                        exhausted ==> from + steps >= ls.len(),
                        cursor@.len() <= before,
                        taken > 0 ==> cursor@.len() < before,
                    decreases steps - taken + (if exhausted { 0int } else { 1int }),
                {
                    proof {
                        lemma_lines_len(cursor@);
                    }
                    if cursor.is_empty() {
                        exhausted = true;
                    } else {
                        let (c, r) = split_line(cursor);
                        proof {
                            lemma_break_at(cursor@);
                            assert(lines(cursor@) =~= seq![c@] + lines(r@));
                            assert(ls.skip(from + taken + 1) =~= ls.skip(from + taken).skip(1));
                        }
                        current = c;
                        cursor = r;
                        taken = taken + 1;
                    }
                }
                if exhausted {
                    break ;
                }
                proof {
                    assert(here.skip(steps as int) =~= ls.skip(from + steps));
                    assert(done + (seq![tree] + elements(
                        ls.skip(from + steps),
                        (want - 1) as nat,
                    )->Ok_0) =~= (done + seq![tree]) + elements(
                        ls.skip(from + steps),
                        (want - 1) as nat,
                    )->Ok_0);
                    from = from + steps;
                }
            }
            Ok(Value::Array(n, a))
        },
        scalar => Ok(scalar),
    }
}

/// Decodes a whole buffer: the value that opens at its first line.
pub fn parse<'a>(s: &'a str) -> (r: Result<Value<'a>, Error>)
    ensures
        seen(r) == decode(s@),
        r matches Ok(v) ==> v@.within_declared(),
{
    proof {
        lemma_decode_within_declared(s@);
    }
    let (line, rest) = split_line(s);
    parse_recursive(line, rest)
}

} // verus!

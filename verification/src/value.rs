use vstd::prelude::*;
use vstd::string::*;
use vstd::utf8::*;
use crate::bytes::{lemma_encode_injective, lemma_first_byte};
use crate::error::Error;
use crate::number::{integer_of, length_of, parse_integer, parse_length};

verus! {

/// The mathematical value that a `Value` stands for.
pub enum Tree {
    SimpleString(Seq<char>),
    SimpleError(Seq<char>),
    Integer(i64),
    /// The declared length, then the payload.
    BulkString(nat, Seq<u8>),
    /// The declared count, then the elements.
    Array(nat, Seq<Tree>),
}

impl Tree {
    /// The number of lines that the value is counted for: one for a scalar
    /// and for a bulk string declared with zero, two for any other bulk
    /// string, and for an array one more than its elements together.
    pub open spec fn count(self) -> nat
        decreases self,
    {
        match self {
            Tree::Array(_, items) => 1 + count_all(items),
            Tree::BulkString(n, _) => if n == 0 {
                1
            } else {
                2
            },
            _ => 1,
        }
    }

    /// Whether the value holds no more than it declares: an array at most
    /// as many elements as its count, each of them within its own, and
    /// nothing at all where the count is zero.
    pub open spec fn within_declared(self) -> bool
        decreases self,
    {
        match self {
            Tree::BulkString(n, bytes) => n == 0 ==> bytes.len() == 0,
            Tree::Array(n, items) => {
                &&& items.len() <= n
                &&& forall|i: int| 0 <= i < items.len() ==> (#[trigger] items[i]).within_declared()
            },
            _ => true,
        }
    }

    /// A bulk string or an array that was declared with zero.
    pub open spec fn is_null(self) -> bool {
        match self {
            Tree::BulkString(n, _) => n == 0,
            Tree::Array(n, _) => n == 0,
            _ => false,
        }
    }
}

/// The number of lines that a run of values is counted for.
pub open spec fn count_all(items: Seq<Tree>) -> nat
    decreases items,
{
    if items.len() == 0 {
        0
    } else {
        count_all(items.drop_last()) + items.last().count()
    }
}

/// What one line, taken alone, opens: a scalar with its payload, or a bulk
/// string or an array with its declared count and nothing in it yet.
pub open spec fn stub(line: Seq<char>) -> Result<Tree, Error> {
    if line.len() == 0 {
        Err(Error::first_char())
    } else if line[0] == '+' {
        Ok(Tree::SimpleString(line.drop_first()))
    } else if line[0] == '-' {
        Ok(Tree::SimpleError(line.drop_first()))
    } else if line[0] == ':' {
        match integer_of(line.drop_first()) {
            Some(n) => Ok(Tree::Integer(n)),
            None => Err(Error::number()),
        }
    } else if line[0] == '$' {
        match length_of(line.drop_first()) {
            Some(n) => Ok(Tree::BulkString(n as nat, Seq::empty())),
            None => Err(Error::length()),
        }
    } else if line[0] == '*' {
        match length_of(line.drop_first()) {
            Some(n) => Ok(Tree::Array(n as nat, Seq::empty())),
            None => Err(Error::length()),
        }
    } else {
        Err(Error::first_char())
    }
}

/// The trees of a run of values, in order.
pub open spec fn trees(items: Seq<Value>) -> Seq<Tree>
    decreases items,
{
    if items.len() == 0 {
        Seq::empty()
    } else {
        trees(items.drop_last()).push(items.last().tree())
    }
}

/// `trees` keeps the length and reads each value in its place.
pub proof fn lemma_trees(items: Seq<Value>)
    ensures
        trees(items).len() == items.len(),
        forall|i: int| 0 <= i < items.len() ==> #[trigger] trees(items)[i] == items[i]@,
    decreases items.len(),
{
    if items.len() > 0 {
        lemma_trees(items.drop_last());
    }
}

/// The mathematical reading of a result: the tree of the value, or the
/// error as it is.
pub open spec fn seen(r: Result<Value, Error>) -> Result<Tree, Error> {
    match r {
        Ok(v) => Ok(v@),
        Err(e) => Err(e),
    }
}

/// A decoded value. Simple strings and errors borrow from the input; bulk
/// strings and arrays own what they hold, next to the count their header
/// line declared.
#[derive(Debug, PartialEq, Eq)]
pub enum Value<'a> {
    SimpleString(&'a str),
    SimpleError(&'a str),
    Integer(i64),
    BulkString(usize, Vec<u8>),
    Array(usize, Vec<Value<'a>>),
}

impl<'a> View for Value<'a> {
    type V = Tree;

    open spec fn view(&self) -> Tree {
        self.tree()
    }
}

impl<'a> Value<'a> {
    /// The mathematical value that `self` stands for.
    pub open spec fn tree(self) -> Tree
        decreases self,
    {
        match self {
            Value::SimpleString(s) => Tree::SimpleString(s@),
            Value::SimpleError(s) => Tree::SimpleError(s@),
            Value::Integer(n) => Tree::Integer(n),
            Value::BulkString(n, bytes) => Tree::BulkString(n as nat, bytes@),
            Value::Array(n, items) => Tree::Array(n as nat, trees(items@)),
        }
    }

    /// Reads one line: its first character says the kind, the rest is the
    /// payload of a scalar or the declared count of a bulk string or array.
    /// An empty line has no first character and is refused like a wrong
    /// one.
    pub fn init(s: &'a str) -> (r: Result<Value<'a>, Error>)
        ensures
            seen(r) == stub(s@),
    {
        let bytes = s.as_bytes();
        if bytes.len() == 0 {
            proof {
                if s@.len() > 0 {
                    lemma_first_byte(s@);
                }
            }
            return Err(Error("invalid first char"));
        }
        let tag: u8 = bytes[0];
        proof {
            assert(s@.len() > 0) by {
                if s@.len() == 0 {
                    assert(encode_utf8(s@).len() == 0);
                }
            }
            lemma_first_byte(s@);
        }
        if tag != 43 && tag != 45 && tag != 58 && tag != 36 && tag != 42 {
            return Err(Error("invalid first char"));
        }
        let (_, arg) = s.split_at(1);
        proof {
            assert(arg.spec_bytes() =~= encode_utf8(s@.drop_first()));
            lemma_encode_injective(arg@, s@.drop_first());
            char_u32_cast(s@[0], tag as u32);
        }
        if tag == 43 {
            Ok(Value::SimpleString(arg))
        } else if tag == 45 {
            Ok(Value::SimpleError(arg))
        } else if tag == 58 {
            match parse_integer(arg) {
                Some(n) => Ok(Value::Integer(n)),
                None => Err(Error("invalid number")),
            }
        } else {
            match parse_length(arg) {
                Some(n) => {
                    if tag == 36 {
                        Ok(Value::BulkString(n, Vec::new()))
                    } else {
                        Ok(Value::Array(n, Vec::new()))
                    }
                },
                None => Err(Error("invalid length")),
            }
        }
    }

    /// Whether this is a bulk string or an array declared with zero.
    pub fn is_null(&self) -> (r: bool)
        ensures
            r == self@.is_null(),
    {
        match self {
            Value::BulkString(n, _) => *n == 0,
            Value::Array(n, _) => *n == 0,
            _ => false,
        }
    }
}

} // verus!


//! Values that cells hold and selectors produce, with their mathematical
//! model and the verified primitive operations the engine computes with.
use vstd::prelude::*;

verus! {

/// The mathematical model of a reactive value: a text is a sequence of
/// bytes, a flag is a boolean.
pub enum Val {
    Text(Seq<u8>),
    Flag(bool),
}

/// A concrete reactive value, as stored in a cell or a selector cache.
#[derive(Debug)]
pub enum Value {
    Text(Vec<u8>),
    Flag(bool),
}

impl View for Value {
    type V = Val;

    open spec fn view(&self) -> Val {
        match self {
            Value::Text(bytes) => Val::Text(bytes@),
            Value::Flag(b) => Val::Flag(*b),
        }
    }
}

/// The model of a whole cell store: each concrete value abstracted.
pub open spec fn vals_of(cells: Seq<Value>) -> Seq<Val> {
    cells.map(|i: int, v: Value| v@)
}

/// Deep copy of a value, preserving its model.
pub fn clone_value(v: &Value) -> (r: Value)
    ensures
        r@ == v@,
{
    match v {
        Value::Flag(b) => Value::Flag(*b),
        Value::Text(bytes) => {
            let mut out: Vec<u8> = Vec::new();
            let mut i: usize = 0;
            while i < bytes.len()
                invariant
                    i <= bytes@.len(),
                    out@ == bytes@.take(i as int),
                decreases bytes@.len() - i,
            {
                out.push(bytes[i]);
                proof {
                    assert(bytes@.take(i + 1 as int) =~= bytes@.take(i as int).push(bytes@[i as int]));
                }
                i = i + 1;
            }
            proof {
                assert(bytes@.take(bytes@.len() as int) =~= bytes@);
            }
            Value::Text(out)
        }
    }
}

/// Byte-sequence equality.
pub fn bytes_eq(a: &Vec<u8>, b: &Vec<u8>) -> (r: bool)
    ensures
        r == (a@ == b@),
{
    if a.len() != b.len() {
        return false;
    }
    let mut i: usize = 0;
    while i < a.len()
        invariant
            i <= a@.len(),
            a@.len() == b@.len(),
            forall|j: int| 0 <= j < i ==> a@[j] == b@[j],
        decreases a@.len() - i,
    {
        if a[i] != b[i] {
            return false;
        }
        i = i + 1;
    }
    proof {
        assert(a@ =~= b@);
    }
    true
}

/// Model-level equality of two values.
pub fn value_eq(a: &Value, b: &Value) -> (r: bool)
    ensures
        r == (a@ == b@),
{
    match (a, b) {
        (Value::Flag(x), Value::Flag(y)) => *x == *y,
        (Value::Text(x), Value::Text(y)) => bytes_eq(x, y),
        (Value::Flag(_), Value::Text(_)) => false,
        (Value::Text(_), Value::Flag(_)) => false,
    }
}

/// `needle` occurs contiguously somewhere in `hay`.
pub open spec fn text_contains_spec(hay: Seq<u8>, needle: Seq<u8>) -> bool {
    exists|i: int|
        0 <= i && i + needle.len() <= hay.len() && #[trigger] hay.subrange(i, i + needle.len())
            == needle
}

/// The bytes of `needle` match `hay` starting at position `at`.
fn window_eq(hay: &Vec<u8>, needle: &Vec<u8>, at: usize) -> (r: bool)
    requires
        at + needle@.len() <= hay@.len(),
    ensures
        r == (hay@.subrange(at as int, at + needle@.len()) == needle@),
{
    let hay_len = hay.len();
    let mut j: usize = 0;
    while j < needle.len()
        invariant
            at + needle@.len() <= hay@.len(),
            hay_len == hay@.len(),
            j <= needle@.len(),
            forall|k: int| 0 <= k < j ==> hay@[at + k] == needle@[k],
        decreases needle@.len() - j,
    {
        if hay[at + j] != needle[j] {
            proof {
                assert(hay@.subrange(at as int, at + needle@.len())[j as int] == hay@[at + j]);
            }
            return false;
        }
        j = j + 1;
    }
    proof {
        assert(hay@.subrange(at as int, at + needle@.len()) =~= needle@);
    }
    true
}

/// Substring search: does `hay` contain `needle`?
pub fn text_contains(hay: &Vec<u8>, needle: &Vec<u8>) -> (r: bool)
    ensures
        r == text_contains_spec(hay@, needle@),
{
    if needle.len() > hay.len() {
        return false;
    }
    let limit = hay.len() - needle.len();
    let mut i: usize = 0;
    loop
        invariant
            limit == hay@.len() - needle@.len(),
            needle@.len() <= hay@.len(),
            i <= limit,
            forall|k: int|
                0 <= k < i ==> #[trigger] hay@.subrange(k, k + needle@.len()) != needle@,
        decreases limit - i,
    {
        if window_eq(hay, needle, i) {
            return true;
        }
        if i == limit {
            return false;
        }
        i = i + 1;
    }
}

} // verus!

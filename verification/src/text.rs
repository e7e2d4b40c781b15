//! The order of text: byte by byte over the UTF-8 encoding, a proper prefix first.

use vstd::prelude::*;
use vstd::utf8::encode_utf8;
use vstd::utf8::encode_utf8_decode_utf8;

verus! {

/// How one value stands to another in an order.
#[derive(Clone, Copy, Debug, PartialEq, Eq, Structural)]
pub enum Placing {
    /// The first value comes earlier.
    Before,
    /// Neither comes before the other.
    Level,
    /// The first value comes later.
    After,
}

impl Placing {
    /// The same comparison seen from the other side.
    pub open spec fn flipped(self) -> Placing {
        match self {
            Placing::Before => Placing::After,
            Placing::Level => Placing::Level,
            Placing::After => Placing::Before,
        }
    }

    /// This comparison, or `next` where this one is level.
    pub open spec fn followed_by(self, next: Placing) -> Placing {
        if self == Placing::Level {
            next
        } else {
            self
        }
    }
}

/// Where `a` stands relative to `b`: decided by the first byte in which they differ, and by
/// length where one is a prefix of the other.
pub open spec fn bytes_placing(a: Seq<u8>, b: Seq<u8>) -> Placing
    decreases a.len(),
{
    if a.len() == 0 {
        if b.len() == 0 {
            Placing::Level
        } else {
            Placing::Before
        }
    } else if b.len() == 0 {
        Placing::After
    } else if a[0] < b[0] {
        Placing::Before
    } else if a[0] > b[0] {
        Placing::After
    } else {
        bytes_placing(a.drop_first(), b.drop_first())
    }
}

/// Where the text `a` stands relative to the text `b`.
pub open spec fn text_placing(a: Seq<char>, b: Seq<char>) -> Placing {
    bytes_placing(encode_utf8(a), encode_utf8(b))
}

/// Compares two texts.
pub fn compare_text(a: &str, b: &str) -> (r: Placing)
    ensures
        r == text_placing(a@, b@),
{
    let x = a.as_bytes();
    let y = b.as_bytes();
    let mut i: usize = 0;
    assert(x@.skip(0) =~= x@ && y@.skip(0) =~= y@);
    while i < x.len() && i < y.len()
        invariant
            i <= x@.len(),
            i <= y@.len(),
            text_placing(a@, b@) == bytes_placing(x@.skip(i as int), y@.skip(i as int)),
        decreases x@.len() - i,
    {
        assert(x@.skip(i as int).drop_first() =~= x@.skip(i + 1));
        assert(y@.skip(i as int).drop_first() =~= y@.skip(i + 1));
        assert(x@.skip(i as int)[0] == x@[i as int]);
        assert(y@.skip(i as int)[0] == y@[i as int]);
        if x[i] < y[i] {
            return Placing::Before;
        }
        if x[i] > y[i] {
            return Placing::After;
        }
        i += 1;
    }
    if i < y.len() {
        Placing::Before
    } else if i < x.len() {
        Placing::After
    } else {
        Placing::Level
    }
}

/// Whether two texts are the same.
pub fn same_text(a: &str, b: &str) -> (r: bool)
    ensures
        r == (a@ == b@),
{
    proof {
        lemma_text_level(a@, b@);
    }
    compare_text(a, b) == Placing::Level
}

/// Only equal texts are level.
pub proof fn lemma_text_level(a: Seq<char>, b: Seq<char>)
    ensures
        text_placing(a, b) == Placing::Level <==> a == b,
{
    lemma_bytes_level(encode_utf8(a), encode_utf8(b));
    encode_utf8_decode_utf8(a);
    encode_utf8_decode_utf8(b);
}

/// Comparing two texts the other way round gives the opposite answer.
pub proof fn lemma_text_flipped(a: Seq<char>, b: Seq<char>)
    ensures
        text_placing(b, a) == text_placing(a, b).flipped(),
{
    lemma_bytes_flipped(encode_utf8(a), encode_utf8(b));
}

/// A chain of two text comparisons that never steps back does not step back as a whole, and
/// is level only where both steps are.
pub proof fn lemma_text_chain(a: Seq<char>, b: Seq<char>, c: Seq<char>)
    requires
        text_placing(a, b) != Placing::After,
        text_placing(b, c) != Placing::After,
    ensures
        text_placing(a, c) != Placing::After,
        text_placing(a, c) == Placing::Level <==> text_placing(a, b) == Placing::Level
            && text_placing(b, c) == Placing::Level,
{
    lemma_bytes_chain(encode_utf8(a), encode_utf8(b), encode_utf8(c));
}

/// Only equal byte strings are level.
pub proof fn lemma_bytes_level(a: Seq<u8>, b: Seq<u8>)
    ensures
        bytes_placing(a, b) == Placing::Level <==> a == b,
    decreases a.len(),
{
    if a.len() == 0 || b.len() == 0 {
        if a.len() == 0 && b.len() == 0 {
            assert(a =~= b);
        }
    } else {
        lemma_bytes_level(a.drop_first(), b.drop_first());
        if a[0] == b[0] && a.drop_first() == b.drop_first() {
            assert(a =~= seq![a[0]] + a.drop_first());
            assert(b =~= seq![b[0]] + b.drop_first());
        }
    }
}

/// Comparing the other way round gives the opposite answer.
pub proof fn lemma_bytes_flipped(a: Seq<u8>, b: Seq<u8>)
    ensures
        bytes_placing(b, a) == bytes_placing(a, b).flipped(),
    decreases a.len(),
{
    if a.len() > 0 && b.len() > 0 {
        lemma_bytes_flipped(a.drop_first(), b.drop_first());
    }
}

/// A chain of two comparisons that never steps back does not step back as a whole, and is
/// level only where both steps are.
pub proof fn lemma_bytes_chain(a: Seq<u8>, b: Seq<u8>, c: Seq<u8>)
    requires
        bytes_placing(a, b) != Placing::After,
        bytes_placing(b, c) != Placing::After,
    ensures
        bytes_placing(a, c) != Placing::After,
        bytes_placing(a, c) == Placing::Level <==> bytes_placing(a, b) == Placing::Level
            && bytes_placing(b, c) == Placing::Level,
    decreases a.len(),
{
    if a.len() > 0 && b.len() > 0 && c.len() > 0 {
        if a[0] == b[0] && b[0] == c[0] {
            lemma_bytes_chain(a.drop_first(), b.drop_first(), c.drop_first());
        }
    }
}

} // verus!

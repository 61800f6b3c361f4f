use vstd::prelude::*;
use vstd::string::StringSliceAdditionalSpecFns;
use crate::Sortable;
use crate::consistent;

verus! {

/// Lexicographic order on byte sequences: a sequence precedes another when,
/// at the first differing position, its byte is smaller, or when it is a
/// strict prefix of the other. This is the order `str` comparison follows,
/// since UTF-8 encoding preserves code-point order.
pub open spec fn bytes_precede(a: Seq<u8>, b: Seq<u8>) -> bool
    decreases a.len(),
{
    if b.len() == 0 {
        false
    } else if a.len() == 0 {
        true
    } else if a[0] != b[0] {
        a[0] < b[0]
    } else {
        bytes_precede(a.drop_first(), b.drop_first())
    }
}

/// No byte sequence precedes itself.
pub proof fn lemma_bytes_precede_irreflexive(a: Seq<u8>)
    ensures
        !bytes_precede(a, a),
    decreases a.len(),
{
    if a.len() > 0 {
        lemma_bytes_precede_irreflexive(a.drop_first());
    }
}

/// The lexicographic order on byte sequences is transitive.
pub proof fn lemma_bytes_precede_transitive(a: Seq<u8>, b: Seq<u8>, c: Seq<u8>)
    requires
        bytes_precede(a, b),
        bytes_precede(b, c),
    ensures
        bytes_precede(a, c),
    decreases a.len(),
{
    if b.len() > 0 && a.len() > 0 && a[0] == b[0] && c.len() > 0 && b[0] == c[0] {
        lemma_bytes_precede_transitive(a.drop_first(), b.drop_first(), c.drop_first());
    }
}

/// Lexicographic comparison of two strings by their UTF-8 bytes.
fn str_precedes(a: &str, b: &str) -> (r: bool)
    ensures
        r == bytes_precede(a.spec_bytes(), b.spec_bytes()),
{
    let x = a.as_bytes();
    let y = b.as_bytes();
    let mut i: usize = 0;
    proof {
        assert(x@.skip(0) =~= x@);
        assert(y@.skip(0) =~= y@);
    }
    while i < x.len() && i < y.len()
        invariant
            i <= x@.len(),
            i <= y@.len(),
            x@ == a.spec_bytes(),
            y@ == b.spec_bytes(),
            bytes_precede(x@, y@) == bytes_precede(x@.skip(i as int), y@.skip(i as int)),
        decreases x@.len() - i,
    {
        if x[i] != y[i] {
            proof {
                assert(x@.skip(i as int)[0] == x@[i as int]);
                assert(y@.skip(i as int)[0] == y@[i as int]);
            }
            return x[i] < y[i];
        }
        proof {
            assert(x@.skip(i as int)[0] == x@[i as int]);
            assert(y@.skip(i as int)[0] == y@[i as int]);
            assert(x@.skip(i as int).drop_first() =~= x@.skip(i + 1));
            assert(y@.skip(i as int).drop_first() =~= y@.skip(i + 1));
        }
        i += 1;
    }
    proof {
        assert(bytes_precede(x@.skip(i as int), y@.skip(i as int)) == (x@.len() < y@.len()));
    }
    x.len() < y.len()
}

impl Sortable for i32 {
    open spec fn precedes(&self, other: &Self) -> bool {
        *self < *other
    }

    fn compare(&self, other: &Self) -> (r: bool) {
        *self < *other
    }
}

impl Sortable for i64 {
    open spec fn precedes(&self, other: &Self) -> bool {
        *self < *other
    }

    fn compare(&self, other: &Self) -> (r: bool) {
        *self < *other
    }
}

impl Sortable for isize {
    open spec fn precedes(&self, other: &Self) -> bool {
        *self < *other
    }

    fn compare(&self, other: &Self) -> (r: bool) {
        *self < *other
    }
}

impl Sortable for u8 {
    open spec fn precedes(&self, other: &Self) -> bool {
        *self < *other
    }

    fn compare(&self, other: &Self) -> (r: bool) {
        *self < *other
    }
}

impl Sortable for u32 {
    open spec fn precedes(&self, other: &Self) -> bool {
        *self < *other
    }

    fn compare(&self, other: &Self) -> (r: bool) {
        *self < *other
    }
}

impl Sortable for u64 {
    open spec fn precedes(&self, other: &Self) -> bool {
        *self < *other
    }

    fn compare(&self, other: &Self) -> (r: bool) {
        *self < *other
    }
}

impl Sortable for usize {
    open spec fn precedes(&self, other: &Self) -> bool {
        *self < *other
    }

    fn compare(&self, other: &Self) -> (r: bool) {
        *self < *other
    }
}

impl<'a> Sortable for &'a str {
    open spec fn precedes(&self, other: &Self) -> bool {
        bytes_precede((*self).spec_bytes(), (*other).spec_bytes())
    }

    fn compare(&self, other: &Self) -> (r: bool) {
        str_precedes(*self, *other)
    }
}

/// The natural order on `i32` is a strict order.
pub proof fn lemma_i32_consistent()
    ensures
        consistent::<i32>(),
{
}

/// The natural order on `i64` is a strict order.
pub proof fn lemma_i64_consistent()
    ensures
        consistent::<i64>(),
{
}

/// The natural order on `isize` is a strict order.
pub proof fn lemma_isize_consistent()
    ensures
        consistent::<isize>(),
{
}

/// The natural order on `u8` is a strict order.
pub proof fn lemma_u8_consistent()
    ensures
        consistent::<u8>(),
{
}

/// The natural order on `u32` is a strict order.
pub proof fn lemma_u32_consistent()
    ensures
        consistent::<u32>(),
{
}

/// The natural order on `u64` is a strict order.
pub proof fn lemma_u64_consistent()
    ensures
        consistent::<u64>(),
{
}

/// The natural order on `usize` is a strict order.
pub proof fn lemma_usize_consistent()
    ensures
        consistent::<usize>(),
{
}

/// The lexicographic order on strings is a strict order.
pub proof fn lemma_str_consistent<'a>()
    ensures
        consistent::<&'a str>(),
{
    assert forall|a: &'a str| !(#[trigger] a.precedes(&a)) by {
        lemma_bytes_precede_irreflexive(a.spec_bytes());
    }
    assert forall|a: &'a str, b: &'a str, c: &'a str|
        #[trigger] a.precedes(&b) && #[trigger] b.precedes(&c) implies a.precedes(&c) by {
        lemma_bytes_precede_transitive(a.spec_bytes(), b.spec_bytes(), c.spec_bytes());
    }
}

} // verus!

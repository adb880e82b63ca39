//! Keys that a tree can hold: values with a strict total order on their views.
use core::cmp::Ordering;
use vstd::prelude::*;
use vstd::utf8::{encode_utf8, encode_utf8_decode_utf8};

verus! {

/// A key type: a strict total order on the key's view, an executable
/// three-way comparison that agrees with it, and a copy that keeps the view.
pub trait KeyOrder: View + Sized {
    /// `a` comes strictly before `b`.
    spec fn precedes(a: Self::V, b: Self::V) -> bool;

    proof fn lemma_irreflexive(a: Self::V)
        ensures
            !Self::precedes(a, a),
    ;

    proof fn lemma_transitive(a: Self::V, b: Self::V, c: Self::V)
        requires
            Self::precedes(a, b),
            Self::precedes(b, c),
        ensures
            Self::precedes(a, c),
    ;

    proof fn lemma_total(a: Self::V, b: Self::V)
        ensures
            a == b || Self::precedes(a, b) || Self::precedes(b, a),
    ;

    fn compare(&self, other: &Self) -> (r: Ordering)
        ensures
            (r == Ordering::Less) == Self::precedes(self@, other@),
            (r == Ordering::Equal) == (self@ == other@),
            (r == Ordering::Greater) == Self::precedes(other@, self@),
    ;

    fn duplicate(&self) -> (r: Self)
        ensures
            r@ == self@,
    ;
}

/// Transitivity of `precedes`, for use as an ambient fact.
pub broadcast proof fn lemma_precedes_transitive<T: KeyOrder>(a: T::V, b: T::V, c: T::V)
    requires
        #[trigger] T::precedes(a, b),
        #[trigger] T::precedes(b, c),
    ensures
        T::precedes(a, c),
{
    T::lemma_transitive(a, b, c);
}

/// `precedes` never holds both ways.
pub broadcast proof fn lemma_precedes_asymmetric<T: KeyOrder>(a: T::V, b: T::V)
    requires
        #[trigger] T::precedes(a, b),
    ensures
        !T::precedes(b, a),
        a != b,
{
    T::lemma_irreflexive(a);
    if T::precedes(b, a) {
        T::lemma_transitive(a, b, a);
    }
}

/// Integers in their numeric order.
impl KeyOrder for i32 {
    open spec fn precedes(a: i32, b: i32) -> bool {
        a < b
    }

    proof fn lemma_irreflexive(a: i32) {
    }

    proof fn lemma_transitive(a: i32, b: i32, c: i32) {
    }

    proof fn lemma_total(a: i32, b: i32) {
    }

    fn compare(&self, other: &i32) -> (r: Ordering) {
        if *self < *other {
            Ordering::Less
        } else if *self == *other {
            Ordering::Equal
        } else {
            Ordering::Greater
        }
    }

    fn duplicate(&self) -> (r: i32) {
        *self
    }
}

/// Integers in their numeric order.
impl KeyOrder for i64 {
    open spec fn precedes(a: i64, b: i64) -> bool {
        a < b
    }

    proof fn lemma_irreflexive(a: i64) {
    }

    proof fn lemma_transitive(a: i64, b: i64, c: i64) {
    }

    proof fn lemma_total(a: i64, b: i64) {
    }

    fn compare(&self, other: &i64) -> (r: Ordering) {
        if *self < *other {
            Ordering::Less
        } else if *self == *other {
            Ordering::Equal
        } else {
            Ordering::Greater
        }
    }

    fn duplicate(&self) -> (r: i64) {
        *self
    }
}

/// Integers in their numeric order.
impl KeyOrder for u32 {
    open spec fn precedes(a: u32, b: u32) -> bool {
        a < b
    }

    proof fn lemma_irreflexive(a: u32) {
    }

    proof fn lemma_transitive(a: u32, b: u32, c: u32) {
    }

    proof fn lemma_total(a: u32, b: u32) {
    }

    fn compare(&self, other: &u32) -> (r: Ordering) {
        if *self < *other {
            Ordering::Less
        } else if *self == *other {
            Ordering::Equal
        } else {
            Ordering::Greater
        }
    }

    fn duplicate(&self) -> (r: u32) {
        *self
    }
}

/// Integers in their numeric order.
impl KeyOrder for u64 {
    open spec fn precedes(a: u64, b: u64) -> bool {
        a < b
    }

    proof fn lemma_irreflexive(a: u64) {
    }

    proof fn lemma_transitive(a: u64, b: u64, c: u64) {
    }

    proof fn lemma_total(a: u64, b: u64) {
    }

    fn compare(&self, other: &u64) -> (r: Ordering) {
        if *self < *other {
            Ordering::Less
        } else if *self == *other {
            Ordering::Equal
        } else {
            Ordering::Greater
        }
    }

    fn duplicate(&self) -> (r: u64) {
        *self
    }
}

/// Integers in their numeric order.
impl KeyOrder for usize {
    open spec fn precedes(a: usize, b: usize) -> bool {
        a < b
    }

    proof fn lemma_irreflexive(a: usize) {
    }

    proof fn lemma_transitive(a: usize, b: usize, c: usize) {
    }

    proof fn lemma_total(a: usize, b: usize) {
    }

    fn compare(&self, other: &usize) -> (r: Ordering) {
        if *self < *other {
            Ordering::Less
        } else if *self == *other {
            Ordering::Equal
        } else {
            Ordering::Greater
        }
    }

    fn duplicate(&self) -> (r: usize) {
        *self
    }
}

/// Byte strings in lexicographic order: `a` comes first where it is a proper prefix
/// of `b`, or where at the first position at which they differ its byte is smaller.
pub open spec fn bytes_precede(a: Seq<u8>, b: Seq<u8>) -> bool
    decreases a.len(),
{
    if a.len() == 0 {
        b.len() > 0
    } else if b.len() == 0 {
        false
    } else if a[0] != b[0] {
        a[0] < b[0]
    } else {
        bytes_precede(a.drop_first(), b.drop_first())
    }
}

/// No byte string comes before itself.
proof fn lemma_bytes_irreflexive(a: Seq<u8>)
    ensures
        !bytes_precede(a, a),
    decreases a.len(),
{
    if a.len() > 0 {
        lemma_bytes_irreflexive(a.drop_first());
    }
}

/// The byte order is transitive.
proof fn lemma_bytes_transitive(a: Seq<u8>, b: Seq<u8>, c: Seq<u8>)
    requires
        bytes_precede(a, b),
        bytes_precede(b, c),
    ensures
        bytes_precede(a, c),
    decreases a.len(),
{
    if a.len() > 0 && b.len() > 0 && c.len() > 0 && a[0] == b[0] && b[0] == c[0] {
        lemma_bytes_transitive(a.drop_first(), b.drop_first(), c.drop_first());
    }
}

/// Of two different byte strings, one comes first.
proof fn lemma_bytes_total(a: Seq<u8>, b: Seq<u8>)
    ensures
        a == b || bytes_precede(a, b) || bytes_precede(b, a),
    decreases a.len(),
{
    if a.len() > 0 && b.len() > 0 && a[0] == b[0] {
        lemma_bytes_total(a.drop_first(), b.drop_first());
        if a.drop_first() == b.drop_first() {
            assert forall|k: int| 0 <= k < a.len() implies a[k] == b[k] by {
                if k > 0 {
                    assert(a[k] == a.drop_first()[k - 1]);
                    assert(b[k] == b.drop_first()[k - 1]);
                }
            }
            assert(a =~= b);
        }
    } else if a.len() == 0 && b.len() == 0 {
        assert(a =~= b);
    }
}

/// Byte strings compared from position `i` on, once the bytes before `i` agree.
proof fn lemma_bytes_from(a: Seq<u8>, b: Seq<u8>, i: int)
    requires
        0 <= i <= a.len(),
        i <= b.len(),
        a.subrange(0, i) == b.subrange(0, i),
    ensures
        bytes_precede(a, b) == bytes_precede(a.subrange(i, a.len() as int), b.subrange(i, b.len() as int)),
    decreases i,
{
    if i > 0 {
        assert(a[0] == a.subrange(0, i)[0]);
        assert(b[0] == b.subrange(0, i)[0]);
        assert(a.drop_first().subrange(0, i - 1) =~= b.drop_first().subrange(0, i - 1)) by {
            assert forall|k: int| 0 <= k < i - 1 implies #[trigger] a.drop_first()[k] == b.drop_first()[k] by {
                assert(a.subrange(0, i)[k + 1] == b.subrange(0, i)[k + 1]);
                assert(a.drop_first()[k] == a.subrange(0, i)[k + 1]);
                assert(b.drop_first()[k] == b.subrange(0, i)[k + 1]);
            }
        }
        lemma_bytes_from(a.drop_first(), b.drop_first(), i - 1);
        assert(a.drop_first().subrange(i - 1, a.len() - 1) =~= a.subrange(i, a.len() as int));
        assert(b.drop_first().subrange(i - 1, b.len() - 1) =~= b.subrange(i, b.len() as int));
    } else {
        assert(a.subrange(0, a.len() as int) =~= a);
        assert(b.subrange(0, b.len() as int) =~= b);
    }
}

/// Strings in the order of their UTF-8 bytes, which is the order of their characters'
/// code points.
impl KeyOrder for String {
    open spec fn precedes(a: Seq<char>, b: Seq<char>) -> bool {
        bytes_precede(encode_utf8(a), encode_utf8(b))
    }

    proof fn lemma_irreflexive(a: Seq<char>) {
        lemma_bytes_irreflexive(encode_utf8(a));
    }

    proof fn lemma_transitive(a: Seq<char>, b: Seq<char>, c: Seq<char>) {
        lemma_bytes_transitive(encode_utf8(a), encode_utf8(b), encode_utf8(c));
    }

    proof fn lemma_total(a: Seq<char>, b: Seq<char>) {
        lemma_bytes_total(encode_utf8(a), encode_utf8(b));
        encode_utf8_decode_utf8(a);
        encode_utf8_decode_utf8(b);
    }

    fn compare(&self, other: &String) -> (r: Ordering) {
        let a: &[u8] = self.as_str().as_bytes();
        let b: &[u8] = other.as_str().as_bytes();
        let ghost sa = a@;
        let ghost sb = b@;
        proof {
            encode_utf8_decode_utf8(self@);
            encode_utf8_decode_utf8(other@);
        }
        let mut i: usize = 0;
        while i < a.len() && i < b.len()
            invariant
                a@ == sa,
                b@ == sb,
                sa == encode_utf8(self@),
                sb == encode_utf8(other@),
                0 <= i <= sa.len(),
                i <= sb.len(),
                sa.subrange(0, i as int) == sb.subrange(0, i as int),
            decreases sa.len() - i,
        {
            if a[i] != b[i] {
                proof {
                    lemma_bytes_from(sa, sb, i as int);
                    lemma_bytes_from(sb, sa, i as int);
                    assert(sa.subrange(i as int, sa.len() as int)[0] == sa[i as int]);
                    assert(sb.subrange(i as int, sb.len() as int)[0] == sb[i as int]);
                    assert(sa != sb);
                }
                if a[i] < b[i] {
                    return Ordering::Less;
                } else {
                    return Ordering::Greater;
                }
            }
            proof {
                assert(sa.subrange(0, i + 1) =~= sb.subrange(0, i + 1)) by {
                    assert forall|k: int| 0 <= k < i + 1 implies #[trigger] sa.subrange(0, i + 1)[k] == sb.subrange(0, i + 1)[k] by {
                        if k < i {
                            assert(sa.subrange(0, i as int)[k] == sb.subrange(0, i as int)[k]);
                        }
                    }
                }
            }
            i = i + 1;
        }
        proof {
            lemma_bytes_from(sa, sb, i as int);
            lemma_bytes_from(sb, sa, i as int);
        }
        if a.len() == b.len() {
            proof {
                assert(sa =~= sb) by {
                    assert(sa =~= sa.subrange(0, i as int));
                    assert(sb =~= sb.subrange(0, i as int));
                }
            }
            Ordering::Equal
        } else if a.len() < b.len() {
            proof {
                assert(sa.len() != sb.len());
            }
            Ordering::Less
        } else {
            proof {
                assert(sa.len() != sb.len());
            }
            Ordering::Greater
        }
    }

    fn duplicate(&self) -> (r: String) {
        self.clone()
    }
}

} // verus!

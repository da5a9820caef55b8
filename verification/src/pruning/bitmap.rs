//! A packed bit-per-row mask.

use crate::schema::attr::{copy_list, same_list};
use vstd::prelude::*;

verus! {

/// Whether bit `k` of a byte is set.
spec fn bit(byte: u8, k: u8) -> bool {
    byte & (1u8 << k) != 0
}

proof fn lemma_set_bit(byte: u8, k: u8)
    requires
        k < 8,
    ensures
        forall|j: u8| j < 8 ==> #[trigger] bit(byte | (1u8 << k), j) == (j == k || bit(byte, j)),
        forall|j: u8|
            j < 8 ==> #[trigger] bit(byte & !(1u8 << k), j) == (j != k && bit(byte, j)),
{
    assert forall|j: u8| j < 8 implies #[trigger] bit(byte | (1u8 << k), j) == (j == k || bit(
        byte,
        j,
    )) by {
        assert(((byte | (1u8 << k)) & (1u8 << j) != 0) == (j == k || byte & (1u8 << j) != 0))
            by (bit_vector)
            requires
                j < 8,
                k < 8,
        ;
    }
    assert forall|j: u8| j < 8 implies #[trigger] bit(byte & !(1u8 << k), j) == (j != k && bit(
        byte,
        j,
    )) by {
        assert(((byte & !(1u8 << k)) & (1u8 << j) != 0) == (j != k && byte & (1u8 << j) != 0))
            by (bit_vector)
            requires
                j < 8,
                k < 8,
        ;
    }
}

proof fn lemma_zero_byte()
    ensures
        forall|j: u8| !(#[trigger] bit(0u8, j)),
{
    assert forall|j: u8| !(#[trigger] bit(0u8, j)) by {
        assert(0u8 & (1u8 << j) == 0) by (bit_vector);
    }
}

/// How many of some flags are set.
pub open spec fn count(flags: Seq<bool>) -> nat
    decreases flags.len(),
{
    if flags.len() == 0 {
        0
    } else {
        count(flags.drop_last()) + if flags.last() {
            1nat
        } else {
            0nat
        }
    }
}

/// No more flags are set than there are.
pub proof fn lemma_count_bound(flags: Seq<bool>)
    ensures
        count(flags) <= flags.len(),
    decreases flags.len(),
{
    if flags.len() > 0 {
        lemma_count_bound(flags.drop_last());
    }
}

/// The flag at a position; unset outside.
pub open spec fn flag(flags: Seq<bool>, index: int) -> bool {
    0 <= index < flags.len() && flags[index]
}

/// One bit per row, packed eight to a byte. The bits behind the last row are
/// unset.
#[derive(Debug, Eq)]
pub struct Bitmap {
    bits: Vec<u8>,
    len: usize,
}

impl View for Bitmap {
    type V = Seq<bool>;

    closed spec fn view(&self) -> Seq<bool> {
        Seq::new(self.len as nat, |i: int| bit(self.bits@[i / 8], (i % 8) as u8))
    }
}

impl Bitmap {
    #[verifier::type_invariant]
    spec fn packed(self) -> bool {
        &&& self.bits@.len() == (self.len + 7) / 8
        &&& forall|i: int|
            self.len <= i < 8 * self.bits@.len() ==> !bit(self.bits@[i / 8], #[trigger] (
            (i % 8) as u8))
    }

    /// A bitmap of `len` unset bits.
    pub fn zeros(len: usize) -> (map: Self)
        ensures
            map@ == Seq::new(len as nat, |i: int| false),
    {
        let bytes: usize = len / 8 + if len % 8 == 0 {
            0
        } else {
            1
        };
        let mut bits: Vec<u8> = Vec::new();
        while bits.len() < bytes
            invariant
                bits@.len() <= bytes,
                forall|i: int| 0 <= i < bits@.len() ==> bits@[i] == 0,
            decreases bytes - bits@.len(),
        {
            bits.push(0);
        }
        proof {
            lemma_zero_byte();
        }
        let map = Bitmap { bits, len };
        assert(map@ =~= Seq::new(len as nat, |i: int| false));
        map
    }

    /// Number of bits.
    pub fn len(&self) -> (n: usize)
        ensures
            n == self@.len(),
    {
        self.len
    }

    /// `true` if the bitmap holds no bits.
    pub fn is_empty(&self) -> (empty: bool)
        ensures
            empty == (self@.len() == 0),
    {
        self.len == 0
    }

    /// Reads bit `index`; out of range reads as `false`.
    pub fn get(&self, index: usize) -> (value: bool)
        ensures
            value == flag(self@, index as int),
    {
        proof {
            use_type_invariant(self);
        }
        if index >= self.len {
            return false;
        }
        self.bits[index / 8] & (1u8 << (index % 8) as u8) != 0
    }

    /// Writes bit `index`. Out-of-range writes are ignored.
    pub fn set(&mut self, index: usize, value: bool)
        ensures
            index < old(self)@.len() ==> final(self)@ == old(self)@.update(index as int, value),
            index >= old(self)@.len() ==> final(self)@ == old(self)@,
    {
        if index >= self.len {
            return;
        }
        let ghost before = self@;
        let mut whole = Bitmap { bits: Vec::new(), len: 0 };
        std::mem::swap(self, &mut whole);
        proof {
            use_type_invariant(&whole);
        }
        let Bitmap { mut bits, len } = whole;
        let at: usize = index / 8;
        let k: u8 = (index % 8) as u8;
        let ghost old_bits = bits@;
        let byte: u8 = bits[at];
        proof {
            lemma_set_bit(byte, k);
        }
        if value {
            bits.set(at, byte | (1u8 << k));
        } else {
            bits.set(at, byte & !(1u8 << k));
        }
        proof {
            assert forall|i: int| 0 <= i < 8 * bits@.len() && i != index implies #[trigger] bit(
                bits@[i / 8],
                (i % 8) as u8,
            ) == bit(old_bits[i / 8], (i % 8) as u8) by {
                if i / 8 == at {
                    assert(i % 8 != index % 8);
                }
            }
            assert(bit(bits@[at as int], k) == value);
        }
        *self = Bitmap { bits, len };
        assert(self@ =~= before.update(index as int, value));
    }

    /// Appends one bit.
    pub fn push(&mut self, value: bool)
        requires
            old(self)@.len() < usize::MAX,
        ensures
            final(self)@ == old(self)@.push(value),
    {
        let ghost before = self@;
        let mut whole = Bitmap { bits: Vec::new(), len: 0 };
        std::mem::swap(self, &mut whole);
        proof {
            use_type_invariant(&whole);
            lemma_zero_byte();
        }
        let Bitmap { mut bits, len } = whole;
        let ghost old_bits = bits@;
        if len % 8 == 0 {
            bits.push(0);
        }
        proof {
            assert forall|i: int| len <= i < 8 * bits@.len() implies !bit(
                bits@[i / 8],
                #[trigger] ((i % 8) as u8),
            ) by {
                if i < 8 * old_bits.len() {
                    assert(!bit(old_bits[i / 8], (i % 8) as u8));
                }
            }
        }
        *self = Bitmap { bits, len: len + 1 };
        proof {
            assert(self@ =~= before.push(false));
        }
        self.set(len, value);
        assert(self@ =~= before.push(value));
    }

    /// How many bits are set.
    pub fn count_set(&self) -> (n: usize)
        ensures
            n == count(self@),
    {
        let mut n: usize = 0;
        let mut i: usize = 0;
        assert(self@.take(0) =~= Seq::empty());
        while i < self.len
            invariant
                i <= self.len,
                self.len == self@.len(),
                n == count(self@.take(i as int)),
                n <= i,
            decreases self.len - i,
        {
            assert(self@.take(i + 1).drop_last() =~= self@.take(i as int));
            if self.get(i) {
                n += 1;
            }
            i += 1;
        }
        assert(self@.take(i as int) =~= self@);
        n
    }

    /// Grows to `len` bits, filling with `false`. A longer bitmap stays as it
    /// is.
    pub fn resize(&mut self, len: usize)
        ensures
            final(self)@.len() == if old(self)@.len() < len {
                len as nat
            } else {
                old(self)@.len()
            },
            forall|i: int|
                0 <= i < final(self)@.len() ==> #[trigger] final(self)@[i] == flag(old(self)@, i),
    {
        while self.len < len
            invariant
                self.len == self@.len(),
                self@.len() >= old(self)@.len(),
                self@.len() <= len || self@.len() == old(self)@.len(),
                forall|i: int| 0 <= i < self@.len() ==> #[trigger] self@[i] == flag(old(self)@, i),
            decreases len - self.len,
        {
            self.push(false);
        }
    }
}

/// The bits of packed bytes.
pub open spec fn unpacked(bits: Seq<u8>, len: nat) -> Seq<bool> {
    Seq::new(len, |i: int| bits[i / 8] & (1u8 << ((i % 8) as u8)) != 0)
}

/// No bit of packed bytes is set behind the last row.
pub open spec fn clear_behind(bits: Seq<u8>, len: nat) -> bool {
    forall|i: int|
        len <= i < 8 * bits.len() ==> bits[i / 8] & (1u8 << #[trigger] ((i % 8) as u8)) == 0
}

/// Two bytes with the same eight bits are the same.
proof fn lemma_same_byte(x: u8, y: u8)
    requires
        forall|k: u8| k < 8 ==> (x & (1u8 << k) != 0) == (y & #[trigger] (1u8 << k) != 0),
    ensures
        x == y,
{
    assert((x & (1u8 << 0u8) != 0) == (y & (1u8 << 0u8) != 0));
    assert((x & (1u8 << 1u8) != 0) == (y & (1u8 << 1u8) != 0));
    assert((x & (1u8 << 2u8) != 0) == (y & (1u8 << 2u8) != 0));
    assert((x & (1u8 << 3u8) != 0) == (y & (1u8 << 3u8) != 0));
    assert((x & (1u8 << 4u8) != 0) == (y & (1u8 << 4u8) != 0));
    assert((x & (1u8 << 5u8) != 0) == (y & (1u8 << 5u8) != 0));
    assert((x & (1u8 << 6u8) != 0) == (y & (1u8 << 6u8) != 0));
    assert((x & (1u8 << 7u8) != 0) == (y & (1u8 << 7u8) != 0));
    assert(x == y) by (bit_vector)
        requires
            (x & (1u8 << 0u8) != 0) == (y & (1u8 << 0u8) != 0),
            (x & (1u8 << 1u8) != 0) == (y & (1u8 << 1u8) != 0),
            (x & (1u8 << 2u8) != 0) == (y & (1u8 << 2u8) != 0),
            (x & (1u8 << 3u8) != 0) == (y & (1u8 << 3u8) != 0),
            (x & (1u8 << 4u8) != 0) == (y & (1u8 << 4u8) != 0),
            (x & (1u8 << 5u8) != 0) == (y & (1u8 << 5u8) != 0),
            (x & (1u8 << 6u8) != 0) == (y & (1u8 << 6u8) != 0),
            (x & (1u8 << 7u8) != 0) == (y & (1u8 << 7u8) != 0),
    ;
}

/// Bitmaps of one length are packed into the same bytes exactly when they hold
/// the same bits: nothing is stored behind the last row.
pub proof fn law_packed_bytes_are_decided_by_the_bits(a: Seq<u8>, b: Seq<u8>, len: nat)
    requires
        a.len() == (len + 7) / 8,
        b.len() == (len + 7) / 8,
        clear_behind(a, len),
        clear_behind(b, len),
    ensures
        a == b <==> unpacked(a, len) == unpacked(b, len),
{
    if unpacked(a, len) == unpacked(b, len) {
        assert forall|n: int| 0 <= n < a.len() implies a[n] == b[n] by {
            assert forall|k: u8| k < 8 implies (a[n] & (1u8 << k) != 0) == (b[n] & #[trigger] (1u8
                << k) != 0) by {
                let i = 8 * n + k;
                assert(i / 8 == n && (i % 8) as u8 == k);
                if i < len {
                    assert(unpacked(a, len)[i] == unpacked(b, len)[i]);
                }
            }
            lemma_same_byte(a[n], b[n]);
        }
        assert(a =~= b);
    }
}

impl Bitmap {
    /// Whether two bitmaps have the same length and the same bits.
    pub fn same(&self, other: &Bitmap) -> (same: bool)
        ensures
            same == (self@ == other@),
    {
        proof {
            use_type_invariant(self);
            use_type_invariant(other);
            assert(self@.len() == self.len && other@.len() == other.len);
            if self.len == other.len {
                assert(unpacked(self.bits@, self@.len()) =~= self@);
                assert(unpacked(other.bits@, self@.len()) =~= other@);
                law_packed_bytes_are_decided_by_the_bits(self.bits@, other.bits@, self@.len());
            }
        }
        self.len == other.len && same_list(&self.bits, &other.bits)
    }
}

impl PartialEq for Bitmap {
    fn eq(&self, other: &Bitmap) -> (equal: bool) {
        self.same(other)
    }
}

impl vstd::std_specs::cmp::PartialEqSpecImpl for Bitmap {
    open spec fn obeys_eq_spec() -> bool {
        true
    }

    open spec fn eq_spec(&self, other: &Bitmap) -> bool {
        self@ == other@
    }
}

impl Bitmap {
    /// The packed bytes, eight rows to a byte, the first row in the lowest bit.
    pub fn as_bytes(&self) -> (bits: &[u8])
        ensures
            bits@.len() == (self@.len() + 7) / 8,
            unpacked(bits@, self@.len()) == self@,
            clear_behind(bits@, self@.len()),
    {
        proof {
            use_type_invariant(self);
            assert(unpacked(self.bits@, self@.len()) =~= self@);
        }
        self.bits.as_slice()
    }

    /// A bitmap from its packed bytes; `None` where there are not just as many
    /// as `len` rows take. Bits behind the last row are dropped.
    pub fn from_bytes(bits: &[u8], len: usize) -> (map: Option<Bitmap>)
        ensures
            match map {
                Some(m) => bits@.len() == (len + 7) / 8 && m@ == unpacked(bits@, len as nat),
                None => bits@.len() != (len + 7) / 8,
            },
    {
        let bytes: usize = len / 8 + if len % 8 == 0 {
            0
        } else {
            1
        };
        if bits.len() != bytes {
            return None;
        }
        let mut map = Bitmap::zeros(0);
        let mut i: usize = 0;
        while i < len
            invariant
                i <= len,
                bits@.len() == bytes,
                bytes == (len + 7) / 8,
                map@.len() == i,
                forall|j: int| 0 <= j < i ==> map@[j] == unpacked(bits@, len as nat)[j],
            decreases len - i,
        {
            map.push(bits[i / 8] & (1u8 << (i % 8) as u8) != 0);
            i += 1;
        }
        assert(map@ =~= unpacked(bits@, len as nat));
        Some(map)
    }
}

impl Clone for Bitmap {
    fn clone(&self) -> (copy: Self)
        ensures
            copy@ == self@,
    {
        proof {
            use_type_invariant(self);
        }
        let bits: Vec<u8> = copy_list(&self.bits);
        let copy = Bitmap { bits, len: self.len };
        assert(copy@ =~= self@);
        copy
    }
}

/// A bitmap counts the rows that are set: none where none is, one more for each
/// set row that follows another list, and as many as the positions that are
/// set.
pub proof fn law_count_is_the_number_of_set_rows(flags: Seq<bool>)
    ensures
        count(flags) == Set::new(|i: int| 0 <= i < flags.len() && flags[i]).len(),
        Set::new(|i: int| 0 <= i < flags.len() && flags[i]).finite(),
    decreases flags.len(),
{
    let all = Set::new(|i: int| 0 <= i < flags.len() && flags[i]);
    if flags.len() == 0 {
        assert(all =~= Set::empty());
    } else {
        let front = flags.drop_last();
        let at = flags.len() - 1;
        let fewer = Set::new(|i: int| 0 <= i < front.len() && front[i]);
        law_count_is_the_number_of_set_rows(front);
        if flags.last() {
            assert(all =~= fewer.insert(at));
        } else {
            assert(all =~= fewer);
        }
    }
}

/// Bytes stand for the rows eight at a time, the first row in the lowest bit.
pub proof fn law_the_first_row_is_the_lowest_bit(bits: Seq<u8>, len: nat, i: int)
    requires
        0 <= i < len,
    ensures
        unpacked(bits, len).len() == len,
        unpacked(bits, len)[i] <==> bits[i / 8] & (1u8 << ((i % 8) as u8)) != 0,
{
}

} // verus!

//! A dense array of small counters, each up to eight bits wide, packed into
//! bytes without padding between neighbours.

use crate::bits::{
    bit_at, bits_value, byte_bit, lemma_bits_value_agree, lemma_bits_value_bound,
    lemma_bits_value_is_word, max_of_width, word_bit,
};
use vstd::arithmetic::power2::{lemma2_to64, pow2};
use vstd::prelude::*;

verus! {

/// An array of `count` counters of `bucket_size` bits each.
pub struct Buckets {
    data: Vec<u8>,
    bucket_size: u8,
    max: u8,
    count: usize,
}

impl View for Buckets {
    type V = Seq<u8>;

    /// The counters, in order.
    closed spec fn view(&self) -> Seq<u8> {
        Seq::new(
            self.count as nat,
            |i: int| bits_value(self.data@, i * self.bucket_size, self.bucket_size as nat) as u8,
        )
    }
}

impl Buckets {
    /// The invariant of the representation: the width is at most eight bits,
    /// the maximum matches the width, and the bytes hold exactly the counters.
    pub closed spec fn wf(&self) -> bool {
        &&& self.bucket_size <= 8
        &&& self.max == max_of_width(self.bucket_size as nat)
        &&& self.count * self.bucket_size + 7 <= usize::MAX
        &&& self.data@.len() == (self.count * self.bucket_size + 7) / 8
    }

    /// The number of bits each counter occupies.
    pub closed spec fn width(&self) -> nat {
        self.bucket_size as nat
    }

    /// The number of counters, in contracts.
    pub closed spec fn spec_count(&self) -> usize {
        self.count
    }

    /// The largest value a counter can hold, in contracts.
    pub closed spec fn spec_max_bucket_value(&self) -> u8 {
        self.max
    }

    /// The largest value a counter can hold.
    #[verifier::when_used_as_spec(spec_max_bucket_value)]
    pub fn max_bucket_value(&self) -> (m: u8)
        ensures
            m == self.spec_max_bucket_value(),
    {
        self.max
    }

    /// The number of counters.
    #[verifier::when_used_as_spec(spec_count)]
    pub fn count(&self) -> (n: usize)
        ensures
            n == self.spec_count(),
    {
        self.count
    }

    /// Creates `count` counters of `bucket_size` bits each, all zero. The
    /// number of bits in all must fit the machine's word. A width of zero is
    /// allowed: such counters hold zero and nothing else.
    pub fn new(count: usize, bucket_size: u8) -> (b: Self)
        requires
            bucket_size <= 8,
            count * bucket_size + 7 <= usize::MAX,
        ensures
            b.wf(),
            b.width() == bucket_size,
            b.count() == count,
            b.max_bucket_value() == max_of_width(bucket_size as nat),
            b@ == Seq::new(count as nat, |i: int| 0u8),
    {
        let bits: usize = count * (bucket_size as usize);
        let data: Vec<u8> = vec![0u8; (bits + 7) / 8];
        proof {
            lemma_shift_is_pow2(bucket_size);
        }
        let max: u8 = ((1u16 << (bucket_size as u16)) - 1) as u8;
        let b = Buckets { data, bucket_size, max, count };
        proof {
            b.lemma_zero_bytes();
        }
        b
    }

    /// Subtracts `delta` from a counter, stopping at zero.
    pub fn decrease(&mut self, bucket: usize, delta: u8) -> (r: &Self)
        requires
            old(self).wf(),
            bucket < old(self).count(),
        ensures
            final(self).wf(),
            final(self).width() == old(self).width(),
            final(self).count() == old(self).count(),
            final(self).max_bucket_value() == old(self).max_bucket_value(),
            final(self)@ == old(self)@.update(
                bucket as int,
                sub_clamped(old(self)@[bucket as int], delta),
            ),
            final(self)@[bucket as int] <= final(self).max_bucket_value(),
            *r == *final(self),
    {
        proof {
            self.lemma_view_bounded();
        }
        let val: u8 = self.get(bucket).saturating_sub(delta);
        self.put(bucket, val);
        self
    }

    /// Adds `delta` to a counter, stopping at the maximum.
    pub fn increment(&mut self, bucket: usize, delta: u8) -> (r: &Self)
        requires
            old(self).wf(),
            bucket < old(self).count(),
        ensures
            final(self).wf(),
            final(self).width() == old(self).width(),
            final(self).count() == old(self).count(),
            final(self).max_bucket_value() == old(self).max_bucket_value(),
            final(self)@ == old(self)@.update(
                bucket as int,
                add_clamped(old(self)@[bucket as int], delta, old(self).max_bucket_value()),
            ),
            final(self)@[bucket as int] <= final(self).max_bucket_value(),
            *r == *final(self),
    {
        let sum: u8 = self.get(bucket).saturating_add(delta);
        let val: u8 = if sum > self.max {
            self.max
        } else {
            sum
        };
        self.put(bucket, val);
        self
    }

    /// Stores `value` in a counter, or the maximum if `value` exceeds it.
    pub fn set(&mut self, bucket: usize, value: u8) -> (r: &Self)
        requires
            old(self).wf(),
            bucket < old(self).count(),
        ensures
            final(self).wf(),
            final(self).width() == old(self).width(),
            final(self).count() == old(self).count(),
            final(self).max_bucket_value() == old(self).max_bucket_value(),
            final(self)@ == old(self)@.update(
                bucket as int,
                clamped(value, old(self).max_bucket_value()),
            ),
            final(self)@[bucket as int] == clamped(value, old(self).max_bucket_value()),
            *r == *final(self),
    {
        let value: u8 = if value > self.max {
            self.max
        } else {
            value
        };
        self.put(bucket, value);
        self
    }

    /// The value of a counter.
    pub fn get(&self, bucket: usize) -> (value: u8)
        requires
            self.wf(),
            bucket < self.count(),
        ensures
            value == self@[bucket as int],
            value <= self.max_bucket_value(),
    {
        proof {
            lemma_cell_span(bucket as int, self.count as int, self.bucket_size as int);
            lemma_bits_value_bound(
                self.data@,
                bucket * self.bucket_size,
                self.bucket_size as nat,
            );
            lemma_shift_is_pow2(self.bucket_size);
        }
        let word: u32 = self.get_bits(bucket * (self.bucket_size as usize), self.bucket_size);
        word as u8
    }

    /// Sets every counter back to zero.
    pub fn reset(&mut self) -> (r: &Self)
        requires
            old(self).wf(),
        ensures
            final(self).wf(),
            final(self).width() == old(self).width(),
            final(self).count() == old(self).count(),
            final(self).max_bucket_value() == old(self).max_bucket_value(),
            final(self)@ == Seq::new(old(self).count() as nat, |i: int| 0u8),
            *r == *final(self),
    {
        self.data = vec![0u8; (self.count * (self.bucket_size as usize) + 7) / 8];
        proof {
            self.lemma_zero_bytes();
        }
        self
    }

    /// Writes a value that is already within the maximum into a counter.
    fn put(&mut self, bucket: usize, value: u8)
        requires
            old(self).wf(),
            bucket < old(self).count,
            value <= old(self).max,
        ensures
            final(self).wf(),
            final(self).bucket_size == old(self).bucket_size,
            final(self).max == old(self).max,
            final(self).count == old(self).count,
            final(self)@ == old(self)@.update(bucket as int, value),
    {
        let width: u8 = self.bucket_size;
        proof {
            lemma_cell_span(bucket as int, self.count as int, width as int);
        }
        let offset: usize = bucket * (width as usize);
        self.set_bits(offset, width, value);
        proof {
            let before = old(self).data@;
            let after = self.data@;
            assert forall|i: int| 0 <= i < self.count implies #[trigger] self@[i] == old(
                self,
            )@.update(bucket as int, value)[i] by {
                lemma_cell_span(i, self.count as int, width as int);
                if i == bucket {
                    lemma_shift_is_pow2(width);
                    let v = value as u32;
                    let n = width as u32;
                    let m = width as u16;
                    assert(v >> n == 0) by (bit_vector)
                        requires
                            m <= 8,
                            n == m as u32,
                            v == value as u32,
                            value <= (1u16 << m) - 1,
                    ;
                    assert forall|j: int| 0 <= j < width implies bit_at(after, offset + j)
                        == #[trigger] word_bit(v, j) by {
                        let k = j as u32;
                        let s = j as u8;
                        assert(((v >> k) & 1 == 1) == ((value >> s) & 1 == 1)) by (bit_vector)
                            requires
                                v == value as u32,
                                k < 8,
                                s == k,
                        ;
                    }
                    lemma_bits_value_is_word(after, offset as int, width as nat, v);
                } else {
                    lemma_cells_apart(i, bucket as int, width as int);
                    lemma_bits_value_agree(after, before, i * width, width as nat);
                }
            }
            assert(self@ =~= old(self)@.update(bucket as int, value));
        }
    }

    /// Reads the `length` bits that start at bit `offset`. A run that crosses
    /// a byte boundary is read piece by piece, each piece within one byte.
    fn get_bits(&self, offset: usize, length: u8) -> (r: u32)
        requires
            length <= 8,
            offset + length <= 8 * self.data@.len(),
            offset + length <= usize::MAX,
        ensures
            r == bits_value(self.data@, offset as int, length as nat),
    {
        let mut value: u32 = 0;
        let mut done: u8 = 0;
        assert(value >> (done as u32) == 0) by (bit_vector)
            requires
                value == 0,
        ;
        while done < length
            invariant
                done <= length <= 8,
                offset + length <= 8 * self.data@.len(),
                offset + length <= usize::MAX,
                forall|j: int|
                    0 <= j < done ==> bit_at(self.data@, offset + j) == #[trigger] word_bit(
                        value,
                        j,
                    ),
                value >> (done as u32) == 0,
            decreases length - done,
        {
            let pos: usize = offset + done as usize;
            let byte_index: usize = pos / 8;
            let byte_offset: u8 = (pos % 8) as u8;
            let room: u8 = 8 - byte_offset;
            let take: u8 = if length - done < room {
                length - done
            } else {
                room
            };
            assert((1u32 << (take as u32)) >= 1) by (bit_vector)
                requires
                    take <= 8,
            ;
            let bit_mask: u32 = (1u32 << (take as u32)) - 1;
            let byte: u8 = self.data[byte_index];
            let part: u32 = ((byte as u32) & (bit_mask << (byte_offset as u32))) >> (
            byte_offset as u32);
            let next: u32 = value | (part << (done as u32));
            proof {
                let d = done as u32;
                let t = take as u32;
                let o = byte_offset as u32;
                assert(next >> ((d + t) as u32) == 0) by (bit_vector)
                    requires
                        value >> d == 0,
                        d + t <= 8,
                        o + t <= 8,
                        bit_mask == (1u32 << t) - 1,
                        part == ((byte as u32) & (bit_mask << o)) >> o,
                        next == value | (part << d),
                ;
                assert forall|j: int| 0 <= j < done + take implies bit_at(self.data@, offset + j)
                    == #[trigger] word_bit(next, j) by {
                    let k = j as u32;
                    if j < done {
                        assert(((next >> k) & 1) == ((value >> k) & 1)) by (bit_vector)
                            requires
                                k < d,
                                d + t <= 8,
                                o + t <= 8,
                                bit_mask == (1u32 << t) - 1,
                                part == ((byte as u32) & (bit_mask << o)) >> o,
                                next == value | (part << d),
                        ;
                        assert(bit_at(self.data@, offset + j) == word_bit(value, j));
                    } else {
                        let s = (byte_offset + j - done) as u8;
                        assert(((next >> k) & 1 == 1) == ((byte >> s) & 1 == 1)) by (bit_vector)
                            requires
                                value >> d == 0,
                                d <= k < d + t,
                                d + t <= 8,
                                o + t <= 8,
                                s == o + k - d,
                                bit_mask == (1u32 << t) - 1,
                                part == ((byte as u32) & (bit_mask << o)) >> o,
                                next == value | (part << d),
                        ;
                        assert((offset + j) / 8 == byte_index as int);
                        assert((offset + j) % 8 == s as int);
                    }
                }
            }
            value = next;
            done = done + take;
        }
        proof {
            lemma_bits_value_is_word(self.data@, offset as int, length as nat, value);
        }
        value
    }

    /// Overwrites the `length` bits that start at bit `offset` with the low
    /// bits of `bits`, and leaves every other bit as it was. A run that
    /// crosses a byte boundary is written piece by piece: within each byte the
    /// piece is first cleared, then filled.
    fn set_bits(&mut self, offset: usize, length: u8, bits: u8)
        requires
            length <= 8,
            offset + length <= 8 * old(self).data@.len(),
            offset + length <= usize::MAX,
        ensures
            final(self).data@.len() == old(self).data@.len(),
            final(self).bucket_size == old(self).bucket_size,
            final(self).max == old(self).max,
            final(self).count == old(self).count,
            forall|pos: int|
                0 <= pos < 8 * old(self).data@.len() ==> #[trigger] bit_at(final(self).data@, pos)
                    == if offset <= pos < offset + length {
                    byte_bit(bits, pos - offset)
                } else {
                    bit_at(old(self).data@, pos)
                },
    {
        let mut done: u8 = 0;
        while done < length
            invariant
                done <= length <= 8,
                offset + length <= 8 * self.data@.len(),
                offset + length <= usize::MAX,
                self.data@.len() == old(self).data@.len(),
                self.bucket_size == old(self).bucket_size,
                self.max == old(self).max,
                self.count == old(self).count,
                forall|pos: int|
                    0 <= pos < 8 * self.data@.len() ==> #[trigger] bit_at(self.data@, pos)
                        == if offset <= pos < offset + done {
                        byte_bit(bits, pos - offset)
                    } else {
                        bit_at(old(self).data@, pos)
                    },
            decreases length - done,
        {
            let pos: usize = offset + done as usize;
            let byte_index: usize = pos / 8;
            let byte_offset: u8 = (pos % 8) as u8;
            let room: u8 = 8 - byte_offset;
            let take: u8 = if length - done < room {
                length - done
            } else {
                room
            };
            assert((1u32 << (take as u32)) >= 1) by (bit_vector)
                requires
                    take <= 8,
            ;
            let bit_mask: u32 = (1u32 << (take as u32)) - 1;
            let byte: u8 = self.data[byte_index];
            let cleared: u32 = (byte as u32) & !(bit_mask << (byte_offset as u32));
            let filled: u32 = cleared | ((((bits as u32) >> (done as u32)) & bit_mask) << (
            byte_offset as u32));
            let ghost before = self.data@;
            proof {
                let d = done as u32;
                let t = take as u32;
                let o = byte_offset as u32;
                assert(filled <= 255) by (bit_vector)
                    requires
                        o + t <= 8,
                        bit_mask == (1u32 << t) - 1,
                        cleared == (byte as u32) & !(bit_mask << o),
                        filled == cleared | ((((bits as u32) >> d) & bit_mask) << o),
                ;
            }
            let written: u8 = filled as u8;
            self.data.set(byte_index, written);
            proof {
                let d = done as u32;
                let t = take as u32;
                let o = byte_offset as u32;
                assert forall|p: int| 0 <= p < 8 * self.data@.len() implies #[trigger] bit_at(
                    self.data@,
                    p,
                ) == if offset <= p < offset + done + take {
                    byte_bit(bits, p - offset)
                } else {
                    bit_at(old(self).data@, p)
                } by {
                    assert(bit_at(before, p) == if offset <= p < offset + done {
                        byte_bit(bits, p - offset)
                    } else {
                        bit_at(old(self).data@, p)
                    });
                    if p / 8 == byte_index as int {
                        let k = (p % 8) as u8;
                        if byte_offset <= k < byte_offset + take {
                            let s = (done + k - byte_offset) as u8;
                            assert(((written >> k) & 1 == 1) == ((bits >> s) & 1 == 1))
                                by (bit_vector)
                                requires
                                    o <= k < o + t,
                                    o + t <= 8,
                                    d + t <= 8,
                                    s == d + k - o,
                                    bit_mask == (1u32 << t) - 1,
                                    cleared == (byte as u32) & !(bit_mask << o),
                                    filled == cleared | ((((bits as u32) >> d) & bit_mask) << o),
                                    written == filled as u8,
                            ;
                        } else {
                            assert(((written >> k) & 1 == 1) == ((byte >> k) & 1 == 1))
                                by (bit_vector)
                                requires
                                    k < 8,
                                    !(o <= k < o + t),
                                    o + t <= 8,
                                    d + t <= 8,
                                    bit_mask == (1u32 << t) - 1,
                                    cleared == (byte as u32) & !(bit_mask << o),
                                    filled == cleared | ((((bits as u32) >> d) & bit_mask) << o),
                                    written == filled as u8,
                            ;
                        }
                    }
                }
            }
            done = done + take;
        }
    }

    /// Every counter is at most the maximum, and there are `count` of them.
    pub proof fn lemma_view_bounded(&self)
        requires
            self.wf(),
        ensures
            self@.len() == self.count(),
            self.max_bucket_value() == max_of_width(self.width()),
            self.width() <= 8,
            forall|i: int| 0 <= i < self@.len() ==> #[trigger] self@[i] <= self.max_bucket_value(),
    {
        lemma_shift_is_pow2(self.bucket_size);
        assert forall|i: int| 0 <= i < self@.len() implies #[trigger] self@[i] <= self.max by {
            lemma_bits_value_bound(self.data@, i * self.bucket_size, self.bucket_size as nat);
        }
    }

    /// A counter that has just been set reads as the value that was stored,
    /// or as the maximum if that value exceeded it, and every other counter
    /// reads as before. This holds for every width and wherever the counter
    /// lies in the bytes, across a byte boundary or not.
    pub proof fn lemma_set_then_get(&self, after: &Buckets, bucket: int, value: u8)
        requires
            self.wf(),
            0 <= bucket < self.count(),
            after@ == self@.update(bucket, clamped(value, self.max_bucket_value())),
        ensures
            after@[bucket] == if value <= self.max_bucket_value() {
                value
            } else {
                self.max_bucket_value()
            },
            after@[bucket] <= self.max_bucket_value(),
            forall|other: int|
                0 <= other < self.count() && other != bucket ==> after@[other] == self@[other],
    {
    }

    /// Bytes that are all zero hold counters that are all zero.
    proof fn lemma_zero_bytes(&self)
        requires
            forall|i: int| 0 <= i < self.data@.len() ==> self.data@[i] == 0u8,
            self.bucket_size <= 8,
            self.data@.len() == (self.count * self.bucket_size + 7) / 8,
        ensures
            self@ == Seq::new(self.count as nat, |i: int| 0u8),
    {
        assert forall|i: int| 0 <= i < self.count implies #[trigger] self@[i] == 0u8 by {
            lemma_cell_span(i, self.count as int, self.bucket_size as int);
            let offset = i * self.bucket_size;
            assert forall|j: int| 0 <= j < self.bucket_size implies bit_at(self.data@, offset + j)
                == #[trigger] word_bit(0u32, j) by {
                let k = j as u32;
                let s = ((offset + j) % 8) as u8;
                assert((0u32 >> k) & 1 == 0) by (bit_vector);
                assert((0u8 >> s) & 1 == 0) by (bit_vector);
            }
            let n = self.bucket_size as u32;
            assert(0u32 >> n == 0) by (bit_vector);
            lemma_bits_value_is_word(self.data@, offset, self.bucket_size as nat, 0u32);
        }
        assert(self@ =~= Seq::new(self.count as nat, |i: int| 0u8));
    }
}

/// `value`, or `max` if `value` exceeds it.
pub open spec fn clamped(value: u8, max: u8) -> u8 {
    if value > max {
        max
    } else {
        value
    }
}

/// `value + delta`, or `max` if the sum exceeds it.
pub open spec fn add_clamped(value: u8, delta: u8, max: u8) -> u8 {
    if value + delta > max {
        max
    } else {
        (value + delta) as u8
    }
}

/// `value - delta`, or zero if `delta` exceeds `value`.
pub open spec fn sub_clamped(value: u8, delta: u8) -> u8 {
    if value < delta {
        0
    } else {
        (value - delta) as u8
    }
}

/// Counter `i` of `count` counters of `width` bits lies within the first
/// `count * width` bits.
proof fn lemma_cell_span(i: int, count: int, width: int)
    by (nonlinear_arith)
    requires
        0 <= i < count,
        0 <= width,
    ensures
        0 <= i * width,
        i * width + width <= count * width,
{
}

/// Two different counters of the same width share no bit.
proof fn lemma_cells_apart(i: int, j: int, width: int)
    by (nonlinear_arith)
    requires
        0 <= i,
        0 <= j,
        i != j,
        0 <= width,
    ensures
        i * width + width <= j * width || j * width + width <= i * width,
{
}

/// Shifting one to the left by at most eight places gives that power of two.
proof fn lemma_shift_is_pow2(width: u8)
    requires
        width <= 8,
    ensures
        (1u16 << (width as u16)) == pow2(width as nat),
        1 <= pow2(width as nat) <= 256,
{
    lemma2_to64();
    let n = width as u16;
    assert(1u16 << n == if n == 0 {
        1u16
    } else if n == 1 {
        2u16
    } else if n == 2 {
        4u16
    } else if n == 3 {
        8u16
    } else if n == 4 {
        16u16
    } else if n == 5 {
        32u16
    } else if n == 6 {
        64u16
    } else if n == 7 {
        128u16
    } else {
        256u16
    }) by (bit_vector)
        requires
            n <= 8,
    ;
}

} // verus!

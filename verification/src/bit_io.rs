//! Sequential bit-granularity reader and writer over byte buffers.
//!
//! Within each byte, bits are ordered most-significant-bit first; the writer
//! pads the final partial byte with zero bits in the low positions. Every
//! stream format in this crate depends on exactly this ordering.

use vstd::prelude::*;

verus! {

/// The bit of `b` at position `i`, counting the most significant bit as
/// position 0.
pub open spec fn bit_of_byte(b: u8, i: int) -> bool
    recommends
        0 <= i < 8,
{
    (b >> ((7 - i) as u8)) & 1 == 1
}

/// The bits of a whole byte, most significant first.
pub open spec fn byte_bits(b: u8) -> Seq<bool> {
    Seq::new(8, |i: int| bit_of_byte(b, i))
}

/// The bit stream carried by a byte buffer: all bytes in order, each one
/// most-significant-bit first.
pub open spec fn stream_bits(data: Seq<u8>) -> Seq<bool> {
    Seq::new(data.len() * 8, |i: int| bit_of_byte(data[i / 8], i % 8))
}

/// The unsigned value assembled from a bit sequence, most significant
/// bit first.
pub open spec fn value_of_bits(s: Seq<bool>) -> int
    decreases s.len(),
{
    if s.len() == 0 {
        0
    } else {
        value_of_bits(s.drop_last()) * 2 + if s.last() {
            1int
        } else {
            0int
        }
    }
}

/// The low `n` bits of `v`, most significant first.
pub open spec fn bits_of_value(v: u32, n: int) -> Seq<bool>
    decreases n,
{
    if n <= 0 {
        Seq::empty()
    } else {
        bits_of_value(v >> 1u32, n - 1).push(v & 1 == 1)
    }
}

/// A sequence of `n` zero bits, as the writer's final padding produces.
pub open spec fn zero_bits(n: int) -> Seq<bool> {
    Seq::new(if n >= 0 { n as nat } else { 0nat }, |i: int| false)
}

pub proof fn lemma_bits_of_value_len(v: u32, n: int)
    ensures
        bits_of_value(v, n).len() == if n >= 0 { n } else { 0 },
    decreases n,
{
    if n > 0 {
        lemma_bits_of_value_len(v >> 1u32, n - 1);
    }
}

proof fn lemma_shr_chain(v: u32, k: u32)
    by (bit_vector)
    requires
        k < 31,
    ensures
        ((v >> 1u32) >> k) == v >> ((k + 1) as u32),
{
}

proof fn lemma_shr_zero(v: u32)
    by (bit_vector)
    ensures
        (v >> 0u32) == v,
{
}

/// Bit `i` of the `n`-bit encoding of `v` is bit `n - 1 - i` of `v`.
pub proof fn lemma_bits_of_value_index(v: u32, n: int, i: int)
    requires
        0 <= i < n <= 32,
    ensures
        bits_of_value(v, n)[i] == ((v >> ((n - 1 - i) as u32)) & 1 == 1),
    decreases n,
{
    lemma_bits_of_value_len(v, n);
    lemma_bits_of_value_len(v >> 1u32, n - 1);
    if i == n - 1 {
        lemma_shr_zero(v);
        assert(bits_of_value(v, n).last() == (v & 1 == 1));
    } else {
        lemma_bits_of_value_index(v >> 1u32, n - 1, i);
        lemma_shr_chain(v, (n - 2 - i) as u32);
        assert(bits_of_value(v, n)[i] == bits_of_value(v >> 1u32, n - 1)[i]);
    }
}

proof fn lemma_split_bit(v: u32)
    by (bit_vector)
    ensures
        ((v >> 1u32) as int) * 2 + ((v & 1) as int) == v,
        (v & 1 == 1) || (v & 1 == 0),
{
}

proof fn lemma_half_bound(v: u32, n: u32)
    by (bit_vector)
    requires
        1 <= n <= 32,
        (v as u64) < (1u64 << n),
    ensures
        ((v >> 1u32) as u64) < (1u64 << ((n - 1) as u32)),
{
}

/// Encoding a value on `n` bits and assembling those bits again returns the
/// value, provided it fits in `n` bits.
pub proof fn lemma_value_of_bits_of_value(v: u32, n: int)
    requires
        0 <= n <= 32,
        (v as u64) < (1u64 << (n as u32)),
    ensures
        value_of_bits(bits_of_value(v, n)) == v,
    decreases n,
{
    lemma_bits_of_value_len(v, n);
    lemma_bits_of_value_len(v >> 1u32, n - 1);
    if n == 0 {
        assert(v == 0) by (bit_vector)
            requires
                (v as u64) < (1u64 << 0u32),
        ;
    } else {
        lemma_half_bound(v, n as u32);
        lemma_value_of_bits_of_value(v >> 1u32, n - 1);
        let s = bits_of_value(v >> 1u32, n - 1).push(v & 1 == 1);
        assert(s.drop_last() == bits_of_value(v >> 1u32, n - 1));
        lemma_split_bit(v);
    }
}

/// The value assembled from a bit sequence of length `n` fits in `n` bits.
pub proof fn lemma_value_of_bits_bound(s: Seq<bool>)
    requires
        s.len() <= 32,
    ensures
        0 <= value_of_bits(s),
        value_of_bits(s) < (1u64 << (s.len() as u32)) as int,
    decreases s.len(),
{
    if s.len() == 0 {
        assert((1u64 << 0u32) == 1) by (bit_vector);
    } else {
        lemma_value_of_bits_bound(s.drop_last());
        let n = s.len() as u32;
        assert(2 * ((1u64 << ((n - 1) as u32)) as int) == (1u64 << n) as int) by (bit_vector)
            requires
                1 <= n <= 32,
        ;
    }
}

/// Appending one byte to a buffer appends its eight bits to the stream.
pub proof fn lemma_stream_bits_push(data: Seq<u8>, b: u8)
    ensures
        stream_bits(data.push(b)) == stream_bits(data) + byte_bits(b),
{
    let lhs = stream_bits(data.push(b));
    let rhs = stream_bits(data) + byte_bits(b);
    assert(lhs.len() == rhs.len());
    assert forall|i: int| 0 <= i < lhs.len() implies lhs[i] == rhs[i] by {
        let n = data.len() as int;
        if i < n * 8 {
            assert(0 <= i / 8 < n && 0 <= i % 8 < 8) by (nonlinear_arith)
                requires
                    0 <= i < n * 8,
            ;
        } else {
            assert(i / 8 == n && i % 8 == i - n * 8) by (nonlinear_arith)
                requires
                    n * 8 <= i < n * 8 + 8,
            ;
        }
    };
    assert(lhs =~= rhs);
}

proof fn lemma_shl_or_step(r: u32, k: u32, b: bool)
    by (bit_vector)
    requires
        k <= 31,
        (r as u64) < (1u64 << k),
    ensures
        ((r << 1u32) | (if b {
            1u32
        } else {
            0u32
        })) as int == (r as int) * 2 + (if b {
            1int
        } else {
            0int
        }),
        (((r << 1u32) | (if b {
            1u32
        } else {
            0u32
        })) as u64) < (1u64 << ((k + 1) as u32)),
{
}

proof fn lemma_byte_from_bits(x: u8, y: u8)
    by (bit_vector)
    requires
        ((x >> 7u8) & 1 == 1) == ((y >> 7u8) & 1 == 1),
        ((x >> 6u8) & 1 == 1) == ((y >> 6u8) & 1 == 1),
        ((x >> 5u8) & 1 == 1) == ((y >> 5u8) & 1 == 1),
        ((x >> 4u8) & 1 == 1) == ((y >> 4u8) & 1 == 1),
        ((x >> 3u8) & 1 == 1) == ((y >> 3u8) & 1 == 1),
        ((x >> 2u8) & 1 == 1) == ((y >> 2u8) & 1 == 1),
        ((x >> 1u8) & 1 == 1) == ((y >> 1u8) & 1 == 1),
        ((x >> 0u8) & 1 == 1) == ((y >> 0u8) & 1 == 1),
    ensures
        x == y,
{
}

/// Two byte buffers carrying the same bit stream are the same buffer.
pub proof fn lemma_stream_bits_injective(a: Seq<u8>, b: Seq<u8>)
    requires
        stream_bits(a) == stream_bits(b),
    ensures
        a == b,
{
    assert(stream_bits(a).len() == a.len() * 8);
    assert(stream_bits(b).len() == b.len() * 8);
    assert(a.len() * 8 == b.len() * 8);
    assert forall|i: int| 0 <= i < a.len() implies a[i] == b[i] by {
        let x = a[i];
        let y = b[i];
        assert forall|j: int| 0 <= j < 8 implies bit_of_byte(x, j) == bit_of_byte(y, j) by {
            assert((8 * i + j) / 8 == i && (8 * i + j) % 8 == j && 0 <= 8 * i + j < a.len() * 8)
                by (nonlinear_arith)
                requires
                    0 <= j < 8,
                    0 <= i < a.len(),
            ;
            assert(stream_bits(a)[8 * i + j] == bit_of_byte(a[(8 * i + j) / 8], (8 * i + j)
                % 8));
            assert(stream_bits(b)[8 * i + j] == bit_of_byte(b[(8 * i + j) / 8], (8 * i + j)
                % 8));
            assert(stream_bits(a)[8 * i + j] == stream_bits(b)[8 * i + j]);
        };
        assert(bit_of_byte(x, 0) == bit_of_byte(y, 0));
        assert(bit_of_byte(x, 1) == bit_of_byte(y, 1));
        assert(bit_of_byte(x, 2) == bit_of_byte(y, 2));
        assert(bit_of_byte(x, 3) == bit_of_byte(y, 3));
        assert(bit_of_byte(x, 4) == bit_of_byte(y, 4));
        assert(bit_of_byte(x, 5) == bit_of_byte(y, 5));
        assert(bit_of_byte(x, 6) == bit_of_byte(y, 6));
        assert(bit_of_byte(x, 7) == bit_of_byte(y, 7));
        lemma_byte_from_bits(x, y);
    };
    assert(a =~= b);
}

/// The bit a truncated stream yields at position `i`: reads past the end see
/// zero bits.
pub open spec fn bit_at(bits: Seq<bool>, i: int) -> bool {
    if 0 <= i < bits.len() {
        bits[i]
    } else {
        false
    }
}

/// The value an `w`-bit read at position `off` yields: the assembled value,
/// or zero once the stream runs out.
pub open spec fn read_val_at(bits: Seq<bool>, off: int, w: int) -> int {
    if 0 <= off && off + w <= bits.len() {
        value_of_bits(bits.subrange(off, off + w))
    } else {
        0
    }
}

/// The number of zero bits needed to fill a stream of `n` bits up to a whole
/// byte.
pub open spec fn padding_of(n: int) -> int {
    (8 - n % 8) % 8
}

proof fn lemma_or_sets_bit(b: u8, p: u8, i: u8)
    by (bit_vector)
    requires
        p < 8,
        i < 8,
    ensures
        ((b | (1u8 << ((7 - p) as u8))) >> ((7 - i) as u8)) & 1 == (if i == p {
            1u8
        } else {
            (b >> ((7 - i) as u8)) & 1
        }),
{
}

/// Sequential bit writer: accumulates single bits most-significant-bit first
/// into a pending byte, appending it to the output buffer as it fills.
pub struct BitWriter {
    data: Vec<u8>,
    current_byte: u8,
    bit_position: u8,
}

impl BitWriter {
    /// The bits of the pending, not yet completed byte.
    closed spec fn partial_bits(self) -> Seq<bool> {
        Seq::new(self.bit_position as nat, |i: int| bit_of_byte(self.current_byte, i))
    }

    /// Every bit written so far, in order.
    pub closed spec fn bits(self) -> Seq<bool> {
        stream_bits(self.data@) + self.partial_bits()
    }

    pub closed spec fn inv(self) -> bool {
        &&& self.bit_position < 8
        &&& forall|i: int|
            self.bit_position <= i < 8 ==> !bit_of_byte(self.current_byte, i)
    }

    pub fn new() -> (r: Self)
        ensures
            r.inv(),
            r.bits() == Seq::<bool>::empty(),
    {
        let r = Self { data: Vec::new(), current_byte: 0, bit_position: 0 };
        proof {
            assert(r.bits() =~= Seq::<bool>::empty());
            assert forall|i: int| 0 <= i < 8 implies !bit_of_byte(0u8, i) by {
                let iu = i as u8;
                assert((0u8 >> ((7 - iu) as u8)) & 1 == 0) by (bit_vector);
            };
        }
        r
    }

    /// Appends one bit to the stream.
    pub fn write_bit(&mut self, bit: bool)
        requires
            old(self).inv(),
        ensures
            final(self).inv(),
            final(self).bits() == old(self).bits().push(bit),
    {
        let ob: u8 = self.current_byte;
        let p: u8 = self.bit_position;
        let nb: u8 = if bit {
            ob | (1u8 << (7 - p))
        } else {
            ob
        };
        proof {
            assert forall|i: int| 0 <= i < 8 implies bit_of_byte(nb, i) == (if i == p as int {
                bit
            } else {
                bit_of_byte(ob, i)
            }) by {
                let iu = i as u8;
                if bit {
                    lemma_or_sets_bit(ob, p, iu);
                }
            };
        }
        self.current_byte = nb;
        self.bit_position = p + 1;
        if self.bit_position >= 8 {
            proof {
                assert(byte_bits(nb) =~= old(self).partial_bits().push(bit));
                lemma_stream_bits_push(self.data@, nb);
            }
            self.data.push(nb);
            self.current_byte = 0;
            self.bit_position = 0;
            proof {
                assert forall|i: int| 0 <= i < 8 implies !bit_of_byte(0u8, i) by {
                    let iu = i as u8;
                    assert((0u8 >> ((7 - iu) as u8)) & 1 == 0) by (bit_vector);
                };
                assert(self.partial_bits() =~= Seq::<bool>::empty());
                assert(self.bits() =~= old(self).bits().push(bit));
            }
        } else {
            proof {
                assert(self.partial_bits() =~= old(self).partial_bits().push(bit));
                assert(self.bits() =~= old(self).bits().push(bit));
            }
        }
    }

    /// Appends the low `count` bits of `value`, most significant first.
    pub fn write_n_bits(&mut self, count: u32, value: u32)
        requires
            old(self).inv(),
            count <= 32,
        ensures
            final(self).inv(),
            final(self).bits() == old(self).bits() + bits_of_value(value, count as int),
    {
        proof {
            lemma_bits_of_value_len(value, count as int);
        }
        let ghost target = bits_of_value(value, count as int);
        let mut j: u32 = 0;
        while j < count
            invariant
                self.inv(),
                j <= count,
                count <= 32,
                target == bits_of_value(value, count as int),
                target.len() == count,
                self.bits() == old(self).bits() + target.take(j as int),
            decreases count - j,
        {
            let i: u32 = count - 1 - j;
            let bit: bool = ((value >> i) & 1) == 1;
            proof {
                lemma_bits_of_value_index(value, count as int, j as int);
                assert(target.take(j as int).push(target[j as int]) =~= target.take(j as int + 1));
            }
            self.write_bit(bit);
            j = j + 1;
        }
        proof {
            assert(target.take(count as int) =~= target);
        }
    }

    /// Completes the final byte with zero bits in the low positions, if a
    /// partial byte is pending.
    pub fn flush(&mut self)
        requires
            old(self).inv(),
        ensures
            final(self).inv(),
            final(self).bits() == old(self).bits() + zero_bits(padding_of(old(self).bits().len() as int)),
            final(self).bits().len() % 8 == 0,
    {
        let ghost oldlen = self.bits().len() as int;
        proof {
            assert(self.data@.len() * 8 % 8 == 0 && (self.data@.len() * 8 + self.bit_position)
                % 8 == self.bit_position as int) by (nonlinear_arith)
                requires
                    0 <= self.bit_position < 8,
                    0 <= self.data@.len(),
            ;
        }
        if self.bit_position > 0 {
            let nb: u8 = self.current_byte;
            proof {
                assert(byte_bits(nb) =~= old(self).partial_bits() + zero_bits(
                    8 - self.bit_position as int,
                ));
                lemma_stream_bits_push(self.data@, nb);
            }
            self.data.push(nb);
            self.current_byte = 0;
            self.bit_position = 0;
            proof {
                assert forall|i: int| 0 <= i < 8 implies !bit_of_byte(0u8, i) by {
                    let iu = i as u8;
                    assert((0u8 >> ((7 - iu) as u8)) & 1 == 0) by (bit_vector);
                };
                assert(self.partial_bits() =~= Seq::<bool>::empty());
                assert(self.bits() =~= old(self).bits() + zero_bits(padding_of(oldlen)));
                assert(self.data@.len() * 8 % 8 == 0) by (nonlinear_arith);
            }
        } else {
            proof {
                assert(self.bits() =~= old(self).bits() + zero_bits(padding_of(oldlen)));
            }
        }
    }

    /// The number of bytes the stream occupies once flushed.
    pub fn byte_len(&self) -> (r: usize)
        requires
            self.inv(),
            self.bits().len() + 8 <= usize::MAX,
        ensures
            r as int == (self.bits().len() + padding_of(self.bits().len() as int)) / 8,
            r as int * 8 == self.bits().len() + padding_of(self.bits().len() as int),
    {
        proof {
            assert((self.data@.len() * 8 + self.bit_position) % 8 == self.bit_position as int
                && self.data@.len() * 8 + 8 == (self.data@.len() + 1) * 8) by (nonlinear_arith)
                requires
                    0 <= self.bit_position < 8,
                    0 <= self.data@.len(),
            ;
            assert((self.data@.len() * 8) / 8 == self.data@.len() && ((self.data@.len() + 1) * 8)
                / 8 == self.data@.len() + 1) by (nonlinear_arith);
        }
        if self.bit_position > 0 {
            self.data.len() + 1
        } else {
            self.data.len()
        }
    }

    /// Flushes the final partial byte and hands back the completed buffer.
    pub fn finish(self) -> (r: Vec<u8>)
        requires
            self.inv(),
        ensures
            stream_bits(r@) == self.bits() + zero_bits(padding_of(self.bits().len() as int)),
    {
        let mut w = self;
        w.flush();
        proof {
            assert(w.partial_bits() =~= Seq::<bool>::empty());
            assert(stream_bits(w.data@) =~= w.bits());
        }
        w.data
    }
}

/// Sequential bit reader over a borrowed byte buffer: a position that starts
/// at the first (most significant) bit of the first byte and only advances.
pub struct BitReader<'a> {
    data: &'a [u8],
    byte_position: usize,
    bit_position: u8,
}

impl<'a> BitReader<'a> {
    /// The whole bit stream under the reader.
    pub closed spec fn bits(self) -> Seq<bool> {
        stream_bits(self.data@)
    }

    /// The number of bits already consumed.
    pub closed spec fn pos(self) -> int {
        self.byte_position * 8 + self.bit_position
    }

    pub closed spec fn inv(self) -> bool {
        &&& self.bit_position < 8
        &&& self.byte_position <= self.data@.len()
        &&& (self.byte_position == self.data@.len() ==> self.bit_position == 0)
    }

    pub fn new(data: &'a [u8]) -> (r: Self)
        ensures
            r.inv(),
            r.bits() == stream_bits(data@),
            r.pos() == 0,
    {
        Self { data, byte_position: 0, bit_position: 0 }
    }

    /// The position of a well-formed reader stays inside its stream.
    pub proof fn lemma_pos_bounds(self)
        requires
            self.inv(),
        ensures
            0 <= self.pos() <= self.bits().len(),
    {
        assert(self.byte_position * 8 <= self.data@.len() * 8 - 8 || self.byte_position
            == self.data@.len()) by (nonlinear_arith)
            requires
                self.byte_position <= self.data@.len(),
        ;
    }

    /// Reads the next bit, or reports end-of-stream without advancing.
    pub fn read_bit(&mut self) -> (r: Option<bool>)
        requires
            old(self).inv(),
        ensures
            final(self).inv(),
            final(self).bits() == old(self).bits(),
            match r {
                Some(b) => {
                    &&& old(self).pos() < old(self).bits().len()
                    &&& b == old(self).bits()[old(self).pos()]
                    &&& final(self).pos() == old(self).pos() + 1
                },
                None => {
                    &&& old(self).pos() == old(self).bits().len()
                    &&& final(self).pos() == old(self).pos()
                },
            },
    {
        if self.byte_position >= self.data.len() {
            return None;
        }

        let byte: u8 = self.data[self.byte_position];
        let bit: bool = (byte & (1u8 << (7 - self.bit_position))) != 0;

        proof {
            let i = self.bit_position as int;
            let p = self.bit_position;
            assert(((byte & (1u8 << ((7 - p) as u8))) != 0) == ((byte >> ((7 - p) as u8)) & 1
                == 1)) by (bit_vector)
                requires
                    p < 8,
            ;
            assert((self.byte_position * 8 + i) / 8 == self.byte_position as int && (
            self.byte_position * 8 + i) % 8 == i) by (nonlinear_arith)
                requires
                    0 <= i < 8,
                    0 <= self.byte_position,
            ;
            assert(self.byte_position * 8 + 8 <= self.data@.len() * 8) by (nonlinear_arith)
                requires
                    self.byte_position < self.data@.len(),
            ;
        }

        self.bit_position = self.bit_position + 1;
        if self.bit_position >= 8 {
            self.bit_position = 0;
            self.byte_position = self.byte_position + 1;
        }

        Some(bit)
    }

    /// Reads `count` bits and assembles them most-significant-bit first, or
    /// reports end-of-stream if the stream runs out first.
    pub fn read_n_bits(&mut self, count: u32) -> (r: Option<u32>)
        requires
            old(self).inv(),
            count <= 32,
        ensures
            final(self).inv(),
            final(self).bits() == old(self).bits(),
            match r {
                Some(v) => {
                    &&& old(self).pos() + count <= old(self).bits().len()
                    &&& final(self).pos() == old(self).pos() + count
                    &&& v as int == value_of_bits(
                        old(self).bits().subrange(old(self).pos(), old(self).pos() + count),
                    )
                },
                None => {
                    &&& old(self).pos() + count > old(self).bits().len()
                    &&& final(self).pos() == old(self).bits().len()
                },
            },
    {
        let mut result: u32 = 0;
        let ghost start = self.pos();
        let mut k: u32 = 0;
        proof {
            assert((0u32 as u64) < (1u64 << 0u32)) by (bit_vector);
        }
        while k < count
            invariant
                self.inv(),
                k <= count,
                count <= 32,
                self.bits() == old(self).bits(),
                start == old(self).pos(),
                self.pos() == start + k,
                result as int == value_of_bits(self.bits().subrange(start, start + k)),
                (result as u64) < (1u64 << k),
            decreases count - k,
        {
            let bit: bool = match self.read_bit() {
                Some(b) => b,
                None => {
                    return None;
                },
            };
            proof {
                let s = self.bits().subrange(start, start + k);
                let s2 = self.bits().subrange(start, start + k + 1);
                assert(s2.drop_last() == s);
                assert(s2.last() == self.bits()[start + k]);
                lemma_shl_or_step(result, k, bit);
            }
            result = (result << 1u32) | (if bit {
                1u32
            } else {
                0u32
            });
            k = k + 1;
        }
        Some(result)
    }
}

} // verus!

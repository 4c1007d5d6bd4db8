use vstd::prelude::*;
use vstd::arithmetic::power2::{
    pow2, lemma_pow2_adds, lemma_pow2_pos, lemma_pow2_strictly_increases, lemma2_to64,
    lemma2_to64_rest,
};
use vstd::arithmetic::div_mod::lemma_fundamental_div_mod;
use vstd::bits::{lemma_u32_shl_is_mul, lemma_u64_shl_is_mul};

use crate::error::DemoError;

verus! {

/// Largest byte buffer the cursors accept: the bit offset of any
/// position, plus the widest single read, must fit `usize` even on a
/// 32-bit machine.
pub const MAX_BUF_BYTES: usize = 0x1FFF_FFF0;

/// The bit at absolute position `i` of the byte string `data`,
/// bits numbered least-significant first within each byte.
pub open spec fn bit_at(data: Seq<u8>, i: int) -> bool {
    (data[i / 8] >> ((i % 8) as u8)) & 1u8 == 1u8
}

/// The `n` bits of `data` starting at bit position `off`, in stream order.
pub open spec fn bits_seq(data: Seq<u8>, off: int, n: nat) -> Seq<bool> {
    Seq::new(n, |k: int| bit_at(data, off + k))
}

/// The unsigned integer denoted by a bit string, least-significant bit first.
pub open spec fn decode_bits(bs: Seq<bool>) -> nat
    decreases bs.len(),
{
    if bs.len() == 0 {
        0
    } else {
        (if bs[0] { 1nat } else { 0nat }) + 2 * decode_bits(bs.skip(1))
    }
}

/// The `n`-bit little-endian-bit string of `v % pow2(n)`.
pub open spec fn encode_bits(v: nat, n: nat) -> Seq<bool>
    decreases n,
{
    if n == 0 {
        Seq::empty()
    } else {
        seq![v % 2 == 1].add(encode_bits(v / 2, (n - 1) as nat))
    }
}

/// An encoding has exactly the width it was asked for.
pub proof fn lemma_encode_len(v: nat, n: nat)
    ensures
        encode_bits(v, n).len() == n,
    decreases n,
{
    if n > 0 {
        lemma_encode_len(v / 2, (n - 1) as nat);
    }
}

/// A decoded bit string is bounded by the power of two of its width.
pub proof fn lemma_decode_bound(bs: Seq<bool>)
    ensures
        decode_bits(bs) < pow2(bs.len()),
    decreases bs.len(),
{
    if bs.len() == 0 {
        lemma_pow2_pos(0);
    } else {
        lemma_decode_bound(bs.skip(1));
        lemma_pow2_adds(1, (bs.len() - 1) as nat);
        lemma2_to64();
    }
}

/// Appending one bit at the top adds its place value.
pub proof fn lemma_decode_push(bs: Seq<bool>, b: bool)
    ensures
        decode_bits(bs.push(b)) == decode_bits(bs) + (if b {
            pow2(bs.len())
        } else {
            0
        }),
    decreases bs.len(),
{
    if bs.len() == 0 {
        assert(bs.push(b).skip(1) =~= Seq::<bool>::empty());
        assert(decode_bits(Seq::<bool>::empty()) == 0);
        lemma2_to64();
    } else {
        assert(bs.push(b).skip(1) =~= bs.skip(1).push(b));
        lemma_decode_push(bs.skip(1), b);
        lemma_pow2_adds(1, (bs.len() - 1) as nat);
        lemma2_to64();
        assert(decode_bits(bs.push(b)) == (if bs.push(b)[0] {
            1nat
        } else {
            0nat
        }) + 2 * decode_bits(bs.skip(1).push(b)));
    }
}

/// Round trip at the level of the model: decoding the `n`-bit encoding of
/// `v` gives `v` back, for every width `n` and every `v` that fits in it.
pub proof fn lemma_bits_round_trip(v: nat, n: nat)
    requires
        v < pow2(n),
    ensures
        decode_bits(encode_bits(v, n)) == v,
    decreases n,
{
    if n == 0 {
        lemma2_to64();
    } else {
        let tail = encode_bits(v / 2, (n - 1) as nat);
        assert(encode_bits(v, n).skip(1) =~= tail);
        assert(v / 2 < pow2((n - 1) as nat)) by {
            lemma_pow2_adds(1, (n - 1) as nat);
            lemma2_to64();
        };
        lemma_bits_round_trip(v / 2, (n - 1) as nat);
    }
}

/// Each bit of the encoding is the matching binary digit of the value.
pub proof fn lemma_encode_index(v: nat, n: nat, k: int)
    requires
        0 <= k < n,
    ensures
        encode_bits(v, n)[k] == ((v / pow2(k as nat)) % 2 == 1),
    decreases n,
{
    if k == 0 {
        lemma2_to64();
        vstd::arithmetic::div_mod::lemma_div_basics(v as int);
        assert(encode_bits(v, n)[0] == (v % 2 == 1));
    } else {
        lemma_encode_index(v / 2, (n - 1) as nat, k - 1);
        lemma_encode_len(v / 2, (n - 1) as nat);
        assert(encode_bits(v, n) == seq![v % 2 == 1].add(encode_bits(v / 2, (n - 1) as nat)));
        vstd::seq::axiom_seq_add_index2(
            seq![v % 2 == 1],
            encode_bits(v / 2, (n - 1) as nat),
            k,
        );
        assert(encode_bits(v, n)[k] == encode_bits(v / 2, (n - 1) as nat)[k - 1]);
        assert(pow2(k as nat) == 2 * pow2((k - 1) as nat)) by {
            lemma_pow2_adds(1, (k - 1) as nat);
            lemma2_to64();
        };
        assert(v / 2 / pow2((k - 1) as nat) == v / (2 * pow2((k - 1) as nat))) by {
            lemma_pow2_pos((k - 1) as nat);
            vstd::arithmetic::div_mod::lemma_div_denominator(v as int, 2, pow2((k - 1) as nat) as int);
        };
    }
}

/// The byte denoted by the eight bits of `data` starting at `off`.
pub open spec fn byte_at(data: Seq<u8>, off: int) -> nat {
    decode_bits(bits_seq(data, off, 8))
}

/// The `count` bytes of `data` starting at bit `off`.
pub open spec fn bytes_at(data: Seq<u8>, off: int, count: nat) -> Seq<u8> {
    Seq::new(count, |j: int| byte_at(data, off + 8 * j) as u8)
}

/// `nbits` bits of `data` starting at `off`, packed into bytes with a
/// zero-padded final partial byte.
pub open spec fn packed_bits(data: Seq<u8>, off: int, nbits: nat) -> Seq<u8> {
    Seq::new(
        ((nbits + 7) / 8) as nat,
        |j: int|
            if j < nbits as int / 8 {
                byte_at(data, off + 8 * j) as u8
            } else {
                decode_bits(bits_seq(data, off + 8 * j, (nbits % 8) as nat)) as u8
            },
    )
}

/// Outcome of decoding one variable-width field of the wire format:
/// a value together with the number of bits it occupied, or the reason
/// no value is denoted at that position.
pub enum Decoded {
    /// A value is denoted, occupying `bits` bits.
    Val { value: nat, bits: nat },
    /// The buffer ends before the field does.
    Trunc,
    /// The bits violate the encoding's structural rules.
    Malformed,
}

/// The base-128 varint starting at bit `off`: each byte carries seven
/// low-order payload bits, the high bit says whether another byte follows,
/// and at most `max_groups` bytes are accepted.
pub open spec fn varint_groups(data: Seq<u8>, off: int, max_groups: nat) -> Decoded
    decreases max_groups,
{
    if max_groups == 0 {
        Decoded::Malformed
    } else if off + 8 > data.len() * 8 {
        Decoded::Trunc
    } else {
        let b = byte_at(data, off);
        if b < 128 {
            Decoded::Val { value: b, bits: 8 }
        } else {
            match varint_groups(data, off + 8, (max_groups - 1) as nat) {
                Decoded::Val { value, bits } => Decoded::Val {
                    value: (b - 128) as nat + 128 * value,
                    bits: bits + 8,
                },
                Decoded::Trunc => Decoded::Trunc,
                Decoded::Malformed => Decoded::Malformed,
            }
        }
    }
}

/// Caps a decoded value: one that does not fit the declared range is a
/// structural violation, not a value.
pub open spec fn bounded(d: Decoded, limit: nat) -> Decoded {
    match d {
        Decoded::Val { value, bits } => if value < limit {
            d
        } else {
            Decoded::Malformed
        },
        _ => d,
    }
}

/// The 32-bit varint denoted at bit `off` of `data`, if any.
pub open spec fn varint32_at(data: Seq<u8>, off: int) -> Decoded {
    bounded(varint_groups(data, off, 5), pow2(32))
}

/// The 64-bit varint denoted at bit `off` of `data`, if any.
pub open spec fn varint64_at(data: Seq<u8>, off: int) -> Decoded {
    bounded(varint_groups(data, off, 10), pow2(64))
}

/// The self-describing small-integer field at bit `off`: a six-bit header
/// whose top two bits select 0, 4, 8 or 28 further bits, which extend the
/// header's low four bits upward.
pub open spec fn ubitvar_at(data: Seq<u8>, off: int) -> Decoded {
    if off + 6 > data.len() * 8 {
        Decoded::Trunc
    } else {
        let hdr = decode_bits(bits_seq(data, off, 6));
        let sel = hdr / 16;
        let base = hdr % 16;
        if sel == 0 {
            Decoded::Val { value: base, bits: 6 }
        } else {
            let extra: nat = if sel == 1 {
                4
            } else if sel == 2 {
                8
            } else {
                28
            };
            if off + 6 + extra > data.len() * 8 {
                Decoded::Trunc
            } else {
                Decoded::Val {
                    value: base + 16 * decode_bits(bits_seq(data, off + 6, extra)),
                    bits: 6 + extra,
                }
            }
        }
    }
}

/// Splices a partially-accumulated varint prefix of `i` groups and value
/// `acc` onto the decoding of the remaining groups.
pub open spec fn vg_extend(acc: nat, i: nat, d: Decoded) -> Decoded {
    match d {
        Decoded::Val { value, bits } => Decoded::Val {
            value: acc + value * pow2(7 * i),
            bits: bits + 8 * i,
        },
        _ => d,
    }
}

/// One accumulated varint group commutes with the spec's top-down
/// composition: absorbing the next seven payload bits into the running
/// value is the same as splicing them onto the remaining groups.
proof fn lemma_vg_shift(acc: nat, low: nat, k: nat, inner: Decoded)
    requires
        low < 128,
    ensures
        vg_extend(acc + low * pow2(7 * k), k + 1, inner) == vg_extend(
            acc,
            k,
            match inner {
                Decoded::Val { value, bits } => Decoded::Val {
                    value: low + 128 * value,
                    bits: bits + 8,
                },
                Decoded::Trunc => Decoded::Trunc,
                Decoded::Malformed => Decoded::Malformed,
            },
        ),
{
    match inner {
        Decoded::Val { value, bits } => {
            lemma_pow2_adds(7 * k, 7);
            lemma2_to64();
            assert(7 * (k + 1) == 7 * k + 7);
            assert((low + 128 * value) * pow2(7 * k) == low * pow2(7 * k) + value * (128 * pow2(
                7 * k,
            ))) by (nonlinear_arith);
        },
        _ => {},
    }
}

/// Bound kept by the varint loop: the running value stays under the
/// place value of the next group.
proof fn lemma_vg_acc_bound(acc: nat, low: nat, k: nat)
    requires
        low < 128,
        acc < pow2(7 * k),
    ensures
        acc + low * pow2(7 * k) < pow2(7 * (k + 1)),
{
    lemma_pow2_adds(7 * k, 7);
    lemma2_to64();
    lemma_pow2_pos(7 * k);
    assert(7 * (k + 1) == 7 * k + 7);
    assert(low * pow2(7 * k) <= 127 * pow2(7 * k)) by (nonlinear_arith)
        requires
            low <= 127,
            pow2(7 * k) > 0,
    ;
}

/// Bits below `lo` agree between two buffers, so any bit window that
/// ends below `lo` denotes the same bit string in both.
pub proof fn lemma_bits_seq_stable(pre: Seq<u8>, post: Seq<u8>, lo: int, p: int, n: nat)
    requires
        forall|i: int| 0 <= i < lo ==> bit_at(post, i) == bit_at(pre, i),
        0 <= p,
        p + n <= lo,
    ensures
        bits_seq(post, p, n) == bits_seq(pre, p, n),
{
    assert(bits_seq(post, p, n) =~= bits_seq(pre, p, n));
}

/// Setting one clear bit of one byte changes that bit alone.
proof fn lemma_set_bit_effect(pre: Seq<u8>, post: Seq<u8>, idx: int, r: u8, bit: u8)
    requires
        0 <= idx < pre.len(),
        r < 8,
        bit <= 1,
        post == pre.update(idx, (pre[idx] | (bit << r)) as u8),
        !bit_at(pre, idx * 8 + r),
    ensures
        post.len() == pre.len(),
        forall|i: int|
            0 <= i < pre.len() * 8 && i != idx * 8 + r ==> bit_at(post, i) == bit_at(pre, i),
        bit_at(post, idx * 8 + r) == (bit == 1),
{
    let b = pre[idx];
    let nb = (b | (bit << r)) as u8;
    assert((b >> r) & 1 <= 1) by (bit_vector);
    assert((b >> r) & 1 == 0 ==> ((b | (bit << r)) >> r) & 1 == bit) by (bit_vector)
        requires
            r < 8,
            bit <= 1,
    ;
    assert((idx * 8 + r) / 8 == idx && (idx * 8 + r) % 8 == r as int) by (nonlinear_arith)
        requires
            0 <= idx && r < 8,
    ;
    assert forall|i: int|
        0 <= i < pre.len() * 8 && i != idx * 8 + r implies bit_at(post, i) == bit_at(pre, i) by {
        let bi = i / 8;
        let br = i % 8;
        lemma_fundamental_div_mod(i, 8);
        if bi == idx {
            let j = br as u8;
            assert(j != r);
            assert(j < 8);
            assert(((b | (bit << r)) >> j) & 1 == (b >> j) & 1) by (bit_vector)
                requires
                    j < 8,
                    r < 8,
                    j != r,
                    bit <= 1,
            ;
        }
    }
}

/// The number of bytes in the base-128 varint encoding of `v`.
pub open spec fn varint_len(v: nat) -> nat
    decreases v,
{
    if v < 128 {
        1
    } else {
        1 + varint_len(v / 128)
    }
}

/// Every value below `pow2(7 * g)` encodes in at most `g` varint bytes.
pub proof fn lemma_varint_len_bound(v: nat, g: nat)
    requires
        g >= 1,
        v < pow2(7 * g),
    ensures
        varint_len(v) <= g,
    decreases g,
{
    if v < 128 {
    } else {
        lemma_pow2_adds(7, 7 * (g - 1) as nat);
        lemma2_to64();
        assert(7 * g == 7 + 7 * (g - 1));
        assert(v / 128 < pow2(7 * (g - 1) as nat)) by (nonlinear_arith)
            requires
                v < 128 * pow2(7 * (g - 1) as nat),
        ;
        lemma_varint_len_bound(v / 128, (g - 1) as nat);
    }
}

/// A varint that decodes inside a group budget decodes the same way
/// inside any larger budget.
pub proof fn lemma_varint_budget(d: Seq<u8>, off: int, g1: nat, g2: nat)
    requires
        g1 <= g2,
        varint_groups(d, off, g1) is Val,
    ensures
        varint_groups(d, off, g2) == varint_groups(d, off, g1),
    decreases g1,
{
    if g1 == 0 {
    } else if off + 8 > d.len() * 8 {
    } else {
        let b = byte_at(d, off);
        if b < 128 {
        } else {
            assert(varint_groups(d, off + 8, (g1 - 1) as nat) is Val);
            lemma_varint_budget(d, off + 8, (g1 - 1) as nat, (g2 - 1) as nat);
        }
    }
}

/// An exact-position writer that appends bit fields to a growing byte
/// buffer; the mirror of `BitReader`, used to produce the same wire
/// format the readers consume.
pub struct BitWriter {
    data: Vec<u8>,
    bit_len: usize,
}

impl BitWriter {
    /// The bytes produced so far, as the model sees them.
    pub closed spec fn sdata(&self) -> Seq<u8> {
        self.data@
    }

    /// How many bits have been written.
    pub closed spec fn sbits(&self) -> nat {
        self.bit_len as nat
    }

    /// Writer invariant: the last byte is partial by fewer than eight
    /// bits and every bit past the write position is still clear.
    pub closed spec fn wf(&self) -> bool {
        &&& self.bit_len <= self.data@.len() * 8 < self.bit_len + 8
        &&& self.data@.len() <= MAX_BUF_BYTES
        &&& forall|i: int|
            self.bit_len <= i < self.data@.len() * 8 ==> !bit_at(self.data@, i)
    }

    pub fn new() -> (r: Self)
        ensures
            r.wf(),
            r.sbits() == 0,
            r.sdata().len() == 0,
    {
        BitWriter { data: Vec::new(), bit_len: 0 }
    }

    /// Gives the finished buffer up, whole bytes with a zero-padded
    /// tail: every written bit is inside the returned buffer, which is
    /// exactly long enough to hold them.
    pub fn into_bytes(self) -> (r: Vec<u8>)
        requires
            self.wf(),
        ensures
            r@ == self.sdata(),
            r@.len() <= MAX_BUF_BYTES,
            self.sbits() <= 8 * r@.len() < self.sbits() + 8,
    {
        self.data
    }

    /// Appends the `n`-bit encoding of `v`, least-significant bit first.
    pub fn write_bits(&mut self, v: u32, n: usize) -> (r: Result<(), DemoError>)
        requires
            old(self).wf(),
            n <= 32,
            (v as nat) < pow2(n as nat),
        ensures
            final(self).wf(),
            r is Ok <==> old(self).sbits() + n <= 8 * MAX_BUF_BYTES,
            r is Err ==> *final(self) == *old(self),
            r is Ok ==> {
                &&& final(self).sbits() == old(self).sbits() + n
                &&& forall|i: int|
                    0 <= i < old(self).sbits() ==> bit_at(final(self).sdata(), i) == bit_at(
                        old(self).sdata(),
                        i,
                    )
                &&& bits_seq(final(self).sdata(), old(self).sbits() as int, n as nat)
                    == encode_bits(v as nat, n as nat)
                &&& decode_bits(
                    bits_seq(final(self).sdata(), old(self).sbits() as int, n as nat),
                ) == v as nat
            },
    {
        if n > 8 * MAX_BUF_BYTES - self.bit_len {
            return Err(DemoError::Truncated);
        }
        let ghost start = self.bit_len as nat;
        let ghost pre = self.data@;
        let mut k: usize = 0;
        while k < n
            invariant
                self.wf(),
                k <= n,
                n <= 32,
                start == old(self).sbits(),
                pre == old(self).sdata(),
                (v as nat) < pow2(n as nat),
                self.bit_len == start + k,
                start + n <= 8 * MAX_BUF_BYTES,
                forall|i: int| 0 <= i < start ==> bit_at(self.data@, i) == bit_at(pre, i),
                forall|j: int|
                    0 <= j < k ==> bit_at(self.data@, start + j) == encode_bits(
                        v as nat,
                        n as nat,
                    )[j],
            decreases n - k,
        {
            if self.bit_len == self.data.len() * 8 {
                let ghost before = self.data@;
                self.data.push(0u8);
                proof {
                    assert forall|i: int| 0 <= i < before.len() * 8 implies bit_at(
                        self.data@,
                        i,
                    ) == bit_at(before, i) by {
                        lemma_fundamental_div_mod(i, 8);
                    }
                    assert forall|i: int|
                        before.len() * 8 <= i < self.data@.len() * 8 implies !bit_at(
                        self.data@,
                        i,
                    ) by {
                        lemma_fundamental_div_mod(i, 8);
                        let sh = (i % 8) as u8;
                        assert((0u8 >> sh) & 1 == 0) by (bit_vector);
                    }
                }
            }
            let idx = self.bit_len / 8;
            let r8 = self.bit_len % 8;
            let bitv: u8 = ((v >> (k as u32)) & 1) as u8;
            proof {
                assert((v >> (k as u32)) & 1 <= 1) by (bit_vector);
                lemma_fundamental_div_mod(self.bit_len as int, 8);
            }
            let ghost mid = self.data@;
            let cur = self.data[idx];
            self.data.set(idx, cur | (bitv << (r8 as u8)));
            proof {
                assert(idx * 8 + r8 == self.bit_len);
                lemma_set_bit_effect(mid, self.data@, idx as int, r8 as u8, bitv);
                lemma_encode_index(v as nat, n as nat, k as int);
                vstd::bits::lemma_u32_shr_is_div(v, k as u32);
                assert((v >> (k as u32)) & 1 == (v >> (k as u32)) % 2) by (bit_vector);
                assert(bit_at(self.data@, start + k) == (bitv == 1));
            }
            self.bit_len = self.bit_len + 1;
            k = k + 1;
        }
        proof {
            lemma_encode_len(v as nat, n as nat);
            assert(bits_seq(self.data@, start as int, n as nat) =~= encode_bits(
                v as nat,
                n as nat,
            ));
            lemma_bits_round_trip(v as nat, n as nat);
        }
        Ok(())
    }

    /// Appends one bit.
    pub fn write_bool(&mut self, b: bool) -> (r: Result<(), DemoError>)
        requires
            old(self).wf(),
        ensures
            final(self).wf(),
            r is Ok <==> old(self).sbits() + 1 <= 8 * MAX_BUF_BYTES,
            r is Err ==> *final(self) == *old(self),
            r is Ok ==> {
                &&& final(self).sbits() == old(self).sbits() + 1
                &&& forall|i: int|
                    0 <= i < old(self).sbits() ==> bit_at(final(self).sdata(), i) == bit_at(
                        old(self).sdata(),
                        i,
                    )
                &&& bit_at(final(self).sdata(), old(self).sbits() as int) == b
            },
    {
        let ghost start = self.sbits();
        proof {
            lemma2_to64();
        }
        let r = self.write_bits(if b { 1 } else { 0 }, 1);
        proof {
            if r is Ok {
                assert(bits_seq(self.data@, start as int, 1)[0] == bit_at(
                    self.data@,
                    start as int,
                ));
                assert(encode_bits(if b { 1nat } else { 0nat }, 1)[0] == b);
            }
        }
        r
    }

    /// Appends whole bytes, each as eight bits.
    pub fn write_bytes(&mut self, bytes: &Vec<u8>) -> (r: Result<(), DemoError>)
        requires
            old(self).wf(),
        ensures
            final(self).wf(),
            r is Ok ==> {
                &&& final(self).sbits() == old(self).sbits() + 8 * bytes@.len()
                &&& forall|i: int|
                    0 <= i < old(self).sbits() ==> bit_at(final(self).sdata(), i) == bit_at(
                        old(self).sdata(),
                        i,
                    )
                &&& forall|j: int|
                    0 <= j < bytes@.len() ==> byte_at(
                        final(self).sdata(),
                        old(self).sbits() + 8 * j,
                    ) == bytes@[j] as nat
            },
    {
        let ghost start = self.sbits();
        let ghost pre = self.data@;
        let mut j: usize = 0;
        proof {
            lemma2_to64();
        }
        while j < bytes.len()
            invariant
                self.wf(),
                j <= bytes@.len(),
                start == old(self).sbits(),
                pre == old(self).sdata(),
                self.sbits() == start + 8 * j,
                forall|i: int| 0 <= i < start ==> bit_at(self.data@, i) == bit_at(pre, i),
                forall|jj: int|
                    0 <= jj < j ==> byte_at(self.data@, start + 8 * jj) == bytes@[jj] as nat,
            decreases bytes@.len() - j,
        {
            let ghost mid = self.data@;
            let b = bytes[j];
            proof {
                lemma2_to64();
            }
            match self.write_bits(b as u32, 8) {
                Ok(()) => {},
                Err(e) => {
                    return Err(e);
                },
            }
            proof {
                assert forall|jj: int| 0 <= jj < j implies byte_at(self.data@, start + 8 * jj)
                    == bytes@[jj] as nat by {
                    lemma_bits_seq_stable(
                        mid,
                        self.data@,
                        (start + 8 * j) as int,
                        start + 8 * jj,
                        8,
                    );
                }
            }
            j = j + 1;
        }
        Ok(())
    }

    /// Appends the base-128 varint encoding of `v`; `read_varint32`
    /// recovers exactly `v` from the written position.
    pub fn write_varint32(&mut self, v: u32) -> (r: Result<(), DemoError>)
        requires
            old(self).wf(),
            old(self).sbits() + 8 * varint_len(v as nat) <= 8 * MAX_BUF_BYTES,
        ensures
            final(self).wf(),
            r is Ok,
            final(self).sbits() == old(self).sbits() + 8 * varint_len(v as nat),
            forall|i: int|
                0 <= i < old(self).sbits() ==> bit_at(final(self).sdata(), i) == bit_at(
                    old(self).sdata(),
                    i,
                ),
            varint32_at(final(self).sdata(), old(self).sbits() as int) == (Decoded::Val {
                value: v as nat,
                bits: 8 * varint_len(v as nat),
            }),
            varint_groups(final(self).sdata(), old(self).sbits() as int, varint_len(v as nat))
                == (Decoded::Val { value: v as nat, bits: 8 * varint_len(v as nat) }),
        decreases v,
    {
        let ghost start = self.sbits();
        proof {
            lemma2_to64();
        }
        if v < 128 {
            let r = self.write_bits(v, 8);
            proof {
                assert(r is Ok);
                assert(byte_at(self.data@, start as int) == v as nat);
                assert(start as int + 8 <= self.data@.len() * 8);
                lemma_varint_budget(self.data@, start as int, 1, 5);
                lemma_pow2_strictly_increases(7, 32);
            }
            Ok(())
        } else {
            let b0 = (v & 0x7f) | 0x80;
            proof {
                assert((v & 0x7f) | 0x80 < 256) by (bit_vector);
                assert(varint_len(v as nat) == 1 + varint_len((v as nat) / 128));
                assert((v >> 7u32) as nat == (v as nat) / 128) by {
                    vstd::bits::lemma_u32_shr_is_div(v, 7u32);
                    lemma2_to64();
                };
            }
            let r0 = self.write_bits(b0, 8);
            let ghost mid = self.data@;
            proof {
                assert(r0 is Ok);
            }
            let r1 = self.write_varint32(v >> 7u32);
            proof {
                assert(r1 is Ok);
                lemma_bits_seq_stable(
                    mid,
                    self.data@,
                    (start + 8) as int,
                    start as int,
                    8,
                );
                assert(byte_at(self.data@, start as int) == b0 as nat);
                assert(b0 as nat >= 128) by (bit_vector)
                    requires
                        b0 == (v & 0x7f) | 0x80,
                ;
                let rest = varint_groups(
                    self.data@,
                    start as int + 8,
                    varint_len((v as nat) / 128),
                );
                assert(rest == Decoded::Val {
                    value: ((v >> 7u32) as nat),
                    bits: 8 * varint_len((v as nat) / 128),
                });
                assert(varint_groups(self.data@, start as int, varint_len(v as nat))
                    == Decoded::Val {
                    value: ((b0 as nat - 128) + 128 * ((v >> 7u32) as nat)) as nat,
                    bits: 8 * varint_len(v as nat),
                });
                assert((b0 & 0x7f) + 128 * (v >> 7u32) == v) by (bit_vector)
                    requires
                        b0 == (v & 0x7f) | 0x80,
                ;
                assert((b0 & 0x7f) + 128 == b0) by (bit_vector)
                    requires
                        b0 == (v & 0x7f) | 0x80,
                ;
                lemma2_to64();
                lemma2_to64_rest();
                lemma_varint_len_bound(v as nat, 5);
                lemma_varint_budget(
                    self.data@,
                    start as int,
                    varint_len(v as nat),
                    5,
                );
                lemma_decode_bound(bits_seq(self.data@, start as int, 32));
                lemma2_to64();
                lemma2_to64_rest();
            }
            Ok(())
        }
    }

    /// Appends the self-describing small-integer encoding of `v`, using
    /// the narrowest of the four selector widths that holds it.
    pub fn write_ubitvar(&mut self, v: u32) -> (r: Result<(), DemoError>)
        requires
            old(self).wf(),
            old(self).sbits() + 34 <= 8 * MAX_BUF_BYTES,
        ensures
            final(self).wf(),
            r is Ok,
            forall|i: int|
                0 <= i < old(self).sbits() ==> bit_at(final(self).sdata(), i) == bit_at(
                    old(self).sdata(),
                    i,
                ),
            ubitvar_at(final(self).sdata(), old(self).sbits() as int) matches Decoded::Val {
                value,
                bits,
            } && value == v as nat && final(self).sbits() == old(self).sbits() + bits,
    {
        let ghost start = self.sbits();
        proof {
            lemma2_to64();
        }
        if v < 16 {
            let r = self.write_bits(v, 6);
            proof {
                assert(r is Ok);
                let hdr = decode_bits(bits_seq(self.data@, start as int, 6));
                assert(hdr == v as nat);
            }
            return Ok(());
        }
        let base = v & 0x0f;
        let rest = v >> 4u32;
        proof {
            assert(base < 16 && base + 16 * rest == v && rest == v / 16) by (bit_vector)
                requires
                    base == v & 0x0f && rest == v >> 4u32,
            ;
        }
        let (sel, extra): (u32, usize) = if rest < 16 {
            (1, 4)
        } else if rest < 256 {
            (2, 8)
        } else {
            (3, 28)
        };
        let hdr = sel * 16 + base;
        proof {
            lemma2_to64();
            assert(rest < 0x10000000) by (bit_vector)
                requires
                    rest == v >> 4u32,
            ;
        }
        let r0 = self.write_bits(hdr, 6);
        let ghost mid = self.data@;
        proof {
            assert(r0 is Ok);
        }
        let r1 = self.write_bits(rest, extra);
        proof {
            assert(r1 is Ok);
            lemma_bits_seq_stable(mid, self.data@, (start + 6) as int, start as int, 6);
            let h = decode_bits(bits_seq(self.data@, start as int, 6));
            assert(h == hdr as nat);
            assert(h / 16 == sel as nat && h % 16 == base as nat);
            assert(decode_bits(
                bits_seq(self.data@, start as int + 6, extra as nat),
            ) == rest as nat);
        }
        Ok(())
    }
}

/// An exact-position reader over a byte buffer. The offset is counted in
/// bits, never exceeds the buffer's bit length, and every read either
/// advances it or reports an error and leaves the cursor untouched.
pub struct BitReader<'a> {
    data: &'a Vec<u8>,
    off: usize,
}

impl<'a> BitReader<'a> {
    /// The underlying bytes, as the model sees them.
    pub closed spec fn sdata(&self) -> Seq<u8> {
        self.data@
    }

    /// The cursor's position, in bits from the start of the buffer.
    pub closed spec fn soff(&self) -> nat {
        self.off as nat
    }

    /// Cursor invariant: the position stays inside the (bounded) buffer.
    pub closed spec fn wf(&self) -> bool {
        &&& self.off <= self.data@.len() * 8
        &&& self.data@.len() <= MAX_BUF_BYTES
    }

    /// The invariant bounds, for callers that hold a reader abstractly.
    pub proof fn lemma_wf_bounds(&self)
        requires
            self.wf(),
        ensures
            self.soff() <= self.sdata().len() * 8,
            self.sdata().len() <= MAX_BUF_BYTES,
    {
    }

    pub fn new(data: &'a Vec<u8>) -> (r: Self)
        requires
            data@.len() <= MAX_BUF_BYTES,
        ensures
            r.wf(),
            r.sdata() == data@,
            r.soff() == 0,
    {
        BitReader { data, off: 0 }
    }

    /// The cursor's current bit position.
    pub fn pos(&self) -> (r: usize)
        ensures
            r == self.soff(),
    {
        self.off
    }

    /// Repositions the cursor; the container layer re-seeks when it
    /// skips a command.
    pub fn seek(&mut self, pos: usize) -> (r: Result<(), DemoError>)
        requires
            old(self).wf(),
        ensures
            final(self).wf(),
            final(self).sdata() == old(self).sdata(),
            match r {
                Ok(()) => {
                    &&& pos <= old(self).sdata().len() * 8
                    &&& final(self).soff() == pos
                },
                Err(e) => {
                    &&& e == DemoError::Truncated
                    &&& pos > old(self).sdata().len() * 8
                    &&& final(self).soff() == old(self).soff()
                },
            },
    {
        if pos > self.data.len() * 8 {
            return Err(DemoError::Truncated);
        }
        self.off = pos;
        Ok(())
    }

    /// How many bits remain between the cursor and the end of the buffer.
    pub fn bits_left(&self) -> (r: usize)
        requires
            self.wf(),
        ensures
            r == self.sdata().len() * 8 - self.soff(),
    {
        self.data.len() * 8 - self.off
    }

    /// Reads `n <= 32` bits as an integer, least-significant bit first.
    /// Fails with `Truncated`, moving nothing, when fewer bits remain.
    pub fn read_bits(&mut self, n: usize) -> (r: Result<u32, DemoError>)
        requires
            old(self).wf(),
            n <= 32,
        ensures
            final(self).wf(),
            final(self).sdata() == old(self).sdata(),
            match r {
                Ok(v) => {
                    &&& old(self).soff() + n <= old(self).sdata().len() * 8
                    &&& final(self).soff() == old(self).soff() + n
                    &&& v as nat == decode_bits(
                        bits_seq(old(self).sdata(), old(self).soff() as int, n as nat),
                    )
                    &&& (v as nat) < pow2(n as nat)
                },
                Err(e) => {
                    &&& e == DemoError::Truncated
                    &&& old(self).soff() + n > old(self).sdata().len() * 8
                    &&& final(self).soff() == old(self).soff()
                },
            },
    {
        if n > self.data.len() * 8 - self.off {
            return Err(DemoError::Truncated);
        }
        let ghost d = self.data@;
        let start = self.off;
        let mut acc: u32 = 0;
        let mut k: usize = 0;
        proof {
            lemma2_to64();
            assert(bits_seq(d, start as int, 0) =~= Seq::<bool>::empty());
            assert(decode_bits(Seq::<bool>::empty()) == 0);
        }
        while k < n
            invariant
                self.wf(),
                self.data@ == d,
                self.off == start,
                k <= n,
                n <= 32,
                start + n <= d.len() * 8,
                acc as nat == decode_bits(bits_seq(d, start as int, k as nat)),
                (acc as nat) < pow2(k as nat),
            decreases n - k,
        {
            let pos = start + k;
            let byte: u8 = self.data[pos / 8];
            let sh: u8 = (pos % 8) as u8;
            let bit: u8 = (byte >> sh) & 1u8;
            assert((byte >> sh) & 1u8 <= 1u8) by (bit_vector);
            assert((bit == 1u8) == bit_at(d, pos as int));
            proof {
                lemma_pow2_strictly_increases(k as nat, 32);
                lemma2_to64();
                lemma_u32_shl_is_mul(bit as u32, k as u32);
                lemma_decode_push(bits_seq(d, start as int, k as nat), bit_at(d, pos as int));
                assert(bits_seq(d, start as int, (k + 1) as nat) =~= bits_seq(
                    d,
                    start as int,
                    k as nat,
                ).push(bit_at(d, pos as int)));
                lemma_pow2_adds(k as nat, 1);
            }
            acc = acc + ((bit as u32) << (k as u32));
            k = k + 1;
        }
        self.off = start + n;
        proof {
            lemma_decode_bound(bits_seq(d, start as int, n as nat));
        }
        Ok(acc)
    }

    /// Reads one bit as a boolean flag.
    pub fn read_bool(&mut self) -> (r: Result<bool, DemoError>)
        requires
            old(self).wf(),
        ensures
            final(self).wf(),
            final(self).sdata() == old(self).sdata(),
            match r {
                Ok(v) => {
                    &&& old(self).soff() + 1 <= old(self).sdata().len() * 8
                    &&& final(self).soff() == old(self).soff() + 1
                    &&& v == bit_at(old(self).sdata(), old(self).soff() as int)
                },
                Err(e) => {
                    &&& e == DemoError::Truncated
                    &&& old(self).soff() + 1 > old(self).sdata().len() * 8
                    &&& final(self).soff() == old(self).soff()
                },
            },
    {
        let ghost d = self.data@;
        let ghost o = self.soff();
        let v = self.read_bits(1)?;
        proof {
            assert(bits_seq(d, o as int, 1).skip(1) =~= Seq::<bool>::empty());
            assert(decode_bits(Seq::<bool>::empty()) == 0);
            assert(bits_seq(d, o as int, 1)[0] == bit_at(d, o as int));
            assert(decode_bits(bits_seq(d, o as int, 1)) == (if bit_at(d, o as int) {
                1nat
            } else {
                0nat
            }));
        }
        Ok(v == 1)
    }

    /// Reads a base-128 varint of at most five bytes into a `u32`.
    /// A sixth continuation byte, or a value past 32 bits, is malformed.
    pub fn read_varint32(&mut self) -> (r: Result<u32, DemoError>)
        requires
            old(self).wf(),
        ensures
            final(self).wf(),
            final(self).sdata() == old(self).sdata(),
            r is Ok ==> final(self).soff() > old(self).soff(),
            match r {
                Ok(v) => varint32_at(old(self).sdata(), old(self).soff() as int) matches
                    Decoded::Val { value, bits } && value == v as nat && final(self).soff() == old(
                    self,
                ).soff() + bits,
                Err(e) => {
                    &&& final(self).soff() == old(self).soff()
                    &&& (e == DemoError::Truncated || e == DemoError::MalformedVarint)
                    &&& (e == DemoError::Truncated <==> varint32_at(
                        old(self).sdata(),
                        old(self).soff() as int,
                    ) is Trunc)
                    &&& (e == DemoError::MalformedVarint <==> varint32_at(
                        old(self).sdata(),
                        old(self).soff() as int,
                    ) is Malformed)
                },
            },
    {
        let ghost d = self.data@;
        let start = self.off;
        let mut acc: u32 = 0;
        let mut k: usize = 0;
        proof {
            lemma2_to64();
            let g = varint_groups(d, start as int, 5);
            match g {
                Decoded::Val { value, bits } => {
                    assert(pow2(7 * 0) == 1);
                    assert(value * pow2(7 * 0) == value);
                    assert(vg_extend(0, 0, g) == g);
                },
                _ => {},
            }
        }
        while k < 5
            invariant
                self.wf(),
                self.data@ == d,
                d == old(self).sdata(),
                start == old(self).soff(),
                k <= 4,
                self.off == start + 8 * k,
                start + 8 * k <= d.len() * 8,
                (acc as nat) < pow2((7 * k) as nat),
                varint_groups(d, start as int, 5) == vg_extend(
                    acc as nat,
                    k as nat,
                    varint_groups(d, self.off as int, (5 - k) as nat),
                ),
            decreases 5 - k,
        {
            let cur = self.off;
            let b = match self.read_bits(8) {
                Ok(b) => b,
                Err(_) => {
                    proof {
                        assert(varint_groups(d, cur as int, (5 - k) as nat) is Trunc);
                    }
                    self.off = start;
                    return Err(DemoError::Truncated);
                },
            };
            assert(b as nat == byte_at(d, cur as int));
            let low = b & 0x7f;
            proof {
                assert(b & 0x7f == b % 128) by (bit_vector);
                lemma_pow2_strictly_increases((7 * k) as nat, 32);
                lemma2_to64();
            }
            if b < 128 {
                proof {
                    assert(varint_groups(d, cur as int, (5 - k) as nat) == Decoded::Val {
                        value: b as nat,
                        bits: 8,
                    });
                }
                if k == 4 && low >= 16 {
                    proof {
                        vstd::arithmetic::mul::lemma_mul_inequality(
                            16,
                            b as int,
                            pow2(28) as int,
                        );
                    }
                    self.off = start;
                    return Err(DemoError::MalformedVarint);
                }
                proof {
                    if k == 4 {
                        vstd::arithmetic::mul::lemma_mul_inequality(
                            b as int,
                            15,
                            pow2(28) as int,
                        );
                    } else {
                        lemma_vg_acc_bound(acc as nat, b as nat, k as nat);
                        lemma_pow2_strictly_increases((7 * (k + 1)) as nat, 32);
                    }
                    lemma_u32_shl_is_mul(low, (7 * k) as u32);
                }
                let v = acc + (low << ((7 * k) as u32));
                return Ok(v);
            }
            if k == 4 {
                self.off = start;
                return Err(DemoError::MalformedVarint);
            }
            proof {
                assert((b & 0x7f) + 128 == b) by (bit_vector)
                    requires
                        128 <= b < 256,
                ;
                assert(varint_groups(d, cur as int, (5 - k) as nat) == (
                match varint_groups(d, cur as int + 8, (4 - k) as nat) {
                    Decoded::Val { value, bits } => Decoded::Val {
                        value: low as nat + 128 * value,
                        bits: bits + 8,
                    },
                    Decoded::Trunc => Decoded::Trunc,
                    Decoded::Malformed => Decoded::Malformed,
                }));
                lemma_vg_shift(
                    acc as nat,
                    low as nat,
                    k as nat,
                    varint_groups(d, cur as int + 8, (4 - k) as nat),
                );
                lemma_vg_acc_bound(acc as nat, low as nat, k as nat);
                lemma_pow2_strictly_increases((7 * (k + 1)) as nat, 32);
                lemma_u32_shl_is_mul(low, (7 * k) as u32);
            }
            acc = acc + (low << ((7 * k) as u32));
            k = k + 1;
        }
        proof {
            assert(false);
        }
        Err(DemoError::MalformedVarint)
    }

    /// Reads a base-128 varint of at most ten bytes into a `u64`.
    /// An eleventh continuation byte, or a value past 64 bits, is malformed.
    pub fn read_varint64(&mut self) -> (r: Result<u64, DemoError>)
        requires
            old(self).wf(),
        ensures
            final(self).wf(),
            final(self).sdata() == old(self).sdata(),
            match r {
                Ok(v) => varint64_at(old(self).sdata(), old(self).soff() as int) matches
                    Decoded::Val { value, bits } && value == v as nat && final(self).soff() == old(
                    self,
                ).soff() + bits,
                Err(e) => {
                    &&& final(self).soff() == old(self).soff()
                    &&& (e == DemoError::Truncated || e == DemoError::MalformedVarint)
                    &&& (e == DemoError::Truncated <==> varint64_at(
                        old(self).sdata(),
                        old(self).soff() as int,
                    ) is Trunc)
                    &&& (e == DemoError::MalformedVarint <==> varint64_at(
                        old(self).sdata(),
                        old(self).soff() as int,
                    ) is Malformed)
                },
            },
    {
        let ghost d = self.data@;
        let start = self.off;
        let mut acc: u64 = 0;
        let mut k: usize = 0;
        proof {
            lemma2_to64();
            lemma2_to64_rest();
            let g = varint_groups(d, start as int, 10);
            match g {
                Decoded::Val { value, bits } => {
                    assert(pow2(7 * 0) == 1);
                    assert(value * pow2(7 * 0) == value);
                    assert(vg_extend(0, 0, g) == g);
                },
                _ => {},
            }
        }
        while k < 10
            invariant
                self.wf(),
                self.data@ == d,
                d == old(self).sdata(),
                start == old(self).soff(),
                k <= 9,
                self.off == start + 8 * k,
                start + 8 * k <= d.len() * 8,
                (acc as nat) < pow2((7 * k) as nat),
                varint_groups(d, start as int, 10) == vg_extend(
                    acc as nat,
                    k as nat,
                    varint_groups(d, self.off as int, (10 - k) as nat),
                ),
            decreases 10 - k,
        {
            let cur = self.off;
            let b = match self.read_bits(8) {
                Ok(b) => b,
                Err(_) => {
                    proof {
                        assert(varint_groups(d, cur as int, (10 - k) as nat) is Trunc);
                    }
                    self.off = start;
                    return Err(DemoError::Truncated);
                },
            };
            assert(b as nat == byte_at(d, cur as int));
            let low = b & 0x7f;
            proof {
                assert(b & 0x7f == b % 128) by (bit_vector);
                lemma_pow2_strictly_increases((7 * k) as nat, 64);
                lemma2_to64();
                lemma2_to64_rest();
            }
            if b < 128 {
                proof {
                    assert(varint_groups(d, cur as int, (10 - k) as nat) == Decoded::Val {
                        value: b as nat,
                        bits: 8,
                    });
                }
                if k == 9 && low >= 2 {
                    proof {
                        vstd::arithmetic::mul::lemma_mul_inequality(2, b as int, pow2(63) as int);
                    }
                    self.off = start;
                    return Err(DemoError::MalformedVarint);
                }
                proof {
                    if k == 9 {
                        vstd::arithmetic::mul::lemma_mul_inequality(b as int, 1, pow2(63) as int);
                    } else {
                        lemma_vg_acc_bound(acc as nat, b as nat, k as nat);
                        lemma_pow2_strictly_increases((7 * (k + 1)) as nat, 64);
                    }
                    lemma_u64_shl_is_mul(low as u64, (7 * k) as u64);
                }
                let v = acc + ((low as u64) << ((7 * k) as u64));
                return Ok(v);
            }
            if k == 9 {
                self.off = start;
                return Err(DemoError::MalformedVarint);
            }
            proof {
                assert((b & 0x7f) + 128 == b) by (bit_vector)
                    requires
                        128 <= b < 256,
                ;
                assert(varint_groups(d, cur as int, (10 - k) as nat) == (
                match varint_groups(d, cur as int + 8, (9 - k) as nat) {
                    Decoded::Val { value, bits } => Decoded::Val {
                        value: low as nat + 128 * value,
                        bits: bits + 8,
                    },
                    Decoded::Trunc => Decoded::Trunc,
                    Decoded::Malformed => Decoded::Malformed,
                }));
                lemma_vg_shift(
                    acc as nat,
                    low as nat,
                    k as nat,
                    varint_groups(d, cur as int + 8, (9 - k) as nat),
                );
                lemma_vg_acc_bound(acc as nat, low as nat, k as nat);
                lemma_pow2_strictly_increases((7 * (k + 1)) as nat, 64);
                lemma_u64_shl_is_mul(low as u64, (7 * k) as u64);
            }
            acc = acc + ((low as u64) << ((7 * k) as u64));
            k = k + 1;
        }
        proof {
            assert(false);
        }
        Err(DemoError::MalformedVarint)
    }

    /// Reads the format's self-describing small-integer encoding: a six-bit
    /// header whose top two bits select 0, 4, 8 or 28 further bits that
    /// extend the header's low four bits upward.
    pub fn read_ubitvar(&mut self) -> (r: Result<u32, DemoError>)
        requires
            old(self).wf(),
        ensures
            final(self).wf(),
            final(self).sdata() == old(self).sdata(),
            r is Ok ==> final(self).soff() > old(self).soff(),
            match r {
                Ok(v) => ubitvar_at(old(self).sdata(), old(self).soff() as int) matches
                    Decoded::Val { value, bits } && value == v as nat && final(self).soff() == old(
                    self,
                ).soff() + bits,
                Err(e) => {
                    &&& final(self).soff() == old(self).soff()
                    &&& e == DemoError::Truncated
                    &&& ubitvar_at(old(self).sdata(), old(self).soff() as int) is Trunc
                },
            },
    {
        let ghost d = self.data@;
        let start = self.off;
        let hdr = self.read_bits(6)?;
        let sel = hdr / 16;
        let base = hdr % 16;
        if sel == 0 {
            return Ok(base);
        }
        let extra: usize = if sel == 1 {
            4
        } else if sel == 2 {
            8
        } else {
            28
        };
        let e = match self.read_bits(extra) {
            Ok(e) => e,
            Err(_) => {
                self.off = start;
                return Err(DemoError::Truncated);
            },
        };
        proof {
            lemma2_to64();
        }
        Ok(base + 16 * e)
    }

    /// Reads `count` whole bytes, not necessarily byte-aligned.
    pub fn read_bytes(&mut self, count: usize) -> (r: Result<Vec<u8>, DemoError>)
        requires
            old(self).wf(),
        ensures
            final(self).wf(),
            final(self).sdata() == old(self).sdata(),
            match r {
                Ok(out) => {
                    &&& old(self).soff() + 8 * count <= old(self).sdata().len() * 8
                    &&& final(self).soff() == old(self).soff() + 8 * count
                    &&& out@.len() == count
                    &&& forall|j: int|
                        0 <= j < count ==> out@[j] as nat == byte_at(
                            old(self).sdata(),
                            old(self).soff() + 8 * j,
                        )
                    &&& out@ == bytes_at(old(self).sdata(), old(self).soff() as int, count as nat)
                },
                Err(e) => {
                    &&& e == DemoError::Truncated
                    &&& old(self).soff() + 8 * count > old(self).sdata().len() * 8
                    &&& final(self).soff() == old(self).soff()
                },
            },
    {
        let ghost d = self.data@;
        let start = self.off;
        let left = self.data.len() * 8 - self.off;
        if count > left / 8 {
            proof {
                lemma_fundamental_div_mod(left as int, 8);
            }
            return Err(DemoError::Truncated);
        }
        proof {
            lemma_fundamental_div_mod(left as int, 8);
            vstd::arithmetic::mul::lemma_mul_inequality(count as int, (left / 8) as int, 8);
        }
        let mut out: Vec<u8> = Vec::new();
        let mut i: usize = 0;
        while i < count
            invariant
                self.wf(),
                self.data@ == d,
                d == old(self).sdata(),
                start == old(self).soff(),
                i <= count,
                self.off == start + 8 * i,
                start + 8 * count <= d.len() * 8,
                out@.len() == i,
                forall|j: int| 0 <= j < i ==> out@[j] as nat == byte_at(d, start + 8 * j),
            decreases count - i,
        {
            let b = match self.read_bits(8) {
                Ok(b) => b,
                Err(_) => {
                    proof {
                        assert(false);
                    }
                    return Err(DemoError::Truncated);
                },
            };
            proof {
                lemma2_to64();
            }
            out.push(b as u8);
            i = i + 1;
        }
        proof {
            assert(out@ =~= bytes_at(d, start as int, count as nat));
        }
        Ok(out)
    }

    /// Advances past `count` bytes without interpreting them; used to
    /// skip a command whose tag the caller does not recognize.
    pub fn skip_bytes(&mut self, count: usize) -> (r: Result<(), DemoError>)
        requires
            old(self).wf(),
        ensures
            final(self).wf(),
            final(self).sdata() == old(self).sdata(),
            match r {
                Ok(()) => {
                    &&& old(self).soff() + 8 * count <= old(self).sdata().len() * 8
                    &&& final(self).soff() == old(self).soff() + 8 * count
                },
                Err(e) => {
                    &&& e == DemoError::Truncated
                    &&& old(self).soff() + 8 * count > old(self).sdata().len() * 8
                    &&& final(self).soff() == old(self).soff()
                },
            },
    {
        let left = self.data.len() * 8 - self.off;
        if count > left / 8 {
            proof {
                lemma_fundamental_div_mod(left as int, 8);
            }
            return Err(DemoError::Truncated);
        }
        proof {
            lemma_fundamental_div_mod(left as int, 8);
            vstd::arithmetic::mul::lemma_mul_inequality(count as int, (left / 8) as int, 8);
        }
        self.off = self.off + 8 * count;
        Ok(())
    }

    /// Reads `nbits` bits and packs them into bytes, least-significant
    /// bit first; a final partial byte holds the remaining bits in its
    /// low positions.
    pub fn read_bits_as_bytes(&mut self, nbits: usize) -> (r: Result<Vec<u8>, DemoError>)
        requires
            old(self).wf(),
        ensures
            final(self).wf(),
            final(self).sdata() == old(self).sdata(),
            match r {
                Ok(out) => {
                    &&& old(self).soff() + nbits <= old(self).sdata().len() * 8
                    &&& final(self).soff() == old(self).soff() + nbits
                    &&& out@.len() == (nbits + 7) / 8
                    &&& forall|j: int|
                        0 <= j < nbits / 8 ==> out@[j] as nat == byte_at(
                            old(self).sdata(),
                            old(self).soff() + 8 * j,
                        )
                    &&& nbits % 8 != 0 ==> out@[nbits as int / 8] as nat == decode_bits(
                        bits_seq(
                            old(self).sdata(),
                            old(self).soff() + 8 * (nbits as int / 8),
                            (nbits % 8) as nat,
                        ),
                    )
                    &&& out@ == packed_bits(
                        old(self).sdata(),
                        old(self).soff() as int,
                        nbits as nat,
                    )
                },
                Err(e) => {
                    &&& e == DemoError::Truncated
                    &&& old(self).soff() + nbits > old(self).sdata().len() * 8
                    &&& final(self).soff() == old(self).soff()
                },
            },
    {
        let ghost d = self.data@;
        let start = self.off;
        if nbits > self.data.len() * 8 - self.off {
            return Err(DemoError::Truncated);
        }
        let full = nbits / 8;
        let rem = nbits % 8;
        proof {
            lemma_fundamental_div_mod(nbits as int, 8);
        }
        let mut out = match self.read_bytes(full) {
            Ok(out) => out,
            Err(_) => {
                proof {
                    vstd::arithmetic::mul::lemma_mul_inequality(full as int, nbits as int, 8);
                    assert(8 * full <= nbits) by (nonlinear_arith)
                        requires
                            full == nbits / 8,
                    ;
                }
                return Err(DemoError::Truncated);
            },
        };
        proof {
            assert(8 * full <= nbits) by (nonlinear_arith)
                requires
                    full == nbits / 8,
            ;
        }
        if rem != 0 {
            let tail = match self.read_bits(rem) {
                Ok(t) => t,
                Err(_) => {
                    proof {
                        assert(false);
                    }
                    self.off = start;
                    return Err(DemoError::Truncated);
                },
            };
            proof {
                lemma_decode_bound(bits_seq(d, (start + 8 * full) as int, rem as nat));
                lemma_pow2_strictly_increases(rem as nat, 8);
                lemma2_to64();
            }
            out.push(tail as u8);
        }
        proof {
            assert(out@ =~= packed_bits(d, start as int, nbits as nat));
        }
        Ok(out)
    }
}

} // verus!

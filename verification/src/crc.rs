//! The CFDP file checksum: the sum, modulo 2^32, of the file's bytes taken as big-endian
//! 32-bit words, the last word padded with zero bytes. It is computed a piece at a time.
#![allow(non_snake_case)]
#![allow(non_camel_case_types)]

use vstd::prelude::*;
use vstd::arithmetic::power::pow;
use crate::codec::{be_value, lemma_be_value_step, lemma_be_value_bound};

verus! {

/// A checksum in progress: `working` holds the bytes of the current word, `index` how
/// many of them there are, `result` the sum of the completed words.
#[derive(Clone, Copy, Debug, PartialEq, Eq, Default)]
pub struct CF_Crc_t {
    pub working: u32,
    pub result: u32,
    pub index: u32,
}

impl CF_Crc_t {
    /// No word is more than partly read.
    pub open spec fn wf(&self) -> bool {
        self.index < 4
    }
}

/// A checksum with nothing read.
pub open spec fn crc_zero() -> CF_Crc_t {
    CF_Crc_t { working: 0, result: 0, index: 0 }
}

/// The checksum `c` after reading one more byte `b`.
pub open spec fn crc_step(c: CF_Crc_t, b: u8) -> CF_Crc_t {
    let w = ((c.working as int * 256 + b as int) % 0x1_0000_0000) as u32;
    if c.index + 1 == 4 {
        CF_Crc_t { working: w, result: ((c.result as int + w as int) % 0x1_0000_0000) as u32, index: 0 }
    } else {
        CF_Crc_t { working: w, result: c.result, index: (c.index + 1) as u32 }
    }
}

/// The checksum `c` after reading the bytes `s`.
pub open spec fn crc_digest(c: CF_Crc_t, s: Seq<u8>) -> CF_Crc_t
    decreases s.len(),
{
    if s.len() == 0 {
        c
    } else {
        crc_step(crc_digest(c, s.drop_last()), s.last())
    }
}

/// The checksum `c` with its partial word, padded with zero bytes, added in.
pub open spec fn crc_finalize(c: CF_Crc_t) -> CF_Crc_t {
    if c.index == 0 {
        c
    } else {
        CF_Crc_t {
            working: 0,
            result: ((c.result as int + (c.working as int * pow(256, (4 - c.index) as nat))
                % 0x1_0000_0000) % 0x1_0000_0000) as u32,
            index: 0,
        }
    }
}

/// `s` padded with zero bytes to 4 bytes.
pub open spec fn pad4(s: Seq<u8>) -> Seq<u8> {
    s + Seq::new((4 - s.len()) as nat, |i: int| 0u8)
}

/// The sum of the big-endian 32-bit words of `s`, the last one padded with zero bytes.
pub open spec fn words_sum(s: Seq<u8>) -> nat
    decreases s.len(),
{
    if s.len() == 0 {
        0
    } else if s.len() <= 4 {
        be_value(pad4(s))
    } else {
        be_value(s.take(4)) + words_sum(s.skip(4))
    }
}

/// The CFDP checksum of `s`.
pub open spec fn cfdp_checksum(s: Seq<u8>) -> u32 {
    (words_sum(s) % 0x1_0000_0000) as u32
}

/// Starts a checksum.
pub fn CF_CRC_Start(crc: &mut CF_Crc_t)
    ensures
        *final(crc) == crc_zero(),
{
    crc.working = 0;
    crc.result = 0;
    crc.index = 0;
}

/// Reads the first `len` bytes of `data` into the checksum.
pub fn CF_CRC_Digest(crc: &mut CF_Crc_t, data: &Vec<u8>, len: usize)
    requires
        old(crc).wf(),
        len <= data@.len(),
    ensures
        final(crc).wf(),
        *final(crc) == crc_digest(*old(crc), data@.take(len as int)),
{
    let ghost c0 = *crc;
    let mut i: usize = 0;
    while i < len
        invariant
            i <= len <= data@.len(),
            crc.wf(),
            *crc == crc_digest(c0, data@.take(i as int)),
        decreases len - i,
    {
        let b = data[i];
        let w = crc.working;
        assert((w << 8u32) | (b as u32) == ((w as int * 256 + b as int) % 0x1_0000_0000) as u32)
            by (bit_vector);
        crc.working = (crc.working << 8u32) | (b as u32);
        crc.index = crc.index + 1;
        if crc.index == 4 {
            crc.result = crc.result.wrapping_add(crc.working);
            crc.index = 0;
        }
        assert(data@.take(i + 1).drop_last() =~= data@.take(i as int));
        i = i + 1;
    }
}

/// Adds the partial word, padded with zero bytes, to the checksum.
pub fn CF_CRC_Finalize(crc: &mut CF_Crc_t)
    requires
        old(crc).wf(),
    ensures
        final(crc).wf(),
        *final(crc) == crc_finalize(*old(crc)),
{
    if crc.index != 0 {
        let w = crc.working;
        let shifted: u32 = if crc.index == 1 {
            assert(w << 24u32 == ((w as int * 0x100_0000) % 0x1_0000_0000) as u32) by (bit_vector);
            assert(pow(256, 3) == 0x100_0000) by {
                reveal_with_fuel(pow, 4);
            }
            w << 24u32
        } else if crc.index == 2 {
            assert(w << 16u32 == ((w as int * 0x1_0000) % 0x1_0000_0000) as u32) by (bit_vector);
            assert(pow(256, 2) == 0x1_0000) by {
                reveal_with_fuel(pow, 3);
            }
            w << 16u32
        } else {
            assert(w << 8u32 == ((w as int * 0x100) % 0x1_0000_0000) as u32) by (bit_vector);
            assert(pow(256, 1) == 0x100) by {
                reveal_with_fuel(pow, 2);
            }
            w << 8u32
        };
        crc.result = crc.result.wrapping_add(shifted);
        crc.working = 0;
        crc.index = 0;
    }
}


/// The streaming law: reading `a` and then `b` into a checksum is reading `a + b`.
pub proof fn law_digest_concat(c: CF_Crc_t, a: Seq<u8>, b: Seq<u8>)
    ensures
        crc_digest(crc_digest(c, a), b) == crc_digest(c, a + b),
    decreases b.len(),
{
    if b.len() == 0 {
        assert(a + b =~= a);
    } else {
        law_digest_concat(c, a, b.drop_last());
        assert((a + b).drop_last() =~= a + b.drop_last());
        assert((a + b).last() == b.last());
    }
}

/// Appending zero bytes multiplies the big-endian value by 256 per byte.
proof fn lemma_be_value_zeros(s: Seq<u8>, k: nat)
    ensures
        be_value(s + Seq::new(k, |i: int| 0u8)) == be_value(s) * pow(256, k),
    decreases k,
{
    if k == 0 {
        assert(s + Seq::new(k, |i: int| 0u8) =~= s);
        vstd::arithmetic::power::lemma_pow0(256);
    } else {
        let km = (k - 1) as nat;
        lemma_be_value_zeros(s, km);
        let z = s + Seq::new(km, |i: int| 0u8);
        assert(s + Seq::new(k, |i: int| 0u8) =~= z.push(0u8));
        lemma_be_value_step(z, 0u8);
        vstd::arithmetic::power::lemma_pow_adds(256, km, 1);
        vstd::arithmetic::power::lemma_pow1(256);
        vstd::arithmetic::mul::lemma_mul_is_associative(be_value(s) as int, pow(256, km), 256);
    }
}

/// The word sum of a run of whole words followed by anything is the sum of the two parts.
proof fn lemma_words_sum_concat(q: Seq<u8>, t: Seq<u8>)
    requires
        q.len() % 4 == 0,
    ensures
        words_sum(q + t) == words_sum(q) + words_sum(t),
    decreases q.len(),
{
    if q.len() == 0 {
        assert(q + t =~= t);
    } else if t.len() == 0 && q.len() == 4 {
        assert(q + t =~= q);
    } else {
        assert((q + t).take(4) =~= q.take(4));
        assert((q + t).skip(4) =~= q.skip(4) + t);
        lemma_words_sum_concat(q.skip(4), t);
        if q.len() == 4 {
            assert(pad4(q) =~= q.take(4));
            assert(q.skip(4) =~= Seq::<u8>::empty());
        }
    }
}

/// The powers of 256 up to 2^32.
proof fn lemma_pow256_small()
    ensures
        pow(256, 0) == 1,
        pow(256, 1) == 0x100,
        pow(256, 2) == 0x1_0000,
        pow(256, 3) == 0x100_0000,
        pow(256, 4) == 0x1_0000_0000,
{
    reveal_with_fuel(pow, 5);
}

/// Reading one more byte into a register whose low bytes hold the last bytes read.
proof fn lemma_shift_in(x: int, b: int, p: int, q: int)
    requires
        x >= 0,
        0 <= b < 256,
        p > 0,
        q > 0,
        256 * p * q == 0x1_0000_0000,
    ensures
        ((x * 256 + b) % 0x1_0000_0000) % (256 * p) == (x % p) * 256 + b,
{
    let y = x * 256 + b;
    vstd::arithmetic::div_mod::lemma_mod_mod(y, 256 * p, q);
    vstd::arithmetic::div_mod::lemma_breakdown(y, 256, p);
    vstd::arithmetic::div_mod::lemma_fundamental_div_mod(y, 256);
    assert(y / 256 == x && y % 256 == b) by {
        vstd::arithmetic::div_mod::lemma_div_multiples_vanish_fancy(x, b, 256);
        vstd::arithmetic::div_mod::lemma_mod_multiples_vanish(x, b, 256);
        vstd::arithmetic::div_mod::lemma_small_mod(b as nat, 256);
        vstd::arithmetic::mul::lemma_mul_is_commutative(x, 256);
    }
    vstd::arithmetic::mul::lemma_mul_is_commutative(256, y / 256 % p);
}

/// What a checksum started from zero holds after reading `p`: the position in the current
/// word, the sum of the completed words, and the bytes of the current word.
proof fn lemma_digest_tracks(p: Seq<u8>)
    ensures
        ({
            let c = crc_digest(crc_zero(), p);
            let i = p.len() % 4;
            &&& c.index == i
            &&& c.result == words_sum(p.take(p.len() - i)) % 0x1_0000_0000
            &&& c.working as int % pow(256, i as nat) == be_value(p.skip(p.len() - i))
        }),
    decreases p.len(),
{
    lemma_pow256_small();
    if p.len() == 0 {
        assert(p.skip(0) =~= Seq::<u8>::empty());
        assert(p.take(0) =~= Seq::<u8>::empty());
    } else {
        let pp = p.drop_last();
        let b = p.last();
        lemma_digest_tracks(pp);
        let c0 = crc_digest(crc_zero(), pp);
        let n0 = pp.len();
        let i0 = n0 % 4;
        let tail0 = pp.skip(n0 - i0);
        assert(p.skip(p.len() - (i0 + 1)) =~= tail0.push(b));
        lemma_be_value_step(tail0, b);
        let pw = pow(256, i0 as nat);
        let qw = pow(256, (3 - i0) as nat);
        assert(256 * pw * qw == 0x1_0000_0000) by {
            if i0 == 0 {
            } else if i0 == 1 {
            } else if i0 == 2 {
            } else {
            }
        }
        lemma_shift_in(c0.working as int, b as int, pw, qw);
        vstd::arithmetic::div_mod::lemma_fundamental_div_mod(c0.working as int, pw);
        if i0 < 3 {
            assert(p.take(p.len() - (i0 + 1)) =~= pp.take(n0 - i0));
            assert(pow(256, (i0 + 1) as nat) == 256 * pw) by {
                if i0 == 0 {
                } else if i0 == 1 {
                } else {
                }
            }
        } else {
            assert(p.skip(p.len() - 4) =~= tail0.push(b));
            let full0 = pp.take(n0 - 3);
            let last4 = p.skip(p.len() - 4);
            assert(p.take(p.len() as int) =~= full0 + last4);
            assert(full0 =~= p.take(p.len() - 4));
            lemma_words_sum_concat(full0, last4);
            assert(pad4(last4) =~= last4);
            assert(p.skip(p.len() as int) =~= Seq::<u8>::empty());
            lemma_be_value_bound(last4);
            vstd::arithmetic::div_mod::lemma_small_mod(be_value(last4), 0x1_0000_0000);
            vstd::arithmetic::div_mod::lemma_add_mod_noop(
                words_sum(full0) as int,
                be_value(last4) as int,
                0x1_0000_0000,
            );
        }
    }
}

/// The checksum law: starting a checksum, reading `data` into it (in any number of
/// pieces, by `law_digest_concat`) and finishing it gives the CFDP checksum of `data`.
pub proof fn law_checksum(data: Seq<u8>)
    ensures
        crc_finalize(crc_digest(crc_zero(), data)).result == cfdp_checksum(data),
{
    lemma_pow256_small();
    lemma_digest_tracks(data);
    let c = crc_digest(crc_zero(), data);
    let n = data.len();
    let i = n % 4;
    let full = data.take(n - i);
    let part = data.skip(n - i);
    assert(data =~= full + part);
    lemma_words_sum_concat(full, part);
    if i == 0 {
        assert(part =~= Seq::<u8>::empty());
    } else {
        let pw = pow(256, i as nat);
        let k = pow(256, (4 - i) as nat);
        assert(pw * k == 0x1_0000_0000) by {
            if i == 1 {
            } else if i == 2 {
            } else {
            }
        }
        let w = c.working as int;
        vstd::arithmetic::div_mod::lemma_fundamental_div_mod(w, pw);
        let hi = w / pw;
        let lo = w % pw;
        lemma_be_value_bound(part);
        assert(w * k == hi * 0x1_0000_0000 + lo * k) by (nonlinear_arith)
            requires
                w == pw * hi + lo,
                pw * k == 0x1_0000_0000,
        ;
        vstd::arithmetic::div_mod::lemma_mod_multiples_vanish(hi, lo * k, 0x1_0000_0000);
        assert(lo * k < 0x1_0000_0000) by (nonlinear_arith)
            requires
                0 <= lo < pw,
                k > 0,
                pw * k == 0x1_0000_0000,
        ;
        assert(lo >= 0) by {
            vstd::arithmetic::div_mod::lemma_mod_bound(w, pw);
        }
        vstd::arithmetic::div_mod::lemma_small_mod((lo * k) as nat, 0x1_0000_0000);
        lemma_be_value_zeros(part, (4 - i) as nat);
        assert(pad4(part) =~= part + Seq::new((4 - i) as nat, |j: int| 0u8));
        vstd::arithmetic::div_mod::lemma_add_mod_noop(
            words_sum(full) as int,
            words_sum(part) as int,
            0x1_0000_0000,
        );
        vstd::arithmetic::div_mod::lemma_small_mod(words_sum(part), 0x1_0000_0000);
    }
}

} // verus!

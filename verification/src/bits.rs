//! Bit-sequence model: a value's bits as a `Seq<bool>` (most significant
//! first), the value of such a sequence, and the lemmas that connect the two.

use vstd::prelude::*;
use vstd::arithmetic::power2::pow2;

verus! {

/// Bit `i` of `v`, counting from the least significant bit (bit 0).
pub open spec fn bit_of(v: nat, i: nat) -> bool {
    (v / pow2(i)) % 2 == 1
}

/// The `w` low bits of `v`, most significant first.
pub open spec fn bits_of(v: nat, w: nat) -> Seq<bool> {
    Seq::new(w, |j: int| bit_of(v, (w - 1 - j) as nat))
}

/// The value of a bit sequence read most significant bit first.
pub open spec fn bits_val(s: Seq<bool>) -> nat
    decreases s.len(),
{
    if s.len() == 0 {
        0
    } else {
        2 * bits_val(s.drop_last()) + (if s.last() {
            1nat
        } else {
            0nat
        })
    }
}

/// The value of `s` is below `2^|s|`.
pub proof fn lemma_bits_val_bound(s: Seq<bool>)
    ensures
        bits_val(s) < pow2(s.len()),
    decreases s.len(),
{
    if s.len() == 0 {
        vstd::arithmetic::power2::lemma2_to64();
    } else {
        vstd::arithmetic::power2::lemma_pow2_unfold(s.len());
        lemma_bits_val_bound(s.drop_last());
    }
}

/// Dropping the last bit of `bits_of(v, w)` gives the bits of `v / 2`, and the
/// last bit is `v % 2`.
pub proof fn lemma_bits_of_step(v: nat, w: nat)
    requires
        w >= 1,
    ensures
        bits_of(v, w).drop_last() =~= bits_of(v / 2, (w - 1) as nat),
        bits_of(v, w).last() == (v % 2 == 1),
{
    assert forall|j: int| 0 <= j < w - 1 implies bits_of(v, w).drop_last()[j] == bits_of(
        v / 2,
        (w - 1) as nat,
    )[j] by {
        let i = (w - 2 - j) as nat;
        vstd::arithmetic::power2::lemma_pow2_pos(i);
        vstd::arithmetic::div_mod::lemma_div_denominator(v as int, 2, pow2(i) as int);
        vstd::arithmetic::power2::lemma_pow2_unfold((i + 1) as nat);
    }
    vstd::arithmetic::power2::lemma2_to64();
    assert(bits_of(v, w).last() == bit_of(v, 0));
    assert(v / pow2(0) == v) by {
        vstd::arithmetic::div_mod::lemma_div_basics_1(v as int);
    }
}

/// Reading back the bits of a value gives the value.
pub proof fn lemma_val_of_bits(v: nat, w: nat)
    requires
        v < pow2(w),
    ensures
        bits_val(bits_of(v, w)) == v,
    decreases w,
{
    if w == 0 {
        vstd::arithmetic::power2::lemma2_to64();
        assert(bits_of(v, 0) =~= Seq::<bool>::empty());
    } else {
        lemma_bits_of_step(v, w);
        vstd::arithmetic::power2::lemma_pow2_unfold(w);
        assert(v < 2 * pow2((w - 1) as nat));
        assert(v / 2 < pow2((w - 1) as nat)) by {
            vstd::arithmetic::div_mod::lemma_multiply_divide_lt(
                v as int,
                2,
                pow2((w - 1) as nat) as int,
            );
        }
        lemma_val_of_bits(v / 2, (w - 1) as nat);
        vstd::arithmetic::div_mod::lemma_fundamental_div_mod(v as int, 2);
    }
}

/// The bits of the value of a sequence give back the sequence.
pub proof fn lemma_bits_of_val(s: Seq<bool>)
    ensures
        bits_of(bits_val(s), s.len()) =~= s,
    decreases s.len(),
{
    if s.len() > 0 {
        let s0 = s.drop_last();
        let b: nat = if s.last() {
            1
        } else {
            0
        };
        let v = bits_val(s);
        assert(v == bits_val(s0) * 2 + b) by {
            assert(2 * bits_val(s0) == bits_val(s0) * 2) by (nonlinear_arith);
        }
        vstd::arithmetic::div_mod::lemma_fundamental_div_mod_converse(
            v as int,
            2,
            bits_val(s0) as int,
            b as int,
        );
        lemma_bits_of_val(s0);
        lemma_bits_of_step(v, s.len());
        assert forall|j: int| 0 <= j < s.len() implies bits_of(v, s.len())[j] == s[j] by {
            if j < s.len() - 1 {
                assert(bits_of(v, s.len()).drop_last()[j] == bits_of(
                    bits_val(s0),
                    s0.len(),
                )[j]);
            } else {
                assert(bits_of(v, s.len()).last() == (v % 2 == 1));
            }
        }
    }
}

/// If two equally long bit sequences agree before position `i`, where the
/// first has a zero and the second a one, the first denotes the smaller value.
pub proof fn lemma_bits_val_lex_lt(s: Seq<bool>, t: Seq<bool>, i: int)
    requires
        s.len() == t.len(),
        0 <= i < s.len(),
        forall|j: int| 0 <= j < i ==> s[j] == t[j],
        !s[i],
        t[i],
    ensures
        bits_val(s) < bits_val(t),
    decreases s.len(),
{
    if i == s.len() - 1 {
        assert(s.drop_last() =~= t.drop_last());
    } else {
        lemma_bits_val_lex_lt(s.drop_last(), t.drop_last(), i);
    }
}

/// The low `w` bits of `v`, least significant first: element `k` is bit `k`.
pub fn bits_lsb(v: u64, w: usize) -> (bits: Vec<bool>)
    ensures
        bits@.len() == w,
        forall|k: int| 0 <= k < w ==> bits@[k] == bit_of(v as nat, k as nat),
{
    let mut bits: Vec<bool> = Vec::new();
    let mut rest: u64 = v;
    let mut k: usize = 0;
    proof {
        vstd::arithmetic::power2::lemma2_to64();
        vstd::arithmetic::div_mod::lemma_div_basics_1(v as int);
    }
    while k < w
        invariant
            k <= w,
            bits@.len() == k,
            rest as nat == v as nat / pow2(k as nat),
            forall|j: int| 0 <= j < k ==> bits@[j] == bit_of(v as nat, j as nat),
        decreases w - k,
    {
        proof {
            vstd::arithmetic::power2::lemma_pow2_pos(k as nat);
            vstd::arithmetic::div_mod::lemma_div_denominator(
                v as int,
                pow2(k as nat) as int,
                2,
            );
            vstd::arithmetic::power2::lemma_pow2_unfold((k + 1) as nat);
        }
        bits.push(rest % 2 == 1);
        rest = rest / 2;
        k = k + 1;
    }
    bits
}

/// Packs 128 bits, most significant first, into 16 big-endian bytes.
pub fn bits_to_bytes(u: &Vec<bool>) -> (bytes: Vec<u8>)
    requires
        u@.len() == 128,
    ensures
        bytes@.len() == 16,
        forall|m: int| 0 <= m < 16 ==> bytes@[m] as nat == bits_val(
            u@.subrange(8 * m, 8 * m + 8),
        ),
{
    let mut bytes: Vec<u8> = Vec::new();
    let mut j: usize = 0;
    while j < 16
        invariant
            u@.len() == 128,
            j <= 16,
            bytes@.len() == j,
            forall|m: int| 0 <= m < j ==> bytes@[m] as nat == bits_val(
                u@.subrange(8 * m, 8 * m + 8),
            ),
        decreases 16 - j,
    {
        let mut b: u8 = 0;
        let mut i: usize = 0;
        while i < 8
            invariant
                u@.len() == 128,
                j < 16,
                i <= 8,
                b as nat == bits_val(u@.subrange(8 * j as int, 8 * j as int + i as int)),
            decreases 8 - i,
        {
            proof {
                lemma_bits_val_bound(u@.subrange(8 * j as int, 8 * j as int + i as int));
                vstd::arithmetic::power2::lemma2_to64();
                if i < 7 {
                    vstd::arithmetic::power2::lemma_pow2_strictly_increases(i as nat, 7);
                }
                assert(u@.subrange(8 * j as int, 8 * j as int + i as int + 1).drop_last()
                    =~= u@.subrange(8 * j as int, 8 * j as int + i as int));
            }
            let bitv: bool = u[8 * j + i];
            b = 2 * b + (if bitv {
                1
            } else {
                0
            });
            i = i + 1;
        }
        bytes.push(b);
        j = j + 1;
    }
    bytes
}

/// Bit `q` of a 16-byte sequence under absolute big-endian numbering:
/// bit 0 is the most significant bit of the first byte.
pub open spec fn id_bit(bs: Seq<u8>, q: int) -> bool {
    bit_of(bs[q / 8] as nat, (7 - q % 8) as nat)
}

/// Unpacks 16 big-endian bytes into their 128 bits, most significant first.
pub fn bytes_to_bits(b: &[u8; 16]) -> (u: Vec<bool>)
    ensures
        u@.len() == 128,
        forall|q: int| 0 <= q < 128 ==> u@[q] == id_bit(b@, q),
{
    let mut u: Vec<bool> = Vec::new();
    let mut j: usize = 0;
    while j < 16
        invariant
            j <= 16,
            u@.len() == 8 * j,
            forall|q: int| 0 <= q < 8 * j ==> u@[q] == id_bit(b@, q),
        decreases 16 - j,
    {
        let lsb = bits_lsb(b[j] as u64, 8);
        let mut i: usize = 0;
        while i < 8
            invariant
                j < 16,
                i <= 8,
                u@.len() == 8 * j + i,
                lsb@.len() == 8,
                forall|k: int| 0 <= k < 8 ==> lsb@[k] == bit_of(b@[j as int] as nat, k as nat),
                forall|q: int| 0 <= q < 8 * j + i ==> u@[q] == id_bit(b@, q),
            decreases 8 - i,
        {
            u.push(lsb[7 - i]);
            proof {
                let q = 8 * (j as int) + i;
                vstd::arithmetic::div_mod::lemma_fundamental_div_mod_converse(
                    q,
                    8,
                    j as int,
                    i as int,
                );
            }
            i = i + 1;
        }
        j = j + 1;
    }
    u
}

} // verus!

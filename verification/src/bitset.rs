use vstd::prelude::*;

verus! {

/// Whether bit `i` of a 256-bit set, stored as 32 bytes with bit `i` at bit `i % 8` of byte
/// `i / 8`, is set. Bits from 256 on are never set.
pub open spec fn has_bit(s: [u8; 32], i: int) -> bool {
    0 <= i < 256 && (s[i / 8] >> ((i % 8) as u8)) & 1u8 == 1u8
}

proof fn lemma_byte_bits_set(b: u8, j: u8, k: u8)
    requires
        j < 8,
        k < 8,
    ensures
        (((b | (1u8 << j)) >> k) & 1u8 == 1u8) == (k == j || (b >> k) & 1u8 == 1u8),
{
    assert((((b | (1u8 << j)) >> k) & 1u8 == 1u8) == (k == j || (b >> k) & 1u8 == 1u8))
        by (bit_vector)
        requires
            j < 8,
            k < 8,
    ;
}

proof fn lemma_byte_bits_unset(b: u8, j: u8, k: u8)
    requires
        j < 8,
        k < 8,
    ensures
        (((b & !(1u8 << j)) >> k) & 1u8 == 1u8) == (k != j && (b >> k) & 1u8 == 1u8),
{
    assert((((b & !(1u8 << j)) >> k) & 1u8 == 1u8) == (k != j && (b >> k) & 1u8 == 1u8))
        by (bit_vector)
        requires
            j < 8,
            k < 8,
    ;
}

proof fn lemma_byte_bits_and(a: u8, b: u8, k: u8)
    requires
        k < 8,
    ensures
        (((a & b) >> k) & 1u8 == 1u8) == ((a >> k) & 1u8 == 1u8 && (b >> k) & 1u8 == 1u8),
{
    assert((((a & b) >> k) & 1u8 == 1u8) == ((a >> k) & 1u8 == 1u8 && (b >> k) & 1u8 == 1u8))
        by (bit_vector)
        requires
            k < 8,
    ;
}

proof fn lemma_zero_byte_bits(k: u8)
    requires
        k < 8,
    ensures
        (0u8 >> k) & 1u8 != 1u8,
{
    assert((0u8 >> k) & 1u8 != 1u8) by (bit_vector)
        requires
            k < 8,
    ;
}

/// The empty set.
pub fn empty_set() -> (s: [u8; 32])
    ensures
        forall|i: int| !has_bit(s, i),
{
    let s = [0u8; 32];
    proof {
        assert forall|i: int| !has_bit(s, i) by {
            if 0 <= i < 256 {
                lemma_zero_byte_bits((i % 8) as u8);
            }
        }
    }
    s
}

/// Whether bit `i` is set.
pub fn test_bit(s: &[u8; 32], i: usize) -> (r: bool)
    ensures
        r == has_bit(*s, i as int),
{
    if i < 256 {
        (s[i / 8] >> ((i % 8) as u8)) & 1u8 == 1u8
    } else {
        false
    }
}

/// Sets bit `i`, which must be below 256.
pub fn set_bit(s: &mut [u8; 32], i: usize)
    requires
        i < 256,
    ensures
        forall|k: int| has_bit(*final(s), k) == (k == i || has_bit(*old(s), k)),
{
    let byte = i / 8;
    let shift = (i % 8) as u8;
    s[byte] = s[byte] | (1u8 << shift);
    proof {
        assert forall|k: int| has_bit(*final(s), k) == (k == i || has_bit(*old(s), k)) by {
            if 0 <= k < 256 {
                if k / 8 == byte as int {
                    lemma_byte_bits_set(old(s)[byte as int], shift, (k % 8) as u8);
                }
            }
        }
    }
}

/// Clears bit `i`; a bit from 256 on is left as it is, never set.
pub fn unset_bit(s: &mut [u8; 32], i: usize)
    ensures
        forall|k: int| has_bit(*final(s), k) == (k != i && has_bit(*old(s), k)),
{
    if i < 256 {
        let byte = i / 8;
        let shift = (i % 8) as u8;
        s[byte] = s[byte] & !(1u8 << shift);
        proof {
            assert forall|k: int| has_bit(*final(s), k) == (k != i && has_bit(*old(s), k)) by {
                if 0 <= k < 256 {
                    if k / 8 == byte as int {
                        lemma_byte_bits_unset(old(s)[byte as int], shift, (k % 8) as u8);
                    }
                }
            }
        }
    }
}

/// The bits set in both sets.
pub fn intersection(a: &[u8; 32], b: &[u8; 32]) -> (c: [u8; 32])
    ensures
        forall|k: int| has_bit(c, k) == (has_bit(*a, k) && has_bit(*b, k)),
{
    let mut c = [0u8; 32];
    let mut t: usize = 0;
    while t < 32
        invariant
            t <= 32,
            forall|q: int| 0 <= q < t ==> c[q] == a[q] & b[q],
        decreases 32 - t,
    {
        c[t] = a[t] & b[t];
        t += 1;
    }
    proof {
        assert forall|k: int| has_bit(c, k) == (has_bit(*a, k) && has_bit(*b, k)) by {
            if 0 <= k < 256 {
                lemma_byte_bits_and(a[k / 8], b[k / 8], (k % 8) as u8);
            }
        }
    }
    c
}

/// The set of the `n` first bits, `n` at most 256.
pub fn first_bits(n: usize) -> (s: [u8; 32])
    requires
        n <= 256,
    ensures
        forall|k: int| has_bit(s, k) == (0 <= k < n),
{
    let mut s = empty_set();
    let mut i: usize = 0;
    while i < n
        invariant
            i <= n <= 256,
            forall|k: int| has_bit(s, k) == (0 <= k < i),
        decreases n - i,
    {
        set_bit(&mut s, i);
        i += 1;
    }
    s
}

/// The bits that are set, in increasing order.
pub fn set_bits(s: &[u8; 32]) -> (res: Vec<usize>)
    ensures
        forall|a: int, b: int| 0 <= a < b < res@.len() ==> res@[a] < res@[b],
        forall|a: int| 0 <= a < res@.len() ==> has_bit(*s, res@[a] as int),
        forall|k: int| has_bit(*s, k) ==> exists|a: int| 0 <= a < res@.len() && res@[a] == k,
{
    let mut res: Vec<usize> = Vec::new();
    let mut i: usize = 0;
    while i < 256
        invariant
            i <= 256,
            forall|a: int, b: int| 0 <= a < b < res@.len() ==> res@[a] < res@[b],
            forall|a: int| 0 <= a < res@.len() ==> res@[a] < i && has_bit(*s, res@[a] as int),
            forall|k: int| 0 <= k < i && has_bit(*s, k) ==> exists|a: int| 0 <= a < res@.len() && res@[a] == k,
        decreases 256 - i,
    {
        let ghost before = res@;
        if test_bit(s, i) {
            res.push(i);
            proof {
                assert(res@[res@.len() - 1] == i);
            }
        }
        proof {
            assert forall|k: int| 0 <= k < i + 1 && has_bit(*s, k) implies exists|a: int|
                0 <= a < res@.len() && res@[a] == k by {
                if k < i {
                    let a = choose|a: int| 0 <= a < before.len() && before[a] == k;
                    assert(res@[a] == before[a]);
                } else {
                    assert(res@[res@.len() - 1] == k);
                }
            }
        }
        i += 1;
    }
    res
}

} // verus!

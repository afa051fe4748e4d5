//! Integer kernels of the dense perturbation path: stable tensor keys, the
//! seed mixer, BF16 unit-in-the-last-place steps and nibble packing.

use vstd::prelude::*;
use vstd::string::StringSliceAdditionalSpecFns;

use crate::forward_program::{f32_bits_finite, f32_bits_positive};
use crate::text::{decimal, push_decimal};

verus! {

pub const FNV_OFFSET: u64 = 1_469_598_103_934_665_603;

pub const FNV_PRIME: u64 = 1_099_511_628_211;

/// The 64-bit FNV-1a hash of the first `n` bytes of `bytes`.
pub open spec fn fnv1a(bytes: Seq<u8>, n: int) -> u64
    decreases n,
{
    if n <= 0 {
        FNV_OFFSET
    } else {
        vstd::wrapping::u64_specs::wrapping_mul(
            fnv1a(bytes, n - 1) ^ (bytes[n - 1] as u64),
            FNV_PRIME,
        )
    }
}

/// Stable leaf key for a named tensor shared with external model runtimes:
/// the FNV-1a hash of the name's UTF-8 bytes.
pub fn tensor_key(name: &str) -> (r: u64)
    ensures
        r == fnv1a(name.spec_bytes(), name.spec_bytes().len() as int),
{
    let bytes = name.as_bytes();
    let mut key: u64 = FNV_OFFSET;
    let mut i: usize = 0;
    while i < bytes.len()
        invariant
            bytes@ == name.spec_bytes(),
            i <= bytes@.len(),
            key == fnv1a(bytes@, i as int),
        decreases bytes@.len() - i,
    {
        key = (key ^ (bytes[i] as u64)).wrapping_mul(FNV_PRIME);
        i = i + 1;
    }
    key
}

/// The SplitMix64 finalizer applied to `input`.
pub open spec fn splitmix64(input: u64) -> u64 {
    let v0 = vstd::wrapping::u64_specs::wrapping_add(input, 0x9e37_79b9_7f4a_7c15);
    let v1 = vstd::wrapping::u64_specs::wrapping_mul(v0 ^ (v0 >> 30), 0xbf58_476d_1ce4_e5b9);
    let v2 = vstd::wrapping::u64_specs::wrapping_mul(v1 ^ (v1 >> 27), 0x94d0_49bb_1331_11eb);
    v2 ^ (v2 >> 31)
}

/// Mixes a seed into a well-distributed 64-bit value.
pub fn mix64(input: u64) -> (r: u64)
    ensures
        r == splitmix64(input),
{
    let mut value = input.wrapping_add(0x9e37_79b9_7f4a_7c15);
    value = (value ^ (value >> 30)).wrapping_mul(0xbf58_476d_1ce4_e5b9);
    value = (value ^ (value >> 27)).wrapping_mul(0x94d0_49bb_1331_11eb);
    value ^ (value >> 31)
}

/// The BF16 value with bit pattern `bits` is finite: its exponent field (bits
/// 7 to 14) is not all ones, which is what decoding it to `f32` and testing
/// `is_finite` decides.
pub open spec fn bf16_finite(bits: u16) -> bool {
    bits % 0x8000 < 0x7f80
}

/// The BF16 value is zero (of either sign).
pub open spec fn bf16_zero(bits: u16) -> bool {
    bits % 0x8000 == 0
}

/// The bit pattern one step from `bits`: away from zero when the step
/// direction agrees with the sign (`positive` for a non-negative value), toward
/// zero otherwise; from zero the step goes to the smallest subnormal of the
/// requested sign; a step that would leave the finite values goes the other way.
pub open spec fn bf16_step(bits: u16, positive: bool) -> u16 {
    if bf16_zero(bits) {
        if positive {
            1
        } else {
            0x8001
        }
    } else {
        let grows = (bits < 0x8000) == positive;
        let up = ((bits + 1) % 0x10000) as u16;
        let down = ((bits - 1) % 0x10000) as u16;
        let candidate = if grows {
            up
        } else {
            down
        };
        if bf16_finite(candidate) {
            candidate
        } else if grows {
            down
        } else {
            up
        }
    }
}

/// Moves a BF16 weight by one unit in the last place.
pub fn bf16_next(value: u16, positive: bool) -> (r: u16)
    ensures
        r == bf16_step(value, positive),
{
    if value % 0x8000 == 0 {
        return if positive {
            1
        } else {
            0x8001
        };
    }
    let grows = (value < 0x8000) == positive;
    let candidate = if grows {
        value.wrapping_add(1)
    } else {
        value.wrapping_sub(1)
    };
    if candidate % 0x8000 < 0x7f80 {
        candidate
    } else if grows {
        value.wrapping_sub(1)
    } else {
        value.wrapping_add(1)
    }
}

/// A step from a finite BF16 weight lands on a different finite weight.
pub proof fn lemma_bf16_step_finite(bits: u16, positive: bool)
    requires
        bf16_finite(bits),
    ensures
        bf16_finite(bf16_step(bits, positive)),
        bf16_step(bits, positive) != bits,
{
}

/// The BF16 weight a perturbation leaves in place of `base`: the rounded
/// perturbed value `candidate`, unless the directions cancelled or rounding
/// gave back the base, in which case one step from the base toward the
/// strongest direction. A finite weight always changes.
pub fn bf16_pick(base: u16, candidate: u16, cancelled: bool, positive: bool) -> (r: u16)
    ensures
        r == if cancelled || candidate == base {
            bf16_step(base, positive)
        } else {
            candidate
        },
        bf16_finite(base) ==> r != base,
{
    proof {
        if bf16_finite(base) {
            lemma_bf16_step_finite(base, positive);
        }
    }
    if cancelled || candidate == base {
        bf16_next(base, positive)
    } else {
        candidate
    }
}

/// Resident model slots needed for a history of `capacity` rows and `pending`
/// outstanding trials, plus the base row.
pub fn slot_count(capacity: usize, pending: usize) -> (r: Result<usize, String>)
    ensures
        match r {
            Ok(n) => n == capacity + pending + 1,
            Err(e) => capacity + pending + 1 > usize::MAX && e@
                == "BF16 resident slot count overflow"@,
        },
{
    match capacity.checked_add(pending) {
        Some(slots) => match slots.checked_add(1) {
            Some(n) => Ok(n),
            None => Err(String::from_str("BF16 resident slot count overflow")),
        },
        None => Err(String::from_str("BF16 resident slot count overflow")),
    }
}

/// The byte that holds codes `low` (bits 0-3) and `high` (bits 4-7), each
/// truncated to four bits.
pub open spec fn nibble_byte(low: u8, high: u8) -> u8 {
    ((low % 16) + 16 * (high % 16)) as u8
}

/// Codes packed two per byte, low nibble first; an odd last code is paired with zero.
pub open spec fn packed_nibbles(codes: Seq<u8>) -> Seq<u8> {
    Seq::new(
        ((codes.len() + 1) / 2) as nat,
        |i: int|
            nibble_byte(
                codes[2 * i],
                if 2 * i + 1 < codes.len() {
                    codes[2 * i + 1]
                } else {
                    0
                },
            ),
    )
}

/// Packs 4-bit codes two per byte.
pub fn pack_nibbles(codes: &[u8]) -> (r: Vec<u8>)
    ensures
        r@ == packed_nibbles(codes@),
{
    let n = codes.len();
    let pairs = n / 2 + n % 2;
    let mut out: Vec<u8> = Vec::new();
    let mut k: usize = 0;
    while k < pairs
        invariant
            n == codes@.len(),
            pairs == (n + 1) / 2,
            k <= pairs,
            out@.len() == k,
            forall|j: int| 0 <= j < k ==> #[trigger] out@[j] == packed_nibbles(codes@)[j],
        decreases pairs - k,
    {
        assert(2 * k < n);
        let low = codes[2 * k];
        let high = if 2 * k + 1 < n {
            codes[2 * k + 1]
        } else {
            0
        };
        out.push((low % 16) + 16 * (high % 16));
        k = k + 1;
    }
    assert(out@ =~= packed_nibbles(codes@));
    out
}

/// A leaf of a dense parameter tree: `len` parameters from `offset`, keyed by
/// `key`, perturbed with the single-precision scale whose bit pattern is
/// `scale_bits`.
#[derive(Debug, Clone, Copy, PartialEq, Eq, Structural)]
pub struct DenseLeaf {
    pub key: u64,
    pub offset: usize,
    pub len: usize,
    pub scale_bits: u32,
}

impl DenseLeaf {
    /// A leaf with a positive length and a finite, positive scale.
    pub fn new(key: u64, offset: usize, len: usize, scale_bits: u32) -> (r: Result<Self, String>)
        ensures
            match r {
                Ok(l) => len > 0 && f32_bits_positive(scale_bits) && l == (DenseLeaf {
                    key,
                    offset,
                    len,
                    scale_bits,
                }),
                Err(e) => if len == 0 {
                    e@ == "dense leaf length must be positive"@
                } else {
                    !f32_bits_positive(scale_bits) && e@ == "dense leaf scale must be finite and positive"@
                },
            },
    {
        if len == 0 {
            return Err(String::from_str("dense leaf length must be positive"));
        }
        if !(0 < scale_bits && scale_bits < 0x7f80_0000) {
            return Err(String::from_str("dense leaf scale must be finite and positive"));
        }
        Ok(DenseLeaf { key, offset, len, scale_bits })
    }
}

/// A perturbation direction: the seed of its signs and the bit pattern of its
/// single-precision coefficient.
#[derive(Debug, Clone, Copy, PartialEq, Eq, Structural)]
pub struct DenseTerm {
    pub seed: u64,
    pub coefficient_bits: u32,
}

impl DenseTerm {
    /// A term with a finite coefficient.
    pub fn new(seed: u64, coefficient_bits: u32) -> (r: Result<Self, String>)
        ensures
            match r {
                Ok(t) => f32_bits_finite(coefficient_bits) && t == (DenseTerm { seed, coefficient_bits }),
                Err(e) => !f32_bits_finite(coefficient_bits) && e@ == "dense coefficient must be finite"@,
            },
    {
        if coefficient_bits % 0x8000_0000 >= 0x7f80_0000 {
            return Err(String::from_str("dense coefficient must be finite"));
        }
        Ok(DenseTerm { seed, coefficient_bits })
    }
}

/// The leaf has a positive length and a finite, positive scale.
pub open spec fn leaf_ok(l: DenseLeaf) -> bool {
    l.len > 0 && f32_bits_positive(l.scale_bits)
}

/// Checking the leaves from index `i` on, `end` parameters being covered
/// before it: the parameter count they cover, or why they do not form a
/// contiguous layout.
pub open spec fn leaves_scan(leaves: Seq<DenseLeaf>, i: int, end: int) -> Result<int, Seq<char>>
    decreases leaves.len() - i,
{
    if i < 0 || i >= leaves.len() {
        Ok(end)
    } else if leaves[i].offset != end {
        Err(
            "dense leaf offset "@ + decimal(leaves[i].offset as nat) + " does not continue parameter offset "@
                + decimal(end as nat),
        )
    } else if !leaf_ok(leaves[i]) {
        Err("dense leaves require positive lengths and scales"@)
    } else if end + leaves[i].len > usize::MAX {
        Err("dense parameter count overflow"@)
    } else {
        leaves_scan(leaves, i + 1, end + leaves[i].len)
    }
}

/// Why `leaves` is no valid layout (of `expected` parameters, when given),
/// or `None` when it is one.
pub open spec fn leaves_error(leaves: Seq<DenseLeaf>, expected: Option<usize>) -> Option<Seq<char>> {
    if leaves.len() == 0 {
        Some("at least one dense leaf is required"@)
    } else {
        match leaves_scan(leaves, 0, 0) {
            Err(m) => Some(m),
            Ok(end) => match expected {
                Some(count) => if end != count {
                    Some(
                        "dense leaves cover "@ + decimal(end as nat) + " parameters, expected "@ + decimal(
                            count as nat,
                        ),
                    )
                } else {
                    None
                },
                None => None,
            },
        }
    }
}

/// Checks that the leaves tile the parameters contiguously from offset zero,
/// each with a positive length and scale, and cover `expected` parameters
/// when that is given.
pub fn validate_leaves(leaves: &[DenseLeaf], expected: Option<usize>) -> (r: Result<(), String>)
    ensures
        match r {
            Ok(()) => leaves_error(leaves@, expected) is None,
            Err(e) => leaves_error(leaves@, expected) == Some(e@),
        },
{
    if leaves.len() == 0 {
        return Err(String::from_str("at least one dense leaf is required"));
    }
    let mut end: usize = 0;
    let mut i: usize = 0;
    while i < leaves.len()
        invariant
            i <= leaves@.len(),
            leaves_scan(leaves@, 0, 0) == leaves_scan(leaves@, i as int, end as int),
        decreases leaves@.len() - i,
    {
        let leaf = leaves[i];
        if leaf.offset != end {
            let mut m = String::from_str("dense leaf offset ");
            push_decimal(&mut m, leaf.offset as u64);
            m.append(" does not continue parameter offset ");
            push_decimal(&mut m, end as u64);
            proof {
                reveal_strlit("dense leaf offset ");
                reveal_strlit(" does not continue parameter offset ");
                assert(m@ =~= "dense leaf offset "@ + decimal(leaf.offset as nat)
                    + " does not continue parameter offset "@ + decimal(end as nat));
            }
            return Err(m);
        }
        if leaf.len == 0 || !(0 < leaf.scale_bits && leaf.scale_bits < 0x7f80_0000) {
            return Err(String::from_str("dense leaves require positive lengths and scales"));
        }
        end = match leaf.offset.checked_add(leaf.len) {
            Some(e) => e,
            None => return Err(String::from_str("dense parameter count overflow")),
        };
        i = i + 1;
    }
    if let Some(count) = expected {
        if end != count {
            let mut m = String::from_str("dense leaves cover ");
            push_decimal(&mut m, end as u64);
            m.append(" parameters, expected ");
            push_decimal(&mut m, count as u64);
            proof {
                reveal_strlit("dense leaves cover ");
                reveal_strlit(" parameters, expected ");
                assert(m@ =~= "dense leaves cover "@ + decimal(end as nat) + " parameters, expected "@
                    + decimal(count as nat));
            }
            return Err(m);
        }
    }
    Ok(())
}

/// Checks that every coefficient is finite.
pub fn validate_terms(terms: &[DenseTerm]) -> (r: Result<(), String>)
    ensures
        match r {
            Ok(()) => forall|i: int| 0 <= i < terms@.len() ==> f32_bits_finite(#[trigger] terms@[i].coefficient_bits),
            Err(e) => (exists|i: int| 0 <= i < terms@.len() && !f32_bits_finite(#[trigger] terms@[i].coefficient_bits))
                && e@ == "dense coefficients must be finite"@,
        },
{
    let mut i: usize = 0;
    while i < terms.len()
        invariant
            i <= terms@.len(),
            forall|j: int| 0 <= j < i ==> f32_bits_finite(#[trigger] terms@[j].coefficient_bits),
        decreases terms@.len() - i,
    {
        if terms[i].coefficient_bits % 0x8000_0000 >= 0x7f80_0000 {
            assert(!f32_bits_finite(terms@[i as int].coefficient_bits));
            return Err(String::from_str("dense coefficients must be finite"));
        }
        i = i + 1;
    }
    Ok(())
}

/// Whether the perturbation sign of parameter `element` of leaf `leaf` under
/// the term seeded `seed` is positive (else it is negative).
pub open spec fn sign_bit(seed: u64, leaf: u64, element: u64) -> bool {
    splitmix64(seed ^ splitmix64(leaf ^ 0xd6e8_feb8_6659_fd93) ^ splitmix64(element ^ 0xa076_1d64_78bd_642f)) % 2
        == 1
}

/// The perturbation sign of a parameter: positive exactly when the mixed
/// seed, leaf key and element index come out odd.
pub fn sign_positive(seed: u64, leaf: u64, element: u64) -> (r: bool)
    ensures
        r == sign_bit(seed, leaf, element),
{
    let leaf = mix64(leaf ^ 0xd6e8_feb8_6659_fd93);
    let element = mix64(element ^ 0xa076_1d64_78bd_642f);
    let mixed = mix64(seed ^ leaf ^ element);
    assert(mixed & 1 == mixed % 2) by (bit_vector);
    mixed & 1 == 1
}

/// Checks a BF16 base tree: it is not empty, every weight is finite, and the
/// leaves cover exactly its weights.
pub fn bf16_validate(base: &[u16], leaves: &[DenseLeaf]) -> (r: Result<(), String>)
    ensures
        match r {
            Ok(()) => base@.len() > 0 && (forall|i: int| 0 <= i < base@.len() ==> bf16_finite(#[trigger] base@[i]))
                && leaves_error(leaves@, Some(base@.len() as usize)) is None,
            Err(e) => if base@.len() == 0 {
                e@ == "BF16 pytree base cannot be empty"@
            } else if exists|i: int| 0 <= i < base@.len() && !bf16_finite(#[trigger] base@[i]) {
                e@ == "BF16 pytree base values must be finite"@
            } else {
                leaves_error(leaves@, Some(base@.len() as usize)) == Some(e@)
            },
        },
{
    if base.len() == 0 {
        return Err(String::from_str("BF16 pytree base cannot be empty"));
    }
    let mut i: usize = 0;
    while i < base.len()
        invariant
            i <= base@.len(),
            forall|j: int| 0 <= j < i ==> bf16_finite(#[trigger] base@[j]),
        decreases base@.len() - i,
    {
        if base[i] % 0x8000 >= 0x7f80 {
            assert(!bf16_finite(base@[i as int]));
            return Err(String::from_str("BF16 pytree base values must be finite"));
        }
        i = i + 1;
    }
    validate_leaves(leaves, Some(base.len()))
}

/// The BF16 pattern nearest to the single-precision pattern `bits`, ties to
/// even: the upper half, raised by one when the lower half is above one half
/// unit, or exactly one half with an odd upper half (`0xffff` wraps to zero).
pub open spec fn bf16_round(bits: u32) -> u16 {
    let high: u32 = bits >> 16u32;
    let low: u32 = bits & 0xffffu32;
    if low > 0x8000u32 || (low == 0x8000u32 && high & 1u32 == 1u32) {
        if high == 0xffffu32 {
            0u16
        } else {
            (high + 1) as u16
        }
    } else {
        high as u16
    }
}

/// Rounds a single-precision bit pattern to BF16: adds `0x7fff` plus the
/// lowest kept bit and keeps the upper half of the 32-bit sum.
pub fn bf16_encode(bits: u32) -> (r: u16)
    ensures
        r == bf16_round(bits),
{
    let odd: u32 = (bits >> 16) & 1;
    assert(odd <= 1) by (bit_vector)
        requires
            odd == (bits >> 16) & 1,
    ;
    let sum: u64 = bits as u64 + 0x7fff + odd as u64;
    let r = ((sum >> 16) & 0xffff) as u16;
    assert(r == bf16_round(bits)) by (bit_vector)
        requires
            odd == (bits >> 16) & 1,
            sum == bits as u64 + 0x7fff + odd as u64,
            r == ((sum >> 16) & 0xffff) as u16,
    ;
    r
}

/// Parameters per tile of the device perturbation kernels.
pub const TILE_ELEMENTS: usize = 65_536;

/// A piece of one leaf that one device work group perturbs.
#[derive(Debug, Clone, Copy, PartialEq, Eq, Structural)]
pub struct DenseTile {
    pub leaf: u32,
    pub start: u32,
    pub len: u32,
    pub pad: u32,
}

/// The tiles of leaf number `index`, which has `len` parameters: consecutive
/// pieces of `TILE_ELEMENTS` parameters, the last one possibly shorter.
pub open spec fn leaf_tiles(index: int, len: int) -> Seq<DenseTile> {
    Seq::new(
        ((len + TILE_ELEMENTS - 1) / TILE_ELEMENTS as int) as nat,
        |q: int|
            DenseTile {
                leaf: index as u32,
                start: (q * TILE_ELEMENTS) as u32,
                len: (if len - q * TILE_ELEMENTS < TILE_ELEMENTS {
                    len - q * TILE_ELEMENTS
                } else {
                    TILE_ELEMENTS as int
                }) as u32,
                pad: 0,
            },
    )
}

/// The tiles of the leaves from index `i` on, or why a leaf index or a tile
/// start does not fit in 32 bits.
pub open spec fn tiles_scan(leaves: Seq<DenseLeaf>, i: int) -> Result<Seq<DenseTile>, Seq<char>>
    decreases leaves.len() - i,
{
    if i < 0 || i >= leaves.len() {
        Ok(Seq::empty())
    } else if i > u32::MAX {
        Err("dense leaf count exceeds u32"@)
    } else if leaves[i].len > 0x1_0000_0000 {
        Err("dense leaf length exceeds u32"@)
    } else {
        match tiles_scan(leaves, i + 1) {
            Ok(rest) => Ok(leaf_tiles(i, leaves[i].len as int) + rest),
            Err(e) => Err(e),
        }
    }
}

/// Splits every leaf into tiles of at most `TILE_ELEMENTS` parameters, in leaf
/// order.
pub fn tiles(leaves: &[DenseLeaf]) -> (r: Result<Vec<DenseTile>, String>)
    ensures
        match r {
            Ok(t) => tiles_scan(leaves@, 0) == Ok::<Seq<DenseTile>, Seq<char>>(t@),
            Err(e) => tiles_scan(leaves@, 0) == Err::<Seq<DenseTile>, Seq<char>>(e@),
        },
{
    let mut out: Vec<DenseTile> = Vec::new();
    let mut i: usize = 0;
    while i < leaves.len()
        invariant
            i <= leaves@.len(),
            tiles_scan(leaves@, 0) == match tiles_scan(leaves@, i as int) {
                Ok(rest) => Ok(out@ + rest),
                Err(e) => Err::<Seq<DenseTile>, Seq<char>>(e),
            },
        decreases leaves@.len() - i,
    {
        if i > 0xffff_ffff {
            assert(tiles_scan(leaves@, i as int) == Err::<Seq<DenseTile>, Seq<char>>("dense leaf count exceeds u32"@));
            return Err(String::from_str("dense leaf count exceeds u32"));
        }
        let len = leaves[i].len;
        let ghost before = out@;
        let ghost pieces = leaf_tiles(i as int, len as int);
        let mut start: usize = 0;
        let mut q: usize = 0;
        while start < len
            invariant
                i <= 0xffff_ffff,
                i < leaves@.len(),
                len == leaves@[i as int].len,
                start == if q * TILE_ELEMENTS <= len {
                    q * TILE_ELEMENTS
                } else {
                    len as int
                },
                q > 0 ==> (q - 1) * TILE_ELEMENTS < len,
                start <= 0x1_0000_0000,
                pieces == leaf_tiles(i as int, len as int),
                out@ == before + pieces.subrange(0, q as int),
                tiles_scan(leaves@, 0) == match tiles_scan(leaves@, i as int) {
                    Ok(rest) => Ok(before + rest),
                    Err(e) => Err::<Seq<DenseTile>, Seq<char>>(e),
                },
            decreases len - start,
        {
            if start > 0xffff_ffff {
                assert(len > 0x1_0000_0000);
                assert(tiles_scan(leaves@, i as int) == Err::<Seq<DenseTile>, Seq<char>>(
                    "dense leaf length exceeds u32"@,
                ));
                return Err(String::from_str("dense leaf length exceeds u32"));
            }
            let piece = if len - start < TILE_ELEMENTS {
                len - start
            } else {
                TILE_ELEMENTS
            };
            out.push(DenseTile { leaf: i as u32, start: start as u32, len: piece as u32, pad: 0 });
            proof {
                assert(start == q * TILE_ELEMENTS);
                assert(q < pieces.len());
                assert(pieces[q as int] == DenseTile {
                    leaf: i as u32,
                    start: start as u32,
                    len: piece as u32,
                    pad: 0,
                });
                assert(out@ =~= before + pieces.subrange(0, q + 1));
            }
            start = start + piece;
            q = q + 1;
        }
        proof {
            assert(start == len);
            assert(q == pieces.len());
            assert(pieces.subrange(0, q as int) =~= pieces);
            assert(out@ =~= before + pieces);
            assert(len <= 0x1_0000_0000);
        }
        i = i + 1;
        proof {
            assert(tiles_scan(leaves@, (i - 1) as int) == match tiles_scan(leaves@, i as int) {
                Ok(rest) => Ok(pieces + rest),
                Err(e) => Err::<Seq<DenseTile>, Seq<char>>(e),
            });
            if let Ok(rest) = tiles_scan(leaves@, i as int) {
                assert(before + (pieces + rest) =~= out@ + rest);
            }
        }
    }
    proof {
        assert(out@ + Seq::<DenseTile>::empty() =~= out@);
    }
    Ok(out)
}

/// Where a fused linear layer's perturbation coordinates start: `start` in
/// the key space of `key`, with the bit pattern of its scale.
#[derive(Debug, Clone, Copy, PartialEq, Eq, Structural)]
pub struct DenseView {
    pub key: u64,
    pub start: u64,
    pub scale_bits: u32,
}

impl DenseView {
    /// A view with a finite, positive scale.
    pub fn new(key: u64, start: u64, scale_bits: u32) -> (r: Result<Self, String>)
        ensures
            match r {
                Ok(v) => f32_bits_positive(scale_bits) && v == (DenseView { key, start, scale_bits }),
                Err(e) => !f32_bits_positive(scale_bits) && e@ == "dense view scale must be finite and positive"@,
            },
    {
        if !(0 < scale_bits && scale_bits < 0x7f80_0000) {
            return Err(String::from_str("dense view scale must be finite and positive"));
        }
        Ok(DenseView { key, start, scale_bits })
    }
}

/// Every pattern of `values` is a finite single-precision value.
pub open spec fn all_finite(values: Seq<u32>) -> bool {
    forall|i: int| 0 <= i < values.len() ==> f32_bits_finite(#[trigger] values[i])
}

/// Why a linear layer of weights `weight` (rows of `columns`), optional bias
/// and views cannot be evaluated, or `None` when it can.
pub open spec fn model_error(
    weight: Seq<u32>,
    columns: usize,
    bias: Option<Seq<u32>>,
    weight_view: DenseView,
    bias_view: Option<DenseView>,
) -> Option<Seq<char>> {
    if columns == 0 || weight.len() == 0 || weight.len() % (columns as nat) != 0 {
        Some("dense linear weight must contain complete non-empty rows"@)
    } else if bias is Some && bias->0.len() != weight.len() / (columns as nat) {
        Some("dense linear bias length must equal the weight row count"@)
    } else if (bias is Some) != (bias_view is Some) {
        Some("dense linear bias and bias view must be supplied together"@)
    } else if !all_finite(weight) || (bias is Some && !all_finite(bias->0)) {
        Some("dense linear weights must be finite"@)
    } else if !f32_bits_positive(weight_view.scale_bits) {
        Some("dense linear weight scale must be finite and positive"@)
    } else if bias_view is Some && !f32_bits_positive(bias_view->0.scale_bits) {
        Some("dense linear bias scale must be finite and positive"@)
    } else if weight_view.start + weight.len() > u64::MAX {
        Some("dense linear weight coordinates overflow u64"@)
    } else if bias_view is Some && bias_view->0.start + weight.len() / (columns as nat) > u64::MAX {
        Some("dense linear bias coordinates overflow u64"@)
    } else {
        None
    }
}

fn any_non_finite(values: &[u32]) -> (r: bool)
    ensures
        r == !all_finite(values@),
{
    let mut i: usize = 0;
    while i < values.len()
        invariant
            i <= values@.len(),
            forall|j: int| 0 <= j < i ==> f32_bits_finite(#[trigger] values@[j]),
        decreases values@.len() - i,
    {
        if values[i] % 0x8000_0000 >= 0x7f80_0000 {
            assert(!f32_bits_finite(values@[i as int]));
            return true;
        }
        i = i + 1;
    }
    false
}

/// Checks a fused linear layer and returns its row count.
pub fn validate_model(
    weight: &[u32],
    columns: usize,
    bias: Option<&[u32]>,
    weight_view: DenseView,
    bias_view: Option<DenseView>,
) -> (r: Result<usize, String>)
    ensures
        ({
            let b = match bias {
                Some(v) => Some(v@),
                None => None::<Seq<u32>>,
            };
            match r {
                Ok(rows) => model_error(weight@, columns, b, weight_view, bias_view) is None && rows
                    == weight@.len() / (columns as nat),
                Err(e) => model_error(weight@, columns, b, weight_view, bias_view) == Some(e@),
            }
        }),
{
    if columns == 0 || weight.len() == 0 || weight.len() % columns != 0 {
        return Err(String::from_str("dense linear weight must contain complete non-empty rows"));
    }
    let rows = weight.len() / columns;
    if let Some(values) = bias {
        if values.len() != rows {
            return Err(String::from_str("dense linear bias length must equal the weight row count"));
        }
    }
    if bias.is_some() != bias_view.is_some() {
        return Err(String::from_str("dense linear bias and bias view must be supplied together"));
    }
    let bad_bias = match bias {
        Some(values) => any_non_finite(values),
        None => false,
    };
    if any_non_finite(weight) || bad_bias {
        return Err(String::from_str("dense linear weights must be finite"));
    }
    if !(0 < weight_view.scale_bits && weight_view.scale_bits < 0x7f80_0000) {
        return Err(String::from_str("dense linear weight scale must be finite and positive"));
    }
    if let Some(view) = bias_view {
        if !(0 < view.scale_bits && view.scale_bits < 0x7f80_0000) {
            return Err(String::from_str("dense linear bias scale must be finite and positive"));
        }
    }
    if weight_view.start.checked_add(weight.len() as u64).is_none() {
        return Err(String::from_str("dense linear weight coordinates overflow u64"));
    }
    if let Some(view) = bias_view {
        if view.start.checked_add(rows as u64).is_none() {
            return Err(String::from_str("dense linear bias coordinates overflow u64"));
        }
    }
    Ok(rows)
}

/// Checks a dense perturbation before it is applied: the base values (by
/// their bit patterns) must be present and finite, the leaves must tile them,
/// the coefficients must be finite, and `has_direction` tells whether the
/// terms add up to a non-zero direction.
pub fn dense_validate(base: &[u32], leaves: &[DenseLeaf], terms: &[DenseTerm], has_direction: bool) -> (r: Result<
    (),
    String,
>)
    ensures
        match r {
            Ok(()) => {
                &&& base@.len() > 0
                &&& all_finite(base@)
                &&& leaves_error(leaves@, Some(base@.len() as usize)) is None
                &&& forall|i: int| 0 <= i < terms@.len() ==> f32_bits_finite(#[trigger] terms@[i].coefficient_bits)
                &&& has_direction
            },
            Err(e) => if base@.len() == 0 {
                e@ == "dense base cannot be empty"@
            } else if !all_finite(base@) {
                e@ == "dense base values must be finite"@
            } else if leaves_error(leaves@, Some(base@.len() as usize)) is Some {
                leaves_error(leaves@, Some(base@.len() as usize)) == Some(e@)
            } else if exists|i: int| 0 <= i < terms@.len() && !f32_bits_finite(#[trigger] terms@[i].coefficient_bits) {
                e@ == "dense coefficients must be finite"@
            } else {
                !has_direction && e@ == "dense terms cancel to zero"@
            },
        },
{
    if base.len() == 0 {
        return Err(String::from_str("dense base cannot be empty"));
    }
    if any_non_finite(base) {
        return Err(String::from_str("dense base values must be finite"));
    }
    match validate_leaves(leaves, Some(base.len())) {
        Ok(()) => {},
        Err(e) => {
            return Err(e);
        },
    }
    match validate_terms(terms) {
        Ok(()) => {},
        Err(e) => {
            return Err(e);
        },
    }
    if !has_direction {
        return Err(String::from_str("dense terms cancel to zero"));
    }
    Ok(())
}

/// The message that refuses an input to a dense linear layer of `columns`
/// columns.
pub open spec fn input_message(columns: nat) -> Seq<char> {
    "dense linear input must contain "@ + decimal(columns) + " finite values"@
}

/// Checks the input of a dense linear evaluation: `columns` finite values (by
/// their bit patterns), at least one term, finite coefficients, and
/// `has_direction` telling whether the terms add up to a non-zero direction.
pub fn validate_eval(input: &[u32], columns: usize, terms: &[DenseTerm], has_direction: bool) -> (r: Result<
    (),
    String,
>)
    ensures
        match r {
            Ok(()) => {
                &&& input@.len() == columns
                &&& all_finite(input@)
                &&& terms@.len() > 0
                &&& forall|i: int| 0 <= i < terms@.len() ==> f32_bits_finite(#[trigger] terms@[i].coefficient_bits)
                &&& has_direction
            },
            Err(e) => if input@.len() != columns || !all_finite(input@) {
                e@ == input_message(columns as nat)
            } else if terms@.len() == 0 || exists|i: int|
                0 <= i < terms@.len() && !f32_bits_finite(#[trigger] terms@[i].coefficient_bits) {
                e@ == "dense linear requires finite perturbation terms"@
            } else {
                !has_direction && e@ == "dense linear terms cancel to zero"@
            },
        },
{
    if input.len() != columns || any_non_finite(input) {
        let mut msg = String::from_str("dense linear input must contain ");
        push_decimal(&mut msg, columns as u64);
        msg.append(" finite values");
        proof {
            reveal_strlit("dense linear input must contain ");
            reveal_strlit(" finite values");
            assert(msg@ =~= input_message(columns as nat));
        }
        return Err(msg);
    }
    if terms.len() == 0 || validate_terms(terms).is_err() {
        return Err(String::from_str("dense linear requires finite perturbation terms"));
    }
    if !has_direction {
        return Err(String::from_str("dense linear terms cancel to zero"));
    }
    Ok(())
}

/// Checks a dense linear evaluation of `input`: the layer first, with one
/// column per input value, then the input and terms. Gives the row count.
pub fn linear_validate(
    input: &[u32],
    weight: &[u32],
    bias: Option<&[u32]>,
    weight_view: DenseView,
    bias_view: Option<DenseView>,
    terms: &[DenseTerm],
    has_direction: bool,
) -> (r: Result<usize, String>)
    ensures
        ({
            let b = match bias {
                Some(v) => Some(v@),
                None => None::<Seq<u32>>,
            };
            match r {
                Ok(rows) => {
                    &&& model_error(weight@, input@.len() as usize, b, weight_view, bias_view) is None
                    &&& rows == weight@.len() / input@.len()
                    &&& all_finite(input@)
                    &&& terms@.len() > 0
                    &&& forall|i: int| 0 <= i < terms@.len() ==> f32_bits_finite(#[trigger] terms@[i].coefficient_bits)
                    &&& has_direction
                },
                Err(e) => if model_error(weight@, input@.len() as usize, b, weight_view, bias_view) is Some {
                    model_error(weight@, input@.len() as usize, b, weight_view, bias_view) == Some(e@)
                } else if !all_finite(input@) {
                    e@ == input_message(input@.len())
                } else if terms@.len() == 0 || exists|i: int|
                    0 <= i < terms@.len() && !f32_bits_finite(#[trigger] terms@[i].coefficient_bits) {
                    e@ == "dense linear requires finite perturbation terms"@
                } else {
                    !has_direction && e@ == "dense linear terms cancel to zero"@
                },
            }
        }),
{
    let rows = match validate_model(weight, input.len(), bias, weight_view, bias_view) {
        Ok(rows) => rows,
        Err(e) => {
            return Err(e);
        },
    };
    match validate_eval(input, input.len(), terms, has_direction) {
        Ok(()) => Ok(rows),
        Err(e) => Err(e),
    }
}

} // verus!

//! Helpers of the STARK prover that stand on their own.
use vstd::prelude::*;
use vstd::arithmetic::power2::pow2;
use vstd::bits::lemma_u128_shr_is_div;

verus! {

/// Byte `k` of `v`, counting from the least significant.
pub open spec fn byte_of(v: u128, k: nat) -> u8 {
    ((v as nat / pow2(8 * k)) % 256) as u8
}

/// The 16 bytes of `v`, least significant first: its layout in memory on a little-endian
/// machine.
pub open spec fn le_bytes(v: u128) -> Seq<u8> {
    Seq::new(16, |k: int| byte_of(v, k as nat))
}

/// The 16 bytes of `v`, most significant first: its layout in memory on a big-endian
/// machine.
pub open spec fn be_bytes(v: u128) -> Seq<u8> {
    Seq::new(16, |k: int| byte_of(v, (15 - k) as nat))
}

/// The bytes of `v` least significant first if `little`, else most significant first.
pub open spec fn bytes_in(v: u128, little: bool) -> Seq<u8> {
    if little {
        le_bytes(v)
    } else {
        be_bytes(v)
    }
}

/// The leaf made of two consecutive values: the bytes of the first, then those of the
/// second, each in the byte order `little` picks.
pub open spec fn leaf(a: u128, b: u128, little: bool) -> Seq<u8> {
    bytes_in(a, little) + bytes_in(b, little)
}

/// The leaves of `evaluations` with their values laid out in the byte order `little` picks.
pub open spec fn leaves_of(evaluations: Seq<u128>, little: bool) -> Seq<Seq<u8>> {
    Seq::new(evaluations.len() / 2, |i: int| leaf(evaluations[2 * i], evaluations[2 * i + 1], little))
}

/// The memory layout of `v` on this machine: std's `u128::to_ne_bytes`, whose
/// documentation gives the bytes in the target's native byte order, so least significant
/// first on a little-endian target and most significant first on a big-endian one. Which
/// of the two is not stated: it is a property of the machine.
#[verifier::external_body]
fn native_bytes(v: u128) -> (b: [u8; 16])
    ensures
        b@ == le_bytes(v) || b@ == be_bytes(v),
{
    v.to_ne_bytes()
}

fn write_bytes(out: &mut [u8; 32], off: usize, v: u128, little: bool)
    requires
        off == 0 || off == 16,
    ensures
        final(out)@.len() == 32,
        forall|i: int| 0 <= i < 32 && !(off <= i < off + 16) ==> final(out)@[i] == old(out)@[i],
        forall|k: int| 0 <= k < 16 ==> final(out)@[off + k] == #[trigger] bytes_in(v, little)[k],
{
    let mut k: usize = 0;
    while k < 16
        invariant
            off == 0 || off == 16,
            k <= 16,
            out@.len() == 32,
            forall|i: int| 0 <= i < 32 && !(off <= i < off + k) ==> out@[i] == old(out)@[i],
            forall|j: int| 0 <= j < k ==> out@[off + j] == #[trigger] bytes_in(v, little)[j],
        decreases 16 - k,
    {
        let pos: usize = if little { k } else { 15 - k };
        let shift: u128 = 8 * pos as u128;
        let y = v >> shift;
        proof {
            lemma_u128_shr_is_div(v, shift);
        }
        let b = (y & 0xff) as u8;
        assert(b == (y % 256) as u8) by (bit_vector)
            requires b == (y & 0xff) as u8;
        assert(b == byte_of(v, pos as nat));
        assert(b == bytes_in(v, little)[k as int]);
        out[off + k] = b;
        k = k + 1;
    }
}

/// Re-interprets a vector of 16-byte values as a vector of 32-byte leaves, as this
/// machine lays them out in memory: leaf `i` holds the bytes of values `2i` and `2i + 1`,
/// all in the machine's native byte order (least significant first on a little-endian
/// machine, most significant first on a big-endian one), which is read from the layout of
/// the value 1.
pub fn evaluations_to_leaves(evaluations: Vec<u128>) -> (leaves: Vec<[u8; 32]>)
    requires
        evaluations.len() % 2 == 0,
    ensures
        leaves.len() == evaluations.len() / 2,
        (forall|i: int| 0 <= i < leaves.len() ==> (#[trigger] leaves[i])@ == leaves_of(evaluations@, true)[i])
            || (forall|i: int| 0 <= i < leaves.len() ==> (#[trigger] leaves[i])@ == leaves_of(evaluations@, false)[i]),
{
    let one = native_bytes(1);
    let little = one[0] == 1;
    evaluations_to_leaves_in(evaluations, little)
}

/// Lays out a vector of 16-byte values as 32-byte leaves in the byte order `little`
/// picks: leaf `i` holds the bytes of values `2i` and `2i + 1`.
pub fn evaluations_to_leaves_in(evaluations: Vec<u128>, little: bool) -> (leaves: Vec<[u8; 32]>)
    requires
        evaluations.len() % 2 == 0,
    ensures
        leaves.len() == evaluations.len() / 2,
        forall|i: int| 0 <= i < leaves.len() ==> (#[trigger] leaves[i])@ == leaves_of(evaluations@, little)[i],
{
    let n = evaluations.len() / 2;
    let mut leaves: Vec<[u8; 32]> = Vec::new();
    let mut i: usize = 0;
    while i < n
        invariant
            n == evaluations.len() / 2,
            evaluations.len() % 2 == 0,
            i <= n,
            leaves.len() == i,
            forall|j: int| 0 <= j < i ==> (#[trigger] leaves[j])@ == leaf(evaluations[2 * j], evaluations[2 * j + 1], little),
        decreases n - i,
    {
        let mut bytes = [0u8; 32];
        write_bytes(&mut bytes, 0, evaluations[2 * i], little);
        write_bytes(&mut bytes, 16, evaluations[2 * i + 1], little);
        assert(bytes@ =~= leaf(evaluations[2 * i as int], evaluations[2 * i + 1], little));
        leaves.push(bytes);
        i = i + 1;
    }
    leaves
}

} // verus!

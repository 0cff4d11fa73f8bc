//! What the hash of control points is taken of.
use crate::arithmetic::product;
use crate::double::Double;
use crate::quantization::{
    grid_scale, hash_input, low_bytes, number_bytes, point_bytes, points_hash, twos_complement,
    xxh32_digest,
};
use crate::spans::ControlPoint;
use vstd::prelude::*;

verus! {

/// The number that a row of bytes stands for, the lowest byte first.
pub open spec fn number_of(bytes: Seq<u8>) -> nat
    decreases bytes.len(),
{
    if bytes.len() == 0 {
        0
    } else {
        bytes[0] as nat + 256 * number_of(bytes.skip(1))
    }
}

/// 256 to the power `n`.
pub open spec fn byte_limit(n: nat) -> nat
    decreases n,
{
    if n == 0 {
        1
    } else {
        256 * byte_limit((n - 1) as nat)
    }
}

/// The lowest bytes of a number that has no others stand for it.
proof fn lemma_bytes_stand_for_the_number(n: nat, count: nat)
    requires
        n < byte_limit(count),
    ensures
        low_bytes(n, count).len() == count,
        number_of(low_bytes(n, count)) == n,
    decreases count,
{
    if count > 0 {
        lemma_bytes_stand_for_the_number(n / 256, (count - 1) as nat);
        assert(low_bytes(n, count).skip(1) =~= low_bytes(n / 256, (count - 1) as nat));
    }
}

/// A number goes into the hash as its step on the grid of millionths, to the nearest one, in
/// eight bytes with the lowest first. A negative step is written as what it is short of two
/// to the power 64; one that is too large for 63 bits is held at the largest.
pub proof fn law_number_is_hashed_as_its_step(v: Double)
    requires
        v.finite(),
        product(v, grid_scale()).finite(),
        product(v, grid_scale()).rounded_whole().floor_magnitude() < 0x8000_0000_0000_0000,
    ensures
        ({
            let scaled = product(v, grid_scale()).rounded_whole();
            let steps = scaled.floor_magnitude();
            &&& number_bytes(v).len() == 8
            &&& !scaled.nan() && !scaled.negative() ==> number_of(number_bytes(v)) == steps
            &&& !scaled.nan() && scaled.negative() && steps > 0 ==> number_of(number_bytes(v))
                + steps == 0x1_0000_0000_0000_0000
        }),
{
    let step = product(v, grid_scale()).rounded_whole().saturated_i64();
    reveal_with_fuel(byte_limit, 9);
    lemma_bytes_stand_for_the_number(twos_complement(step), 8);
}

/// Where a control point's numbers are in the input of the hash: each control point adds
/// its place and its handle, `x` before `y`, after those of the control points before it.
pub proof fn law_hash_reads_every_number(points: Seq<ControlPoint>, i: int)
    requires
        0 <= i < points.len(),
    ensures
        ({
            let input = hash_input(points);
            let p = points[i];
            let at = 32 * i;
            &&& input.len() == 32 * points.len()
            &&& input.subrange(at, at + 8) == number_bytes(p.coordinate.x)
            &&& input.subrange(at + 8, at + 16) == number_bytes(p.coordinate.y)
            &&& input.subrange(at + 16, at + 24) == number_bytes(p.handle_offset.x)
            &&& input.subrange(at + 24, at + 32) == number_bytes(p.handle_offset.y)
        }),
    decreases points.len(),
{
    let before = points.drop_last();
    let last = points.last();
    lemma_input_length(before);
    lemma_point_length(last);
    let (a, b) = (hash_input(before), point_bytes(last));
    let input = hash_input(points);
    assert(input == a + b);
    let at = 32 * i;
    if i < before.len() {
        law_hash_reads_every_number(before, i);
        assert(before[i] == points[i]);
        assert(input.subrange(at, at + 8) =~= a.subrange(at, at + 8));
        assert(input.subrange(at + 8, at + 16) =~= a.subrange(at + 8, at + 16));
        assert(input.subrange(at + 16, at + 24) =~= a.subrange(at + 16, at + 24));
        assert(input.subrange(at + 24, at + 32) =~= a.subrange(at + 24, at + 32));
    } else {
        assert(input.subrange(at, at + 8) =~= number_bytes(last.coordinate.x));
        assert(input.subrange(at + 8, at + 16) =~= number_bytes(last.coordinate.y));
        assert(input.subrange(at + 16, at + 24) =~= number_bytes(last.handle_offset.x));
        assert(input.subrange(at + 24, at + 32) =~= number_bytes(last.handle_offset.y));
    }
}

proof fn lemma_low_bytes_length(n: nat, count: nat)
    ensures
        low_bytes(n, count).len() == count,
    decreases count,
{
    if count > 0 {
        lemma_low_bytes_length(n / 256, (count - 1) as nat);
    }
}

proof fn lemma_number_length(v: Double)
    ensures
        number_bytes(v).len() == 8,
{
    lemma_low_bytes_length(
        twos_complement(product(v, grid_scale()).rounded_whole().saturated_i64()),
        8,
    );
}

proof fn lemma_point_length(p: ControlPoint)
    ensures
        point_bytes(p).len() == 32,
        number_bytes(p.coordinate.x).len() == 8,
        number_bytes(p.coordinate.y).len() == 8,
        number_bytes(p.handle_offset.x).len() == 8,
        number_bytes(p.handle_offset.y).len() == 8,
{
    lemma_number_length(p.coordinate.x);
    lemma_number_length(p.coordinate.y);
    lemma_number_length(p.handle_offset.x);
    lemma_number_length(p.handle_offset.y);
}

proof fn lemma_input_length(points: Seq<ControlPoint>)
    ensures
        hash_input(points).len() == 32 * points.len(),
    decreases points.len(),
{
    if points.len() > 0 {
        lemma_input_length(points.drop_last());
        lemma_point_length(points.last());
    }
}

/// The hash is the 32-bit xxHash of that input, under the seed zero.
pub proof fn law_hash_is_taken_under_seed_zero(points: Seq<ControlPoint>)
    ensures
        points_hash(points) == xxh32_digest(hash_input(points), 0),
{
}

} // verus!

//! The grid that stored curves are rounded to, and their hash.
use crate::arithmetic::{product, quotient};
use crate::curve::Position;
use crate::double::Double;
use crate::spans::ControlPoint;
use vstd::prelude::*;

verus! {

/// The seed of the hash.
pub const XXH32_SEED: u32 = 0;

/// One million: how many steps of the grid there are to a unit.
pub const HASH_QUANTIZATION_UNIT_INV: u64 = 0x412e_8480_0000_0000;

/// One million as a number.
pub open spec fn grid_scale() -> Double {
    Double { bits: HASH_QUANTIZATION_UNIT_INV }
}

/// The number in steps of the grid, to the nearest step.
pub open spec fn grid_steps(v: Double) -> Double {
    product(v, grid_scale()).rounded_whole()
}

/// The number moved to the nearest step of the grid.
#[verifier::opaque]
pub open spec fn on_grid(v: Double) -> Double {
    quotient(grid_steps(v), grid_scale())
}

/// The position moved to the grid.
pub open spec fn position_on_grid(p: Position) -> Position {
    Position { x: on_grid(p.x), y: on_grid(p.y) }
}

/// The control point moved to the grid.
pub open spec fn point_on_grid(p: ControlPoint) -> ControlPoint {
    ControlPoint {
        coordinate: position_on_grid(p.coordinate),
        handle_offset: position_on_grid(p.handle_offset),
    }
}

/// The control points moved to the grid.
pub open spec fn points_on_grid(points: Seq<ControlPoint>) -> Seq<ControlPoint> {
    points.map_values(|p: ControlPoint| point_on_grid(p))
}

/// Moves a number to the grid.
pub fn quantize(v: Double) -> (r: Double)
    ensures
        r == on_grid(v),
{
    proof {
        reveal(on_grid);
    }
    let scale = Double::from_bits(HASH_QUANTIZATION_UNIT_INV);
    v.times(scale).round().over(scale)
}

pub fn round_curve_points(points: &mut Vec<ControlPoint>)
    ensures
        final(points)@ == points_on_grid(old(points)@),
{
    let mut i: usize = 0;
    let ghost before = points@;
    while i < points.len()
        invariant
            i <= points.len(),
            before == old(points)@,
            points@.len() == before.len(),
            forall|j: int| 0 <= j < i ==> points@[j] == point_on_grid(before[j]),
            forall|j: int| i <= j < before.len() ==> points@[j] == before[j],
        decreases points.len() - i,
    {
        let p = points[i];
        points.set(
            i,
            ControlPoint {
                coordinate: Position {
                    x: quantize(p.coordinate.x),
                    y: quantize(p.coordinate.y),
                },
                handle_offset: Position {
                    x: quantize(p.handle_offset.x),
                    y: quantize(p.handle_offset.y),
                },
            },
        );
        i = i + 1;
    }
    assert(points@ =~= points_on_grid(before));
}

/// The lowest `count` bytes of a number, the lowest first.
pub open spec fn low_bytes(n: nat, count: nat) -> Seq<u8>
    decreases count,
{
    if count == 0 {
        Seq::empty()
    } else {
        seq![(n % 256) as u8] + low_bytes(n / 256, (count - 1) as nat)
    }
}

/// A signed 64-bit integer as the unsigned one with the same bits.
pub open spec fn twos_complement(v: int) -> nat {
    if v < 0 {
        (v + 0x1_0000_0000_0000_0000) as nat
    } else {
        v as nat
    }
}

/// What a number adds to the input of the hash: its step on the grid, in eight bytes.
pub open spec fn number_bytes(v: Double) -> Seq<u8> {
    low_bytes(twos_complement(grid_steps(v).saturated_i64()), 8)
}

/// What a control point adds to the input of the hash.
pub open spec fn point_bytes(p: ControlPoint) -> Seq<u8> {
    number_bytes(p.coordinate.x) + number_bytes(p.coordinate.y) + number_bytes(p.handle_offset.x)
        + number_bytes(p.handle_offset.y)
}

/// The input of the hash: what each control point adds, in order.
pub open spec fn hash_input(points: Seq<ControlPoint>) -> Seq<u8>
    decreases points.len(),
{
    if points.len() == 0 {
        Seq::empty()
    } else {
        hash_input(points.drop_last()) + point_bytes(points.last())
    }
}

/// The 32-bit xxHash of the bytes, under the seed.
pub uninterp spec fn xxh32_digest(input: Seq<u8>, seed: u32) -> u32;

/// Calls `xxhash_rust::xxh32::xxh32`, which hashes the whole input at once. Its
/// result is a function of the bytes and of the seed alone; which one it is, is
/// left to the name `xxh32_digest`.
#[verifier::external_body]
fn xxh32(input: &[u8], seed: u32) -> (r: u32)
    ensures
        r == xxh32_digest(input@, seed),
{
    xxhash_rust::xxh32::xxh32(input, seed)
}

/// The hash of a row of control points.
pub open spec fn points_hash(points: Seq<ControlPoint>) -> u32 {
    xxh32_digest(hash_input(points), XXH32_SEED)
}

fn push_number(bytes: &mut Vec<u8>, v: Double)
    ensures
        final(bytes)@ == old(bytes)@ + number_bytes(v),
{
    let scale = Double::from_bits(HASH_QUANTIZATION_UNIT_INV);
    let step: i64 = v.times(scale).round().to_i64();
    let mut rest: u64 = step as u64;
    assert(step < 0 ==> step as u64 == step + 0x1_0000_0000_0000_0000) by (bit_vector);
    let ghost all = twos_complement(step as int);
    assert(rest == all);
    let mut left: u64 = 8;
    let ghost before = bytes@;
    while left > 0
        invariant
            left <= 8,
            bytes@ + low_bytes(rest as nat, left as nat) == before + low_bytes(all, 8),
        decreases left,
    {
        let ghost sofar = bytes@;
        let ghost whole = rest;
        bytes.push((rest % 256) as u8);
        rest = rest / 256;
        left = left - 1;
        assert(bytes@ + low_bytes(rest as nat, left as nat) =~= sofar + low_bytes(
            whole as nat,
            (left + 1) as nat,
        ));
    }
    assert(bytes@ + low_bytes(rest as nat, 0) =~= bytes@);
}

/// The bytes that the hash of the control points is taken of.
pub fn hash_bytes(points: &[ControlPoint]) -> (bytes: Vec<u8>)
    ensures
        bytes@ == hash_input(points@),
{
    let mut bytes: Vec<u8> = Vec::new();
    let mut i: usize = 0;
    while i < points.len()
        invariant
            i <= points.len(),
            bytes@ == hash_input(points@.take(i as int)),
        decreases points.len() - i,
    {
        let p = points[i];
        let ghost before = bytes@;
        push_number(&mut bytes, p.coordinate.x);
        push_number(&mut bytes, p.coordinate.y);
        push_number(&mut bytes, p.handle_offset.x);
        push_number(&mut bytes, p.handle_offset.y);
        assert(bytes@ =~= before + point_bytes(p));
        assert(points@.take(i + 1).drop_last() =~= points@.take(i as int));
        i = i + 1;
    }
    assert(points@.take(i as int) =~= points@);
    bytes
}

pub fn curve_hash(points: &[ControlPoint]) -> (r: u32)
    ensures
        r == points_hash(points@),
{
    let bytes = hash_bytes(points);
    xxh32(bytes.as_slice(), XXH32_SEED)
}

} // verus!

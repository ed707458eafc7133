//! Numbering of the eight octants of a box around its center.
//!
//! Octant `o` has bit 0 set when it lies on the upper side of the center on the x axis,
//! bit 1 for the y axis and bit 2 for the z axis.

use vstd::prelude::*;

verus! {

/// The octant number of a point that lies above the center on the axes marked `true`.
pub open spec fn octant_spec(above_x: bool, above_y: bool, above_z: bool) -> int {
    (if above_z { 4int } else { 0int }) + (if above_y { 2int } else { 0int }) + (if above_x {
        1int
    } else {
        0int
    })
}

/// Whether octant `octant` lies on the upper side of the center on axis `axis`
/// (0 for x, 1 for y, 2 for z).
pub open spec fn upper_side_spec(octant: int, axis: int) -> bool {
    if axis == 0 {
        octant % 2 == 1
    } else if axis == 1 {
        (octant / 2) % 2 == 1
    } else {
        (octant / 4) % 2 == 1
    }
}

/// Assembles the octant number from the three side tests of a point against a box center.
pub fn octant_index(above_x: bool, above_y: bool, above_z: bool) -> (octant: usize)
    ensures
        octant == octant_spec(above_x, above_y, above_z),
        octant < 8,
{
    let x: usize = if above_x { 1 } else { 0 };
    let y: usize = if above_y { 1 } else { 0 };
    let z: usize = if above_z { 1 } else { 0 };
    let octant = (z << 2) | (y << 1) | x;
    assert(octant == 4 * z + 2 * y + x) by (bit_vector)
        requires
            x <= 1,
            y <= 1,
            z <= 1,
            octant == (z << 2) | (y << 1) | x,
    ;
    octant
}

/// Whether octant `octant` lies on the upper side of the center on axis `axis`:
/// bit `axis` of the octant number.
pub fn upper_side(octant: usize, axis: usize) -> (upper: bool)
    requires
        axis < 3,
    ensures
        upper == upper_side_spec(octant as int, axis as int),
{
    let bit = (octant >> axis) & 1;
    proof {
        if axis == 0 {
            assert(((octant >> 0usize) & 1usize == 1usize) == (octant % 2 == 1)) by (bit_vector);
        } else if axis == 1 {
            assert(((octant >> 1usize) & 1usize == 1usize) == ((octant / 2) % 2 == 1))
                by (bit_vector);
        } else {
            assert(((octant >> 2usize) & 1usize == 1usize) == ((octant / 4) % 2 == 1))
                by (bit_vector);
        }
    }
    bit == 1
}

/// Reading the three sides of an octant back and numbering them gives the octant again:
/// the child box that `into_octant` builds for octant `o` is the one `find_octant` reports as `o`.
pub proof fn lemma_octant_of_sides(octant: int)
    requires
        0 <= octant < 8,
    ensures
        octant_spec(
            upper_side_spec(octant, 0),
            upper_side_spec(octant, 1),
            upper_side_spec(octant, 2),
        ) == octant,
{
}

/// Numbering three side tests and reading the sides back gives the same three tests.
pub proof fn lemma_sides_of_octant(above_x: bool, above_y: bool, above_z: bool)
    ensures
        upper_side_spec(octant_spec(above_x, above_y, above_z), 0) == above_x,
        upper_side_spec(octant_spec(above_x, above_y, above_z), 1) == above_y,
        upper_side_spec(octant_spec(above_x, above_y, above_z), 2) == above_z,
{
}

} // verus!

//! The physical quantities that can be drawn as an arrow on each body.

use vstd::prelude::*;

verus! {

/// A vector quantity of a body.
#[derive(Clone, Copy, PartialEq, Eq, Structural, Debug)]
pub enum PhysicalQuantity {
    Velocity,
    Impulse,
    Acceleration,
    Force,
}

/// An opaque colour by its red, green and blue parts.
#[derive(Clone, Copy, PartialEq, Eq, Structural, Debug)]
pub struct Rgb {
    pub r: u8,
    pub g: u8,
    pub b: u8,
}

/// Reads `egui::Color32::LIGHT_RED`, which egui defines as the opaque colour
/// with red 255, green 128 and blue 128. The contract repeats that
/// definition; it is not proved here.
#[verifier::external_body]
fn light_red() -> (c: Rgb)
    ensures
        c == (Rgb { r: 255, g: 128, b: 128 }),
{
    let c = egui::Color32::LIGHT_RED;
    Rgb { r: c.r(), g: c.g(), b: c.b() }
}

/// Reads `egui::Color32::LIGHT_GREEN`, which egui defines as the opaque
/// colour with red 144, green 238 and blue 144. The contract repeats that
/// definition; it is not proved here.
#[verifier::external_body]
fn light_green() -> (c: Rgb)
    ensures
        c == (Rgb { r: 144, g: 238, b: 144 }),
{
    let c = egui::Color32::LIGHT_GREEN;
    Rgb { r: c.r(), g: c.g(), b: c.b() }
}

impl PhysicalQuantity {
    /// The colour of the quantity's arrow.
    pub open spec fn spec_color(self) -> Rgb {
        match self {
            PhysicalQuantity::Velocity => Rgb { r: 255, g: 128, b: 128 },
            PhysicalQuantity::Impulse => Rgb { r: 156, g: 245, b: 255 },
            PhysicalQuantity::Acceleration => Rgb { r: 144, g: 238, b: 144 },
            PhysicalQuantity::Force => Rgb { r: 250, g: 255, b: 105 },
        }
    }

    /// The unit in which the quantity is shown.
    pub open spec fn spec_unit_name(self) -> Seq<char> {
        match self {
            PhysicalQuantity::Velocity => "km/sec"@,
            PhysicalQuantity::Impulse => "kg*km/sec"@,
            PhysicalQuantity::Acceleration => "km/sec^2"@,
            PhysicalQuantity::Force => "kg*km/sec^2"@,
        }
    }

    /// The quantity's place in a table with one entry per quantity.
    pub open spec fn spec_index(self) -> nat {
        match self {
            PhysicalQuantity::Velocity => 0,
            PhysicalQuantity::Impulse => 1,
            PhysicalQuantity::Acceleration => 2,
            PhysicalQuantity::Force => 3,
        }
    }

    /// The colour of the quantity's arrow.
    pub fn color(self) -> (c: Rgb)
        ensures
            c == self.spec_color(),
    {
        match self {
            PhysicalQuantity::Velocity => light_red(),
            PhysicalQuantity::Impulse => Rgb { r: 156, g: 245, b: 255 },
            PhysicalQuantity::Acceleration => light_green(),
            PhysicalQuantity::Force => Rgb { r: 250, g: 255, b: 105 },
        }
    }

    /// The unit in which the quantity is shown.
    pub fn unit_name(self) -> (name: &'static str)
        ensures
            name@ == self.spec_unit_name(),
    {
        match self {
            PhysicalQuantity::Velocity => "km/sec",
            PhysicalQuantity::Impulse => "kg*km/sec",
            PhysicalQuantity::Acceleration => "km/sec^2",
            PhysicalQuantity::Force => "kg*km/sec^2",
        }
    }

    /// The quantity's place in a table with one entry per quantity.
    pub fn index(self) -> (i: usize)
        ensures
            i == self.spec_index(),
            i < 4,
    {
        match self {
            PhysicalQuantity::Velocity => 0,
            PhysicalQuantity::Impulse => 1,
            PhysicalQuantity::Acceleration => 2,
            PhysicalQuantity::Force => 3,
        }
    }
}

/// Different quantities have different places in a table.
pub proof fn lemma_index_injective(a: PhysicalQuantity, b: PhysicalQuantity)
    requires
        a.spec_index() == b.spec_index(),
    ensures
        a == b,
{
}

} // verus!

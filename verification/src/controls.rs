//! What the keys and the wheel mean, apart from reading them.

use vstd::prelude::*;
use crate::quantity::PhysicalQuantity;

verus! {

/// What a turn of the mouse wheel changes.
#[derive(Clone, Copy, PartialEq, Eq, Structural, Debug)]
pub enum WheelTarget {
    /// The turn is ignored.
    Nothing,
    /// The mass of the body that is being added.
    Mass,
    /// The size of a grid cell.
    Grid,
    /// The length of the arrows of the quantity that is shown.
    Arrows { quantity: PhysicalQuantity },
    /// The zoom of the view, about the pointer.
    View,
}

/// The quantity whose key is down: V, I, A and F in that precedence.
pub open spec fn spec_pressed_quantity(v: bool, i: bool, a: bool, f: bool) -> Option<
    PhysicalQuantity,
> {
    if v {
        Some(PhysicalQuantity::Velocity)
    } else if i {
        Some(PhysicalQuantity::Impulse)
    } else if a {
        Some(PhysicalQuantity::Acceleration)
    } else if f {
        Some(PhysicalQuantity::Force)
    } else {
        None
    }
}

/// The quantity that is shown after a frame's keys: Escape hides the arrows,
/// the key of the shown quantity hides them too, the key of another quantity
/// shows that one, and without a key nothing changes.
pub open spec fn spec_showed_after(
    current: Option<PhysicalQuantity>,
    escape: bool,
    pressed: Option<PhysicalQuantity>,
) -> Option<PhysicalQuantity> {
    if escape {
        None
    } else if pressed.is_none() {
        current
    } else if pressed == current {
        None
    } else {
        pressed
    }
}

/// What a turn of the wheel changes: while a body is being added its mass,
/// provided the pointer is over the view; else with Ctrl the grid, with Shift
/// the arrows of the shown quantity, and otherwise the view under the pointer.
pub open spec fn spec_wheel_target(
    adding: bool,
    ctrl: bool,
    shift: bool,
    showed: Option<PhysicalQuantity>,
    hovering: bool,
) -> WheelTarget {
    if adding {
        if hovering {
            WheelTarget::Mass
        } else {
            WheelTarget::Nothing
        }
    } else if ctrl {
        WheelTarget::Grid
    } else if shift {
        match showed {
            Some(quantity) => WheelTarget::Arrows { quantity },
            None => WheelTarget::Nothing,
        }
    } else if hovering {
        WheelTarget::View
    } else {
        WheelTarget::Nothing
    }
}

/// A drag after a frame of the pointer: a press starts one at `here`, a
/// release without a press ends it, and otherwise it goes on as it was.
pub open spec fn spec_drag_after<T>(current: Option<T>, pressed: bool, released: bool, here: T)
    -> Option<T> {
    if pressed {
        Some(here)
    } else if released {
        None
    } else {
        current
    }
}

/// The drag that pans the view, after a frame in which the primary button was
/// pressed or released with the pointer at `here`.
pub fn drag_after<T>(current: Option<T>, pressed: bool, released: bool, here: T) -> (next: Option<T>)
    ensures
        next == spec_drag_after(current, pressed, released, here),
{
    if pressed {
        Some(here)
    } else if released {
        None
    } else {
        current
    }
}

/// The drag that aims a new body, after a frame in which the secondary
/// button was pressed or released with the pointer at `here`: the drag that
/// goes on, and the drag that a release completed, from which the body is
/// launched. A release completes the drag that is under way, so there must be
/// one.
pub fn aim_after<T>(current: Option<T>, pressed: bool, released: bool, here: T) -> (next: (
    Option<T>,
    Option<T>,
))
    requires
        !pressed && released ==> current.is_some(),
    ensures
        next.0 == spec_drag_after(current, pressed, released, here),
        next.1 == if !pressed && released {
            current
        } else {
            None
        },
{
    if pressed {
        (Some(here), None)
    } else if released {
        (None, current)
    } else {
        (current, None)
    }
}

/// The quantity whose key is down, by which of the keys V, I, A and F were
/// pressed in this frame.
pub fn pressed_quantity(v: bool, i: bool, a: bool, f: bool) -> (pressed: Option<PhysicalQuantity>)
    ensures
        pressed == spec_pressed_quantity(v, i, a, f),
{
    if v {
        Some(PhysicalQuantity::Velocity)
    } else if i {
        Some(PhysicalQuantity::Impulse)
    } else if a {
        Some(PhysicalQuantity::Acceleration)
    } else if f {
        Some(PhysicalQuantity::Force)
    } else {
        None
    }
}

/// The quantity that is shown after a frame in which Escape was pressed or
/// not and `pressed` is the quantity whose key went down, if any.
pub fn showed_after(
    current: Option<PhysicalQuantity>,
    escape: bool,
    pressed: Option<PhysicalQuantity>,
) -> (showed: Option<PhysicalQuantity>)
    ensures
        showed == spec_showed_after(current, escape, pressed),
{
    if escape {
        return None;
    }
    match pressed {
        None => current,
        Some(quantity) => {
            match current {
                Some(shown) => {
                    if shown == quantity {
                        None
                    } else {
                        Some(quantity)
                    }
                },
                None => Some(quantity),
            }
        },
    }
}

/// What a turn of the wheel changes in the given state of the controls.
pub fn wheel_target(
    adding: bool,
    ctrl: bool,
    shift: bool,
    showed: Option<PhysicalQuantity>,
    hovering: bool,
) -> (target: WheelTarget)
    ensures
        target == spec_wheel_target(adding, ctrl, shift, showed, hovering),
{
    if adding {
        if hovering {
            WheelTarget::Mass
        } else {
            WheelTarget::Nothing
        }
    } else if ctrl {
        WheelTarget::Grid
    } else if shift {
        match showed {
            Some(quantity) => WheelTarget::Arrows { quantity },
            None => WheelTarget::Nothing,
        }
    } else if hovering {
        WheelTarget::View
    } else {
        WheelTarget::Nothing
    }
}

} // verus!

use celestial::controls::{aim_after, drag_after};
use celestial::controls::{pressed_quantity, showed_after, wheel_target, WheelTarget};
use celestial::quantity::{PhysicalQuantity, Rgb};

#[test]
fn unit_names() {
    assert_eq!(PhysicalQuantity::Velocity.unit_name(), "km/sec");
    assert_eq!(PhysicalQuantity::Impulse.unit_name(), "kg*km/sec");
    assert_eq!(PhysicalQuantity::Acceleration.unit_name(), "km/sec^2");
    assert_eq!(PhysicalQuantity::Force.unit_name(), "kg*km/sec^2");
}

#[test]
fn table_places() {
    assert_eq!(PhysicalQuantity::Velocity.index(), 0);
    assert_eq!(PhysicalQuantity::Impulse.index(), 1);
    assert_eq!(PhysicalQuantity::Acceleration.index(), 2);
    assert_eq!(PhysicalQuantity::Force.index(), 3);
}

#[test]
fn arrow_colours() {
    assert_eq!(PhysicalQuantity::Velocity.color(), Rgb { r: 255, g: 128, b: 128 });
    assert_eq!(PhysicalQuantity::Impulse.color(), Rgb { r: 156, g: 245, b: 255 });
    assert_eq!(PhysicalQuantity::Acceleration.color(), Rgb { r: 144, g: 238, b: 144 });
    assert_eq!(PhysicalQuantity::Force.color(), Rgb { r: 250, g: 255, b: 105 });
}

#[test]
fn arrow_colours_are_those_of_the_toolkit() {
    let red = PhysicalQuantity::Velocity.color();
    assert_eq!(egui::Color32::from_rgb(red.r, red.g, red.b), egui::Color32::LIGHT_RED);
    let green = PhysicalQuantity::Acceleration.color();
    assert_eq!(egui::Color32::from_rgb(green.r, green.g, green.b), egui::Color32::LIGHT_GREEN);
}

#[test]
fn key_precedence() {
    assert_eq!(pressed_quantity(false, false, false, false), None);
    assert_eq!(pressed_quantity(true, false, false, false), Some(PhysicalQuantity::Velocity));
    assert_eq!(pressed_quantity(false, true, false, false), Some(PhysicalQuantity::Impulse));
    assert_eq!(pressed_quantity(false, false, true, false), Some(PhysicalQuantity::Acceleration));
    assert_eq!(pressed_quantity(false, false, false, true), Some(PhysicalQuantity::Force));
    assert_eq!(pressed_quantity(true, true, true, true), Some(PhysicalQuantity::Velocity));
    assert_eq!(pressed_quantity(false, true, true, true), Some(PhysicalQuantity::Impulse));
    assert_eq!(pressed_quantity(false, false, true, true), Some(PhysicalQuantity::Acceleration));
}

#[test]
fn escape_hides_the_arrows() {
    let force = Some(PhysicalQuantity::Force);
    assert_eq!(showed_after(force, true, None), None);
    assert_eq!(showed_after(force, true, Some(PhysicalQuantity::Velocity)), None);
    assert_eq!(showed_after(None, true, Some(PhysicalQuantity::Velocity)), None);
}

#[test]
fn a_key_toggles_its_quantity() {
    let velocity = Some(PhysicalQuantity::Velocity);
    let force = Some(PhysicalQuantity::Force);
    assert_eq!(showed_after(None, false, velocity), velocity);
    assert_eq!(showed_after(velocity, false, velocity), None);
    assert_eq!(showed_after(velocity, false, force), force);
    assert_eq!(showed_after(velocity, false, None), velocity);
    assert_eq!(showed_after(None, false, None), None);
}

#[test]
fn wheel_while_adding_changes_the_mass() {
    let shown = Some(PhysicalQuantity::Impulse);
    assert_eq!(wheel_target(true, false, false, None, true), WheelTarget::Mass);
    assert_eq!(wheel_target(true, true, true, shown, true), WheelTarget::Mass);
    assert_eq!(wheel_target(true, true, true, shown, false), WheelTarget::Nothing);
}

#[test]
fn wheel_with_modifiers() {
    let shown = Some(PhysicalQuantity::Impulse);
    assert_eq!(wheel_target(false, true, false, None, false), WheelTarget::Grid);
    assert_eq!(wheel_target(false, true, true, shown, true), WheelTarget::Grid);
    assert_eq!(
        wheel_target(false, false, true, shown, true),
        WheelTarget::Arrows { quantity: PhysicalQuantity::Impulse }
    );
    assert_eq!(wheel_target(false, false, true, None, true), WheelTarget::Nothing);
}

#[test]
fn plain_wheel_zooms_under_the_pointer() {
    assert_eq!(wheel_target(false, false, false, None, true), WheelTarget::View);
    assert_eq!(wheel_target(false, false, false, None, false), WheelTarget::Nothing);
}

#[test]
fn press_starts_a_drag() {
    assert_eq!(drag_after(None, true, false, 7), Some(7));
    assert_eq!(drag_after(Some(3), true, false, 7), Some(7));
    assert_eq!(drag_after(Some(3), true, true, 7), Some(7));
}

#[test]
fn release_ends_a_drag() {
    assert_eq!(drag_after(Some(3), false, true, 7), None);
    assert_eq!(drag_after(None, false, true, 7), None);
}

#[test]
fn a_drag_goes_on_between_press_and_release() {
    assert_eq!(drag_after(Some(3), false, false, 7), Some(3));
    assert_eq!(drag_after(None, false, false, 7), None);
}

#[test]
fn release_launches_the_aimed_body() {
    assert_eq!(aim_after(Some(3), false, true, 7), (None, Some(3)));
}

#[test]
fn aiming_starts_and_goes_on() {
    assert_eq!(aim_after(None, true, false, 7), (Some(7), None));
    assert_eq!(aim_after(Some(3), true, true, 7), (Some(7), None));
    assert_eq!(aim_after(None, true, true, 7), (Some(7), None));
    assert_eq!(aim_after(Some(3), false, false, 7), (Some(3), None));
    assert_eq!(aim_after(None, false, false, 7), (None, None));
}

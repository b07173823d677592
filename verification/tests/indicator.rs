use boxen_gpio::{Button, Led};

/// A button handle reports the line and the initial level it was built with.
#[test]
fn button_reports_pin_and_initial_state() {
    let b = Button::new(27, true);
    assert_eq!(b.pin(), 27);
    assert!(b.initial_state());
    let b2 = Button::new(17, false);
    assert_eq!(b2.pin(), 17);
    assert!(!b2.initial_state());
}

/// Fixed-level commands drive exactly one line high and clear the blink flag.
#[test]
fn fixed_level_commands() {
    let mut led = Led::new();
    assert!(!led.green_on && !led.yellow_on && !led.blinking);
    led.set_green();
    assert!(led.green_on && !led.yellow_on && !led.blinking);
    led.set_yellow();
    assert!(!led.green_on && led.yellow_on && !led.blinking);
    led.set_off();
    assert!(!led.green_on && !led.yellow_on && !led.blinking);
}

/// While the blink flag is set, each toggler step writes the current phase
/// and flips it: high, low, high, ...
#[test]
fn toggler_alternates_while_blinking() {
    let mut led = Led::new();
    led.set_yellow_blink();
    assert!(led.is_blinking());
    assert!(!led.green_on);
    let mut lit = true;
    let mut seen = Vec::new();
    for _ in 0..4 {
        match led.toggle_step(lit) {
            Some((level, next)) => {
                seen.push(level);
                lit = next;
            }
            None => panic!("toggler stopped while the flag is set"),
        }
    }
    assert_eq!(seen, vec![true, false, true, false]);
}

/// Blinking, then immediately a fixed level: the output settles at the
/// fixed level and the toggler's next step stops without writing.
#[test]
fn fixed_level_stops_toggler() {
    let mut led = Led::new();
    led.set_yellow_blink();
    led.set_green();
    assert!(led.green_on && !led.blinking);
    assert_eq!(led.toggle_step(true), None);
    assert_eq!(led.toggle_step(false), None);
    assert!(led.green_on && !led.yellow_on);
}

/// Requesting blink mode leaves the last written yellow level alone until
/// the toggler takes over, and drops the green line.
#[test]
fn blink_request_sets_flag_only() {
    let mut led = Led::new();
    led.set_yellow();
    led.set_yellow_blink();
    assert!(led.blinking);
    assert!(led.yellow_on);
    assert!(!led.green_on);
}

use game_physics::color::{hsl_string, hue_degrees};
use game_physics::registry::Target;

#[test]
fn hue_of_small_ids() {
    // hue = (id * 137.5) mod 360, halves rounded to the nearest even degree
    assert_eq!(hue_degrees(0), 0);
    assert_eq!(hue_degrees(1), 138); // 137.5 rounds up to even 138
    assert_eq!(hue_degrees(2), 275);
    assert_eq!(hue_degrees(3), 52); // 412.5 wraps to 52.5, rounds down to even 52
    assert_eq!(hue_degrees(4), 190);
}

#[test]
fn color_string_shape() {
    assert_eq!(hsl_string(0), "hsl(0, 70%, 50%)");
    assert_eq!(hsl_string(1), "hsl(138, 70%, 50%)");
    let t = Target::new(0, 0, 0, 1, 1);
    assert_eq!(t.get_color(), "hsl(138, 70%, 50%)");
}

#[test]
fn hue_wraps_after_whole_turns() {
    // 144 steps of 137.5 degrees are exactly 55 turns, so the hue repeats
    assert_eq!(hsl_string(145), hsl_string(1));
    assert_eq!(hue_degrees(144), hue_degrees(0));
    assert_ne!(hsl_string(1), hsl_string(2));
}

#[test]
fn first_cycle_of_hues_is_distinct() {
    // ids whose gap steps short of a whole turn get distinct hue strings
    let colors: Vec<String> = (0u64..144).map(hsl_string).collect();
    for i in 0..colors.len() {
        for j in 0..i {
            assert_ne!(colors[i], colors[j], "ids {} and {} collide", i, j);
        }
    }
}

#[test]
fn huge_ids_still_get_hues() {
    let d: u64 = hue_degrees(u64::MAX);
    assert!(d < 360);
    // the registry never touches the hue: equal ids give equal colors
    assert_eq!(hsl_string(u64::MAX), hsl_string(u64::MAX));
}

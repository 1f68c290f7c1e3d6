use arc_maze::util::{hex_srgb_u8, pick_by_roll, push_decimal, weighted_pick};
use arc_maze::rng::Dice;

#[test]
fn pick_by_roll_uses_weight_bands() {
    let w = [30u32, 25, 20, 14, 10, 1];
    assert_eq!(pick_by_roll(&w, 0), 0);
    assert_eq!(pick_by_roll(&w, 29), 0);
    assert_eq!(pick_by_roll(&w, 30), 1);
    assert_eq!(pick_by_roll(&w, 54), 1);
    assert_eq!(pick_by_roll(&w, 55), 2);
    assert_eq!(pick_by_roll(&w, 75), 3);
    assert_eq!(pick_by_roll(&w, 89), 4);
    assert_eq!(pick_by_roll(&w, 98), 4);
    assert_eq!(pick_by_roll(&w, 99), 5);
}

#[test]
fn pick_by_roll_skips_zero_weights() {
    let w = [0u32, 5, 0, 5];
    assert_eq!(pick_by_roll(&w, 0), 1);
    assert_eq!(pick_by_roll(&w, 4), 1);
    assert_eq!(pick_by_roll(&w, 5), 3);
}

#[test]
fn weighted_pick_never_picks_zero_weight() {
    let mut rng = Dice::from_seed(3);
    let w = [0u32, 7, 0, 3, 0];
    let mut counts = [0usize; 5];
    for _ in 0..400 {
        counts[weighted_pick(&mut rng, &w)] += 1;
    }
    assert_eq!(counts[0] + counts[2] + counts[4], 0);
    assert!(counts[1] > counts[3]);
    assert!(counts[3] > 0);
}

#[test]
fn decimal_rendering() {
    let mut s = String::from("x=");
    push_decimal(&mut s, 0);
    assert_eq!(s, "x=0");
    let mut t = String::new();
    push_decimal(&mut t, 4294967295);
    assert_eq!(t, "4294967295");
    let mut u = String::new();
    push_decimal(&mut u, 1050);
    assert_eq!(u, "1050");
}

#[test]
fn hex_codes_parse_to_srgb_bytes() {
    assert_eq!(hex_srgb_u8("#9E9E9E"), (158, 158, 158));
    assert_eq!(hex_srgb_u8("#00ff7F"), (0, 255, 127));
    assert_eq!(hex_srgb_u8("abcdef"), (0xab, 0xcd, 0xef));
    assert_eq!(hex_srgb_u8("###102030"), (0x10, 0x20, 0x30));
}

#[test]
fn hex_code_edge_cases() {
    // a field that is no number reads as 255
    assert_eq!(hex_srgb_u8("#zz0000"), (255, 0, 0));
    assert_eq!(hex_srgb_u8("#00-100"), (0, 255, 0));
    // a leading plus sign with one digit is a number
    assert_eq!(hex_srgb_u8("#+f+a+0"), (15, 10, 0));
    // bytes past the sixth are ignored
    assert_eq!(hex_srgb_u8("#010203ffff"), (1, 2, 3));
}

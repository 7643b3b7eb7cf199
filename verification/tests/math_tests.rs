use fleet_battle::math::contrast;

#[test]
fn contrast_inverts_colour_bytes() {
    assert_eq!(contrast(0x000000), 0xFFFFFF);
    assert_eq!(contrast(0xFFFFFF), 0x000000);
    assert_eq!(contrast(0x123456), 0xEDCBA9);
}

#[test]
fn contrast_keeps_top_byte() {
    assert_eq!(contrast(0xFF123456), 0xFFEDCBA9);
    assert_eq!(contrast(0x7F000000), 0x7FFFFFFF);
}

#[test]
fn contrast_of_grey_is_inverted_too() {
    // The grey test never passes, so middle grey is complemented like
    // any other colour.
    assert_eq!(contrast(0x808080), 0x7F7F7F);
    assert_eq!(contrast(0x80), 0xFFFF7F);
    assert_eq!(contrast(0x8F8F8F), 0x707070);
}

#[test]
fn contrast_twice_gives_back_the_colour() {
    for c in [0u32, 0x80, 0x123456, 0xFF00FF00, 0x7FFFFFFF, 0x80000081, 0xFFFFFFFF] {
        assert_eq!(contrast(contrast(c)), c);
    }
}

#[test]
fn contrast_outside_the_overflow_band() {
    assert_eq!(contrast(0x7FFFFFFF), 0x7F000000);
    assert_eq!(contrast(0x80000081), 0x80FFFF7E);
}

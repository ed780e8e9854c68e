use mega_store_search::scalar::{is_below, is_not_a_number, rank_of};

fn samples() -> Vec<f32> {
    vec![
        f32::NEG_INFINITY,
        f32::MIN,
        -1000.5,
        -1.0,
        -f32::MIN_POSITIVE,
        -1.0e-45,
        -0.0,
        0.0,
        1.0e-45,
        f32::MIN_POSITIVE,
        0.5,
        0.9,
        1.0,
        19.99,
        1000.5,
        f32::MAX,
        f32::INFINITY,
        f32::NAN,
        -f32::NAN,
    ]
}

#[test]
fn is_below_agrees_with_the_order_of_the_numbers() {
    for a in samples() {
        for b in samples() {
            assert_eq!(is_below(a.to_bits(), b.to_bits()), a < b, "{} < {}", a, b);
        }
    }
}

#[test]
fn ranks_are_ordered_as_the_numbers_are() {
    for a in samples() {
        for b in samples() {
            if a.is_nan() || b.is_nan() {
                continue;
            }
            assert_eq!(rank_of(a.to_bits()) < rank_of(b.to_bits()), a < b);
            assert_eq!(rank_of(a.to_bits()) == rank_of(b.to_bits()), a == b);
        }
    }
}

#[test]
fn rank_of_given_patterns() {
    assert_eq!(rank_of(0), 0);
    assert_eq!(rank_of(0x8000_0000), 0);
    assert_eq!(rank_of(1), 1);
    assert_eq!(rank_of(0x8000_0001), -1);
    assert_eq!(rank_of(1.0f32.to_bits()), 0x3f80_0000);
    assert_eq!(rank_of((-1.0f32).to_bits()), -0x3f80_0000);
    assert_eq!(rank_of(u32::MAX), -0x7fff_ffff);
    assert_eq!(rank_of(0x7fff_ffff), 0x7fff_ffff);
}

#[test]
fn not_a_number_is_told_from_numbers() {
    for a in samples() {
        assert_eq!(is_not_a_number(a.to_bits()), a.is_nan());
    }
    assert!(!is_not_a_number(0x7f80_0000));
    assert!(is_not_a_number(0x7f80_0001));
    assert!(!is_not_a_number(0xff80_0000));
    assert!(is_not_a_number(0xff80_0001));
    assert!(is_not_a_number(u32::MAX));
}

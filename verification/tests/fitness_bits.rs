use pid_ga::fitness::{finite, key, lower};

fn samples() -> Vec<f32> {
    vec![
        0.0,
        -0.0,
        1.0,
        -1.0,
        0.5,
        -0.5,
        1.0e-45,
        -1.0e-45,
        1.17549435e-38,
        3.4028235e38,
        -3.4028235e38,
        0.0031834461,
        123.456,
        -123.456,
        f32::INFINITY,
        f32::NEG_INFINITY,
    ]
}

#[test]
fn finite_agrees_with_the_numbers() {
    for x in samples() {
        assert_eq!(finite(x.to_bits()), x.is_finite(), "{}", x);
    }
    assert!(!finite(f32::NAN.to_bits()));
    assert!(!finite(0x7fc0_0001));
    assert!(!finite(0xffc0_0001));
    assert!(!finite(0x7f80_0000));
    assert!(finite(0x7f7f_ffff));
}

#[test]
fn key_orders_as_the_numbers_do() {
    for a in samples() {
        for b in samples() {
            assert_eq!(key(a.to_bits()) < key(b.to_bits()), a < b, "{} < {}", a, b);
            assert_eq!(key(a.to_bits()) == key(b.to_bits()), a == b, "{} == {}", a, b);
            assert_eq!(lower(a.to_bits(), b.to_bits()), a < b);
        }
    }
}

#[test]
fn key_of_known_patterns() {
    assert_eq!(key(0), 0);
    assert_eq!(key(0x8000_0000), 0);
    assert_eq!(key(1.0f32.to_bits()), 0x3f80_0000);
    assert_eq!(key((-1.0f32).to_bits()), -0x3f80_0000);
    assert_eq!(key(0xffff_ffff), -0x7fff_ffff);
}

use streamtune::app_state::AppError;
use streamtune::effects::{check_effects, gain_too_large, gains_accepted, in_range, is_accepted, Effect};

fn samples() -> Vec<f64> {
    vec![
        0.0, -0.0, 0.05, 0.1, 0.099999, 0.5, 1.0, 1.0000001, 2.0, 2.0000001, 9.99, 10.0, 10.0001,
        11.9, 12.0, 12.000001, 100.0, -0.5, -12.0, -12.000001, f64::INFINITY, f64::NEG_INFINITY,
        f64::NAN, -f64::NAN, f64::MIN_POSITIVE, f64::MAX,
    ]
}

#[test]
fn ranges_match_float_comparisons() {
    for x in samples() {
        let b = x.to_bits();
        assert_eq!(in_range(b, 0, 2.0f64.to_bits()), x >= 0.0 && x <= 2.0, "delay {x}");
        assert_eq!(in_range(b, 0, 1.0f64.to_bits()), x >= 0.0 && x <= 1.0, "reverb {x}");
        assert_eq!(in_range(b, 0.1f64.to_bits(), 10.0f64.to_bits()), x >= 0.1 && x <= 10.0, "chorus {x}");
        assert_eq!(gain_too_large(b), x.abs() > 12.0, "gain {x}");
    }
}

#[test]
fn bound_patterns() {
    assert_eq!(2.0f64.to_bits(), 0x4000_0000_0000_0000);
    assert_eq!(1.0f64.to_bits(), 0x3FF0_0000_0000_0000);
    assert_eq!(0.1f64.to_bits(), 0x3FB9_9999_9999_999A);
    assert_eq!(10.0f64.to_bits(), 0x4024_0000_0000_0000);
    assert_eq!(12.0f64.to_bits(), 0x4028_0000_0000_0000);
}

#[test]
fn effects_accepted() {
    assert!(is_accepted(&Effect::Delay(1.5f64.to_bits())));
    assert!(!is_accepted(&Effect::Delay(2.5f64.to_bits())));
    assert!(is_accepted(&Effect::Reverb((-0.0f64).to_bits())));
    assert!(!is_accepted(&Effect::Chorus(0.05f64.to_bits())));
    assert!(!is_accepted(&Effect::NoEffect));
    assert!(is_accepted(&Effect::Eq { bass: 12.0f64.to_bits(), mid: f64::NAN.to_bits(), treble: (-3.0f64).to_bits() }));
    assert!(gains_accepted(0, 0, 0));
    assert!(!gains_accepted(0, (-13.0f64).to_bits(), 0));
}

#[test]
fn check_effects_messages() {
    assert!(check_effects(&vec![]).is_ok());
    assert!(check_effects(&vec![Effect::Delay(0), Effect::Chorus(1.0f64.to_bits())]).is_ok());
    match check_effects(&vec![Effect::Delay(0), Effect::Eq { bass: 20.0f64.to_bits(), mid: 0, treble: 0 }]) {
        Err(AppError::InvalidInput(m)) => assert_eq!(m, "EQ gains must be between -12dB and +12dB"),
        _ => panic!("eq refused"),
    }
    match check_effects(&vec![Effect::NoEffect]) {
        Err(AppError::InvalidInput(m)) => assert_eq!(m, "Invalid effect parameters"),
        _ => panic!("no effect refused"),
    }
}

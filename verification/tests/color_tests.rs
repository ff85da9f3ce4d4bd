use ray_canvas::color::{Color, CHANNEL_ONE, CHANNEL_ZERO};
use ray_canvas::ppm::quantize_channel;

#[test]
fn colors_are_red_green_and_blue() {
    let c = Color::new((-0.5f64).to_bits(), (0.4f64).to_bits(), (1.7f64).to_bits());
    assert_eq!(c.r(), (-0.5f64).to_bits());
    assert_eq!(c.g(), (0.4f64).to_bits());
    assert_eq!(c.b(), (1.7f64).to_bits());
}

#[test]
fn channel_constants_are_the_bits_of_zero_and_one() {
    assert_eq!(CHANNEL_ZERO, (0.0f64).to_bits());
    assert_eq!(CHANNEL_ONE, (1.0f64).to_bits());
}

#[test]
fn named_colors_hold_unit_channels() {
    assert_eq!(Color::black(), Color::new((0.0f64).to_bits(), (0.0f64).to_bits(), (0.0f64).to_bits()));
    assert_eq!(Color::white(), Color::new((1.0f64).to_bits(), (1.0f64).to_bits(), (1.0f64).to_bits()));
    assert_eq!(Color::red(), Color::new((1.0f64).to_bits(), (0.0f64).to_bits(), (0.0f64).to_bits()));
    assert_eq!(Color::green(), Color::new((0.0f64).to_bits(), (1.0f64).to_bits(), (0.0f64).to_bits()));
    assert_eq!(Color::blue(), Color::new((0.0f64).to_bits(), (0.0f64).to_bits(), (1.0f64).to_bits()));
}

#[test]
fn quantizing_scales_and_rounds_in_range_channels() {
    assert_eq!(quantize_channel((0.0f64).to_bits()), 0);
    assert_eq!(quantize_channel((1.0f64).to_bits()), 255);
    assert_eq!(quantize_channel((0.5f64).to_bits()), 128);
    assert_eq!(quantize_channel((0.8f64).to_bits()), 204);
    assert_eq!(quantize_channel((0.6f64).to_bits()), 153);
    assert_eq!(quantize_channel((0.2f64).to_bits()), 51);
}

#[test]
fn quantizing_saturates_out_of_range_channels() {
    assert_eq!(quantize_channel((1.5f64).to_bits()), 255);
    assert_eq!(quantize_channel((-0.5f64).to_bits()), 0);
    assert_eq!(quantize_channel((1000.0f64).to_bits()), 255);
    assert_eq!(quantize_channel(f64::INFINITY.to_bits()), 255);
    assert_eq!(quantize_channel(f64::NEG_INFINITY.to_bits()), 0);
}

#[test]
fn quantizing_treats_nan_and_negative_zero_as_zero() {
    assert_eq!(quantize_channel(f64::NAN.to_bits()), 0);
    assert_eq!(quantize_channel((-0.0f64).to_bits()), 0);
}

#[test]
fn quantizing_tiny_and_subnormal_channels_gives_zero() {
    assert_eq!(quantize_channel((1.0e-300f64).to_bits()), 0);
    assert_eq!(quantize_channel(f64::MIN_POSITIVE.to_bits()), 0);
    assert_eq!(quantize_channel((5.0e-324f64).to_bits()), 0);
    assert_eq!(quantize_channel((0.001f64).to_bits()), 0);
    assert_eq!(quantize_channel((0.002f64).to_bits()), 1);
}

#[test]
fn quantizing_rounds_exactly_where_float_arithmetic_double_rounds() {
    // The double closest to 0.3 times 255 is 76.49999999999999715...,
    // which rounds to 76; multiplying in f64 first rounds that product up
    // to exactly 76.5 and would then round half away to 77.
    assert_eq!(quantize_channel((0.3f64).to_bits()), 76);
}

#[test]
fn quantizing_agrees_with_float_arithmetic_on_a_sweep() {
    for i in 0..=10_000 {
        let v = (i as f64) / 10_000.0;
        let scaled = v * 255.0;
        let via_float = scaled.round() as u8;
        let exact = quantize_channel(v.to_bits());
        if scaled.fract() == 0.5 {
            // The f64 product landed exactly on a half: the true product
            // may sit just below it, so exact rounding may give one less.
            assert!(exact == via_float || exact + 1 == via_float, "at {v}");
        } else {
            assert_eq!(exact, via_float, "at {v}");
        }
    }
}

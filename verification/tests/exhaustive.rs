use audio_pcm::convert_sample;

// Every one of the 2^32 bit patterns is converted and held against what the
// floating-point unit computes, a sixteenth of the patterns per test.

/// What the floating-point unit gives for one sample.
fn by_float(x: f32) -> i16 {
    (x.clamp(-1.0, 1.0) * 32767.0) as i16
}

/// Compares every pattern whose top four bits are `top`.
fn sweep(top: u32) {
    let first = top << 28;
    let last = first | 0x0fff_ffff;
    let mut bits = first;
    loop {
        let pcm = convert_sample(bits);
        if pcm != by_float(f32::from_bits(bits)) {
            panic!("bits {:#010x}: {} differs from {}", bits, pcm, by_float(f32::from_bits(bits)));
        }
        if bits == last {
            break;
        }
        bits += 1;
    }
}

#[test]
fn every_pattern_agrees_with_float_arithmetic_zeroth_sixteenth() {
    sweep(0);
}

#[test]
fn every_pattern_agrees_with_float_arithmetic_first_sixteenth() {
    sweep(1);
}

#[test]
fn every_pattern_agrees_with_float_arithmetic_second_sixteenth() {
    sweep(2);
}

#[test]
fn every_pattern_agrees_with_float_arithmetic_third_sixteenth() {
    sweep(3);
}

#[test]
fn every_pattern_agrees_with_float_arithmetic_fourth_sixteenth() {
    sweep(4);
}

#[test]
fn every_pattern_agrees_with_float_arithmetic_fifth_sixteenth() {
    sweep(5);
}

#[test]
fn every_pattern_agrees_with_float_arithmetic_sixth_sixteenth() {
    sweep(6);
}

#[test]
fn every_pattern_agrees_with_float_arithmetic_seventh_sixteenth() {
    sweep(7);
}

#[test]
fn every_pattern_agrees_with_float_arithmetic_eighth_sixteenth() {
    sweep(8);
}

#[test]
fn every_pattern_agrees_with_float_arithmetic_ninth_sixteenth() {
    sweep(9);
}

#[test]
fn every_pattern_agrees_with_float_arithmetic_tenth_sixteenth() {
    sweep(10);
}

#[test]
fn every_pattern_agrees_with_float_arithmetic_eleventh_sixteenth() {
    sweep(11);
}

#[test]
fn every_pattern_agrees_with_float_arithmetic_twelfth_sixteenth() {
    sweep(12);
}

#[test]
fn every_pattern_agrees_with_float_arithmetic_thirteenth_sixteenth() {
    sweep(13);
}

#[test]
fn every_pattern_agrees_with_float_arithmetic_fourteenth_sixteenth() {
    sweep(14);
}

#[test]
fn every_pattern_agrees_with_float_arithmetic_fifteenth_sixteenth() {
    sweep(15);
}

use lifthrasiir::zpaq::history::{cminit, dt, find, next, train};
use lifthrasiir::zpaq::logistic::{clamp2k, clamp512k, squash, Stretch};
use lifthrasiir::zpaq::{hcomp_m5, Component, Decoder, Encoder, Predictor};

#[test]
fn squash_values() {
    assert_eq!(squash(0), 16384);
    assert_eq!(squash(1), 32767 - 16256);
    assert_eq!(squash(-1), 16256);
    assert_eq!(squash(-666), 0);
    assert_eq!(squash(666), 32767);
    assert_eq!(squash(i32::MIN), 0);
    assert_eq!(squash(i32::MAX), 32767);
    for x in 1..700 {
        assert_eq!(squash(-x), 32767 - squash(x));
    }
}

#[test]
fn stretch_values() {
    let stretch = Stretch::get();
    assert_eq!(stretch.call(16384), 0);
    assert_eq!(stretch.call(16383), 0);
    assert_eq!(stretch.call(16384 + 64), 1);
    assert_eq!(stretch.call(32767), 710);
    assert_eq!(stretch.call(0), -710);
    assert_eq!(stretch.call(32768), -710);
    assert_eq!(stretch.call(-1), 710);
    for p in 0..32768 {
        assert_eq!(stretch.call(32767 - p), -stretch.call(p));
    }
}

#[test]
fn clamps() {
    assert_eq!(clamp2k(5000), 2047);
    assert_eq!(clamp2k(-5000), -2048);
    assert_eq!(clamp2k(7), 7);
    assert_eq!(clamp512k(1 << 20), (1 << 19) - 1);
    assert_eq!(clamp512k(-(1 << 20)), -(1 << 19));
}

#[test]
fn learning_rates() {
    assert_eq!(dt(0), 87380);
    assert_eq!(dt(1), 52428);
    assert_eq!(dt(1000), 130);
}

#[test]
fn training() {
    // From one half, a one moves the probability by two thirds of the error.
    let mut p = 0x8000_0000u32;
    train(&mut p, 255, 1);
    assert_eq!(p >> 10, (0x8000_0000u32 + ((16383 * 87380) & !1023)) >> 10);
    assert_eq!(p & 1023, 1);
    let mut p = 0x8000_0000u32;
    train(&mut p, 0, 0);
    assert_eq!(p, 0x8000_0000u32.wrapping_add(((-16384i32 * 87380) & !1023) as u32));
    assert_eq!(p & 1023, 0);
}

#[test]
fn bit_histories() {
    assert_eq!(next(0, 0), 1);
    assert_eq!(next(0, 1), 2);
    assert_eq!(next(1, 1), 5);
    assert_eq!(cminit(0), 1 << 22);
    assert_eq!(cminit(1), (1 << 22) / 2);
    assert_eq!(cminit(2), (3 << 22) / 2);
}

#[test]
fn finding_rows() {
    let mut ht = vec![0u8; 64];
    // The check byte of the context is zero, as in an empty row.
    assert_eq!(find(&mut ht, 8, 1), 16);
    // A context with another check byte takes the first row.
    assert_eq!(find(&mut ht, 8, 0x701), 16);
    assert_eq!(ht[16], 7);
    ht[17] = 5;
    // The row is in use now, and one of the others has a lower priority.
    assert_eq!(find(&mut ht, 8, 0x901), 48);
    assert_eq!(ht[48], 9);
    assert_eq!(find(&mut ht, 8, 0x701), 16);
    ht[49] = 3;
    assert_eq!(find(&mut ht, 8, 0xb01), 0);
    ht[1] = 4;
    // The row with the lowest priority is cleared.
    ht[60] = 1;
    assert_eq!(find(&mut ht, 8, 0xd01), 48);
    assert_eq!(ht[48], 13);
    assert_eq!(ht[49], 0);
    assert_eq!(ht[60], 0);
}

#[test]
fn new_components() {
    match Component::cm(3, 1000) {
        Component::Cm { limit, cm } => {
            assert_eq!(limit, 4000);
            assert_eq!(cm, vec![0x8000_0000; 8]);
        }
        _ => panic!(),
    }
    match Component::icm(1) {
        Component::Icm { ht, cm, .. } => {
            assert_eq!(ht, vec![0; 128]);
            assert_eq!(cm.len(), 256);
            assert_eq!(cm[2], cminit(2));
        }
        _ => panic!(),
    }
    match Component::match_(2, 3) {
        Component::Match { buf, index, .. } => {
            assert_eq!(buf, vec![1, 0, 0, 0, 0, 0, 0, 0]);
            assert_eq!(index, vec![0; 4]);
        }
        _ => panic!(),
    }
    match Component::mix(1, 2..=4, 24) {
        Component::Mix {
            start_idx,
            m,
            rate,
            weights,
            ..
        } => {
            assert_eq!((start_idx, m, rate), (2, 3, 24));
            assert_eq!(weights, vec![21845; 6]);
        }
        _ => panic!(),
    }
    match Component::mix2(2, 5, 6, 7) {
        Component::Mix2 {
            p1_idx,
            p2_idx,
            rate,
            weights,
            ..
        } => {
            assert_eq!((p1_idx, p2_idx, rate), (5, 6, 7));
            assert_eq!(weights, vec![32768; 4]);
        }
        _ => panic!(),
    }
    match Component::isse(0, 9) {
        Component::Isse {
            prev_component,
            ht,
            wt,
            ..
        } => {
            assert_eq!(prev_component, 9);
            assert_eq!(ht.len(), 64);
            assert_eq!(wt.len(), 512);
            assert_eq!(wt[0], 1 << 15);
            assert_eq!(wt[1], 0);
            assert!(wt[3] < 0 && wt[5] > 0);
        }
        _ => panic!(),
    }
    match Component::sse(1, 9, 32, 64) {
        Component::Sse { limit, cm, .. } => {
            assert_eq!(limit, 256);
            assert_eq!(cm.len(), 64);
            assert_eq!(cm[0], ((squash(-992) as u32) << 17) | 32);
            assert_eq!(cm[47], ((squash(15 * 64 - 992) as u32) << 17) | 32);
        }
        _ => panic!(),
    }
}

#[test]
fn prediction_without_components() {
    let mut predictor = Predictor::new(0, 0, 0);
    assert_eq!(predictor.predict(), 2048);
    predictor.update(1);
    assert_eq!(predictor.predict(), 2048);
}

#[test]
fn prediction_follows_the_bits() {
    let mut predictor = Predictor::new(1, 1, 1);
    predictor.add_component(Component::cm(0, 255));
    assert_eq!(predictor.predict(), 16384);
    for _ in 0..50 {
        predictor.predict();
        predictor.update(1);
    }
    assert!(predictor.predict() > 30000);
}

#[test]
fn context_hashes() {
    let mut predictor = Predictor::new(0, 512, 65536);
    hcomp_m5(&mut predictor, b'a', 0);
    assert_eq!(predictor.m[0], b'a');
    assert_eq!(predictor.h[0], 98);
    assert_eq!(predictor.h[1], (98 + 97 + 512) * 773);
    assert_eq!(predictor.h[4], (97 + 512) * 773);
    assert_eq!(predictor.h[11], 98);
    assert_eq!(predictor.h[19], 97 << 8);
    assert_eq!(predictor.h[21], ((97 << 8) >> 5) << 8);
    assert_eq!(predictor.h[(97 + 255) & 511], 65535);
    hcomp_m5(&mut predictor, b' ', 1);
    assert_eq!(predictor.h[0], 0);
    assert_eq!(predictor.h[11], 98 * 24 + 32 + 1);
    assert_eq!(predictor.h[21], (((32 << 8) + 97) >> 5) << 8);
    assert_eq!(predictor.h[(32 + 255) & 511], 65534);
}

#[test]
fn coding_of_single_bits() {
    let bits = [1u8, 0, 0, 1, 1, 1, 0, 1, 0, 0, 0, 0, 1];
    let model = || {
        let mut predictor = Predictor::new(1, 1, 1);
        predictor.add_component(Component::cm(0, 255));
        predictor
    };
    let mut encoder = Encoder::new(Vec::new(), model());
    for &bit in &bits {
        encoder.encode_bit(bit);
    }
    let code = encoder.flush();
    let mut decoder = Decoder::new(&code, model());
    decoder.fill_curr().unwrap();
    for &bit in &bits {
        assert_eq!(decoder.decode_bit(), Ok(bit));
    }
}

#[test]
fn decoding_goes_on_after_the_end() {
    let mut decoder = Decoder::new(&[1, 2], Predictor::new(0, 0, 0));
    assert_eq!(decoder.read_byte(), Ok(1));
    assert!(decoder.decode_byte().is_err());
    assert!(decoder.decode_byte().is_err());
    assert!(decoder.read_byte().is_err());
}

use lifthrasiir::zpaq::history::{find, train};
use lifthrasiir::zpaq::logistic::{squash, Stretch};
use lifthrasiir::zpaq::{configure_m5, hcomp_m5, Component, Predictor};

#[test]
fn probabilities_rise_with_logits() {
    for x in -2048..2047 {
        assert!(squash(x) <= squash(x + 1));
        assert!(0 <= squash(x) && squash(x) <= 32767);
        assert_eq!(squash(x) == 0, x <= -666);
        assert_eq!(squash(x) == 32767, x >= 666);
    }
    assert_eq!(squash(-665), 1);
    assert_eq!(squash(665), 32766);
}

#[test]
fn logits_rise_with_probabilities() {
    let stretch = Stretch::get();
    for p in 0..32767 {
        assert!(stretch.call(p) <= stretch.call(p + 1));
    }
    assert_eq!(stretch.call(0), -710);
    assert_eq!(stretch.call(32767), 710);
}

#[test]
fn training_moves_towards_the_bit() {
    for limit in [1, 128, 1020, 1023] {
        for start in [0u32, 1023, 0x7fff_fc00, 0x8000_03fe, 0xffff_fc00, 0xffff_ffff] {
            let mut up = start;
            train(&mut up, limit, 1);
            assert!(up >> 17 >= start >> 17);
            let mut down = start;
            train(&mut down, limit, 0);
            assert!(down >> 17 <= start >> 17);
        }
    }
    // With a higher limit the count runs over into the probability.
    let mut up = 0xffff_ffff;
    train(&mut up, 1024, 1);
    assert_eq!(up, 0);
}

#[test]
fn a_row_is_found_again() {
    let mut table = vec![0u8; 256];
    for cxt in [0x0100_0000u32, 0x0200_0001, 0x0300_0000, 0x0400_0000, 0x0500_0001] {
        let row = find(&mut table, 24, cxt);
        let before = table.clone();
        assert_eq!(find(&mut table, 24, cxt), row);
        assert_eq!(table, before);
    }
}

#[test]
fn a_second_prediction_is_the_same() {
    let mut predictor = Predictor::new(23, 256, 1 << 16);
    configure_m5(&mut predictor, 1 << 16);
    for (ptr, byte) in b"so it goes, so it goes".iter().enumerate() {
        predictor.new_byte();
        for i in 0..8 {
            let p = predictor.predict();
            let predictions = predictor.predictions.clone();
            assert_eq!(predictor.predict(), p);
            assert_eq!(predictor.predictions, predictions);
            predictor.update((byte >> (7 - i)) & 1);
        }
        hcomp_m5(&mut predictor, *byte, ptr);
    }
}

#[test]
fn a_context_model_moves_towards_the_bit() {
    for y in [0u8, 1] {
        let mut predictor = Predictor::new(1, 1, 1);
        predictor.add_component(Component::cm(4, 255));
        for byte in 0..40u8 {
            predictor.new_byte();
            for i in 0..8 {
                predictor.predict();
                predictor.update((byte >> (7 - i)) & 1);
            }
        }
        for _ in 0..300 {
            predictor.new_byte();
            let before = match &predictor.components[0] {
                Component::Cm { cm, .. } => cm.clone(),
                _ => panic!(),
            };
            let q0 = predictor.predict();
            predictor.update(y);
            let changed = match &predictor.components[0] {
                Component::Cm { cm, .. } => (0..16).filter(|k| cm[*k] != before[*k]).count(),
                _ => panic!(),
            };
            assert!(changed <= 1);
            predictor.new_byte();
            let q1 = predictor.predict();
            if y == 1 {
                assert!(q1 >= q0);
            } else {
                assert!(q1 <= q0);
            }
        }
    }
}

fn feed(predictor: &mut Predictor, text: &[u8], hash: fn(usize) -> u32) {
    let mut t = 0;
    for byte in text {
        predictor.new_byte();
        for i in 0..8 {
            predictor.h[0] = hash(t);
            predictor.predict();
            predictor.update((byte >> (7 - i)) & 1);
            t += 1;
        }
    }
}

fn matched(text: &[u8], hash: fn(usize) -> u32) -> (Vec<u8>, Vec<u32>, usize, usize, usize, usize) {
    let mut predictor = Predictor::new(1, 1, 1);
    predictor.add_component(Component::match_(4, 12));
    feed(&mut predictor, text, hash);
    match &predictor.components[0] {
        Component::Match {
            cxt,
            buf,
            index,
            a,
            b,
            ptr,
        } => (buf.clone(), index.clone(), *a, *b, *ptr, *cxt),
        _ => panic!(),
    }
}

fn check_match(text: &[u8], hash: fn(usize) -> u32) {
    let (buf, index, a, b, ptr, cxt) = matched(text, hash);
    let n = text.len();
    assert_eq!((ptr, cxt), (n, 0));
    assert_eq!(&buf[..n], text);
    assert!(a <= 255);
    if a > 0 {
        assert!(1 <= b && b <= n);
        for j in 0..a {
            let k = (4096 + n - 1 - j) % 4096;
            assert_eq!(buf[k], buf[(8192 + n - 1 - j - b) % 4096]);
        }
    }
    let last = hash(8 * n - 1) as usize & 15;
    assert_eq!(index[last], n as u32);
}

#[test]
fn a_match_model_holds_the_text() {
    let text: Vec<u8> = (0..600u32).map(|i| (i % 7 * 31) as u8).collect();
    check_match(&text, |_| 5);
    check_match(&text, |t| t as u32 / 8 * 11);
    check_match(b"a", |t| t as u32);
    check_match(b"\0\0\0\0", |_| 0);
    check_match(b"abcabcabcabdabcabc", |t| t as u32 / 8 % 3);
}

#[test]
fn a_match_is_at_most_255_bytes_long() {
    let (_, _, a, b, _, _) = matched(&[7; 1000], |_| 3);
    assert_eq!((a, b), (255, 1));
    let text: Vec<u8> = (0..900u32).map(|i| (i % 3) as u8 + 1).collect();
    let (_, _, a, b, _, _) = matched(&text, |t| (t as u32 / 8) % 3);
    assert_eq!((a, b), (255, 3));
}

#[test]
fn an_update_keeps_sizes_and_parameters() {
    let mut predictor = Predictor::new(7, 8, 1);
    predictor.add_component(Component::cm(4, 32));
    predictor.add_component(Component::icm(2));
    predictor.add_component(Component::match_(3, 5));
    predictor.add_component(Component::isse(2, 1));
    predictor.add_component(Component::mix(3, 0..=3, 24));
    predictor.add_component(Component::mix2(2, 3, 4, 24));
    predictor.add_component(Component::sse(2, 5, 32, 64));
    feed(&mut predictor, b"one two one two", |t| t as u32);
    let hashes = predictor.h.clone();
    predictor.predict();
    let predictions = predictor.predictions.clone();
    predictor.update(1);
    assert_eq!(predictor.h, hashes);
    assert_eq!(predictor.predictions, predictions);
    assert_eq!(predictor.components.len(), 7);
    for component in &predictor.components {
        match component {
            Component::Cm { limit, cm } => assert_eq!((*limit, cm.len()), (128, 16)),
            Component::Icm {
                sizebits, ht, cm, ..
            } => assert_eq!((*sizebits, ht.len(), cm.len()), (2, 256, 256)),
            Component::Match {
                buf, index, cxt, a, ..
            } => {
                assert_eq!((buf.len(), index.len()), (32, 8));
                assert!(*cxt <= 7 && *a <= 255);
            }
            Component::Isse {
                prev_component,
                sizebits,
                ht,
                wt,
                ..
            } => {
                assert_eq!((*prev_component, *sizebits), (1, 2));
                assert_eq!((ht.len(), wt.len()), (256, 512));
                assert!(wt.iter().all(|w| (-524288..=524287).contains(w)));
            }
            Component::Mix {
                sizebits,
                start_idx,
                m,
                rate,
                weights,
            } => {
                assert_eq!((*sizebits, *start_idx, *m, *rate), (3, 0, 4, 24));
                assert_eq!(weights.len(), 32);
                assert!(weights.iter().all(|w| (-524288..=524287).contains(w)));
            }
            Component::Mix2 {
                sizebits,
                p1_idx,
                p2_idx,
                rate,
                weights,
            } => {
                assert_eq!((*sizebits, *p1_idx, *p2_idx, *rate), (2, 3, 4, 24));
                assert_eq!(weights.len(), 4);
                assert!(weights.iter().all(|w| (0..=65535).contains(w)));
            }
            Component::Sse {
                prev_component,
                limit,
                cm,
                ..
            } => assert_eq!((*prev_component, *limit, cm.len()), (5, 256, 128)),
        }
    }
}

/// The context of the current byte: the one entry of a context model that an update changes.
fn current_context(predictor: &mut Predictor, y: u8) -> usize {
    let table = |predictor: &Predictor| match &predictor.components[0] {
        Component::Cm { cm, .. } => cm.clone(),
        _ => panic!(),
    };
    let before = table(predictor);
    predictor.predict();
    predictor.update(y);
    let after = table(predictor);
    (0..512).find(|k| after[*k] != before[*k]).unwrap()
}

#[test]
fn the_known_bits_are_the_context() {
    for byte in [0x00u8, 0x5a, 0xc3, 0xff] {
        let mut predictor = Predictor::new(1, 1, 1);
        predictor.add_component(Component::cm(9, 255));
        for _ in 0..2 {
            for k in 0..8 {
                let known = (1usize << k) | (byte as usize >> (8 - k));
                let expected = if k <= 3 {
                    known
                } else {
                    let first = 16 | (byte as usize >> 4);
                    let second = (1 << (k - 4)) | (known & ((1 << (k - 4)) - 1));
                    (first << 4) | second
                };
                let y = (byte >> (7 - k)) & 1;
                let context = current_context(&mut predictor, y);
                assert_eq!(context, expected);
                assert!(1 <= context && context <= 511);
            }
        }
    }
}

#[test]
fn prediction_does_not_depend_on_the_rate() {
    let model = |rate: u32| {
        let mut predictor = Predictor::new(3, 3, 1);
        predictor.add_component(Component::cm(4, 255));
        predictor.add_component(Component::cm(5, 32));
        predictor.add_component(Component::mix(3, 0..=1, rate));
        predictor
    };
    assert_eq!(model(24).predict(), model(1_000_000).predict());
}

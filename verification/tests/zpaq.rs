use lifthrasiir::reader::UnexpectedEof;
use lifthrasiir::zpaq::logistic::{squash, Stretch};
use lifthrasiir::zpaq::{
    compress_m5, configure_m5, decompress_m5, Component, Decoder, Encoder, Predictor,
};

#[test]
fn test_logistic() {
    let mut hash = 0u32;
    for i in (-2048..2048).rev() {
        hash = hash.wrapping_mul(3).wrapping_add(squash(i) as u32);
    }
    assert_eq!(hash, 2278286169);

    let stretch = Stretch::get();
    let mut hash = 0u32;
    for i in (0..32768).rev() {
        hash = hash.wrapping_mul(3).wrapping_add(stretch.call(i) as u32);
    }
    assert_eq!(hash, 3887533746);
}

#[test]
fn test_m5_configuration() {
    let mut predictor = Predictor::new(23, 512, 65536);
    configure_m5(&mut predictor, 1024);
    assert_eq!(predictor.components.len(), 23);
}

#[test]
fn test_predictor_basic() {
    let mut predictor = Predictor::new(1, 256, 256);
    let cm = Component::cm(8, 1000);
    predictor.add_component(cm);

    for _ in 0..10 {
        let p = predictor.predict();
        assert!((0..=32767).contains(&p));
        predictor.update(1);
        predictor.update(0);
    }
}

fn fixed_predictor() -> Predictor {
    let mut predictor = Predictor::new(1, 256, 256);
    let mut cm = Component::cm(1, 1000);
    if let Component::Cm { cm: cm_table, .. } = &mut cm {
        cm_table[0] = (2048 << 17) | 1;
    }
    predictor.add_component(cm);
    predictor
}

#[test]
fn test_encoder_single_bit() {
    let mut encoder = Encoder::new(Vec::new(), fixed_predictor());
    encoder.encode_bit(0);
    assert_eq!(encoder.flush().len(), 4);
}

#[test]
fn test_arithmetic_coding_fixed_prob() {
    let input = b"AB";

    println!("=== Testing Full Arithmetic Coding ===");

    let mut output = Vec::new();
    let size = input.len() as u32;
    output.extend_from_slice(&size.to_le_bytes());

    let mut encoder = Encoder::new(output, fixed_predictor());
    for &byte in input {
        encoder.encode_byte(byte);
    }
    let output = encoder.flush();

    println!("Compressed: {} bytes", output.len());

    let expected_size = u32::from_le_bytes([output[0], output[1], output[2], output[3]]) as usize;
    let compressed_data = &output[4..];

    let mut decoder = Decoder::new(compressed_data, fixed_predictor());
    decoder.fill_curr().unwrap();

    let mut result = Vec::new();
    for _ in 0..expected_size {
        result.push(decoder.decode_byte().unwrap());
    }

    println!("Decompressed: {:?}", result);
    assert_eq!(input.to_vec(), result);
    println!("✓ Full arithmetic coding test passed!");
}

#[test]
fn test_m5_compress_decompress() {
    let input = b"Hello, world! This is a test of the m5.zpaql \
                  compression and decompression implementation in Rust. \
                  Let's see how it performs with this sample text.";

    println!("Starting compression...");
    let comp = compress_m5(input);
    println!(
        "Original size: {}, Compressed size: {}",
        input.len(),
        comp.len()
    );
    println!("Starting decompression...");
    let decompressed = decompress_m5(&comp);
    println!("Decompression result: {:?}", decompressed.is_ok());
    assert_eq!(input.to_vec(), decompressed.unwrap());
}

#[test]
fn test_m5_simple_pattern() {
    let input = vec![b'A'; 1024];
    println!("Input: {} bytes of 'A'", input.len());

    let compressed = compress_m5(&input);
    println!(
        "Compressed: {} bytes (ratio: {:.2}%)",
        compressed.len(),
        (compressed.len() as f64 / input.len() as f64) * 100.0
    );

    let decompressed = decompress_m5(&compressed).unwrap();
    assert_eq!(input.to_vec(), decompressed);
    println!("✓ Simple pattern test passed!");
}

#[test]
fn compressed_nothing() {
    let compressed = compress_m5(&[]);
    assert_eq!(compressed, vec![0, 0, 0, 0, 255, 255, 255, 255]);
    assert_eq!(decompress_m5(&compressed), Ok(vec![]));
}

#[test]
fn decompression_of_short_input() {
    assert_eq!(decompress_m5(&[]), Err(UnexpectedEof));
    assert_eq!(decompress_m5(&[1, 0, 0]), Err(UnexpectedEof));
    assert_eq!(decompress_m5(&[1, 0, 0, 0]), Err(UnexpectedEof));
    assert_eq!(decompress_m5(&[1, 0, 0, 0, 9, 9, 9]), Err(UnexpectedEof));
    assert_eq!(decompress_m5(&[0, 0, 0, 0, 9, 9, 9]), Err(UnexpectedEof));
}

#[test]
fn decompression_stops_where_the_code_ends() {
    let input: Vec<u8> = (0..200u32).map(|i| (i * i % 251) as u8).collect();
    let compressed = compress_m5(&input);
    let short = decompress_m5(&compressed[..compressed.len() / 2]).unwrap();
    assert!(!short.is_empty() && short.len() < input.len());
    assert_eq!(short[..], input[..short.len()]);
}

#[test]
fn cut_code_gives_the_beginning() {
    let input = b"the quick brown fox jumps over the lazy dog";
    let compressed = compress_m5(input);
    for len in 0..compressed.len() {
        if let Ok(text) = decompress_m5(&compressed[..len]) {
            assert!(input.starts_with(&text));
        }
    }
}

#[test]
fn bytes_behind_the_code_are_ignored() {
    let input = b"one thing, and one thing more";
    let mut data = compress_m5(input);
    assert_eq!(decompress_m5(&data), Ok(input.to_vec()));
    for byte in [0u8, 255, 7, 0, 0] {
        data.push(byte);
        assert_eq!(decompress_m5(&data), Ok(input.to_vec()));
    }
    assert_ne!(compress_m5(b"a"), compress_m5(b"b"));
}

#[test]
fn any_data_cut_short() {
    for size in [0u8, 1, 9] {
        let mut data = vec![size, 0, 0, 0];
        data.extend((0..24u32).map(|i| (i * 37 % 256) as u8));
        let whole = decompress_m5(&data).unwrap();
        assert_eq!(whole.len(), size as usize);
        for len in 0..data.len() {
            match decompress_m5(&data[..len]) {
                Ok(text) => {
                    assert!(len >= 8);
                    assert!(whole.starts_with(&text));
                    assert!(text.len() <= size as usize && text.is_empty() == (size == 0));
                }
                Err(UnexpectedEof) => assert!(len < 12),
            }
        }
    }
}

#[test]
fn coded_bytes_come_back_with_any_tail() {
    let text = b"abracadabra";
    let mut encoder = Encoder::new(vec![9, 9], fixed_predictor());
    for byte in text {
        encoder.encode_byte(*byte);
    }
    let whole = encoder.flush();
    assert_eq!(whole[..2], [9, 9]);
    for tail in [vec![], vec![0], vec![255; 9]] {
        let mut code = whole[2..].to_vec();
        code.extend(tail);
        for fill in [false, true] {
            let mut decoder = Decoder::new(&code, fixed_predictor());
            if fill {
                decoder.fill_curr().unwrap();
            }
            for byte in text {
                assert_eq!(decoder.decode_byte(), Ok(*byte));
            }
        }
    }
}

#[test]
fn a_byte_is_coded_bit_by_bit() {
    let mut bytes = Encoder::new(Vec::new(), fixed_predictor());
    let mut bits = Encoder::new(Vec::new(), fixed_predictor());
    for byte in [0x00u8, 0xa5, 0xff, 0x1e] {
        bytes.encode_byte(byte);
        for i in 0..8 {
            bits.encode_bit((byte >> (7 - i)) & 1);
        }
    }
    assert_eq!(bytes.flush(), bits.flush());
}

#[test]
fn a_bit_adds_at_most_four_bytes() {
    let bits: Vec<u8> = (0..60u32).map(|i| (i * i / 7 % 2) as u8).collect();
    let mut before = vec![];
    for n in 0..bits.len() {
        let mut encoder = Encoder::new(Vec::new(), fixed_predictor());
        for bit in &bits[..n] {
            encoder.encode_bit(*bit);
        }
        let mut code = encoder.flush();
        code.truncate(code.len() - 4);
        assert!(code.starts_with(&before));
        assert!(code.len() <= before.len() + 4);
        before = code;
    }
    assert!(!before.is_empty());
}

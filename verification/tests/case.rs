use lifthrasiir::case::{decode_case, encode_case};

#[test]
fn test_case_encoding_specific() {
    let name = "NotePad";
    let processed = name.replace("mshdabiola", "@");
    let encoded = encode_case(&processed);
    let decoded = decode_case(&encoded);
    let reconstructed = decoded.replace('@', "mshdabiola");

    assert_eq!(
        name, reconstructed,
        "Roundtrip failed: {} -> {} (processed={}, encoded={}, decoded={})",
        name, reconstructed, processed, encoded, decoded
    );
}

#[test]
fn test_owner_replacement_with_case() {
    let owner = "mshdabiola";
    let name = "NotePad";

    let processed = name.replace(owner, "@");
    let encoded = encode_case(&processed);
    let decoded = decode_case(&encoded);
    let reconstructed = decoded.replace('@', owner);

    assert_eq!(
        name, reconstructed,
        "Failed: {} != {} (processed={}, encoded={}, decoded={})",
        name, reconstructed, processed, encoded, decoded
    );
}

#[test]
fn test_case_encoding_debug() {
    let test_cases = vec![
        ("facebook", "react"),
        ("facebook", "React"),
        ("OpenAI", "gpt-3"),
        ("OpenAI", "GPT-3"),
        ("tensorflow", "tensorflow"),
        ("microsoft", "TypeScript"),
    ];

    for (owner, name) in test_cases {
        let processed = name.replace(owner, "@");
        let encoded = encode_case(&processed);
        let decoded = decode_case(&encoded);
        let reconstructed = decoded.replace('@', owner);

        println!(
            "Owner: {}, Name: {}, Processed: {}, Encoded: {}, Decoded: {}, Reconstructed: {}",
            owner, name, processed, encoded, decoded, reconstructed
        );

        assert_eq!(
            name, reconstructed,
            "Failed for {}/{}: {} != {}",
            owner, name, name, reconstructed
        );
    }
}

#[test]
fn test_case_encoding() {
    let test_cases = vec![
        "react",
        "React",
        "Redux",
        "TensorFlow",
        "OpenAI",
        "GitHub",
        "FastAPI",
        "GraphQL",
        "TypeScript",
        "JavaScript",
        "pytest",
        "rust-lang",
        "test-repo-123",
        "API",
        "CNN",
    ];

    for input in test_cases {
        let encoded = encode_case(input);
        let decoded = decode_case(&encoded);
        assert_eq!(
            input, decoded,
            "Failed for '{}': encoded as '{}', decoded as '{}'",
            input, encoded, decoded
        );
    }
}

#[test]
fn case_marks() {
    assert_eq!(encode_case(""), "");
    assert_eq!(encode_case("React"), "^react");
    assert_eq!(encode_case("API"), "$api");
    assert_eq!(encode_case("FastAPI"), "^fast$api");
    assert_eq!(encode_case("APIs"), "^a^p^is");
    assert_eq!(encode_case("GPT-3"), "$gpt-3");
    assert_eq!(encode_case("A"), "^a");
    assert_eq!(encode_case("A1B"), "^a1^b");
}

#[test]
fn case_decoding_of_marks() {
    assert_eq!(decode_case("^react"), "React");
    assert_eq!(decode_case("$api-x"), "API-x");
    assert_eq!(decode_case("a^"), "a^");
    assert_eq!(decode_case("^^"), "^");
    assert_eq!(decode_case("$"), "");
    assert_eq!(decode_case("$$ab"), "AB");
}

#[test]
fn case_beyond_ascii() {
    let texts = [
        "Ärger",
        "ÄÖÜ-1",
        "Ελλάδα",
        "ПРИВЕТ мир",
        "\u{1d400}\u{1d401}",
        "A\u{1d400}",
    ];
    for text in texts {
        assert_eq!(decode_case(&encode_case(text)), text);
    }
    assert_eq!(encode_case("ÄÖÜ"), "$äöü");
    assert_eq!(decode_case("^ß"), "SS");
}

#[test]
fn case_that_does_not_come_back() {
    assert_eq!(decode_case(&encode_case("a$b")), "aB");
    assert_eq!(decode_case(&encode_case("^5")), "5");
    assert_eq!(decode_case(&encode_case("\u{212a}")), "K");
    assert_eq!(decode_case(&encode_case("\u{1d400}A-")), "\u{1d400}a-");
}

#[test]
fn caret_at_the_end_comes_back() {
    for text in ["^", "A^", "AB^", "abc^", "x-Y^"] {
        assert_eq!(decode_case(&encode_case(text)), text);
    }
}

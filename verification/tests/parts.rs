use lifthrasiir::binary::{byte_of, number_of, pull_le, push_le, to_signed, to_unsigned};
use lifthrasiir::decimal::{parse_number, to_decimal, NumberError};
use lifthrasiir::events::{EventKey, EventValue, Repo};
use lifthrasiir::interner::Interner;
use lifthrasiir::names::{join_name, restore, shorten, split_name};
use lifthrasiir::order::sorted_numbers;
use lifthrasiir::reader::{ByteReader, UnexpectedEof};
use lifthrasiir::text::{chars_of, find_char, replace, text_of};

#[test]
fn numbers_as_bytes() {
    let mut out = vec![9];
    push_le(&mut out, 0x04030201);
    assert_eq!(out, vec![9, 1, 2, 3, 4]);
    assert_eq!(byte_of(0x04030201, 2), 3);
    assert_eq!(number_of(1, 2, 3, 4), 0x04030201);
    let mut reader = ByteReader::new(&out[1..]);
    assert_eq!(pull_le(&mut reader), Ok(0x04030201));
    assert_eq!(pull_le(&mut reader), Err(UnexpectedEof));
}

#[test]
fn signs() {
    assert_eq!(to_signed(u64::MAX), -1);
    assert_eq!(to_unsigned(-1), u64::MAX);
    for x in [0, 1, i64::MAX as u64, 1 << 63, u64::MAX] {
        assert_eq!(to_signed(x), x as i64);
        assert_eq!(to_unsigned(to_signed(x)), x);
    }
}

#[test]
fn decimal_numbers() {
    assert_eq!(to_decimal(0), "0");
    assert_eq!(to_decimal(1234567890), "1234567890");
    assert_eq!(to_decimal(u64::MAX), "18446744073709551615");
    assert_eq!(parse_number("0"), Ok(0));
    assert_eq!(parse_number("+42"), Ok(42));
    assert_eq!(parse_number("00042"), Ok(42));
    assert_eq!(parse_number("18446744073709551615"), Ok(u64::MAX));
    for v in [0, 9, 10, 99, 100, 12345, u64::MAX] {
        assert_eq!(parse_number(&to_decimal(v)), Ok(v));
    }
}

#[test]
fn decimal_errors() {
    assert_eq!(parse_number(""), Err(NumberError::Empty));
    for text in ["+", "-", "-0", "1 ", "++1", "1+", "x", "١"] {
        assert_eq!(parse_number(text), Err(NumberError::InvalidDigit));
    }
    for text in ["18446744073709551616", "99999999999999999999x"] {
        assert_eq!(parse_number(text), Err(NumberError::TooLarge));
    }
}

#[test]
fn decimal_numbers_as_in_the_standard_library() {
    let texts = [
        "", "+", "-", "0", "+0", "-0", "7", "007", "18446744073709551615", "18446744073709551616",
        "1e3", " 1", "1_000",
    ];
    for text in texts {
        assert_eq!(parse_number(text).ok(), text.parse::<u64>().ok());
    }
}

#[test]
fn replacing() {
    let cases = [
        ("abab", "ab", "@"),
        ("aaa", "aa", "b"),
        ("", "a", "b"),
        ("xyz", "q", "w"),
        ("ééé", "é", "ee"),
        ("aXbXc", "X", ""),
    ];
    for (text, from, to) in cases {
        let result = replace(&chars_of(text), &chars_of(from), &chars_of(to));
        assert_eq!(text_of(&result), text.replace(from, to));
    }
}

#[test]
fn finding() {
    assert_eq!(find_char(&chars_of("a/b/c"), '/'), Some(1));
    assert_eq!(find_char(&chars_of("abc"), '/'), None);
}

#[test]
fn splitting_names() {
    assert_eq!(
        split_name("a/b/c"),
        Some(("a".to_string(), "b/c".to_string()))
    );
    assert_eq!(split_name("/"), Some(("".to_string(), "".to_string())));
    assert_eq!(split_name("abc"), None);
    assert_eq!(join_name("a", "b/c"), "a/b/c");
}

#[test]
fn shortening_names() {
    assert_eq!(shorten("tensorflow", "tensorflow"), "");
    assert_eq!(shorten("bob", "bob.github.io"), "@");
    assert_eq!(shorten("bob", "my-bob-bob"), "my-@-@");
    assert_eq!(shorten("bob", "Bob"), "Bob");
    assert_eq!(shorten("", "name"), "name");
    assert_eq!(shorten("bob", ""), "");
}

#[test]
fn restoring_names() {
    for (owner, name) in [
        ("tensorflow", "tensorflow"),
        ("bob", "bob.github.io"),
        ("bob", "my-bob-bob"),
        ("bob", "x"),
        ("", ""),
        ("", "x"),
        ("@", "@"),
        ("@", "@.github.io"),
        ("a@", "a@a@"),
    ] {
        assert_eq!(restore(owner, &shorten(owner, name)), name);
    }
}

#[test]
fn names_that_do_not_come_back() {
    assert_eq!(restore("bob", &shorten("bob", "@x")), "bobx");
    assert_eq!(restore("bob", &shorten("bob", "")), "bob");
    assert_eq!(restore("", &shorten("", "@")), "");
}

#[test]
fn interning() {
    let mut interner = Interner::new();
    assert_eq!(interner.find(1, "a"), None);
    for i in 0..1000u64 {
        let text = format!("name{}", i % 500);
        assert_eq!(interner.find(i / 500, &text), None);
        interner.insert(i / 500, &text);
    }
    assert_eq!(interner.find(0, "name77"), Some(77));
    assert_eq!(interner.find(1, "name77"), Some(577));
    assert_eq!(interner.find(2, "name77"), None);
    assert_eq!(interner.find(0, "name500"), None);
}

#[test]
fn sorting() {
    let ids = ["b", "a", "ab", "", "b", "é", "z"];
    let entries: Vec<(EventKey, EventValue)> = ids
        .iter()
        .map(|id| {
            (
                EventKey {
                    id: id.to_string(),
                    event_type: "t".to_string(),
                },
                EventValue {
                    repo: Repo {
                        id: 0,
                        name: "".to_string(),
                        url: "".to_string(),
                    },
                    created_at: "".to_string(),
                },
            )
        })
        .collect();
    assert_eq!(sorted_numbers(&entries), vec![3, 1, 2, 0, 4, 6, 5]);
    let mut sorted = entries.clone();
    sorted.sort_by(|a, b| a.0.cmp(&b.0));
    let picked: Vec<(EventKey, EventValue)> = sorted_numbers(&entries)
        .iter()
        .map(|&i| entries[i].clone())
        .collect();
    assert_eq!(picked, sorted);
}

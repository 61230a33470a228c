use lifthrasiir::arrays::EventArrays;
use lifthrasiir::codec::LifthrasiirCodec;
use lifthrasiir::decimal::NumberError;
use lifthrasiir::errors::{DecodeError, EncodeError};
use lifthrasiir::events::{get_type_from_index, get_type_index, EventKey, EventValue, Repo};
use lifthrasiir::indexing::{index_events, split_events};
use lifthrasiir::rebuilding::{join_events, rebuild_events};
use lifthrasiir::sections::{read_payload, write_payload};
use lifthrasiir::zpaq::{compress_m5, decompress_m5};

type Entry = (EventKey, EventValue);

fn entry(id: &str, event_type: &str, repo_id: u64, name: &str, created_at: &str) -> Entry {
    (
        EventKey {
            id: id.to_string(),
            event_type: event_type.to_string(),
        },
        EventValue {
            repo: Repo {
                id: repo_id,
                name: name.to_string(),
                url: format!("https://api.github.com/repos/{}", name),
            },
            created_at: created_at.to_string(),
        },
    )
}

fn push(id: &str, repo_id: u64, name: &str, created_at: &str) -> Entry {
    entry(id, "PushEvent", repo_id, name, created_at)
}

fn roundtrip(events: &[Entry]) -> Vec<Entry> {
    let codec = LifthrasiirCodec::new();
    let encoded = codec.encode(events).unwrap();
    codec.decode(&encoded).unwrap()
}

fn no_arrays() -> EventArrays {
    EventArrays {
        id_deltas: vec![],
        ts_deltas: vec![],
        types: vec![],
        backrefs: vec![],
        repo_ids: vec![],
        owners: vec![],
        names: vec![],
    }
}

fn one_event(backref: u64) -> EventArrays {
    EventArrays {
        id_deltas: vec![5],
        ts_deltas: vec![0],
        types: vec![13],
        backrefs: vec![backref],
        repo_ids: vec![7],
        owners: vec!["Ann".to_string()],
        names: vec!["tool".to_string()],
    }
}

#[test]
fn test_codec_basic() {
    let events = vec![
        (
            EventKey {
                id: "100".to_string(),
                event_type: "PushEvent".to_string(),
            },
            EventValue {
                repo: Repo {
                    id: 123,
                    name: "test/repo".to_string(),
                    url: "https://api.github.com/repos/test/repo".to_string(),
                },
                created_at: "2025-01-01T00:00:00Z".to_string(),
            },
        ),
        (
            EventKey {
                id: "110".to_string(),
                event_type: "WatchEvent".to_string(),
            },
            EventValue {
                repo: Repo {
                    id: 456,
                    name: "other/repo".to_string(),
                    url: "https://api.github.com/repos/other/repo".to_string(),
                },
                created_at: "2025-01-01T01:00:00Z".to_string(),
            },
        ),
    ];

    let codec = LifthrasiirCodec::new();
    let encoded = codec.encode(&events).expect("Encode failed");
    println!("Encoded {} bytes", encoded.len());

    let decoded = codec.decode(&encoded).expect("Decode failed");

    assert_eq!(events.len(), decoded.len());
    for (i, (expected, actual)) in events.iter().zip(decoded.iter()).enumerate() {
        assert_eq!(expected, actual, "Mismatch at index {}", i);
    }
}

#[test]
fn codec_name() {
    assert_eq!(LifthrasiirCodec::new().name(), "lifthrasiir");
}

#[test]
fn codec_of_no_events() {
    let codec = LifthrasiirCodec::new();
    let encoded = codec.encode(&[]).unwrap();
    assert_eq!(decompress_m5(&encoded).unwrap(), vec![0; 8]);
    assert_eq!(codec.decode(&encoded).unwrap(), vec![]);
}

#[test]
fn codec_references() {
    let events = vec![
        push("1000", 1, "Alice/Alice", "2025-01-01T00:00:00Z"),
        push("1001", 2, "Alice/alice.github.io", "2025-01-01T00:00:05Z"),
        push("1002", 3, "Bob/Bob.github.io", "2025-01-01T00:00:04Z"),
        push("1003", 1, "Alice/Alice", "2025-01-01T00:00:06Z"),
        push("1004", 4, "Bob/tools-for-Bob", "2025-01-01T00:00:07Z"),
        push("1005", 3, "Bob/Bob.github.io", "2024-12-31T23:59:59Z"),
    ];
    assert_eq!(roundtrip(&events), events);

    let arrays = index_events(&events).unwrap();
    assert_eq!(arrays.backrefs, vec![0, 1, 0, 2, 3, 6]);
    assert_eq!(arrays.owners, vec!["Alice", "Bob"]);
    assert_eq!(arrays.names, vec!["", "alice.github.io", "@", "tools-for-@"]);
    assert_eq!(arrays.repo_ids, vec![1, 2, 3, 4]);
    assert_eq!(arrays.id_deltas, vec![1000, 1, 1, 1, 1, 1]);
    assert_eq!(arrays.ts_deltas, vec![1735689600, 5, -1, 1, 1, -8]);
    assert_eq!(arrays.types, vec![13; 6]);
}

#[test]
fn codec_sorts_by_key() {
    let a = entry("2", "PushEvent", 1, "a/b", "2025-01-01T00:00:00Z");
    let b = entry("10", "PushEvent", 1, "a/b", "2025-01-01T00:00:01Z");
    let c = entry("2", "ForkEvent", 2, "a/c", "2025-01-01T00:00:02Z");
    let events = vec![a.clone(), b.clone(), c.clone()];
    // By the text of the number, and then by the type.
    assert_eq!(roundtrip(&events), vec![b, c, a]);
}

#[test]
fn codec_keeps_the_order_of_equal_keys() {
    let events = vec![
        push("7", 1, "a/z", "2025-01-01T00:00:00Z"),
        push("7", 2, "a/y", "2025-01-01T00:00:00Z"),
        push("7", 3, "a/x", "2025-01-01T00:00:00Z"),
    ];
    assert_eq!(roundtrip(&events), events);
}

#[test]
fn codec_gives_the_usual_form() {
    let mut event = push("+007", 1, "a/b", "2025-01-01T01:30:00.25+01:00");
    event.1.repo.url = "somewhere".to_string();
    assert_eq!(
        roundtrip(&[event]),
        vec![push("7", 1, "a/b", "2025-01-01T00:30:00Z")]
    );
}

#[test]
fn codec_of_large_numbers() {
    let events = vec![
        push("18446744073709551615", 4294967295, "a/b", "1969-12-31T23:59:59Z"),
        push("9223372036854775808", 0, "a/c", "9999-12-31T23:59:59Z"),
    ];
    assert_eq!(roundtrip(&events), events);
}

#[test]
fn codec_of_all_types() {
    let events: Vec<Entry> = (0..16u8)
        .map(|i| {
            let id = format!("{}", 100 + i);
            entry(
                &id,
                get_type_from_index(i).unwrap(),
                1,
                "a/b",
                "2025-01-01T00:00:00Z",
            )
        })
        .collect();
    assert_eq!(roundtrip(&events), events);
}

#[test]
fn codec_of_many_events() {
    let owners = ["Rust-Lang", "tensorflow", "OpenAI", "x", "GraphQL"];
    let mut events = Vec::new();
    for i in 0..300u64 {
        let owner = owners[(i * 7 % 5) as usize];
        let name = format!("{}/Project{}-{}", owner, i % 23, owner);
        let id = format!("{}", 100000 + i * i);
        let time = format!("2025-01-{:02}T{:02}:00:00Z", 1 + i / 24, i % 24);
        events.push(push(&id, 500 + i % 23 + 100 * (i * 7 % 5), &name, &time));
    }
    events.sort_by(|a, b| a.0.cmp(&b.0));
    assert_eq!(roundtrip(&events), events);
}

#[test]
fn errors_of_encoding() {
    let codec = LifthrasiirCodec::new();
    let time = "2025-01-01T00:00:00Z";
    let error = |event: Entry| codec.encode(&[event]).unwrap_err();
    assert_eq!(
        error(push("1", 1, "a/b", "yesterday")),
        EncodeError::InvalidTimestamp
    );
    assert_eq!(
        error(push("", 1, "a/b", time)),
        EncodeError::InvalidId(NumberError::Empty)
    );
    assert_eq!(
        error(push("-1", 1, "a/b", time)),
        EncodeError::InvalidId(NumberError::InvalidDigit)
    );
    assert_eq!(
        error(push("18446744073709551616", 1, "a/b", time)),
        EncodeError::InvalidId(NumberError::TooLarge)
    );
    assert_eq!(
        error(entry("1", "NoEvent", 1, "a/b", time)),
        EncodeError::UnknownEventType
    );
    assert_eq!(
        error(push("1", 4294967296, "a/b", time)),
        EncodeError::RepoIdTooLarge
    );
    assert_eq!(
        error(push("1", 1, "ab", time)),
        EncodeError::InvalidRepoName
    );
}

#[test]
fn a_bad_time_comes_before_other_errors() {
    let codec = LifthrasiirCodec::new();
    let events = [
        push("x", 1, "a/b", "2025-01-01T00:00:00Z"),
        push("2", 1, "a/b", "never"),
    ];
    assert_eq!(
        codec.encode(&events).unwrap_err(),
        EncodeError::InvalidTimestamp
    );
}

#[test]
fn splitting_at_given_times() {
    let events = [push("3", 1, "a/b", "?"), push("5", 1, "a/b", "?")];
    let arrays = split_events(&events, &vec![1, 0], &vec![10, 4]).unwrap();
    assert_eq!(arrays.id_deltas, vec![5, -2]);
    assert_eq!(arrays.ts_deltas, vec![10, -6]);
    assert_eq!(arrays.backrefs, vec![0, 2]);
}

#[test]
fn joining_at_given_times() {
    let arrays = one_event(0);
    let joined = join_events(&arrays, &vec![Some("noon".to_string())]).unwrap();
    assert_eq!(joined.len(), 1);
    assert_eq!(joined[0].0.id, "5");
    assert_eq!(joined[0].0.event_type, "PushEvent");
    assert_eq!(joined[0].1.repo.id, 7);
    assert_eq!(joined[0].1.repo.name, "Ann/tool");
    assert_eq!(joined[0].1.repo.url, "https://api.github.com/repos/Ann/tool");
    assert_eq!(joined[0].1.created_at, "noon");
    assert_eq!(
        join_events(&arrays, &vec![None]).unwrap_err(),
        DecodeError::InvalidTimestamp
    );
}

#[test]
fn errors_of_references() {
    assert_eq!(
        rebuild_events(&one_event(2)).unwrap_err(),
        DecodeError::InvalidRepoRef {
            backref: 2,
            event: 0,
            repos: 0
        }
    );
    assert_eq!(
        rebuild_events(&one_event(3)).unwrap_err(),
        DecodeError::InvalidOwnerRef {
            owner_index: 1,
            backref: 3,
            event: 0,
            owners: 0
        }
    );
    let mut arrays = one_event(0);
    arrays.owners = vec![];
    assert_eq!(
        rebuild_events(&arrays).unwrap_err(),
        DecodeError::MissingOwner {
            owner: 0,
            owners: 0,
            event: 0
        }
    );
    for backref in [0, 1] {
        let mut arrays = one_event(backref);
        arrays.repo_ids = vec![];
        arrays.names = vec![];
        assert_eq!(
            rebuild_events(&arrays).unwrap_err(),
            DecodeError::MissingRepo { event: 0 }
        );
    }
}

#[test]
fn errors_of_decoding() {
    let codec = LifthrasiirCodec::new();
    assert_eq!(codec.decode(&[]).unwrap_err(), DecodeError::UnexpectedEof);
    assert_eq!(
        codec.decode(&compress_m5(&[1, 0, 0, 0])).unwrap_err(),
        DecodeError::UnexpectedEof
    );

    let mut arrays = one_event(0);
    arrays.ts_deltas = vec![i64::MAX];
    let bytes = compress_m5(&write_payload(&arrays));
    assert_eq!(
        codec.decode(&bytes).unwrap_err(),
        DecodeError::InvalidTimestamp
    );

    let bytes = compress_m5(&write_payload(&one_event(4)));
    assert_eq!(
        codec.decode(&bytes).unwrap_err(),
        DecodeError::InvalidRepoRef {
            backref: 4,
            event: 0,
            repos: 0
        }
    );

    let mut payload = write_payload(&one_event(0));
    let end = payload.len();
    payload[end - 2] = 0xff;
    assert_eq!(
        codec.decode(&compress_m5(&payload)).unwrap_err(),
        DecodeError::InvalidUtf8 { left: 5 }
    );
}

#[test]
fn payload_of_one_event() {
    let mut arrays = one_event(0);
    arrays.ts_deltas = vec![-9];
    let expected = vec![
        1, 0, 0, 0, 1, 0, 0, 0, 5, 0xd1, 1, 0, 7, 0, 0, 0, b'^', b'a', b'n', b'n', 0, b't', b'o',
        b'o', b'l', 0,
    ];
    assert_eq!(write_payload(&arrays), expected);
}

#[test]
fn payload_roundtrip() {
    let arrays = EventArrays {
        id_deltas: vec![0, -5, i64::MIN, i64::MAX, 300],
        ts_deltas: vec![i64::MIN, i64::MAX, 0, -1, 77777],
        types: vec![0, 15, 3, 4, 5],
        backrefs: vec![0, u64::MAX, 1 << 55, 0, 2],
        repo_ids: vec![0x01020304, 0xfffefdfc, 9],
        owners: vec!["Ärger".to_string(), "".to_string()],
        names: vec!["API".to_string(), "a-B-c".to_string(), "x^".to_string()],
    };
    let read = read_payload(&write_payload(&arrays)).unwrap();
    assert_eq!(read.id_deltas, arrays.id_deltas);
    assert_eq!(read.ts_deltas, arrays.ts_deltas);
    assert_eq!(read.types, arrays.types);
    assert_eq!(read.backrefs, arrays.backrefs);
    assert_eq!(read.repo_ids, arrays.repo_ids);
    assert_eq!(read.owners, arrays.owners);
    assert_eq!(read.names, arrays.names);
}

#[test]
fn payload_stores_rows_of_bytes() {
    let mut arrays = no_arrays();
    arrays.repo_ids = vec![0x04030201, 0x14131211];
    arrays.names = vec!["".to_string(), "".to_string()];
    assert_eq!(
        write_payload(&arrays),
        vec![0, 0, 0, 0, 2, 0, 0, 0, 0x01, 0x11, 0x02, 0x12, 0x03, 0x13, 0x04, 0x14, 0, 0]
    );
}

#[test]
fn payload_cut_short() {
    let payload = write_payload(&one_event(0));
    for len in 0..payload.len() {
        assert_eq!(
            read_payload(&payload[..len]).err(),
            Some(DecodeError::UnexpectedEof)
        );
    }
    let mut longer = payload.clone();
    longer.push(1);
    assert!(read_payload(&longer).is_ok());
}

#[test]
fn type_numbers() {
    assert_eq!(get_type_index("CommitCommentEvent"), Some(0));
    assert_eq!(get_type_index("WatchEvent"), Some(15));
    assert_eq!(get_type_index("watchevent"), None);
    assert_eq!(get_type_from_index(13), Some("PushEvent"));
    assert_eq!(get_type_from_index(16), None);
    for i in 0..16 {
        assert_eq!(get_type_index(get_type_from_index(i).unwrap()), Some(i));
    }
}

#[test]
fn encoding_is_the_compressed_payload() {
    let events = vec![
        push("2", 1, "Alice/Alice", "2025-01-01T00:00:00Z"),
        push("1", 2, "Bob/x", "2025-01-01T00:00:05Z"),
    ];
    let encoded = LifthrasiirCodec::new().encode(&events).unwrap();
    let payload = write_payload(&index_events(&events).unwrap());
    assert_eq!(encoded.to_vec(), compress_m5(&payload));
}

#[test]
fn encoding_of_sorted_events() {
    let mut events = vec![
        push("5", 1, "Alice/Alice", "2025-01-01T00:00:00Z"),
        push("3", 2, "Bob/x", "2025-01-01T00:00:05Z"),
        push("4", 1, "Alice/Alice", "2025-01-01T00:00:09Z"),
    ];
    let codec = LifthrasiirCodec::new();
    let encoded = codec.encode(&events).unwrap();
    events.sort_by(|a, b| a.0.cmp(&b.0));
    assert_eq!(codec.encode(&events).unwrap(), encoded);
}

#[test]
fn encoding_does_not_depend_on_the_order() {
    let codec = LifthrasiirCodec::new();
    let a = push("7", 1, "ann/tool", "2025-01-01T00:00:03Z");
    let b = entry("7", "WatchEvent", 2, "ann/kit", "2025-01-01T00:00:01Z");
    let c = push("10", 3, "bob/lab", "2025-01-01T00:00:02Z");
    let encoded = codec
        .encode(&[a.clone(), b.clone(), c.clone()])
        .unwrap();
    assert_eq!(
        codec
            .encode(&[c.clone(), b.clone(), a.clone()])
            .unwrap(),
        encoded
    );
    assert_eq!(codec.encode(&[b, a, c]).unwrap(), encoded);
}

#[test]
fn every_event_takes_four_bytes() {
    let mut arrays = one_event(0);
    assert!(write_payload(&arrays).len() >= 4);
    for n in 2..6 {
        arrays.id_deltas.push(1);
        arrays.ts_deltas.push(0);
        arrays.types.push(0);
        arrays.backrefs.push(4);
        assert!(write_payload(&arrays).len() >= 4 * n);
    }
}

#[test]
fn times_are_compared_with_the_later_of_two() {
    let event = push("1", 1, "a/b", "?");
    let entries = vec![event.clone(), event.clone(), event.clone(), event];
    let times = vec![100, 50, 101, 99];
    let arrays = split_events(&entries, &vec![0, 1, 2, 3], &times).unwrap();
    assert_eq!(arrays.ts_deltas, vec![100, -50, 1, -2]);
}

#[test]
fn codec_of_extreme_times() {
    let events = vec![
        push("1", 1, "a/b", "+262142-12-31T23:59:59Z"),
        push("2", 1, "a/b", "-262143-01-01T00:00:00Z"),
        push("3", 1, "a/b", "0000-01-01T00:00:00Z"),
    ];
    assert_eq!(roundtrip(&events), events);
    let leap = [push("4", 1, "a/b", "2016-12-31T23:59:60Z")];
    assert_eq!(
        roundtrip(&leap),
        vec![push("4", 1, "a/b", "2016-12-31T23:59:59Z")]
    );
}

use linked::codec::{read_links, write_links};
use linked::dispatch::{run_command, sanitize_string, Command, Reply};
use linked::store::LinkMap;

fn map_of(pairs: &[(&[u8], &[u8])]) -> LinkMap {
    let mut m = LinkMap::new();
    for (k, v) in pairs {
        m.insert(k.to_vec(), v.to_vec());
    }
    m
}

fn listed(m: &LinkMap) -> Vec<(Vec<u8>, Vec<u8>)> {
    m.list().iter().map(|e| (e.abbrev.clone(), e.target.clone())).collect()
}

#[test]
fn empty_file_bootstrap() {
    let m = read_links(&Vec::new()).unwrap();
    assert_eq!(listed(&m).len(), 0);
}

#[test]
fn empty_map_serializes_to_empty_object() {
    let m = LinkMap::new();
    let bytes = write_links(&m);
    assert_eq!(bytes, b"{}".to_vec());
    let back = read_links(&bytes).unwrap();
    assert_eq!(listed(&back).len(), 0);
}

#[test]
fn serialize_single_entry_exact_bytes() {
    let m = map_of(&[(b"a", b"1")]);
    assert_eq!(write_links(&m), b"{\"a\":\"1\"}".to_vec());
}

#[test]
fn round_trip_two_entries() {
    let m = map_of(&[(b"b", b"2"), (b"a", b"1")]);
    let back = read_links(&write_links(&m)).unwrap();
    assert_eq!(listed(&back), listed(&m));
    assert_eq!(
        listed(&back),
        vec![(b"a".to_vec(), b"1".to_vec()), (b"b".to_vec(), b"2".to_vec())]
    );
}

#[test]
fn round_trip_with_escapes() {
    let target = b"x\"y\\z\nw\tv\ru".to_vec();
    let m = map_of(&[(b"k", &target)]);
    let bytes = write_links(&m);
    assert_eq!(bytes, b"{\"k\":\"x\\\"y\\\\z\\nw\\tv\\ru\"}".to_vec());
    let back = read_links(&bytes).unwrap();
    assert_eq!(back.get(&b"k".to_vec()), Some(&target));
}

#[test]
fn parse_accepts_whitespace_between_tokens() {
    let doc = b" { \"a\" : \"1\" ,\n\t\"b\" : \"2\" } ".to_vec();
    let m = read_links(&doc).unwrap();
    assert_eq!(
        listed(&m),
        vec![(b"a".to_vec(), b"1".to_vec()), (b"b".to_vec(), b"2".to_vec())]
    );
}

#[test]
fn parse_duplicate_key_last_wins() {
    let doc = b"{\"x\":\"a\",\"x\":\"b\"}".to_vec();
    let m = read_links(&doc).unwrap();
    assert_eq!(listed(&m), vec![(b"x".to_vec(), b"b".to_vec())]);
}

#[test]
fn parse_accepted_escapes() {
    let doc = b"{\"k\":\"\\\"\\\\\\/\\n\\t\\r\\b\\f\"}".to_vec();
    let m = read_links(&doc).unwrap();
    assert_eq!(
        m.get(&b"k".to_vec()),
        Some(&vec![34u8, 92, 47, 10, 9, 13, 8, 12])
    );
}

#[test]
fn parse_rejects_wrong_shapes() {
    assert!(read_links(&b"[]".to_vec()).is_err());
    assert!(read_links(&b"{\"a\":1}".to_vec()).is_err());
    assert!(read_links(&b"{\"a\":\"1\"".to_vec()).is_err());
    assert!(read_links(&b"{\"a\":\"1\"}x".to_vec()).is_err());
    assert!(read_links(&b"{\"a\":\"\\u0041\"}".to_vec()).is_err());
    assert!(read_links(&b"{\"a\" \"1\"}".to_vec()).is_err());
    assert!(read_links(&b"{,}".to_vec()).is_err());
    assert!(read_links(&b"not json".to_vec()).is_err());
}

#[test]
fn upsert_keeps_one_entry_with_later_value() {
    let mut m = LinkMap::new();
    let mut r = run_command(
        &mut m,
        Command::Add { tokens: vec![b"x".to_vec(), b"a".to_vec()] },
    );
    assert!(matches!(r, Ok(Reply::Added { .. })));
    r = run_command(
        &mut m,
        Command::Add { tokens: vec![b"x".to_vec(), b"b".to_vec()] },
    );
    assert!(matches!(r, Ok(Reply::Added { .. })));
    assert_eq!(listed(&m), vec![(b"x".to_vec(), b"b".to_vec())]);
}

#[test]
fn list_is_sorted_by_abbreviation() {
    let m = map_of(&[(b"b", b"2"), (b"a", b"1")]);
    let r = listed(&m);
    assert_eq!(r[0].0, b"a".to_vec());
    assert_eq!(r[1].0, b"b".to_vec());
}

#[test]
fn add_with_one_token_is_a_usage_error() {
    let mut m = map_of(&[(b"keep", b"me")]);
    let before = write_links(&m);
    let r = run_command(
        &mut m,
        Command::Add { tokens: vec![b"only-one-token".to_vec()] },
    );
    assert!(r.is_err());
    assert_eq!(write_links(&m), before);
}

#[test]
fn add_with_three_tokens_is_a_usage_error() {
    let mut m = LinkMap::new();
    let r = run_command(
        &mut m,
        Command::Add {
            tokens: vec![b"a".to_vec(), b"b".to_vec(), b"c".to_vec()],
        },
    );
    assert!(r.is_err());
    assert_eq!(listed(&m).len(), 0);
}

#[test]
fn get_on_a_missing_abbreviation_is_a_soft_miss() {
    let mut m = map_of(&[(b"other", b"x")]);
    let before = write_links(&m);
    let r = run_command(&mut m, Command::Get { abbrev: b"missing".to_vec() });
    match r {
        Ok(Reply::Missing { abbrev }) => assert_eq!(abbrev, b"missing".to_vec()),
        _ => panic!("expected a miss"),
    }
    assert_eq!(write_links(&m), before);
}

#[test]
fn end_to_end_add_then_get() {
    let mut m = read_links(&Vec::new()).unwrap();
    let r = run_command(
        &mut m,
        Command::Add {
            tokens: vec![b"foo".to_vec(), b"http://example.com".to_vec()],
        },
    );
    match r {
        Ok(Reply::Added { abbrev, target }) => {
            assert_eq!(abbrev, b"foo".to_vec());
            assert_eq!(target, b"http://example.com".to_vec());
        },
        _ => panic!("expected an upsert"),
    }
    let saved = write_links(&m);
    let mut reloaded = read_links(&saved).unwrap();
    let r = run_command(&mut reloaded, Command::Get { abbrev: b"foo".to_vec() });
    match r {
        Ok(Reply::Found { abbrev, target }) => {
            assert_eq!(abbrev, b"foo".to_vec());
            assert_eq!(target, b"http://example.com".to_vec());
        },
        _ => panic!("expected a hit"),
    }
}

#[test]
fn help_reply_for_no_subcommand() {
    let mut m = LinkMap::new();
    let r = run_command(&mut m, Command::Help);
    assert!(matches!(r, Ok(Reply::HelpHint)));
}

#[test]
fn listing_reply_carries_sorted_entries() {
    let mut m = map_of(&[(b"z", b"3"), (b"a", b"1"), (b"m", b"2")]);
    let r = run_command(&mut m, Command::List);
    match r {
        Ok(Reply::Listing { entries }) => {
            let pairs: Vec<(Vec<u8>, Vec<u8>)> =
                entries.iter().map(|e| (e.abbrev.clone(), e.target.clone())).collect();
            assert_eq!(
                pairs,
                vec![
                    (b"a".to_vec(), b"1".to_vec()),
                    (b"m".to_vec(), b"2".to_vec()),
                    (b"z".to_vec(), b"3".to_vec()),
                ]
            );
        },
        _ => panic!("expected the listing"),
    }
}

#[test]
fn sanitize_string_removes_parens_and_quotes() {
    assert_eq!(sanitize_string(&b"a(b)'c".to_vec()), b"abc".to_vec());
    assert_eq!(sanitize_string(&b"plain".to_vec()), b"plain".to_vec());
    assert_eq!(sanitize_string(&Vec::new()), Vec::<u8>::new());
}

#[test]
fn add_sanitizes_the_target() {
    let mut m = LinkMap::new();
    let r = run_command(
        &mut m,
        Command::Add {
            tokens: vec![b"k".to_vec(), b"ex('a')mple".to_vec()],
        },
    );
    assert!(matches!(r, Ok(Reply::Added { .. })));
    assert_eq!(m.get(&b"k".to_vec()), Some(&b"example".to_vec()));
}

#[test]
fn get_returns_the_stored_target() {
    let m = map_of(&[(b"a", b"1"), (b"b", b"2")]);
    assert_eq!(m.get(&b"a".to_vec()), Some(&b"1".to_vec()));
    assert_eq!(m.get(&b"b".to_vec()), Some(&b"2".to_vec()));
    assert_eq!(m.get(&b"c".to_vec()), None);
}

#[test]
fn serde_json_reads_what_the_store_writes() {
    let target = b"x\"y\\z\nw".to_vec();
    let m = map_of(&[(b"a", b"1"), (b"k", &target), (b"b", b"2")]);
    let text = String::from_utf8(write_links(&m)).unwrap();
    let parsed: std::collections::HashMap<String, String> =
        serde_json::from_str(&text).unwrap();
    assert_eq!(parsed.len(), 3);
    assert_eq!(parsed["a"], "1");
    assert_eq!(parsed["b"], "2");
    assert_eq!(parsed["k"], String::from_utf8(target).unwrap());
}

#[test]
fn the_store_reads_what_serde_json_writes() {
    let mut h = std::collections::HashMap::new();
    h.insert("foo".to_string(), "http://example.com".to_string());
    h.insert("bar".to_string(), "line1\nline2".to_string());
    let text = serde_json::to_string(&h).unwrap();
    let m = read_links(&text.into_bytes()).unwrap();
    assert_eq!(m.get(&b"foo".to_vec()), Some(&b"http://example.com".to_vec()));
    assert_eq!(m.get(&b"bar".to_vec()), Some(&b"line1\nline2".to_vec()));
}

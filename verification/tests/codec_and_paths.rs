use kvs::codec::{encode_command, parse_command, Command};
use kvs::error::KvsError;
use kvs::paths::{log_path, parse_file_gen, sorted_generation_list};

#[test]
fn encode_parse_round_trip_put() {
    let cmd = Command::set("héllo".to_string(), "wörld ☃".to_string());
    let bytes = encode_command(&cmd);
    let (parsed, used) = parse_command(bytes.as_slice(), 0).unwrap();
    assert_eq!(used, bytes.len());
    match parsed {
        Command::Put { key, value } => {
            assert_eq!(key, "héllo");
            assert_eq!(value, "wörld ☃");
        }
        Command::Remove { .. } => panic!("wrong variant"),
    }
}

#[test]
fn encode_parse_round_trip_remove() {
    let cmd = Command::remove("some key".to_string());
    let bytes = encode_command(&cmd);
    let (parsed, used) = parse_command(bytes.as_slice(), 0).unwrap();
    assert_eq!(used, bytes.len());
    match parsed {
        Command::Remove { key } => assert_eq!(key, "some key"),
        Command::Put { .. } => panic!("wrong variant"),
    }
}

#[test]
fn parse_two_records_back_to_back() {
    let mut bytes = encode_command(&Command::set("a".to_string(), "1".to_string()));
    let second = encode_command(&Command::remove("a".to_string()));
    bytes.extend_from_slice(second.as_slice());
    let (first, n1) = parse_command(bytes.as_slice(), 0).unwrap();
    match first {
        Command::Put { key, value } => {
            assert_eq!(key, "a");
            assert_eq!(value, "1");
        }
        Command::Remove { .. } => panic!("wrong variant"),
    }
    let (rest, n2) = parse_command(bytes.as_slice(), n1).unwrap();
    assert_eq!(n1 + n2, bytes.len());
    match rest {
        Command::Remove { key } => assert_eq!(key, "a"),
        Command::Put { .. } => panic!("wrong variant"),
    }
}

#[test]
fn parse_rejects_garbage() {
    let bytes = vec![7u8, 1, 2, 3];
    assert!(matches!(
        parse_command(bytes.as_slice(), 0),
        Err(KvsError::Serialization)
    ));
}

#[test]
fn parse_rejects_truncation() {
    let bytes = encode_command(&Command::set("key".to_string(), "value".to_string()));
    for cut in 0..bytes.len() {
        let r = parse_command(&bytes.as_slice()[..cut], 0);
        assert!(matches!(r, Err(KvsError::Serialization)), "cut at {}", cut);
    }
}

#[test]
fn parse_rejects_invalid_utf8_payload() {
    let good = encode_command(&Command::remove("ab".to_string()));
    let mut bad = good.clone();
    // Overwrite the key bytes with an invalid UTF-8 sequence.
    let len = bad.len();
    bad[len - 2] = 0xff;
    bad[len - 1] = 0xfe;
    assert!(matches!(parse_command(bad.as_slice(), 0), Err(KvsError::Serialization)));
}

#[test]
fn log_path_formats_generation() {
    assert_eq!(log_path("dir", 42), "dir/42.log");
    assert_eq!(log_path("/tmp/store", 0), "/tmp/store/0.log");
    assert_eq!(log_path("d", 18446744073709551615), "d/18446744073709551615.log");
}

#[test]
fn parse_file_gen_accepts_segment_names() {
    assert_eq!(parse_file_gen("42.log"), Some(42));
    assert_eq!(parse_file_gen("0007.log"), Some(7));
    assert_eq!(parse_file_gen("0.log"), Some(0));
    assert_eq!(parse_file_gen("18446744073709551615.log"), Some(u64::MAX));
}

#[test]
fn parse_file_gen_rejects_other_names() {
    assert_eq!(parse_file_gen(".log"), None);
    assert_eq!(parse_file_gen("x.log"), None);
    assert_eq!(parse_file_gen("42.txt"), None);
    assert_eq!(parse_file_gen("42log"), None);
    assert_eq!(parse_file_gen("4a2.log"), None);
    assert_eq!(parse_file_gen(""), None);
    // One past u64::MAX overflows and is not a segment name.
    assert_eq!(parse_file_gen("18446744073709551616.log"), None);
    assert_eq!(parse_file_gen("99999999999999999999999.log"), None);
}

#[test]
fn sorted_generation_list_sorts_and_filters() {
    let names = vec![
        "10.log".to_string(),
        "notes.txt".to_string(),
        "2.log".to_string(),
        "abc.log".to_string(),
        "2.log".to_string(),
        "7.log".to_string(),
    ];
    let gens = sorted_generation_list(&names);
    assert_eq!(gens, vec![2, 7, 10]);
}

#[test]
fn log_path_names_are_found_by_the_scanner() {
    // The names the store writes are the names the directory scan parses
    // back, for small and extreme generations alike.
    let mut names: Vec<String> = Vec::new();
    for g in [0u64, 1, 7, 42, 1000000, u64::MAX] {
        let path = log_path("d", g);
        let name = path.strip_prefix("d/").unwrap().to_string();
        assert_eq!(parse_file_gen(&name), Some(g));
        names.push(name);
    }
    let gens = sorted_generation_list(&names);
    assert_eq!(gens, vec![0, 1, 7, 42, 1000000, u64::MAX]);
}

#[test]
fn error_messages() {
    assert_eq!(KvsError::KeyNotFound.message(), "Key not found");
    assert_eq!(KvsError::UnexpectedCommandType.message(), "Unexpected command type");
}

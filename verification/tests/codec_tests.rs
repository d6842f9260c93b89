use yamaha_rcp_rs::codec::classify_recv;
use yamaha_rcp_rs::codec::classify_reply;
use yamaha_rcp_rs::codec::decode_int_reply;
use yamaha_rcp_rs::codec::decode_label_reply;
use yamaha_rcp_rs::codec::format_i32;
use yamaha_rcp_rs::codec::format_u64;
use yamaha_rcp_rs::codec::is_reply_line;
use yamaha_rcp_rs::codec::last_token;
use yamaha_rcp_rs::codec::parse_i32;
use yamaha_rcp_rs::codec::reader_ingest;
use yamaha_rcp_rs::codec::remove_quotes;
use yamaha_rcp_rs::Error;

#[test]
fn reader_splits_frames_and_filters_replies() {
    let chunk = b"OK a 1\nnotify x\nERROR bad\npartial".to_vec();
    let (lines, rest) = reader_ingest(Vec::new(), &chunk);
    assert_eq!(lines, vec![b"OK a 1".to_vec(), b"ERROR bad".to_vec()]);
    assert_eq!(rest, b"partial".to_vec());
}

#[test]
fn reader_carries_partial_lines_across_chunks() {
    let (lines, rest) = reader_ingest(Vec::new(), &b"OK 1".to_vec());
    assert!(lines.is_empty());
    assert_eq!(rest, b"OK 1".to_vec());
    let (lines, rest) = reader_ingest(rest, &b"23\nERR".to_vec());
    assert_eq!(lines, vec![b"OK 123".to_vec()]);
    assert_eq!(rest, b"ERR".to_vec());
    let (lines, rest) = reader_ingest(rest, &b"OR x\n".to_vec());
    assert_eq!(lines, vec![b"ERROR x".to_vec()]);
    assert!(rest.is_empty());
}

#[test]
fn reader_discards_unsolicited_lines() {
    let (lines, rest) = reader_ingest(Vec::new(), &b"NOTIFY level changed\n\n".to_vec());
    assert!(lines.is_empty());
    assert!(rest.is_empty());
}

#[test]
fn reader_takes_empty_chunk() {
    let (lines, rest) = reader_ingest(b"OK".to_vec(), &Vec::new());
    assert!(lines.is_empty());
    assert_eq!(rest, b"OK".to_vec());
}

#[test]
fn reply_classification_is_by_prefix() {
    assert!(is_reply_line(&b"OK done".to_vec()));
    assert!(is_reply_line(&b"ERROR bad".to_vec()));
    assert!(is_reply_line(&b"OKAY".to_vec()));
    assert!(!is_reply_line(&b"O".to_vec()));
    assert!(!is_reply_line(&b"ok done".to_vec()));
    assert!(!is_reply_line(&Vec::new()));
}

#[test]
fn classify_hands_back_success_lines_whole() {
    let r = classify_reply(b"OK devinfo productname TF1".to_vec());
    assert_eq!(r.unwrap(), b"OK devinfo productname TF1".to_vec());
}

#[test]
fn classify_carries_the_error_message() {
    let r = classify_reply(b"ERROR unknown address".to_vec());
    match r {
        Err(Error::RCPError(m)) => assert_eq!(m, b"unknown address".to_vec()),
        _ => panic!("expected a protocol error"),
    }
    let r = classify_reply(b"ERROR".to_vec());
    match r {
        Err(Error::RCPError(m)) => assert!(m.is_empty()),
        _ => panic!("expected a protocol error"),
    }
}

#[test]
fn classify_rejects_unframed_lines() {
    let r = classify_reply(b"NOTIFY x".to_vec());
    match r {
        Err(Error::RCPError(m)) => assert_eq!(m, b"NOTIFY x".to_vec()),
        _ => panic!("expected a protocol error"),
    }
}

#[test]
fn closed_queue_is_a_network_error() {
    let r = classify_recv(None);
    assert!(matches!(r, Err(Error::NetworkError(_))));
}

#[test]
fn classify_recv_passes_lines_through() {
    let r = classify_recv(Some(b"OK x 1".to_vec()));
    assert_eq!(r.unwrap(), b"OK x 1".to_vec());
    let r = classify_recv(Some(b"ERROR y".to_vec()));
    assert!(matches!(r, Err(Error::RCPError(_))));
}

#[test]
fn last_token_is_the_tail_after_the_last_space() {
    assert_eq!(last_token(&b"OK path 42".to_vec()), b"42".to_vec());
    assert_eq!(last_token(&b"bare".to_vec()), b"bare".to_vec());
    assert_eq!(last_token(&b"trailing ".to_vec()), b"".to_vec());
    assert_eq!(last_token(&Vec::new()), b"".to_vec());
}

#[test]
fn parses_plain_integers() {
    assert_eq!(parse_i32(&b"0".to_vec()).unwrap(), 0);
    assert_eq!(parse_i32(&b"1000".to_vec()).unwrap(), 1000);
    assert_eq!(parse_i32(&b"-13800".to_vec()).unwrap(), -13800);
    assert_eq!(parse_i32(&b"+17".to_vec()).unwrap(), 17);
    assert_eq!(parse_i32(&b"007".to_vec()).unwrap(), 7);
}

#[test]
fn parses_the_extremes_and_rejects_beyond() {
    assert_eq!(parse_i32(&b"2147483647".to_vec()).unwrap(), i32::MAX);
    assert_eq!(parse_i32(&b"-2147483648".to_vec()).unwrap(), i32::MIN);
    assert!(matches!(
        parse_i32(&b"2147483648".to_vec()),
        Err(Error::RCPParseError(_))
    ));
    assert!(matches!(
        parse_i32(&b"-2147483649".to_vec()),
        Err(Error::RCPParseError(_))
    ));
    assert!(matches!(
        parse_i32(&b"99999999999999999999999".to_vec()),
        Err(Error::RCPParseError(_))
    ));
}

#[test]
fn rejects_malformed_integers() {
    for bad in [&b""[..], b"-", b"+", b"12a", b"a12", b" 12", b"1 2", b"1.5"] {
        assert!(
            matches!(parse_i32(&bad.to_vec()), Err(Error::RCPParseError(_))),
            "accepted {:?}",
            bad
        );
    }
}

#[test]
fn decodes_the_reply_integer_from_the_last_token() {
    assert_eq!(
        decode_int_reply(&b"OK get MIXER:Current/InCh/Fader/Level 0 0 -6000".to_vec()).unwrap(),
        -6000
    );
    assert!(matches!(
        decode_int_reply(&b"OK path none".to_vec()),
        Err(Error::RCPParseError(_))
    ));
    assert!(matches!(
        decode_int_reply(&b"OK trailing ".to_vec()),
        Err(Error::RCPParseError(_))
    ));
}

#[test]
fn writes_decimals() {
    assert_eq!(format_u64(0), b"0".to_vec());
    assert_eq!(format_u64(10), b"10".to_vec());
    assert_eq!(format_u64(65535), b"65535".to_vec());
    assert_eq!(format_i32(0), b"0".to_vec());
    assert_eq!(format_i32(1000), b"1000".to_vec());
    assert_eq!(format_i32(-13800), b"-13800".to_vec());
    assert_eq!(format_i32(i32::MIN), b"-2147483648".to_vec());
    assert_eq!(format_i32(i32::MAX), b"2147483647".to_vec());
}

#[test]
fn formatted_integers_parse_back() {
    for v in [i32::MIN, -32768, -13800, -83, -1, 0, 1, 999, 1000, i32::MAX] {
        assert_eq!(parse_i32(&format_i32(v)).unwrap(), v);
    }
}

#[test]
fn removes_every_quote() {
    assert_eq!(remove_quotes(&b"\"Blue\"".to_vec()), b"Blue".to_vec());
    assert_eq!(remove_quotes(&b"plain".to_vec()), b"plain".to_vec());
    assert_eq!(remove_quotes(&b"\"\"".to_vec()), b"".to_vec());
}

#[test]
fn reassembles_multiword_labels() {
    assert_eq!(
        decode_label_reply(&b"OK path \"CHAN 2\"".to_vec()),
        b"CHAN 2".to_vec()
    );
    assert_eq!(
        decode_label_reply(&b"OK path \"solo\"".to_vec()),
        b"solo".to_vec()
    );
}

#[test]
fn reassembles_longer_and_empty_labels() {
    assert_eq!(
        decode_label_reply(&b"OK get MIXER:Current/InCh/Label/Name 1 0 \"lead vocal mic\"".to_vec()),
        b"lead vocal mic".to_vec()
    );
    assert_eq!(decode_label_reply(&b"OK path \"\"".to_vec()), b"".to_vec());
    assert_eq!(decode_label_reply(&b"OK path 7".to_vec()), b"".to_vec());
}

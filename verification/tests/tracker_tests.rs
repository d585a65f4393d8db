use ratio_spoof_core::tracker::{
    build_announce_url, next_retry_delay, read_announce_reply, replace_chars, reply_panics,
    AnnounceError, AnnounceRequest, AnnounceResponse, AnnounceStep, ReplyError, TrackerClient, INITIAL_RETRY_DELAY_SECS,
};

fn request(event: Option<&str>) -> AnnounceRequest {
    AnnounceRequest {
        info_hash: "%12ab".to_string(),
        peer_id: "-qB4030-abcdefghijkl".to_string(),
        port: 6881,
        uploaded: 65536,
        downloaded: 0,
        left: 5,
        key: "ABCDEF01".to_string(),
        event: event.map(|s| s.to_string()),
        numwant: 200,
    }
}

#[test]
fn reads_a_reply() {
    let r = read_announce_reply(200, b"d8:completei5e10:incompletei3e8:intervali900ee").unwrap();
    assert_eq!((r.interval, r.complete, r.incomplete), (900, 5, 3));
    assert!(r.failure_reason.is_none());
}

#[test]
fn reply_defaults() {
    let r = read_announce_reply(200, b"d5:peers0:12:min intervali60ee").unwrap();
    assert_eq!((r.interval, r.complete, r.incomplete), (1800, 0, 0));
}

#[test]
fn reply_values_are_converted_with_as() {
    let r = read_announce_reply(200, b"d8:intervali-1e8:completei4294967297ee").unwrap();
    assert_eq!(r.interval, u64::MAX);
    assert_eq!(r.complete, 1);
}

#[test]
fn reply_values_of_another_form_are_skipped() {
    let r = read_announce_reply(200, b"d8:interval3:abc8:completeli1eee").unwrap();
    assert_eq!((r.interval, r.complete), (1800, 0));
}

#[test]
fn failure_reason_fails_the_announce() {
    match read_announce_reply(200, b"d14:failure reason6:bannede") {
        Err(AnnounceError::TrackerFailure(m)) => assert_eq!(m, "banned"),
        other => panic!("unexpected: {:?}", other),
    }
    match read_announce_reply(200, b"d14:failure reason2:a\xffe") {
        Err(AnnounceError::TrackerFailure(m)) => assert_eq!(m, "a\u{FFFD}"),
        other => panic!("unexpected: {:?}", other),
    }
}

#[test]
fn refused_replies() {
    assert!(matches!(read_announce_reply(404, b"d8:intervali1ee"), Err(AnnounceError::BadStatus(404))));
    assert!(matches!(read_announce_reply(200, b""), Err(AnnounceError::EmptyResponse)));
    assert!(matches!(
        read_announce_reply(200, b"x"),
        Err(AnnounceError::Malformed(ReplyError::NotADictionary))
    ));
    assert!(matches!(
        read_announce_reply(200, b"d3:abc"),
        Err(AnnounceError::Malformed(ReplyError::UnexpectedEnd))
    ));
    assert!(matches!(
        read_announce_reply(200, b"d1x:e"),
        Err(AnnounceError::Malformed(ReplyError::InvalidLength(2)))
    ));
    assert!(matches!(
        read_announce_reply(200, b"d1:a5:abe"),
        Err(AnnounceError::Malformed(ReplyError::StringPastEnd))
    ));
    assert!(matches!(
        read_announce_reply(200, b"d1:a?e"),
        Err(AnnounceError::Malformed(ReplyError::UnknownType(4, b'?')))
    ));
}

#[test]
fn reply_length_overflow_is_a_panic_of_the_reader() {
    assert!(reply_panics(b"d18446744073709551615:x"));
    assert!(!reply_panics(b"d8:intervali1ee"));
}

#[test]
fn builds_the_announce_url() {
    let template = "info_hash={infohash}&peer_id={peerid}&port={port}&uploaded={uploaded}&downloaded={downloaded}&left={left}&key={key}&event={event}&numwant={numwant}";
    let url = build_announce_url("http://t.test/announce", template, &request(Some("started")));
    assert_eq!(
        url,
        "http://t.test/announce?info_hash=%12ab&peer_id=-qB4030-abcdefghijkl&port=6881&uploaded=65536&downloaded=0&left=5&key=ABCDEF01&event=started&numwant=200"
    );
    let url = build_announce_url("http://t.test/a?x=1", "&&left={left}&event={event}", &request(None));
    assert_eq!(url, "http://t.test/a?x=1&left=5&event=");
    let url = build_announce_url("http://t.test/a", "??left={left}", &request(None));
    assert_eq!(url, "http://t.test/a?left=5");
}

#[test]
fn replaces_from_the_left_without_overlap() {
    let s: Vec<char> = "aaa".chars().collect();
    let pat: Vec<char> = "aa".chars().collect();
    let with: Vec<char> = "b".chars().collect();
    assert_eq!(replace_chars(&s, &pat, &with), vec!['b', 'a']);
}

#[test]
fn retry_delays_double_up_to_900() {
    let mut d = INITIAL_RETRY_DELAY_SECS;
    let mut seen = vec![d];
    for _ in 0..7 {
        d = next_retry_delay(d);
        seen.push(d);
    }
    assert_eq!(seen, vec![30, 60, 120, 240, 480, 900, 900, 900]);
}

#[test]
fn trackers_are_tried_in_turn_and_the_answering_one_moves_first() {
    let mut c = TrackerClient::new(vec!["a".to_string(), "b".to_string(), "c".to_string()]);
    assert_eq!(c.get_current_tracker(), "a");
    assert_eq!((0..3).map(|i| c.tracker_for_attempt(i)).collect::<Vec<_>>(), vec![0, 1, 2]);
    c.swap_to_front(2);
    assert_eq!(c.get_current_tracker(), "c");
    assert_eq!(c.tracker_url(2), "a");
    assert_eq!(c.tracker_url(1), "b");
    c.swap_to_front(0);
    assert_eq!(c.get_current_tracker(), "c");
    c.swap_to_front(7);
    assert_eq!(c.len(), 3);
}

#[test]
fn a_pass_asks_each_tracker_once_then_gives_up() {
    let mut c = TrackerClient::new(vec!["a".to_string(), "b".to_string(), "c".to_string()]);
    let (mut round, step) = c.begin_announce(false);
    let mut asked = Vec::new();
    let mut step = step;
    loop {
        match step {
            AnnounceStep::Ask(i) => {
                asked.push(i);
                step = c.on_answer(&mut round, Err(AnnounceError::EmptyResponse));
            }
            AnnounceStep::Failed(AnnounceError::AllTrackersFailed) => break,
            _ => panic!("an announce that is not retried gives up"),
        }
    }
    assert_eq!(asked, vec![0, 1, 2]);
    assert_eq!(c.get_current_tracker(), "a");
}

#[test]
fn the_tracker_that_accepts_moves_first() {
    let mut c = TrackerClient::new(vec!["a".to_string(), "b".to_string(), "c".to_string()]);
    let (mut round, _) = c.begin_announce(true);
    assert!(matches!(c.on_answer(&mut round, Err(AnnounceError::EmptyResponse)), AnnounceStep::Ask(1)));
    assert!(matches!(c.on_answer(&mut round, Err(AnnounceError::EmptyResponse)), AnnounceStep::Ask(2)));
    let reply = AnnounceResponse { interval: 900, complete: 1, incomplete: 2, failure_reason: None };
    match c.on_answer(&mut round, Ok(reply)) {
        AnnounceStep::Done(r) => assert_eq!(r.interval, 900),
        _ => panic!("the third tracker accepted"),
    }
    assert_eq!(c.get_current_tracker(), "c");
    assert_eq!(c.tracker_url(2), "a");
    let (_, step) = c.begin_announce(true);
    assert!(matches!(step, AnnounceStep::Ask(0)));
}

#[test]
fn an_empty_tracker_list_fails_at_once_or_waits() {
    let c = TrackerClient::new(Vec::new());
    let (_, step) = c.begin_announce(false);
    assert!(matches!(step, AnnounceStep::Failed(AnnounceError::AllTrackersFailed)));
    let (mut round, step) = c.begin_announce(true);
    assert!(matches!(step, AnnounceStep::Retry { wait_secs: 30 }));
    assert!(matches!(c.after_wait(&mut round), AnnounceStep::Retry { wait_secs: 60 }));
    assert!(matches!(c.after_wait(&mut round), AnnounceStep::Retry { wait_secs: 120 }));
}

#[test]
fn reply_error_messages() {
    assert_eq!(ReplyError::InvalidLength(2).message(), "Invalid string length at pos 2");
    assert_eq!(ReplyError::UnknownType(4, b'?').message(), "Unknown bencode type at pos 4: 3f");
    assert_eq!(ReplyError::ExpectedInteger(17).message(), "Expected integer at pos 17");
    assert_eq!(ReplyError::LengthPastEnd.message(), "Unexpected end of data while reading string length");
    assert!(matches!(
        read_announce_reply(200, b"d12"),
        Err(AnnounceError::Malformed(ReplyError::LengthPastEnd))
    ));
}

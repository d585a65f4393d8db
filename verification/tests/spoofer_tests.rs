use ratio_spoof_core::generator::GeneratorError;
use ratio_spoof_core::emulation::EmulationError;
use ratio_spoof_core::spoofer::{
    retries_announce, AnnounceEvent, RatioSpoofer, SessionAction, SessionEvent, SpooferConfig, SpooferError,
    SpooferStatus,
};
use ratio_spoof_core::torrent::TorrentError;
use ratio_spoof_core::tracker::{AnnounceError, AnnounceResponse, AnnounceStep, ReplyError};

fn bstr(s: &[u8]) -> Vec<u8> {
    let mut out = format!("{}:", s.len()).into_bytes();
    out.extend_from_slice(s);
    out
}

fn torrent(total: u64, piece: u64) -> Vec<u8> {
    let mut v = b"d".to_vec();
    v.extend(bstr(b"announce"));
    v.extend(bstr(b"http://tracker.test/announce"));
    v.extend(bstr(b"info"));
    v.extend(b"d");
    v.extend(bstr(b"length"));
    v.extend(format!("i{}e", total).into_bytes());
    v.extend(bstr(b"name"));
    v.extend(bstr(b"movie.mkv"));
    v.extend(bstr(b"piece length"));
    v.extend(format!("i{}e", piece).into_bytes());
    v.extend(b"ee");
    v
}

fn config(client: &str, downloaded: u64) -> SpooferConfig {
    SpooferConfig {
        torrent_path: "movie.torrent".to_string(),
        client_profile: client.to_string(),
        initial_downloaded: downloaded,
        initial_uploaded: 70000,
        download_speed: 100,
        upload_speed: 1000,
        port: 6881,
    }
}

fn response(interval: u64) -> AnnounceResponse {
    AnnounceResponse { interval, complete: 7, incomplete: 2, failure_reason: None }
}

#[test]
fn new_session_state() {
    let s = RatioSpoofer::new(config("qbit-4.0.3", 400), &torrent(1000, 256)).unwrap();
    let st = s.get_state();
    assert_eq!(st.status, SpooferStatus::Idle);
    assert_eq!(st.current_downloaded, 400);
    assert_eq!(st.current_uploaded, 70000);
    assert_eq!(st.current_left, 600);
    assert_eq!(st.announce_interval, 1800);
    assert_eq!(st.current_tracker, "http://tracker.test/announce");
    assert_eq!(st.torrent_name, "movie.mkv");
    assert_eq!(st.total_size, 1000);
    assert!(s.get_history().is_empty());
    assert!(s.peer_id().starts_with("-qB4030-"));
}

#[test]
fn more_downloaded_than_the_torrent_leaves_nothing() {
    let s = RatioSpoofer::new(config("qbit-4.0.3", 5000), &torrent(1000, 256)).unwrap();
    assert_eq!(s.get_state().current_left, 0);
}

#[test]
fn new_session_errors() {
    assert!(matches!(
        RatioSpoofer::new(config("other", 0), &torrent(1000, 256)),
        Err(SpooferError::Profile(EmulationError::UnknownProfile(_)))
    ));
    assert!(matches!(
        RatioSpoofer::new(config("qbit-4.0.3", 0), b"d1:ae"),
        Err(SpooferError::Torrent(TorrentError::NoInfoDict))
    ));
}

#[test]
fn announce_requests() {
    let s = RatioSpoofer::new(config("qbit-4.3.3", 400), &torrent(1000, 256)).unwrap();
    let started = s.announce_request(Some(AnnounceEvent::Started));
    assert_eq!(started.event.as_deref(), Some("started"));
    assert_eq!(started.numwant, 200);
    assert_eq!(started.downloaded, 400);
    assert_eq!(started.uploaded, 65536);
    assert_eq!(started.left, 512);
    assert_eq!(started.port, 6881);
    assert_eq!(started.info_hash, s.torrent().info_hash);
    let stopped = s.announce_request(Some(AnnounceEvent::Stopped));
    assert_eq!(stopped.numwant, 0);
    assert_eq!(stopped.event.as_deref(), Some("stopped"));
    let regular = s.announce_request(None);
    assert!(regular.event.is_none());
    assert_eq!(regular.numwant, 200);
    assert!(retries_announce(None));
    assert!(!retries_announce(Some(AnnounceEvent::Started)));
    let url = s.announce_url(0, &started);
    assert!(url.starts_with("http://tracker.test/announce?info_hash="));
    assert!(url.contains("&event=started&numwant=200"));
}

fn running(s: &mut RatioSpoofer, interval: u64) -> SessionAction {
    assert!(matches!(s.on_event(SessionEvent::Start), SessionAction::Announce(Some(AnnounceEvent::Started))));
    s.on_event(SessionEvent::Answered(Ok(response(interval))))
}

fn tick(s: &mut RatioSpoofer) -> SessionAction {
    let event = SessionEvent::Ticked(false);
    assert!(s.event_fits_exec(&event));
    s.on_event(event)
}

#[test]
fn progress_stops_at_the_total() {
    let mut s = RatioSpoofer::new(config("qbit-4.0.3", 0), &torrent(1_000_000, 256)).unwrap();
    assert!(matches!(running(&mut s, 10), SessionAction::Wait));
    s.advance_progress(2, 3);
    let st = s.get_state();
    assert_eq!(st.current_downloaded, 100 * 10 + 2 * 256);
    assert_eq!(st.current_uploaded, 70000 + 1000 * 10 + 3 * 256);
    assert_eq!(st.current_left, 1_000_000 - 1512);
    for _ in 0..9 {
        assert!(matches!(tick(&mut s), SessionAction::Wait));
    }
    assert!(matches!(tick(&mut s), SessionAction::Announce(None)));
    let st = s.get_state();
    let added = st.current_downloaded - 1512;
    assert!(added >= 1000 + 256 && added <= 1000 + 2560 && (added - 1000) % 256 == 0);
    assert_eq!(st.current_downloaded + st.current_left, 1_000_000);
    assert!(matches!(
        s.on_event(SessionEvent::Answered(Ok(response(100_000)))),
        SessionAction::Wait
    ));
    s.advance_progress(1, 1);
    let st = s.get_state();
    assert_eq!(st.current_downloaded, 1_000_000);
    assert_eq!(st.current_left, 0);
    s.generate_next_progress();
    assert_eq!(s.get_state().current_downloaded, 1_000_000);
}

#[test]
fn history_keeps_the_last_twenty() {
    let mut s = RatioSpoofer::new(config("qbit-4.0.3", 0), &torrent(1000, 256)).unwrap();
    assert!(matches!(running(&mut s, 1), SessionAction::Wait));
    assert_eq!(s.get_state().status, SpooferStatus::Running);
    assert_eq!(s.get_state().seeders, 7);
    assert_eq!(s.get_history().len(), 1);
    for i in 0..25u64 {
        assert!(matches!(tick(&mut s), SessionAction::Announce(None)));
        assert!(matches!(
            s.on_event(SessionEvent::Answered(Ok(response(1)))),
            SessionAction::Wait
        ));
        assert_eq!(s.get_history().len(), std::cmp::min(i as usize + 2, 20));
    }
    assert_eq!(s.get_history().len(), 20);
    assert_eq!(s.get_state().history.len(), 20);
    let last = s.get_history()[19];
    assert_eq!(last.seeders, 7);
    assert_eq!(last.downloaded, s.get_state().current_downloaded);
}

#[test]
fn countdown_and_stop() {
    let mut s = RatioSpoofer::new(config("qbit-4.0.3", 0), &torrent(1000, 256)).unwrap();
    assert!(matches!(s.on_event(SessionEvent::Ticked(false)), SessionAction::Ignore));
    assert!(matches!(running(&mut s, 5), SessionAction::Wait));
    assert_eq!(s.get_state().next_announce_in, 4);
    assert!(matches!(tick(&mut s), SessionAction::Wait));
    assert_eq!(s.get_state().next_announce_in, 3);
    assert!(matches!(
        s.on_event(SessionEvent::Ticked(true)),
        SessionAction::Announce(Some(AnnounceEvent::Stopped))
    ));
    assert_eq!(s.get_state().status, SpooferStatus::Stopped);
    assert!(matches!(
        s.on_event(SessionEvent::Answered(Ok(response(60)))),
        SessionAction::Finish(Ok(()))
    ));
    assert!(matches!(s.on_event(SessionEvent::Start), SessionAction::Ignore));
}

#[test]
fn a_failed_start_ends_the_session() {
    let mut s = RatioSpoofer::new(config("qbit-4.0.3", 0), &torrent(1000, 256)).unwrap();
    assert!(matches!(s.on_event(SessionEvent::Start), SessionAction::Announce(Some(AnnounceEvent::Started))));
    assert_eq!(s.get_state().status, SpooferStatus::Starting);
    assert!(matches!(
        s.on_event(SessionEvent::Answered(Err(AnnounceError::AllTrackersFailed))),
        SessionAction::Finish(Err(AnnounceError::AllTrackersFailed))
    ));
    assert_eq!(s.get_state().status, SpooferStatus::Error("All trackers failed".to_string()));
    assert!(s.get_history().is_empty());
}

#[test]
fn a_zero_interval_announces_again_at_once() {
    let mut s = RatioSpoofer::new(config("qbit-4.0.3", 0), &torrent(1_000_000, 256)).unwrap();
    assert!(matches!(s.on_event(SessionEvent::Start), SessionAction::Announce(Some(AnnounceEvent::Started))));
    let event = SessionEvent::Answered(Ok(response(0)));
    assert!(s.event_fits_exec(&event));
    assert!(matches!(s.on_event(event), SessionAction::Announce(None)));
    let st = s.get_state();
    assert_eq!(st.next_announce_in, 0);
    assert!(st.current_downloaded >= 256 && st.current_downloaded <= 2560);
    // A regular announce that fails leaves the tracker's values and starts
    // the countdown again; with an interval of 0 the counts advance at once.
    let before = s.get_state().current_downloaded;
    assert!(matches!(
        s.on_event(SessionEvent::Answered(Err(AnnounceError::EmptyResponse))),
        SessionAction::Announce(None)
    ));
    assert!(s.get_state().current_downloaded > before);
}

#[test]
fn error_messages() {
    assert_eq!(AnnounceError::BadStatus(404).message(), "Tracker returned status: 404 Not Found");
    assert_eq!(AnnounceError::BadStatus(599).message(), "Tracker returned status: 599 <unknown status code>");
    assert_eq!(AnnounceError::BadStatus(7).message(), "Tracker returned status: 7");
    assert_eq!(
        AnnounceError::Malformed(ReplyError::NotADictionary).message(),
        "Invalid tracker response: not a dictionary"
    );
    assert_eq!(
        AnnounceError::Malformed(ReplyError::UnknownType(3, 0x7a)).message(),
        "Unknown bencode type at pos 3: 7a"
    );
    assert_eq!(AnnounceError::EmptyResponse.message(), "Empty response from tracker");
    assert_eq!(AnnounceError::TrackerFailure("banned".to_string()).message(), "Tracker error: banned");
    assert_eq!(AnnounceError::AllTrackersFailed.message(), "All trackers failed");
}

#[test]
fn the_answering_tracker_becomes_current() {
    let mut v = b"d".to_vec();
    v.extend(bstr(b"announce"));
    v.extend(bstr(b"http://one.test/a"));
    v.extend(bstr(b"announce-list"));
    v.extend(b"ll");
    v.extend(bstr(b"http://two.test/a"));
    v.extend(b"ee");
    v.extend(bstr(b"info"));
    v.extend(b"d");
    v.extend(bstr(b"length"));
    v.extend(b"i10e");
    v.extend(bstr(b"name"));
    v.extend(bstr(b"x"));
    v.extend(bstr(b"piece length"));
    v.extend(b"i4e");
    v.extend(b"ee");
    let mut s = RatioSpoofer::new(config("qbit-4.0.3", 0), &v).unwrap();
    assert!(matches!(s.on_event(SessionEvent::Start), SessionAction::Announce(Some(AnnounceEvent::Started))));
    let (mut round, step) = s.begin_announce(Some(AnnounceEvent::Started));
    assert!(matches!(step, AnnounceStep::Ask(0)));
    let step = s.on_tracker_answer(&mut round, Err(AnnounceError::EmptyResponse));
    assert!(matches!(step, AnnounceStep::Ask(1)));
    let step = s.on_tracker_answer(&mut round, Ok(response(60)));
    match step {
        AnnounceStep::Done(r) => {
            assert!(matches!(s.on_event(SessionEvent::Answered(Ok(r))), SessionAction::Wait));
        }
        _ => panic!("the second tracker answered"),
    }
    assert_eq!(s.get_state().current_tracker, "http://two.test/a");
    assert_eq!(s.get_state().announce_interval, 60);
    assert_eq!(s.tracker().tracker_url(1), "http://one.test/a");
}

#[test]
fn started_announce_gives_up_after_every_tracker() {
    let mut s = RatioSpoofer::new(config("qbit-4.3.3", 0), &torrent(1000, 256)).unwrap();
    let (mut round, step) = s.begin_announce(Some(AnnounceEvent::Started));
    assert!(!round.retry);
    assert!(matches!(step, AnnounceStep::Ask(0)));
    let step = s.on_tracker_answer(&mut round, Err(AnnounceError::BadStatus(404)));
    assert!(matches!(step, AnnounceStep::Failed(AnnounceError::AllTrackersFailed)));
}

#[test]
fn regular_announce_waits_longer_each_pass() {
    let mut s = RatioSpoofer::new(config("qbit-4.3.3", 0), &torrent(1000, 256)).unwrap();
    let (mut round, _) = s.begin_announce(None);
    let mut waits = Vec::new();
    for _ in 0..7 {
        match s.on_tracker_answer(&mut round, Err(AnnounceError::AllTrackersFailed)) {
            AnnounceStep::Retry { wait_secs } => {
                waits.push(wait_secs);
                assert!(matches!(s.after_retry_wait(&mut round), AnnounceStep::Ask(0)));
            }
            _ => panic!("a regular announce is retried"),
        }
    }
    assert_eq!(waits, vec![30, 60, 120, 240, 480, 900, 900]);
}

#[test]
fn history_entries_carry_the_given_time() {
    let mut s = RatioSpoofer::new(config("qbit-4.0.3", 0), &torrent(1000, 256)).unwrap();
    assert!(matches!(s.on_event_at(SessionEvent::Start, 5), SessionAction::Announce(Some(AnnounceEvent::Started))));
    assert!(matches!(s.on_event_at(SessionEvent::Answered(Ok(response(30))), 1_700_000_000_000), SessionAction::Wait));
    assert_eq!(s.get_history()[0].timestamp, 1_700_000_000_000);
}

#[test]
fn session_error_messages() {
    let e = RatioSpoofer::new(config("other", 0), &torrent(1000, 256)).err().unwrap();
    assert_eq!(e.message(), "Failed to load client profile: Unknown client profile: other");
    let e = RatioSpoofer::new(config("qbit-4.0.3", 0), b"d1:ae").err().unwrap();
    assert_eq!(e.message(), "Failed to parse torrent file: Failed to find info dictionary in torrent");
    assert_eq!(
        SpooferError::PeerId(GeneratorError::InvalidRegex).message(),
        "Failed to generate peer ID: Invalid peer id regex"
    );
}

use ratio_spoof_core::emulation::{ClientEmulation, EmulationError};

#[test]
fn test_load_profiles() {
    let emulation = ClientEmulation::load("qbit-4.0.3").unwrap();
    assert_eq!(emulation.profile().name, "qBittorrent v4.0.3");

    let emulation = ClientEmulation::load("qbit-4.3.3").unwrap();
    assert_eq!(emulation.profile().name, "qBittorrent v4.3.3");
}

#[test]
fn unknown_profiles_are_refused() {
    assert_eq!(ClientEmulation::load("qbit-9").err(), Some(EmulationError::UnknownProfile("qbit-9".to_string())));
    assert_eq!(
        ClientEmulation::load("qbit-9").err().unwrap().message(),
        "Unknown client profile: qbit-9"
    );
}

#[test]
fn profile_contents() {
    let e = ClientEmulation::load("qbit-4.3.3").unwrap();
    assert!(e.get_peer_id_regex().starts_with("-qB4330-"));
    assert!(e.get_query_template().contains("info_hash={infohash}"));
    assert!(e.get_query_template().contains("numwant={numwant}"));
    let headers = e.get_headers();
    assert_eq!(headers[0], ("User-Agent".to_string(), "qBittorrent/4.3.3".to_string()));
    assert_eq!(headers[1], ("Accept-Encoding".to_string(), "gzip".to_string()));
}

#[test]
fn lists_the_profiles() {
    assert_eq!(
        ClientEmulation::available_profiles(),
        vec![("qbit-4.0.3", "qBittorrent v4.0.3"), ("qbit-4.3.3", "qBittorrent v4.3.3")]
    );
}

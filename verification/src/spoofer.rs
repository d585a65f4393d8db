//! The spoofing session: the state shown to the user, the values announced
//! to the tracker, and how they advance between announces.
//!
//! The session's waiting, its HTTP requests and its channel messages are
//! done by the program that drives it; this module decides what is sent and
//! how each answer changes the state.
use vstd::prelude::*;
use crate::bencode::Step;
use crate::text::{chars_of, extend_chars, string_from_chars};
use crate::torrent::{TorrentInfo, TorrentError, parse_torrent, spec_torrent_fields, torrent_spec, strings_view};
use crate::tracker::{
    TrackerClient, AnnounceRequest, AnnounceResponse, AnnounceError, AnnounceRound, AnnounceStep,
    answered, build_announce_url,
};
use crate::emulation::{ClientEmulation, EmulationError, is_qbit_403, is_qbit_433, profile_regex};
use crate::generator::{
    PeerIdGenerator, KeyGenerator, GeneratorError, ValueRounder, round_down, UPLOAD_ROUNDING,
    pieces_added, is_upper_hex, regex_compiles, regex_utf8, regex_generates, repeats_fit,
};

verus! {

/// Calls `chrono::Utc::now()` and gives its `timestamp_millis()`: the
/// current time in milliseconds since the Unix epoch, of which nothing is
/// claimed.
#[verifier::external_body]
fn now_millis() -> (t: i64) {
    chrono::Utc::now().timestamp_millis()
}

/// What the user asks of a session.
#[derive(Debug, Clone)]
pub struct SpooferConfig {
    pub torrent_path: String,
    pub client_profile: String,
    pub initial_downloaded: u64,
    pub initial_uploaded: u64,
    /// bytes per second
    pub download_speed: u64,
    /// bytes per second
    pub upload_speed: u64,
    pub port: u16,
}

#[derive(Debug, Clone, PartialEq)]
pub enum SpooferStatus {
    Idle,
    Starting,
    Running,
    Paused,
    Stopped,
    Error(String),
}

/// One announce that the tracker accepted.
#[derive(Debug, Clone, Copy)]
pub struct ProgressUpdate {
    /// Milliseconds since the Unix epoch.
    pub timestamp: i64,
    pub downloaded: u64,
    pub uploaded: u64,
    pub left: u64,
    pub seeders: u32,
    pub leechers: u32,
}

/// What the user sees of a session.
#[derive(Debug, Clone)]
pub struct SpooferState {
    pub status: SpooferStatus,
    pub current_downloaded: u64,
    pub current_uploaded: u64,
    pub current_left: u64,
    pub seeders: u32,
    pub leechers: u32,
    /// seconds
    pub next_announce_in: u64,
    /// seconds
    pub announce_interval: u64,
    pub current_tracker: String,
    pub torrent_name: String,
    pub total_size: u64,
    pub history: Vec<ProgressUpdate>,
}

/// The event that an announce reports.
#[derive(Debug, Clone, Copy, PartialEq, Eq, Structural)]
pub enum AnnounceEvent {
    Started,
    Stopped,
    Completed,
}

impl AnnounceEvent {
    pub open spec fn text(self) -> Seq<char> {
        match self {
            AnnounceEvent::Started => "started"@,
            AnnounceEvent::Stopped => "stopped"@,
            AnnounceEvent::Completed => "completed"@,
        }
    }

    pub fn as_str(&self) -> (s: &'static str)
        ensures
            s@ == self.text(),
    {
        match self {
            AnnounceEvent::Started => "started",
            AnnounceEvent::Stopped => "stopped",
            AnnounceEvent::Completed => "completed",
        }
    }
}

/// Announces without an event are retried until they succeed; the started
/// and stopped announces are tried once.
pub fn retries_announce(event: Option<AnnounceEvent>) -> (r: bool)
    ensures
        r == (event is None),
{
    event.is_none()
}

/// Why a session cannot be made.
#[derive(Debug, Clone, PartialEq, Eq)]
pub enum SpooferError {
    Torrent(TorrentError),
    Profile(EmulationError),
    PeerId(GeneratorError),
}

impl SpooferError {
    /// The message of the error: what failed, then why.
    pub open spec fn text(self) -> Seq<char> {
        match self {
            SpooferError::Torrent(e) => "Failed to parse torrent file: "@ + e.text(),
            SpooferError::Profile(e) => "Failed to load client profile: "@ + e.text(),
            SpooferError::PeerId(e) => "Failed to generate peer ID: "@ + e.text(),
        }
    }

    /// The message of the error.
    pub fn message(&self) -> (m: String)
        ensures
            m@ == self.text(),
    {
        let mut v: Vec<char>;
        let cause: String;
        match self {
            SpooferError::Torrent(e) => {
                v = chars_of("Failed to parse torrent file: ");
                cause = e.message();
            },
            SpooferError::Profile(e) => {
                v = chars_of("Failed to load client profile: ");
                cause = e.message();
            },
            SpooferError::PeerId(e) => {
                v = chars_of("Failed to generate peer ID: ");
                cause = e.message();
            },
        }
        extend_chars(&mut v, &chars_of(cause.as_str()));
        string_from_chars(&v)
    }
}

/// The most announces kept in the history.
pub const HISTORY_LIMIT: usize = 20;

/// The history after one more entry: the oldest entry leaves when there
/// are more than 20.
pub open spec fn history_after(h: Seq<ProgressUpdate>, u: ProgressUpdate) -> Seq<ProgressUpdate> {
    if h.len() + 1 > 20 {
        h.push(u).drop_first()
    } else {
        h.push(u)
    }
}

/// `u` records the values of `st`, at the time `now`.
pub open spec fn records(u: ProgressUpdate, st: SpooferState, now: i64) -> bool {
    &&& u.timestamp == now
    &&& u.downloaded == st.current_downloaded
    &&& u.uploaded == st.current_uploaded
    &&& u.left == st.current_left
    &&& u.seeders == st.seeders
    &&& u.leechers == st.leechers
}

/// The counts announced after one interval: `download_pieces` and
/// `upload_pieces` pieces added to what the speeds give over the interval;
/// downloaded stops at the total size, left is what remains of it.
pub open spec fn advanced(
    st: SpooferState,
    config: SpooferConfig,
    total: u64,
    piece: u64,
    download_pieces: u32,
    upload_pieces: u32,
) -> (u64, u64, u64) {
    let down = config.download_speed * st.announce_interval + download_pieces * piece;
    let up = config.upload_speed * st.announce_interval + upload_pieces * piece;
    let d = if st.current_downloaded + down < total {
        (st.current_downloaded + down) as u64
    } else {
        total
    };
    (d, (st.current_uploaded + up) as u64, (total - d) as u64)
}

/// One interval's progress: uploaded grows by what the upload speed gives
/// over the interval plus the extra pieces, whatever has been downloaded;
/// downloaded grows the same way from the download speed but stops at the
/// total; left is what the total leaves of downloaded.
pub proof fn progress_of_one_interval(
    st: SpooferState,
    config: SpooferConfig,
    total: u64,
    piece: u64,
    download_pieces: u32,
    upload_pieces: u32,
)
    requires
        st.current_uploaded + config.upload_speed * st.announce_interval + upload_pieces * piece <= u64::MAX,
        st.current_downloaded + config.download_speed * st.announce_interval + download_pieces * piece
            <= u64::MAX,
    ensures
        ({
            let (d, u, l) = advanced(st, config, total, piece, download_pieces, upload_pieces);
            let grown = st.current_downloaded + config.download_speed * st.announce_interval + download_pieces
                * piece;
            &&& u == st.current_uploaded + config.upload_speed * st.announce_interval + upload_pieces * piece
            &&& d == (if grown < total {
                grown
            } else {
                total as int
            })
            &&& d <= total
            &&& d + l == total
        }),
{
    assert(0 <= config.upload_speed * st.announce_interval) by (nonlinear_arith);
    assert(0 <= upload_pieces * piece) by (nonlinear_arith);
    assert(0 <= config.download_speed * st.announce_interval) by (nonlinear_arith);
    assert(0 <= download_pieces * piece) by (nonlinear_arith);
}

/// A copy of a list of strings.
fn clone_strings(v: &Vec<String>) -> (r: Vec<String>)
    ensures
        strings_view(r@) == strings_view(v@),
{
    let mut r: Vec<String> = Vec::new();
    let mut i: usize = 0;
    while i < v.len()
        invariant
            i <= v@.len(),
            strings_view(r@) == strings_view(v@).take(i as int),
        decreases v@.len() - i,
    {
        let c = v[i].clone();
        assert(c@ == strings_view(v@)[i as int]);
        let ghost old_r = r@;
        r.push(c);
        assert(strings_view(r@) =~= strings_view(old_r).push(c@));
        assert(strings_view(r@) =~= strings_view(v@).take(i + 1));
        i = i + 1;
    }
    assert(strings_view(v@).take(v@.len() as int) =~= strings_view(v@));
    r
}

/// Where a session stands.
#[derive(Debug, Clone, Copy, PartialEq, Eq, Structural)]
pub enum SessionPhase {
    /// Not started yet.
    Idle,
    /// The started announce is out.
    Starting,
    /// Counting down the seconds to the next announce.
    CountingDown,
    /// A regular announce is out.
    Announcing,
    /// The stopped announce is out.
    Stopping,
    /// The session is over.
    Over,
}

/// What happened to a session.
pub enum SessionEvent {
    /// The user starts the session.
    Start,
    /// The announce of the last `Announce` action ended (after its retries).
    Answered(Result<AnnounceResponse, AnnounceError>),
    /// A second of the countdown passed; whether the user asked to stop.
    Ticked(bool),
}

/// What a session needs done next.
pub enum SessionAction {
    /// Send an announce with this event.
    Announce(Option<AnnounceEvent>),
    /// Wait a second.
    Wait,
    /// The session is over: the started announce failed, or the stopped
    /// announce ended with this result.
    Finish(Result<(), AnnounceError>),
    /// The event does not belong to the session's phase; nothing changed.
    Ignore,
}

/// A spoofing session.
pub struct RatioSpoofer {
    config: SpooferConfig,
    torrent: TorrentInfo,
    emulation: ClientEmulation,
    tracker: TrackerClient,
    peer_id: String,
    key: String,
    rounder: ValueRounder,
    state: SpooferState,
    history: Vec<ProgressUpdate>,
    phase: SessionPhase,
}

impl RatioSpoofer {
    pub closed spec fn spec_config(&self) -> SpooferConfig {
        self.config
    }

    pub closed spec fn spec_torrent(&self) -> TorrentInfo {
        self.torrent
    }

    pub closed spec fn spec_emulation(&self) -> ClientEmulation {
        self.emulation
    }

    pub closed spec fn spec_tracker(&self) -> TrackerClient {
        self.tracker
    }

    pub closed spec fn spec_peer_id(&self) -> Seq<char> {
        self.peer_id@
    }

    pub closed spec fn spec_key(&self) -> Seq<char> {
        self.key@
    }

    pub closed spec fn spec_state(&self) -> SpooferState {
        self.state
    }

    pub closed spec fn spec_history(&self) -> Seq<ProgressUpdate> {
        self.history@
    }

    pub closed spec fn piece(&self) -> u64 {
        self.rounder.piece()
    }

    /// Where the session stands.
    pub closed spec fn phase(&self) -> SessionPhase {
        self.phase
    }

    /// The tracker list is not empty and names its current tracker; pieces
    /// are those of the torrent; the history holds at most 20 entries and
    /// is the one shown in the state.
    pub closed spec fn wf(&self) -> bool {
        &&& self.tracker.wf()
        &&& self.tracker.tracker_list().len() > 0
        &&& self.rounder.piece() == self.torrent.piece_length
        &&& self.history@.len() <= 20
        &&& self.state.history@ == self.history@
        &&& self.state.total_size == self.torrent.total_size
    }

    /// A session keeps at most 20 announces in its history, the ones that
    /// its state shows; its tracker list is never empty; the state shows the
    /// torrent's total size, and values are rounded by the torrent's pieces.
    pub proof fn session_invariant(s: &Self)
        requires
            s.wf(),
        ensures
            s.spec_history().len() <= HISTORY_LIMIT,
            s.spec_state().history@ == s.spec_history(),
            s.spec_tracker().tracker_list().len() > 0,
            s.spec_state().total_size == s.spec_torrent().total_size,
            s.piece() == s.spec_torrent().piece_length,
    {
    }

    /// The parts that announces do not change.
    pub open spec fn same_session(&self, other: &Self) -> bool {
        &&& self.spec_config() == other.spec_config()
        &&& self.spec_torrent() == other.spec_torrent()
        &&& self.spec_emulation() == other.spec_emulation()
        &&& self.spec_peer_id() == other.spec_peer_id()
        &&& self.spec_key() == other.spec_key()
        &&& self.piece() == other.piece()
    }

    /// A new session on the torrent file `torrent_data`: the torrent is
    /// read, the client profile loaded, a peer id drawn from its regex and a
    /// key made; nothing has been downloaded but what the configuration
    /// says.
    pub fn new(config: SpooferConfig, torrent_data: &[u8]) -> (res: Result<Self, SpooferError>)
        requires
            torrent_data@.len() <= usize::MAX / 2,
            !(spec_torrent_fields(torrent_data@) is Panics),
        ensures
            match spec_torrent_fields(torrent_data@) {
                Step::Fails(e) => res == Err::<Self, SpooferError>(SpooferError::Torrent(e)),
                Step::Panics => false,
                Step::Done(f) => {
                    &&& (config.client_profile@ != "qbit-4.0.3"@ && config.client_profile@
                        != "qbit-4.3.3"@) ==> (res matches Err(
                        SpooferError::Profile(EmulationError::UnknownProfile(name)),
                    ) && name@ == config.client_profile@)
                    &&& (config.client_profile@ == "qbit-4.0.3"@ || config.client_profile@
                        == "qbit-4.3.3"@) ==> {
                        let rx = profile_regex(config.client_profile@);
                        &&& (res is Ok || res matches Err(SpooferError::PeerId(_)))
                        &&& (res == Err::<Self, SpooferError>(SpooferError::PeerId(GeneratorError::InvalidRegex))
                            <==> !(repeats_fit(rx, 100) && regex_compiles(rx, 100)))
                        &&& repeats_fit(rx, 100) && regex_compiles(rx, 100) && regex_utf8(rx, 100) ==> res is Ok
                        &&& (res matches Ok(s) ==> regex_generates(rx, 100, s.spec_peer_id()))
                    }
                    &&& res matches Ok(s) ==> {
                        &&& s.wf()
                        &&& s.spec_config() == config
                        &&& s.spec_torrent()@ == torrent_spec(torrent_data@, f)
                        &&& (config.client_profile@ == "qbit-4.0.3"@ ==> is_qbit_403(
                            s.spec_emulation().spec_profile(),
                        ))
                        &&& (config.client_profile@ == "qbit-4.3.3"@ ==> is_qbit_433(
                            s.spec_emulation().spec_profile(),
                        ))
                        &&& s.spec_key().len() == 8
                        &&& forall|i: int| 0 <= i < 8 ==> is_upper_hex(#[trigger] s.spec_key()[i])
                        &&& s.spec_tracker().tracker_list() == f.trackers
                        &&& s.spec_tracker().current_index() == 0
                        &&& s.spec_state().status == SpooferStatus::Idle
                        &&& s.spec_state().current_downloaded == config.initial_downloaded
                        &&& s.spec_state().current_uploaded == config.initial_uploaded
                        &&& s.spec_state().current_left == (if f.total_size > config.initial_downloaded {
                            f.total_size - config.initial_downloaded
                        } else {
                            0
                        })
                        &&& s.spec_state().seeders == 0
                        &&& s.spec_state().leechers == 0
                        &&& s.spec_state().next_announce_in == 0
                        &&& s.spec_state().announce_interval == 1800
                        &&& s.spec_state().current_tracker@ == f.trackers[0]
                        &&& s.spec_state().torrent_name@ == f.name
                        &&& s.spec_state().total_size == f.total_size
                        &&& s.spec_history().len() == 0
                        &&& s.phase() == SessionPhase::Idle
                    }
                },
            },
    {
        let torrent = match parse_torrent(torrent_data) {
            Ok(t) => t,
            Err(e) => {
                return Err(SpooferError::Torrent(e));
            },
        };
        let emulation = match ClientEmulation::load(config.client_profile.as_str()) {
            Ok(e) => e,
            Err(e) => {
                return Err(SpooferError::Profile(e));
            },
        };
        let peer_id = match PeerIdGenerator::generate(emulation.get_peer_id_regex()) {
            Ok(p) => p,
            Err(e) => {
                return Err(SpooferError::PeerId(e));
            },
        };
        let key = KeyGenerator::generate();
        let tracker = TrackerClient::new(clone_strings(&torrent.trackers));
        let rounder = ValueRounder::new(torrent.piece_length);
        let initial_left = torrent.total_size.saturating_sub(config.initial_downloaded);
        let current_tracker = tracker.get_current_tracker().to_owned();
        let state = SpooferState {
            status: SpooferStatus::Idle,
            current_downloaded: config.initial_downloaded,
            current_uploaded: config.initial_uploaded,
            current_left: initial_left,
            seeders: 0,
            leechers: 0,
            next_announce_in: 0,
            announce_interval: 1800,
            current_tracker,
            torrent_name: torrent.name.clone(),
            total_size: torrent.total_size,
            history: Vec::new(),
        };
        Ok(
            Self {
                config,
                torrent,
                emulation,
                tracker,
                peer_id,
                key,
                rounder,
                state,
                history: Vec::new(),
                phase: SessionPhase::Idle,
            },
        )
    }

    pub fn get_state(&self) -> (s: &SpooferState)
        ensures
            *s == self.spec_state(),
    {
        &self.state
    }

    pub fn get_history(&self) -> (h: &[ProgressUpdate])
        ensures
            h@ == self.spec_history(),
    {
        self.history.as_slice()
    }

    pub fn tracker(&self) -> (t: &TrackerClient)
        ensures
            *t == self.spec_tracker(),
    {
        &self.tracker
    }

    pub fn emulation(&self) -> (e: &ClientEmulation)
        ensures
            *e == self.spec_emulation(),
    {
        &self.emulation
    }

    pub fn torrent(&self) -> (t: &TorrentInfo)
        ensures
            *t == self.spec_torrent(),
    {
        &self.torrent
    }

    pub fn peer_id(&self) -> (p: &str)
        ensures
            p@ == self.spec_peer_id(),
    {
        self.peer_id.as_str()
    }

    /// Whether the rounding can run: the torrent's pieces are not empty.
    pub fn can_round(&self) -> (r: bool)
        ensures
            r == (self.piece() > 0),
    {
        self.rounder.piece_length() > 0
    }

    /// The request of an announce with `event`: the current counts, rounded;
    /// the torrent's info hash, the peer id, port and key; 200 peers wanted,
    /// none when stopping.
    pub fn announce_request(&self, event: Option<AnnounceEvent>) -> (r: AnnounceRequest)
        requires
            self.wf(),
            self.piece() > 0,
        ensures
            r.info_hash@ == self.spec_torrent().info_hash@,
            r.peer_id@ == self.spec_peer_id(),
            r.port == self.spec_config().port,
            r.downloaded == self.spec_state().current_downloaded,
            r.uploaded == round_down(self.spec_state().current_uploaded, UPLOAD_ROUNDING),
            r.left == round_down(self.spec_state().current_left, self.piece()),
            r.key@ == self.spec_key(),
            match event {
                Some(e) => r.event matches Some(t) && t@ == e.text(),
                None => r.event is None,
            },
            r.numwant == (if event == Some(AnnounceEvent::Stopped) {
                0u32
            } else {
                200u32
            }),
    {
        let (downloaded, uploaded, left) = self.rounder.round_values(
            self.state.current_downloaded,
            self.state.current_uploaded,
            self.state.current_left,
        );
        let event_text: Option<String> = match event {
            Some(e) => Some(e.as_str().to_owned()),
            None => None,
        };
        let numwant: u32 = match event {
            Some(AnnounceEvent::Stopped) => 0,
            _ => 200,
        };
        AnnounceRequest {
            info_hash: self.torrent.info_hash.clone(),
            peer_id: self.peer_id.clone(),
            port: self.config.port,
            uploaded,
            downloaded,
            left,
            key: self.key.clone(),
            event: event_text,
            numwant,
        }
    }

    /// The URL that announces `request` to the tracker at `tracker_idx`,
    /// with the query template of the client profile.
    pub fn announce_url(&self, tracker_idx: usize, request: &AnnounceRequest) -> (url: String)
        requires
            tracker_idx < self.spec_tracker().tracker_list().len(),
        ensures
            url@ == crate::tracker::announce_url(
                self.spec_tracker().tracker_list()[tracker_idx as int],
                crate::tracker::announce_query(self.spec_emulation().spec_profile().query@, *request),
            ),
    {
        build_announce_url(
            self.tracker.tracker_url(tracker_idx),
            self.emulation.get_query_template(),
            request,
        )
    }

    /// Starts an announce with `event`: the current tracker is asked first;
    /// only an announce without an event is retried once every tracker has
    /// failed.
    pub fn begin_announce(&self, event: Option<AnnounceEvent>) -> (r: (AnnounceRound, AnnounceStep))
        requires
            self.wf(),
        ensures
            r.0 == (AnnounceRound { retry: event is None, attempt: 0, delay: 30 }),
            r.0.wf(self.spec_tracker().tracker_list().len() as int),
            r.1 == AnnounceStep::Ask(self.spec_tracker().current_index() as usize),
    {
        self.tracker.begin_announce(retries_announce(event))
    }

    /// A retry's wait is over: a new pass over the trackers starts, at the
    /// current one.
    pub fn after_retry_wait(&self, round: &mut AnnounceRound) -> (step: AnnounceStep)
        requires
            self.wf(),
            old(round).attempt == 0,
            30 <= old(round).delay <= 900,
        ensures
            final(round).wf(self.spec_tracker().tracker_list().len() as int),
            *final(round) == *old(round),
            step == AnnounceStep::Ask(self.spec_tracker().current_index() as usize),
    {
        self.tracker.after_wait(round)
    }

    /// The tracker asked at `round` gave `answer`: what comes next. Only the
    /// tracker list changes (a tracker that accepts moves to the front).
    pub fn on_tracker_answer(&mut self, round: &mut AnnounceRound, answer: Result<AnnounceResponse, AnnounceError>) -> (step:
        AnnounceStep)
        requires
            old(self).wf(),
            old(round).wf(old(self).spec_tracker().tracker_list().len() as int),
        ensures
            final(self).wf(),
            final(self).same_session(old(self)),
            final(self).spec_state() == old(self).spec_state(),
            final(self).spec_history() == old(self).spec_history(),
            final(round).wf(old(self).spec_tracker().tracker_list().len() as int),
            answered(
                old(self).spec_tracker().tracker_list(),
                old(self).spec_tracker().current_index(),
                *old(round),
                answer,
                step,
                final(self).spec_tracker().tracker_list(),
                final(self).spec_tracker().current_index(),
                *final(round),
            ),
    {
        self.tracker.on_answer(round, answer)
    }

    /// Adds the current counts to the history, with the time `now`.
    fn add_to_history(&mut self, now: i64)
        requires
            old(self).wf(),
        ensures
            final(self).phase() == old(self).phase(),
            final(self).wf(),
            final(self).same_session(old(self)),
            final(self).spec_tracker() == old(self).spec_tracker(),
            final(self).spec_history().len() == history_after(
                old(self).spec_history(),
                final(self).spec_history().last(),
            ).len(),
            final(self).spec_history() == history_after(
                old(self).spec_history(),
                final(self).spec_history().last(),
            ),
            records(final(self).spec_history().last(), old(self).spec_state(), now),
            final(self).spec_state() == (SpooferState {
                history: final(self).spec_state().history,
                ..old(self).spec_state()
            }),
    {
        let update = ProgressUpdate {
            timestamp: now,
            downloaded: self.state.current_downloaded,
            uploaded: self.state.current_uploaded,
            left: self.state.current_left,
            seeders: self.state.seeders,
            leechers: self.state.leechers,
        };
        self.history.push(update);
        if self.history.len() > HISTORY_LIMIT {
            self.history.remove(0);
        }
        assert(self.history@ =~= history_after(old(self).history@, update));
        let mut copy: Vec<ProgressUpdate> = Vec::new();
        let mut i: usize = 0;
        while i < self.history.len()
            invariant
                i <= self.history@.len(),
                copy@ == self.history@.take(i as int),
            decreases self.history@.len() - i,
        {
            copy.push(self.history[i]);
            assert(copy@ =~= self.history@.take(i + 1));
            i = i + 1;
        }
        assert(copy@ =~= self.history@);
        self.state.history = copy;
    }

    /// The started announce was answered: the session runs, with the
    /// tracker's interval and peer counts, and the answer is recorded.
    fn apply_start_response(&mut self, response: &AnnounceResponse, now: i64)
        requires
            old(self).wf(),
        ensures
            final(self).phase() == old(self).phase(),
            final(self).spec_state().torrent_name == old(self).spec_state().torrent_name,
            final(self).spec_state().total_size == old(self).spec_state().total_size,
            final(self).spec_state().next_announce_in == old(self).spec_state().next_announce_in,
            final(self).wf(),
            final(self).same_session(old(self)),
            final(self).spec_tracker() == old(self).spec_tracker(),
            final(self).spec_state().status == SpooferStatus::Running,
            final(self).spec_state().announce_interval == response.interval,
            final(self).spec_state().seeders == response.complete,
            final(self).spec_state().leechers == response.incomplete,
            final(self).spec_state().current_tracker@ == old(self).spec_tracker().tracker_list()[old(
                self,
            ).spec_tracker().current_index()],
            final(self).spec_state().current_downloaded == old(self).spec_state().current_downloaded,
            final(self).spec_state().current_uploaded == old(self).spec_state().current_uploaded,
            final(self).spec_state().current_left == old(self).spec_state().current_left,
            final(self).spec_history() == history_after(
                old(self).spec_history(),
                final(self).spec_history().last(),
            ),
            records(final(self).spec_history().last(), final(self).spec_state(), now),
    {
        self.state.announce_interval = response.interval;
        self.state.seeders = response.complete;
        self.state.leechers = response.incomplete;
        self.state.status = SpooferStatus::Running;
        self.state.current_tracker = self.tracker.get_current_tracker().to_owned();
        self.add_to_history(now);
    }

    /// A regular announce was answered: the tracker's interval and peer
    /// counts are taken, and the answer is recorded.
    fn apply_announce_response(&mut self, response: &AnnounceResponse, now: i64)
        requires
            old(self).wf(),
        ensures
            final(self).phase() == old(self).phase(),
            final(self).spec_state().torrent_name == old(self).spec_state().torrent_name,
            final(self).spec_state().total_size == old(self).spec_state().total_size,
            final(self).spec_state().next_announce_in == old(self).spec_state().next_announce_in,
            final(self).wf(),
            final(self).same_session(old(self)),
            final(self).spec_tracker() == old(self).spec_tracker(),
            final(self).spec_state().status == old(self).spec_state().status,
            final(self).spec_state().announce_interval == response.interval,
            final(self).spec_state().seeders == response.complete,
            final(self).spec_state().leechers == response.incomplete,
            final(self).spec_state().current_tracker@ == old(self).spec_tracker().tracker_list()[old(
                self,
            ).spec_tracker().current_index()],
            final(self).spec_state().current_downloaded == old(self).spec_state().current_downloaded,
            final(self).spec_state().current_uploaded == old(self).spec_state().current_uploaded,
            final(self).spec_state().current_left == old(self).spec_state().current_left,
            final(self).spec_history() == history_after(
                old(self).spec_history(),
                final(self).spec_history().last(),
            ),
            records(final(self).spec_history().last(), final(self).spec_state(), now),
    {
        self.state.announce_interval = response.interval;
        self.state.seeders = response.complete;
        self.state.leechers = response.incomplete;
        self.state.current_tracker = self.tracker.get_current_tracker().to_owned();
        self.add_to_history(now);
    }

    /// Sets the status shown to the user.
    fn set_status(&mut self, status: SpooferStatus)
        requires
            old(self).wf(),
        ensures
            final(self).phase() == old(self).phase(),
            final(self).wf(),
            final(self).same_session(old(self)),
            final(self).spec_tracker() == old(self).spec_tracker(),
            final(self).spec_history() == old(self).spec_history(),
            final(self).spec_state() == (SpooferState { status: status, ..old(self).spec_state() }),
    {
        self.state.status = status;
    }

    /// Sets the seconds left before the next announce.
    fn set_next_announce_in(&mut self, seconds: u64)
        requires
            old(self).wf(),
        ensures
            final(self).phase() == old(self).phase(),
            final(self).wf(),
            final(self).same_session(old(self)),
            final(self).spec_tracker() == old(self).spec_tracker(),
            final(self).spec_history() == old(self).spec_history(),
            final(self).spec_state() == (SpooferState {
                next_announce_in: seconds,
                ..old(self).spec_state()
            }),
    {
        self.state.next_announce_in = seconds;
    }

    /// Whether one progress step over `interval` seconds cannot overflow,
    /// whatever number of pieces (1 to 10) is drawn.
    pub open spec fn fits_with(&self, interval: u64) -> bool {
        let st = self.spec_state();
        let c = self.spec_config();
        &&& c.download_speed * interval + 10 * self.piece() + st.current_downloaded <= u64::MAX
        &&& c.upload_speed * interval + 10 * self.piece() + st.current_uploaded <= u64::MAX
    }

    /// Whether one progress step over the current interval, with these
    /// numbers of extra pieces, cannot overflow.
    pub open spec fn pieces_fit(&self, download_pieces: u32, upload_pieces: u32) -> bool {
        let st = self.spec_state();
        let c = self.spec_config();
        let interval = st.announce_interval;
        &&& c.download_speed * interval + download_pieces * self.piece() + st.current_downloaded <= u64::MAX
        &&& c.upload_speed * interval + upload_pieces * self.piece() + st.current_uploaded <= u64::MAX
    }

    /// Whether one progress step over the current interval cannot overflow.
    pub open spec fn progress_fits(&self) -> bool {
        self.fits_with(self.spec_state().announce_interval)
    }

    fn fits_with_exec(&self, interval: u64) -> (r: bool)
        ensures
            r == self.fits_with(interval),
    {
        let p = self.rounder.piece_length();
        fits_one(self.config.download_speed, interval, p, self.state.current_downloaded) && fits_one(
            self.config.upload_speed,
            interval,
            p,
            self.state.current_uploaded,
        )
    }

    /// Advances the counts by one interval with the given numbers of extra
    /// pieces.
    pub fn advance_progress(&mut self, download_pieces: u32, upload_pieces: u32)
        requires
            old(self).wf(),
            old(self).pieces_fit(download_pieces, upload_pieces),
        ensures
            final(self).phase() == old(self).phase(),
            final(self).wf(),
            final(self).same_session(old(self)),
            final(self).spec_tracker() == old(self).spec_tracker(),
            final(self).spec_history() == old(self).spec_history(),
            ({
                let (d, u, l) = advanced(
                    old(self).spec_state(),
                    old(self).spec_config(),
                    old(self).spec_torrent().total_size,
                    old(self).piece(),
                    download_pieces,
                    upload_pieces,
                );
                final(self).spec_state() == (SpooferState {
                    current_downloaded: d,
                    current_uploaded: u,
                    current_left: l,
                    ..old(self).spec_state()
                })
            }),
            final(self).spec_state().current_downloaded <= final(self).spec_torrent().total_size,
            final(self).spec_state().current_downloaded + final(self).spec_state().current_left
                == final(self).spec_torrent().total_size,
            final(self).spec_state().current_uploaded >= old(self).spec_state().current_uploaded,
    {
        let interval = self.state.announce_interval;
        let p = self.rounder.piece_length();
        proof {
            let ds = self.config.download_speed;
            let us = self.config.upload_speed;
            assert(0 <= ds * interval) by (nonlinear_arith);
            assert(0 <= us * interval) by (nonlinear_arith);
            assert(0 <= download_pieces * p) by (nonlinear_arith);
            assert(0 <= upload_pieces * p) by (nonlinear_arith);
        }
        let download_bytes = self.config.download_speed * interval;
        let upload_bytes = self.config.upload_speed * interval;
        let download_bytes = self.rounder.add_pieces(download_bytes, download_pieces);
        let upload_bytes = self.rounder.add_pieces(upload_bytes, upload_pieces);
        let sum = self.state.current_downloaded + download_bytes;
        let new_downloaded = if sum < self.torrent.total_size {
            sum
        } else {
            self.torrent.total_size
        };
        let new_uploaded = self.state.current_uploaded + upload_bytes;
        let new_left = self.torrent.total_size - new_downloaded;
        self.state.current_downloaded = new_downloaded;
        self.state.current_uploaded = new_uploaded;
        self.state.current_left = new_left;
    }

    /// Advances the counts by one interval: what the configured speeds give
    /// over the interval, plus 1 to 10 random pieces each for realism;
    /// downloaded stops at 100%, uploaded has no limit.
    pub fn generate_next_progress(&mut self)
        requires
            old(self).wf(),
            old(self).progress_fits(),
        ensures
            final(self).phase() == old(self).phase(),
            final(self).wf(),
            final(self).same_session(old(self)),
            final(self).spec_tracker() == old(self).spec_tracker(),
            final(self).spec_history() == old(self).spec_history(),
            final(self).spec_state() == (SpooferState {
                current_downloaded: final(self).spec_state().current_downloaded,
                current_uploaded: final(self).spec_state().current_uploaded,
                current_left: final(self).spec_state().current_left,
                ..old(self).spec_state()
            }),
            exists|dp: u32, up: u32|
                1 <= dp <= 10 && 1 <= up <= 10 && #[trigger] advanced(
                    old(self).spec_state(),
                    old(self).spec_config(),
                    old(self).spec_torrent().total_size,
                    old(self).piece(),
                    dp,
                    up,
                ) == (
                    final(self).spec_state().current_downloaded,
                    final(self).spec_state().current_uploaded,
                    final(self).spec_state().current_left,
                ),
            final(self).spec_state().current_downloaded <= final(self).spec_torrent().total_size,
            final(self).spec_state().current_downloaded + final(self).spec_state().current_left
                == final(self).spec_torrent().total_size,
    {
        let dp = draw_pieces();
        let up = draw_pieces();
        proof {
            let p = self.piece();
            assert(dp * p <= 10 * p) by (nonlinear_arith)
                requires
                    dp <= 10,
            ;
            assert(up * p <= 10 * p) by (nonlinear_arith)
                requires
                    up <= 10,
            ;
        }
        self.advance_progress(dp, up);
    }

    /// The counts advance wherever `event` makes them advance, without
    /// overflow: at the end of a countdown, and at once after an announce
    /// round when the interval is 0.
    pub open spec fn event_fits(&self, event: SessionEvent) -> bool {
        match event {
            SessionEvent::Start => true,
            SessionEvent::Ticked(stop) => (self.phase() == SessionPhase::CountingDown && !stop
                && self.spec_state().next_announce_in == 0) ==> self.progress_fits(),
            SessionEvent::Answered(Ok(r)) => ((self.phase() == SessionPhase::Starting || self.phase()
                == SessionPhase::Announcing) && r.interval == 0) ==> self.fits_with(0),
            SessionEvent::Answered(Err(_)) => (self.phase() == SessionPhase::Announcing
                && self.spec_state().announce_interval == 0) ==> self.fits_with(0),
        }
    }

    /// Whether `event` can be handled without an overflow of the counts.
    pub fn event_fits_exec(&self, event: &SessionEvent) -> (r: bool)
        ensures
            r == self.event_fits(*event),
    {
        match event {
            SessionEvent::Start => true,
            SessionEvent::Ticked(stop) => {
                if self.phase == SessionPhase::CountingDown && !*stop && self.state.next_announce_in == 0 {
                    self.fits_with_exec(self.state.announce_interval)
                } else {
                    true
                }
            },
            SessionEvent::Answered(Ok(r)) => {
                if (self.phase == SessionPhase::Starting || self.phase == SessionPhase::Announcing)
                    && r.interval == 0 {
                    self.fits_with_exec(0)
                } else {
                    true
                }
            },
            SessionEvent::Answered(Err(_)) => {
                if self.phase == SessionPhase::Announcing && self.state.announce_interval == 0 {
                    self.fits_with_exec(0)
                } else {
                    true
                }
            },
        }
    }

    /// The countdown to the next announce begins, from the counts and the
    /// interval of `mid`: it shows `interval - 1` seconds and waits; with an
    /// interval of 0 the counts advance at once and the next regular announce
    /// is sent. (The other parts of the state are left to the caller.)
    pub open spec fn counts_down(&self, mid: SpooferState, next: &Self, action: SessionAction) -> bool {
        let fin = next.spec_state();
        if mid.announce_interval == 0 {
            &&& next.phase() == SessionPhase::Announcing
            &&& action == SessionAction::Announce(None)
            &&& fin.next_announce_in == 0
            &&& exists|dp: u32, up: u32|
                1 <= dp <= 10 && 1 <= up <= 10 && #[trigger] advanced(
                    mid,
                    self.spec_config(),
                    self.spec_torrent().total_size,
                    self.piece(),
                    dp,
                    up,
                ) == (fin.current_downloaded, fin.current_uploaded, fin.current_left)
        } else {
            &&& next.phase() == SessionPhase::CountingDown
            &&& action == SessionAction::Wait
            &&& fin.next_announce_in == mid.announce_interval - 1
            &&& fin.current_downloaded == mid.current_downloaded
            &&& fin.current_uploaded == mid.current_uploaded
            &&& fin.current_left == mid.current_left
        }
    }

    /// `a` and `b` agree on what the countdown and the counts leave alone.
    pub open spec fn same_but_progress(a: SpooferState, b: SpooferState) -> bool {
        &&& a.status == b.status
        &&& a.seeders == b.seeders
        &&& a.leechers == b.leechers
        &&& a.announce_interval == b.announce_interval
        &&& a.current_tracker == b.current_tracker
        &&& a.torrent_name == b.torrent_name
        &&& a.total_size == b.total_size
        &&& a.history == b.history
    }

    /// Starts the countdown to the next announce.
    fn begin_countdown(&mut self) -> (action: SessionAction)
        requires
            old(self).wf(),
            old(self).spec_state().announce_interval == 0 ==> old(self).progress_fits(),
        ensures
            final(self).wf(),
            final(self).same_session(old(self)),
            final(self).spec_tracker() == old(self).spec_tracker(),
            final(self).spec_history() == old(self).spec_history(),
            Self::same_but_progress(final(self).spec_state(), old(self).spec_state()),
            old(self).counts_down(old(self).spec_state(), final(self), action),
    {
        let interval = self.state.announce_interval;
        if interval == 0 {
            self.set_next_announce_in(0);
            let ghost mid = self.spec_state();
            self.generate_next_progress();
            proof {
                let cfg = self.spec_config();
                let total = self.spec_torrent().total_size;
                let piece = self.piece();
                let fin = self.spec_state();
                let (dp, up) = choose|dp: u32, up: u32|
                    1 <= dp <= 10 && 1 <= up <= 10 && #[trigger] advanced(mid, cfg, total, piece, dp, up) == (
                        fin.current_downloaded,
                        fin.current_uploaded,
                        fin.current_left,
                    );
                assert(advanced(old(self).spec_state(), cfg, total, piece, dp, up) == advanced(
                    mid,
                    cfg,
                    total,
                    piece,
                    dp,
                    up,
                ));
            }
            self.phase = SessionPhase::Announcing;
            SessionAction::Announce(None)
        } else {
            self.set_next_announce_in(interval - 1);
            self.phase = SessionPhase::CountingDown;
            SessionAction::Wait
        }
    }

    /// `counts_down` reads only the counts and the interval of its starting
    /// state, and the session's fixed parts.
    proof fn lemma_counts_down_transfer(
        outer: &Self,
        inner: &Self,
        mid: SpooferState,
        mid2: SpooferState,
        next: &Self,
        action: SessionAction,
    )
        requires
            inner.same_session(outer),
            mid.current_downloaded == mid2.current_downloaded,
            mid.current_uploaded == mid2.current_uploaded,
            mid.current_left == mid2.current_left,
            mid.announce_interval == mid2.announce_interval,
            inner.counts_down(mid2, next, action),
        ensures
            outer.counts_down(mid, next, action),
    {
        if mid.announce_interval == 0 {
            let fin = next.spec_state();
            let cfg = inner.spec_config();
            let total = inner.spec_torrent().total_size;
            let piece = inner.piece();
            let (dp, up) = choose|dp: u32, up: u32|
                1 <= dp <= 10 && 1 <= up <= 10 && #[trigger] advanced(mid2, cfg, total, piece, dp, up) == (
                    fin.current_downloaded,
                    fin.current_uploaded,
                    fin.current_left,
                );
            assert(advanced(mid, cfg, total, piece, dp, up) == advanced(mid2, cfg, total, piece, dp, up));
        }
    }

    /// One step of a session: `s` handles `event`, becomes `t` and asks for
    /// `action` (see `on_event`).
    pub open spec fn stepped(s: Self, event: SessionEvent, now: i64, t: Self, action: SessionAction) -> bool {
        let before = s.spec_state();
        let after = t.spec_state();
        let phase = s.phase();
        match event {
            SessionEvent::Start => if phase == SessionPhase::Idle {
                &&& action == SessionAction::Announce(Some(AnnounceEvent::Started))
                &&& t.phase() == SessionPhase::Starting
                &&& after == (SpooferState { status: SpooferStatus::Starting, ..before })
                &&& t.spec_history() == s.spec_history()
            } else {
                &&& action == SessionAction::Ignore
                &&& t == s
            },
            SessionEvent::Answered(answer) => if phase == SessionPhase::Starting {
                match answer {
                    Err(e) => {
                        &&& action == SessionAction::Finish(Err(e))
                        &&& t.phase() == SessionPhase::Over
                        &&& after.status matches SpooferStatus::Error(m) && m@ == e.text()
                        &&& after == (SpooferState { status: after.status, ..before })
                        &&& t.spec_history() == s.spec_history()
                    },
                    Ok(r) => {
                        let mid = SpooferState { announce_interval: r.interval, ..before };
                        &&& after.status == SpooferStatus::Running
                        &&& after.announce_interval == r.interval
                        &&& after.seeders == r.complete
                        &&& after.leechers == r.incomplete
                        &&& after.current_tracker@ == s.spec_tracker().tracker_list()[s.spec_tracker().current_index()]
                        &&& after.torrent_name == before.torrent_name
                        &&& after.total_size == before.total_size
                        &&& t.spec_history() == history_after(
                            s.spec_history(),
                            t.spec_history().last(),
                        )
                        &&& records(
                            t.spec_history().last(),
                            SpooferState { seeders: r.complete, leechers: r.incomplete, ..before },
                        now,
                        )
                        &&& s.counts_down(mid, &t, action)
                    },
                }
            } else if phase == SessionPhase::Announcing {
                match answer {
                    Ok(r) => {
                        let mid = SpooferState { announce_interval: r.interval, ..before };
                        &&& after.status == before.status
                        &&& after.announce_interval == r.interval
                        &&& after.seeders == r.complete
                        &&& after.leechers == r.incomplete
                        &&& after.current_tracker@ == s.spec_tracker().tracker_list()[s.spec_tracker().current_index()]
                        &&& after.torrent_name == before.torrent_name
                        &&& after.total_size == before.total_size
                        &&& t.spec_history() == history_after(
                            s.spec_history(),
                            t.spec_history().last(),
                        )
                        &&& records(
                            t.spec_history().last(),
                            SpooferState { seeders: r.complete, leechers: r.incomplete, ..before },
                        now,
                        )
                        &&& s.counts_down(mid, &t, action)
                    },
                    Err(_) => {
                        &&& Self::same_but_progress(after, before)
                        &&& t.spec_history() == s.spec_history()
                        &&& s.counts_down(before, &t, action)
                    },
                }
            } else if phase == SessionPhase::Stopping {
                &&& action == (match answer {
                    Ok(_) => SessionAction::Finish(Ok(())),
                    Err(e) => SessionAction::Finish(Err(e)),
                })
                &&& t.phase() == SessionPhase::Over
                &&& after == before
                &&& t.spec_history() == s.spec_history()
            } else {
                &&& action == SessionAction::Ignore
                &&& t == s
            },
            SessionEvent::Ticked(stop) => if phase != SessionPhase::CountingDown {
                &&& action == SessionAction::Ignore
                &&& t == s
            } else if stop {
                &&& action == SessionAction::Announce(Some(AnnounceEvent::Stopped))
                &&& t.phase() == SessionPhase::Stopping
                &&& after == (SpooferState { status: SpooferStatus::Stopped, ..before })
                &&& t.spec_history() == s.spec_history()
            } else if before.next_announce_in > 0 {
                &&& action == SessionAction::Wait
                &&& t.phase() == SessionPhase::CountingDown
                &&& after == (SpooferState {
                    next_announce_in: (before.next_announce_in - 1) as u64,
                    ..before
                })
                &&& t.spec_history() == s.spec_history()
            } else {
                &&& action == SessionAction::Announce(None)
                &&& t.phase() == SessionPhase::Announcing
                &&& Self::same_but_progress(after, before)
                &&& after.next_announce_in == before.next_announce_in
                &&& t.spec_history() == s.spec_history()
                &&& exists|dp: u32, up: u32|
                    1 <= dp <= 10 && 1 <= up <= 10 && #[trigger] advanced(
                        before,
                        s.spec_config(),
                        s.spec_torrent().total_size,
                        s.piece(),
                        dp,
                        up,
                    ) == (after.current_downloaded, after.current_uploaded, after.current_left)
            },
        }
    }

    /// Handles `event`: the session's state moves on, and the action that it
    /// needs done next is returned.
    ///
    /// - `Start`, when idle: the status is `Starting` and the started
    ///   announce is sent.
    /// - The started announce failed: the status is `Error` with its message,
    ///   and the session is over with that error.
    /// - The started announce was accepted: the session runs with the
    ///   tracker's interval and peer counts, the answer enters the history,
    ///   and the countdown begins.
    /// - A second passed in the countdown: a stop request sends the stopped
    ///   announce (status `Stopped`); otherwise the countdown goes on, and at
    ///   its end the counts advance and a regular announce is sent.
    /// - A regular announce was accepted: its interval and peer counts are
    ///   taken, the answer enters the history, and the countdown begins
    ///   again; when it failed, the countdown begins again all the same.
    /// - The stopped announce ended: the session is over, with its result.
    /// - Any other event is ignored.
    ///
    /// An answer that enters the history is recorded at the time `now`.
    pub fn on_event_at(&mut self, event: SessionEvent, now: i64) -> (action: SessionAction)
        requires
            old(self).wf(),
            old(self).event_fits(event),
        ensures
            final(self).wf(),
            final(self).same_session(old(self)),
            final(self).spec_tracker() == old(self).spec_tracker(),
            Self::stepped(*old(self), event, now, *final(self), action),
    {
        match event {
            SessionEvent::Start => {
                if self.phase == SessionPhase::Idle {
                    self.set_status(SpooferStatus::Starting);
                    self.phase = SessionPhase::Starting;
                    SessionAction::Announce(Some(AnnounceEvent::Started))
                } else {
                    SessionAction::Ignore
                }
            },
            SessionEvent::Answered(answer) => {
                if self.phase == SessionPhase::Starting {
                    match answer {
                        Err(e) => {
                            self.set_status(SpooferStatus::Error(e.message()));
                            self.phase = SessionPhase::Over;
                            SessionAction::Finish(Err(e))
                        },
                        Ok(r) => {
                            let ghost outer = *self;
                            self.apply_start_response(&r, now);
                            let ghost inner = *self;
                            let action = self.begin_countdown();
                            proof {
                                let mid = SpooferState { announce_interval: r.interval, ..outer.spec_state() };
                                Self::lemma_counts_down_transfer(
                                    &outer,
                                    &inner,
                                    mid,
                                    inner.spec_state(),
                                    self,
                                    action,
                                );
                            }
                            action
                        },
                    }
                } else if self.phase == SessionPhase::Announcing {
                    match answer {
                        Ok(r) => {
                            let ghost outer = *self;
                            self.apply_announce_response(&r, now);
                            let ghost inner = *self;
                            let action = self.begin_countdown();
                            proof {
                                let mid = SpooferState { announce_interval: r.interval, ..outer.spec_state() };
                                Self::lemma_counts_down_transfer(
                                    &outer,
                                    &inner,
                                    mid,
                                    inner.spec_state(),
                                    self,
                                    action,
                                );
                            }
                            action
                        },
                        Err(_) => self.begin_countdown(),
                    }
                } else if self.phase == SessionPhase::Stopping {
                    self.phase = SessionPhase::Over;
                    match answer {
                        Ok(_) => SessionAction::Finish(Ok(())),
                        Err(e) => SessionAction::Finish(Err(e)),
                    }
                } else {
                    SessionAction::Ignore
                }
            },
            SessionEvent::Ticked(stop) => {
                if self.phase != SessionPhase::CountingDown {
                    SessionAction::Ignore
                } else if stop {
                    self.set_status(SpooferStatus::Stopped);
                    self.phase = SessionPhase::Stopping;
                    SessionAction::Announce(Some(AnnounceEvent::Stopped))
                } else if self.state.next_announce_in > 0 {
                    let left = self.state.next_announce_in - 1;
                    self.set_next_announce_in(left);
                    SessionAction::Wait
                } else {
                    let ghost outer = *self;
                    self.generate_next_progress();
                    self.phase = SessionPhase::Announcing;
                    proof {
                        let fin = self.spec_state();
                        let before = outer.spec_state();
                        let cfg = outer.spec_config();
                        let total = outer.spec_torrent().total_size;
                        let piece = outer.piece();
                        let (dp, up) = choose|dp: u32, up: u32|
                            1 <= dp <= 10 && 1 <= up <= 10 && #[trigger] advanced(before, cfg, total, piece, dp, up) == (
                                fin.current_downloaded,
                                fin.current_uploaded,
                                fin.current_left,
                            );
                        assert(advanced(
                            old(self).spec_state(),
                            old(self).spec_config(),
                            old(self).spec_torrent().total_size,
                            old(self).piece(),
                            dp,
                            up,
                        ) == (fin.current_downloaded, fin.current_uploaded, fin.current_left));
                    }
                    SessionAction::Announce(None)
                }
            },
        }
    }

    /// Handles `event` as `on_event_at` does, at the current time (the
    /// clock's reading in milliseconds since the Unix epoch).
    pub fn on_event(&mut self, event: SessionEvent) -> (action: SessionAction)
        requires
            old(self).wf(),
            old(self).event_fits(event),
        ensures
            final(self).wf(),
            final(self).same_session(old(self)),
            final(self).spec_tracker() == old(self).spec_tracker(),
            exists|now: i64| Self::stepped(*old(self), event, now, *final(self), action),
    {
        let now = now_millis();
        self.on_event_at(event, now)
    }
}

impl RatioSpoofer {
    /// A stop request during the countdown sends the stopped announce (the
    /// status is then `Stopped`), and the answer to it, whatever it is, ends
    /// the session.
    pub proof fn stop_request_ends_session(
        s: Self,
        s1: Self,
        a1: SessionAction,
        answer: Result<AnnounceResponse, AnnounceError>,
        s2: Self,
        a2: SessionAction,
        now1: i64,
        now2: i64,
    )
        requires
            s.phase() == SessionPhase::CountingDown,
            Self::stepped(s, SessionEvent::Ticked(true), now1, s1, a1),
            Self::stepped(s1, SessionEvent::Answered(answer), now2, s2, a2),
        ensures
            a1 == SessionAction::Announce(Some(AnnounceEvent::Stopped)),
            s1.spec_state().status == SpooferStatus::Stopped,
            a2 is Finish,
            s2.phase() == SessionPhase::Over,
    {
    }

    /// An accepted announce, started or regular, shows the tracker's peer
    /// counts and interval in the state, and its history entry records those
    /// peer counts, the time given and the counts as they were announced;
    /// the history gains that entry at its end.
    pub proof fn accepted_announce_shows_its_answer(
        s: Self,
        r: AnnounceResponse,
        now: i64,
        t: Self,
        action: SessionAction,
    )
        requires
            s.phase() == SessionPhase::Starting || s.phase() == SessionPhase::Announcing,
            Self::stepped(s, SessionEvent::Answered(Ok(r)), now, t, action),
        ensures
            t.spec_state().seeders == r.complete,
            t.spec_state().leechers == r.incomplete,
            t.spec_state().announce_interval == r.interval,
            t.spec_history().len() > 0,
            t.spec_history().last().seeders == r.complete,
            t.spec_history().last().leechers == r.incomplete,
            t.spec_history().last().timestamp == now,
            t.spec_history().last().downloaded == s.spec_state().current_downloaded,
            t.spec_history().last().uploaded == s.spec_state().current_uploaded,
            t.spec_history().last().left == s.spec_state().current_left,
            t.spec_history().drop_last() == (if s.spec_history().len() < HISTORY_LIMIT {
                s.spec_history()
            } else {
                s.spec_history().drop_first()
            }),
    {
        let h = s.spec_history();
        let u = t.spec_history().last();
        if h.len() + 1 > 20 {
            assert(h.push(u).drop_first().drop_last() =~= h.drop_first());
        } else {
            assert(h.push(u).drop_last() =~= h);
        }
    }

    /// A session that is over ignores every event and stays as it is: no
    /// announce is sent after the end.
    pub proof fn ended_session_stays_ended(s: Self, event: SessionEvent, now: i64, t: Self, action: SessionAction)
        requires
            s.phase() == SessionPhase::Over,
            Self::stepped(s, event, now, t, action),
        ensures
            action is Ignore,
            t == s,
    {
    }

    /// A running session (counting down or announcing) goes on running
    /// through every event but a stop request: it never ends by itself,
    /// whatever the trackers answer.
    pub proof fn running_session_goes_on(s: Self, event: SessionEvent, now: i64, t: Self, action: SessionAction)
        requires
            s.phase() == SessionPhase::CountingDown || s.phase() == SessionPhase::Announcing,
            !(event matches SessionEvent::Ticked(stop) && stop),
            Self::stepped(s, event, now, t, action),
        ensures
            !(action is Finish),
            t.phase() == SessionPhase::CountingDown || t.phase() == SessionPhase::Announcing,
    {
    }
}

/// The history keeps a window of the last 20 announces: one more entry
/// goes last, and the oldest leaves once there are more than 20.
pub proof fn history_window(h: Seq<ProgressUpdate>, u: ProgressUpdate)
    requires
        h.len() <= HISTORY_LIMIT,
    ensures
        history_after(h, u).len() == if h.len() < HISTORY_LIMIT {
            h.len() + 1
        } else {
            HISTORY_LIMIT as nat
        },
        history_after(h, u).last() == u,
        history_after(h, u) == h.push(u).skip(h.push(u).len() - history_after(h, u).len()),
{
    if h.len() + 1 > 20 {
        assert(h.push(u).drop_first() =~= h.push(u).skip(1));
    } else {
        assert(h.push(u).skip(0) =~= h.push(u));
    }
}

/// Whether `speed * interval + 10 * piece + current` fits in a `u64`.
fn fits_one(speed: u64, interval: u64, piece: u64, current: u64) -> (r: bool)
    ensures
        r == (speed * interval + 10 * piece + current <= u64::MAX),
{
    proof {
        assert(0 <= speed * interval) by (nonlinear_arith);
    }
    if piece > u64::MAX / 10 {
        return false;
    }
    let ten = 10 * piece;
    match speed.checked_mul(interval) {
        None => false,
        Some(a) => a <= u64::MAX - ten && a + ten <= u64::MAX - current,
    }
}

/// A number of extra pieces, from 1 to 10.
fn draw_pieces() -> (n: u32)
    ensures
        1 <= n <= 10,
{
    crate::generator::random_in_range(1, 10)
}

} // verus!

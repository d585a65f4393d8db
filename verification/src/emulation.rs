//! The BitTorrent clients that announces imitate.
use vstd::prelude::*;
use crate::text::{chars_of, extend_chars, string_from_chars};

verus! {

/// How a client makes its peer id.
#[derive(Debug, Clone)]
pub struct PeerIdConfig {
    pub regex: String,
}

/// How a client makes its announce key.
#[derive(Debug, Clone)]
pub struct KeyConfig {
    pub generator: String,
}

/// How a client rounds the announced values.
#[derive(Debug, Clone)]
pub struct RoundingConfig {
    pub generator: String,
}

/// A client profile: its name, peer id, key and rounding schemes, the
/// announce query template, and the HTTP headers of its announces (name and
/// value, each name once).
#[derive(Debug, Clone)]
pub struct ClientProfile {
    pub name: String,
    pub peer_id: PeerIdConfig,
    pub key: KeyConfig,
    pub rounding: RoundingConfig,
    pub query: String,
    pub headers: Vec<(String, String)>,
}

/// Why a client profile cannot be loaded.
#[derive(Debug, Clone, PartialEq, Eq)]
pub enum EmulationError {
    /// No profile has this name.
    UnknownProfile(String),
}

impl EmulationError {
    /// The message of the error.
    pub open spec fn text(self) -> Seq<char> {
        match self {
            EmulationError::UnknownProfile(name) => "Unknown client profile: "@ + name@,
        }
    }

    /// The message of the error.
    pub fn message(&self) -> (m: String)
        ensures
            m@ == self.text(),
    {
        match self {
            EmulationError::UnknownProfile(name) => {
                let mut v = chars_of("Unknown client profile: ");
                extend_chars(&mut v, &chars_of(name.as_str()));
                string_from_chars(&v)
            },
        }
    }
}

/// The announce query of qBittorrent 4.x.
pub open spec fn qbit_query() -> Seq<char> {
    "info_hash={infohash}&peer_id={peerid}&port={port}&uploaded={uploaded}&downloaded={downloaded}&left={left}&corrupt=0&key={key}&event={event}&numwant={numwant}&compact=1&no_peer_id=1&supportcrypto=1&redundant=0"@
}

/// The profile that `load` gives for qBittorrent of the given version
/// texts (its name, peer id prefix and user agent).
pub open spec fn is_qbit_profile(
    p: ClientProfile,
    name: Seq<char>,
    regex: Seq<char>,
    agent: Seq<char>,
) -> bool {
    &&& p.name@ == name
    &&& p.peer_id.regex@ == regex
    &&& p.key.generator@ == "hash"@
    &&& p.rounding.generator@ == "default"@
    &&& p.query@ == qbit_query()
    &&& p.headers@.len() == 2
    &&& p.headers@[0].0@ == "User-Agent"@
    &&& p.headers@[0].1@ == agent
    &&& p.headers@[1].0@ == "Accept-Encoding"@
    &&& p.headers@[1].1@ == "gzip"@
}

/// The peer id regex of qBittorrent 4.0.3.
pub open spec fn qbit_403_regex() -> Seq<char> {
    "-qB4030-[A-Za-z0-9_~\\(\\)!\\.\\*-]{12}"@
}

/// The peer id regex of qBittorrent 4.3.3.
pub open spec fn qbit_433_regex() -> Seq<char> {
    "-qB4330-[A-Za-z0-9_~\\(\\)!\\.\\*-]{12}"@
}

/// The peer id regex of the profile that `load` gives for `name`.
pub open spec fn profile_regex(name: Seq<char>) -> Seq<char> {
    if name == "qbit-4.0.3"@ {
        qbit_403_regex()
    } else {
        qbit_433_regex()
    }
}

pub open spec fn is_qbit_403(p: ClientProfile) -> bool {
    is_qbit_profile(p, "qBittorrent v4.0.3"@, qbit_403_regex(), "qBittorrent/4.0.3"@)
}

pub open spec fn is_qbit_433(p: ClientProfile) -> bool {
    is_qbit_profile(p, "qBittorrent v4.3.3"@, qbit_433_regex(), "qBittorrent/4.3.3"@)
}

fn qbit_profile(name: &str, regex: &str, agent: &str) -> (p: ClientProfile)
    ensures
        is_qbit_profile(p, name@, regex@, agent@),
{
    let mut headers: Vec<(String, String)> = Vec::new();
    headers.push(("User-Agent".to_owned(), agent.to_owned()));
    headers.push(("Accept-Encoding".to_owned(), "gzip".to_owned()));
    ClientProfile {
        name: name.to_owned(),
        peer_id: PeerIdConfig { regex: regex.to_owned() },
        key: KeyConfig { generator: "hash".to_owned() },
        rounding: RoundingConfig { generator: "default".to_owned() },
        query: "info_hash={infohash}&peer_id={peerid}&port={port}&uploaded={uploaded}&downloaded={downloaded}&left={left}&corrupt=0&key={key}&event={event}&numwant={numwant}&compact=1&no_peer_id=1&supportcrypto=1&redundant=0".to_owned(),
        headers,
    }
}

/// Whether two strings hold the same characters.
fn str_equals(a: &str, b: &str) -> (r: bool)
    ensures
        r == (a@ == b@),
{
    let x = chars_of(a);
    let y = chars_of(b);
    if x.len() != y.len() {
        return false;
    }
    let mut i: usize = 0;
    while i < x.len()
        invariant
            x@ == a@,
            y@ == b@,
            x@.len() == y@.len(),
            i <= x@.len(),
            forall|j: int| 0 <= j < i ==> x@[j] == y@[j],
        decreases x@.len() - i,
    {
        if x[i] != y[i] {
            return false;
        }
        i = i + 1;
    }
    assert(x@ =~= y@);
    true
}

/// A client to imitate.
pub struct ClientEmulation {
    profile: ClientProfile,
}

impl ClientEmulation {
    pub closed spec fn spec_profile(&self) -> ClientProfile {
        self.profile
    }

    /// Loads a client profile by name: `qbit-4.0.3` or `qbit-4.3.3`.
    pub fn load(client_name: &str) -> (res: Result<Self, EmulationError>)
        ensures
            client_name@ == "qbit-4.0.3"@ ==> (res matches Ok(e) && is_qbit_403(e.spec_profile())),
            client_name@ == "qbit-4.3.3"@ ==> (res matches Ok(e) && is_qbit_433(e.spec_profile())),
            client_name@ != "qbit-4.0.3"@ && client_name@ != "qbit-4.3.3"@ ==> (res matches Err(
                EmulationError::UnknownProfile(name),
            ) && name@ == client_name@),
    {
        proof {
            reveal_strlit("qbit-4.0.3");
            reveal_strlit("qbit-4.3.3");
            assert("qbit-4.0.3"@[7] != "qbit-4.3.3"@[7]);
        }
        if str_equals(client_name, "qbit-4.0.3") {
            Ok(
                Self {
                    profile: qbit_profile(
                        "qBittorrent v4.0.3",
                        "-qB4030-[A-Za-z0-9_~\\(\\)!\\.\\*-]{12}",
                        "qBittorrent/4.0.3",
                    ),
                },
            )
        } else if str_equals(client_name, "qbit-4.3.3") {
            Ok(
                Self {
                    profile: qbit_profile(
                        "qBittorrent v4.3.3",
                        "-qB4330-[A-Za-z0-9_~\\(\\)!\\.\\*-]{12}",
                        "qBittorrent/4.3.3",
                    ),
                },
            )
        } else {
            Err(EmulationError::UnknownProfile(client_name.to_owned()))
        }
    }

    pub fn profile(&self) -> (p: &ClientProfile)
        ensures
            *p == self.spec_profile(),
    {
        &self.profile
    }

    pub fn get_query_template(&self) -> (q: &str)
        ensures
            q@ == self.spec_profile().query@,
    {
        self.profile.query.as_str()
    }

    pub fn get_headers(&self) -> (h: &Vec<(String, String)>)
        ensures
            *h == self.spec_profile().headers,
    {
        &self.profile.headers
    }

    pub fn get_peer_id_regex(&self) -> (r: &str)
        ensures
            r@ == self.spec_profile().peer_id.regex@,
    {
        self.profile.peer_id.regex.as_str()
    }

    /// The profiles that can be loaded: id and display name.
    pub fn available_profiles() -> (r: Vec<(&'static str, &'static str)>)
        ensures
            r@.len() == 2,
            r@[0].0@ == "qbit-4.0.3"@,
            r@[0].1@ == "qBittorrent v4.0.3"@,
            r@[1].0@ == "qbit-4.3.3"@,
            r@[1].1@ == "qBittorrent v4.3.3"@,
    {
        let mut r: Vec<(&'static str, &'static str)> = Vec::new();
        r.push(("qbit-4.0.3", "qBittorrent v4.0.3"));
        r.push(("qbit-4.3.3", "qBittorrent v4.3.3"));
        r
    }
}

} // verus!

use vstd::prelude::*;
use crate::config::Config;
use crate::torrent::Torrent;
use form_urlencoded::byte_serialize;
use vstd::utf8::encode_utf8;

verus! {

/// What the tracker reporter reacts to.
#[derive(Clone, Copy, Debug, PartialEq, Eq, Structural)]
pub enum TrackerEvent {
    Downloaded(u64),
    Uploaded(u64),
    RegularAnnounce,
    CompletedAnnounce,
}

/// The kind of an announce to the tracker, with the byte counts it reports.
#[derive(Clone, Copy, Debug, PartialEq, Eq, Structural)]
pub enum TrackerRequestEvent {
    Started,
    Regular(u64, u64),
    Completed(u64, u64),
}

impl TrackerRequestEvent {
    pub open spec fn downloaded_spec(&self) -> u64 {
        match self {
            TrackerRequestEvent::Started => 0,
            TrackerRequestEvent::Regular(d, _) => *d,
            TrackerRequestEvent::Completed(d, _) => *d,
        }
    }

    pub open spec fn uploaded_spec(&self) -> u64 {
        match self {
            TrackerRequestEvent::Started => 0,
            TrackerRequestEvent::Regular(_, u) => *u,
            TrackerRequestEvent::Completed(_, u) => *u,
        }
    }

    /// The value of the announce's `event` parameter; empty for a regular one.
    pub fn name(&self) -> (r: String)
        ensures
            r@ == match self {
                TrackerRequestEvent::Started => "started"@,
                TrackerRequestEvent::Regular(..) => ""@,
                TrackerRequestEvent::Completed(..) => "completed"@,
            },
    {
        match self {
            TrackerRequestEvent::Started => "started".to_string(),
            TrackerRequestEvent::Regular(..) => "".to_string(),
            TrackerRequestEvent::Completed(..) => "completed".to_string(),
        }
    }

    /// Bytes downloaded so far, as reported.
    pub fn downloaded(&self) -> (r: u64)
        ensures
            r == self.downloaded_spec(),
    {
        match self {
            TrackerRequestEvent::Started => 0,
            TrackerRequestEvent::Regular(d, _) => *d,
            TrackerRequestEvent::Completed(d, _) => *d,
        }
    }

    /// Bytes uploaded so far, as reported.
    pub fn uploaded(&self) -> (r: u64)
        ensures
            r == self.uploaded_spec(),
    {
        match self {
            TrackerRequestEvent::Started => 0,
            TrackerRequestEvent::Regular(_, u) => *u,
            TrackerRequestEvent::Completed(_, u) => *u,
        }
    }
}

/// The tracker reporter's tally of transferred bytes.
#[derive(Clone, Copy, Debug, PartialEq, Eq, Structural)]
pub struct TrackerReporter {
    pub downloaded: u64,
    pub uploaded: u64,
}

/// `a + b`, saturating at the largest `u64`.
pub open spec fn sat_add_u64(a: u64, b: u64) -> u64 {
    if a + b <= u64::MAX { (a + b) as u64 } else { u64::MAX }
}

impl TrackerReporter {
    pub fn new() -> (r: Self)
        ensures
            r.downloaded == 0 && r.uploaded == 0,
    {
        TrackerReporter { downloaded: 0, uploaded: 0 }
    }

    /// Takes one event: counts bytes, or says which announce to make. The
    /// flag says whether the reporter is done.
    pub fn step(&mut self, event: TrackerEvent) -> (r: (Option<TrackerRequestEvent>, bool))
        ensures
            match event {
                TrackerEvent::Downloaded(n) => r == (None::<TrackerRequestEvent>, false) && *final(self)
                    == (TrackerReporter { downloaded: sat_add_u64(old(self).downloaded, n), ..*old(self) }),
                TrackerEvent::Uploaded(n) => r == (None::<TrackerRequestEvent>, false) && *final(self)
                    == (TrackerReporter { uploaded: sat_add_u64(old(self).uploaded, n), ..*old(self) }),
                TrackerEvent::RegularAnnounce => *final(self) == *old(self) && r == (
                    Some(TrackerRequestEvent::Regular(old(self).downloaded, old(self).uploaded)),
                    false,
                ),
                TrackerEvent::CompletedAnnounce => *final(self) == *old(self) && r == (
                    Some(TrackerRequestEvent::Completed(old(self).downloaded, old(self).uploaded)),
                    true,
                ),
            },
    {
        match event {
            TrackerEvent::Downloaded(n) => {
                self.downloaded = self.downloaded.saturating_add(n);
                (None, false)
            },
            TrackerEvent::Uploaded(n) => {
                self.uploaded = self.uploaded.saturating_add(n);
                (None, false)
            },
            TrackerEvent::RegularAnnounce => (
                Some(TrackerRequestEvent::Regular(self.downloaded, self.uploaded)),
                false,
            ),
            TrackerEvent::CompletedAnnounce => (
                Some(TrackerRequestEvent::Completed(self.downloaded, self.uploaded)),
                true,
            ),
        }
    }
}

/// Whether a byte stands for itself in a URL-encoded query value.
pub open spec fn byte_kept(b: u8) -> bool {
    b == 0x2a || b == 0x2d || b == 0x2e || (0x30 <= b <= 0x39) || (0x41 <= b <= 0x5a) || b == 0x5f
        || (0x61 <= b <= 0x7a)
}

/// An upper-case hexadecimal digit.
pub open spec fn hex_upper(d: int) -> u8 {
    if d < 10 { (0x30 + d) as u8 } else { (0x41 + d - 10) as u8 }
}

/// How one byte is URL-encoded: kept, a space as '+', else '%' and two hex digits.
pub open spec fn url_encode_byte(b: u8) -> Seq<u8> {
    if byte_kept(b) {
        seq![b]
    } else if b == 0x20 {
        seq![0x2bu8]
    } else {
        seq![0x25u8, hex_upper(b as int / 16), hex_upper(b as int % 16)]
    }
}

/// The URL encoding of a byte string, byte by byte.
pub open spec fn url_encoded(s: Seq<u8>) -> Seq<u8>
    decreases s.len(),
{
    if s.len() == 0 {
        Seq::empty()
    } else {
        url_encoded(s.drop_last()) + url_encode_byte(s.last())
    }
}

/// Relies on form_urlencoded's `byte_serialize`, which keeps `*-._`, digits
/// and ASCII letters, turns a space into '+' and any other byte into '%' and
/// two upper-case hex digits.
#[verifier::external_body]
fn url_encode(bytes: &Vec<u8>) -> (r: Vec<u8>)
    ensures
        r@ == url_encoded(bytes@),
{
    byte_serialize(bytes.as_slice()).collect::<String>().into_bytes()
}

/// The decimal digits of `n`, most significant first.
pub open spec fn decimal(n: nat) -> Seq<u8>
    decreases n,
{
    if n < 10 {
        seq![(0x30 + n) as u8]
    } else {
        decimal(n / 10).push((0x30 + n % 10) as u8)
    }
}

fn push_decimal(out: &mut Vec<u8>, n: u64)
    ensures
        final(out)@ == old(out)@ + decimal(n as nat),
    decreases n,
{
    if n >= 10 {
        push_decimal(out, n / 10);
    }
    out.push((0x30 + n % 10) as u8);
    assert(final(out)@ =~= old(out)@ + decimal(n as nat));
}

fn string_bytes(s: &String) -> (r: Vec<u8>)
    ensures
        r@ == encode_utf8(s@),
{
    let b = s.as_str().as_bytes();
    let mut r: Vec<u8> = Vec::new();
    let mut i: usize = 0;
    while i < b.len()
        invariant
            b@ == encode_utf8(s@),
            i <= b@.len(),
            r@ =~= b@.subrange(0, i as int),
        decreases b@.len() - i,
    {
        r.push(b[i]);
        i = i + 1;
    }
    r
}

/// The ASCII bytes of "?info_hash=".
pub open spec fn query_info_hash() -> Seq<u8> {
    seq![0x3fu8, 0x69, 0x6e, 0x66, 0x6f, 0x5f, 0x68, 0x61, 0x73, 0x68, 0x3d]
}

/// The ASCII bytes of "&peer_id=".
pub open spec fn query_peer_id() -> Seq<u8> {
    seq![0x26u8, 0x70, 0x65, 0x65, 0x72, 0x5f, 0x69, 0x64, 0x3d]
}

/// The ASCII bytes of "&port=".
pub open spec fn query_port() -> Seq<u8> {
    seq![0x26u8, 0x70, 0x6f, 0x72, 0x74, 0x3d]
}

/// The ASCII bytes of "&compact=1".
pub open spec fn query_compact() -> Seq<u8> {
    seq![0x26u8, 0x63, 0x6f, 0x6d, 0x70, 0x61, 0x63, 0x74, 0x3d, 0x31]
}

/// The ASCII bytes of "&event=".
pub open spec fn query_event() -> Seq<u8> {
    seq![0x26u8, 0x65, 0x76, 0x65, 0x6e, 0x74, 0x3d]
}

/// The ASCII bytes of "&downloaded=".
pub open spec fn query_downloaded() -> Seq<u8> {
    seq![0x26u8, 0x64, 0x6f, 0x77, 0x6e, 0x6c, 0x6f, 0x61, 0x64, 0x65, 0x64, 0x3d]
}

/// The ASCII bytes of "&uploaded=".
pub open spec fn query_uploaded() -> Seq<u8> {
    seq![0x26u8, 0x75, 0x70, 0x6c, 0x6f, 0x61, 0x64, 0x65, 0x64, 0x3d]
}

/// The ASCII bytes of "&numwant=300".
pub open spec fn query_numwant() -> Seq<u8> {
    seq![0x26u8, 0x6e, 0x75, 0x6d, 0x77, 0x61, 0x6e, 0x74, 0x3d, 0x33, 0x30, 0x30]
}

/// The ASCII bytes of "started".
pub open spec fn name_started() -> Seq<u8> {
    seq![0x73u8, 0x74, 0x61, 0x72, 0x74, 0x65, 0x64]
}

/// The ASCII bytes of "completed".
pub open spec fn name_completed() -> Seq<u8> {
    seq![0x63u8, 0x6f, 0x6d, 0x70, 0x6c, 0x65, 0x74, 0x65, 0x64]
}

/// The `event` parameter of an announce, absent for a regular one.
pub open spec fn event_param(ev: TrackerRequestEvent) -> Seq<u8> {
    match ev {
        TrackerRequestEvent::Started => query_event() + name_started(),
        TrackerRequestEvent::Regular(..) => Seq::empty(),
        TrackerRequestEvent::Completed(..) => query_event() + name_completed(),
    }
}

/// The announce URL: the tracker's URL, then the query.
pub open spec fn announce_url_bytes(
    announce: Seq<u8>,
    info_hash: Seq<u8>,
    peer_id: Seq<u8>,
    port: nat,
    ev: TrackerRequestEvent,
    downloaded: nat,
    uploaded: nat,
) -> Seq<u8> {
    announce + query_info_hash() + url_encoded(info_hash) + query_peer_id() + url_encoded(peer_id)
        + query_port() + decimal(port) + query_compact() + event_param(ev) + query_downloaded()
        + decimal(downloaded) + query_uploaded() + decimal(uploaded) + query_numwant()
}

fn push_query_info_hash(out: &mut Vec<u8>)
    ensures
        final(out)@ == old(out)@ + query_info_hash(),
{
    let mut lit: Vec<u8> = vec![0x3fu8, 0x69, 0x6e, 0x66, 0x6f, 0x5f, 0x68, 0x61, 0x73, 0x68, 0x3d];
    assert(lit@ =~= query_info_hash());
    out.append(&mut lit);
}

fn push_query_peer_id(out: &mut Vec<u8>)
    ensures
        final(out)@ == old(out)@ + query_peer_id(),
{
    let mut lit: Vec<u8> = vec![0x26u8, 0x70, 0x65, 0x65, 0x72, 0x5f, 0x69, 0x64, 0x3d];
    assert(lit@ =~= query_peer_id());
    out.append(&mut lit);
}

fn push_query_port(out: &mut Vec<u8>)
    ensures
        final(out)@ == old(out)@ + query_port(),
{
    let mut lit: Vec<u8> = vec![0x26u8, 0x70, 0x6f, 0x72, 0x74, 0x3d];
    assert(lit@ =~= query_port());
    out.append(&mut lit);
}

fn push_query_compact(out: &mut Vec<u8>)
    ensures
        final(out)@ == old(out)@ + query_compact(),
{
    let mut lit: Vec<u8> = vec![0x26u8, 0x63, 0x6f, 0x6d, 0x70, 0x61, 0x63, 0x74, 0x3d, 0x31];
    assert(lit@ =~= query_compact());
    out.append(&mut lit);
}

fn push_query_event(out: &mut Vec<u8>)
    ensures
        final(out)@ == old(out)@ + query_event(),
{
    let mut lit: Vec<u8> = vec![0x26u8, 0x65, 0x76, 0x65, 0x6e, 0x74, 0x3d];
    assert(lit@ =~= query_event());
    out.append(&mut lit);
}

fn push_query_downloaded(out: &mut Vec<u8>)
    ensures
        final(out)@ == old(out)@ + query_downloaded(),
{
    let mut lit: Vec<u8> = vec![0x26u8, 0x64, 0x6f, 0x77, 0x6e, 0x6c, 0x6f, 0x61, 0x64, 0x65, 0x64, 0x3d];
    assert(lit@ =~= query_downloaded());
    out.append(&mut lit);
}

fn push_query_uploaded(out: &mut Vec<u8>)
    ensures
        final(out)@ == old(out)@ + query_uploaded(),
{
    let mut lit: Vec<u8> = vec![0x26u8, 0x75, 0x70, 0x6c, 0x6f, 0x61, 0x64, 0x65, 0x64, 0x3d];
    assert(lit@ =~= query_uploaded());
    out.append(&mut lit);
}

fn push_query_numwant(out: &mut Vec<u8>)
    ensures
        final(out)@ == old(out)@ + query_numwant(),
{
    let mut lit: Vec<u8> = vec![0x26u8, 0x6e, 0x75, 0x6d, 0x77, 0x61, 0x6e, 0x74, 0x3d, 0x33, 0x30, 0x30];
    assert(lit@ =~= query_numwant());
    out.append(&mut lit);
}

fn push_name_started(out: &mut Vec<u8>)
    ensures
        final(out)@ == old(out)@ + name_started(),
{
    let mut lit: Vec<u8> = vec![0x73u8, 0x74, 0x61, 0x72, 0x74, 0x65, 0x64];
    assert(lit@ =~= name_started());
    out.append(&mut lit);
}

fn push_name_completed(out: &mut Vec<u8>)
    ensures
        final(out)@ == old(out)@ + name_completed(),
{
    let mut lit: Vec<u8> = vec![0x63u8, 0x6f, 0x6d, 0x70, 0x6c, 0x65, 0x74, 0x65, 0x64];
    assert(lit@ =~= name_completed());
    out.append(&mut lit);
}

/// What the tracker client needs to announce: where, as whom, for which torrent.
#[derive(Clone, Debug)]
pub struct TorrentTrackerClient {
    pub announce_url: String,
    pub client_config: Config,
    pub info_hash: Vec<u8>,
}

impl TorrentTrackerClient {
    pub fn new(torrent: &Torrent, config: Config) -> (r: Self)
        ensures
            r.announce_url@ == torrent.announce@,
            r.info_hash@ == torrent.info_hash@,
            r.client_config == config,
    {
        TorrentTrackerClient {
            announce_url: torrent.announce.clone(),
            client_config: config,
            info_hash: torrent.info_hash.clone(),
        }
    }

    /// The URL of an announce, as bytes.
    pub fn create_url(&self, event: &TrackerRequestEvent) -> (r: Vec<u8>)
        ensures
            r@ == announce_url_bytes(
                encode_utf8(self.announce_url@),
                self.info_hash@,
                self.client_config.client_id@,
                self.client_config.listening_port as nat,
                *event,
                event.downloaded_spec() as nat,
                event.uploaded_spec() as nat,
            ),
    {
        let mut url = string_bytes(&self.announce_url);
        push_query_info_hash(&mut url);
        let mut hash = url_encode(&self.info_hash);
        url.append(&mut hash);
        push_query_peer_id(&mut url);
        let mut id = url_encode(&self.client_config.client_id);
        url.append(&mut id);
        push_query_port(&mut url);
        push_decimal(&mut url, self.client_config.listening_port as u64);
        push_query_compact(&mut url);
        match event {
            TrackerRequestEvent::Started => {
                push_query_event(&mut url);
                push_name_started(&mut url);
            },
            TrackerRequestEvent::Regular(..) => {},
            TrackerRequestEvent::Completed(..) => {
                push_query_event(&mut url);
                push_name_completed(&mut url);
            },
        }
        push_query_downloaded(&mut url);
        push_decimal(&mut url, event.downloaded());
        push_query_uploaded(&mut url);
        push_decimal(&mut url, event.uploaded());
        push_query_numwant(&mut url);
        url
    }
}

} // verus!

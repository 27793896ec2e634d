use vstd::prelude::*;
use rand::distributions::Alphanumeric;
use rand::Rng;

verus! {

/// The TCP port advertised to the tracker.
pub const LISTENING_PORT: u16 = 6882;
/// The length of a client identifier.
pub const CLIENT_ID_LENGTH: usize = 20;

/// An ASCII letter or digit.
pub open spec fn is_alphanumeric(b: u8) -> bool {
    (0x30 <= b <= 0x39) || (0x41 <= b <= 0x5a) || (0x61 <= b <= 0x7a)
}

/// The fixed start of every client identifier: "XX0001x".
pub open spec fn client_id_prefix() -> Seq<u8> {
    seq![0x58u8, 0x58, 0x30, 0x30, 0x30, 0x31, 0x78]
}

/// Relies on rand's `Alphanumeric` distribution, whose samples are ASCII
/// letters and digits; `take(len)` gives exactly `len` of them.
#[verifier::external_body]
fn random_alphanumeric(len: usize) -> (r: Vec<u8>)
    ensures
        r@.len() == len,
        forall|i: int| 0 <= i < len ==> is_alphanumeric(#[trigger] r@[i]),
{
    rand::thread_rng().sample_iter(Alphanumeric).take(len).collect()
}

/// The client's configuration.
#[derive(Clone, Debug)]
pub struct Config {
    pub listening_port: u16,
    /// 20 bytes: a fixed prefix, then random letters and digits.
    pub client_id: Vec<u8>,
}

impl Config {
    pub fn init() -> (r: Self)
        ensures
            r.listening_port == LISTENING_PORT,
            r.client_id@.len() == CLIENT_ID_LENGTH,
            r.client_id@.subrange(0, 7) == client_id_prefix(),
            forall|i: int| 7 <= i < CLIENT_ID_LENGTH ==> is_alphanumeric(#[trigger] r.client_id@[i]),
    {
        let mut client_id: Vec<u8> = vec![0x58u8, 0x58, 0x30, 0x30, 0x30, 0x31, 0x78];
        let mut suffix = random_alphanumeric(CLIENT_ID_LENGTH - 7);
        let ghost prefix = client_id@;
        let ghost rest = suffix@;
        client_id.append(&mut suffix);
        assert(client_id@.subrange(0, 7) =~= client_id_prefix());
        assert forall|i: int| 7 <= i < CLIENT_ID_LENGTH implies is_alphanumeric(#[trigger] client_id@[i]) by {
            assert(client_id@[i] == rest[i - 7]);
        }
        Config { listening_port: LISTENING_PORT, client_id }
    }
}

} // verus!

//! Node configuration and its validation.
//!
//! The configuration is read from a TOML file by the application; this module
//! holds it as plain values (network addresses in their text form) and checks
//! it: a node id, at least one peer, a 32-byte base64 shared key per peer, and
//! a TLS certificate and key given together or not at all.
use crate::relay::fec::FecConfig;
use base64::Engine;
use vstd::prelude::*;

verus! {

/// Declares the error type of the `base64` crate's decoder.
#[verifier::external_type_specification]
#[verifier::external_body]
pub struct ExDecodeError(base64::DecodeError);

/// Declares `std::io::Error`.
#[verifier::external_type_specification]
#[verifier::external_body]
pub struct ExIoError(std::io::Error);

/// The bytes that the standard base64 alphabet (with padding) decodes from
/// the UTF-8 bytes of `text`, or `None` when it is not valid base64.
pub uninterp spec fn base64_standard_decode(text: Seq<char>) -> Option<Seq<u8>>;

/// Calls `base64::engine::general_purpose::STANDARD.decode(text)`; the
/// contract only names its result.
#[verifier::external_body]
fn decode_base64(text: &str) -> (r: Result<Vec<u8>, base64::DecodeError>)
    ensures
        r is Ok <==> base64_standard_decode(text@) is Some,
        r is Ok ==> base64_standard_decode(text@) == Some(r->Ok_0@),
{
    base64::engine::general_purpose::STANDARD.decode(text)
}

/// Calls `Display` on an I/O error (through `format!`); its text is not stated.
#[verifier::external_body]
fn io_error_text(e: &std::io::Error) -> String {
    format!("{}", e)
}

#[derive(Debug)]
pub struct Config {
    /// This node's unique identifier
    pub node_id: String,
    /// Region label (e.g. "syd", "lon", "sgp")
    pub region: String,
    /// Network listener configuration
    pub listen: ListenConfig,
    /// Mesh routing configuration
    pub mesh: MeshConfig,
    /// Relay configuration
    pub relay: RelayConfig,
    /// Known peer PoP nodes
    pub peers: Vec<PeerConfig>,
}

#[derive(Debug)]
pub struct ListenConfig {
    /// UDP address for tunnel relay traffic
    pub relay_addr: String,
    /// TCP address for edge user-facing traffic
    pub tcp_addr: String,
    /// QUIC address for edge user-facing traffic
    pub quic_addr: String,
    /// Admin HTTP address
    pub admin_addr: String,
    /// Optional bearer token for admin /status endpoint
    pub admin_token: Option<String>,
    /// Optional TLS certificate path (PEM) for the TCP edge.
    pub tls_cert_path: Option<String>,
    /// Optional TLS private key path (PEM) for the TCP edge.
    pub tls_key_path: Option<String>,
}

#[derive(Debug)]
pub struct MeshConfig {
    /// Probe interval in milliseconds
    pub probe_interval_ms: u64,
}

#[derive(Debug)]
pub struct RelayConfig {
    /// Default destination node for edge traffic
    pub default_dest: String,
    /// FEC data shards (N). Defaults to 10.
    pub fec_data_shards: Option<usize>,
    /// FEC parity shards (K). Defaults to 4.
    pub fec_parity_shards: Option<usize>,
}

#[derive(Debug)]
pub struct PeerConfig {
    pub node_id: String,
    pub region: String,
    pub addr: String,
    /// Base64-encoded 32-byte shared key
    pub shared_key: String,
}

impl RelayConfig {
    /// The FEC shard counts to relay with: the configured ones, 10 data and
    /// 4 parity shards where none are given.
    pub fn fec_config(&self) -> (c: FecConfig)
        ensures
            c.data_shards == match self.fec_data_shards {
                Some(n) => n,
                None => 10,
            },
            c.parity_shards == match self.fec_parity_shards {
                Some(n) => n,
                None => 4,
            },
    {
        FecConfig {
            data_shards: match self.fec_data_shards {
                Some(n) => n,
                None => 10,
            },
            parity_shards: match self.fec_parity_shards {
                Some(n) => n,
                None => 4,
            },
        }
    }
}

/// The character of a decimal digit.
pub open spec fn digit_char(d: nat) -> char {
    if d == 0 {
        '0'
    } else if d == 1 {
        '1'
    } else if d == 2 {
        '2'
    } else if d == 3 {
        '3'
    } else if d == 4 {
        '4'
    } else if d == 5 {
        '5'
    } else if d == 6 {
        '6'
    } else if d == 7 {
        '7'
    } else if d == 8 {
        '8'
    } else {
        '9'
    }
}

/// The decimal text of `n`, without leading zeros.
pub open spec fn decimal(n: nat) -> Seq<char>
    decreases n,
{
    if n < 10 {
        seq![digit_char(n)]
    } else {
        decimal(n / 10).push(digit_char(n % 10))
    }
}

fn digit_str(d: usize) -> (s: &'static str)
    requires
        d < 10,
    ensures
        s@ == seq![digit_char(d as nat)],
{
    proof {
        reveal_strlit("0");
        reveal_strlit("1");
        reveal_strlit("2");
        reveal_strlit("3");
        reveal_strlit("4");
        reveal_strlit("5");
        reveal_strlit("6");
        reveal_strlit("7");
        reveal_strlit("8");
        reveal_strlit("9");
    }
    let s = if d == 0 {
        "0"
    } else if d == 1 {
        "1"
    } else if d == 2 {
        "2"
    } else if d == 3 {
        "3"
    } else if d == 4 {
        "4"
    } else if d == 5 {
        "5"
    } else if d == 6 {
        "6"
    } else if d == 7 {
        "7"
    } else if d == 8 {
        "8"
    } else {
        "9"
    };
    assert(s@ =~= seq![digit_char(d as nat)]);
    s
}

/// Append the decimal text of `n` to `s`.
fn append_decimal(s: &mut String, n: usize)
    ensures
        final(s)@ == old(s)@ + decimal(n as nat),
    decreases n,
{
    if n >= 10 {
        append_decimal(s, n / 10);
    }
    s.append(digit_str(n % 10));
    proof {
        if n >= 10 {
            assert(old(s)@ + decimal(n as nat) =~= old(s)@ + decimal((n / 10) as nat) + seq![
                digit_char((n % 10) as nat),
            ]);
        } else {
            assert(decimal(n as nat) == seq![digit_char(n as nat)]);
        }
    }
}

/// The peer's shared key decodes from base64 to exactly 32 bytes.
pub open spec fn key_ok(p: PeerConfig) -> bool {
    match base64_standard_decode(p.shared_key@) {
        Some(k) => k.len() == 32,
        None => false,
    }
}

/// The validation message for a peer whose shared key is not usable.
pub open spec fn key_error(p: PeerConfig) -> Seq<char> {
    match base64_standard_decode(p.shared_key@) {
        None => "invalid base64 shared_key for peer "@ + p.node_id@,
        Some(k) => "shared_key for peer "@ + p.node_id@ + " must be 32 bytes (got "@ + decimal(
            k.len(),
        ) + ")"@,
    }
}

/// The message for the first peer, in order, whose key is not usable.
pub open spec fn first_key_error(peers: Seq<PeerConfig>) -> Option<Seq<char>>
    decreases peers.len(),
{
    if peers.len() == 0 {
        None
    } else if !key_ok(peers[0]) {
        Some(key_error(peers[0]))
    } else {
        first_key_error(peers.drop_first())
    }
}

/// The validation message for a configuration, or `None` when it is valid.
pub open spec fn validation_error(c: Config) -> Option<Seq<char>> {
    if c.node_id@.len() == 0 {
        Some("node_id cannot be empty"@)
    } else if c.peers@.len() == 0 {
        Some("at least one peer required"@)
    } else if first_key_error(c.peers@) is Some {
        first_key_error(c.peers@)
    } else if c.listen.tls_cert_path is Some && c.listen.tls_key_path is None {
        Some("tls_cert_path set without tls_key_path"@)
    } else if c.listen.tls_cert_path is None && c.listen.tls_key_path is Some {
        Some("tls_key_path set without tls_cert_path"@)
    } else {
        None
    }
}

/// A valid configuration has a usable key for every peer.
pub proof fn lemma_valid_config_keys(c: Config)
    requires
        validation_error(c) is None,
    ensures
        forall|i: int| 0 <= i < c.peers@.len() ==> key_ok(#[trigger] c.peers@[i]),
{
    lemma_no_first_key_error(c.peers@);
}

proof fn lemma_no_first_key_error(peers: Seq<PeerConfig>)
    requires
        first_key_error(peers) is None,
    ensures
        forall|i: int| 0 <= i < peers.len() ==> key_ok(#[trigger] peers[i]),
    decreases peers.len(),
{
    if peers.len() > 0 {
        lemma_no_first_key_error(peers.drop_first());
        assert forall|i: int| 0 <= i < peers.len() implies key_ok(#[trigger] peers[i]) by {
            if i > 0 {
                assert(peers[i] == peers.drop_first()[i - 1]);
            }
        }
    }
}

impl PeerConfig {
    /// Decode the shared key from base64: the 32 key bytes, or the validation
    /// error for this peer.
    pub fn decode_key(&self) -> (r: Result<[u8; 32], ConfigError>)
        ensures
            match r {
                Ok(k) => key_ok(*self) && base64_standard_decode(self.shared_key@) == Some(k@),
                Err(e) => !key_ok(*self) && e is Validation && e->Validation_0@ == key_error(*self),
            },
    {
        match decode_base64(self.shared_key.as_str()) {
            Err(_) => Err(ConfigError::Validation(self.bad_base64_message())),
            Ok(bytes) => {
                if bytes.len() != 32 {
                    return Err(ConfigError::Validation(self.key_length_message(bytes.len())));
                }
                let mut key = [0u8; 32];
                let mut i: usize = 0;
                while i < 32
                    invariant
                        bytes@.len() == 32,
                        i <= 32,
                        forall|j: int| 0 <= j < i ==> key@[j] == bytes@[j],
                    decreases 32 - i,
                {
                    key[i] = bytes[i];
                    i = i + 1;
                }
                assert(key@ =~= bytes@);
                Ok(key)
            },
        }
    }

    fn bad_base64_message(&self) -> (s: String)
        ensures
            s@ == "invalid base64 shared_key for peer "@ + self.node_id@,
    {
        let mut s = "invalid base64 shared_key for peer ".to_owned();
        s.append(self.node_id.as_str());
        s
    }

    fn key_length_message(&self, len: usize) -> (s: String)
        ensures
            s@ == "shared_key for peer "@ + self.node_id@ + " must be 32 bytes (got "@ + decimal(
                len as nat,
            ) + ")"@,
    {
        let mut s = "shared_key for peer ".to_owned();
        s.append(self.node_id.as_str());
        s.append(" must be 32 bytes (got ");
        append_decimal(&mut s, len);
        s.append(")");
        s
    }
}

impl Config {
    /// Check the configuration: `Ok` exactly when `validation_error` finds
    /// nothing, else a `Validation` error with its message.
    pub fn validate(&self) -> (r: Result<(), ConfigError>)
        ensures
            match r {
                Ok(()) => validation_error(*self) is None,
                Err(e) => e is Validation && validation_error(*self) == Some(e->Validation_0@),
            },
    {
        if self.node_id.as_str().is_empty() {
            return Err(ConfigError::Validation("node_id cannot be empty".to_owned()));
        }
        if self.peers.len() == 0 {
            return Err(ConfigError::Validation("at least one peer required".to_owned()));
        }
        let n = self.peers.len();
        let mut i: usize = 0;
        assert(self.peers@.skip(0) =~= self.peers@);
        while i < n
            invariant
                n == self.peers@.len(),
                i <= n,
                self.node_id@.len() != 0,
                first_key_error(self.peers@) == first_key_error(self.peers@.skip(i as int)),
            decreases n - i,
        {
            assert(self.peers@.skip(i as int).drop_first() =~= self.peers@.skip(i + 1));
            assert(self.peers@.skip(i as int)[0] == self.peers@[i as int]);
            match self.peers[i].decode_key() {
                Err(e) => {
                    assert(!key_ok(self.peers@.skip(i as int)[0]));
                    assert(first_key_error(self.peers@.skip(i as int)) == Some(key_error(self.peers@[i as int])));
                    assert(self.node_id@.len() != 0);
                    return Err(e);
                },
                Ok(_) => {},
            }
            i = i + 1;
        }
        assert(self.peers@.skip(n as int) =~= Seq::<PeerConfig>::empty());
        match (&self.listen.tls_cert_path, &self.listen.tls_key_path) {
            (Some(_), None) => {
                return Err(
                    ConfigError::Validation("tls_cert_path set without tls_key_path".to_owned()),
                );
            },
            (None, Some(_)) => {
                return Err(
                    ConfigError::Validation("tls_key_path set without tls_cert_path".to_owned()),
                );
            },
            _ => {},
        }
        Ok(())
    }
}

/// Configuration errors.
#[derive(Debug)]
pub enum ConfigError {
    Io(std::io::Error),
    Parse(String),
    Validation(String),
}

impl ConfigError {
    /// The error's message: a prefix naming the kind, then the detail.
    pub fn message(&self) -> (s: String)
        ensures
            self is Io ==> exists|detail: Seq<char>| s@ == "config I/O error: "@ + detail,
            self is Parse ==> s@ == "config parse error: "@ + self->Parse_0@,
            self is Validation ==> s@ == "config validation: "@ + self->Validation_0@,
    {
        match self {
            ConfigError::Io(e) => {
                let mut s = "config I/O error: ".to_owned();
                let detail = io_error_text(e);
                s.append(detail.as_str());
                assert(s@ == "config I/O error: "@ + detail@);
                s
            },
            ConfigError::Parse(e) => {
                let mut s = "config parse error: ".to_owned();
                s.append(e.as_str());
                s
            },
            ConfigError::Validation(e) => {
                let mut s = "config validation: ".to_owned();
                s.append(e.as_str());
                s
            },
        }
    }
}

} // verus!

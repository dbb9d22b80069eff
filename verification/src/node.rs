//! The rules a node follows when it starts: its HTTP port, its logging
//! levels, the keys read from key files and from peers, and the validator
//! set it starts from.
use vstd::prelude::*;
use crate::app::{key_array, key_from_decoded};
use crate::bytes::{bytes_equal, copy_bytes};
use crate::codec::{
    base64_bytes, base64_decode, base64_encode, base64_text, ed25519_public_key, public_key_of, to_lowercase, trim,
    unicode_lowercase, unicode_trim, verifying_key_accepts, verifying_key_is_valid,
};
use crate::orders::text_bytes;
use crate::sort::{is_byte_stable_sort, key_bytes, stable_sort_by_bytes};

verus! {

/// The HTTP port of a node whose peer-to-peer port is `p2p_port`: 8080
/// plus how far that port is above 9000 (nothing when it is below).
pub open spec fn http_port(p2p_port: u16) -> int {
    8080 + if p2p_port >= 9000 {
        p2p_port - 9000
    } else {
        0
    }
}

/// The HTTP port of a node, as `http_port` says.
pub fn http_port_for(p2p_port: u16) -> (port: u16)
    ensures
        port == http_port(p2p_port),
{
    let offset: u16 = if p2p_port >= 9000 {
        p2p_port - 9000
    } else {
        0
    };
    8080 + offset
}

/// A logging level.
pub enum LevelChoice {
    Off,
    Error,
    Warn,
    Info,
    Debug,
    Trace,
}

/// The level that a lower-case level name (as bytes) names: one of "off",
/// "error", "warn", "info", "debug", "trace"; anything else means warn.
pub open spec fn level_named(name: Seq<u8>) -> LevelChoice {
    if name == seq![111u8, 102u8, 102u8] {
        LevelChoice::Off
    } else if name == seq![101u8, 114u8, 114u8, 111u8, 114u8] {
        LevelChoice::Error
    } else if name == seq![119u8, 97u8, 114u8, 110u8] {
        LevelChoice::Warn
    } else if name == seq![105u8, 110u8, 102u8, 111u8] {
        LevelChoice::Info
    } else if name == seq![100u8, 101u8, 98u8, 117u8, 103u8] {
        LevelChoice::Debug
    } else if name == seq![116u8, 114u8, 97u8, 99u8, 101u8] {
        LevelChoice::Trace
    } else {
        LevelChoice::Warn
    }
}

/// The level of the hotstuff log that a level name asks for: the name
/// taken in lower case, as `level_named` reads it.
pub open spec fn hotstuff_level(name: Seq<char>) -> LevelChoice {
    level_named(text_bytes(unicode_lowercase(name)))
}

/// The logging levels of a node: one for the hotstuff log, one for all
/// the rest.
pub struct LoggerLevels {
    pub hotstuff: LevelChoice,
    pub global: LevelChoice,
}

fn level_of_lowercase(name: &[u8]) -> (level: LevelChoice)
    ensures
        level == level_named(name@),
{
    let off: Vec<u8> = vec![111, 102, 102];
    let error: Vec<u8> = vec![101, 114, 114, 111, 114];
    let warn: Vec<u8> = vec![119, 97, 114, 110];
    let info: Vec<u8> = vec![105, 110, 102, 111];
    let debug: Vec<u8> = vec![100, 101, 98, 117, 103];
    let trace: Vec<u8> = vec![116, 114, 97, 99, 101];
    assert(off@ =~= seq![111u8, 102u8, 102u8]);
    assert(error@ =~= seq![101u8, 114u8, 114u8, 111u8, 114u8]);
    assert(warn@ =~= seq![119u8, 97u8, 114u8, 110u8]);
    assert(info@ =~= seq![105u8, 110u8, 102u8, 111u8]);
    assert(debug@ =~= seq![100u8, 101u8, 98u8, 117u8, 103u8]);
    assert(trace@ =~= seq![116u8, 114u8, 97u8, 99u8, 101u8]);
    if bytes_equal(name, off.as_slice()) {
        LevelChoice::Off
    } else if bytes_equal(name, error.as_slice()) {
        LevelChoice::Error
    } else if bytes_equal(name, warn.as_slice()) {
        LevelChoice::Warn
    } else if bytes_equal(name, info.as_slice()) {
        LevelChoice::Info
    } else if bytes_equal(name, debug.as_slice()) {
        LevelChoice::Debug
    } else if bytes_equal(name, trace.as_slice()) {
        LevelChoice::Trace
    } else {
        LevelChoice::Warn
    }
}

/// The logging levels of a node: the hotstuff log at the level its name
/// asks for, everything else at debug when `debug` is set, else at info.
pub fn logger_levels(debug: bool, hotstuff_name: &str) -> (levels: LoggerLevels)
    ensures
        levels.hotstuff == hotstuff_level(hotstuff_name@),
        levels.global == (if debug {
            LevelChoice::Debug
        } else {
            LevelChoice::Info
        }),
{
    let lowered = to_lowercase(hotstuff_name);
    let hotstuff = level_of_lowercase(lowered.as_str().as_bytes());
    let global = if debug {
        LevelChoice::Debug
    } else {
        LevelChoice::Info
    };
    LoggerLevels { hotstuff, global }
}

/// The 32 key bytes that a key file's text gives: its base64 (trimmed)
/// decoded, and all zeros when that is not 32 bytes long; `None` when the
/// text is not base64.
pub open spec fn key_file_bytes(text: Seq<char>) -> Option<Seq<u8>> {
    match base64_bytes(unicode_trim(text)) {
        Some(b) => Some(key_from_decoded(b)),
        None => None,
    }
}

/// The secret key bytes that a key file's text gives, as `key_file_bytes`
/// says.
pub fn key_from_file_text(text: &str) -> (key: Option<[u8; 32]>)
    ensures
        match key {
            Some(k) => key_file_bytes(text@) == Some(k@),
            None => key_file_bytes(text@) is None,
        },
{
    match base64_decode(trim(text)) {
        Some(bytes) => Some(key_array(bytes.as_slice())),
        None => None,
    }
}

/// The verifying key of a bootstrap validator whose key file holds
/// `text`: the public key of the secret key the file gives.
pub fn bootstrap_key_from_text(text: &str) -> (key: Option<[u8; 32]>)
    ensures
        match key {
            Some(k) => key_file_bytes(text@) matches Some(s) && k@ == ed25519_public_key(s),
            None => key_file_bytes(text@) is None,
        },
{
    match key_from_file_text(text) {
        Some(secret) => Some(public_key_of(&secret)),
        None => None,
    }
}

/// The text of a key as key files and peers carry it: base64 (standard
/// alphabet, no padding), which `peer_key_from_text` and
/// `key_from_file_text` read back.
pub fn key_text(key: &[u8; 32]) -> (text: String)
    ensures
        text@ == base64_text(key@),
        base64_bytes(text@) == Some(key@),
{
    base64_encode(key.as_slice())
}

/// The verifying key that a peer's answer text gives: its base64 (trimmed)
/// decoded, when that is exactly 32 bytes and a valid verifying key.
pub open spec fn peer_key(text: Seq<char>) -> Option<Seq<u8>> {
    match base64_bytes(unicode_trim(text)) {
        Some(b) => if b.len() == 32 && verifying_key_accepts(b) {
            Some(b)
        } else {
            None
        },
        None => None,
    }
}

/// The verifying key that a peer's answer text gives, as `peer_key` says.
pub fn peer_key_from_text(text: &str) -> (key: Option<[u8; 32]>)
    ensures
        match key {
            Some(k) => peer_key(text@) == Some(k@),
            None => peer_key(text@) is None,
        },
{
    match base64_decode(trim(text)) {
        Some(bytes) => {
            if bytes.len() != 32 {
                return None;
            }
            let key = key_array(bytes.as_slice());
            if verifying_key_is_valid(&key) {
                Some(key)
            } else {
                None
            }
        },
        None => None,
    }
}

/// The validators a node starts from, before ordering: itself, then each
/// bootstrap key that is not its own, in order, all with the same power.
pub open spec fn validator_candidates(me: [u8; 32], bootstrap: Seq<[u8; 32]>, power: u64) -> Seq<
    ([u8; 32], u64),
>
    decreases bootstrap.len(),
{
    if bootstrap.len() == 0 {
        seq![(me, power)]
    } else {
        let rest = validator_candidates(me, bootstrap.drop_last(), power);
        if bootstrap.last()@ != me@ {
            rest.push((bootstrap.last(), power))
        } else {
            rest
        }
    }
}

/// The key bytes of (key, power) pairs.
pub open spec fn validator_key_bytes(list: Seq<([u8; 32], u64)>) -> Seq<Seq<u8>> {
    list.map_values(|e: ([u8; 32], u64)| e.0@)
}

/// The validator set a node starts from: `validator_candidates`, sorted
/// stably by key bytes.
pub fn genesis_validators(me: [u8; 32], bootstrap: &Vec<[u8; 32]>, power: u64) -> (validators: Vec<
    ([u8; 32], u64),
>)
    ensures
        is_byte_stable_sort(
            validator_key_bytes(validator_candidates(me, bootstrap@, power)),
            validator_candidates(me, bootstrap@, power),
            validators@,
        ),
{
    let mut list: Vec<([u8; 32], u64)> = Vec::new();
    list.push((me, power));
    let mut i: usize = 0;
    assert(bootstrap@.take(0) =~= Seq::<[u8; 32]>::empty());
    while i < bootstrap.len()
        invariant
            i <= bootstrap.len(),
            list@ == validator_candidates(me, bootstrap@.take(i as int), power),
        decreases bootstrap.len() - i,
    {
        assert(bootstrap@.take(i + 1).drop_last() =~= bootstrap@.take(i as int));
        if !bytes_equal(bootstrap[i].as_slice(), me.as_slice()) {
            list.push((bootstrap[i], power));
        }
        i = i + 1;
    }
    assert(bootstrap@.take(bootstrap.len() as int) =~= bootstrap@);
    let ghost items = list@;
    let mut keys: Vec<Vec<u8>> = Vec::new();
    let mut j: usize = 0;
    while j < list.len()
        invariant
            j <= list.len(),
            list@ == items,
            keys.len() == j,
            forall|t: int| 0 <= t < j ==> (#[trigger] keys@[t])@ == items[t].0@,
        decreases list.len() - j,
    {
        keys.push(copy_bytes(list[j].0.as_slice()));
        j = j + 1;
    }
    assert(key_bytes(keys@) =~= validator_key_bytes(items));
    stable_sort_by_bytes(keys, list)
}

/// Where a node stands with one peer: connecting to its peer-to-peer
/// port, asking its HTTP port for its verifying key, or done (the key is
/// known and mapped to the connection).
pub enum PeerPhase {
    Connecting,
    Discovering,
    Mapped,
}

/// What the last outside step with a peer gave.
pub enum PeerEvent {
    Connected,
    ConnectFailed,
    KeyFound,
    KeyMissing,
}

/// What the node does next with a peer.
pub enum PeerAction {
    /// Keep the new connection for broadcasts and ask for the peer's key.
    AddOutboundAndDiscover,
    /// Wait this many milliseconds, then connect again.
    RetryConnect(u64),
    /// Map the peer's key to its connection, for messages sent to it alone.
    MapKey,
    /// Wait this many milliseconds, then ask for the key again.
    RetryDiscover(u64),
    /// Nothing more to do.
    Stop,
}

/// The next phase and action with a peer: a failed connection is retried
/// after 2 s; a made one is kept and the peer's key asked for, again after
/// 0.5 s while it is not given; once given it is mapped and the node is
/// done with the peer. An event that does not belong to the phase changes
/// nothing and asks for nothing.
pub open spec fn peer_next(phase: PeerPhase, event: PeerEvent) -> (PeerPhase, PeerAction) {
    match (phase, event) {
        (PeerPhase::Connecting, PeerEvent::Connected) => (PeerPhase::Discovering, PeerAction::AddOutboundAndDiscover),
        (PeerPhase::Connecting, PeerEvent::ConnectFailed) => (PeerPhase::Connecting, PeerAction::RetryConnect(2000)),
        (PeerPhase::Discovering, PeerEvent::KeyFound) => (PeerPhase::Mapped, PeerAction::MapKey),
        (PeerPhase::Discovering, PeerEvent::KeyMissing) => (PeerPhase::Discovering, PeerAction::RetryDiscover(500)),
        (p, _) => (p, PeerAction::Stop),
    }
}

/// One step with a peer, as `peer_next` says.
pub fn peer_step(phase: PeerPhase, event: PeerEvent) -> (r: (PeerPhase, PeerAction))
    ensures
        r == peer_next(phase, event),
{
    match (phase, event) {
        (PeerPhase::Connecting, PeerEvent::Connected) => (PeerPhase::Discovering, PeerAction::AddOutboundAndDiscover),
        (PeerPhase::Connecting, PeerEvent::ConnectFailed) => (PeerPhase::Connecting, PeerAction::RetryConnect(2000)),
        (PeerPhase::Discovering, PeerEvent::KeyFound) => (PeerPhase::Mapped, PeerAction::MapKey),
        (PeerPhase::Discovering, PeerEvent::KeyMissing) => (PeerPhase::Discovering, PeerAction::RetryDiscover(500)),
        (p, _) => (p, PeerAction::Stop),
    }
}

} // verus!

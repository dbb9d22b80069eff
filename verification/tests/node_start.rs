use base64::Engine;
use hs_demo::node::{
    bootstrap_key_from_text, genesis_validators, http_port_for, key_from_file_text, logger_levels,
    peer_key_from_text, peer_step, LevelChoice, PeerAction, PeerEvent, PeerPhase,
};

fn vk_of(secret: &[u8; 32]) -> [u8; 32] {
    hotstuff_rs::types::crypto_primitives::SigningKey::from_bytes(secret).verifying_key().to_bytes()
}

fn b64(bytes: &[u8]) -> String {
    base64::engine::general_purpose::STANDARD_NO_PAD.encode(bytes)
}

#[test]
fn http_port_follows_the_peer_port() {
    assert_eq!(http_port_for(9001), 8081);
    assert_eq!(http_port_for(9004), 8084);
    assert_eq!(http_port_for(9000), 8080);
    assert_eq!(http_port_for(80), 8080);
    assert_eq!(http_port_for(u16::MAX), 8080 + (u16::MAX - 9000));
}

#[test]
fn log_levels_by_name() {
    let l = logger_levels(false, "INFO");
    assert!(matches!(l.hotstuff, LevelChoice::Info));
    assert!(matches!(l.global, LevelChoice::Info));
    assert!(matches!(logger_levels(true, "off").hotstuff, LevelChoice::Off));
    assert!(matches!(logger_levels(true, "off").global, LevelChoice::Debug));
    assert!(matches!(logger_levels(false, "Trace").hotstuff, LevelChoice::Trace));
    assert!(matches!(logger_levels(false, "error").hotstuff, LevelChoice::Error));
    assert!(matches!(logger_levels(false, "debug").hotstuff, LevelChoice::Debug));
    assert!(matches!(logger_levels(false, "warn").hotstuff, LevelChoice::Warn));
    assert!(matches!(logger_levels(false, "verbose").hotstuff, LevelChoice::Warn));
    assert!(matches!(logger_levels(false, " info").hotstuff, LevelChoice::Warn));
}

#[test]
fn key_files_hold_base64_secret_keys() {
    let secret = [11u8; 32];
    let text = format!("  {}\n", b64(&secret));
    assert_eq!(key_from_file_text(&text), Some(secret));
    assert_eq!(key_from_file_text(&b64(&[1, 2, 3])), Some([0u8; 32]));
    assert_eq!(key_from_file_text("%%%"), None);
    assert_eq!(bootstrap_key_from_text(&text), Some(vk_of(&secret)));
    assert_ne!(bootstrap_key_from_text(&text), Some(secret));
    assert_eq!(bootstrap_key_from_text("%%%"), None);
}

#[test]
fn peer_keys_must_be_valid_and_32_bytes() {
    let vk = vk_of(&[12u8; 32]);
    assert_eq!(peer_key_from_text(&format!("{}\n", b64(&vk))), Some(vk));
    assert_eq!(peer_key_from_text(&b64(&[1, 2, 3])), None);
    assert_eq!(peer_key_from_text("not base64"), None);
}

#[test]
fn genesis_set_is_me_and_the_others_sorted() {
    let me = [5u8; 32];
    let a = [9u8; 32];
    let b = [1u8; 32];
    let v = genesis_validators(me, &vec![a, me, b, a], 2);
    assert_eq!(v, vec![(b, 2), (me, 2), (a, 2), (a, 2)]);
    assert_eq!(genesis_validators(me, &vec![], 1), vec![(me, 1)]);
}

#[test]
fn peers_are_connected_then_their_keys_asked_for() {
    let (p, a) = peer_step(PeerPhase::Connecting, PeerEvent::ConnectFailed);
    assert!(matches!(p, PeerPhase::Connecting) && matches!(a, PeerAction::RetryConnect(2000)));
    let (p, a) = peer_step(PeerPhase::Connecting, PeerEvent::Connected);
    assert!(matches!(p, PeerPhase::Discovering) && matches!(a, PeerAction::AddOutboundAndDiscover));
    let (p, a) = peer_step(PeerPhase::Discovering, PeerEvent::KeyMissing);
    assert!(matches!(p, PeerPhase::Discovering) && matches!(a, PeerAction::RetryDiscover(500)));
    let (p, a) = peer_step(PeerPhase::Discovering, PeerEvent::KeyFound);
    assert!(matches!(p, PeerPhase::Mapped) && matches!(a, PeerAction::MapKey));
    let (p, a) = peer_step(PeerPhase::Mapped, PeerEvent::KeyFound);
    assert!(matches!(p, PeerPhase::Mapped) && matches!(a, PeerAction::Stop));
    let (p, a) = peer_step(PeerPhase::Connecting, PeerEvent::KeyFound);
    assert!(matches!(p, PeerPhase::Connecting) && matches!(a, PeerAction::Stop));
}

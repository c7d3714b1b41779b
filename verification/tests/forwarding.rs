use mc_server_scanner::port_forwarding::GatewaySession;
use mc_server_scanner::port_forwarding::MappingProtocol;

#[test]
fn a_forward_request_carries_the_fixed_description() {
    let m = GatewaySession::begin_forward(49000, 25565, Some(3600));
    assert_eq!(m.internal_port, 49000);
    assert_eq!(m.external_port, 25565);
    assert_eq!(m.protocol, MappingProtocol::Tcp);
    assert_eq!(m.description, "MinecraftLAN");
    assert_eq!(m.lease_seconds, Some(3600));
    let bare = GatewaySession::begin_forward(49000, 25565, None);
    assert_eq!(bare.lease_seconds, None);
}

#[test]
fn accepted_mappings_are_tracked_per_key() {
    let mut session = GatewaySession::new();
    assert_eq!(session.tracked_count(), 0);
    session.commit_forward(GatewaySession::begin_forward(49000, 25565, None));
    session.commit_forward(GatewaySession::begin_forward(49001, 25566, None));
    assert_eq!(session.tracked_count(), 2);
}

#[test]
fn forwarding_the_same_external_port_again_replaces_the_entry() {
    let mut session = GatewaySession::new();
    session.commit_forward(GatewaySession::begin_forward(49000, 25565, None));
    session.commit_forward(GatewaySession::begin_forward(49007, 25565, None));
    assert_eq!(session.tracked_count(), 1);
    let removals = session.close();
    assert_eq!(removals.len(), 1);
    assert_eq!(removals[0].internal_port, 49007);
    assert_eq!(removals[0].external_port, 25565);
}

#[test]
fn close_hands_back_every_mapping_and_clears_the_set() {
    let mut session = GatewaySession::new();
    session.commit_forward(GatewaySession::begin_forward(49000, 25565, None));
    session.commit_forward(GatewaySession::begin_forward(49001, 25566, None));
    let removals = session.close();
    // both removals are attempted by the caller, in order, even when the
    // first attempt fails at the gateway: the session has already handed
    // out the full set and keeps nothing back
    assert_eq!(removals.len(), 2);
    assert_eq!(removals[0].external_port, 25565);
    assert_eq!(removals[1].external_port, 25566);
    assert_eq!(session.tracked_count(), 0);
    // a second close is a no-op
    assert!(session.close().is_empty());
}

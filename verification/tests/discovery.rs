use agent_directory::directory::{AgentConfigEvent, ProfileEvent};
use agent_directory::discovery::{discovery_step, Discovery, DiscoveryAction, DiscoveryReply};
use agent_directory::event::Event;
use agent_directory::policy::{DirectoryContent, DirectoryState};

const AGENT: &str = "79be667ef9dcbbac55a06295ce870b07029bfcdb2dce28d959f2815b16f81798";
const OWNER: &str = "c6047f9441ed7d6d3045406e95c07cd85c778e4b8cef3ca7abac09b95c709ee5";

fn tag(values: &[&str]) -> Vec<String> {
    values.iter().map(|v| v.to_string()).collect()
}

fn event(author: &str, tags: Vec<Vec<String>>) -> Event {
    Event { pubkey: author.to_string(), created_at: 1, id: [1; 32], tags }
}

fn claim() -> AgentConfigEvent {
    AgentConfigEvent {
        event: event(OWNER, vec![tag(&["d", AGENT])]),
        content: Some(DirectoryContent {
            name: Some("Neo".to_string()),
            respond_to: Some("anyone".to_string()),
            respond_to_allowlist: Some(Vec::new()),
        }),
    }
}

fn profile() -> ProfileEvent {
    ProfileEvent { event: event(AGENT, Vec::new()), oa_owner: Some(OWNER.to_string()) }
}

fn to_memberships(state: Discovery) -> Discovery {
    let (state, action) = discovery_step(state, DiscoveryReply::Begin);
    assert!(matches!(action, DiscoveryAction::QueryClaims));
    let (state, action) = discovery_step(state, DiscoveryReply::Claims(vec![claim()]));
    match action {
        DiscoveryAction::QueryProfiles(authors) => assert_eq!(authors, vec![AGENT]),
        _ => panic!("expected a profile query"),
    }
    let (state, action) = discovery_step(state, DiscoveryReply::Profiles(vec![profile()]));
    match action {
        DiscoveryAction::QueryMemberships(agents) => assert_eq!(agents, vec![AGENT]),
        _ => panic!("expected a membership query"),
    }
    state
}

#[test]
fn listing_without_claims_finishes_empty() {
    let (state, _) = discovery_step(Discovery::Start, DiscoveryReply::Begin);
    let (state, action) = discovery_step(state, DiscoveryReply::Claims(Vec::new()));
    assert!(matches!(state, Discovery::Finished));
    match action {
        DiscoveryAction::Finish(rows) => assert!(rows.is_empty()),
        _ => panic!("expected the end of the listing"),
    }
}

#[test]
fn listing_without_channels_skips_metadata() {
    let state = to_memberships(Discovery::Start);
    let (state, action) = discovery_step(state, DiscoveryReply::Memberships(Vec::new()));
    assert!(matches!(state, Discovery::Finished));
    match action {
        DiscoveryAction::Finish(rows) => {
            assert_eq!(rows.len(), 1);
            assert_eq!(rows[0].directory_state, DirectoryState::Resolved);
            assert!(rows[0].channels.is_empty());
        }
        _ => panic!("expected the end of the listing"),
    }
}

#[test]
fn listing_asks_for_channel_metadata_and_names_channels() {
    let state = to_memberships(Discovery::Start);
    let member = event(OWNER, vec![tag(&["d", "general"]), tag(&["p", AGENT, "", "bot"])]);
    let (state, action) = discovery_step(state, DiscoveryReply::Memberships(vec![member]));
    match action {
        DiscoveryAction::QueryMetadata(channels) => assert_eq!(channels, vec!["general"]),
        _ => panic!("expected a metadata query"),
    }
    let meta = event(OWNER, vec![tag(&["d", "general"]), tag(&["name", "General"])]);
    let (state, action) = discovery_step(state, DiscoveryReply::Metadata(vec![meta]));
    assert!(matches!(state, Discovery::Finished));
    match action {
        DiscoveryAction::Finish(rows) => {
            assert_eq!(rows[0].channel_ids, vec!["general"]);
            assert_eq!(rows[0].channels, vec!["General"]);
        }
        _ => panic!("expected the end of the listing"),
    }
}

#[test]
fn failed_metadata_query_keeps_channel_ids_as_names() {
    let state = to_memberships(Discovery::Start);
    let member = event(OWNER, vec![tag(&["d", "general"]), tag(&["p", AGENT, "", "bot"])]);
    let (state, _) = discovery_step(state, DiscoveryReply::Memberships(vec![member]));
    let (_, action) = discovery_step(state, DiscoveryReply::MetadataUnavailable);
    match action {
        DiscoveryAction::Finish(rows) => assert_eq!(rows[0].channels, vec!["general"]),
        _ => panic!("expected the end of the listing"),
    }
}

#[test]
fn replies_out_of_order_are_refused() {
    let (state, action) = discovery_step(Discovery::Start, DiscoveryReply::Profiles(Vec::new()));
    assert!(matches!(state, Discovery::Finished));
    assert!(matches!(action, DiscoveryAction::Refuse));
    let (_, action) = discovery_step(Discovery::AwaitingClaims, DiscoveryReply::Begin);
    assert!(matches!(action, DiscoveryAction::Refuse));
}

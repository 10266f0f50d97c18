use agent_directory::directory::{
    candidate_pubkeys, project_relay_agents, referenced_channel_ids, AgentConfigEvent,
    ProfileEvent, RelayAgentInfo,
};
use agent_directory::event::Event;
use agent_directory::policy::{DirectoryContent, DirectoryRespondTo, DirectoryState};
use nostr::key::Keys;
use std::sync::atomic::{AtomicU64, Ordering};

static NEXT_KEY: AtomicU64 = AtomicU64::new(1);

fn hex_key() -> String {
    let seed = NEXT_KEY.fetch_add(1, Ordering::Relaxed);
    let secret = format!("{:064x}", seed);
    Keys::parse(&secret).expect("test secret key parses").public_key().to_hex()
}

fn tag(values: &[&str]) -> Vec<String> {
    values.iter().map(|v| v.to_string()).collect()
}

fn event(author: &str, created_at: u64, id: u8, tags: Vec<Vec<String>>) -> Event {
    Event { pubkey: author.to_string(), created_at, id: [id; 32], tags }
}

fn content(name: Option<&str>, policy: Option<&str>) -> DirectoryContent {
    DirectoryContent {
        name: name.map(|n| n.to_string()),
        respond_to: policy.map(|p| p.to_string()),
        respond_to_allowlist: Some(Vec::new()),
    }
}

fn config(owner: &str, agent: &str, policy: &str, tags: Vec<Vec<String>>) -> AgentConfigEvent {
    config_at(owner, agent, policy, tags, 1_700_000_000, 7)
}

fn config_at(
    owner: &str,
    agent: &str,
    policy: &str,
    mut tags: Vec<Vec<String>>,
    created_at: u64,
    id: u8,
) -> AgentConfigEvent {
    tags.push(tag(&["d", agent]));
    AgentConfigEvent {
        event: event(owner, created_at, id, tags),
        content: Some(content(Some("Neo"), Some(policy))),
    }
}

fn verified_profile(owner: &str, agent: &str) -> ProfileEvent {
    ProfileEvent { event: event(agent, 1_700_000_000, 9, Vec::new()), oa_owner: Some(owner.to_string()) }
}

fn membership(owner: &str, channel: &str, agent: &str, role: &str) -> Event {
    event(owner, 1_700_000_000, 3, vec![tag(&["d", channel]), tag(&["p", agent, "", role])])
}

#[test]
fn resolves_verified_config_and_exact_bot_membership() {
    let owner = hex_key();
    let agent = hex_key();
    let config = config(&owner, &agent, "anyone", Vec::new());
    let profile = verified_profile(&owner, &agent);
    let membership = membership(&owner, "general", &agent, "bot");
    let agents = project_relay_agents(&[config], &[profile], &[membership], &[]);
    assert_eq!(agents.len(), 1);
    assert_eq!(agents[0].owner_pubkey.as_deref(), Some(owner.as_str()));
    assert_eq!(agents[0].directory_state, DirectoryState::Resolved);
    assert_eq!(agents[0].channel_ids, vec!["general"]);
}

#[test]
fn untrusted_and_incomplete_entries_remain_present() {
    let owner = hex_key();
    let agent = hex_key();
    let config = config(&owner, &agent, "mystery", Vec::new());
    let agents = project_relay_agents(&[config], &[], &[], &[]);
    assert_eq!(agents.len(), 1);
    assert_eq!(agents[0].directory_state, DirectoryState::Untrusted);
    assert_eq!(agents[0].respond_to, None);
}

#[test]
fn verified_incomplete_and_wrong_owner_states_remain_distinct() {
    let owner = hex_key();
    let foreign_owner = hex_key();
    let agent = hex_key();

    let incomplete = config(&owner, &agent, "mystery", Vec::new());
    let agents = project_relay_agents(&[incomplete], &[verified_profile(&owner, &agent)], &[], &[]);
    assert_eq!(agents[0].directory_state, DirectoryState::Incomplete);

    let foreign = config(&foreign_owner, &agent, "anyone", Vec::new());
    let agents = project_relay_agents(&[foreign], &[verified_profile(&owner, &agent)], &[], &[]);
    assert_eq!(agents[0].directory_state, DirectoryState::Untrusted);
}

#[test]
fn newest_directory_heads_are_per_owner_and_order_independent() {
    let owner = hex_key();
    let foreign_owner = hex_key();
    let agent = hex_key();
    let first_id: u8 = 0x42;
    let second_id: u8 = 0x17;
    let first = || config_at(&owner, &agent, "anyone", Vec::new(), 1_000, first_id);
    let second = || config_at(&owner, &agent, "nobody", Vec::new(), 1_000, second_id);
    let foreign = || config_at(&foreign_owner, &agent, "nobody", Vec::new(), 2_000, 0x99);
    let expected = if [first_id; 32] < [second_id; 32] {
        DirectoryRespondTo::Anyone
    } else {
        DirectoryRespondTo::Nobody
    };
    assert_eq!(candidate_pubkeys(&[foreign(), second(), first()]), vec![agent.clone()]);

    let agents = project_relay_agents(
        &[foreign(), second(), first()],
        &[verified_profile(&owner, &agent)],
        &[],
        &[],
    );
    assert_eq!(agents.len(), 1);
    assert_eq!(agents[0].owner_pubkey.as_deref(), Some(owner.as_str()));
    assert_eq!(agents[0].directory_state, DirectoryState::Resolved);
    assert_eq!(agents[0].respond_to, Some(expected));
}

#[test]
fn only_bot_role_and_single_valid_d_tag_are_accepted() {
    let owner = hex_key();
    let agent = hex_key();
    let config = config(&owner, &agent, "anyone", Vec::new());
    let member = membership(&owner, "general", &agent, "member");
    let agents =
        project_relay_agents(&[config], &[verified_profile(&owner, &agent)], &[member], &[]);
    assert!(agents[0].channel_ids.is_empty());
    let ambiguous = AgentConfigEvent {
        event: event(&owner, 1_700_000_000, 5, vec![tag(&["d", &agent]), tag(&["d", &agent])]),
        content: Some(DirectoryContent {
            name: None,
            respond_to: None,
            respond_to_allowlist: Some(Vec::new()),
        }),
    };
    assert!(candidate_pubkeys(&[ambiguous]).is_empty());
}

#[test]
fn uppercase_agent_tags_are_listed_in_canonical_lowercase() {
    let owner = hex_key();
    let agent = hex_key();
    let claim = config(&owner, &agent.to_uppercase(), "anyone", Vec::new());
    let membership = membership(&owner, "general", &agent.to_uppercase(), "bot");
    let agents = project_relay_agents(
        &[claim],
        &[verified_profile(&owner, &agent)],
        &[membership],
        &[],
    );
    assert_eq!(agents.len(), 1);
    assert_eq!(agents[0].pubkey, agent);
    assert_eq!(agents[0].directory_state, DirectoryState::Resolved);
    assert_eq!(agents[0].channel_ids, vec!["general"]);
}

#[test]
fn agent_tags_that_are_no_public_key_are_skipped() {
    let owner = hex_key();
    let agent = hex_key();
    let odd = format!("{}a", agent);
    let short = agent[..62].to_string();
    let not_hex = format!("{}zz", &agent[..62]);
    let claims = vec![
        config(&owner, &odd, "anyone", Vec::new()),
        config(&owner, &short, "anyone", Vec::new()),
        config(&owner, &not_hex, "anyone", Vec::new()),
        config(&owner, "   ", "anyone", Vec::new()),
    ];
    assert!(candidate_pubkeys(&claims).is_empty());
    assert!(project_relay_agents(&claims, &[], &[], &[]).is_empty());
}

#[test]
fn longer_even_hex_tags_keep_their_first_64_digits() {
    let owner = hex_key();
    let agent = hex_key();
    let long = format!("{}ABCD", agent);
    let claims = vec![config(&owner, &long, "anyone", Vec::new())];
    assert_eq!(candidate_pubkeys(&claims), vec![agent]);
}

#[test]
fn rows_come_in_agent_order_with_one_row_per_agent() {
    let owner = hex_key();
    let mut agents: Vec<String> = (0..4).map(|_| hex_key()).collect();
    let claims: Vec<AgentConfigEvent> =
        agents.iter().rev().map(|a| config(&owner, a, "anyone", Vec::new())).collect();
    let mut twice = claims;
    twice.push(config(&owner, &agents[0], "nobody", Vec::new()));
    let rows = project_relay_agents(&twice, &[], &[], &[]);
    agents.sort();
    let keys: Vec<String> = rows.iter().map(|r| r.pubkey.clone()).collect();
    assert_eq!(keys, agents);
    assert_eq!(candidate_pubkeys(&twice), agents);
}

#[test]
fn unattested_agent_is_represented_by_first_author() {
    let owners = [hex_key(), hex_key(), hex_key()];
    let agent = hex_key();
    let claims: Vec<AgentConfigEvent> =
        owners.iter().map(|o| config(o, &agent, "anyone", Vec::new())).collect();
    let rows = project_relay_agents(&claims, &[], &[], &[]);
    let mut sorted = owners.to_vec();
    sorted.sort();
    assert_eq!(rows.len(), 1);
    assert_eq!(rows[0].owner_pubkey.as_deref(), Some(sorted[0].as_str()));
    assert_eq!(rows[0].directory_state, DirectoryState::Untrusted);

    let attested = project_relay_agents(&claims, &[verified_profile(&owners[2], &agent)], &[], &[]);
    assert_eq!(attested[0].owner_pubkey.as_deref(), Some(owners[2].as_str()));
    assert_eq!(attested[0].directory_state, DirectoryState::Resolved);
}

#[test]
fn newest_profile_decides_the_owner() {
    let owner = hex_key();
    let other = hex_key();
    let agent = hex_key();
    let claims = vec![config(&owner, &agent, "anyone", Vec::new())];
    let old_profile = ProfileEvent {
        event: event(&agent, 100, 1, Vec::new()),
        oa_owner: Some(owner.clone()),
    };
    let new_profile = ProfileEvent {
        event: event(&agent, 200, 2, Vec::new()),
        oa_owner: Some(other.clone()),
    };
    let rows = project_relay_agents(&claims, &[new_profile, old_profile], &[], &[]);
    assert_eq!(rows[0].directory_state, DirectoryState::Untrusted);
}

#[test]
fn claim_without_readable_content_is_unknown_and_incomplete() {
    let owner = hex_key();
    let agent = hex_key();
    let claim = AgentConfigEvent {
        event: event(&owner, 5, 5, vec![tag(&["d", &agent])]),
        content: None,
    };
    let rows = project_relay_agents(&[claim], &[verified_profile(&owner, &agent)], &[], &[]);
    assert_eq!(rows[0].name, "Unknown agent");
    assert_eq!(rows[0].agent_type, "agent");
    assert_eq!(rows[0].status, "offline");
    assert!(rows[0].capabilities.is_empty());
    assert_eq!(rows[0].respond_to, None);
    assert_eq!(rows[0].directory_state, DirectoryState::Incomplete);
}

#[test]
fn channel_names_come_from_the_last_metadata_event() {
    let owner = hex_key();
    let agent = hex_key();
    let claims = vec![config(&owner, &agent, "anyone", Vec::new())];
    let memberships = vec![
        membership(&owner, "zeta", &agent, "bot"),
        membership(&owner, "alpha", &agent, "bot"),
        membership(&owner, "alpha", &agent, "bot"),
        membership(&owner, "mid", &agent, "bot"),
    ];
    let metadata = vec![
        event(&owner, 1, 1, vec![tag(&["d", "alpha"]), tag(&["name", "Old"])]),
        event(&owner, 1, 2, vec![tag(&["d", "alpha"]), tag(&["name", "  "]), tag(&["name", "  Alpha  "])]),
        event(&owner, 1, 3, vec![tag(&["d", "zeta"])]),
        event(&owner, 1, 4, vec![tag(&["d", "other"]), tag(&["name", "Other"])]),
    ];
    let rows = project_relay_agents(&claims, &[verified_profile(&owner, &agent)], &memberships, &metadata);
    assert_eq!(rows[0].channel_ids, vec!["alpha", "mid", "zeta"]);
    assert_eq!(rows[0].channels, vec!["Alpha", "mid", "zeta"]);
    assert_eq!(referenced_channel_ids(&rows), vec!["alpha", "mid", "zeta"]);
}

#[test]
fn memberships_need_a_single_channel_tag_and_a_listed_candidate() {
    let owner = hex_key();
    let agent = hex_key();
    let stranger = hex_key();
    let claims = vec![config(&owner, &agent, "anyone", Vec::new())];
    let memberships = vec![
        event(&owner, 1, 1, vec![tag(&["d", "a"]), tag(&["d", "b"]), tag(&["p", &agent, "", "bot"])]),
        event(&owner, 1, 2, vec![tag(&["p", &agent, "", "bot"])]),
        event(&owner, 1, 3, vec![tag(&["d", "c"]), tag(&["p", &agent, "", "bot"])]),
        event(&owner, 1, 4, vec![tag(&["d", "d"]), tag(&["p", &agent, ""])]),
        event(&owner, 1, 5, vec![tag(&["d", "e"]), tag(&["p", &stranger, "", "bot"])]),
    ];
    let rows = project_relay_agents(&claims, &[], &memberships, &[]);
    assert_eq!(rows.len(), 1);
    assert_eq!(rows[0].channel_ids, vec!["c"]);
}

#[test]
fn referenced_channels_merge_every_row() {
    let row = |ids: &[&str]| RelayAgentInfo {
        pubkey: hex_key(),
        name: "n".to_string(),
        agent_type: "agent".to_string(),
        channels: Vec::new(),
        channel_ids: ids.iter().map(|s| s.to_string()).collect(),
        capabilities: Vec::new(),
        status: "offline".to_string(),
        respond_to: None,
        respond_to_allowlist: Vec::new(),
        owner_pubkey: None,
        directory_state: DirectoryState::Incomplete,
    };
    let rows = vec![row(&["b", "d"]), row(&[]), row(&["a", "b"])];
    assert_eq!(referenced_channel_ids(&rows), vec!["a", "b", "d"]);
    assert!(referenced_channel_ids(&[]).is_empty());
}

#[test]
fn allowlist_policy_with_entries_resolves() {
    let owner = hex_key();
    let agent = hex_key();
    let member = hex_key();
    let mut claim = config(&owner, &agent, "allowlist", Vec::new());
    claim.content = Some(DirectoryContent {
        name: Some("  Neo ".to_string()),
        respond_to: Some("allowlist".to_string()),
        respond_to_allowlist: Some(vec![member.clone()]),
    });
    let rows = project_relay_agents(&[claim], &[verified_profile(&owner, &agent)], &[], &[]);
    assert_eq!(rows[0].name, "Neo");
    assert_eq!(rows[0].respond_to, Some(DirectoryRespondTo::Allowlist));
    assert_eq!(rows[0].respond_to_allowlist, vec![member]);
    assert_eq!(rows[0].directory_state, DirectoryState::Resolved);
}

#[test]
fn input_order_does_not_change_the_rows() {
    let owners = [hex_key(), hex_key()];
    let agents = [hex_key(), hex_key()];
    let build = || {
        vec![
            config_at(&owners[0], &agents[0], "anyone", Vec::new(), 10, 1),
            config_at(&owners[0], &agents[0], "nobody", Vec::new(), 20, 2),
            config_at(&owners[1], &agents[0], "owner-only", Vec::new(), 30, 3),
            config_at(&owners[1], &agents[1], "anyone", Vec::new(), 10, 4),
            config_at(&owners[0], &agents[1], "nobody", Vec::new(), 10, 5),
        ]
    };
    let profiles = || {
        vec![
            verified_profile(&owners[0], &agents[0]),
            ProfileEvent { event: event(&agents[1], 5, 5, Vec::new()), oa_owner: Some(owners[1].clone()) },
        ]
    };
    let memberships = || {
        vec![
            membership(&owners[0], "general", &agents[1], "bot"),
            membership(&owners[1], "random", &agents[1], "bot"),
            membership(&owners[1], "general", &agents[0], "bot"),
        ]
    };
    let forward = project_relay_agents(&build(), &profiles(), &memberships(), &[]);
    let mut reversed_claims = build();
    reversed_claims.reverse();
    let mut reversed_profiles = profiles();
    reversed_profiles.reverse();
    let mut reversed_memberships = memberships();
    reversed_memberships.reverse();
    let backward =
        project_relay_agents(&reversed_claims, &reversed_profiles, &reversed_memberships, &[]);
    assert_eq!(forward, backward);
    assert_eq!(forward.len(), 2);
    let first = forward.iter().find(|r| r.pubkey == agents[0]).expect("agent row");
    assert_eq!(first.respond_to, Some(DirectoryRespondTo::Nobody));
    assert_eq!(first.directory_state, DirectoryState::Resolved);
}

#[test]
fn later_claim_replaces_earlier_one_of_its_author() {
    let owner = hex_key();
    let agent = hex_key();
    let old = config_at(&owner, &agent, "anyone", Vec::new(), 100, 1);
    let new = config_at(&owner, &agent, "owner-only", Vec::new(), 200, 9);
    let rows = project_relay_agents(&[new, old], &[verified_profile(&owner, &agent)], &[], &[]);
    assert_eq!(rows[0].respond_to, Some(DirectoryRespondTo::OwnerOnly));
}

#[test]
fn profile_order_does_not_change_the_owner() {
    let owner = hex_key();
    let other = hex_key();
    let agent = hex_key();
    let claims = || vec![config(&owner, &agent, "anyone", Vec::new()), config(&other, &agent, "anyone", Vec::new())];
    let profiles = || {
        vec![
            ProfileEvent { event: event(&agent, 100, 1, Vec::new()), oa_owner: Some(other.clone()) },
            ProfileEvent { event: event(&agent, 300, 3, Vec::new()), oa_owner: Some(owner.clone()) },
            ProfileEvent { event: event(&agent, 200, 2, Vec::new()), oa_owner: None },
        ]
    };
    let forward = project_relay_agents(&claims(), &profiles(), &[], &[]);
    let mut reversed = profiles();
    reversed.reverse();
    let backward = project_relay_agents(&claims(), &reversed, &[], &[]);
    assert_eq!(forward, backward);
    assert_eq!(forward[0].owner_pubkey.as_deref(), Some(owner.as_str()));
    assert_eq!(forward[0].directory_state, DirectoryState::Resolved);
}

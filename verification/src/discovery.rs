//! The relay conversation of a directory listing: which query comes next
//! after each reply, and when the listing is done.
use vstd::prelude::*;

use crate::directory::{
    candidate_pubkeys, claims_agent, in_channel, is_directory_row, is_projection, is_selected,
    project_relay_agents, referenced_channel_ids, row_of, row_pubkeys, AgentConfigEvent,
    ProfileEvent, RelayAgentInfo,
};
use crate::event::Event;
use crate::policy::clone_strings;
use crate::text::{has_string, sorted_strings};

verus! {

/// Where a directory listing stands between relay queries.
pub enum Discovery {
    /// Nothing has been asked yet.
    Start,
    /// Waiting for the directory claims (kind 30177).
    AwaitingClaims,
    /// Waiting for the candidates' profiles (kind 0).
    AwaitingProfiles { claims: Vec<AgentConfigEvent>, candidates: Vec<String> },
    /// Waiting for the channel memberships that tag the candidates (kind 39002).
    AwaitingMemberships { claims: Vec<AgentConfigEvent>, profiles: Vec<ProfileEvent> },
    /// Waiting for the metadata of the listed channels (kind 39000).
    AwaitingMetadata {
        claims: Vec<AgentConfigEvent>,
        profiles: Vec<ProfileEvent>,
        memberships: Vec<Event>,
    },
    /// The listing is over.
    Finished,
}

/// What the relay side reports.
pub enum DiscoveryReply {
    /// The listing is asked for.
    Begin,
    Claims(Vec<AgentConfigEvent>),
    Profiles(Vec<ProfileEvent>),
    Memberships(Vec<Event>),
    Metadata(Vec<Event>),
    /// The metadata query failed; the listing goes on without channel names.
    MetadataUnavailable,
}

/// What to do next.
pub enum DiscoveryAction {
    QueryClaims,
    /// Ask for the profiles that these agents authored.
    QueryProfiles(Vec<String>),
    /// Ask for the memberships that tag these agents.
    QueryMemberships(Vec<String>),
    /// Ask for the metadata of these channels.
    QueryMetadata(Vec<String>),
    /// Answer with these rows.
    Finish(Vec<RelayAgentInfo>),
    /// The reply does not fit the stage; the listing is abandoned.
    Refuse,
}

/// The channels that some claimed agent is a bot member of.
pub open spec fn listed_channel(
    claims: Seq<AgentConfigEvent>,
    memberships: Seq<Event>,
    channel: Seq<char>,
) -> bool {
    exists|agent: Seq<char>| claims_agent(claims, agent) && in_channel(memberships, agent, channel)
}

proof fn lemma_listed_channels(
    rows: Seq<RelayAgentInfo>,
    claims: Seq<AgentConfigEvent>,
    profiles: Seq<ProfileEvent>,
    memberships: Seq<Event>,
    metadata: Seq<Event>,
    channel: Seq<char>,
)
    requires
        is_projection(rows, claims, profiles, memberships, metadata),
    ensures
        (exists|k: int| 0 <= k < rows.len() && has_string((#[trigger] rows[k]).channel_ids@, channel))
            <==> listed_channel(claims, memberships, channel),
{
    if exists|k: int| 0 <= k < rows.len() && has_string((#[trigger] rows[k]).channel_ids@, channel) {
        let k = choose|k: int| 0 <= k < rows.len() && has_string((#[trigger] rows[k]).channel_ids@, channel);
        assert(is_directory_row(rows[k], claims, profiles, memberships, metadata));
        let i = choose|i: int| #![trigger is_selected(claims, profiles, i)]
            is_selected(claims, profiles, i) && row_of(rows[k], claims[i], profiles, memberships, metadata);
        let agent = rows[k].pubkey@;
        assert(row_pubkeys(rows)[k] == rows[k].pubkey);
        assert(has_string(row_pubkeys(rows), agent));
        assert(in_channel(memberships, agent, channel));
        assert(claims_agent(claims, agent));
        assert(listed_channel(claims, memberships, channel));
    }
    if listed_channel(claims, memberships, channel) {
        let agent = choose|agent: Seq<char>|
            claims_agent(claims, agent) && in_channel(memberships, agent, channel);
        assert(has_string(row_pubkeys(rows), agent));
        let k = choose|k: int| 0 <= k < row_pubkeys(rows).len() && #[trigger] row_pubkeys(rows)[k]@ == agent;
        assert(is_directory_row(rows[k], claims, profiles, memberships, metadata));
        let i = choose|i: int| #![trigger is_selected(claims, profiles, i)]
            is_selected(claims, profiles, i) && row_of(rows[k], claims[i], profiles, memberships, metadata);
        assert(rows[k].pubkey@ == agent);
        assert(has_string(rows[k].channel_ids@, channel));
        assert(0 <= k < rows.len());
    }
}

/// The next stage and action of a directory listing after `reply`.
pub fn discovery_step(state: Discovery, reply: DiscoveryReply) -> (r: (Discovery, DiscoveryAction))
    ensures
        match (state, reply) {
            (Discovery::Start, DiscoveryReply::Begin) => r.0 == Discovery::AwaitingClaims && r.1
                == DiscoveryAction::QueryClaims,
            (Discovery::AwaitingClaims, DiscoveryReply::Claims(claims)) => if exists|x: Seq<char>|
                claims_agent(claims@, x) {
                &&& r.0 matches Discovery::AwaitingProfiles { claims: kept, candidates }
                &&& kept == claims
                &&& sorted_strings(candidates@)
                &&& forall|x: Seq<char>| has_string(candidates@, x) <==> claims_agent(claims@, x)
                &&& r.1 matches DiscoveryAction::QueryProfiles(authors)
                &&& authors@ == candidates@
            } else {
                &&& r.0 == Discovery::Finished
                &&& r.1 matches DiscoveryAction::Finish(rows)
                &&& rows@.len() == 0
            },
            (
                Discovery::AwaitingProfiles { claims, candidates },
                DiscoveryReply::Profiles(profiles),
            ) => {
                &&& r.0 == Discovery::AwaitingMemberships { claims, profiles }
                &&& r.1 == DiscoveryAction::QueryMemberships(candidates)
            },
            (
                Discovery::AwaitingMemberships { claims, profiles },
                DiscoveryReply::Memberships(memberships),
            ) => if exists|x: Seq<char>| listed_channel(claims@, memberships@, x) {
                &&& r.0 == Discovery::AwaitingMetadata { claims, profiles, memberships }
                &&& r.1 matches DiscoveryAction::QueryMetadata(channels)
                &&& sorted_strings(channels@)
                &&& forall|x: Seq<char>|
                    has_string(channels@, x) <==> listed_channel(claims@, memberships@, x)
            } else {
                &&& r.0 == Discovery::Finished
                &&& r.1 matches DiscoveryAction::Finish(rows)
                &&& is_projection(rows@, claims@, profiles@, memberships@, seq![])
            },
            (
                Discovery::AwaitingMetadata { claims, profiles, memberships },
                DiscoveryReply::Metadata(metadata),
            ) => {
                &&& r.0 == Discovery::Finished
                &&& r.1 matches DiscoveryAction::Finish(rows)
                &&& is_projection(rows@, claims@, profiles@, memberships@, metadata@)
            },
            (
                Discovery::AwaitingMetadata { claims, profiles, memberships },
                DiscoveryReply::MetadataUnavailable,
            ) => {
                &&& r.0 == Discovery::Finished
                &&& r.1 matches DiscoveryAction::Finish(rows)
                &&& is_projection(rows@, claims@, profiles@, memberships@, seq![])
            },
            _ => r.0 == Discovery::Finished && r.1 == DiscoveryAction::Refuse,
        },
{
    match (state, reply) {
        (Discovery::Start, DiscoveryReply::Begin) => (
            Discovery::AwaitingClaims,
            DiscoveryAction::QueryClaims,
        ),
        (Discovery::AwaitingClaims, DiscoveryReply::Claims(claims)) => {
            let candidates = candidate_pubkeys(claims.as_slice());
            if candidates.len() == 0 {
                proof {
                    assert forall|x: Seq<char>| !claims_agent(claims@, x) by {
                        if claims_agent(claims@, x) {
                            assert(has_string(candidates@, x));
                        }
                    }
                }
                (Discovery::Finished, DiscoveryAction::Finish(Vec::new()))
            } else {
                proof {
                    assert(has_string(candidates@, candidates@[0]@));
                }
                let authors = clone_strings(&candidates);
                (
                    Discovery::AwaitingProfiles { claims, candidates },
                    DiscoveryAction::QueryProfiles(authors),
                )
            }
        },
        (Discovery::AwaitingProfiles { claims, candidates }, DiscoveryReply::Profiles(profiles)) => (
            Discovery::AwaitingMemberships { claims, profiles },
            DiscoveryAction::QueryMemberships(candidates),
        ),
        (
            Discovery::AwaitingMemberships { claims, profiles },
            DiscoveryReply::Memberships(memberships),
        ) => {
            let no_metadata: Vec<Event> = Vec::new();
            let preliminary = project_relay_agents(
                claims.as_slice(),
                profiles.as_slice(),
                memberships.as_slice(),
                no_metadata.as_slice(),
            );
            let channels = referenced_channel_ids(preliminary.as_slice());
            proof {
                assert(no_metadata@ =~= seq![]);
                assert forall|x: Seq<char>|
                    has_string(channels@, x) <==> listed_channel(claims@, memberships@, x) by {
                    lemma_listed_channels(
                        preliminary@,
                        claims@,
                        profiles@,
                        memberships@,
                        seq![],
                        x,
                    );
                }
            }
            if channels.len() == 0 {
                proof {
                    assert forall|x: Seq<char>| !listed_channel(claims@, memberships@, x) by {
                        if listed_channel(claims@, memberships@, x) {
                            assert(has_string(channels@, x));
                        }
                    }
                }
                (Discovery::Finished, DiscoveryAction::Finish(preliminary))
            } else {
                proof {
                    assert(has_string(channels@, channels@[0]@));
                }
                (
                    Discovery::AwaitingMetadata { claims, profiles, memberships },
                    DiscoveryAction::QueryMetadata(channels),
                )
            }
        },
        (
            Discovery::AwaitingMetadata { claims, profiles, memberships },
            DiscoveryReply::Metadata(metadata),
        ) => {
            let rows = project_relay_agents(
                claims.as_slice(),
                profiles.as_slice(),
                memberships.as_slice(),
                metadata.as_slice(),
            );
            (Discovery::Finished, DiscoveryAction::Finish(rows))
        },
        (
            Discovery::AwaitingMetadata { claims, profiles, memberships },
            DiscoveryReply::MetadataUnavailable,
        ) => {
            let no_metadata: Vec<Event> = Vec::new();
            let rows = project_relay_agents(
                claims.as_slice(),
                profiles.as_slice(),
                memberships.as_slice(),
                no_metadata.as_slice(),
            );
            proof {
                assert(no_metadata@ =~= seq![]);
            }
            (Discovery::Finished, DiscoveryAction::Finish(rows))
        },
        _ => (Discovery::Finished, DiscoveryAction::Refuse),
    }
}

} // verus!

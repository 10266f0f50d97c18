//! What holds of every directory projection.
use vstd::prelude::*;

use crate::directory::{
    agent_key, agent_slots, channel_name, claims_agent, first_channel_name, is_bot_tag_for,
    lists_bot, has_head_by, in_channel, is_agent_head, is_directory_row,
    is_projection, is_selected, profile_owner, profile_slots, row_of, row_pubkeys,
    AgentConfigEvent, ProfileEvent, RelayAgentInfo,
};
use crate::event::{exactly_one_tag, lemma_bytes_lt_total, newer, Event};
use crate::heads::{
    is_head, lemma_head_exists, lemma_head_unique, lemma_newer_total, same_slot, slot_newer, Slot,
};
use crate::policy::{
    allowlist_or_empty, content_complete, content_directory_state, policy_named, DirectoryContent,
    DirectoryRespondTo, DirectoryState,
};
use crate::pubkey::canonical_key;
use crate::text::{
    has_string, lemma_sorted_unique, lemma_str_lt_total, sorted_strings, str_lt, trim,
};

verus! {

/// The agents whose profiles and memberships the directory asks for are
/// exactly the agents it lists, in the same order: `candidate_pubkeys` and
/// the row keys of `project_relay_agents` agree.
pub proof fn law_candidates_are_listed_agents(
    claims: Seq<AgentConfigEvent>,
    candidates: Seq<String>,
    rows: Seq<RelayAgentInfo>,
)
    requires
        sorted_strings(candidates),
        forall|x: Seq<char>| has_string(candidates, x) <==> claims_agent(claims, x),
        sorted_strings(row_pubkeys(rows)),
        forall|x: Seq<char>| has_string(row_pubkeys(rows), x) <==> claims_agent(claims, x),
    ensures
        candidates.len() == rows.len(),
        forall|k: int| 0 <= k < rows.len() ==> #[trigger] candidates[k]@ == rows[k].pubkey@,
{
    lemma_sorted_unique(candidates, row_pubkeys(rows));
    assert forall|k: int| 0 <= k < rows.len() implies #[trigger] candidates[k]@ == rows[k].pubkey@ by {
        assert(row_pubkeys(rows)[k] == rows[k].pubkey);
    }
}

/// A row is untrusted exactly when the agent's current profile does not
/// attest the row's directory author as the owner; a resolved row is
/// attested and its claim is complete: a name, a known policy, and for an
/// allowlist policy a non-empty allowlist.
pub proof fn law_trust_follows_attestation(
    row: RelayAgentInfo,
    claims: Seq<AgentConfigEvent>,
    profiles: Seq<ProfileEvent>,
    memberships: Seq<Event>,
    metadata: Seq<Event>,
)
    requires
        is_directory_row(row, claims, profiles, memberships, metadata),
    ensures
        row.owner_pubkey.deep_view() is Some,
        (row.directory_state == DirectoryState::Untrusted) <==> profile_owner(profiles, row.pubkey@)
            != row.owner_pubkey.deep_view(),
        row.directory_state == DirectoryState::Resolved ==> {
            &&& row.respond_to is Some
            &&& row.respond_to == Some(crate::policy::DirectoryRespondTo::Allowlist)
                ==> row.respond_to_allowlist@.len() > 0
        },
{
    let i = choose|i: int| #![trigger is_selected(claims, profiles, i)]
            is_selected(claims, profiles, i) && row_of(row, claims[i], profiles, memberships, metadata);
    assert(row_of(row, claims[i], profiles, memberships, metadata));
    match claims[i].content {
        Some(c) => {
            if row.directory_state == DirectoryState::Resolved {
                assert(content_complete(c));
                assert(row.respond_to_allowlist.deep_view().len() == row.respond_to_allowlist@.len());
            }
        },
        None => {},
    }
}

/// A row stands for the newest claim that its directory author published
/// for the agent (NIP-33: latest time, then lowest id).
pub proof fn law_row_claim_is_newest(
    row: RelayAgentInfo,
    claims: Seq<AgentConfigEvent>,
    profiles: Seq<ProfileEvent>,
    memberships: Seq<Event>,
    metadata: Seq<Event>,
)
    requires
        is_directory_row(row, claims, profiles, memberships, metadata),
    ensures
        exists|i: int|
            #![trigger claims[i]]
            0 <= i < claims.len() && row.owner_pubkey.deep_view() == Some(claims[i].event.pubkey@)
                && agent_slots(claims)[i].key == Some(row.pubkey@) && forall|j: int|
                0 <= j < claims.len() && claims[j].event.pubkey@ == claims[i].event.pubkey@
                    && agent_slots(claims)[j].key == Some(row.pubkey@) ==> !newer(
                    #[trigger] claims[j].event.created_at,
                    claims[j].event.id@,
                    claims[i].event.created_at,
                    claims[i].event.id@,
                ),
{
    let i = choose|i: int| #![trigger is_selected(claims, profiles, i)]
            is_selected(claims, profiles, i) && row_of(row, claims[i], profiles, memberships, metadata);
    let slots = agent_slots(claims);
    assert(is_head(slots, i));
    assert forall|j: int|
        0 <= j < claims.len() && claims[j].event.pubkey@ == claims[i].event.pubkey@ && slots[j].key
            == Some(row.pubkey@) implies !newer(
        #[trigger] claims[j].event.created_at,
        claims[j].event.id@,
        claims[i].event.created_at,
        claims[i].event.id@,
    ) by {
        assert(same_slot(slots[j], slots[i]));
    }
}

/// Where the agent's current profile attests an owner who published a claim
/// for the agent, the agent's row is that owner's claim, and not untrusted.
pub proof fn law_attested_owner_claim_is_chosen(
    row: RelayAgentInfo,
    claims: Seq<AgentConfigEvent>,
    profiles: Seq<ProfileEvent>,
    memberships: Seq<Event>,
    metadata: Seq<Event>,
    owner: Seq<char>,
)
    requires
        is_directory_row(row, claims, profiles, memberships, metadata),
        profile_owner(profiles, row.pubkey@) == Some(owner),
        exists|i: int|
            0 <= i < claims.len() && (#[trigger] claims[i]).event.pubkey@ == owner && agent_slots(
                claims,
            )[i].key == Some(row.pubkey@),
    ensures
        row.owner_pubkey.deep_view() == Some(owner),
        row.directory_state != DirectoryState::Untrusted,
{
    let slots = agent_slots(claims);
    let k = choose|i: int|
        0 <= i < claims.len() && (#[trigger] claims[i]).event.pubkey@ == owner && slots[i].key
            == Some(row.pubkey@);
    assert(slots[k].author == owner);
    let h = lemma_head_exists(slots, k);
    assert(is_agent_head(claims, h));
    assert(has_head_by(claims, row.pubkey@, owner));
    let i = choose|i: int| #![trigger is_selected(claims, profiles, i)]
            is_selected(claims, profiles, i) && row_of(row, claims[i], profiles, memberships, metadata);
    assert(row_of(row, claims[i], profiles, memberships, metadata));
}

/// Each agent has one row: no two rows share an agent.
pub proof fn law_one_row_per_agent(rows: Seq<RelayAgentInfo>)
    requires
        sorted_strings(row_pubkeys(rows)),
    ensures
        forall|p: int, q: int|
            0 <= p < q < rows.len() ==> #[trigger] rows[p].pubkey@ != #[trigger] rows[q].pubkey@,
{
    assert forall|p: int, q: int| 0 <= p < q < rows.len() implies #[trigger] rows[p].pubkey@
        != #[trigger] rows[q].pubkey@ by {
        assert(row_pubkeys(rows)[p] == rows[p].pubkey && row_pubkeys(rows)[q] == rows[q].pubkey);
        crate::text::lemma_str_lt_irreflexive(rows[p].pubkey@);
    }
}

/// The claims as a set of events.
pub open spec fn claim_set(claims: Seq<AgentConfigEvent>) -> Set<AgentConfigEvent> {
    Set::new(|c: AgentConfigEvent| claims.contains(c))
}

/// Same directory author and same agent.
pub open spec fn same_coordinate(c: AgentConfigEvent, d: AgentConfigEvent) -> bool {
    c.event.pubkey@ == d.event.pubkey@ && agent_key(c.event) == agent_key(d.event)
}

pub open spec fn claim_newer(c: AgentConfigEvent, d: AgentConfigEvent) -> bool {
    newer(c.event.created_at, c.event.id@, d.event.created_at, d.event.id@)
}

/// Two claims of one coordinate with one stamp are the same event, as
/// NIP-01 ids (hashes of the signed event) make them.
pub open spec fn stamps_identify(claims: Set<AgentConfigEvent>) -> bool {
    forall|c: AgentConfigEvent, d: AgentConfigEvent|
        #![trigger claims.contains(c), claims.contains(d)]
        claims.contains(c) && claims.contains(d) && same_coordinate(c, d) && c.event.created_at
            == d.event.created_at && c.event.id@ == d.event.id@ ==> c == d
}

/// `c` is a newest claim of its coordinate in the set.
pub open spec fn is_current(claims: Set<AgentConfigEvent>, c: AgentConfigEvent) -> bool {
    &&& claims.contains(c)
    &&& agent_key(c.event) is Some
    &&& forall|d: AgentConfigEvent|
        #![trigger claims.contains(d)]
        claims.contains(d) && same_coordinate(d, c) ==> !claim_newer(d, c)
}

/// `c` represents its agent among the claims of the set.
pub open spec fn is_chosen(
    claims: Set<AgentConfigEvent>,
    profiles: Seq<ProfileEvent>,
    c: AgentConfigEvent,
) -> bool {
    let agent = agent_key(c.event)->0;
    let owner = profile_owner(profiles, agent);
    &&& is_current(claims, c)
    &&& if owner is Some && exists|d: AgentConfigEvent|
        #![trigger is_current(claims, d)]
        is_current(claims, d) && agent_key(d.event) == Some(agent) && d.event.pubkey@ == owner->0 {
        owner == Some(c.event.pubkey@)
    } else {
        forall|d: AgentConfigEvent|
            #![trigger is_current(claims, d)]
            is_current(claims, d) && agent_key(d.event) == Some(agent) && d != c ==> str_lt(
                c.event.pubkey@,
                d.event.pubkey@,
            )
    }
}

/// All fields of two rows hold the same values.
pub open spec fn same_row(a: RelayAgentInfo, b: RelayAgentInfo) -> bool {
    &&& a.pubkey@ == b.pubkey@
    &&& a.name@ == b.name@
    &&& a.agent_type@ == b.agent_type@
    &&& a.channels.deep_view() == b.channels.deep_view()
    &&& a.channel_ids.deep_view() == b.channel_ids.deep_view()
    &&& a.capabilities.deep_view() == b.capabilities.deep_view()
    &&& a.status@ == b.status@
    &&& a.respond_to == b.respond_to
    &&& a.respond_to_allowlist.deep_view() == b.respond_to_allowlist.deep_view()
    &&& a.owner_pubkey.deep_view() == b.owner_pubkey.deep_view()
    &&& a.directory_state == b.directory_state
}

proof fn lemma_head_is_current(claims: Seq<AgentConfigEvent>, i: int)
    requires
        is_agent_head(claims, i),
    ensures
        is_current(claim_set(claims), claims[i]),
{
    let slots = agent_slots(claims);
    let set = claim_set(claims);
    assert(claims.contains(claims[i]));
    assert forall|d: AgentConfigEvent|
        #![trigger set.contains(d)]
        set.contains(d) && same_coordinate(d, claims[i]) implies !claim_newer(d, claims[i]) by {
        let j = choose|j: int| 0 <= j < claims.len() && claims[j] == d;
        assert(same_slot(slots[j], slots[i]));
    }
}

proof fn lemma_current_is_head(claims: Seq<AgentConfigEvent>, c: AgentConfigEvent) -> (h: int)
    requires
        stamps_identify(claim_set(claims)),
        is_current(claim_set(claims), c),
    ensures
        is_agent_head(claims, h),
        claims[h] == c,
{
    let slots = agent_slots(claims);
    let set = claim_set(claims);
    assert(set.contains(c));
    let i0 = choose|i: int| 0 <= i < claims.len() && claims[i] == c;
    let h = lemma_head_exists(slots, i0);
    assert(set.contains(claims[h]));
    assert(same_coordinate(claims[h], c));
    lemma_newer_total(slots[h], slots[i0]);
    assert(!slot_newer(slots[h], slots[i0]));
    assert(same_slot(slots[i0], slots[h]));
    assert(!slot_newer(slots[i0], slots[h]));
    h
}

proof fn lemma_selected_is_chosen(claims: Seq<AgentConfigEvent>, profiles: Seq<ProfileEvent>, i: int)
    requires
        stamps_identify(claim_set(claims)),
        is_selected(claims, profiles, i),
    ensures
        is_chosen(claim_set(claims), profiles, claims[i]),
{
    let slots = agent_slots(claims);
    let set = claim_set(claims);
    let c = claims[i];
    let agent = agent_key(c.event)->0;
    let owner = profile_owner(profiles, agent);
    lemma_head_is_current(claims, i);
    let by_owner = owner is Some && exists|d: AgentConfigEvent|
        #![trigger is_current(set, d)]
        is_current(set, d) && agent_key(d.event) == Some(agent) && d.event.pubkey@ == owner->0;
    if owner is Some {
        if has_head_by(claims, agent, owner->0) {
            let j = choose|j: int|
                #![trigger is_agent_head(claims, j)]
                is_agent_head(claims, j) && slots[j].key == Some(agent) && slots[j].author == owner->0;
            lemma_head_is_current(claims, j);
            assert(by_owner);
        }
        if by_owner {
            let d = choose|d: AgentConfigEvent|
                #![trigger is_current(set, d)]
                is_current(set, d) && agent_key(d.event) == Some(agent) && d.event.pubkey@ == owner->0;
            let h = lemma_current_is_head(claims, d);
            assert(is_agent_head(claims, h));
            assert(has_head_by(claims, agent, owner->0));
        }
    }
    if !by_owner {
        assert forall|d: AgentConfigEvent|
            #![trigger is_current(set, d)]
            is_current(set, d) && agent_key(d.event) == Some(agent) && d != c implies str_lt(
            c.event.pubkey@,
            d.event.pubkey@,
        ) by {
            let h = lemma_current_is_head(claims, d);
            assert(is_agent_head(claims, h));
            assert(h != i);
        }
    }
}

proof fn lemma_chosen_unique(
    claims: Set<AgentConfigEvent>,
    profiles: Seq<ProfileEvent>,
    c: AgentConfigEvent,
    d: AgentConfigEvent,
)
    requires
        stamps_identify(claims),
        is_chosen(claims, profiles, c),
        is_chosen(claims, profiles, d),
        agent_key(c.event) == agent_key(d.event),
    ensures
        c == d,
{
    let agent = agent_key(c.event)->0;
    let owner = profile_owner(profiles, agent);
    if owner is Some && exists|e: AgentConfigEvent|
        #![trigger is_current(claims, e)]
        is_current(claims, e) && agent_key(e.event) == Some(agent) && e.event.pubkey@ == owner->0 {
        assert(claims.contains(c) && claims.contains(d));
        assert(same_coordinate(c, d) && same_coordinate(d, c));
        assert(!claim_newer(c, d) && !claim_newer(d, c));
        lemma_bytes_lt_total(c.event.id@, d.event.id@);
    } else if c != d {
        assert(is_current(claims, c) && is_current(claims, d));
        lemma_str_lt_total(c.event.pubkey@, d.event.pubkey@);
    }
}

/// The memberships of two lists that hold the same events place each
/// agent in the same channels.
proof fn lemma_membership_order(memberships1: Seq<Event>, memberships2: Seq<Event>, agent: Seq<char>)
    requires
        forall|e: Event| memberships1.contains(e) <==> memberships2.contains(e),
    ensures
        forall|x: Seq<char>| in_channel(memberships1, agent, x) <==> in_channel(memberships2, agent, x),
{
    assert forall|x: Seq<char>| in_channel(memberships1, agent, x) implies in_channel(
        memberships2,
        agent,
        x,
    ) by {
        let m = choose|m: int|
            0 <= m < memberships1.len() && exactly_one_tag(
                (#[trigger] memberships1[m]).tags.deep_view(),
                "d"@,
            ) == Some(x) && lists_bot(memberships1[m], agent);
        assert(memberships1.contains(memberships1[m]));
        let n = choose|n: int| 0 <= n < memberships2.len() && memberships2[n] == memberships1[m];
        assert(memberships2[n] == memberships1[m]);
    }
    assert forall|x: Seq<char>| in_channel(memberships2, agent, x) implies in_channel(
        memberships1,
        agent,
        x,
    ) by {
        let m = choose|m: int|
            0 <= m < memberships2.len() && exactly_one_tag(
                (#[trigger] memberships2[m]).tags.deep_view(),
                "d"@,
            ) == Some(x) && lists_bot(memberships2[m], agent);
        assert(memberships2.contains(memberships2[m]));
        let n = choose|n: int| 0 <= n < memberships1.len() && memberships1[n] == memberships2[m];
        assert(memberships1[n] == memberships2[m]);
    }
}

/// Two rows of one claim agree wherever the profiles attest the same owner
/// for its agent and the memberships place its agent in the same channels.
proof fn lemma_rows_of_one_claim(
    a: RelayAgentInfo,
    b: RelayAgentInfo,
    claim: AgentConfigEvent,
    profiles_a: Seq<ProfileEvent>,
    memberships_a: Seq<Event>,
    profiles_b: Seq<ProfileEvent>,
    memberships_b: Seq<Event>,
    metadata: Seq<Event>,
)
    requires
        row_of(a, claim, profiles_a, memberships_a, metadata),
        row_of(b, claim, profiles_b, memberships_b, metadata),
        profile_owner(profiles_a, agent_key(claim.event)->0) == profile_owner(
            profiles_b,
            agent_key(claim.event)->0,
        ),
        forall|x: Seq<char>|
            in_channel(memberships_a, agent_key(claim.event)->0, x) <==> in_channel(
                memberships_b,
                agent_key(claim.event)->0,
                x,
            ),
    ensures
        same_row(a, b),
{
    let agent = agent_key(claim.event)->0;
    assert forall|x: Seq<char>| has_string(a.channel_ids@, x) <==> has_string(b.channel_ids@, x) by {
        assert(has_string(a.channel_ids@, x) <==> in_channel(memberships_a, agent, x));
        assert(has_string(b.channel_ids@, x) <==> in_channel(memberships_b, agent, x));
    }
    lemma_sorted_unique(a.channel_ids@, b.channel_ids@);
    assert(a.channel_ids.deep_view() =~= b.channel_ids.deep_view());
    assert forall|k: int| 0 <= k < a.channels@.len() implies #[trigger] a.channels@[k]@ == b.channels@[k]@ by {
        assert(a.channel_ids@[k]@ == b.channel_ids@[k]@);
    }
    assert(a.channels.deep_view() =~= b.channels.deep_view());
    assert(a.capabilities.deep_view() =~= b.capabilities.deep_view());
    match claim.content {
        Some(c) => {},
        None => {
            assert(a.respond_to_allowlist.deep_view() =~= b.respond_to_allowlist.deep_view());
        },
    }
}

/// A claim chosen under some profiles is chosen under any profiles that
/// attest the same owner for its agent.
proof fn lemma_chosen_under_profiles(
    claims: Set<AgentConfigEvent>,
    profiles1: Seq<ProfileEvent>,
    profiles2: Seq<ProfileEvent>,
    c: AgentConfigEvent,
)
    requires
        is_chosen(claims, profiles2, c),
        profile_owner(profiles1, agent_key(c.event)->0) == profile_owner(
            profiles2,
            agent_key(c.event)->0,
        ),
    ensures
        is_chosen(claims, profiles1, c),
{
}

/// The order in which the relay returns the claims, the profiles and the
/// memberships does not matter: lists of the same events project to the
/// same rows, provided that claims of one coordinate with one stamp are one
/// event, and so are profiles of one author with one stamp. (Metadata is
/// not among them: of two metadata events for one channel, the later one
/// names it.)
pub proof fn law_input_order_is_irrelevant(
    claims1: Seq<AgentConfigEvent>,
    claims2: Seq<AgentConfigEvent>,
    profiles1: Seq<ProfileEvent>,
    profiles2: Seq<ProfileEvent>,
    memberships1: Seq<Event>,
    memberships2: Seq<Event>,
    metadata: Seq<Event>,
    rows1: Seq<RelayAgentInfo>,
    rows2: Seq<RelayAgentInfo>,
)
    requires
        forall|c: AgentConfigEvent| claims1.contains(c) <==> claims2.contains(c),
        forall|p: ProfileEvent| profiles1.contains(p) <==> profiles2.contains(p),
        forall|e: Event| memberships1.contains(e) <==> memberships2.contains(e),
        stamps_identify(claim_set(claims1)),
        profile_stamps_identify(profiles1),
        is_projection(rows1, claims1, profiles1, memberships1, metadata),
        is_projection(rows2, claims2, profiles2, memberships2, metadata),
    ensures
        rows1.len() == rows2.len(),
        forall|k: int| 0 <= k < rows1.len() ==> same_row(#[trigger] rows1[k], rows2[k]),
{
    let set = claim_set(claims1);
    assert(claim_set(claims2) =~= set);
    assert forall|x: Seq<char>| claims_agent(claims1, x) <==> claims_agent(claims2, x) by {
        if claims_agent(claims1, x) {
            let i = choose|i: int| 0 <= i < claims1.len() && agent_key((#[trigger] claims1[i]).event) == Some(x);
            assert(claims1.contains(claims1[i]));
            let j = choose|j: int| 0 <= j < claims2.len() && claims2[j] == claims1[i];
            assert(agent_key(claims2[j].event) == Some(x));
        }
        if claims_agent(claims2, x) {
            let i = choose|i: int| 0 <= i < claims2.len() && agent_key((#[trigger] claims2[i]).event) == Some(x);
            assert(claims2.contains(claims2[i]));
            let j = choose|j: int| 0 <= j < claims1.len() && claims1[j] == claims2[i];
            assert(agent_key(claims1[j].event) == Some(x));
        }
    }
    assert forall|x: Seq<char>| has_string(row_pubkeys(rows1), x) <==> has_string(row_pubkeys(rows2), x) by {
        assert(has_string(row_pubkeys(rows1), x) <==> claims_agent(claims1, x));
        assert(has_string(row_pubkeys(rows2), x) <==> claims_agent(claims2, x));
    }
    lemma_sorted_unique(row_pubkeys(rows1), row_pubkeys(rows2));
    assert forall|k: int| 0 <= k < rows1.len() implies same_row(#[trigger] rows1[k], rows2[k]) by {
        assert(is_directory_row(rows1[k], claims1, profiles1, memberships1, metadata));
        assert(is_directory_row(rows2[k], claims2, profiles2, memberships2, metadata));
        let i1 = choose|i: int|
            #![trigger is_selected(claims1, profiles1, i)]
            is_selected(claims1, profiles1, i) && row_of(rows1[k], claims1[i], profiles1, memberships1, metadata);
        let i2 = choose|i: int|
            #![trigger is_selected(claims2, profiles2, i)]
            is_selected(claims2, profiles2, i) && row_of(rows2[k], claims2[i], profiles2, memberships2, metadata);
        lemma_selected_is_chosen(claims1, profiles1, i1);
        lemma_selected_is_chosen(claims2, profiles2, i2);
        assert(row_pubkeys(rows1)[k] == rows1[k].pubkey && row_pubkeys(rows2)[k] == rows2[k].pubkey);
        let agent = rows1[k].pubkey@;
        law_profile_order_is_irrelevant(profiles1, profiles2, agent);
        lemma_chosen_under_profiles(set, profiles1, profiles2, claims2[i2]);
        lemma_chosen_unique(set, profiles1, claims1[i1], claims2[i2]);
        lemma_membership_order(memberships1, memberships2, agent);
        lemma_rows_of_one_claim(
            rows1[k],
            rows2[k],
            claims1[i1],
            profiles1,
            memberships1,
            profiles2,
            memberships2,
            metadata,
        );
    }
}

/// Reordering events keeps the head of every coordinate, up to its stamp: a
/// coordinate has a head in one order exactly when it has one in the other,
/// and the two heads have the same time and id.
pub proof fn law_head_stamps_are_order_independent(s1: Seq<Slot>, s2: Seq<Slot>, i: int)
    requires
        forall|x: Slot| s1.contains(x) <==> s2.contains(x),
        is_head(s1, i),
    ensures
        exists|j: int| #![trigger is_head(s2, j)] is_head(s2, j) && same_slot(s2[j], s1[i]),
        forall|j: int|
            #![trigger is_head(s2, j)]
            is_head(s2, j) && same_slot(s2[j], s1[i]) ==> s2[j].created_at == s1[i].created_at
                && s2[j].id == s1[i].id,
{
    assert(s1.contains(s1[i]));
    let k = choose|k: int| 0 <= k < s2.len() && s2[k] == s1[i];
    let h = lemma_head_exists(s2, k);
    assert(s2.contains(s2[h]));
    let m = choose|m: int| 0 <= m < s1.len() && s1[m] == s2[h];
    assert(same_slot(s1[m], s1[i]));
    assert(!slot_newer(s1[m], s1[i]));
    assert(same_slot(s2[k], s2[h]));
    assert(!slot_newer(s2[k], s2[h]));
    lemma_newer_total(s1[i], s2[h]);
    assert forall|j: int|
        #![trigger is_head(s2, j)]
        is_head(s2, j) && same_slot(s2[j], s1[i]) implies s2[j].created_at == s1[i].created_at
            && s2[j].id == s1[i].id by {
        lemma_head_unique(s2, j, h);
    }
}

/// Reordering the claims keeps each coordinate's current claim, up to its
/// stamp: for a current claim of one author for one agent, the reordered
/// claims have a current claim of that author for that agent, with the
/// same time and id.
pub proof fn law_claim_head_stamps_are_order_independent(
    claims1: Seq<AgentConfigEvent>,
    claims2: Seq<AgentConfigEvent>,
    i: int,
)
    requires
        forall|c: AgentConfigEvent| claims1.contains(c) <==> claims2.contains(c),
        is_agent_head(claims1, i),
    ensures
        exists|j: int|
            #![trigger is_agent_head(claims2, j)]
            is_agent_head(claims2, j) && same_coordinate(claims2[j], claims1[i]),
        forall|j: int|
            #![trigger is_agent_head(claims2, j)]
            is_agent_head(claims2, j) && same_coordinate(claims2[j], claims1[i])
                ==> claims2[j].event.created_at == claims1[i].event.created_at
                && claims2[j].event.id@ == claims1[i].event.id@,
{
    let s1 = agent_slots(claims1);
    let s2 = agent_slots(claims2);
    assert forall|x: Slot| s1.contains(x) <==> s2.contains(x) by {
        if s1.contains(x) {
            let a = choose|a: int| 0 <= a < s1.len() && s1[a] == x;
            assert(claims1.contains(claims1[a]));
            let b = choose|b: int| 0 <= b < claims2.len() && claims2[b] == claims1[a];
            assert(s2[b] == x);
        }
        if s2.contains(x) {
            let a = choose|a: int| 0 <= a < s2.len() && s2[a] == x;
            assert(claims2.contains(claims2[a]));
            let b = choose|b: int| 0 <= b < claims1.len() && claims1[b] == claims2[a];
            assert(s1[b] == x);
        }
    }
    law_head_stamps_are_order_independent(s1, s2, i);
    let j = choose|j: int| #![trigger is_head(s2, j)] is_head(s2, j) && same_slot(s2[j], s1[i]);
    assert(is_agent_head(claims2, j));
}

/// Reordering the profiles keeps each author's current profile, up to its
/// stamp: for a current profile of one author, the reordered profiles have
/// a current profile of that author, with the same time and id.
pub proof fn law_profile_head_stamps_are_order_independent(
    profiles1: Seq<ProfileEvent>,
    profiles2: Seq<ProfileEvent>,
    i: int,
)
    requires
        forall|p: ProfileEvent| profiles1.contains(p) <==> profiles2.contains(p),
        is_head(profile_slots(profiles1), i),
    ensures
        exists|j: int|
            #![trigger is_head(profile_slots(profiles2), j)]
            is_head(profile_slots(profiles2), j) && profiles2[j].event.pubkey@
                == profiles1[i].event.pubkey@,
        forall|j: int|
            #![trigger is_head(profile_slots(profiles2), j)]
            is_head(profile_slots(profiles2), j) && profiles2[j].event.pubkey@
                == profiles1[i].event.pubkey@ ==> profiles2[j].event.created_at
                == profiles1[i].event.created_at && profiles2[j].event.id@
                == profiles1[i].event.id@,
{
    let s1 = profile_slots(profiles1);
    let s2 = profile_slots(profiles2);
    assert forall|x: Slot| s1.contains(x) <==> s2.contains(x) by {
        if s1.contains(x) {
            let a = choose|a: int| 0 <= a < s1.len() && s1[a] == x;
            assert(profiles1.contains(profiles1[a]));
            let b = choose|b: int| 0 <= b < profiles2.len() && profiles2[b] == profiles1[a];
            assert(s2[b] == x);
        }
        if s2.contains(x) {
            let a = choose|a: int| 0 <= a < s2.len() && s2[a] == x;
            assert(profiles2.contains(profiles2[a]));
            let b = choose|b: int| 0 <= b < profiles1.len() && profiles1[b] == profiles2[a];
            assert(s1[b] == x);
        }
    }
    law_head_stamps_are_order_independent(s1, s2, i);
    let j = choose|j: int| #![trigger is_head(s2, j)] is_head(s2, j) && same_slot(s2[j], s1[i]);
    assert(profiles2[j].event.pubkey@ == profiles1[i].event.pubkey@);
    assert forall|j: int|
        #![trigger is_head(s2, j)]
        is_head(s2, j) && profiles2[j].event.pubkey@ == profiles1[i].event.pubkey@ implies
            profiles2[j].event.created_at == profiles1[i].event.created_at && profiles2[j].event.id@
            == profiles1[i].event.id@ by {
        assert(same_slot(s2[j], s1[i]));
    }
}

/// Two profiles of one author with one stamp are the same event.
pub open spec fn profile_stamps_identify(profiles: Seq<ProfileEvent>) -> bool {
    forall|p: ProfileEvent, q: ProfileEvent|
        #![trigger profiles.contains(p), profiles.contains(q)]
        profiles.contains(p) && profiles.contains(q) && p.event.pubkey@ == q.event.pubkey@
            && p.event.created_at == q.event.created_at && p.event.id@ == q.event.id@ ==> p == q
}

proof fn lemma_profile_head_is_newest(profiles: Seq<ProfileEvent>, i: int, j: int)
    requires
        is_head(profile_slots(profiles), i),
        0 <= j < profiles.len(),
        profiles[j].event.pubkey@ == profiles[i].event.pubkey@,
    ensures
        !slot_newer(profile_slots(profiles)[j], profile_slots(profiles)[i]),
{
    let slots = profile_slots(profiles);
    assert(same_slot(slots[j], slots[i]));
}

/// The owner that the directory attributes to an agent does not depend on
/// the order in which the relay returns the profiles, provided that two
/// profiles of one author with one stamp are one event. Every other use of
/// the profiles goes through this owner.
pub proof fn law_profile_order_is_irrelevant(
    profiles1: Seq<ProfileEvent>,
    profiles2: Seq<ProfileEvent>,
    agent: Seq<char>,
)
    requires
        forall|p: ProfileEvent| profiles1.contains(p) <==> profiles2.contains(p),
        profile_stamps_identify(profiles1),
    ensures
        profile_owner(profiles1, agent) == profile_owner(profiles2, agent),
{
    let s1 = profile_slots(profiles1);
    let s2 = profile_slots(profiles2);
    if exists|i: int| is_head(s1, i) && profiles1[i].event.pubkey@ == agent {
        let i1 = choose|i: int| is_head(s1, i) && profiles1[i].event.pubkey@ == agent;
        assert(profiles1.contains(profiles1[i1]));
        let j = choose|j: int| 0 <= j < profiles2.len() && profiles2[j] == profiles1[i1];
        let h2 = lemma_head_exists(s2, j);
        assert(profiles2.contains(profiles2[h2]));
        let k = choose|k: int| 0 <= k < profiles1.len() && profiles1[k] == profiles2[h2];
        lemma_profile_head_is_newest(profiles1, i1, k);
        lemma_profile_head_is_newest(profiles2, h2, j);
        lemma_newer_total(s1[i1], s2[h2]);
        assert(profiles1[i1] == profiles2[h2]);
        let c2 = choose|i: int| is_head(s2, i) && profiles2[i].event.pubkey@ == agent;
        assert(same_slot(s2[c2], s2[h2]));
        lemma_head_unique(s2, c2, h2);
    }
    if exists|i: int| is_head(s2, i) && profiles2[i].event.pubkey@ == agent {
        let i2 = choose|i: int| is_head(s2, i) && profiles2[i].event.pubkey@ == agent;
        assert(profiles2.contains(profiles2[i2]));
        let j = choose|j: int| 0 <= j < profiles1.len() && profiles1[j] == profiles2[i2];
        let h1 = lemma_head_exists(s1, j);
        assert(profiles1[h1].event.pubkey@ == agent);
        assert(is_head(s1, h1));
    }
}

/// At most one claim represents each agent.
pub proof fn law_one_claim_represents_each_agent(
    claims: Seq<AgentConfigEvent>,
    profiles: Seq<ProfileEvent>,
    i: int,
    j: int,
)
    requires
        is_selected(claims, profiles, i),
        is_selected(claims, profiles, j),
        agent_slots(claims)[i].key == agent_slots(claims)[j].key,
    ensures
        i == j,
{
    let slots = agent_slots(claims);
    let agent = slots[i].key->0;
    let owner = profile_owner(profiles, agent);
    if owner is Some && has_head_by(claims, agent, owner->0) {
        assert(same_slot(slots[i], slots[j]));
        lemma_head_unique(slots, i, j);
    } else if i != j {
        assert(is_agent_head(claims, j) && is_agent_head(claims, i));
        lemma_str_lt_total(slots[i].author, slots[j].author);
    }
}

/// A claim's content is complete exactly when it has a name that is not
/// blank, a `respond_to` of one of the four policy spellings, an accepted
/// allowlist, and, for the allowlist policy, at least one allowlist entry.
/// Complete content resolves; anything else is incomplete.
pub proof fn law_content_completeness(c: DirectoryContent)
    ensures
        content_directory_state(c) == DirectoryState::Resolved || content_directory_state(c)
            == DirectoryState::Incomplete,
        (content_directory_state(c) == DirectoryState::Resolved) <==> {
            &&& c.name.deep_view() matches Some(n) && trim(n).len() > 0
            &&& c.respond_to.deep_view() matches Some(t) && (t == "owner-only"@ || t == "allowlist"@
                || t == "anyone"@ || t == "nobody"@)
            &&& c.respond_to_allowlist is Some
            &&& c.respond_to.deep_view() == Some("allowlist"@) ==> c.respond_to_allowlist->0@.len()
                > 0
        },
{
    reveal_strlit("owner-only");
    reveal_strlit("allowlist");
    reveal_strlit("anyone");
    reveal_strlit("nobody");
    assert("owner-only"@.len() == 10 && "allowlist"@.len() == 9);
    assert("anyone"@.len() == 6 && "nobody"@.len() == 6);
    assert("anyone"@[0] == 'a' && "nobody"@[0] == 'n');
    assert("owner-only"@ != "allowlist"@);
    if c.respond_to.deep_view() == Some("allowlist"@) {
        assert(policy_named(c.respond_to.deep_view()) == Some(DirectoryRespondTo::Allowlist));
    }
    if policy_named(c.respond_to.deep_view()) == Some(DirectoryRespondTo::Allowlist) {
        assert(c.respond_to.deep_view() == Some("allowlist"@));
    }
}

/// Under any policy other than the allowlist one, which entries an accepted
/// allowlist holds does not change whether the content is complete.
pub proof fn law_allowlist_entries_matter_only_for_allowlist_policy(
    c1: DirectoryContent,
    c2: DirectoryContent,
)
    requires
        c1.name.deep_view() == c2.name.deep_view(),
        c1.respond_to.deep_view() == c2.respond_to.deep_view(),
        c1.respond_to.deep_view() != Some("allowlist"@),
        c1.respond_to_allowlist is Some,
        c2.respond_to_allowlist is Some,
    ensures
        content_directory_state(c1) == content_directory_state(c2),
{
    law_content_completeness(c1);
    law_content_completeness(c2);
}

/// A claim whose content is complete, by an owner that the agent's current
/// profile attests, is resolved.
pub proof fn law_attested_complete_claim_resolves(
    row: RelayAgentInfo,
    claim: AgentConfigEvent,
    profiles: Seq<ProfileEvent>,
    memberships: Seq<Event>,
    metadata: Seq<Event>,
    c: DirectoryContent,
)
    requires
        row_of(row, claim, profiles, memberships, metadata),
        claim.content == Some(c),
        profile_owner(profiles, agent_key(claim.event)->0) == Some(claim.event.pubkey@),
        c.name.deep_view() matches Some(n) && trim(n).len() > 0,
        c.respond_to.deep_view() matches Some(t) && (t == "owner-only"@ || t == "allowlist"@ || t
            == "anyone"@ || t == "nobody"@),
        c.respond_to_allowlist is Some,
        c.respond_to.deep_view() == Some("allowlist"@) ==> c.respond_to_allowlist->0@.len() > 0,
    ensures
        row.directory_state == DirectoryState::Resolved,
{
    law_content_completeness(c);
}

/// An accepted allowlist is read whole: every entry, in order.
pub proof fn law_allowlist_is_kept_whole(c: DirectoryContent, list: Vec<String>)
    requires
        c.respond_to_allowlist == Some(list),
    ensures
        allowlist_or_empty(c).len() == list@.len(),
        forall|k: int| 0 <= k < list@.len() ==> #[trigger] allowlist_or_empty(c)[k] == list@[k]@,
{
}

/// A row carries its claim's accepted allowlist whole, and none where the
/// allowlist was refused or the content unreadable.
pub proof fn law_row_allowlist_is_the_claims(
    row: RelayAgentInfo,
    claim: AgentConfigEvent,
    profiles: Seq<ProfileEvent>,
    memberships: Seq<Event>,
    metadata: Seq<Event>,
)
    requires
        row_of(row, claim, profiles, memberships, metadata),
    ensures
        claim.content is Some && claim.content->0.respond_to_allowlist is Some ==> {
            let list = claim.content->0.respond_to_allowlist->0;
            &&& row.respond_to_allowlist@.len() == list@.len()
            &&& forall|k: int|
                0 <= k < list@.len() ==> #[trigger] row.respond_to_allowlist@[k]@ == list@[k]@
        },
        !(claim.content matches Some(c) && c.respond_to_allowlist is Some)
            ==> row.respond_to_allowlist@.len() == 0,
{
    match claim.content {
        Some(c) => {
            match c.respond_to_allowlist {
                Some(list) => {
                    let rv = row.respond_to_allowlist.deep_view();
                    let lv = list.deep_view();
                    assert(allowlist_or_empty(c) == lv);
                    assert(rv == lv);
                    assert(rv.len() == row.respond_to_allowlist@.len());
                    assert(lv.len() == list@.len());
                    assert forall|k: int| 0 <= k < list@.len() implies #[trigger] row.respond_to_allowlist@[k]@
                        == list@[k]@ by {
                        assert(rv[k] == row.respond_to_allowlist@[k].deep_view());
                        assert(lv[k] == list@[k].deep_view());
                    }
                },
                None => {
                    assert(row.respond_to_allowlist.deep_view().len() == row.respond_to_allowlist@.len());
                },
            }
        },
        None => {},
    }
}

/// Every bot-role `p` tag of a membership counts, wherever it stands among
/// the tags: the membership lists the agent that the tag names.
pub proof fn law_every_bot_tag_lists_its_agent(event: Event, k: int, agent: Seq<char>)
    requires
        0 <= k < event.tags.deep_view().len(),
        event.tags.deep_view()[k].len() > 3,
        event.tags.deep_view()[k][0] == "p"@,
        event.tags.deep_view()[k][3] == "bot"@,
        canonical_key(event.tags.deep_view()[k][1]) == Some(agent),
    ensures
        lists_bot(event, agent),
{
    assert(is_bot_tag_for(event.tags.deep_view()[k], agent));
}

/// A row lists every channel whose membership (with a single channel tag)
/// has a bot-role `p` tag for the row's agent, at any position, and no
/// other channel.
pub proof fn law_row_lists_every_bot_membership(
    row: RelayAgentInfo,
    claim: AgentConfigEvent,
    profiles: Seq<ProfileEvent>,
    memberships: Seq<Event>,
    metadata: Seq<Event>,
    m: int,
    k: int,
    channel: Seq<char>,
)
    requires
        row_of(row, claim, profiles, memberships, metadata),
        0 <= m < memberships.len(),
        exactly_one_tag(memberships[m].tags.deep_view(), "d"@) == Some(channel),
        0 <= k < memberships[m].tags.deep_view().len(),
        memberships[m].tags.deep_view()[k].len() > 3,
        memberships[m].tags.deep_view()[k][0] == "p"@,
        memberships[m].tags.deep_view()[k][3] == "bot"@,
        canonical_key(memberships[m].tags.deep_view()[k][1]) == Some(row.pubkey@),
    ensures
        has_string(row.channel_ids@, channel),
{
    law_every_bot_tag_lists_its_agent(memberships[m], k, row.pubkey@);
    assert(in_channel(memberships, agent_key(claim.event)->0, channel));
}

/// A name tag with a value that is not blank.
pub open spec fn is_name_tag(tag: Seq<Seq<char>>) -> bool {
    tag.len() >= 2 && tag[0] == "name"@ && trim(tag[1]).len() > 0
}

/// A channel's name is the whole trimmed value of its first name tag that is
/// not blank (inner spaces included), and there is none without such a tag.
pub proof fn law_channel_name_is_first_name_tag(tags: Seq<Seq<Seq<char>>>)
    ensures
        forall|k: int|
            0 <= k < tags.len() && is_name_tag(#[trigger] tags[k]) && (forall|j: int|
                0 <= j < k ==> !is_name_tag(tags[j])) ==> first_channel_name(tags) == Some(
                trim(tags[k][1]),
            ),
        (forall|k: int| 0 <= k < tags.len() ==> !is_name_tag(#[trigger] tags[k]))
            ==> first_channel_name(tags) is None,
    decreases tags.len(),
{
    if tags.len() > 0 {
        let rest = tags.drop_first();
        law_channel_name_is_first_name_tag(rest);
        assert forall|k: int|
            0 <= k < tags.len() && is_name_tag(#[trigger] tags[k]) && (forall|j: int|
                0 <= j < k ==> !is_name_tag(tags[j])) implies first_channel_name(tags) == Some(
            trim(tags[k][1]),
        ) by {
            if k > 0 {
                assert(!is_name_tag(tags[0]));
                assert(rest[k - 1] == tags[k]);
                assert forall|j: int| 0 <= j < k - 1 implies !is_name_tag(rest[j]) by {
                    assert(rest[j] == tags[j + 1]);
                }
                assert(is_name_tag(rest[k - 1]));
            }
        }
        if forall|k: int| 0 <= k < tags.len() ==> !is_name_tag(#[trigger] tags[k]) {
            assert forall|k: int| 0 <= k < rest.len() implies !is_name_tag(#[trigger] rest[k]) by {
                assert(rest[k] == tags[k + 1]);
            }
            assert(!is_name_tag(tags[0]));
        }
    }
}

/// A channel is named by the last metadata event that has it as its single
/// channel tag: that event's first name tag, or the channel id where it has
/// none; a channel without metadata is named by its id.
pub proof fn law_channel_named_by_last_metadata(metadata: Seq<Event>, channel: Seq<char>)
    ensures
        forall|m: int|
            0 <= m < metadata.len() && exactly_one_tag(
                (#[trigger] metadata[m]).tags.deep_view(),
                "d"@,
            ) == Some(channel) && (forall|l: int|
                m < l < metadata.len() ==> exactly_one_tag(metadata[l].tags.deep_view(), "d"@)
                    != Some(channel)) ==> channel_name(metadata, channel) == match first_channel_name(
                metadata[m].tags.deep_view(),
            ) {
                Some(name) => name,
                None => channel,
            },
        (forall|m: int|
            0 <= m < metadata.len() ==> exactly_one_tag((#[trigger] metadata[m]).tags.deep_view(), "d"@)
                != Some(channel)) ==> channel_name(metadata, channel) == channel,
    decreases metadata.len(),
{
    if metadata.len() > 0 {
        let rest = metadata.drop_last();
        law_channel_named_by_last_metadata(rest, channel);
        let last = metadata.len() - 1;
        assert forall|m: int|
            0 <= m < metadata.len() && exactly_one_tag(
                (#[trigger] metadata[m]).tags.deep_view(),
                "d"@,
            ) == Some(channel) && (forall|l: int|
                m < l < metadata.len() ==> exactly_one_tag(metadata[l].tags.deep_view(), "d"@)
                    != Some(channel)) implies channel_name(metadata, channel) == match first_channel_name(
            metadata[m].tags.deep_view(),
        ) {
            Some(name) => name,
            None => channel,
        } by {
            if m < last {
                assert(exactly_one_tag(metadata[last].tags.deep_view(), "d"@) != Some(channel));
                assert(rest[m] == metadata[m]);
                assert forall|l: int| m < l < rest.len() implies exactly_one_tag(
                    rest[l].tags.deep_view(),
                    "d"@,
                ) != Some(channel) by {
                    assert(rest[l] == metadata[l]);
                }
            }
        }
        if forall|m: int|
            0 <= m < metadata.len() ==> exactly_one_tag((#[trigger] metadata[m]).tags.deep_view(), "d"@)
                != Some(channel) {
            assert(exactly_one_tag(metadata[last].tags.deep_view(), "d"@) != Some(channel));
            assert forall|m: int| 0 <= m < rest.len() implies exactly_one_tag(
                (#[trigger] rest[m]).tags.deep_view(),
                "d"@,
            ) != Some(channel) by {
                assert(rest[m] == metadata[m]);
            }
        }
    }
}

} // verus!

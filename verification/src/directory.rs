//! The public managed-agent directory: which directory claims (kind 30177)
//! stand for which agent, whether the agent's profile backs them, and the
//! relay rows they project to.
//!
//! A claim is owner-authored state, and the agent identity is its sole `d`
//! tag. Claims that are present but invalid stay visible as non-invocable
//! rows, so that they cannot fall through to membership discovery.
use vstd::prelude::*;

use crate::event::{exactly_one_tag, exactly_one_tag_value, Event};
use crate::heads::{
    head_flags, is_head, lemma_head_exists, lemma_head_unique, same_opt_key, same_slot, slot_views,
    HeadSlot, Slot,
};
use crate::policy::{
    allowlist_or_empty, content_directory_state, content_state, display_name, policy_named,
    DirectoryContent, DirectoryRespondTo, DirectoryState,
};
use crate::pubkey::{canonical_key, canonical_public_key};
use crate::text::{
    has_string, insert_keyed, insert_sorted, keys_of, lemma_has_string_push, lemma_str_lt_total,
    lemma_str_lt_transitive, sorted_strings, str_equal, str_less, str_lt, trim, trimmed,
};

verus! {

/// A directory claim (kind 30177): the signed event, and its content read as
/// a directory configuration (`None` where the content is no such object).
pub struct AgentConfigEvent {
    pub event: Event,
    pub content: Option<DirectoryContent>,
}

/// An agent profile (kind 0): the signed event, and the owner public key that
/// a valid NIP-OA attestation in it names (`None` where it has none).
pub struct ProfileEvent {
    pub event: Event,
    pub oa_owner: Option<String>,
}

/// One row of the relay directory.
#[derive(Debug, Clone, PartialEq, Eq)]
pub struct RelayAgentInfo {
    pub pubkey: String,
    pub name: String,
    pub agent_type: String,
    pub channels: Vec<String>,
    pub channel_ids: Vec<String>,
    pub capabilities: Vec<String>,
    pub status: String,
    pub respond_to: Option<DirectoryRespondTo>,
    pub respond_to_allowlist: Vec<String>,
    pub owner_pubkey: Option<String>,
    pub directory_state: DirectoryState,
}

/// The agent a claim stands for: the canonical form of its single `d` tag.
pub open spec fn agent_key(event: Event) -> Option<Seq<char>> {
    match exactly_one_tag(event.tags.deep_view(), "d"@) {
        Some(d) => canonical_key(d),
        None => None,
    }
}

/// Claims keyed by (directory author, agent).
pub open spec fn agent_slots(claims: Seq<AgentConfigEvent>) -> Seq<Slot> {
    Seq::new(
        claims.len(),
        |i: int|
            Slot {
                author: claims[i].event.pubkey@,
                created_at: claims[i].event.created_at,
                id: claims[i].event.id@,
                key: agent_key(claims[i].event),
            },
    )
}

/// Profiles keyed by their author alone.
pub open spec fn profile_slots(profiles: Seq<ProfileEvent>) -> Seq<Slot> {
    Seq::new(
        profiles.len(),
        |i: int|
            Slot {
                author: profiles[i].event.pubkey@,
                created_at: profiles[i].event.created_at,
                id: profiles[i].event.id@,
                key: Some(Seq::empty()),
            },
    )
}

/// The owner that the agent's current profile attests, if any.
pub open spec fn profile_owner(profiles: Seq<ProfileEvent>, agent: Seq<char>) -> Option<Seq<char>> {
    let slots = profile_slots(profiles);
    if exists|i: int| is_head(slots, i) && profiles[i].event.pubkey@ == agent {
        let i = choose|i: int| is_head(slots, i) && profiles[i].event.pubkey@ == agent;
        profiles[i].oa_owner.deep_view()
    } else {
        None
    }
}

/// `claims[i]` is a current claim for its agent by its author.
pub open spec fn is_agent_head(claims: Seq<AgentConfigEvent>, i: int) -> bool {
    is_head(agent_slots(claims), i)
}

/// Some current claim for `agent` is by `owner`.
pub open spec fn has_head_by(claims: Seq<AgentConfigEvent>, agent: Seq<char>, owner: Seq<char>) -> bool {
    exists|j: int|
        #![trigger is_agent_head(claims, j)]
        is_agent_head(claims, j) && agent_slots(claims)[j].key == Some(agent) && agent_slots(
            claims,
        )[j].author == owner
}

/// `claims[i]` is the claim that represents its agent: the current claim by
/// the owner that the agent's profile attests, or, where there is none, the
/// current claim whose author comes first.
pub open spec fn is_selected(
    claims: Seq<AgentConfigEvent>,
    profiles: Seq<ProfileEvent>,
    i: int,
) -> bool {
    let slots = agent_slots(claims);
    let agent = slots[i].key->0;
    let owner = profile_owner(profiles, agent);
    &&& is_agent_head(claims, i)
    &&& if owner is Some && has_head_by(claims, agent, owner->0) {
        owner == Some(slots[i].author)
    } else {
        forall|j: int|
            #![trigger is_agent_head(claims, j)]
            is_agent_head(claims, j) && slots[j].key == Some(agent) && j != i ==> str_lt(
                slots[i].author,
                slots[j].author,
            )
    }
}

/// A membership tag that lists `agent` in the bot role.
pub open spec fn is_bot_tag_for(tag: Seq<Seq<char>>, agent: Seq<char>) -> bool {
    &&& tag.len() > 3
    &&& tag[0] == "p"@
    &&& tag[3] == "bot"@
    &&& canonical_key(tag[1]) == Some(agent)
}

/// The membership event lists `agent` as a bot.
pub open spec fn lists_bot(event: Event, agent: Seq<char>) -> bool {
    exists|k: int|
        0 <= k < event.tags.deep_view().len() && is_bot_tag_for(
            #[trigger] event.tags.deep_view()[k],
            agent,
        )
}

/// Some membership event of the channel lists `agent` as a bot.
pub open spec fn in_channel(memberships: Seq<Event>, agent: Seq<char>, channel: Seq<char>) -> bool {
    exists|m: int|
        0 <= m < memberships.len() && exactly_one_tag(
            (#[trigger] memberships[m]).tags.deep_view(),
            "d"@,
        ) == Some(channel) && lists_bot(memberships[m], agent)
}

/// The value of the first `name` tag that is not blank, trimmed.
pub open spec fn first_channel_name(tags: Seq<Seq<Seq<char>>>) -> Option<Seq<char>>
    decreases tags.len(),
{
    if tags.len() == 0 {
        None
    } else if tags[0].len() >= 2 && tags[0][0] == "name"@ && trim(tags[0][1]).len() > 0 {
        Some(trim(tags[0][1]))
    } else {
        first_channel_name(tags.drop_first())
    }
}

/// The display name of a channel: that of the last metadata event for it,
/// or the channel id where none names it.
pub open spec fn channel_name(metadata: Seq<Event>, channel: Seq<char>) -> Seq<char>
    decreases metadata.len(),
{
    if metadata.len() == 0 {
        channel
    } else if exactly_one_tag(metadata.last().tags.deep_view(), "d"@) == Some(channel) {
        match first_channel_name(metadata.last().tags.deep_view()) {
            Some(name) => name,
            None => channel,
        }
    } else {
        channel_name(metadata.drop_last(), channel)
    }
}

/// `row` is the row that `claim` projects to, as the claim that represents
/// its agent.
pub open spec fn row_of(
    row: RelayAgentInfo,
    claim: AgentConfigEvent,
    profiles: Seq<ProfileEvent>,
    memberships: Seq<Event>,
    metadata: Seq<Event>,
) -> bool {
    let agent = agent_key(claim.event)->0;
    let owner = claim.event.pubkey@;
    &&& row.pubkey@ == agent
    &&& row.owner_pubkey.deep_view() == Some(owner)
    &&& row.agent_type@ == "agent"@
    &&& row.status@ == "offline"@
    &&& row.capabilities@.len() == 0
    &&& match claim.content {
        Some(c) => {
            &&& row.name@ == match display_name(c.name.deep_view()) {
                Some(n) => n,
                None => "Unknown agent"@,
            }
            &&& row.respond_to == policy_named(c.respond_to.deep_view())
            &&& row.respond_to_allowlist.deep_view() == allowlist_or_empty(c)
        },
        None => {
            &&& row.name@ == "Unknown agent"@
            &&& row.respond_to is None
            &&& row.respond_to_allowlist@.len() == 0
        },
    }
    &&& row.directory_state == if profile_owner(profiles, agent) == Some(owner) {
        match claim.content {
            Some(c) => content_directory_state(c),
            None => DirectoryState::Incomplete,
        }
    } else {
        DirectoryState::Untrusted
    }
    &&& sorted_strings(row.channel_ids@)
    &&& forall|x: Seq<char>| has_string(row.channel_ids@, x) <==> in_channel(memberships, agent, x)
    &&& row.channels@.len() == row.channel_ids@.len()
    &&& forall|k: int|
        0 <= k < row.channels@.len() ==> #[trigger] row.channels@[k]@ == channel_name(
            metadata,
            row.channel_ids@[k]@,
        )
}

/// `row` is the row of the claim that represents its agent.
pub open spec fn is_directory_row(
    row: RelayAgentInfo,
    claims: Seq<AgentConfigEvent>,
    profiles: Seq<ProfileEvent>,
    memberships: Seq<Event>,
    metadata: Seq<Event>,
) -> bool {
    exists|i: int|
        #![trigger is_selected(claims, profiles, i)]
        is_selected(claims, profiles, i) && row_of(row, claims[i], profiles, memberships, metadata)
}

/// The agents that some claim stands for.
pub open spec fn claims_agent(claims: Seq<AgentConfigEvent>, agent: Seq<char>) -> bool {
    exists|i: int| 0 <= i < claims.len() && agent_key((#[trigger] claims[i]).event) == Some(agent)
}

pub open spec fn row_pubkeys(rows: Seq<RelayAgentInfo>) -> Seq<String> {
    Seq::new(rows.len(), |k: int| rows[k].pubkey)
}

/// `rows` is the directory that the events project to: one row per agent
/// that some claim identifies, in agent order, each the row of the claim
/// that represents the agent.
pub open spec fn is_projection(
    rows: Seq<RelayAgentInfo>,
    claims: Seq<AgentConfigEvent>,
    profiles: Seq<ProfileEvent>,
    memberships: Seq<Event>,
    metadata: Seq<Event>,
) -> bool {
    &&& sorted_strings(row_pubkeys(rows))
    &&& forall|x: Seq<char>| has_string(row_pubkeys(rows), x) <==> claims_agent(claims, x)
    &&& forall|k: int|
        0 <= k < rows.len() ==> is_directory_row(
            #[trigger] rows[k],
            claims,
            profiles,
            memberships,
            metadata,
        )
}

/// The first current claim for `agent`, by author order, among the first
/// `n` claims.
proof fn lemma_first_author(claims: Seq<AgentConfigEvent>, agent: Seq<char>, n: int) -> (h: int)
    requires
        0 < n <= claims.len(),
        exists|k: int|
            #![trigger is_agent_head(claims, k)]
            0 <= k < n && is_agent_head(claims, k) && agent_slots(claims)[k].key == Some(agent),
    ensures
        0 <= h < n,
        is_agent_head(claims, h),
        agent_slots(claims)[h].key == Some(agent),
        forall|j: int|
            #![trigger is_agent_head(claims, j)]
            0 <= j < n && is_agent_head(claims, j) && agent_slots(claims)[j].key == Some(agent) && j
                != h ==> str_lt(agent_slots(claims)[h].author, agent_slots(claims)[j].author),
    decreases n,
{
    let slots = agent_slots(claims);
    let m = n - 1;
    let m_counts = is_agent_head(claims, m) && slots[m].key == Some(agent);
    if exists|k: int|
        #![trigger is_agent_head(claims, k)]
        0 <= k < m && is_agent_head(claims, k) && slots[k].key == Some(agent) {
        let p = lemma_first_author(claims, agent, m);
        if m_counts {
            lemma_str_lt_total(slots[m].author, slots[p].author);
            if slots[m].author == slots[p].author {
                assert(same_slot(slots[m], slots[p]));
                lemma_head_unique(slots, m, p);
            }
            if str_lt(slots[m].author, slots[p].author) {
                assert forall|j: int|
                    #![trigger is_agent_head(claims, j)]
                    0 <= j < n && is_agent_head(claims, j) && slots[j].key == Some(agent) && j != m
                        implies str_lt(slots[m].author, slots[j].author) by {
                    if j != p {
                        lemma_str_lt_transitive(slots[m].author, slots[p].author, slots[j].author);
                    }
                }
                m
            } else {
                p
            }
        } else {
            p
        }
    } else {
        m
    }
}

/// Every agent that some claim stands for has a claim that represents it.
pub proof fn lemma_selected_exists(
    claims: Seq<AgentConfigEvent>,
    profiles: Seq<ProfileEvent>,
    agent: Seq<char>,
) -> (i: int)
    requires
        claims_agent(claims, agent),
    ensures
        0 <= i < claims.len(),
        is_selected(claims, profiles, i),
        agent_slots(claims)[i].key == Some(agent),
{
    let slots = agent_slots(claims);
    let i0 = choose|i: int| 0 <= i < claims.len() && agent_key((#[trigger] claims[i]).event) == Some(agent);
    assert(slots[i0].key == Some(agent));
    let h = lemma_head_exists(slots, i0);
    let owner = profile_owner(profiles, agent);
    if owner is Some && has_head_by(claims, agent, owner->0) {
        let j = choose|j: int|
            #![trigger is_agent_head(claims, j)]
            is_agent_head(claims, j) && slots[j].key == Some(agent) && slots[j].author == owner->0;
        j
    } else {
        assert(is_agent_head(claims, h));
        lemma_first_author(claims, agent, claims.len() as int)
    }
}

/// The coordinates of the claims.
fn agent_slot_list(claims: &[AgentConfigEvent]) -> (r: Vec<HeadSlot>)
    ensures
        slot_views(r@) == agent_slots(claims@),
{
    let mut r: Vec<HeadSlot> = Vec::new();
    let mut i: usize = 0;
    while i < claims.len()
        invariant
            i <= claims@.len(),
            r@.len() == i,
            forall|k: int| 0 <= k < i ==> #[trigger] r@[k]@ == agent_slots(claims@)[k],
        decreases claims@.len() - i,
    {
        let event = &claims[i].event;
        let key = match exactly_one_tag_value(event, "d") {
            Some(d) => canonical_public_key(d.as_str()),
            None => None,
        };
        r.push(HeadSlot { author: event.pubkey.clone(), created_at: event.created_at, id: event.id, key });
        i = i + 1;
    }
    assert(slot_views(r@) =~= agent_slots(claims@));
    r
}

/// The coordinates of the profiles.
fn profile_slot_list(profiles: &[ProfileEvent]) -> (r: Vec<HeadSlot>)
    ensures
        slot_views(r@) == profile_slots(profiles@),
{
    let mut r: Vec<HeadSlot> = Vec::new();
    let mut i: usize = 0;
    while i < profiles.len()
        invariant
            i <= profiles@.len(),
            r@.len() == i,
            forall|k: int| 0 <= k < i ==> #[trigger] r@[k]@ == profile_slots(profiles@)[k],
        decreases profiles@.len() - i,
    {
        let event = &profiles[i].event;
        r.push(
            HeadSlot {
                author: event.pubkey.clone(),
                created_at: event.created_at,
                id: event.id,
                key: Some(String::new()),
            },
        );
        i = i + 1;
    }
    assert(slot_views(r@) =~= profile_slots(profiles@));
    r
}

/// The owner that the current profile of `agent` attests.
fn profile_owner_of(profiles: &[ProfileEvent], heads: &Vec<bool>, agent: &String) -> (r: Option<
    String,
>)
    requires
        heads@.len() == profiles@.len(),
        forall|i: int| 0 <= i < profiles@.len() ==> heads@[i] == is_head(profile_slots(profiles@), i),
    ensures
        r.deep_view() == profile_owner(profiles@, agent@),
{
    let ghost slots = profile_slots(profiles@);
    let mut i: usize = 0;
    while i < profiles.len()
        invariant
            i <= profiles@.len(),
            heads@.len() == profiles@.len(),
            slots == profile_slots(profiles@),
            forall|k: int| 0 <= k < profiles@.len() ==> heads@[k] == is_head(slots, k),
            forall|k: int| 0 <= k < i ==> !(is_head(slots, k) && profiles@[k].event.pubkey@ == agent@),
        decreases profiles@.len() - i,
    {
        if heads[i] && profiles[i].event.pubkey == *agent {
            proof {
                assert(is_head(slots, i as int) && profiles@[i as int].event.pubkey@ == agent@);
                let c = choose|c: int| is_head(slots, c) && profiles@[c].event.pubkey@ == agent@;
                assert(same_slot(slots[c], slots[i as int]));
                lemma_head_unique(slots, c, i as int);
            }
            return match &profiles[i].oa_owner {
                Some(owner) => Some(owner.clone()),
                None => None,
            };
        }
        i = i + 1;
    }
    None
}

/// Whether the current claim `claims[i]` represents its agent, given the
/// owner that the agent's profile attests.
fn selects(
    claims: &[AgentConfigEvent],
    profiles: &[ProfileEvent],
    slots: &Vec<HeadSlot>,
    heads: &Vec<bool>,
    owner: &Option<String>,
    i: usize,
) -> (r: bool)
    requires
        slot_views(slots@) == agent_slots(claims@),
        heads@.len() == claims@.len(),
        forall|k: int| 0 <= k < claims@.len() ==> heads@[k] == is_agent_head(claims@, k),
        is_agent_head(claims@, i as int),
        owner.deep_view() == profile_owner(profiles@, agent_slots(claims@)[i as int].key->0),
    ensures
        r == is_selected(claims@, profiles@, i as int),
{
    let ghost sv = agent_slots(claims@);
    let ghost agent = sv[i as int].key->0;
    assert(slot_views(slots@)[i as int] == slots@[i as int]@);
    let n = slots.len();
    let mut matched = false;
    if let Some(o) = owner {
        let mut j: usize = 0;
        while j < n
            invariant
                j <= n,
                n == claims@.len(),
                n == slots@.len(),
                slot_views(slots@) == sv,
                sv == agent_slots(claims@),
                heads@.len() == n,
                forall|k: int| 0 <= k < n ==> heads@[k] == is_agent_head(claims@, k),
                i < n,
                agent == sv[i as int].key->0,
                is_agent_head(claims@, i as int),
                slots@[i as int]@ == sv[i as int],
                matched ==> has_head_by(claims@, agent, o@),
                !matched ==> forall|k: int|
                    #![trigger is_agent_head(claims@, k)]
                    0 <= k < j ==> !(is_agent_head(claims@, k) && sv[k].key == Some(agent)
                        && sv[k].author == o@),
            decreases n - j,
        {
            assert(slot_views(slots@)[j as int] == slots@[j as int]@);
            if heads[j] && same_opt_key(&slots[j].key, &slots[i].key) && slots[j].author == *o {
                matched = true;
            }
            j = j + 1;
        }
        proof {
            if !matched {
                assert forall|k: int|
                    #![trigger is_agent_head(claims@, k)]
                    is_agent_head(claims@, k) && sv[k].key == Some(agent) implies sv[k].author
                    != o@ by {}
            }
        }
    }
    if matched {
        match owner {
            Some(o) => *o == slots[i].author,
            None => false,
        }
    } else {
        let mut j: usize = 0;
        while j < n
            invariant
                j <= n,
                n == claims@.len(),
                n == slots@.len(),
                slot_views(slots@) == sv,
                sv == agent_slots(claims@),
                heads@.len() == n,
                forall|k: int| 0 <= k < n ==> heads@[k] == is_agent_head(claims@, k),
                i < n,
                agent == sv[i as int].key->0,
                is_agent_head(claims@, i as int),
                slots@[i as int]@ == sv[i as int],
                owner.deep_view() == profile_owner(profiles@, agent),
                !(owner.deep_view() is Some && has_head_by(claims@, agent, owner.deep_view()->0)),
                forall|k: int|
                    #![trigger is_agent_head(claims@, k)]
                    0 <= k < j && is_agent_head(claims@, k) && sv[k].key == Some(agent) && k != i
                        ==> str_lt(sv[i as int].author, sv[k].author),
            decreases n - j,
        {
            assert(slot_views(slots@)[j as int] == slots@[j as int]@);
            if heads[j] && j != i && same_opt_key(&slots[j].key, &slots[i].key) && !str_less(
                slots[i].author.as_str(),
                slots[j].author.as_str(),
            ) {
                return false;
            }
            j = j + 1;
        }
        true
    }
}

/// The canonical keys that the event lists in the bot role.
fn bot_keys(event: &Event) -> (r: Vec<String>)
    ensures
        forall|x: Seq<char>| has_string(r@, x) <==> lists_bot(*event, x),
{
    let tags = &event.tags;
    let ghost dv = tags.deep_view();
    let mut r: Vec<String> = Vec::new();
    let mut k: usize = 0;
    while k < tags.len()
        invariant
            k <= tags@.len(),
            dv == tags.deep_view(),
            dv == event.tags.deep_view(),
            forall|x: Seq<char>|
                has_string(r@, x) <==> exists|j: int| 0 <= j < k && is_bot_tag_for(#[trigger] dv[j], x),
        decreases tags@.len() - k,
    {
        let tag = &tags[k];
        assert(dv[k as int] == tag.deep_view());
        let ghost before = r@;
        if tag.len() > 3 && str_equal(tag[0].as_str(), "p") && str_equal(tag[3].as_str(), "bot") {
            match canonical_public_key(tag[1].as_str()) {
                Some(key) => {
                    proof {
                        assert forall|x: Seq<char>| has_string(before.push(key), x) <==> exists|j: int|
                            0 <= j < k + 1 && is_bot_tag_for(#[trigger] dv[j], x) by {
                            lemma_has_string_push(before, key, x);
                            if is_bot_tag_for(dv[k as int], x) {
                                assert(x == key@);
                            }
                        }
                    }
                    r.push(key);
                },
                None => {
                    assert forall|x: Seq<char>| has_string(r@, x) <==> exists|j: int|
                        0 <= j < k + 1 && is_bot_tag_for(#[trigger] dv[j], x) by {
                        assert(!is_bot_tag_for(dv[k as int], x));
                    }
                },
            }
        } else {
            assert forall|x: Seq<char>| has_string(r@, x) <==> exists|j: int|
                0 <= j < k + 1 && is_bot_tag_for(#[trigger] dv[j], x) by {
                assert(!is_bot_tag_for(dv[k as int], x));
            }
        }
        k = k + 1;
    }
    r
}

/// What a membership event says: its channel and, where it has one, the
/// agents that it lists as bots.
struct MemberInfo {
    channel: Option<String>,
    bots: Vec<String>,
}

spec fn member_info_ok(info: MemberInfo, event: Event) -> bool {
    &&& info.channel.deep_view() == exactly_one_tag(event.tags.deep_view(), "d"@)
    &&& info.channel is Some ==> forall|x: Seq<char>| has_string(info.bots@, x) <==> lists_bot(event, x)
}

fn member_infos(memberships: &[Event]) -> (r: Vec<MemberInfo>)
    ensures
        r@.len() == memberships@.len(),
        forall|m: int| 0 <= m < r@.len() ==> member_info_ok(#[trigger] r@[m], memberships@[m]),
{
    let mut r: Vec<MemberInfo> = Vec::new();
    let mut m: usize = 0;
    while m < memberships.len()
        invariant
            m <= memberships@.len(),
            r@.len() == m,
            forall|k: int| 0 <= k < m ==> member_info_ok(#[trigger] r@[k], memberships@[k]),
        decreases memberships@.len() - m,
    {
        let event = &memberships[m];
        let channel = exactly_one_tag_value(event, "d");
        let bots = if channel.is_some() {
            bot_keys(event)
        } else {
            Vec::new()
        };
        r.push(MemberInfo { channel, bots });
        m = m + 1;
    }
    r
}

/// The channels whose memberships list `agent` as a bot, sorted.
fn channel_ids_for(members: &Vec<MemberInfo>, memberships: &[Event], agent: &String) -> (r: Vec<
    String,
>)
    requires
        members@.len() == memberships@.len(),
        forall|m: int| 0 <= m < members@.len() ==> member_info_ok(#[trigger] members@[m], memberships@[m]),
    ensures
        sorted_strings(r@),
        forall|x: Seq<char>| has_string(r@, x) <==> in_channel(memberships@, agent@, x),
{
    let mut r: Vec<String> = Vec::new();
    let mut m: usize = 0;
    while m < members.len()
        invariant
            m <= members@.len(),
            members@.len() == memberships@.len(),
            forall|k: int| 0 <= k < members@.len() ==> member_info_ok(#[trigger] members@[k], memberships@[k]),
            sorted_strings(r@),
            forall|x: Seq<char>|
                has_string(r@, x) <==> exists|k: int|
                    0 <= k < m && exactly_one_tag((#[trigger] memberships@[k]).tags.deep_view(), "d"@)
                        == Some(x) && lists_bot(memberships@[k], agent@),
        decreases members@.len() - m,
    {
        let info = &members[m];
        assert(member_info_ok(members@[m as int], memberships@[m as int]));
        match &info.channel {
            Some(channel) => {
                let mut listed = false;
                let mut b: usize = 0;
                while b < info.bots.len() && !listed
                    invariant
                        b <= info.bots@.len(),
                        listed ==> has_string(info.bots@, agent@),
                        !listed ==> forall|j: int| 0 <= j < b ==> #[trigger] info.bots@[j]@ != agent@,
                    decreases info.bots@.len() - b,
                {
                    if info.bots[b] == *agent {
                        listed = true;
                    }
                    b = b + 1;
                }
                if listed {
                    insert_sorted(&mut r, channel.clone());
                }
                assert forall|x: Seq<char>| has_string(r@, x) <==> exists|k: int|
                    0 <= k < m + 1 && exactly_one_tag((#[trigger] memberships@[k]).tags.deep_view(), "d"@)
                        == Some(x) && lists_bot(memberships@[k], agent@) by {
                    if x == channel@ && listed {
                        assert(exactly_one_tag(memberships@[m as int].tags.deep_view(), "d"@) == Some(x));
                    }
                }
            },
            None => {
                assert forall|x: Seq<char>| has_string(r@, x) <==> exists|k: int|
                    0 <= k < m + 1 && exactly_one_tag((#[trigger] memberships@[k]).tags.deep_view(), "d"@)
                        == Some(x) && lists_bot(memberships@[k], agent@) by {}
            },
        }
        m = m + 1;
    }
    r
}

/// The trimmed value of the first `name` tag that is not blank.
fn first_name_tag(event: &Event) -> (r: Option<String>)
    ensures
        r.deep_view() == first_channel_name(event.tags.deep_view()),
{
    let tags = &event.tags;
    let ghost dv = tags.deep_view();
    proof {
        assert(dv.skip(0) =~= dv);
    }
    let mut k: usize = 0;
    while k < tags.len()
        invariant
            k <= tags@.len(),
            dv == tags.deep_view(),
            dv == event.tags.deep_view(),
            first_channel_name(dv) == first_channel_name(dv.skip(k as int)),
        decreases tags@.len() - k,
    {
        let tag = &tags[k];
        assert(dv.skip(k as int)[0] == tag.deep_view());
        assert(dv.skip(k as int).drop_first() =~= dv.skip(k + 1));
        if tag.len() >= 2 && str_equal(tag[0].as_str(), "name") {
            assert(tag.deep_view()[0] == tag@[0]@ && tag.deep_view()[1] == tag@[1]@);
            let t = trimmed(tag[1].as_str());
            if !t.as_str().is_empty() {
                let ghost rest = dv.skip(k as int);
                assert(first_channel_name(rest) == Some(trim(rest[0][1])));
                return Some(t);
            }
        }
        k = k + 1;
    }
    None
}

/// What a channel metadata event says: its channel and, where it has one,
/// the name it gives.
struct MetaInfo {
    channel: Option<String>,
    name: Option<String>,
}

spec fn meta_info_ok(info: MetaInfo, event: Event) -> bool {
    &&& info.channel.deep_view() == exactly_one_tag(event.tags.deep_view(), "d"@)
    &&& info.channel is Some ==> info.name.deep_view() == first_channel_name(event.tags.deep_view())
}

fn meta_infos(metadata: &[Event]) -> (r: Vec<MetaInfo>)
    ensures
        r@.len() == metadata@.len(),
        forall|m: int| 0 <= m < r@.len() ==> meta_info_ok(#[trigger] r@[m], metadata@[m]),
{
    let mut r: Vec<MetaInfo> = Vec::new();
    let mut m: usize = 0;
    while m < metadata.len()
        invariant
            m <= metadata@.len(),
            r@.len() == m,
            forall|k: int| 0 <= k < m ==> meta_info_ok(#[trigger] r@[k], metadata@[k]),
        decreases metadata@.len() - m,
    {
        let event = &metadata[m];
        let channel = exactly_one_tag_value(event, "d");
        let name = if channel.is_some() {
            first_name_tag(event)
        } else {
            None
        };
        r.push(MetaInfo { channel, name });
        m = m + 1;
    }
    r
}

/// The display name of `channel`.
fn channel_name_of(metas: &Vec<MetaInfo>, metadata: &[Event], channel: &String) -> (r: String)
    requires
        metas@.len() == metadata@.len(),
        forall|m: int| 0 <= m < metas@.len() ==> meta_info_ok(#[trigger] metas@[m], metadata@[m]),
    ensures
        r@ == channel_name(metadata@, channel@),
{
    let mut k: usize = metas.len();
    proof {
        assert(metadata@.take(k as int) =~= metadata@);
    }
    while k > 0
        invariant
            k <= metas@.len(),
            metas@.len() == metadata@.len(),
            forall|m: int| 0 <= m < metas@.len() ==> meta_info_ok(#[trigger] metas@[m], metadata@[m]),
            channel_name(metadata@, channel@) == channel_name(metadata@.take(k as int), channel@),
        decreases k,
    {
        let info = &metas[k - 1];
        assert(meta_info_ok(metas@[k - 1], metadata@[k - 1]));
        let ghost prefix = metadata@.take(k as int);
        assert(prefix.last() == metadata@[k - 1]);
        assert(prefix.drop_last() =~= metadata@.take(k - 1));
        match &info.channel {
            Some(id) => {
                if *id == *channel {
                    return match &info.name {
                        Some(name) => name.clone(),
                        None => channel.clone(),
                    };
                }
            },
            None => {},
        }
        k = k - 1;
    }
    channel.clone()
}

/// The display names of the channels.
fn channel_names_of(metas: &Vec<MetaInfo>, metadata: &[Event], ids: &Vec<String>) -> (r: Vec<String>)
    requires
        metas@.len() == metadata@.len(),
        forall|m: int| 0 <= m < metas@.len() ==> meta_info_ok(#[trigger] metas@[m], metadata@[m]),
    ensures
        r@.len() == ids@.len(),
        forall|k: int| 0 <= k < r@.len() ==> #[trigger] r@[k]@ == channel_name(metadata@, ids@[k]@),
{
    let mut r: Vec<String> = Vec::new();
    let mut k: usize = 0;
    while k < ids.len()
        invariant
            k <= ids@.len(),
            r@.len() == k,
            metas@.len() == metadata@.len(),
            forall|m: int| 0 <= m < metas@.len() ==> meta_info_ok(#[trigger] metas@[m], metadata@[m]),
            forall|j: int| 0 <= j < k ==> #[trigger] r@[j]@ == channel_name(metadata@, ids@[j]@),
        decreases ids@.len() - k,
    {
        r.push(channel_name_of(metas, metadata, &ids[k]));
        k = k + 1;
    }
    r
}

/// The row of the selected claim `claims[i]` for `agent`.
fn build_row(
    claims: &[AgentConfigEvent],
    profiles: &[ProfileEvent],
    memberships: &[Event],
    metadata: &[Event],
    members: &Vec<MemberInfo>,
    metas: &Vec<MetaInfo>,
    owner: &Option<String>,
    i: usize,
    agent: &String,
) -> (r: RelayAgentInfo)
    requires
        i < claims@.len(),
        agent_slots(claims@)[i as int].key == Some(agent@),
        owner.deep_view() == profile_owner(profiles@, agent@),
        members@.len() == memberships@.len(),
        forall|m: int| 0 <= m < members@.len() ==> member_info_ok(#[trigger] members@[m], memberships@[m]),
        metas@.len() == metadata@.len(),
        forall|m: int| 0 <= m < metas@.len() ==> meta_info_ok(#[trigger] metas@[m], metadata@[m]),
    ensures
        row_of(r, claims@[i as int], profiles@, memberships@, metadata@),
{
    let claim = &claims[i];
    let author = claim.event.pubkey.clone();
    let (name, respond_to, allowlist, content_state_value) = match &claim.content {
        Some(c) => content_state(c),
        None => (None, None, Vec::new(), DirectoryState::Incomplete),
    };
    let backed = match owner {
        Some(o) => *o == author,
        None => false,
    };
    let directory_state = if backed {
        content_state_value
    } else {
        DirectoryState::Untrusted
    };
    let channel_ids = channel_ids_for(members, memberships, agent);
    let channels = channel_names_of(metas, metadata, &channel_ids);
    let name = match name {
        Some(n) => n,
        None => "Unknown agent".to_owned(),
    };
    proof {
        if claim.content is None {
            assert(allowlist@.len() == 0);
        }
    }
    RelayAgentInfo {
        pubkey: agent.clone(),
        name,
        agent_type: "agent".to_owned(),
        channels,
        channel_ids,
        capabilities: Vec::new(),
        status: "offline".to_owned(),
        respond_to,
        respond_to_allowlist: allowlist,
        owner_pubkey: Some(author),
        directory_state,
    }
}

/// Projects signed directory claims, agent profiles, channel memberships and
/// channel metadata to relay-directory rows: one row per agent that some
/// claim identifies, in agent order, each built from the claim that
/// represents the agent.
pub fn project_relay_agents(
    agent_events: &[AgentConfigEvent],
    profile_events: &[ProfileEvent],
    membership_events: &[Event],
    metadata_events: &[Event],
) -> (r: Vec<RelayAgentInfo>)
    ensures
        is_projection(r@, agent_events@, profile_events@, membership_events@, metadata_events@),
{
    let ghost claims = agent_events@;
    let ghost profiles = profile_events@;
    let pslots = profile_slot_list(profile_events);
    let pheads = head_flags(&pslots);
    assert(slot_views(pslots@).len() == pslots@.len());
    assert(pheads@.len() == profiles.len());
    let aslots = agent_slot_list(agent_events);
    let aheads = head_flags(&aslots);
    let ghost sv = agent_slots(claims);
    let n = agent_events.len();
    assert(slot_views(aslots@).len() == aslots@.len());
    assert(aslots@.len() == n);
    let mut chosen: Vec<(String, usize)> = Vec::new();
    let mut i: usize = 0;
    while i < n
        invariant
            i <= n,
            n == claims.len(),
            claims == agent_events@,
            profiles == profile_events@,
            sv == agent_slots(claims),
            slot_views(aslots@) == sv,
            aslots@.len() == n,
            aheads@.len() == n,
            forall|k: int| 0 <= k < n ==> aheads@[k] == is_agent_head(claims, k),
            pheads@.len() == profiles.len(),
            forall|k: int| 0 <= k < profiles.len() ==> pheads@[k] == is_head(profile_slots(profiles), k),
            sorted_strings(keys_of(chosen@)),
            forall|k: int|
                0 <= k < chosen@.len() ==> (#[trigger] chosen@[k]).1 < n && is_selected(
                    claims,
                    profiles,
                    chosen@[k].1 as int,
                ) && sv[chosen@[k].1 as int].key == Some(chosen@[k].0@),
            forall|j: int|
                0 <= j < i && is_selected(claims, profiles, j) ==> has_string(
                    keys_of(chosen@),
                    #[trigger] sv[j].key->0,
                ),
        decreases n - i,
    {
        assert(slot_views(aslots@)[i as int] == aslots@[i as int]@);
        let ghost before = chosen@;
        if aheads[i] {
            if let Some(agent) = &aslots[i].key {
                let owner = profile_owner_of(profile_events, &pheads, agent);
                if selects(agent_events, profile_events, &aslots, &aheads, &owner, i) {
                    insert_keyed(&mut chosen, agent.clone(), i);
                    assert forall|k: int| 0 <= k < chosen@.len() implies (#[trigger] chosen@[k]).1
                        < n && is_selected(claims, profiles, chosen@[k].1 as int) && sv[chosen@[k].1 as int].key
                        == Some(chosen@[k].0@) by {
                        if exists|j: int| 0 <= j < before.len() && #[trigger] before[j] == chosen@[k] {
                            let j = choose|j: int| 0 <= j < before.len() && #[trigger] before[j] == chosen@[k];
                            assert(before[j].1 < n);
                        }
                    }
                }
            }
        }
        i = i + 1;
    }
    proof {
        assert forall|x: Seq<char>| has_string(keys_of(chosen@), x) <==> claims_agent(claims, x) by {
            if has_string(keys_of(chosen@), x) {
                let k = choose|k: int| 0 <= k < keys_of(chosen@).len() && #[trigger] keys_of(chosen@)[k]@ == x;
                let idx = chosen@[k].1 as int;
                assert(sv[idx].key == Some(x));
                assert(agent_key(claims[idx].event) == Some(x));
            }
            if claims_agent(claims, x) {
                let j = lemma_selected_exists(claims, profiles, x);
                assert(sv[j].key->0 == x);
            }
        }
    }
    let members = member_infos(membership_events);
    let metas = meta_infos(metadata_events);
    let mut rows: Vec<RelayAgentInfo> = Vec::new();
    let mut k: usize = 0;
    while k < chosen.len()
        invariant
            k <= chosen@.len(),
            claims == agent_events@,
            profiles == profile_events@,
            sv == agent_slots(claims),
            pheads@.len() == profiles.len(),
            forall|q: int| 0 <= q < profiles.len() ==> pheads@[q] == is_head(profile_slots(profiles), q),
            forall|q: int|
                0 <= q < chosen@.len() ==> (#[trigger] chosen@[q]).1 < n && is_selected(
                    claims,
                    profiles,
                    chosen@[q].1 as int,
                ) && sv[chosen@[q].1 as int].key == Some(chosen@[q].0@),
            n == claims.len(),
            members@.len() == membership_events@.len(),
            forall|m: int| 0 <= m < members@.len() ==> member_info_ok(#[trigger] members@[m], membership_events@[m]),
            metas@.len() == metadata_events@.len(),
            forall|m: int| 0 <= m < metas@.len() ==> meta_info_ok(#[trigger] metas@[m], metadata_events@[m]),
            rows@.len() == k,
            forall|q: int| 0 <= q < k ==> (#[trigger] rows@[q]).pubkey@ == chosen@[q].0@,
            forall|q: int|
                0 <= q < k ==> is_directory_row(
                    #[trigger] rows@[q],
                    claims,
                    profiles,
                    membership_events@,
                    metadata_events@,
                ),
        decreases chosen@.len() - k,
    {
        let agent = &chosen[k].0;
        let idx = chosen[k].1;
        assert(chosen@[k as int].1 < n);
        let owner = profile_owner_of(profile_events, &pheads, agent);
        let row = build_row(
            agent_events,
            profile_events,
            membership_events,
            metadata_events,
            &members,
            &metas,
            &owner,
            idx,
            agent,
        );
        let ghost old_rows = rows@;
        rows.push(row);
        assert(rows@[k as int] == row);
        assert forall|q: int| 0 <= q < k + 1 implies is_directory_row(
            #[trigger] rows@[q],
            claims,
            profiles,
            membership_events@,
            metadata_events@,
        ) by {
            if q < k {
                assert(rows@[q] == old_rows[q]);
            } else {
                assert(is_selected(claims, profiles, idx as int));
                assert(row_of(rows@[q], claims[idx as int], profiles, membership_events@, metadata_events@));
            }
        }
        k = k + 1;
    }
    proof {
        let rk = row_pubkeys(rows@);
        let ck = keys_of(chosen@);
        assert forall|p: int, q: int| 0 <= p < q < rk.len() implies str_lt(
            #[trigger] rk[p]@,
            #[trigger] rk[q]@,
        ) by {
            assert(rk[p]@ == ck[p]@ && rk[q]@ == ck[q]@);
        }
        assert forall|x: Seq<char>| has_string(rk, x) <==> has_string(ck, x) by {
            if has_string(rk, x) {
                let p = choose|p: int| 0 <= p < rk.len() && #[trigger] rk[p]@ == x;
                assert(ck[p]@ == x);
            }
            if has_string(ck, x) {
                let p = choose|p: int| 0 <= p < ck.len() && #[trigger] ck[p]@ == x;
                assert(rk[p]@ == x);
            }
        }
    }
    rows
}

/// The agents that the claims identify, each once, in order: the agents
/// whose profiles and memberships the directory asks the relay for.
pub fn candidate_pubkeys(agent_events: &[AgentConfigEvent]) -> (r: Vec<String>)
    ensures
        sorted_strings(r@),
        forall|x: Seq<char>| has_string(r@, x) <==> claims_agent(agent_events@, x),
{
    let mut r: Vec<String> = Vec::new();
    let mut i: usize = 0;
    while i < agent_events.len()
        invariant
            i <= agent_events@.len(),
            sorted_strings(r@),
            forall|x: Seq<char>|
                has_string(r@, x) <==> exists|j: int|
                    0 <= j < i && agent_key((#[trigger] agent_events@[j]).event) == Some(x),
        decreases agent_events@.len() - i,
    {
        let key = match exactly_one_tag_value(&agent_events[i].event, "d") {
            Some(d) => canonical_public_key(d.as_str()),
            None => None,
        };
        if let Some(agent) = key {
            insert_sorted(&mut r, agent);
        }
        assert forall|x: Seq<char>|
            has_string(r@, x) <==> exists|j: int|
                0 <= j < i + 1 && agent_key((#[trigger] agent_events@[j]).event) == Some(x) by {
            if agent_key(agent_events@[i as int].event) == Some(x) {
                assert(has_string(r@, x));
            }
        }
        i = i + 1;
    }
    r
}

/// The channels that some row lists, each once, in order: the channels
/// whose metadata the directory asks the relay for.
pub fn referenced_channel_ids(agents: &[RelayAgentInfo]) -> (r: Vec<String>)
    ensures
        sorted_strings(r@),
        forall|x: Seq<char>|
            has_string(r@, x) <==> exists|k: int|
                0 <= k < agents@.len() && has_string((#[trigger] agents@[k]).channel_ids@, x),
{
    let mut r: Vec<String> = Vec::new();
    let mut k: usize = 0;
    while k < agents.len()
        invariant
            k <= agents@.len(),
            sorted_strings(r@),
            forall|x: Seq<char>|
                has_string(r@, x) <==> exists|q: int|
                    0 <= q < k && has_string((#[trigger] agents@[q]).channel_ids@, x),
        decreases agents@.len() - k,
    {
        let ids = &agents[k].channel_ids;
        let mut j: usize = 0;
        while j < ids.len()
            invariant
                j <= ids@.len(),
                *ids == agents@[k as int].channel_ids,
                sorted_strings(r@),
                forall|x: Seq<char>|
                    has_string(r@, x) <==> (exists|q: int|
                        0 <= q < k && has_string((#[trigger] agents@[q]).channel_ids@, x)) || exists|
                        p: int,
                    | 0 <= p < j && (#[trigger] ids@[p])@ == x,
            decreases ids@.len() - j,
        {
            insert_sorted(&mut r, ids[j].clone());
            j = j + 1;
        }
        assert forall|x: Seq<char>|
            has_string(r@, x) <==> exists|q: int|
                0 <= q < k + 1 && has_string((#[trigger] agents@[q]).channel_ids@, x) by {
            if has_string(agents@[k as int].channel_ids@, x) {
                let p = choose|p: int| 0 <= p < ids@.len() && #[trigger] ids@[p]@ == x;
            }
        }
        k = k + 1;
    }
    r
}

} // verus!

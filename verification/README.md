# agent_directory

The public managed-agent directory of a Nostr relay, verified with Verus.

A directory claim (kind 30177) is owner-authored: its author is the owner and
its single `d` tag names the agent. The library decides which claim stands for
each agent (the newest per author, NIP-33; the one whose owner the agent's
profile attests through NIP-OA, else the first author), whether the row is
resolved, incomplete or untrusted, which channels list the agent as a bot, and
what the channels are called. Claims that are present but invalid stay listed.

- `src/text.rs`: code-point string order, Unicode trimming, sorted string lists.
- `src/pubkey.rs`: hex public keys, through `nostr::key::PublicKey`.
- `src/event.rs`: events as the directory reads them, tag lookups, NIP-33 order.
- `src/heads.rs`: the head of each replaceable coordinate.
- `src/policy.rs`: directory policies and the completeness of a claim.
- `src/directory.rs`: claims, profiles, memberships and metadata to rows.
- `src/discovery.rs`: which relay query comes next in a listing.
- `src/laws.rs`: properties of every projection (order independence, trust).
- `app/`: relay events to library values, the serde forms, the query loop.

//! Signed relay events, as far as the directory reads them: author, time,
//! id and tags; the tag lookups; and the NIP-33 head order.
use vstd::prelude::*;

use crate::text::{
    lemma_lex_irreflexive, lemma_lex_total, lemma_lex_transitive, lex_lt, str_equal, trim, trimmed,
};

verus! {

/// A relay event: its author's public key in hex, its creation time in
/// seconds, its 32-byte id and its tags, each tag a list of strings.
pub struct Event {
    pub pubkey: String,
    pub created_at: u64,
    pub id: [u8; 32],
    pub tags: Vec<Vec<String>>,
}

/// Numeric order on bytes.
pub open spec fn byte_lt() -> spec_fn(u8, u8) -> bool {
    |x: u8, y: u8| x < y
}

/// Lexicographic order on byte strings.
pub open spec fn bytes_lt(a: Seq<u8>, b: Seq<u8>) -> bool {
    lex_lt(a, b, byte_lt())
}

pub proof fn lemma_bytes_lt_irreflexive(a: Seq<u8>)
    ensures
        !bytes_lt(a, a),
{
    lemma_lex_irreflexive(a, byte_lt());
}

pub proof fn lemma_bytes_lt_transitive(a: Seq<u8>, b: Seq<u8>, c: Seq<u8>)
    requires
        bytes_lt(a, b),
        bytes_lt(b, c),
    ensures
        bytes_lt(a, c),
{
    lemma_lex_transitive(a, b, c, byte_lt());
}

pub proof fn lemma_bytes_lt_total(a: Seq<u8>, b: Seq<u8>)
    ensures
        a == b || bytes_lt(a, b) || bytes_lt(b, a),
        !(bytes_lt(a, b) && bytes_lt(b, a)),
{
    lemma_lex_total(a, b, byte_lt());
}

/// NIP-33 order of replaceable events: a later time wins, and at equal
/// times the lower id wins.
pub open spec fn newer(created_a: u64, id_a: Seq<u8>, created_b: u64, id_b: Seq<u8>) -> bool {
    created_a > created_b || (created_a == created_b && bytes_lt(id_a, id_b))
}

/// Whether the event `(created_a, id_a)` is newer than `(created_b, id_b)`.
pub fn is_newer_head(created_a: u64, id_a: &[u8; 32], created_b: u64, id_b: &[u8; 32]) -> (r: bool)
    ensures
        r == newer(created_a, id_a@, created_b, id_b@),
{
    if created_a != created_b {
        return created_a > created_b;
    }
    proof {
        assert(id_a@.skip(0) =~= id_a@);
        assert(id_b@.skip(0) =~= id_b@);
    }
    let mut i: usize = 0;
    while i < 32 && id_a[i] == id_b[i]
        invariant
            i <= 32,
            id_a@.len() == 32,
            id_b@.len() == 32,
            forall|k: int| 0 <= k < i ==> id_a@[k] == id_b@[k],
            bytes_lt(id_a@, id_b@) == bytes_lt(id_a@.skip(i as int), id_b@.skip(i as int)),
        decreases 32 - i,
    {
        proof {
            let sa = id_a@.skip(i as int);
            let sb = id_b@.skip(i as int);
            assert(sa.drop_first() =~= id_a@.skip(i + 1));
            assert(sb.drop_first() =~= id_b@.skip(i + 1));
        }
        i = i + 1;
    }
    if i == 32 {
        assert(id_a@.skip(32) =~= id_b@.skip(32));
        false
    } else {
        assert(id_a@.skip(i as int)[0] == id_a@[i as int]);
        assert(id_b@.skip(i as int)[0] == id_b@[i as int]);
        id_a[i] < id_b[i]
    }
}

/// The second entries of the tags whose first entry is `name`, in order.
pub open spec fn tag_values(tags: Seq<Seq<Seq<char>>>, name: Seq<char>) -> Seq<Seq<char>>
    decreases tags.len(),
{
    if tags.len() == 0 {
        seq![]
    } else {
        let rest = tag_values(tags.drop_last(), name);
        let t = tags.last();
        if t.len() >= 2 && t[0] == name {
            rest.push(t[1])
        } else {
            rest
        }
    }
}

/// The value of the one tag named `name`, where there is exactly one and its
/// value is not blank.
pub open spec fn exactly_one_tag(tags: Seq<Seq<Seq<char>>>, name: Seq<char>) -> Option<Seq<char>> {
    let values = tag_values(tags, name);
    if values.len() == 1 && trim(values[0]).len() > 0 {
        Some(values[0])
    } else {
        None
    }
}

/// The value of the single `name` tag of the event, if there is exactly one
/// and its value is not blank.
pub fn exactly_one_tag_value(event: &Event, name: &str) -> (r: Option<String>)
    ensures
        r.deep_view() == exactly_one_tag(event.tags.deep_view(), name@),
{
    let tags = &event.tags;
    let ghost all = tags.deep_view();
    let mut count: usize = 0;
    let mut first: Option<String> = None;
    let mut i: usize = 0;
    while i < tags.len()
        invariant
            i <= tags@.len(),
            all == tags.deep_view(),
            count as int == tag_values(all.take(i as int), name@).len(),
            count <= i,
            count > 0 ==> first.deep_view() == Some(tag_values(all.take(i as int), name@)[0]),
        decreases tags@.len() - i,
    {
        let tag = &tags[i];
        proof {
            assert(all.take(i + 1).drop_last() =~= all.take(i as int));
            assert(all.take(i + 1).last() == tag.deep_view());
        }
        if tag.len() >= 2 && str_equal(tag[0].as_str(), name) {
            if count == 0 {
                first = Some(tag[1].clone());
            }
            count = count + 1;
        }
        i = i + 1;
    }
    proof {
        assert(all.take(tags@.len() as int) =~= all);
    }
    if count != 1 {
        return None;
    }
    match first {
        Some(value) => {
            let t = trimmed(value.as_str());
            if t.as_str().is_empty() {
                None
            } else {
                Some(value)
            }
        },
        None => None,
    }
}

} // verus!

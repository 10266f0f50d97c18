//! Heads of replaceable coordinates: among the events of one author under one
//! key, the one that NIP-33 keeps (the newest, and at equal times the lowest
//! id; of identical stamps, the first).
use vstd::prelude::*;

use crate::event::{
    is_newer_head, lemma_bytes_lt_irreflexive, lemma_bytes_lt_total,
    lemma_bytes_lt_transitive, newer,
};

verus! {

/// What the head choice reads of an event: its author, its stamp, and the
/// key under which it replaces (`None` for an event without coordinate).
pub struct Slot {
    pub author: Seq<char>,
    pub created_at: u64,
    pub id: Seq<u8>,
    pub key: Option<Seq<char>>,
}

/// The executable form of a `Slot`.
pub struct HeadSlot {
    pub author: String,
    pub created_at: u64,
    pub id: [u8; 32],
    pub key: Option<String>,
}

impl View for HeadSlot {
    type V = Slot;

    open spec fn view(&self) -> Slot {
        Slot {
            author: self.author@,
            created_at: self.created_at,
            id: self.id@,
            key: self.key.deep_view(),
        }
    }
}

pub open spec fn slot_views(v: Seq<HeadSlot>) -> Seq<Slot> {
    Seq::new(v.len(), |i: int| v[i]@)
}

/// Two slots share a coordinate: same author and same key.
pub open spec fn same_slot(a: Slot, b: Slot) -> bool {
    a.author == b.author && a.key == b.key
}

pub open spec fn slot_newer(a: Slot, b: Slot) -> bool {
    newer(a.created_at, a.id, b.created_at, b.id)
}

/// `slots[i]` is the head of its coordinate: no event of the coordinate is
/// newer, and it is newer than every earlier event of the coordinate.
pub open spec fn is_head(slots: Seq<Slot>, i: int) -> bool {
    &&& 0 <= i < slots.len()
    &&& slots[i].key is Some
    &&& forall|j: int|
        0 <= j < slots.len() && same_slot(#[trigger] slots[j], slots[i]) ==> !slot_newer(
            slots[j],
            slots[i],
        )
    &&& forall|j: int|
        0 <= j < i && same_slot(#[trigger] slots[j], slots[i]) ==> slot_newer(slots[i], slots[j])
}

pub proof fn lemma_newer_irreflexive(a: Slot)
    ensures
        !slot_newer(a, a),
{
    lemma_bytes_lt_irreflexive(a.id);
}

pub proof fn lemma_newer_transitive(a: Slot, b: Slot, c: Slot)
    requires
        slot_newer(a, b),
        slot_newer(b, c),
    ensures
        slot_newer(a, c),
{
    if a.created_at == b.created_at && b.created_at == c.created_at {
        lemma_bytes_lt_transitive(a.id, b.id, c.id);
    }
}

/// Two stamps are ordered one way or the other, or are the same stamp.
pub proof fn lemma_newer_total(a: Slot, b: Slot)
    ensures
        slot_newer(a, b) || slot_newer(b, a) || (a.created_at == b.created_at && a.id == b.id),
        !(slot_newer(a, b) && slot_newer(b, a)),
{
    lemma_bytes_lt_total(a.id, b.id);
}

/// At most one head per coordinate.
pub proof fn lemma_head_unique(slots: Seq<Slot>, i: int, j: int)
    requires
        is_head(slots, i),
        is_head(slots, j),
        same_slot(slots[i], slots[j]),
    ensures
        i == j,
{
    if i < j {
        assert(same_slot(slots[i], slots[j]));
        assert(slot_newer(slots[j], slots[i]));
    } else if j < i {
        assert(same_slot(slots[j], slots[i]));
        assert(slot_newer(slots[i], slots[j]));
    }
}

proof fn lemma_prefix_head(slots: Seq<Slot>, i: int, n: int) -> (h: int)
    requires
        0 <= i < slots.len(),
        0 < n <= slots.len(),
        exists|k: int| 0 <= k < n && same_slot(#[trigger] slots[k], slots[i]),
    ensures
        0 <= h < n,
        same_slot(slots[h], slots[i]),
        forall|j: int|
            0 <= j < n && same_slot(#[trigger] slots[j], slots[i]) ==> !slot_newer(
                slots[j],
                slots[h],
            ),
        forall|j: int|
            0 <= j < h && same_slot(#[trigger] slots[j], slots[i]) ==> slot_newer(
                slots[h],
                slots[j],
            ),
    decreases n,
{
    let m = n - 1;
    if exists|k: int| 0 <= k < m && same_slot(#[trigger] slots[k], slots[i]) {
        let p = lemma_prefix_head(slots, i, m);
        if same_slot(slots[m], slots[i]) && slot_newer(slots[m], slots[p]) {
            assert forall|j: int|
                0 <= j < n && same_slot(#[trigger] slots[j], slots[i]) implies !slot_newer(
                slots[j],
                slots[m],
            ) by {
                if j == m {
                    lemma_newer_irreflexive(slots[m]);
                } else if slot_newer(slots[j], slots[m]) {
                    lemma_newer_transitive(slots[j], slots[m], slots[p]);
                }
            }
            assert forall|j: int|
                0 <= j < m && same_slot(#[trigger] slots[j], slots[i]) implies slot_newer(
                slots[m],
                slots[j],
            ) by {
                lemma_newer_total(slots[j], slots[p]);
                if slot_newer(slots[p], slots[j]) {
                    lemma_newer_transitive(slots[m], slots[p], slots[j]);
                }
            }
            m
        } else {
            p
        }
    } else {
        assert(same_slot(slots[m], slots[i]));
        lemma_newer_irreflexive(slots[m]);
        m
    }
}

/// Every event with a coordinate has a head for that coordinate.
pub proof fn lemma_head_exists(slots: Seq<Slot>, i: int) -> (h: int)
    requires
        0 <= i < slots.len(),
        slots[i].key is Some,
    ensures
        is_head(slots, h),
        same_slot(slots[h], slots[i]),
{
    assert(same_slot(slots[i], slots[i]));
    let h = lemma_prefix_head(slots, i, slots.len() as int);
    assert forall|j: int|
        0 <= j < slots.len() && same_slot(#[trigger] slots[j], slots[h]) implies !slot_newer(
        slots[j],
        slots[h],
    ) by {
        assert(same_slot(slots[j], slots[i]));
    }
    assert forall|j: int| 0 <= j < h && same_slot(#[trigger] slots[j], slots[h]) implies slot_newer(
        slots[h],
        slots[j],
    ) by {
        assert(same_slot(slots[j], slots[i]));
    }
    h
}

/// For each slot, whether it is the head of its coordinate.
pub fn head_flags(slots: &Vec<HeadSlot>) -> (r: Vec<bool>)
    ensures
        r@.len() == slots@.len(),
        forall|i: int| 0 <= i < slots@.len() ==> r@[i] == is_head(slot_views(slots@), i),
{
    let ghost sv = slot_views(slots@);
    let n = slots.len();
    let mut r: Vec<bool> = Vec::new();
    let mut i: usize = 0;
    while i < n
        invariant
            i <= n,
            n == slots@.len(),
            sv == slot_views(slots@),
            r@.len() == i,
            forall|k: int| 0 <= k < i ==> r@[k] == is_head(sv, k),
        decreases n - i,
    {
        let si = &slots[i];
        let mut head = si.key.is_some();
        let mut j: usize = 0;
        while head && j < n
            invariant
                j <= n,
                n == slots@.len(),
                sv == slot_views(slots@),
                i < n,
                *si == slots@[i as int],
                head ==> sv[i as int].key is Some,
                head ==> forall|k: int|
                    0 <= k < j && same_slot(#[trigger] sv[k], sv[i as int]) ==> !slot_newer(
                        sv[k],
                        sv[i as int],
                    ),
                head ==> forall|k: int|
                    0 <= k < j && k < i && same_slot(#[trigger] sv[k], sv[i as int])
                        ==> slot_newer(sv[i as int], sv[k]),
                !head ==> !is_head(sv, i as int),
            decreases n - j,
        {
            let sj = &slots[j];
            if sj.author == si.author && same_opt_key(&sj.key, &si.key) {
                assert(same_slot(sv[j as int], sv[i as int]));
                if is_newer_head(sj.created_at, &sj.id, si.created_at, &si.id) {
                    head = false;
                } else if j < i && !is_newer_head(si.created_at, &si.id, sj.created_at, &sj.id) {
                    head = false;
                }
            }
            j = j + 1;
        }
        r.push(head);
        i = i + 1;
    }
    r
}

/// Whether two optional keys hold the same characters.
pub fn same_opt_key(a: &Option<String>, b: &Option<String>) -> (r: bool)
    ensures
        r == (a.deep_view() == b.deep_view()),
{
    match (a, b) {
        (Some(x), Some(y)) => *x == *y,
        (None, None) => true,
        _ => false,
    }
}

} // verus!

//! Directory policy values and the completeness of a directory claim's
//! content.
use vstd::prelude::*;

use crate::text::{str_equal, trim, trimmed};

verus! {

/// Read-only public-directory policy; the configuration UI intentionally does
/// not expose `Nobody`.
#[derive(Debug, Clone, Copy, PartialEq, Eq, Structural)]
pub enum DirectoryRespondTo {
    OwnerOnly,
    Allowlist,
    Anyone,
    Nobody,
}

/// Verification state for an identifiable public-directory claim.
#[derive(Debug, Clone, Copy, PartialEq, Eq, Structural)]
pub enum DirectoryState {
    /// The claim is present, but required content or policy fields are invalid.
    Incomplete,
    /// Content is complete and the agent profile proves the directory author owns it.
    Resolved,
    /// The agent profile is missing valid NIP-OA proof for the directory author.
    Untrusted,
}

impl Default for DirectoryState {
    fn default() -> (r: Self)
        ensures
            r == DirectoryState::Incomplete,
    {
        DirectoryState::Incomplete
    }
}

/// The content of a directory claim, as its JSON object gives it: the agent's
/// name and its `respond_to` policy text where present, and its
/// `respond_to_allowlist` after allowlist validation (`None` where the
/// validation refused it).
pub struct DirectoryContent {
    pub name: Option<String>,
    pub respond_to: Option<String>,
    pub respond_to_allowlist: Option<Vec<String>>,
}

/// The policy that a `respond_to` text names, in its kebab-case spelling.
pub open spec fn policy_named(text: Option<Seq<char>>) -> Option<DirectoryRespondTo> {
    match text {
        Some(t) => if t == "owner-only"@ {
            Some(DirectoryRespondTo::OwnerOnly)
        } else if t == "allowlist"@ {
            Some(DirectoryRespondTo::Allowlist)
        } else if t == "anyone"@ {
            Some(DirectoryRespondTo::Anyone)
        } else if t == "nobody"@ {
            Some(DirectoryRespondTo::Nobody)
        } else {
            None
        },
        None => None,
    }
}

/// The trimmed name, where it is not blank.
pub open spec fn display_name(name: Option<Seq<char>>) -> Option<Seq<char>> {
    match name {
        Some(n) => if trim(n).len() > 0 {
            Some(trim(n))
        } else {
            None
        },
        None => None,
    }
}

/// A claim is complete when it has a name, a known policy and a valid
/// allowlist, and an allowlist policy comes with a non-empty allowlist.
pub open spec fn content_complete(content: DirectoryContent) -> bool {
    let policy = policy_named(content.respond_to.deep_view());
    &&& display_name(content.name.deep_view()) is Some
    &&& policy is Some
    &&& content.respond_to_allowlist is Some
    &&& !(policy == Some(DirectoryRespondTo::Allowlist) && content.respond_to_allowlist->0@.len()
        == 0)
}

/// The allowlist of the content, empty where it was refused.
pub open spec fn allowlist_or_empty(content: DirectoryContent) -> Seq<Seq<char>> {
    match content.respond_to_allowlist {
        Some(list) => list.deep_view(),
        None => seq![],
    }
}

/// The state that the content alone gives a claim.
pub open spec fn content_directory_state(content: DirectoryContent) -> DirectoryState {
    if content_complete(content) {
        DirectoryState::Resolved
    } else {
        DirectoryState::Incomplete
    }
}

/// The policy that `text` names, if any.
pub fn parse_respond_to(text: &str) -> (r: Option<DirectoryRespondTo>)
    ensures
        r == policy_named(Some(text@)),
{
    if str_equal(text, "owner-only") {
        Some(DirectoryRespondTo::OwnerOnly)
    } else if str_equal(text, "allowlist") {
        Some(DirectoryRespondTo::Allowlist)
    } else if str_equal(text, "anyone") {
        Some(DirectoryRespondTo::Anyone)
    } else if str_equal(text, "nobody") {
        Some(DirectoryRespondTo::Nobody)
    } else {
        None
    }
}

/// A copy of a list of strings.
pub fn clone_strings(v: &Vec<String>) -> (r: Vec<String>)
    ensures
        r@ == v@,
{
    let mut r: Vec<String> = Vec::new();
    let mut i: usize = 0;
    while i < v.len()
        invariant
            i <= v@.len(),
            r@ == v@.take(i as int),
        decreases v@.len() - i,
    {
        r.push(v[i].clone());
        i = i + 1;
        assert(r@ =~= v@.take(i as int));
    }
    assert(r@ =~= v@);
    r
}

/// The name, policy and allowlist that a claim's content gives, and whether
/// the content is complete.
pub fn content_state(content: &DirectoryContent) -> (r: (
    Option<String>,
    Option<DirectoryRespondTo>,
    Vec<String>,
    DirectoryState,
))
    ensures
        r.0.deep_view() == display_name(content.name.deep_view()),
        r.1 == policy_named(content.respond_to.deep_view()),
        r.2.deep_view() == allowlist_or_empty(*content),
        r.3 == content_directory_state(*content),
{
    let name = match &content.name {
        Some(n) => {
            let t = trimmed(n.as_str());
            if t.as_str().is_empty() {
                None
            } else {
                Some(t)
            }
        },
        None => None,
    };
    let policy = match &content.respond_to {
        Some(text) => parse_respond_to(text.as_str()),
        None => None,
    };
    let allowlist_ok = content.respond_to_allowlist.is_some();
    let allowlist = match &content.respond_to_allowlist {
        Some(list) => clone_strings(list),
        None => Vec::new(),
    };
    let allowlist_policy = match policy {
        Some(DirectoryRespondTo::Allowlist) => true,
        _ => false,
    };
    let complete = name.is_some() && policy.is_some() && allowlist_ok && !(allowlist_policy
        && allowlist.len() == 0);
    proof {
        assert(allowlist.deep_view() =~= allowlist_or_empty(*content));
    }
    (name, policy, allowlist, if complete {
        DirectoryState::Resolved
    } else {
        DirectoryState::Incomplete
    })
}

} // verus!

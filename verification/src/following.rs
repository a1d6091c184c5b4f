//! Values of the virtual personal activity view.
//!
//! A following kind says why a mail thread is relevant to the user. It is kept
//! apart from mailbox names because the view is derived, not a remote mailbox.

use crate::text;
use vstd::prelude::*;

verus! {

/// Why a mail concerns the user.
#[derive(Debug, Clone, Copy, PartialEq, Eq, Hash, Ord, PartialOrd, Structural)]
pub enum FollowingKind {
    ToMe,
    CcMe,
    SentPatch,
    SentReply,
}

impl FollowingKind {
    /// The name under which a kind is stored.
    pub open spec fn stored_name(self) -> Seq<char> {
        match self {
            FollowingKind::ToMe => "to_me"@,
            FollowingKind::CcMe => "cc_me"@,
            FollowingKind::SentPatch => "sent_patch"@,
            FollowingKind::SentReply => "sent_reply"@,
        }
    }

    /// The kind that is stored under a name.
    pub open spec fn named(name: Seq<char>) -> Option<FollowingKind> {
        if name == "to_me"@ {
            Some(FollowingKind::ToMe)
        } else if name == "cc_me"@ {
            Some(FollowingKind::CcMe)
        } else if name == "sent_patch"@ {
            Some(FollowingKind::SentPatch)
        } else if name == "sent_reply"@ {
            Some(FollowingKind::SentReply)
        } else {
            None
        }
    }

    /// The label that the view shows.
    pub open spec fn shown_label(self) -> Seq<char> {
        match self {
            FollowingKind::ToMe => "TO"@,
            FollowingKind::CcMe => "CC"@,
            FollowingKind::SentPatch => "SENT"@,
            FollowingKind::SentReply => "SENT"@,
        }
    }

    /// The name under which the kind is stored.
    pub fn as_str(self) -> (r: &'static str)
        ensures
            r@ == self.stored_name(),
    {
        match self {
            FollowingKind::ToMe => "to_me",
            FollowingKind::CcMe => "cc_me",
            FollowingKind::SentPatch => "sent_patch",
            FollowingKind::SentReply => "sent_reply",
        }
    }

    /// The label that the view shows.
    pub fn label(self) -> (r: &'static str)
        ensures
            r@ == self.shown_label(),
    {
        match self {
            FollowingKind::ToMe => "TO",
            FollowingKind::CcMe => "CC",
            FollowingKind::SentPatch => "SENT",
            FollowingKind::SentReply => "SENT",
        }
    }

    /// The kind that is stored under a name.
    pub fn from_str(value: &str) -> (r: Option<FollowingKind>)
        ensures
            r == FollowingKind::named(value@),
    {
        if text::same_str(value, "to_me") {
            Some(FollowingKind::ToMe)
        } else if text::same_str(value, "cc_me") {
            Some(FollowingKind::CcMe)
        } else if text::same_str(value, "sent_patch") {
            Some(FollowingKind::SentPatch)
        } else if text::same_str(value, "sent_reply") {
            Some(FollowingKind::SentReply)
        } else {
            None
        }
    }
}

/// A kind is read back from the name under which it is stored, and a name that
/// is read at all is the one under which the kind is stored.
pub proof fn law_stored_kinds_are_read_back(kind: FollowingKind, name: Seq<char>)
    ensures
        FollowingKind::named(kind.stored_name()) == Some(kind),
        FollowingKind::named(name) matches Some(read) ==> read.stored_name() == name,
{
    reveal_strlit("to_me");
    reveal_strlit("cc_me");
    reveal_strlit("sent_patch");
    reveal_strlit("sent_reply");
    assert("to_me"@[0] == 't');
    assert("cc_me"@[0] == 'c');
    assert("sent_patch"@[5] == 'p');
    assert("sent_reply"@[5] == 'r');
    assert("sent_patch"@[0] == 's');
    assert("sent_reply"@[0] == 's');
}

/// The names under which kinds are stored, and the labels that are shown.
pub proof fn law_kinds_have_names_and_labels()
    ensures
        FollowingKind::named("to_me"@) == Some(FollowingKind::ToMe),
        FollowingKind::named("cc_me"@) == Some(FollowingKind::CcMe),
        FollowingKind::named("sent_patch"@) == Some(FollowingKind::SentPatch),
        FollowingKind::named("sent_reply"@) == Some(FollowingKind::SentReply),
        FollowingKind::ToMe.shown_label() == "TO"@,
        FollowingKind::CcMe.shown_label() == "CC"@,
        FollowingKind::SentPatch.shown_label() == "SENT"@,
        FollowingKind::SentReply.shown_label() == "SENT"@,
{
    law_stored_kinds_are_read_back(FollowingKind::ToMe, "to_me"@);
    law_stored_kinds_are_read_back(FollowingKind::CcMe, "cc_me"@);
    law_stored_kinds_are_read_back(FollowingKind::SentPatch, "sent_patch"@);
    law_stored_kinds_are_read_back(FollowingKind::SentReply, "sent_reply"@);
}

} // verus!

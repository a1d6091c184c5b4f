use criew::following::FollowingKind;

#[test]
fn following_kind_roundtrips_storage_labels() {
    for kind in [
        FollowingKind::ToMe,
        FollowingKind::CcMe,
        FollowingKind::SentPatch,
        FollowingKind::SentReply,
    ] {
        assert_eq!(FollowingKind::from_str(kind.as_str()), Some(kind));
    }
}

#[test]
fn following_labels_and_unknown_names() {
    assert_eq!(FollowingKind::ToMe.label(), "TO");
    assert_eq!(FollowingKind::CcMe.label(), "CC");
    assert_eq!(FollowingKind::SentPatch.label(), "SENT");
    assert_eq!(FollowingKind::SentReply.label(), "SENT");
    assert_eq!(FollowingKind::SentReply.as_str(), "sent_reply");
    assert_eq!(FollowingKind::from_str("TO_ME"), None);
    assert_eq!(FollowingKind::from_str(""), None);
}

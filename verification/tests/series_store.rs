use criew::series_store::{
    build_groups, choose_series_title, completeness, fnv1a, load_catalog, normalize_author,
    normalize_display_title, normalize_title, parse_subject, refresh, CatalogMail, StoredMember,
    StoredRevision,
};

fn mail(thread_id: i64, mail_id: i64, subject: &str, change_id: Option<&str>) -> CatalogMail {
    CatalogMail::from_row(
        thread_id,
        Some(format!("thread-{thread_id}")),
        mail_id,
        change_id.map(ToOwned::to_owned),
        subject.to_string(),
        "Alice <alice@example.com>".to_string(),
    )
}

#[test]
fn patch_parser_keeps_replies_out_of_members() {
    assert!(!parse_subject("[PATCH v2 1/3] demo").unwrap().1);
    assert!(parse_subject("Re: [PATCH v2 1/3] demo").unwrap().1);
}

#[test]
fn refresh_materializes_members_revisions_and_followups() {
    let messages = [
        (1, "[PATCH v1 0/2] Demo series"),
        (2, "[PATCH v1 1/2] add first"),
        (3, "[PATCH v1 2/2] add second"),
        (4, "Re: [PATCH v1 1/2] add first"),
        (5, "[PATCH v2 0/2] Demo series"),
    ];
    let rows = messages
        .iter()
        .map(|(id, subject)| mail(1, *id, subject, Some(&format!("per-message-{id}"))))
        .collect();

    let plan = refresh(rows, Vec::new());
    assert_eq!(plan.persisted, 2);
    assert_eq!(plan.changes.len(), 1);
    assert!(plan.stale.is_empty());

    let change = &plan.changes[0];
    assert_eq!(change.subject, "Demo series");
    assert_eq!(change.author, "Alice <alice@example.com>");
    assert_eq!(change.change_id, None);
    assert_eq!(change.thread_key.as_deref(), Some("thread-1"));

    let stored = change
        .revisions
        .iter()
        .map(|revision| StoredRevision {
            change_key: change.change_key.clone(),
            revision: i64::from(revision.revision),
            thread_id: Some(1),
            subject: change.subject.clone(),
            author: change.author.clone(),
            expected_total: i64::from(revision.expected_total),
            members: revision
                .members
                .iter()
                .map(|member| StoredMember {
                    seq: i64::from(member.seq),
                    total: i64::from(member.total),
                    mail_id: member.mail_id,
                    message_id: format!("{}@example.com", member.mail_id),
                    subject: member.subject.clone(),
                    raw_path: None,
                })
                .collect(),
            followup_count: revision.followups.len() as i64,
            completeness: revision.completeness.to_string(),
            status: "new".to_string(),
        })
        .collect();
    let catalog = load_catalog(stored);
    assert_eq!(catalog.len(), 2, "one entry per revision");

    let v1 = catalog.iter().find(|item| item.revision == 1).expect("v1");
    assert_eq!(v1.expected_total, 2);
    assert_eq!(v1.completeness, "complete");
    assert_eq!(v1.members.iter().filter(|member| member.seq > 0).count(), 2);
    assert_eq!(v1.followup_count, 1);
    assert!(v1.missing.is_empty());

    let v2 = catalog.iter().find(|item| item.revision == 2).expect("v2");
    assert_eq!(v2.completeness, "partial");
    assert_eq!(v2.missing, vec![1, 2]);
}

#[test]
fn patch_numbers_are_read_and_checked() {
    let (parsed, is_reply) = parse_subject("[PATCH net-next v3, 2/5] net:  fix ").unwrap();
    assert_eq!((parsed.version, parsed.seq, parsed.total), (3, 2, 5));
    assert_eq!(parsed.title, "net:  fix");
    assert!(!is_reply);
    let (parsed, _) = parse_subject("[RFC Patch] x").unwrap();
    assert_eq!((parsed.version, parsed.seq, parsed.total), (1, 1, 1));
    let (parsed, _) = parse_subject("[PATCH +0/3] cover").unwrap();
    assert_eq!((parsed.seq, parsed.total), (0, 3));
    let (parsed, _) = parse_subject("[PATCH 1/2 2/2 v2 v3] last wins").unwrap();
    assert_eq!((parsed.version, parsed.seq, parsed.total), (3, 2, 2));
    assert!(parse_subject("[PATCH 3/2] too many").is_none());
    assert!(parse_subject("[PATCH 0/0] empty").is_none());
    assert!(parse_subject("[ANNOUNCE] no").is_none());
    assert!(parse_subject("PATCH no tag").is_none());
    assert!(parse_subject("]patch] no").is_none());
    assert!(parse_subject("\u{e9}patch] no").is_none());
    assert!(parse_subject("xpatch] odd but read").is_some());
}

#[test]
fn replies_name_the_patch_that_they_answer() {
    let plain = parse_subject("[PATCH v2 1/3] demo").unwrap().0;
    for subject in ["RE: fwd:  [PATCH v2 1/3] demo", "Fwd:[PATCH v2 1/3] demo "] {
        let (parsed, is_reply) = parse_subject(subject).unwrap();
        assert!(is_reply);
        assert_eq!(parsed.version, plain.version);
        assert_eq!(parsed.seq, plain.seq);
        assert_eq!(parsed.total, plain.total);
        assert_eq!(parsed.title, plain.title);
    }
}

#[test]
fn series_file_every_patch() {
    let rows = vec![
        mail(1, 10, "[PATCH 1/2] mm: one two three", None),
        mail(1, 11, "[PATCH 1/2] mm: one two again", None),
        mail(1, 12, "Re: [PATCH 2/3] mm: one two", None),
        mail(1, 12, "Re: [PATCH 1/2] mm: one two", None),
        mail(2, 13, "weekly status", None),
        mail(2, 14, "[PATCH] net: other thing here", None),
    ];
    let groups = build_groups(rows);
    assert_eq!(groups.len(), 2);
    assert_eq!(groups[0].key, "family:alicealice@example.com|mm: one two");
    let revision = &groups[0].revisions[&1];
    assert_eq!(revision.expected_total, 3);
    assert_eq!(revision.members.len(), 1);
    assert_eq!(revision.members[&1].mail_id, 10);
    assert_eq!(revision.followups.len(), 1);
    assert_eq!(revision.followups[&12].parsed.seq, 1);
    assert!(revision.members.values().all(|mail| !mail.is_reply));
    assert_eq!(completeness(revision), "partial");
    assert_eq!(completeness(&groups[1].revisions[&1]), "complete");
    assert_ne!(groups[0].change_key, groups[1].change_key);
}

#[test]
fn shared_change_ids_make_one_series() {
    let rows = vec![
        mail(1, 1, "[PATCH 1/2] alpha", Some("I-ABC")),
        mail(2, 2, "[PATCH 2/2] omega", Some("i-abc")),
        mail(3, 3, "[PATCH] lone", Some("I-lone")),
    ];
    let groups = build_groups(rows);
    assert_eq!(groups.len(), 2);
    assert_eq!(groups[0].key, "change:i-abc");
    assert_eq!(groups[0].change_key, format!("change:{:016x}", fnv1a("change:i-abc")));
    // The spellings differ, so no single identifier stands for the series.
    assert_eq!(groups[0].change_id, None);
    assert_eq!(groups[1].change_id.as_deref(), Some("I-lone"));
    assert_eq!(groups[0].revisions[&1].members.len(), 2);
}

#[test]
fn stale_keys_are_those_without_a_series() {
    let rows = vec![mail(1, 1, "[PATCH] alpha", None)];
    let key = build_groups(vec![mail(1, 1, "[PATCH] alpha", None)])[0].change_key.clone();
    let plan = refresh(rows, vec!["gone".to_string(), key, "old".to_string()]);
    assert_eq!(plan.stale, vec!["gone", "old"]);
    assert_eq!(plan.persisted, 1);
    assert_eq!(plan.changes[0].revisions[0].cover_mail_id, None);
    assert_eq!(
        plan.changes[0].revisions[0].fingerprint,
        format!("{}:1", plan.changes[0].change_key)
    );
}

#[test]
fn followups_name_the_member_that_they_answer() {
    let rows = vec![
        mail(1, 1, "[PATCH 0/1] cover here", None),
        mail(1, 2, "Re: [PATCH 0/1] cover here", None),
        mail(1, 3, "Re: [PATCH 1/1] cover here", None),
    ];
    let plan = refresh(rows, Vec::new());
    let revision = &plan.changes[0].revisions[0];
    assert_eq!(revision.cover_mail_id, Some(1));
    assert!(revision.members[0].is_cover);
    assert_eq!(revision.followups[0].member_seq, None);
    assert_eq!(revision.followups[1].member_seq, Some(1));
}

#[test]
fn titles_authors_and_hashes() {
    assert_eq!(normalize_title(" MM:  Fix THE  bug now"), "mm: fix the");
    assert_eq!(normalize_title("one"), "one");
    assert_eq!(normalize_display_title("  a \t b  "), "a b");
    assert_eq!(normalize_author("Alice B <A@x>"), "aliceba@x");
    assert_eq!(fnv1a(""), 0xcbf29ce484222325);
    assert_eq!(fnv1a("a"), 0xaf63dc4c8601ec8c);
    assert_eq!(fnv1a("foobar"), 0x85944171f73967e8);
}

#[test]
fn series_titles_follow_matching_covers() {
    let one = vec!["Demo series".to_string()];
    assert_eq!(choose_series_title(&"add first".to_string(), &one), "Demo series");
    let two = vec!["Demo series".to_string(), "mm: cleanup work".to_string()];
    assert_eq!(choose_series_title(&"add first".to_string(), &two), "add first");
    assert_eq!(
        choose_series_title(&"MM: [cleanup] part".to_string(), &two),
        "mm: cleanup work"
    );
    assert_eq!(choose_series_title(&"x".to_string(), &Vec::new()), "x");
    let again = vec!["A b".to_string(), "A b".to_string()];
    assert_eq!(choose_series_title(&"x".to_string(), &again), "A b");
}

#[test]
fn complete_revisions_miss_nothing() {
    let member = |seq: i64| StoredMember {
        seq,
        total: 3,
        mail_id: seq,
        message_id: String::new(),
        subject: String::new(),
        raw_path: None,
    };
    let stored = |members: Vec<StoredMember>| StoredRevision {
        change_key: "k".to_string(),
        revision: 1,
        thread_id: None,
        subject: String::new(),
        author: String::new(),
        expected_total: 3,
        members,
        followup_count: 0,
        completeness: String::new(),
        status: String::new(),
    };
    let catalog = load_catalog(vec![
        stored(vec![member(0), member(2)]),
        stored(vec![member(3), member(2), member(1)]),
    ]);
    assert_eq!(catalog[0].missing, vec![1, 3]);
    assert!(catalog[1].missing.is_empty());
}

#[test]
fn unread_subjects_count_as_replies() {
    let row = mail(1, 1, "weekly status", None);
    assert!(row.is_reply);
    assert_eq!((row.parsed.version, row.parsed.seq, row.parsed.total), (1, 0, 0));
    assert_eq!(row.parsed.title, "");
    assert!(build_groups(vec![row]).is_empty());
}

use codex_skills::mcp_loader::server_outcome;
use codex_skills::mcp_loader::collect_entry_outcomes;
use codex_skills::mcp_loader::entry_body;
use codex_skills::mcp_loader::entry_from_frontmatter;
use codex_skills::mcp_loader::first_text;
use codex_skills::mcp_loader::index_text;
use codex_skills::mcp_loader::merge_server_outcomes;
use codex_skills::mcp_loader::plan_entry;
use codex_skills::mcp_loader::skill_servers;
use codex_skills::mcp_loader::validate_entry_uri;
use codex_skills::mcp_loader::BlobResourceContents;
use codex_skills::mcp_loader::EntryOutcome;
use codex_skills::mcp_loader::EntryPlan;
use codex_skills::mcp_loader::IndexEntry;
use codex_skills::mcp_loader::McpSkillsOutcome;
use codex_skills::mcp_loader::ParsedSkillFrontmatter;
use codex_skills::mcp_loader::ReadResourceResult;
use codex_skills::mcp_loader::ReadResourceResultContents;
use codex_skills::mcp_loader::ResourceRead;
use codex_skills::mcp_loader::SkillServerConfig;
use codex_skills::mcp_loader::TextResourceContents;
use codex_skills::mcp_loader::MAX_URI_LEN;
use codex_skills::mcp_loader::SKILL_INDEX_URI;
use codex_skills::model::SkillError;
use codex_skills::model::SkillMetadata;
use codex_skills::model::SkillScope;

#[test]
fn validate_entry_uri_accepts_canonical_skill_scheme() {
    assert!(validate_entry_uri("skill://pull-requests/SKILL.md").is_ok());
}

#[test]
fn validate_entry_uri_accepts_domain_native_scheme() {
    assert!(validate_entry_uri("github://skills/review/SKILL.md").is_ok());
}

#[test]
fn validate_entry_uri_rejects_empty() {
    assert!(validate_entry_uri("").is_err());
}

#[test]
fn validate_entry_uri_rejects_missing_scheme() {
    assert!(validate_entry_uri("pull-requests/SKILL.md").is_err());
}

#[test]
fn validate_entry_uri_rejects_control_chars() {
    assert!(validate_entry_uri("skill://has\nnewline").is_err());
    assert!(validate_entry_uri("skill://has\ttab").is_err());
    assert!(validate_entry_uri("skill://has\0null").is_err());
}

#[test]
fn validate_entry_uri_rejects_invalid_scheme() {
    assert!(validate_entry_uri("1bad://x").is_err());
    assert!(validate_entry_uri("://x").is_err());
    assert!(validate_entry_uri("bad scheme://x").is_err());
}

#[test]
fn validate_entry_uri_rejects_too_long() {
    let long = format!("skill://{}", "a".repeat(MAX_URI_LEN));
    assert!(validate_entry_uri(&long).is_err());
}

#[test]
fn first_text_prefers_text_over_blob() {
    let result = ReadResourceResult {
        contents: vec![
            ReadResourceResultContents::BlobResourceContents(BlobResourceContents {
                blob: "abc".to_owned(),
                mime_type: Some("application/octet-stream".to_owned()),
                uri: "x".to_owned(),
            }),
            ReadResourceResultContents::TextResourceContents(TextResourceContents {
                mime_type: Some("text/markdown".to_owned()),
                text: "---\nname: x\n---\n".to_owned(),
                uri: "x".to_owned(),
            }),
        ],
    };
    assert_eq!(first_text(&result), Some("---\nname: x\n---\n"));
}

fn text(t: &str) -> ReadResourceResultContents {
    ReadResourceResultContents::TextResourceContents(TextResourceContents {
        mime_type: None,
        text: t.to_owned(),
        uri: "x".to_owned(),
    })
}

fn blob() -> ReadResourceResultContents {
    ReadResourceResultContents::BlobResourceContents(BlobResourceContents {
        blob: "AAAA".to_owned(),
        mime_type: None,
        uri: "x".to_owned(),
    })
}

#[test]
fn validate_entry_uri_reports_each_reason() {
    assert_eq!(validate_entry_uri(""), Err("url is empty".to_owned()));
    let long = format!("skill://{}", "a".repeat(MAX_URI_LEN));
    assert_eq!(
        validate_entry_uri(&long),
        Err("url is 2056 bytes; limit is 2048".to_owned())
    );
    assert_eq!(
        validate_entry_uri("skill://a\u{85}b"),
        Err("url contains control characters".to_owned())
    );
    assert_eq!(
        validate_entry_uri("no-scheme-here"),
        Err("url is missing a scheme (expected e.g. `skill://...`)".to_owned())
    );
    assert_eq!(
        validate_entry_uri(":rest"),
        Err("url scheme is empty".to_owned())
    );
    assert_eq!(
        validate_entry_uri("bad scheme://x"),
        Err("url scheme `bad scheme` is not a valid URI scheme".to_owned())
    );
    assert_eq!(
        validate_entry_uri("s+a.b-c9://x:y"),
        Ok(())
    );
}

#[test]
fn validate_entry_uri_counts_bytes_not_chars() {
    // 2048 bytes exactly: accepted.
    let exact = format!("skill://{}", "a".repeat(MAX_URI_LEN - 8));
    assert!(validate_entry_uri(&exact).is_ok());
    // Fewer than 2048 characters but more than 2048 bytes: refused.
    let wide = format!("skill://{}", "\u{e9}".repeat(1100));
    assert_eq!(
        validate_entry_uri(&wide),
        Err("url is 2208 bytes; limit is 2048".to_owned())
    );
}

#[test]
fn first_text_none_without_text() {
    let only_blobs = ReadResourceResult { contents: vec![blob(), blob()] };
    assert_eq!(first_text(&only_blobs), None);
    let empty = ReadResourceResult { contents: vec![] };
    assert_eq!(first_text(&empty), None);
    let two = ReadResourceResult { contents: vec![text("first"), text("second")] };
    assert_eq!(first_text(&two), Some("first"));
}

#[test]
fn index_text_reads_only_loaded_text() {
    let loaded = ResourceRead::Loaded(ReadResourceResult { contents: vec![blob(), text("{}")] });
    assert_eq!(index_text(&loaded), Some("{}".to_owned()));
    let no_text = ResourceRead::Loaded(ReadResourceResult { contents: vec![blob()] });
    assert_eq!(index_text(&no_text), None);
    assert_eq!(index_text(&ResourceRead::Failed("boom".to_owned())), None);
    assert_eq!(index_text(&ResourceRead::TimedOut), None);
    assert_eq!(SKILL_INDEX_URI, "skill://index.json");
}

fn entry(kind: Option<&str>, url: Option<&str>) -> IndexEntry {
    IndexEntry {
        entry_type: kind.map(|s| s.to_owned()),
        name: Some("pr".to_owned()),
        url: url.map(|s| s.to_owned()),
    }
}

#[test]
fn plan_entry_skips_unknown_and_template_types() {
    assert!(matches!(
        plan_entry("srv", &entry(Some("mcp-resource-template"), Some("skill://docs/{p}/SKILL.md"))),
        EntryPlan::Skip
    ));
    assert!(matches!(plan_entry("srv", &entry(Some("other"), Some("skill://x"))), EntryPlan::Skip));
    assert!(matches!(plan_entry("srv", &entry(None, Some("skill://x"))), EntryPlan::Skip));
}

#[test]
fn plan_entry_rejects_missing_or_invalid_url() {
    match plan_entry("srv", &entry(Some("skill-md"), None)) {
        EntryPlan::Reject(e) => assert_eq!(
            e,
            SkillError {
                path: "mcp://srv/<index>".to_owned(),
                message: "skill-md index entry missing required `url` field".to_owned(),
            }
        ),
        other => panic!("unexpected plan {other:?}"),
    }
    match plan_entry("srv", &entry(Some("skill-md"), Some("no scheme"))) {
        EntryPlan::Reject(e) => assert_eq!(
            e,
            SkillError {
                path: "mcp://srv/<index>".to_owned(),
                message: "`srv` advertised invalid skill-md url: url is missing a scheme (expected e.g. `skill://...`)".to_owned(),
            }
        ),
        other => panic!("unexpected plan {other:?}"),
    }
}

#[test]
fn plan_entry_fetches_valid_url() {
    match plan_entry("srv", &entry(Some("skill-md"), Some("skill://pr/SKILL.md"))) {
        EntryPlan::Fetch(uri) => assert_eq!(uri, "skill://pr/SKILL.md"),
        other => panic!("unexpected plan {other:?}"),
    }
}

#[test]
fn entry_body_reports_each_failure() {
    let ok = ResourceRead::Loaded(ReadResourceResult { contents: vec![text("body")] });
    assert_eq!(entry_body("srv", "skill://a/SKILL.md", &ok), Ok("body".to_owned()));
    let no_text = ResourceRead::Loaded(ReadResourceResult { contents: vec![blob()] });
    assert_eq!(
        entry_body("srv", "skill://a/SKILL.md", &no_text),
        Err(SkillError {
            path: "skill://a/SKILL.md".to_owned(),
            message: "`srv` returned non-text content for `skill://a/SKILL.md`".to_owned(),
        })
    );
    assert_eq!(
        entry_body("srv", "skill://a/SKILL.md", &ResourceRead::Failed("not found".to_owned())),
        Err(SkillError {
            path: "skill://a/SKILL.md".to_owned(),
            message: "resources/read failed for `srv` (skill://a/SKILL.md): not found".to_owned(),
        })
    );
    assert_eq!(
        entry_body("srv", "skill://a/SKILL.md", &ResourceRead::TimedOut),
        Err(SkillError {
            path: "skill://a/SKILL.md".to_owned(),
            message: "resources/read timed out after 10s for `srv` (skill://a/SKILL.md)".to_owned(),
        })
    );
}

#[test]
fn entry_from_frontmatter_builds_mcp_skill() {
    let parsed = ParsedSkillFrontmatter {
        name: "pull-requests".to_owned(),
        description: "Review PRs".to_owned(),
        short_description: Some("PRs".to_owned()),
    };
    match entry_from_frontmatter("github", "skill://pull-requests/SKILL.md".to_owned(), Ok(parsed)) {
        EntryOutcome::Skill(s) => assert_eq!(
            s,
            SkillMetadata {
                name: "pull-requests".to_owned(),
                description: "Review PRs".to_owned(),
                short_description: Some("PRs".to_owned()),
                path: "skill://pull-requests/SKILL.md".to_owned(),
                scope: SkillScope::Mcp,
                uri: Some("skill://pull-requests/SKILL.md".to_owned()),
                server_name: Some("github".to_owned()),
            }
        ),
        other => panic!("unexpected outcome {other:?}"),
    }
    match entry_from_frontmatter("github", "skill://x/SKILL.md".to_owned(), Err("bad frontmatter".to_owned())) {
        EntryOutcome::Error(e) => assert_eq!(
            e,
            SkillError { path: "skill://x/SKILL.md".to_owned(), message: "bad frontmatter".to_owned() }
        ),
        other => panic!("unexpected outcome {other:?}"),
    }
}

fn mcp_skill(name: &str, server: Option<&str>) -> SkillMetadata {
    SkillMetadata {
        name: name.to_owned(),
        description: String::new(),
        short_description: None,
        path: format!("skill://{name}/SKILL.md"),
        scope: SkillScope::Mcp,
        uri: Some(format!("skill://{name}/SKILL.md")),
        server_name: server.map(|s| s.to_owned()),
    }
}

#[test]
fn collect_entry_outcomes_keeps_order_and_drops_skips() {
    let outcome = collect_entry_outcomes(vec![
        EntryOutcome::Skill(mcp_skill("b", Some("s"))),
        EntryOutcome::Skipped,
        EntryOutcome::Error(SkillError { path: "p1".to_owned(), message: "m1".to_owned() }),
        EntryOutcome::Skill(mcp_skill("a", Some("s"))),
        EntryOutcome::Error(SkillError { path: "p2".to_owned(), message: "m2".to_owned() }),
    ]);
    let names: Vec<&str> = outcome.skills.iter().map(|s| s.name.as_str()).collect();
    assert_eq!(names, vec!["b", "a"]);
    let paths: Vec<&str> = outcome.errors.iter().map(|e| e.path.as_str()).collect();
    assert_eq!(paths, vec!["p1", "p2"]);
}

#[test]
fn merge_server_outcomes_sorts_by_server_then_name() {
    let first = McpSkillsOutcome {
        skills: vec![mcp_skill("zeta", Some("beta")), mcp_skill("alpha", Some("beta"))],
        errors: vec![SkillError { path: "e1".to_owned(), message: "m".to_owned() }],
    };
    let second = McpSkillsOutcome {
        skills: vec![
            mcp_skill("omega", Some("alpha")),
            mcp_skill("Zed", Some("beta")),
            mcp_skill("none", None),
        ],
        errors: vec![SkillError { path: "e2".to_owned(), message: "m".to_owned() }],
    };
    let merged = merge_server_outcomes(vec![first, second]);
    let keys: Vec<(Option<&str>, &str)> = merged
        .skills
        .iter()
        .map(|s| (s.server_name.as_deref(), s.name.as_str()))
        .collect();
    assert_eq!(
        keys,
        vec![
            (None, "none"),
            (Some("alpha"), "omega"),
            (Some("beta"), "Zed"),
            (Some("beta"), "alpha"),
            (Some("beta"), "zeta"),
        ]
    );
    let errors: Vec<&str> = merged.errors.iter().map(|e| e.path.as_str()).collect();
    assert_eq!(errors, vec!["e1", "e2"]);
}

#[test]
fn merge_server_outcomes_is_stable_for_equal_keys() {
    let mut a = mcp_skill("same", Some("srv"));
    a.description = "first".to_owned();
    let mut b = mcp_skill("same", Some("srv"));
    b.description = "second".to_owned();
    let merged = merge_server_outcomes(vec![
        McpSkillsOutcome { skills: vec![a], errors: vec![] },
        McpSkillsOutcome { skills: vec![b], errors: vec![] },
    ]);
    let descriptions: Vec<&str> = merged.skills.iter().map(|s| s.description.as_str()).collect();
    assert_eq!(descriptions, vec!["first", "second"]);
}

#[test]
fn skill_servers_keeps_enabled_opted_in_servers() {
    let configs = vec![
        SkillServerConfig { name: "a".to_owned(), enabled: true, mcp_skills: true },
        SkillServerConfig { name: "b".to_owned(), enabled: false, mcp_skills: true },
        SkillServerConfig { name: "c".to_owned(), enabled: true, mcp_skills: false },
        SkillServerConfig { name: "d".to_owned(), enabled: true, mcp_skills: true },
    ];
    assert_eq!(skill_servers(&configs), vec!["a".to_owned(), "d".to_owned()]);
}

#[test]
fn server_outcome_is_empty_without_index() {
    let none = server_outcome(None);
    assert!(none.skills.is_empty() && none.errors.is_empty());
    let some = server_outcome(Some(vec![
        EntryOutcome::Skipped,
        EntryOutcome::Skill(mcp_skill("a", Some("s"))),
    ]));
    assert_eq!(some.skills.len(), 1);
    assert!(some.errors.is_empty());
}

#[test]
fn merged_listing_ignores_server_order() {
    let make = || {
        (
            McpSkillsOutcome {
                skills: vec![mcp_skill("b", Some("one")), mcp_skill("a", Some("one"))],
                errors: vec![],
            },
            McpSkillsOutcome {
                skills: vec![mcp_skill("a", Some("two")), mcp_skill("c", Some("two"))],
                errors: vec![],
            },
        )
    };
    let (x1, y1) = make();
    let (x2, y2) = make();
    let forward = merge_server_outcomes(vec![x1, y1]);
    let backward = merge_server_outcomes(vec![y2, x2]);
    assert_eq!(forward.skills, backward.skills);
}

use codex_skills::injection::SkillInjections;
use codex_skills::injection::collect_explicit_skill_mentions;
use codex_skills::injection::file_injection;
use codex_skills::injection::injection_step;
use codex_skills::injection::mentioned_skills;
use codex_skills::injection::InjectionStep;
use codex_skills::injection::SkillInstructions;
use codex_skills::injection::UserInput;
use codex_skills::model::SkillLoadOutcome;
use codex_skills::model::SkillMetadata;
use codex_skills::model::SkillScope;

fn fs_skill(name: &str, path: &str) -> SkillMetadata {
    SkillMetadata {
        name: name.to_string(),
        description: format!("{name} description"),
        short_description: None,
        path: path.to_string(),
        scope: SkillScope::Repo,
        uri: None,
        server_name: None,
    }
}

fn invoke(name: &str, path: &str) -> UserInput {
    UserInput::Skill { name: name.to_string(), path: path.to_string() }
}

#[test]
fn mentions_follow_input_order_once_per_name() {
    let skills = vec![fs_skill("a", "/a"), fs_skill("b", "/b")];
    let inputs = vec![
        UserInput::Text { text: "hello".to_string() },
        invoke("b", "/b"),
        invoke("a", "/a"),
        invoke("b", "/b"),
    ];
    let names: Vec<String> = collect_explicit_skill_mentions(&inputs, &skills)
        .into_iter()
        .map(|s| s.name)
        .collect();
    assert_eq!(names, vec!["b".to_string(), "a".to_string()]);
}

#[test]
fn first_invocation_of_a_name_decides() {
    let skills = vec![fs_skill("a", "/a")];
    // The first invocation of `a` has the wrong path; the second is ignored.
    let inputs = vec![invoke("a", "/wrong"), invoke("a", "/a")];
    assert!(collect_explicit_skill_mentions(&inputs, &skills).is_empty());
}

#[test]
fn first_matching_skill_is_selected() {
    let mut first = fs_skill("a", "/a");
    first.description = "first".to_string();
    let mut second = fs_skill("a", "/a");
    second.description = "second".to_string();
    let inputs = vec![invoke("a", "/a")];
    let found = collect_explicit_skill_mentions(&inputs, &[first.clone(), second]);
    assert_eq!(found, vec![first]);
}

#[test]
fn mentioned_skills_needs_inputs_and_skills() {
    let outcome = SkillLoadOutcome { skills: vec![fs_skill("a", "/a")], errors: vec![] };
    assert!(mentioned_skills(&[], Some(&outcome)).is_empty());
    assert!(mentioned_skills(&[invoke("a", "/a")], None).is_empty());
    assert_eq!(mentioned_skills(&[invoke("a", "/a")], Some(&outcome)).len(), 1);
}

#[test]
fn mcp_skill_injects_read_instructions() {
    let skill = SkillMetadata {
        name: "pr".to_string(),
        description: String::new(),
        short_description: None,
        path: "skill://pr/SKILL.md".to_string(),
        scope: SkillScope::Mcp,
        uri: Some("skill://pr/SKILL.md".to_string()),
        server_name: Some("gh".to_string()),
    };
    match injection_step(skill) {
        InjectionStep::Ready { warning, item } => {
            assert_eq!(
                warning,
                "Skill pr is served by MCP server gh; the model will load it via read_mcp_resource(skill://pr/SKILL.md)."
            );
            assert_eq!(item.name, "pr");
            assert_eq!(item.path, "skill://pr/SKILL.md");
            assert_eq!(
                item.contents,
                "The user explicitly invoked the `pr` skill, which is served by MCP server `gh`. Before acting on the user's request, call read_mcp_resource(server=\"gh\", uri=\"skill://pr/SKILL.md\") to load the SKILL.md body. Use the server and URI exactly as given; do not rewrite them."
            );
        }
        other => panic!("unexpected step {other:?}"),
    }
}

#[test]
fn filesystem_skill_needs_a_read() {
    let skill = fs_skill("a", "/skills/a/SKILL.md");
    match injection_step(skill.clone()) {
        InjectionStep::ReadFile(s) => assert_eq!(s, skill),
        other => panic!("unexpected step {other:?}"),
    }
    assert_eq!(
        file_injection(skill.clone(), Ok("body".to_string())),
        Ok(SkillInstructions {
            name: "a".to_string(),
            path: "/skills/a/SKILL.md".to_string(),
            contents: "body".to_string(),
        })
    );
    assert_eq!(
        file_injection(skill, Err("No such file or directory".to_string())),
        Err("Failed to load skill a at /skills/a/SKILL.md: No such file or directory".to_string())
    );
}

#[test]
fn invocation_path_matches_by_components() {
    let skills = vec![fs_skill("a", "/skills/a")];
    for path in ["/skills/a/", "/skills//a", "/skills/./a", "/skills/a/."] {
        let found = collect_explicit_skill_mentions(&[invoke("a", path)], &skills);
        assert_eq!(found.len(), 1, "{path} should match /skills/a");
    }
    for path in ["skills/a", "/skills/a/..", "/skills/b", "./skills/a"] {
        let found = collect_explicit_skill_mentions(&[invoke("a", path)], &skills);
        assert!(found.is_empty(), "{path} should not match /skills/a");
    }
    let relative = vec![fs_skill("r", "./x/y")];
    assert_eq!(collect_explicit_skill_mentions(&[invoke("r", ".//x/y/")], &relative).len(), 1);
    assert!(collect_explicit_skill_mentions(&[invoke("r", "x/y")], &relative).is_empty());
}

#[test]
fn injections_record_items_and_warnings() {
    let mut result = SkillInjections::default();
    let item = SkillInstructions {
        name: "a".to_string(),
        path: "/a".to_string(),
        contents: "body".to_string(),
    };
    result.record_ready("w1".to_string(), SkillInstructions {
        name: "m".to_string(),
        path: "skill://m".to_string(),
        contents: "c".to_string(),
    });
    result.record_file(Ok(item));
    result.record_file(Err("w2".to_string()));
    assert_eq!(result.warnings, vec!["w1".to_string(), "w2".to_string()]);
    let names: Vec<&str> = result.items.iter().map(|i| i.name.as_str()).collect();
    assert_eq!(names, vec!["m", "a"]);
}

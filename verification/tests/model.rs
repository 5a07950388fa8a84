use codex_skills::model::SkillLoadOutcome;
use codex_skills::model::SkillMetadata;
use codex_skills::model::SkillScope;
use codex_skills::model::SkillError;

fn fs_skill(name: &str) -> SkillMetadata {
    SkillMetadata {
        name: name.to_string(),
        description: String::new(),
        short_description: None,
        path: format!("/skills/{name}/SKILL.md"),
        scope: SkillScope::Repo,
        uri: None,
        server_name: None,
    }
}

fn mcp_skill(name: &str, server: &str) -> SkillMetadata {
    SkillMetadata {
        name: name.to_string(),
        description: String::new(),
        short_description: None,
        path: format!("skill://{name}/SKILL.md"),
        scope: SkillScope::Mcp,
        uri: Some(format!("skill://{name}/SKILL.md")),
        server_name: Some(server.to_string()),
    }
}

#[test]
fn add_mcp_skills_filesystem_wins_and_reports_masked() {
    let mut outcome = SkillLoadOutcome {
        skills: vec![fs_skill("alpha"), fs_skill("beta")],
        errors: Vec::new(),
    };

    let masked = outcome.add_mcp_skills(vec![
        mcp_skill("alpha", "srv"),
        mcp_skill("gamma", "srv"),
    ]);

    assert_eq!(masked, vec!["alpha".to_string()]);
    let names: Vec<&str> = outcome.skills.iter().map(|s| s.name.as_str()).collect();
    assert_eq!(names, vec!["alpha", "beta", "gamma"]);
    let alpha = outcome
        .skills
        .iter()
        .find(|s| s.name == "alpha")
        .expect("alpha present");
    assert!(alpha.uri.is_none(), "filesystem alpha must survive merge");
}

#[test]
fn add_mcp_skills_with_empty_input_is_noop() {
    let mut outcome = SkillLoadOutcome {
        skills: vec![fs_skill("alpha")],
        errors: Vec::new(),
    };
    let masked = outcome.add_mcp_skills(std::iter::empty().collect());
    assert!(masked.is_empty());
    assert_eq!(outcome.skills.len(), 1);
}

#[test]
fn add_mcp_skills_keeps_duplicate_new_names_and_errors() {
    let mut outcome = SkillLoadOutcome {
        skills: vec![fs_skill("alpha")],
        errors: vec![SkillError { path: "p".to_string(), message: "m".to_string() }],
    };
    let masked = outcome.add_mcp_skills(vec![
        mcp_skill("delta", "one"),
        mcp_skill("alpha", "one"),
        mcp_skill("delta", "two"),
        mcp_skill("alpha", "two"),
    ]);
    assert_eq!(masked, vec!["alpha".to_string(), "alpha".to_string()]);
    let servers: Vec<Option<&str>> =
        outcome.skills.iter().map(|s| s.server_name.as_deref()).collect();
    assert_eq!(servers, vec![None, Some("one"), Some("two")]);
    assert_eq!(outcome.errors.len(), 1);
}

#[test]
fn skill_metadata_clone_is_equal() {
    let s = mcp_skill("x", "srv");
    assert_eq!(s.clone(), s);
}

use codex_skills::model::SkillMetadata;
use codex_skills::model::SkillScope;
use codex_skills::render::render_skills_section;

fn fs_skill(name: &str, description: &str, path: &str) -> SkillMetadata {
    SkillMetadata {
        name: name.to_string(),
        description: description.to_string(),
        short_description: None,
        path: path.to_string(),
        scope: SkillScope::User,
        uri: None,
        server_name: None,
    }
}

fn mcp_skill(name: &str, description: &str, uri: &str, server: &str) -> SkillMetadata {
    SkillMetadata {
        name: name.to_string(),
        description: description.to_string(),
        short_description: None,
        path: uri.to_string(),
        scope: SkillScope::Mcp,
        uri: Some(uri.to_string()),
        server_name: Some(server.to_string()),
    }
}

#[test]
fn returns_none_when_empty() {
    assert!(render_skills_section(&[]).is_none());
}

#[test]
fn filesystem_only_does_not_emit_mcp_preamble() {
    let skills = vec![fs_skill(
        "git-flow",
        "manage commits",
        "/skills/git/SKILL.md",
    )];
    let rendered = render_skills_section(&skills).expect("non-empty");
    assert!(rendered.contains("- git-flow: manage commits (file: /skills/git/SKILL.md)"));
    assert!(!rendered.contains("read_mcp_resource"));
    assert!(!rendered.contains("uri:"));
}

#[test]
fn mcp_only_emits_uri_line_and_preamble() {
    let skills = vec![mcp_skill(
        "pull-requests",
        "review PRs",
        "skill://pull-requests/SKILL.md",
        "github-skills",
    )];
    let rendered = render_skills_section(&skills).expect("non-empty");
    assert!(rendered.contains("read_mcp_resource"));
    assert!(rendered.contains(
        "- pull-requests: review PRs (uri: skill://pull-requests/SKILL.md, server: github-skills)"
    ));
}

#[test]
fn mixed_sources_render_each_kind_with_matching_suffix() {
    let skills = vec![
        fs_skill("local", "local skill", "/skills/local/SKILL.md"),
        mcp_skill("remote", "remote skill", "skill://remote/SKILL.md", "srv"),
    ];
    let rendered = render_skills_section(&skills).expect("non-empty");
    assert!(rendered.contains("- local: local skill (file: /skills/local/SKILL.md)"));
    assert!(
        rendered.contains("- remote: remote skill (uri: skill://remote/SKILL.md, server: srv)")
    );
    assert!(rendered.contains("read_mcp_resource"));
}

#[test]
fn render_layout_and_path_separators() {
    let skills = vec![fs_skill("win", "windows", "C:\\skills\\win\\SKILL.md")];
    let rendered = render_skills_section(&skills).expect("non-empty");
    let lines: Vec<&str> = rendered.split('\n').collect();
    assert_eq!(lines[0], "## Skills");
    assert!(lines[1].starts_with("These skills are discovered at startup"));
    assert_eq!(lines[2], "- win: windows (file: C:/skills/win/SKILL.md)");
    assert!(lines[3].starts_with("- Discovery: Available skills are listed"));
    assert!(rendered.ends_with("pick the next-best approach, and continue."));
}

#[test]
fn uri_without_server_is_listed_by_file_but_keeps_preamble() {
    let mut skill = mcp_skill("half", "no server", "skill://half/SKILL.md", "srv");
    skill.server_name = None;
    let rendered = render_skills_section(&[skill]).expect("non-empty");
    let lines: Vec<&str> = rendered.split('\n').collect();
    assert!(lines[2].starts_with("Some skills are served by connected MCP servers"));
    assert!(lines[2].contains("catalog entry \u{2014} do not rewrite the URI."));
    assert_eq!(lines[3], "- half: no server (file: skill://half/SKILL.md)");
}

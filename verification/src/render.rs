//! Rendering of the skills section of the instructions.

use vstd::prelude::*;
use vstd::string::*;
use crate::model::{string_views, SkillMetadata};
use crate::text::{join, join_lines, owned, push_char};

verus! {

/// Heading of the skills section.
pub const SKILLS_HEADING: &'static str = "## Skills";

/// The sentence that opens the skills section.
pub const SKILLS_INTRO: &'static str = "These skills are discovered at startup from multiple local sources. Each entry includes a name, description, and file path so you can open the source for full instructions.";

/// Added when at least one skill is served by an MCP server.
pub const MCP_SKILLS_PREAMBLE: &'static str = "Some skills are served by connected MCP servers rather than the filesystem. \
    Those entries show `(uri: <scheme>://..., server: <name>)` instead of \
    `(file: ...)`; the scheme is usually `skill://` but servers MAY use a \
    domain-native scheme (for example `github://`). To read such a skill, call \
    the `read_mcp_resource` tool with the exact `server` and `uri` from the \
    catalog entry \u{2014} do not rewrite the URI. Relative references inside a \
    URI-backed SKILL.md (e.g. `references/GUIDE.md`) resolve against the \
    skill's directory: strip the trailing `SKILL.md` and append the relative \
    path.";

/// How to use skills; closes the skills section.
pub const SKILLS_USAGE_RULES: &'static str = r###"- Discovery: Available skills are listed in project docs and may also appear in a runtime "## Skills" section (name + description + file path). These are the sources of truth; skill bodies live on disk at the listed paths.
- Trigger rules: If the user names a skill (with `$SkillName` or plain text) OR the task clearly matches a skill's description, you must use that skill for that turn. Multiple mentions mean use them all. Do not carry skills across turns unless re-mentioned.
- Missing/blocked: If a named skill isn't in the list or the path can't be read, say so briefly and continue with the best fallback.
- How to use a skill (progressive disclosure):
  1) After deciding to use a skill, open its `SKILL.md`. Read only enough to follow the workflow.
  2) If `SKILL.md` points to extra folders such as `references/`, load only the specific files needed for the request; don't bulk-load everything.
  3) If `scripts/` exist, prefer running or patching them instead of retyping large code blocks.
  4) If `assets/` or templates exist, reuse them instead of recreating from scratch.
- Description as trigger: The YAML `description` in `SKILL.md` is the primary trigger signal; rely on it to decide applicability. If unsure, ask a brief clarification before proceeding.
- Coordination and sequencing:
  - If multiple skills apply, choose the minimal set that covers the request and state the order you'll use them.
  - Announce which skill(s) you're using and why (one short line). If you skip an obvious skill, say why.
- Context hygiene:
  - Keep context small: summarize long sections instead of pasting them; only load extra files when needed.
  - Avoid deeply nested references; prefer one-hop files explicitly linked from `SKILL.md`.
  - When variants exist (frameworks, providers, domains), pick only the relevant reference file(s) and note that choice.
- Safety and fallback: If a skill can't be applied cleanly (missing files, unclear instructions), state the issue, pick the next-best approach, and continue."###;

/// A path as displayed: every `\` becomes `/`.
pub open spec fn display_path(p: Seq<char>) -> Seq<char> {
    p.map_values(|c: char| if c == '\\' { '/' } else { c })
}

/// Whether a skill is listed by its URI and server rather than by its file.
pub open spec fn listed_by_uri(skill: SkillMetadata) -> bool {
    skill.uri is Some && skill.server_name is Some
}

/// The catalogue line of one skill.
pub open spec fn catalog_line(skill: SkillMetadata) -> Seq<char> {
    if listed_by_uri(skill) {
        "- "@ + skill.name@ + ": "@ + skill.description@ + " (uri: "@ + skill.uri->0@
            + ", server: "@ + skill.server_name->0@ + ")"@
    } else {
        "- "@ + skill.name@ + ": "@ + skill.description@ + " (file: "@ + display_path(skill.path@)
            + ")"@
    }
}

/// Whether some skill has a URI.
pub open spec fn any_uri(skills: Seq<SkillMetadata>) -> bool {
    exists|i: int| 0 <= i < skills.len() && (#[trigger] skills[i]).uri is Some
}

/// The lines of the skills section.
pub open spec fn section_lines(skills: Seq<SkillMetadata>) -> Seq<Seq<char>> {
    seq![SKILLS_HEADING@, SKILLS_INTRO@] + (if any_uri(skills) {
        seq![MCP_SKILLS_PREAMBLE@]
    } else {
        Seq::empty()
    }) + skills.map_values(|s: SkillMetadata| catalog_line(s)) + seq![SKILLS_USAGE_RULES@]
}

/// The skills section: its lines joined by newlines.
pub open spec fn section_text(skills: Seq<SkillMetadata>) -> Seq<char> {
    join(section_lines(skills), "\n"@)
}

fn display_path_string(p: &str) -> (r: String)
    ensures
        r@ == display_path(p@),
{
    let mut out = String::new();
    for c in it: p.chars()
        invariant
            it.seq() == p@,
            out@ == display_path(it.seq().take(it.index() as int)),
    {
        proof {
            assert(display_path(it.seq().take(it.index() + 1)) =~= display_path(
                it.seq().take(it.index() as int),
            ).push(if c == '\\' { '/' } else { c }));
        }
        if c == '\\' {
            push_char(&mut out, '/');
        } else {
            push_char(&mut out, c);
        }
    }
    proof {
        assert(p@.take(p@.len() as int) =~= p@);
    }
    out
}

fn catalog_line_string(skill: &SkillMetadata) -> (r: String)
    ensures
        r@ == catalog_line(*skill),
{
    let mut line = owned("- ");
    line.append(skill.name.as_str());
    line.append(": ");
    line.append(skill.description.as_str());
    match (&skill.uri, &skill.server_name) {
        (Some(uri), Some(server)) => {
            line.append(" (uri: ");
            line.append(uri.as_str());
            line.append(", server: ");
            line.append(server.as_str());
            line.append(")");
        },
        _ => {
            let path = display_path_string(skill.path.as_str());
            line.append(" (file: ");
            line.append(path.as_str());
            line.append(")");
        },
    }
    proof {
        assert(line@ =~= catalog_line(*skill));
    }
    line
}

fn has_uri(skills: &[SkillMetadata]) -> (r: bool)
    ensures
        r == any_uri(skills@),
{
    let mut i: usize = 0;
    while i < skills.len()
        invariant
            i <= skills@.len(),
            forall|j: int| 0 <= j < i ==> (#[trigger] skills@[j]).uri is None,
        decreases skills.len() - i,
    {
        if skills[i].uri.is_some() {
            return true;
        }
        i = i + 1;
    }
    false
}

/// The skills section of the instructions, or `None` when there are no
/// skills: a heading, an introduction, a note on MCP-served skills when any
/// skill has a URI, one line per skill, and the usage rules.
pub fn render_skills_section(skills: &[SkillMetadata]) -> (r: Option<String>)
    ensures
        skills@.len() == 0 ==> r is None,
        skills@.len() > 0 ==> r is Some && r->0@ == section_text(skills@),
{
    if skills.len() == 0 {
        return None;
    }
    let has_mcp_skill = has_uri(skills);
    let mut lines: Vec<String> = Vec::new();
    lines.push(owned(SKILLS_HEADING));
    lines.push(owned(SKILLS_INTRO));
    if has_mcp_skill {
        lines.push(owned(MCP_SKILLS_PREAMBLE));
    }
    let ghost head = string_views(lines@);
    assert(head =~= seq![SKILLS_HEADING@, SKILLS_INTRO@] + (if any_uri(skills@) {
        seq![MCP_SKILLS_PREAMBLE@]
    } else {
        Seq::empty()
    }));
    let mut i: usize = 0;
    while i < skills.len()
        invariant
            i <= skills@.len(),
            string_views(lines@) == head + skills@.take(i as int).map_values(
                |s: SkillMetadata| catalog_line(s),
            ),
        decreases skills.len() - i,
    {
        let line = catalog_line_string(&skills[i]);
        let ghost before = lines@;
        lines.push(line);
        proof {
            assert(string_views(lines@) =~= string_views(before).push(catalog_line(skills@[i as int])));
            assert(skills@.take(i + 1).map_values(|s: SkillMetadata| catalog_line(s)) =~= skills@.take(
                i as int,
            ).map_values(|s: SkillMetadata| catalog_line(s)).push(catalog_line(skills@[i as int])));
            assert(string_views(lines@) =~= head + skills@.take(i + 1).map_values(
                |s: SkillMetadata| catalog_line(s),
            ));
        }
        i = i + 1;
    }
    let ghost before = lines@;
    lines.push(owned(SKILLS_USAGE_RULES));
    proof {
        assert(string_views(lines@) =~= string_views(before).push(SKILLS_USAGE_RULES@));
        assert(skills@.take(skills@.len() as int) =~= skills@);
        assert(string_views(lines@) =~= section_lines(skills@));
    }
    Some(join_lines(&lines, "\n"))
}

/// The section's lines: heading, introduction, the MCP note exactly when some
/// skill has a URI, then one catalogue line per skill in order, then the
/// usage rules.
pub proof fn law_section_layout(skills: Seq<SkillMetadata>)
    ensures
        ({
            let lines = section_lines(skills);
            let off: int = if any_uri(skills) { 3 } else { 2 };
            &&& lines.len() == off + skills.len() + 1
            &&& lines[0] == SKILLS_HEADING@
            &&& lines[1] == SKILLS_INTRO@
            &&& any_uri(skills) ==> lines[2] == MCP_SKILLS_PREAMBLE@
            &&& forall|i: int| 0 <= i < skills.len() ==> lines[off + i] == catalog_line(#[trigger] skills[i])
            &&& lines[lines.len() - 1] == SKILLS_USAGE_RULES@
        }),
{
    let lines = section_lines(skills);
    let off: int = if any_uri(skills) { 3 } else { 2 };
    let cat = skills.map_values(|s: SkillMetadata| catalog_line(s));
    assert forall|i: int| 0 <= i < skills.len() implies lines[off + i] == catalog_line(#[trigger] skills[i]) by {
        assert(cat[i] == catalog_line(skills[i]));
    }
}

/// When any skill, at any position, has a URI, the note on MCP-served
/// skills is the third line, and the section has one more line.
pub proof fn law_mcp_note_when_some_skill_has_uri(skills: Seq<SkillMetadata>, i: int)
    requires
        0 <= i < skills.len(),
        skills[i].uri is Some,
    ensures
        section_lines(skills).len() == skills.len() + 4,
        section_lines(skills)[2] == MCP_SKILLS_PREAMBLE@,
{
    assert(any_uri(skills));
    law_section_layout(skills);
}

/// When no skill has a URI, there is no note: the catalogue lines follow
/// the introduction directly.
pub proof fn law_no_mcp_note_without_uri(skills: Seq<SkillMetadata>)
    requires
        forall|i: int| 0 <= i < skills.len() ==> (#[trigger] skills[i]).uri is None,
    ensures
        section_lines(skills).len() == skills.len() + 3,
        forall|i: int| 0 <= i < skills.len() ==> section_lines(skills)[2 + i] == catalog_line(#[trigger] skills[i]),
{
    assert(!any_uri(skills));
    law_section_layout(skills);
}

/// Displaying a path turns each `\` into `/` and keeps every other
/// character in place.
pub proof fn law_display_path(p: Seq<char>)
    ensures
        display_path(p).len() == p.len(),
        forall|i: int| 0 <= i < p.len() ==> #[trigger] display_path(p)[i] == (if p[i] == '\\' {
            '/'
        } else {
            p[i]
        }),
{
}

} // verus!

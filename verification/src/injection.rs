//! Explicit skill injection: which skills the user invoked, and what each
//! one adds to the conversation.

use vstd::prelude::*;
use vstd::string::*;
use crate::model::{contains_name, string_views, SkillLoadOutcome, SkillMetadata};
use crate::path::{path_components, same_path, same_path_spec};
use crate::text::owned;

verus! {

/// One piece of user input.
#[derive(Debug, PartialEq, Eq)]
pub enum UserInput {
    Text { text: String },
    Image { image_url: String },
    LocalImage { path: String },
    /// An explicit invocation of a skill.
    Skill { name: String, path: String },
}

/// The instructions of one skill, as they are injected.
#[derive(Debug, PartialEq, Eq)]
pub struct SkillInstructions {
    pub name: String,
    pub path: String,
    pub contents: String,
}

/// What explicit skill mentions add: instructions, and warnings to show.
#[derive(Debug, PartialEq, Eq)]
pub struct SkillInjections {
    pub items: Vec<SkillInstructions>,
    pub warnings: Vec<String>,
}

impl Default for SkillInjections {
    fn default() -> (r: Self)
        ensures
            r.items@.len() == 0,
            r.warnings@.len() == 0,
    {
        SkillInjections { items: Vec::new(), warnings: Vec::new() }
    }
}

impl SkillInjections {
    /// Records an MCP-served skill: its warning and its instructions.
    pub fn record_ready(&mut self, warning: String, item: SkillInstructions)
        ensures
            final(self).warnings@ == old(self).warnings@.push(warning),
            final(self).items@ == old(self).items@.push(item),
    {
        self.warnings.push(warning);
        self.items.push(item);
    }

    /// Records what the read of a filesystem skill gave: its instructions,
    /// or the warning that it could not be loaded.
    pub fn record_file(&mut self, read: Result<SkillInstructions, String>)
        ensures
            match read {
                Ok(item) => final(self).items@ == old(self).items@.push(item)
                    && final(self).warnings@ == old(self).warnings@,
                Err(w) => final(self).warnings@ == old(self).warnings@.push(w)
                    && final(self).items@ == old(self).items@,
            },
    {
        match read {
            Ok(item) => self.items.push(item),
            Err(w) => self.warnings.push(w),
        }
    }
}

/// The names of the skill invocations among `inputs`, in order.
pub open spec fn invoked_names(inputs: Seq<UserInput>) -> Seq<Seq<char>>
    decreases inputs.len(),
{
    if inputs.len() == 0 {
        Seq::empty()
    } else {
        let prev = invoked_names(inputs.drop_last());
        match inputs.last() {
            UserInput::Skill { name, .. } => prev.push(name@),
            _ => prev,
        }
    }
}

/// The first skill with this name and the same path (compared component by
/// component).
pub open spec fn find_skill(skills: Seq<SkillMetadata>, name: Seq<char>, path: Seq<char>) -> Option<
    SkillMetadata,
>
    decreases skills.len(),
{
    if skills.len() == 0 {
        None
    } else if skills[0].name@ == name && same_path_spec(skills[0].path@, path) {
        Some(skills[0])
    } else {
        find_skill(skills.drop_first(), name, path)
    }
}

/// The skills explicitly invoked, in input order: an invocation counts only
/// when it is the first one of its name, and selects the first skill of the
/// same name and path, if there is one.
pub open spec fn explicit_mentions(inputs: Seq<UserInput>, skills: Seq<SkillMetadata>) -> Seq<
    SkillMetadata,
>
    decreases inputs.len(),
{
    if inputs.len() == 0 {
        Seq::empty()
    } else {
        let prev = explicit_mentions(inputs.drop_last(), skills);
        match inputs.last() {
            UserInput::Skill { name, path } => if !invoked_names(inputs.drop_last()).contains(name@)
                && find_skill(skills, name@, path@) is Some {
                prev.push(find_skill(skills, name@, path@)->0)
            } else {
                prev
            },
            _ => prev,
        }
    }
}

fn find_skill_exec<'a>(skills: &'a [SkillMetadata], name: &String, path: &String) -> (r: Option<
    &'a SkillMetadata,
>)
    ensures
        match r {
            Some(k) => find_skill(skills@, name@, path@) == Some(*k),
            None => find_skill(skills@, name@, path@) is None,
        },
{
    let ghost all = skills@;
    assert(all.skip(0) =~= all);
    let mut j: usize = 0;
    while j < skills.len()
        invariant
            j <= all.len(),
            all == skills@,
            find_skill(all, name@, path@) == find_skill(all.skip(j as int), name@, path@),
        decreases skills.len() - j,
    {
        proof {
            assert(all.skip(j as int).drop_first() =~= all.skip(j + 1));
            assert(all.skip(j as int)[0] == all[j as int]);
        }
        if skills[j].name == *name && same_path(skills[j].path.as_str(), path.as_str()) {
            return Some(&skills[j]);
        }
        j = j + 1;
    }
    None
}

/// The skills that `inputs` explicitly invoke, each once, in input order.
pub fn collect_explicit_skill_mentions(inputs: &[UserInput], skills: &[SkillMetadata]) -> (r: Vec<
    SkillMetadata,
>)
    ensures
        r@ == explicit_mentions(inputs@, skills@),
{
    let mut selected: Vec<SkillMetadata> = Vec::new();
    let mut seen: Vec<String> = Vec::new();
    let mut i: usize = 0;
    while i < inputs.len()
        invariant
            i <= inputs@.len(),
            selected@ == explicit_mentions(inputs@.take(i as int), skills@),
            forall|n: Seq<char>|
                #![trigger invoked_names(inputs@.take(i as int)).contains(n)]
                string_views(seen@).contains(n) <==> invoked_names(
                    inputs@.take(i as int),
                ).contains(n),
        decreases inputs.len() - i,
    {
        let ghost prev_inputs = inputs@.take(i as int);
        let ghost prev_seen = seen@;
        proof {
            assert(inputs@.take(i + 1).drop_last() =~= prev_inputs);
            assert(inputs@.take(i + 1).last() == inputs@[i as int]);
        }
        match &inputs[i] {
            UserInput::Skill { name, path } => {
                let fresh = !contains_name(&seen, name);
                if fresh {
                    seen.push(name.clone());
                }
                proof {
                    let names = invoked_names(prev_inputs);
                    assert(invoked_names(inputs@.take(i + 1)) == names.push(name@));
                    assert forall|n: Seq<char>|
                        #![trigger invoked_names(inputs@.take(i + 1)).contains(n)]
                        string_views(seen@).contains(n) <==> invoked_names(
                            inputs@.take(i + 1),
                        ).contains(n) by {
                        let sv = string_views(seen@);
                        let pv = string_views(prev_seen);
                        if fresh {
                            assert(sv =~= pv.push(name@));
                        } else {
                            assert(sv =~= pv);
                        }
                        if names.push(name@).contains(n) {
                            if n != name@ {
                                let k = choose|k: int| 0 <= k < names.push(name@).len() && names.push(name@)[k] == n;
                                assert(names[k] == n);
                                assert(names.contains(n));
                            }
                        }
                        if names.contains(n) {
                            let k = choose|k: int| 0 <= k < names.len() && names[k] == n;
                            assert(names.push(name@)[k] == n);
                        }
                        assert(names.push(name@)[names.len() as int] == name@);
                        if sv.contains(n) && fresh {
                            if n != name@ {
                                let k = choose|k: int| 0 <= k < sv.len() && sv[k] == n;
                                assert(pv[k] == n);
                                assert(pv.contains(n));
                            }
                        }
                        if pv.contains(n) && fresh {
                            let k = choose|k: int| 0 <= k < pv.len() && pv[k] == n;
                            assert(sv[k] == n);
                        }
                        if fresh {
                            assert(sv[pv.len() as int] == name@);
                        }
                    }
                }
                if fresh {
                    match find_skill_exec(skills, name, path) {
                        Some(skill) => {
                            selected.push(skill.clone());
                        },
                        None => {},
                    }
                }
            },
            _ => {
                proof {
                    assert(invoked_names(inputs@.take(i + 1)) == invoked_names(prev_inputs));
                }
            },
        }
        i = i + 1;
    }
    proof {
        assert(inputs@.take(inputs@.len() as int) =~= inputs@);
    }
    selected
}

/// The skills that `inputs` explicitly invoke among the loaded ones; none
/// when there is no input or no skill was loaded.
pub fn mentioned_skills(inputs: &[UserInput], skills: Option<&SkillLoadOutcome>) -> (r: Vec<
    SkillMetadata,
>)
    ensures
        match skills {
            None => r@.len() == 0,
            Some(outcome) => r@ == explicit_mentions(inputs@, outcome.skills@),
        },
{
    if inputs.len() == 0 {
        return Vec::new();
    }
    match skills {
        None => Vec::new(),
        Some(outcome) => collect_explicit_skill_mentions(inputs, outcome.skills.as_slice()),
    }
}

pub open spec fn mcp_warning(name: Seq<char>, server: Seq<char>, uri: Seq<char>) -> Seq<char> {
    "Skill "@ + name + " is served by MCP server "@ + server
        + "; the model will load it via read_mcp_resource("@ + uri + ")."@
}

pub open spec fn mcp_instructions(name: Seq<char>, server: Seq<char>, uri: Seq<char>) -> Seq<char> {
    "The user explicitly invoked the `"@ + name + "` skill, which is served by MCP server `"@
        + server + "`. Before acting on the user's request, call read_mcp_resource(server=\""@
        + server + "\", uri=\""@ + uri
        + "\") to load the SKILL.md body. Use the server and URI exactly as given; do not rewrite them."@
}

pub open spec fn load_failure_warning(name: Seq<char>, path: Seq<char>, err: Seq<char>) -> Seq<char> {
    "Failed to load skill "@ + name + " at "@ + path + ": "@ + err
}

/// What injecting one skill takes.
#[derive(Debug)]
pub enum InjectionStep {
    /// An MCP-served skill: a warning and instructions naming the exact
    /// `read_mcp_resource` call that loads it.
    Ready { warning: String, item: SkillInstructions },
    /// A filesystem skill: its SKILL.md must be read first.
    ReadFile(SkillMetadata),
}

/// What injecting `skill` takes: an MCP-served skill (one with both a URI
/// and a server) is injected at once, any other needs its file read.
pub fn injection_step(skill: SkillMetadata) -> (r: InjectionStep)
    ensures
        match (skill.uri, skill.server_name) {
            (Some(u), Some(s)) => r matches InjectionStep::Ready { warning, item } && {
                &&& warning@ == mcp_warning(skill.name@, s@, u@)
                &&& item.name == skill.name
                &&& item.path@ == u@
                &&& item.contents@ == mcp_instructions(skill.name@, s@, u@)
            },
            _ => r == InjectionStep::ReadFile(skill),
        },
{
    match (&skill.uri, &skill.server_name) {
        (Some(uri), Some(server)) => {
            let mut warning = owned("Skill ");
            warning.append(skill.name.as_str());
            warning.append(" is served by MCP server ");
            warning.append(server.as_str());
            warning.append("; the model will load it via read_mcp_resource(");
            warning.append(uri.as_str());
            warning.append(").");
            let mut contents = owned("The user explicitly invoked the `");
            contents.append(skill.name.as_str());
            contents.append("` skill, which is served by MCP server `");
            contents.append(server.as_str());
            contents.append("`. Before acting on the user's request, call read_mcp_resource(server=\"");
            contents.append(server.as_str());
            contents.append("\", uri=\"");
            contents.append(uri.as_str());
            contents.append("\") to load the SKILL.md body. Use the server and URI exactly as given; do not rewrite them.");
            proof {
                assert(warning@ =~= mcp_warning(skill.name@, server@, uri@));
                assert(contents@ =~= mcp_instructions(skill.name@, server@, uri@));
            }
            let path = uri.clone();
            InjectionStep::Ready {
                warning,
                item: SkillInstructions { name: skill.name, path, contents },
            }
        },
        _ => InjectionStep::ReadFile(skill),
    }
}

/// The instructions of a filesystem skill from the read of its SKILL.md,
/// or the warning when the read failed.
pub fn file_injection(skill: SkillMetadata, read: Result<String, String>) -> (r: Result<
    SkillInstructions,
    String,
>)
    ensures
        match read {
            Ok(contents) => r == Ok::<SkillInstructions, String>(
                SkillInstructions { name: skill.name, path: skill.path, contents },
            ),
            Err(e) => r matches Err(w) && w@ == load_failure_warning(skill.name@, skill.path@, e@),
        },
{
    match read {
        Ok(contents) => Ok(SkillInstructions { name: skill.name, path: skill.path, contents }),
        Err(e) => {
            let mut warning = owned("Failed to load skill ");
            warning.append(skill.name.as_str());
            warning.append(" at ");
            warning.append(skill.path.as_str());
            warning.append(": ");
            warning.append(e.as_str());
            proof {
                assert(warning@ =~= load_failure_warning(skill.name@, skill.path@, e@));
            }
            Err(warning)
        },
    }
}

proof fn lemma_find_skill(skills: Seq<SkillMetadata>, name: Seq<char>, path: Seq<char>)
    ensures
        find_skill(skills, name, path) matches Some(k) ==> k.name@ == name && same_path_spec(
            k.path@,
            path,
        ) && skills.contains(k),
    decreases skills.len(),
{
    if skills.len() > 0 && !(skills[0].name@ == name && same_path_spec(skills[0].path@, path)) {
        lemma_find_skill(skills.drop_first(), name, path);
        if let Some(k) = find_skill(skills.drop_first(), name, path) {
            let i = choose|i: int| 0 <= i < skills.drop_first().len() && skills.drop_first()[i] == k;
            assert(skills[i + 1] == k);
        }
    } else if skills.len() > 0 {
        assert(skills.contains(skills[0]));
    }
}

proof fn lemma_invoked_names_prefix(inputs: Seq<UserInput>, n: Seq<char>)
    requires
        inputs.len() > 0,
        invoked_names(inputs.drop_last()).contains(n),
    ensures
        invoked_names(inputs).contains(n),
{
    let prev = invoked_names(inputs.drop_last());
    let k = choose|k: int| 0 <= k < prev.len() && prev[k] == n;
    match inputs.last() {
        UserInput::Skill { name, .. } => {
            assert(invoked_names(inputs)[k] == n);
        },
        _ => {},
    }
}

/// Every explicitly mentioned skill is one of the loaded skills, and its
/// name is that of a skill invocation among the inputs.
pub proof fn law_mentions_are_invoked_skills(inputs: Seq<UserInput>, skills: Seq<SkillMetadata>)
    ensures
        forall|i: int|
            0 <= i < explicit_mentions(inputs, skills).len() ==> skills.contains(
                #[trigger] explicit_mentions(inputs, skills)[i],
            ) && invoked_names(inputs).contains(explicit_mentions(inputs, skills)[i].name@),
    decreases inputs.len(),
{
    if inputs.len() > 0 {
        law_mentions_are_invoked_skills(inputs.drop_last(), skills);
        let prev = explicit_mentions(inputs.drop_last(), skills);
        let cur = explicit_mentions(inputs, skills);
        assert forall|i: int| 0 <= i < cur.len() implies skills.contains(#[trigger] cur[i])
            && invoked_names(inputs).contains(cur[i].name@) by {
            if i < prev.len() {
                assert(cur[i] == prev[i]);
                lemma_invoked_names_prefix(inputs, prev[i].name@);
            } else {
                match inputs.last() {
                    UserInput::Skill { name, path } => {
                        lemma_find_skill(skills, name@, path@);
                        let names = invoked_names(inputs.drop_last());
                        assert(invoked_names(inputs)[names.len() as int] == name@);
                    },
                    _ => {},
                }
            }
        }
    }
}

/// No skill name is injected twice: the explicit mentions have distinct
/// names, however often a skill is invoked.
pub proof fn law_mentions_have_distinct_names(inputs: Seq<UserInput>, skills: Seq<SkillMetadata>)
    ensures
        forall|i: int, j: int|
            0 <= i < j < explicit_mentions(inputs, skills).len() ==> (#[trigger] explicit_mentions(
                inputs,
                skills,
            )[i]).name@ != (#[trigger] explicit_mentions(inputs, skills)[j]).name@,
    decreases inputs.len(),
{
    if inputs.len() > 0 {
        law_mentions_have_distinct_names(inputs.drop_last(), skills);
        law_mentions_are_invoked_skills(inputs.drop_last(), skills);
        let prev = explicit_mentions(inputs.drop_last(), skills);
        let cur = explicit_mentions(inputs, skills);
        assert forall|i: int, j: int| 0 <= i < j < cur.len() implies (#[trigger] cur[i]).name@
            != (#[trigger] cur[j]).name@ by {
            if j < prev.len() {
                assert(cur[i] == prev[i] && cur[j] == prev[j]);
            } else {
                match inputs.last() {
                    UserInput::Skill { name, path } => {
                        lemma_find_skill(skills, name@, path@);
                        assert(cur[i] == prev[i]);
                        assert(invoked_names(inputs.drop_last()).contains(prev[i].name@));
                    },
                    _ => {},
                }
            }
        }
    }
}

/// The skill selected for an invocation is the first loaded skill with the
/// invocation's name whose path has exactly the invocation path's
/// components.
pub proof fn law_selected_skill_is_first_match(
    skills: Seq<SkillMetadata>,
    name: Seq<char>,
    path: Seq<char>,
    i: int,
)
    requires
        0 <= i < skills.len(),
        skills[i].name@ == name,
        path_components(skills[i].path@) == path_components(path),
        forall|j: int|
            0 <= j < i ==> !((#[trigger] skills[j]).name@ == name && path_components(skills[j].path@)
                == path_components(path)),
    ensures
        find_skill(skills, name, path) == Some(skills[i]),
    decreases i,
{
    if i > 0 {
        assert(!(skills[0].name@ == name && path_components(skills[0].path@) == path_components(path)));
        assert forall|j: int|
            0 <= j < i - 1 implies !((#[trigger] skills.drop_first()[j]).name@ == name
                && path_components(skills.drop_first()[j].path@) == path_components(path)) by {
            assert(skills.drop_first()[j] == skills[j + 1]);
        }
        assert(skills.drop_first()[i - 1] == skills[i]);
        law_selected_skill_is_first_match(skills.drop_first(), name, path, i - 1);
    }
}

/// No skill is selected when none has the name and the same path
/// components; a selected skill always has both.
pub proof fn law_selected_skill_matches(skills: Seq<SkillMetadata>, name: Seq<char>, path: Seq<char>)
    ensures
        find_skill(skills, name, path) matches Some(k) ==> k.name@ == name && path_components(k.path@)
            == path_components(path) && skills.contains(k),
        (forall|j: int|
            0 <= j < skills.len() ==> !((#[trigger] skills[j]).name@ == name && path_components(
                skills[j].path@,
            ) == path_components(path))) ==> find_skill(skills, name, path) is None,
    decreases skills.len(),
{
    lemma_find_skill(skills, name, path);
    if skills.len() > 0 {
        law_selected_skill_matches(skills.drop_first(), name, path);
        if forall|j: int|
            0 <= j < skills.len() ==> !((#[trigger] skills[j]).name@ == name && path_components(
                skills[j].path@,
            ) == path_components(path)) {
            assert(!(skills[0].name@ == name && path_components(skills[0].path@) == path_components(path)));
            assert forall|j: int|
                0 <= j < skills.drop_first().len() implies !((#[trigger] skills.drop_first()[j]).name@ == name
                    && path_components(skills.drop_first()[j].path@) == path_components(path)) by {
                assert(skills.drop_first()[j] == skills[j + 1]);
            }
        }
    }
}

/// Every invocation that is the first of its name, and for which a loaded
/// skill has that name and the same path, selects that skill.
pub proof fn law_first_invocations_are_mentioned(
    inputs: Seq<UserInput>,
    skills: Seq<SkillMetadata>,
    i: int,
)
    requires
        0 <= i < inputs.len(),
        inputs[i] is Skill,
        !invoked_names(inputs.take(i)).contains(inputs[i]->Skill_name@),
        find_skill(skills, inputs[i]->Skill_name@, inputs[i]->Skill_path@) is Some,
    ensures
        explicit_mentions(inputs, skills).contains(
            find_skill(skills, inputs[i]->Skill_name@, inputs[i]->Skill_path@)->0,
        ),
    decreases inputs.len(),
{
    let k = find_skill(skills, inputs[i]->Skill_name@, inputs[i]->Skill_path@)->0;
    let prev = explicit_mentions(inputs.drop_last(), skills);
    if i == inputs.len() - 1 {
        assert(inputs.drop_last() =~= inputs.take(i));
        assert(inputs.last() == inputs[i]);
        assert(explicit_mentions(inputs, skills) == prev.push(k));
        assert(explicit_mentions(inputs, skills)[prev.len() as int] == k);
    } else {
        assert(inputs.drop_last()[i] == inputs[i]);
        assert(inputs.drop_last().take(i) =~= inputs.take(i));
        law_first_invocations_are_mentioned(inputs.drop_last(), skills, i);
        let j = choose|j: int| 0 <= j < prev.len() && prev[j] == k;
        match inputs.last() {
            UserInput::Skill { name, path } => {
                if !invoked_names(inputs.drop_last()).contains(name@) && find_skill(skills, name@, path@) is Some {
                    assert(explicit_mentions(inputs, skills)[j] == k);
                } else {
                    assert(explicit_mentions(inputs, skills)[j] == k);
                }
            },
            _ => {
                assert(explicit_mentions(inputs, skills)[j] == k);
            },
        }
    }
}

/// The invocation that selected a mention.
pub open spec fn selected_by(inputs: Seq<UserInput>, skills: Seq<SkillMetadata>, i: int, m: SkillMetadata) -> bool {
    &&& 0 <= i < inputs.len()
    &&& inputs[i] is Skill
    &&& !invoked_names(inputs.take(i)).contains(inputs[i]->Skill_name@)
    &&& find_skill(skills, inputs[i]->Skill_name@, inputs[i]->Skill_path@) == Some(m)
}

/// Some first invocation of its name selected `m`.
pub open spec fn selected_by_some(inputs: Seq<UserInput>, skills: Seq<SkillMetadata>, m: SkillMetadata) -> bool {
    exists|i: int| selected_by(inputs, skills, i, m)
}

/// Every mention comes from the first invocation of its name, and is the
/// skill that invocation finds.
pub proof fn law_mentions_come_from_first_invocations(inputs: Seq<UserInput>, skills: Seq<SkillMetadata>)
    ensures
        forall|j: int|
            0 <= j < explicit_mentions(inputs, skills).len() ==> selected_by_some(
                inputs,
                skills,
                #[trigger] explicit_mentions(inputs, skills)[j],
            ),
    decreases inputs.len(),
{
    if inputs.len() > 0 {
        let d = inputs.drop_last();
        law_mentions_come_from_first_invocations(d, skills);
        let prev = explicit_mentions(d, skills);
        let cur = explicit_mentions(inputs, skills);
        assert forall|j: int| 0 <= j < cur.len() implies selected_by_some(inputs, skills, #[trigger] cur[j]) by {
            if j < prev.len() {
                assert(cur[j] == prev[j]);
                assert(selected_by_some(d, skills, prev[j]));
                let i = choose|i: int| selected_by(d, skills, i, prev[j]);
                assert(d[i] == inputs[i]);
                assert(d.take(i) =~= inputs.take(i));
                assert(selected_by(inputs, skills, i, cur[j]));
            } else {
                let i = inputs.len() - 1;
                assert(inputs.take(i) =~= d);
                assert(inputs[i] == inputs.last());
                match inputs.last() {
                    UserInput::Skill { name, path } => {
                        if !invoked_names(d).contains(name@) && find_skill(skills, name@, path@) is Some {
                            assert(cur == prev.push(find_skill(skills, name@, path@)->0));
                            assert(cur[j] == find_skill(skills, name@, path@)->0);
                            assert(selected_by(inputs, skills, i, cur[j]));
                        } else {
                            assert(cur == prev);
                        }
                    },
                    _ => {
                        assert(cur == prev);
                    },
                }
            }
        }
    }
}

} // verus!

//! The skill model: skill metadata, load errors, and the outcome of loading
//! skills from every source.

use vstd::prelude::*;

verus! {

/// Where a skill was found.
#[derive(Debug, Clone, Copy, PartialEq, Eq, Structural)]
pub enum SkillScope {
    User,
    Repo,
    System,
    Admin,
    /// Served by a connected MCP server.
    Mcp,
}

/// What is known of one skill.
#[derive(Debug, PartialEq, Eq)]
pub struct SkillMetadata {
    pub name: String,
    pub description: String,
    pub short_description: Option<String>,
    /// For filesystem skills, the absolute path to SKILL.md. For MCP-served
    /// skills, the `skill://` URI of SKILL.md, stored here so existing
    /// display paths continue to work.
    pub path: String,
    pub scope: SkillScope,
    /// `Some` for MCP-served skills. Equal to the `skill://` URI of the
    /// skill's SKILL.md resource. `None` for filesystem skills.
    pub uri: Option<String>,
    /// `Some` for MCP-served skills. The name of the MCP server from which
    /// this skill's index entry was fetched. `None` for filesystem skills.
    pub server_name: Option<String>,
}

/// A skill that could not be loaded, and why.
#[derive(Debug, PartialEq, Eq)]
pub struct SkillError {
    pub path: String,
    pub message: String,
}

/// The skills loaded from every source, and the errors met on the way.
#[derive(Debug)]
pub struct SkillLoadOutcome {
    pub skills: Vec<SkillMetadata>,
    pub errors: Vec<SkillError>,
}

/// A copy of an optional string.
pub fn clone_opt_string(s: &Option<String>) -> (r: Option<String>)
    ensures
        r == *s,
{
    match s {
        Some(v) => Some(v.clone()),
        None => None,
    }
}

impl Clone for SkillMetadata {
    fn clone(&self) -> (r: Self)
        ensures
            r == *self,
    {
        SkillMetadata {
            name: self.name.clone(),
            description: self.description.clone(),
            short_description: clone_opt_string(&self.short_description),
            path: self.path.clone(),
            scope: self.scope,
            uri: clone_opt_string(&self.uri),
            server_name: clone_opt_string(&self.server_name),
        }
    }
}

impl Clone for SkillError {
    fn clone(&self) -> (r: Self)
        ensures
            r == *self,
    {
        SkillError { path: self.path.clone(), message: self.message.clone() }
    }
}

impl Clone for SkillLoadOutcome {
    fn clone(&self) -> (r: Self)
        ensures
            r.skills@ == self.skills@,
            r.errors@ == self.errors@,
    {
        let skills = self.skills.clone();
        let errors = self.errors.clone();
        proof {
            assert(skills@ =~= self.skills@);
            assert(errors@ =~= self.errors@);
        }
        SkillLoadOutcome { skills, errors }
    }
}

impl Default for SkillLoadOutcome {
    fn default() -> (r: Self)
        ensures
            r.skills@.len() == 0,
            r.errors@.len() == 0,
    {
        SkillLoadOutcome { skills: Vec::new(), errors: Vec::new() }
    }
}

/// The names of `skills`, in order.
pub open spec fn skill_names(skills: Seq<SkillMetadata>) -> Seq<Seq<char>> {
    skills.map_values(|s: SkillMetadata| s.name@)
}

/// The MCP skills that an existing skill of the same name does not mask,
/// in their order.
pub open spec fn unmasked_skills(existing: Seq<Seq<char>>, mcp: Seq<SkillMetadata>) -> Seq<
    SkillMetadata,
>
    decreases mcp.len(),
{
    if mcp.len() == 0 {
        Seq::empty()
    } else {
        let prev = unmasked_skills(existing, mcp.drop_last());
        if existing.contains(mcp.last().name@) {
            prev
        } else {
            prev.push(mcp.last())
        }
    }
}

/// The names of the MCP skills that an existing skill of the same name
/// masks, in their order.
pub open spec fn masked_names(existing: Seq<Seq<char>>, mcp: Seq<SkillMetadata>) -> Seq<Seq<char>>
    decreases mcp.len(),
{
    if mcp.len() == 0 {
        Seq::empty()
    } else {
        let prev = masked_names(existing, mcp.drop_last());
        if existing.contains(mcp.last().name@) {
            prev.push(mcp.last().name@)
        } else {
            prev
        }
    }
}

/// The views of a list of strings.
pub open spec fn string_views(v: Seq<String>) -> Seq<Seq<char>> {
    v.map_values(|s: String| s@)
}

/// Whether `name` is among `names`.
pub fn contains_name(names: &Vec<String>, name: &String) -> (r: bool)
    ensures
        r == string_views(names@).contains(name@),
{
    let mut i: usize = 0;
    while i < names.len()
        invariant
            i <= names.len(),
            forall|j: int| 0 <= j < i ==> names@[j]@ != name@,
        decreases names.len() - i,
    {
        if names[i] == *name {
            assert(string_views(names@)[i as int] == name@);
            return true;
        }
        i = i + 1;
    }
    proof {
        if string_views(names@).contains(name@) {
            let j = choose|j: int| 0 <= j < string_views(names@).len() && string_views(names@)[j] == name@;
            assert(names@[j]@ == name@);
        }
    }
    false
}

impl SkillLoadOutcome {
    /// Append MCP-served skills into this outcome with filesystem-wins
    /// precedence on name collision. Returns the names of MCP skills that
    /// were masked by an existing entry so callers can log them.
    pub fn add_mcp_skills(&mut self, mcp_skills: Vec<SkillMetadata>) -> (masked: Vec<String>)
        ensures
            final(self).skills@ == old(self).skills@ + unmasked_skills(
                skill_names(old(self).skills@),
                mcp_skills@,
            ),
            final(self).errors@ == old(self).errors@,
            string_views(masked@) == masked_names(skill_names(old(self).skills@), mcp_skills@),
    {
        let ghost old_skills = self.skills@;
        let ghost old_errors = self.errors@;
        let ghost existing_names = skill_names(old_skills);
        let mut existing: Vec<String> = Vec::new();
        let mut i: usize = 0;
        while i < self.skills.len()
            invariant
                i <= self.skills.len(),
                self.skills@ == old_skills,
                self.errors@ == old_errors,
                existing_names == skill_names(old_skills),
                existing@.len() == i,
                string_views(existing@) == existing_names.take(i as int),
            decreases self.skills.len() - i,
        {
            let ghost before = existing@;
            existing.push(self.skills[i].name.clone());
            proof {
                assert(existing@ == before.push(old_skills[i as int].name));
                assert(existing_names[i as int] == old_skills[i as int].name@);
                assert forall|j: int| 0 <= j < i implies #[trigger] string_views(existing@)[j] == existing_names[j] by {
                    assert(existing@[j] == before[j]);
                    assert(string_views(before)[j] == existing_names.take(i as int)[j]);
                }
                assert(string_views(existing@) =~= existing_names.take(i + 1));
            }
            i = i + 1;
        }
        proof {
            assert(existing_names.take(old_skills.len() as int) =~= existing_names);
        }
        let mut masked: Vec<String> = Vec::new();
        let ghost all = mcp_skills@;
        for skill in it: mcp_skills
            invariant
                it.seq() == all,
                self.errors@ == old_errors,
                string_views(existing@) == existing_names,
                self.skills@ == old_skills + unmasked_skills(existing_names, all.take(it.index() as int)),
                string_views(masked@) == masked_names(existing_names, all.take(it.index() as int)),
        {
            let ghost done = all.take(it.index() as int);
            proof {
                assert(all.take(it.index() + 1).drop_last() =~= done);
                assert(all.take(it.index() + 1).last() == skill);
            }
            if contains_name(&existing, &skill.name) {
                masked.push(skill.name.clone());
                proof {
                    assert(string_views(masked@) =~= masked_names(existing_names, done).push(skill.name@));
                }
            } else {
                self.skills.push(skill);
                proof {
                    assert(self.skills@ =~= old_skills + unmasked_skills(existing_names, done).push(skill));
                }
            }
        }
        proof {
            assert(all.take(all.len() as int) =~= all);
        }
        masked
    }
}

/// Merging MCP skills splits them in two: every MCP skill is either added
/// (its name is not among the existing names) or reported as masked (its
/// name is among them), never both, and none is lost.
pub proof fn law_mcp_skills_partition(existing: Seq<Seq<char>>, mcp: Seq<SkillMetadata>)
    ensures
        unmasked_skills(existing, mcp).len() + masked_names(existing, mcp).len() == mcp.len(),
        forall|i: int|
            0 <= i < unmasked_skills(existing, mcp).len() ==> !existing.contains(
                #[trigger] unmasked_skills(existing, mcp)[i].name@,
            ),
        forall|i: int|
            0 <= i < masked_names(existing, mcp).len() ==> existing.contains(
                #[trigger] masked_names(existing, mcp)[i],
            ),
    decreases mcp.len(),
{
    if mcp.len() > 0 {
        law_mcp_skills_partition(existing, mcp.drop_last());
        let pu = unmasked_skills(existing, mcp.drop_last());
        let pm = masked_names(existing, mcp.drop_last());
        assert forall|i: int|
            0 <= i < unmasked_skills(existing, mcp).len() implies !existing.contains(
                #[trigger] unmasked_skills(existing, mcp)[i].name@,
            ) by {
            if i < pu.len() {
                assert(unmasked_skills(existing, mcp)[i] == pu[i]);
            }
        }
        assert forall|i: int|
            0 <= i < masked_names(existing, mcp).len() implies existing.contains(
                #[trigger] masked_names(existing, mcp)[i],
            ) by {
            if i < pm.len() {
                assert(masked_names(existing, mcp)[i] == pm[i]);
            }
        }
    }
}

/// Filesystem skills win: merging MCP skills keeps every existing skill, in
/// place, and adds no skill whose name an existing skill already has.
pub proof fn law_filesystem_skills_win(existing: Seq<SkillMetadata>, mcp: Seq<SkillMetadata>)
    ensures
        (existing + unmasked_skills(skill_names(existing), mcp)).take(existing.len() as int)
            == existing,
        forall|i: int, j: int|
            0 <= i < existing.len() && 0 <= j < unmasked_skills(skill_names(existing), mcp).len()
                ==> (#[trigger] existing[i]).name@ != (#[trigger] unmasked_skills(
                skill_names(existing),
                mcp,
            )[j]).name@,
{
    let names = skill_names(existing);
    let added = unmasked_skills(names, mcp);
    law_mcp_skills_partition(names, mcp);
    assert((existing + added).take(existing.len() as int) =~= existing);
    assert forall|i: int, j: int|
        0 <= i < existing.len() && 0 <= j < added.len() implies (#[trigger] existing[i]).name@
        != (#[trigger] added[j]).name@ by {
        assert(!names.contains(added[j].name@));
        assert(names[i] == existing[i].name@);
    }
}

/// The skills the merge adds are exactly the MCP skills, unchanged and in
/// their order, whose names are not among the existing names; the masked
/// names are the names of the others, in their order.
pub proof fn law_merge_is_a_filter(existing: Seq<Seq<char>>, mcp: Seq<SkillMetadata>)
    ensures
        unmasked_skills(existing, mcp) == mcp.filter(|s: SkillMetadata| !existing.contains(s.name@)),
        masked_names(existing, mcp) == mcp.filter(|s: SkillMetadata| existing.contains(s.name@)).map_values(
            |s: SkillMetadata| s.name@,
        ),
    decreases mcp.len(),
{
    reveal(Seq::filter);
    if mcp.len() > 0 {
        law_merge_is_a_filter(existing, mcp.drop_last());
        let kept = mcp.drop_last().filter(|s: SkillMetadata| existing.contains(s.name@));
        if existing.contains(mcp.last().name@) {
            assert(kept.push(mcp.last()).map_values(|s: SkillMetadata| s.name@) =~= kept.map_values(
                |s: SkillMetadata| s.name@,
            ).push(mcp.last().name@));
        }
    }
}

/// Every skill the merge adds is one of the MCP skills, as it was given:
/// its URI, server and every other field are kept.
pub proof fn law_added_skills_are_given_skills(existing: Seq<Seq<char>>, mcp: Seq<SkillMetadata>)
    ensures
        forall|i: int|
            0 <= i < unmasked_skills(existing, mcp).len() ==> mcp.contains(
                #[trigger] unmasked_skills(existing, mcp)[i],
            ),
    decreases mcp.len(),
{
    if mcp.len() > 0 {
        law_added_skills_are_given_skills(existing, mcp.drop_last());
        let prev = unmasked_skills(existing, mcp.drop_last());
        assert forall|i: int| 0 <= i < unmasked_skills(existing, mcp).len() implies mcp.contains(
            #[trigger] unmasked_skills(existing, mcp)[i],
        ) by {
            if i < prev.len() {
                assert(unmasked_skills(existing, mcp)[i] == prev[i]);
                let j = choose|j: int| 0 <= j < mcp.drop_last().len() && mcp.drop_last()[j] == prev[i];
                assert(mcp[j] == prev[i]);
            } else {
                assert(mcp[mcp.len() - 1] == mcp.last());
            }
        }
    }
}

} // verus!

//! Skills-over-MCP index loading: the decisions of the host side of the
//! `io.modelcontextprotocol/skills` extension, taken on plain values.

use vstd::prelude::*;
use vstd::string::*;
use vstd::utf8::encode_utf8;
use crate::model::{clone_opt_string, SkillError, SkillMetadata, SkillScope};
use crate::order::{
    is_listing_sorted, law_listing_is_sorted, law_listing_is_stable, lemma_skill_order_equal,
    lemma_sorted_unique, lemma_with_key_concat, lemma_with_key_none, server_bytes, skill_order,
    sort_by_server_and_name, sorted_by_server_and_name, with_key_of, Order,
};
use crate::text::{chars_of, decimal, decimal_string, owned, push_char, text_eq};

verus! {

/// Well-known URI for the Skills-over-MCP index resource.
pub const SKILL_INDEX_URI: &'static str = "skill://index.json";

/// MCP extension identifier declared by capability-supporting servers.
pub const SKILLS_EXTENSION_ID: &'static str = "io.modelcontextprotocol/skills";

/// Per-request timeout, in seconds, for `resources/read` calls issued
/// during skill discovery.
pub const SKILL_READ_TIMEOUT_SECS: u64 = 10;

/// Maximum accepted length, in bytes, for a server-supplied `url` field.
pub const MAX_URI_LEN: usize = 2048;

/// Whether `c` is in the Unicode `Cc` category (`char::is_control`).
pub open spec fn is_control_char(c: char) -> bool {
    (c as u32) <= 0x1f || (0x7f <= (c as u32) && (c as u32) <= 0x9f)
}

pub open spec fn is_ascii_alpha(c: char) -> bool {
    ('a' <= c && c <= 'z') || ('A' <= c && c <= 'Z')
}

pub open spec fn is_ascii_digit(c: char) -> bool {
    '0' <= c && c <= '9'
}

/// Characters allowed after the first one in a URI scheme.
pub open spec fn is_scheme_char(c: char) -> bool {
    is_ascii_alpha(c) || is_ascii_digit(c) || c == '+' || c == '-' || c == '.'
}

/// A URI scheme: an ASCII letter followed by letters, digits, `+`, `-` or `.`.
pub open spec fn valid_scheme(scheme: Seq<char>) -> bool {
    &&& scheme.len() > 0
    &&& is_ascii_alpha(scheme[0])
    &&& forall|j: int| 1 <= j < scheme.len() ==> is_scheme_char(#[trigger] scheme[j])
}

/// `k` is the position of the first `:` in `s`.
pub open spec fn is_first_colon(s: Seq<char>, k: int) -> bool {
    &&& 0 <= k < s.len()
    &&& s[k] == ':'
    &&& forall|j: int| 0 <= j < k ==> #[trigger] s[j] != ':'
}

pub open spec fn has_colon(s: Seq<char>) -> bool {
    exists|k: int| 0 <= k < s.len() && #[trigger] s[k] == ':'
}

/// Everything before the first `:`.
pub open spec fn scheme_of(s: Seq<char>) -> Seq<char> {
    s.take(choose|k: int| is_first_colon(s, k))
}

pub open spec fn has_control_char(s: Seq<char>) -> bool {
    exists|i: int| 0 <= i < s.len() && is_control_char(#[trigger] s[i])
}

/// The verdict on a server-supplied skill-md URL, given its characters and
/// its length in UTF-8 bytes: `Ok` or the reason it is refused.
pub open spec fn uri_verdict(chars: Seq<char>, byte_len: nat) -> Result<(), Seq<char>> {
    if chars.len() == 0 {
        Err("url is empty"@)
    } else if byte_len > MAX_URI_LEN {
        Err("url is "@ + decimal(byte_len) + " bytes; limit is "@ + decimal(MAX_URI_LEN as nat))
    } else if has_control_char(chars) {
        Err("url contains control characters"@)
    } else if !has_colon(chars) {
        Err("url is missing a scheme (expected e.g. `skill://...`)"@)
    } else if scheme_of(chars).len() == 0 {
        Err("url scheme is empty"@)
    } else if !valid_scheme(scheme_of(chars)) {
        Err("url scheme `"@ + scheme_of(chars) + "` is not a valid URI scheme"@)
    } else {
        Ok(())
    }
}

pub open spec fn unit_result_view(r: Result<(), String>) -> Result<(), Seq<char>> {
    match r {
        Ok(()) => Ok(()),
        Err(m) => Err(m@),
    }
}

proof fn lemma_first_colon_unique(s: Seq<char>, k: int)
    requires
        is_first_colon(s, k),
    ensures
        (choose|c: int| is_first_colon(s, c)) == k,
{
    let c = choose|c: int| is_first_colon(s, c);
    assert(is_first_colon(s, c));
    if c < k {
        assert(s[c] != ':');
    } else if c > k {
        assert(s[k] != ':');
    }
}

fn is_control(c: char) -> (r: bool)
    ensures
        r == is_control_char(c),
{
    let n = c as u32;
    n <= 0x1f || (0x7f <= n && n <= 0x9f)
}

fn is_alpha(c: char) -> (r: bool)
    ensures
        r == is_ascii_alpha(c),
{
    ('a' <= c && c <= 'z') || ('A' <= c && c <= 'Z')
}

fn scheme_char(c: char) -> (r: bool)
    ensures
        r == is_scheme_char(c),
{
    is_alpha(c) || ('0' <= c && c <= '9') || c == '+' || c == '-' || c == '.'
}

/// Validate a server-supplied skill-md URL before it is echoed into the
/// instructions or handed to `resources/read`: it must be non-empty, at most
/// `MAX_URI_LEN` bytes, free of control characters, and start with a
/// plausible `scheme:` prefix.
pub fn validate_entry_uri(uri: &str) -> (r: Result<(), String>)
    ensures
        unit_result_view(r) == uri_verdict(uri@, uri.spec_bytes().len()),
{
    let chars = chars_of(uri);
    if chars.len() == 0 {
        return Err(owned("url is empty"));
    }
    let n = uri.as_bytes().len();
    if n > MAX_URI_LEN {
        let mut m = owned("url is ");
        m.append(decimal_string(n).as_str());
        m.append(" bytes; limit is ");
        m.append(decimal_string(MAX_URI_LEN).as_str());
        return Err(m);
    }
    let mut i: usize = 0;
    while i < chars.len()
        invariant
            i <= chars@.len(),
            chars@ == uri@,
            chars@.len() > 0,
            uri.spec_bytes().len() <= MAX_URI_LEN,
            forall|j: int| 0 <= j < i ==> !is_control_char(#[trigger] chars@[j]),
        decreases chars.len() - i,
    {
        if is_control(chars[i]) {
            assert(has_control_char(uri@));
            return Err(owned("url contains control characters"));
        }
        i = i + 1;
    }
    let mut k: usize = 0;
    while k < chars.len() && chars[k] != ':'
        invariant
            k <= chars@.len(),
            chars@ == uri@,
            chars@.len() > 0,
            uri.spec_bytes().len() <= MAX_URI_LEN,
            !has_control_char(uri@),
            forall|j: int| 0 <= j < k ==> #[trigger] chars@[j] != ':',
        decreases chars.len() - k,
    {
        k = k + 1;
    }
    if k == chars.len() {
        return Err(owned("url is missing a scheme (expected e.g. `skill://...`)"));
    }
    proof {
        lemma_first_colon_unique(chars@, k as int);
    }
    let ghost scheme = chars@.take(k as int);
    assert(scheme == scheme_of(uri@));
    if k == 0 {
        return Err(owned("url scheme is empty"));
    }
    let mut ok = is_alpha(chars[0]);
    let mut j: usize = 1;
    while j < k
        invariant
            1 <= j <= k,
            k < chars@.len(),
            ok == (is_ascii_alpha(chars@[0]) && forall|m: int| 1 <= m < j ==> is_scheme_char(#[trigger] chars@[m])),
        decreases k - j,
    {
        ok = ok && scheme_char(chars[j]);
        j = j + 1;
    }
    assert(ok == valid_scheme(scheme)) by {
        assert(scheme.len() == k);
        assert(scheme[0] == chars@[0]);
        if ok {
            assert forall|m: int| 1 <= m < scheme.len() implies is_scheme_char(#[trigger] scheme[m]) by {
                assert(scheme[m] == chars@[m]);
            }
        }
        if valid_scheme(scheme) {
            assert forall|m: int| 1 <= m < k implies is_scheme_char(#[trigger] chars@[m]) by {
                assert(scheme[m] == chars@[m]);
            }
        }
    }
    if !ok {
        let mut m = owned("url scheme `");
        let mut p: usize = 0;
        while p < k
            invariant
                p <= k,
                k < chars@.len(),
                m@ == "url scheme `"@ + chars@.take(p as int),
            decreases k - p,
        {
            proof {
                assert(chars@.take(p + 1) =~= chars@.take(p as int).push(chars@[p as int]));
            }
            push_char(&mut m, chars[p]);
            p = p + 1;
        }
        m.append("` is not a valid URI scheme");
        assert(chars@.take(k as int) == scheme);
        return Err(m);
    }
    Ok(())
}

/// The verdict on a URL held as characters: its byte length is that of its
/// UTF-8 encoding.
pub open spec fn uri_check(url: Seq<char>) -> Result<(), Seq<char>> {
    uri_verdict(url, encode_utf8(url).len())
}

/// A text resource returned by `resources/read`.
#[derive(Debug, PartialEq, Eq)]
pub struct TextResourceContents {
    pub mime_type: Option<String>,
    pub text: String,
    pub uri: String,
}

/// A binary resource returned by `resources/read`, base64 encoded.
#[derive(Debug, PartialEq, Eq)]
pub struct BlobResourceContents {
    pub blob: String,
    pub mime_type: Option<String>,
    pub uri: String,
}

/// One of the contents of a `resources/read` result.
#[derive(Debug, PartialEq, Eq)]
pub enum ReadResourceResultContents {
    TextResourceContents(TextResourceContents),
    BlobResourceContents(BlobResourceContents),
}

/// The result of `resources/read`.
#[derive(Debug, PartialEq, Eq)]
pub struct ReadResourceResult {
    pub contents: Vec<ReadResourceResultContents>,
}

/// What came back from one `resources/read` request.
#[derive(Debug)]
pub enum ResourceRead {
    /// The server answered.
    Loaded(ReadResourceResult),
    /// The request failed; the error, rendered in full.
    Failed(String),
    /// No answer within `SKILL_READ_TIMEOUT_SECS`.
    TimedOut,
}

/// One entry of `skill://index.json`.
#[derive(Debug, PartialEq, Eq)]
pub struct IndexEntry {
    /// The entry's `type` field.
    pub entry_type: Option<String>,
    pub name: Option<String>,
    pub url: Option<String>,
}

/// The document `skill://index.json`.
#[derive(Debug, PartialEq, Eq)]
pub struct IndexDocument {
    pub skills: Vec<IndexEntry>,
}

/// The frontmatter of a SKILL.md body, as its parser hands it back.
#[derive(Debug, PartialEq, Eq)]
pub struct ParsedSkillFrontmatter {
    pub name: String,
    pub description: String,
    pub short_description: Option<String>,
}

/// What to do with one index entry.
#[derive(Debug)]
pub enum EntryPlan {
    /// An entry type that is not loaded (resource templates, unknown types).
    Skip,
    /// A `skill-md` entry whose `url` is missing or refused.
    Reject(SkillError),
    /// Read the SKILL.md at this URI.
    Fetch(String),
}

/// What one index entry gave.
#[derive(Debug)]
pub enum EntryOutcome {
    Skill(SkillMetadata),
    Error(SkillError),
    Skipped,
}

/// The skills and errors of MCP skill discovery.
#[derive(Debug)]
pub struct McpSkillsOutcome {
    pub skills: Vec<SkillMetadata>,
    pub errors: Vec<SkillError>,
}

impl Default for McpSkillsOutcome {
    fn default() -> (r: Self)
        ensures
            r.skills@.len() == 0,
            r.errors@.len() == 0,
    {
        McpSkillsOutcome { skills: Vec::new(), errors: Vec::new() }
    }
}

/// What skill discovery needs to know of one configured MCP server.
#[derive(Debug)]
pub struct SkillServerConfig {
    pub name: String,
    pub enabled: bool,
    pub mcp_skills: bool,
}

/// The text of the first text content, if any.
pub open spec fn first_text_of(contents: Seq<ReadResourceResultContents>) -> Option<Seq<char>>
    decreases contents.len(),
{
    if contents.len() == 0 {
        None
    } else {
        match contents[0] {
            ReadResourceResultContents::TextResourceContents(t) => Some(t.text@),
            ReadResourceResultContents::BlobResourceContents(_) => first_text_of(
                contents.drop_first(),
            ),
        }
    }
}

/// The text of the first text content of `result`; blobs are passed over.
pub fn first_text(result: &ReadResourceResult) -> (r: Option<&str>)
    ensures
        match r {
            Some(t) => first_text_of(result.contents@) == Some(t@),
            None => first_text_of(result.contents@) is None,
        },
{
    let ghost all = result.contents@;
    assert(all.skip(0) =~= all);
    let mut i: usize = 0;
    while i < result.contents.len()
        invariant
            i <= all.len(),
            all == result.contents@,
            first_text_of(all) == first_text_of(all.skip(i as int)),
        decreases result.contents.len() - i,
    {
        proof {
            assert(all.skip(i as int).drop_first() =~= all.skip(i + 1));
            assert(all.skip(i as int)[0] == all[i as int]);
        }
        match &result.contents[i] {
            ReadResourceResultContents::TextResourceContents(t) => {
                return Some(t.text.as_str());
            },
            ReadResourceResultContents::BlobResourceContents(_) => {},
        }
        i = i + 1;
    }
    proof {
        assert(all.skip(i as int).len() == 0);
    }
    None
}

/// The text of `skill://index.json` from the answer to its read: `None` when
/// the read failed, timed out, or held no text.
pub fn index_text(read: &ResourceRead) -> (r: Option<String>)
    ensures
        match read {
            ResourceRead::Loaded(res) => match r {
                Some(t) => first_text_of(res.contents@) == Some(t@),
                None => first_text_of(res.contents@) is None,
            },
            _ => r is None,
        },
{
    match read {
        ResourceRead::Loaded(res) => match first_text(res) {
            Some(t) => Some(owned(t)),
            None => None,
        },
        _ => None,
    }
}

/// The names of the servers whose configuration is enabled and opts into
/// skill discovery, in order.
pub open spec fn skill_server_names(configs: Seq<SkillServerConfig>) -> Seq<Seq<char>>
    decreases configs.len(),
{
    if configs.len() == 0 {
        Seq::empty()
    } else {
        let prev = skill_server_names(configs.drop_last());
        if configs.last().enabled && configs.last().mcp_skills {
            prev.push(configs.last().name@)
        } else {
            prev
        }
    }
}

/// The servers to ask for skills: those enabled and with `mcp_skills` set.
pub fn skill_servers(configs: &Vec<SkillServerConfig>) -> (r: Vec<String>)
    ensures
        r@.map_values(|s: String| s@) == skill_server_names(configs@),
{
    let mut out: Vec<String> = Vec::new();
    let mut i: usize = 0;
    while i < configs.len()
        invariant
            i <= configs@.len(),
            out@.map_values(|s: String| s@) == skill_server_names(configs@.take(i as int)),
        decreases configs.len() - i,
    {
        proof {
            assert(configs@.take(i + 1).drop_last() =~= configs@.take(i as int));
        }
        if configs[i].enabled && configs[i].mcp_skills {
            out.push(configs[i].name.clone());
            proof {
                assert(out@.map_values(|s: String| s@) =~= skill_server_names(
                    configs@.take(i as int),
                ).push(configs@[i as int].name@));
            }
        }
        i = i + 1;
    }
    proof {
        assert(configs@.take(configs@.len() as int) =~= configs@);
    }
    out
}

/// Whether an index entry has type `skill-md`.
pub open spec fn is_skill_md(entry: IndexEntry) -> bool {
    entry.entry_type matches Some(t) && t@ == "skill-md"@
}

/// The error path that names a server's index.
pub open spec fn index_error_path(server: Seq<char>) -> Seq<char> {
    "mcp://"@ + server + "/<index>"@
}

pub open spec fn missing_url_message() -> Seq<char> {
    "skill-md index entry missing required `url` field"@
}

pub open spec fn invalid_url_message(server: Seq<char>, reason: Seq<char>) -> Seq<char> {
    "`"@ + server + "` advertised invalid skill-md url: "@ + reason
}

fn index_error_path_string(server_name: &str) -> (r: String)
    ensures
        r@ == index_error_path(server_name@),
{
    let mut p = owned("mcp://");
    p.append(server_name);
    p.append("/<index>");
    p
}

/// Decide what to do with an index entry: skip entries that are not
/// `skill-md` (resource templates are deferred), refuse a `skill-md` entry
/// whose `url` is missing or fails `validate_entry_uri`, and otherwise fetch
/// the SKILL.md at that URL.
pub fn plan_entry(server_name: &str, entry: &IndexEntry) -> (r: EntryPlan)
    ensures
        match r {
            EntryPlan::Skip => !is_skill_md(*entry),
            EntryPlan::Reject(e) => {
                &&& is_skill_md(*entry)
                &&& e.path@ == index_error_path(server_name@)
                &&& match entry.url {
                    None => e.message@ == missing_url_message(),
                    Some(u) => uri_check(u@) matches Err(reason) && e.message@
                        == invalid_url_message(server_name@, reason),
                }
            },
            EntryPlan::Fetch(u) => {
                &&& is_skill_md(*entry)
                &&& entry.url matches Some(url) && url@ == u@
                &&& uri_check(u@) is Ok
            },
        },
{
    let is_md = match &entry.entry_type {
        Some(t) => text_eq(t.as_str(), "skill-md"),
        None => false,
    };
    if !is_md {
        return EntryPlan::Skip;
    }
    match &entry.url {
        None => EntryPlan::Reject(
            SkillError {
                path: index_error_path_string(server_name),
                message: owned("skill-md index entry missing required `url` field"),
            },
        ),
        Some(uri) => match validate_entry_uri(uri.as_str()) {
            Ok(()) => EntryPlan::Fetch(uri.clone()),
            Err(reason) => {
                let mut message = owned("`");
                message.append(server_name);
                message.append("` advertised invalid skill-md url: ");
                message.append(reason.as_str());
                EntryPlan::Reject(
                    SkillError { path: index_error_path_string(server_name), message },
                )
            },
        },
    }
}

pub open spec fn read_failed_message(server: Seq<char>, uri: Seq<char>, err: Seq<char>) -> Seq<char> {
    "resources/read failed for `"@ + server + "` ("@ + uri + "): "@ + err
}

pub open spec fn read_timed_out_message(server: Seq<char>, uri: Seq<char>) -> Seq<char> {
    "resources/read timed out after "@ + decimal(SKILL_READ_TIMEOUT_SECS as nat) + "s for `"@
        + server + "` ("@ + uri + ")"@
}

pub open spec fn non_text_message(server: Seq<char>, uri: Seq<char>) -> Seq<char> {
    "`"@ + server + "` returned non-text content for `"@ + uri + "`"@
}

/// The SKILL.md body from the answer to its read, or the error that the
/// entry gives when the read failed, timed out or held no text.
pub fn entry_body(server_name: &str, uri: &str, read: &ResourceRead) -> (r: Result<String, SkillError>)
    ensures
        match r {
            Ok(body) => read matches ResourceRead::Loaded(res) && first_text_of(res.contents@)
                == Some(body@),
            Err(e) => {
                &&& e.path@ == uri@
                &&& match read {
                    ResourceRead::Loaded(res) => first_text_of(res.contents@) is None
                        && e.message@ == non_text_message(server_name@, uri@),
                    ResourceRead::Failed(err) => e.message@ == read_failed_message(
                        server_name@,
                        uri@,
                        err@,
                    ),
                    ResourceRead::TimedOut => e.message@ == read_timed_out_message(
                        server_name@,
                        uri@,
                    ),
                }
            },
        },
{
    match read {
        ResourceRead::Loaded(res) => match first_text(res) {
            Some(body) => Ok(owned(body)),
            None => {
                let mut message = owned("`");
                message.append(server_name);
                message.append("` returned non-text content for `");
                message.append(uri);
                message.append("`");
                Err(SkillError { path: owned(uri), message })
            },
        },
        ResourceRead::Failed(err) => {
            let mut message = owned("resources/read failed for `");
            message.append(server_name);
            message.append("` (");
            message.append(uri);
            message.append("): ");
            message.append(err.as_str());
            Err(SkillError { path: owned(uri), message })
        },
        ResourceRead::TimedOut => {
            let mut message = owned("resources/read timed out after ");
            message.append(decimal_string(SKILL_READ_TIMEOUT_SECS as usize).as_str());
            message.append("s for `");
            message.append(server_name);
            message.append("` (");
            message.append(uri);
            message.append(")");
            Err(SkillError { path: owned(uri), message })
        },
    }
}

/// The skill, or the error, that a fetched SKILL.md gives once its
/// frontmatter is parsed. The frontmatter's `name` and `description` are
/// authoritative; the index entry's are not used.
pub fn entry_from_frontmatter(
    server_name: &str,
    uri: String,
    parsed: Result<ParsedSkillFrontmatter, String>,
) -> (r: EntryOutcome)
    ensures
        match parsed {
            Ok(p) => r matches EntryOutcome::Skill(s) && {
                &&& s.name == p.name
                &&& s.description == p.description
                &&& s.short_description == p.short_description
                &&& s.path == uri
                &&& s.scope == SkillScope::Mcp
                &&& s.uri == Some(uri)
                &&& s.server_name matches Some(n) && n@ == server_name@
            },
            Err(m) => r matches EntryOutcome::Error(e) && e.path == uri && e.message == m,
        },
{
    match parsed {
        Ok(p) => EntryOutcome::Skill(
            SkillMetadata {
                name: p.name,
                description: p.description,
                short_description: p.short_description,
                path: uri.clone(),
                scope: SkillScope::Mcp,
                uri: Some(uri),
                server_name: Some(owned(server_name)),
            },
        ),
        Err(message) => EntryOutcome::Error(SkillError { path: uri, message }),
    }
}

/// The skills of a list of entry outcomes, in order.
pub open spec fn outcome_skills(outcomes: Seq<EntryOutcome>) -> Seq<SkillMetadata>
    decreases outcomes.len(),
{
    if outcomes.len() == 0 {
        Seq::empty()
    } else {
        let prev = outcome_skills(outcomes.drop_last());
        match outcomes.last() {
            EntryOutcome::Skill(s) => prev.push(s),
            _ => prev,
        }
    }
}

/// The errors of a list of entry outcomes, in order.
pub open spec fn outcome_errors(outcomes: Seq<EntryOutcome>) -> Seq<SkillError>
    decreases outcomes.len(),
{
    if outcomes.len() == 0 {
        Seq::empty()
    } else {
        let prev = outcome_errors(outcomes.drop_last());
        match outcomes.last() {
            EntryOutcome::Error(e) => prev.push(e),
            _ => prev,
        }
    }
}

/// The outcome of one server: its entries' skills and errors, in entry
/// order; skipped entries leave no trace.
pub fn collect_entry_outcomes(outcomes: Vec<EntryOutcome>) -> (r: McpSkillsOutcome)
    ensures
        r.skills@ == outcome_skills(outcomes@),
        r.errors@ == outcome_errors(outcomes@),
{
    let ghost all = outcomes@;
    let mut out = McpSkillsOutcome { skills: Vec::new(), errors: Vec::new() };
    for o in it: outcomes
        invariant
            it.seq() == all,
            out.skills@ == outcome_skills(all.take(it.index() as int)),
            out.errors@ == outcome_errors(all.take(it.index() as int)),
    {
        proof {
            assert(all.take(it.index() + 1).drop_last() =~= all.take(it.index() as int));
            assert(all.take(it.index() + 1).last() == o);
        }
        match o {
            EntryOutcome::Skill(s) => out.skills.push(s),
            EntryOutcome::Error(e) => out.errors.push(e),
            EntryOutcome::Skipped => {},
        }
    }
    proof {
        assert(all.take(all.len() as int) =~= all);
    }
    out
}

/// The skills of every server outcome, server after server.
pub open spec fn gathered_skills(outcomes: Seq<McpSkillsOutcome>) -> Seq<SkillMetadata>
    decreases outcomes.len(),
{
    if outcomes.len() == 0 {
        Seq::empty()
    } else {
        gathered_skills(outcomes.drop_last()) + outcomes.last().skills@
    }
}

/// The errors of every server outcome, server after server.
pub open spec fn gathered_errors(outcomes: Seq<McpSkillsOutcome>) -> Seq<SkillError>
    decreases outcomes.len(),
{
    if outcomes.len() == 0 {
        Seq::empty()
    } else {
        gathered_errors(outcomes.drop_last()) + outcomes.last().errors@
    }
}

/// The outcome of one server: nothing when its index could not be had
/// (absent, failed, not text, malformed), which is not an error, else what
/// its entries gave.
pub fn server_outcome(entries: Option<Vec<EntryOutcome>>) -> (r: McpSkillsOutcome)
    ensures
        match entries {
            None => r.skills@.len() == 0 && r.errors@.len() == 0,
            Some(v) => r.skills@ == outcome_skills(v@) && r.errors@ == outcome_errors(v@),
        },
{
    match entries {
        None => McpSkillsOutcome { skills: Vec::new(), errors: Vec::new() },
        Some(v) => collect_entry_outcomes(v),
    }
}

/// Aggregate the outcomes of all servers: every error, in server order, and
/// every skill, sorted by server name and then by name so that the listing
/// is the same from one session to the next.
pub fn merge_server_outcomes(outcomes: Vec<McpSkillsOutcome>) -> (r: McpSkillsOutcome)
    ensures
        r.skills@ == sorted_by_server_and_name(gathered_skills(outcomes@)),
        r.errors@ == gathered_errors(outcomes@),
{
    let ghost all = outcomes@;
    let mut skills: Vec<SkillMetadata> = Vec::new();
    let mut errors: Vec<SkillError> = Vec::new();
    for o in it: outcomes
        invariant
            it.seq() == all,
            skills@ == gathered_skills(all.take(it.index() as int)),
            errors@ == gathered_errors(all.take(it.index() as int)),
    {
        proof {
            assert(all.take(it.index() + 1).drop_last() =~= all.take(it.index() as int));
            assert(all.take(it.index() + 1).last() == o);
        }
        let mut o = o;
        skills.append(&mut o.skills);
        errors.append(&mut o.errors);
    }
    proof {
        assert(all.take(all.len() as int) =~= all);
    }
    McpSkillsOutcome { skills: sort_by_server_and_name(skills), errors }
}

/// An accepted URL is non-empty, at most `MAX_URI_LEN` bytes long, free of
/// control characters, and begins with a valid scheme followed by `:`.
pub proof fn law_accepted_uri_is_well_formed(url: Seq<char>)
    requires
        uri_check(url) is Ok,
    ensures
        url.len() > 0,
        encode_utf8(url).len() <= MAX_URI_LEN,
        !has_control_char(url),
        is_first_colon(url, scheme_of(url).len() as int),
        valid_scheme(scheme_of(url)),
{
    let k = choose|k: int| 0 <= k < url.len() && #[trigger] url[k] == ':';
    lemma_first_colon_exists(url, k);
}

proof fn lemma_first_colon_exists(s: Seq<char>, k: int)
    requires
        0 <= k < s.len(),
        s[k] == ':',
    ensures
        exists|c: int| is_first_colon(s, c),
    decreases k,
{
    if exists|j: int| 0 <= j < k && s[j] == ':' {
        let j = choose|j: int| 0 <= j < k && s[j] == ':';
        lemma_first_colon_exists(s, j);
    } else {
        assert(is_first_colon(s, k));
    }
}

/// Every skill of `outcomes[i]` comes from the server whose name has the
/// bytes `tags[i]`.
pub open spec fn skills_tagged(outcomes: Seq<McpSkillsOutcome>, tags: Seq<Seq<u8>>) -> bool {
    &&& outcomes.len() == tags.len()
    &&& forall|i: int, j: int|
        0 <= i < outcomes.len() && 0 <= j < outcomes[i].skills@.len() ==> server_bytes(
            #[trigger] outcomes[i].skills@[j],
        ) == Some(tags[i])
}

/// No two server names are the same.
pub open spec fn distinct_tags(tags: Seq<Seq<u8>>) -> bool {
    forall|i: int, j: int| 0 <= i < j < tags.len() ==> #[trigger] tags[i] != #[trigger] tags[j]
}

proof fn lemma_gathered_with_key(
    outcomes: Seq<McpSkillsOutcome>,
    tags: Seq<Seq<u8>>,
    k: SkillMetadata,
    m: int,
)
    requires
        0 <= m <= outcomes.len(),
        skills_tagged(outcomes, tags),
        distinct_tags(tags),
    ensures
        forall|i: int|
            0 <= i < m && server_bytes(k) == Some(#[trigger] tags[i]) ==> with_key_of(
                gathered_skills(outcomes.take(m)),
                k,
            ) == with_key_of(outcomes[i].skills@, k),
        (forall|i: int| 0 <= i < m ==> server_bytes(k) != Some(#[trigger] tags[i])) ==> with_key_of(
            gathered_skills(outcomes.take(m)),
            k,
        ) == Seq::<SkillMetadata>::empty(),
    decreases m,
{
    if m == 0 {
        assert(outcomes.take(0) =~= Seq::<McpSkillsOutcome>::empty());
        assert(gathered_skills(outcomes.take(0)) =~= Seq::<SkillMetadata>::empty());
    } else {
        lemma_gathered_with_key(outcomes, tags, k, m - 1);
        let g = gathered_skills(outcomes.take(m - 1));
        let last = outcomes[m - 1].skills@;
        assert(outcomes.take(m).drop_last() =~= outcomes.take(m - 1));
        assert(outcomes.take(m).last() == outcomes[m - 1]);
        assert(gathered_skills(outcomes.take(m)) == g + last);
        lemma_with_key_concat(g, last, k);
        if server_bytes(k) == Some(tags[m - 1]) {
            assert forall|i: int| 0 <= i < m - 1 implies server_bytes(k) != Some(#[trigger] tags[i]) by {
                assert(tags[i] != tags[m - 1]);
            }
            assert(with_key_of(g, k) + with_key_of(last, k) =~= with_key_of(last, k));
        } else {
            assert forall|j: int| 0 <= j < last.len() implies skill_order(#[trigger] last[j], k)
                != Order::Equal by {
                assert(server_bytes(outcomes[m - 1].skills@[j]) == Some(tags[m - 1]));
                lemma_skill_order_equal(last[j], k);
            }
            lemma_with_key_none(last, k);
            assert(with_key_of(g, k) + with_key_of(last, k) =~= with_key_of(g, k));
        }
    }
}

/// The merged listing does not depend on the order in which the servers
/// were asked: when `b` holds the outcomes of `a` in another order (`b[j]`
/// is `a[perm[j]]`), and each outcome's skills all come from its own server,
/// no two servers sharing a name, both give the same listing.
pub proof fn law_listing_ignores_server_order(
    a: Seq<McpSkillsOutcome>,
    b: Seq<McpSkillsOutcome>,
    tags: Seq<Seq<u8>>,
    perm: Seq<int>,
)
    requires
        skills_tagged(a, tags),
        distinct_tags(tags),
        b.len() == a.len(),
        perm.len() == a.len(),
        forall|j: int| 0 <= j < b.len() ==> 0 <= #[trigger] perm[j] < a.len() && b[j] == a[perm[j]],
        forall|j1: int, j2: int| 0 <= j1 < j2 < b.len() ==> #[trigger] perm[j1] != #[trigger] perm[j2],
        forall|i: int|
            #![trigger a[i]]
            0 <= i < a.len() ==> exists|j: int| 0 <= j < b.len() && #[trigger] perm[j] == i,
    ensures
        sorted_by_server_and_name(gathered_skills(a)) == sorted_by_server_and_name(gathered_skills(b)),
{
    let tb = Seq::new(b.len(), |j: int| tags[perm[j]]);
    assert(skills_tagged(b, tb)) by {
        assert forall|i: int, j: int| 0 <= i < b.len() && 0 <= j < b[i].skills@.len() implies server_bytes(
            #[trigger] b[i].skills@[j],
        ) == Some(tb[i]) by {
            assert(b[i] == a[perm[i]]);
            assert(server_bytes(a[perm[i]].skills@[j]) == Some(tags[perm[i]]));
        }
    }
    assert(distinct_tags(tb)) by {
        assert forall|i: int, j: int| 0 <= i < j < tb.len() implies #[trigger] tb[i] != #[trigger] tb[j] by {
            assert(perm[i] != perm[j]);
            if perm[i] < perm[j] {
                assert(tags[perm[i]] != tags[perm[j]]);
            } else {
                assert(tags[perm[j]] != tags[perm[i]]);
            }
        }
    }
    let u = sorted_by_server_and_name(gathered_skills(a));
    let v = sorted_by_server_and_name(gathered_skills(b));
    assert(a.take(a.len() as int) =~= a);
    assert(b.take(b.len() as int) =~= b);
    assert forall|k: SkillMetadata| #[trigger] with_key_of(u, k) == with_key_of(v, k) by {
        law_listing_is_stable(gathered_skills(a), k);
        law_listing_is_stable(gathered_skills(b), k);
        lemma_gathered_with_key(a, tags, k, a.len() as int);
        lemma_gathered_with_key(b, tb, k, b.len() as int);
        if exists|i: int| 0 <= i < a.len() && server_bytes(k) == Some(#[trigger] tags[i]) {
            let i = choose|i: int| 0 <= i < a.len() && server_bytes(k) == Some(#[trigger] tags[i]);
            let ai = a[i];
            let j = choose|j: int| 0 <= j < b.len() && #[trigger] perm[j] == i;
            assert(tb[j] == tags[i]);
            assert(b[j] == a[i]);
        } else {
            assert forall|j: int| 0 <= j < b.len() implies server_bytes(k) != Some(#[trigger] tb[j]) by {
                assert(tb[j] == tags[perm[j]]);
            }
        }
    }
    law_listing_is_sorted(gathered_skills(a));
    law_listing_is_sorted(gathered_skills(b));
    lemma_sorted_unique(u, v);
}

/// Merging the outcomes of two groups of servers gives the skills and the
/// errors of the first group followed by those of the second.
pub proof fn law_gathering_concatenates(a: Seq<McpSkillsOutcome>, b: Seq<McpSkillsOutcome>)
    ensures
        gathered_errors(a + b) == gathered_errors(a) + gathered_errors(b),
        gathered_skills(a + b) == gathered_skills(a) + gathered_skills(b),
    decreases b.len(),
{
    if b.len() == 0 {
        assert(a + b =~= a);
        assert(gathered_errors(a) + gathered_errors(b) =~= gathered_errors(a));
        assert(gathered_skills(a) + gathered_skills(b) =~= gathered_skills(a));
    } else {
        law_gathering_concatenates(a, b.drop_last());
        assert((a + b).drop_last() =~= a + b.drop_last());
        assert((a + b).last() == b.last());
        assert(gathered_errors(a + b) =~= gathered_errors(a) + gathered_errors(b));
        assert(gathered_skills(a + b) =~= gathered_skills(a) + gathered_skills(b));
    }
}

/// One server's outcome, merged alone, keeps all its errors and skills,
/// whether or not it has any skill.
pub proof fn law_gathering_one_server(o: McpSkillsOutcome)
    ensures
        gathered_errors(seq![o]) == o.errors@,
        gathered_skills(seq![o]) == o.skills@,
{
    assert(seq![o].drop_last() =~= Seq::<McpSkillsOutcome>::empty());
    assert(seq![o].last() == o);
    assert(gathered_errors(seq![o].drop_last()) =~= Seq::<SkillError>::empty());
    assert(gathered_skills(seq![o].drop_last()) =~= Seq::<SkillMetadata>::empty());
    assert(gathered_errors(seq![o]) =~= o.errors@);
    assert(gathered_skills(seq![o]) =~= o.skills@);
}

/// Every server's errors are kept, in server order: those of server `i`
/// stand between the errors of the servers before it and of those after.
pub proof fn law_merge_keeps_every_error(outcomes: Seq<McpSkillsOutcome>, i: int)
    requires
        0 <= i < outcomes.len(),
    ensures
        gathered_errors(outcomes) == gathered_errors(outcomes.take(i)) + outcomes[i].errors@
            + gathered_errors(outcomes.skip(i + 1)),
        gathered_skills(outcomes) == gathered_skills(outcomes.take(i)) + outcomes[i].skills@
            + gathered_skills(outcomes.skip(i + 1)),
{
    assert(outcomes =~= outcomes.take(i) + seq![outcomes[i]] + outcomes.skip(i + 1));
    law_gathering_concatenates(outcomes.take(i) + seq![outcomes[i]], outcomes.skip(i + 1));
    law_gathering_concatenates(outcomes.take(i), seq![outcomes[i]]);
    law_gathering_one_server(outcomes[i]);
}

/// Collecting entry outcomes in two parts gives the skills and errors of
/// the first part followed by those of the second.
pub proof fn law_collecting_concatenates(a: Seq<EntryOutcome>, b: Seq<EntryOutcome>)
    ensures
        outcome_skills(a + b) == outcome_skills(a) + outcome_skills(b),
        outcome_errors(a + b) == outcome_errors(a) + outcome_errors(b),
    decreases b.len(),
{
    if b.len() == 0 {
        assert(a + b =~= a);
        assert(outcome_skills(a) + outcome_skills(b) =~= outcome_skills(a));
        assert(outcome_errors(a) + outcome_errors(b) =~= outcome_errors(a));
    } else {
        law_collecting_concatenates(a, b.drop_last());
        assert((a + b).drop_last() =~= a + b.drop_last());
        assert((a + b).last() == b.last());
        assert(outcome_skills(a + b) =~= outcome_skills(a) + outcome_skills(b));
        assert(outcome_errors(a + b) =~= outcome_errors(a) + outcome_errors(b));
    }
}

/// One entry outcome alone: a skill gives that skill, an error that error,
/// and a skipped entry nothing.
pub proof fn law_collecting_one_entry(o: EntryOutcome)
    ensures
        outcome_skills(seq![o]) == (match o {
            EntryOutcome::Skill(s) => seq![s],
            _ => Seq::<SkillMetadata>::empty(),
        }),
        outcome_errors(seq![o]) == (match o {
            EntryOutcome::Error(e) => seq![e],
            _ => Seq::<SkillError>::empty(),
        }),
{
    assert(seq![o].drop_last() =~= Seq::<EntryOutcome>::empty());
    assert(seq![o].last() == o);
    assert(outcome_errors(seq![o].drop_last()) =~= Seq::<SkillError>::empty());
    assert(outcome_skills(seq![o].drop_last()) =~= Seq::<SkillMetadata>::empty());
    assert(outcome_skills(seq![o]) =~= (match o {
        EntryOutcome::Skill(s) => seq![s],
        _ => Seq::<SkillMetadata>::empty(),
    }));
    assert(outcome_errors(seq![o]) =~= (match o {
        EntryOutcome::Error(e) => seq![e],
        _ => Seq::<SkillError>::empty(),
    }));
}

/// The first text content gives the text, whatever its MIME type, when
/// only blobs come before it.
pub proof fn law_first_text_is_first_text_content(
    contents: Seq<ReadResourceResultContents>,
    i: int,
)
    requires
        0 <= i < contents.len(),
        contents[i] is TextResourceContents,
        forall|j: int| 0 <= j < i ==> #[trigger] contents[j] is BlobResourceContents,
    ensures
        first_text_of(contents) == Some(contents[i]->TextResourceContents_0.text@),
    decreases i,
{
    if i > 0 {
        assert forall|j: int| 0 <= j < i - 1 implies #[trigger] contents.drop_first()[j] is BlobResourceContents by {
            assert(contents.drop_first()[j] == contents[j + 1]);
        }
        assert(contents[0] is BlobResourceContents);
        assert(contents.drop_first()[i - 1] == contents[i]);
        law_first_text_is_first_text_content(contents.drop_first(), i - 1);
    }
}

/// There is no text exactly when every content is a blob.
pub proof fn law_no_text_only_blobs(contents: Seq<ReadResourceResultContents>)
    ensures
        first_text_of(contents) is None <==> forall|j: int|
            0 <= j < contents.len() ==> #[trigger] contents[j] is BlobResourceContents,
    decreases contents.len(),
{
    if contents.len() > 0 {
        law_no_text_only_blobs(contents.drop_first());
        if contents[0] is BlobResourceContents {
            if forall|j: int|
                0 <= j < contents.drop_first().len() ==> #[trigger] contents.drop_first()[j] is BlobResourceContents {
                assert forall|j: int| 0 <= j < contents.len() implies #[trigger] contents[j] is BlobResourceContents by {
                    if j > 0 {
                        assert(contents[j] == contents.drop_first()[j - 1]);
                    }
                }
            } else {
                let j = choose|j: int|
                    0 <= j < contents.drop_first().len() && !(#[trigger] contents.drop_first()[j] is BlobResourceContents);
                assert(contents[j + 1] == contents.drop_first()[j]);
            }
        }
    }
}

/// Selecting servers from two lists of configurations selects from the
/// first, then from the second.
pub proof fn law_server_selection_concatenates(a: Seq<SkillServerConfig>, b: Seq<SkillServerConfig>)
    ensures
        skill_server_names(a + b) == skill_server_names(a) + skill_server_names(b),
    decreases b.len(),
{
    if b.len() == 0 {
        assert(a + b =~= a);
        assert(skill_server_names(a) + skill_server_names(b) =~= skill_server_names(a));
    } else {
        law_server_selection_concatenates(a, b.drop_last());
        assert((a + b).drop_last() =~= a + b.drop_last());
        assert((a + b).last() == b.last());
        assert(skill_server_names(a + b) =~= skill_server_names(a) + skill_server_names(b));
    }
}

/// One configuration is selected exactly when it is enabled and opts into
/// skill discovery.
pub proof fn law_server_selection_one(c: SkillServerConfig)
    ensures
        skill_server_names(seq![c]) == (if c.enabled && c.mcp_skills {
            seq![c.name@]
        } else {
            Seq::<Seq<char>>::empty()
        }),
{
    assert(seq![c].drop_last() =~= Seq::<SkillServerConfig>::empty());
    assert(seq![c].last() == c);
    assert(skill_server_names(seq![c].drop_last()) =~= Seq::<Seq<char>>::empty());
    assert(skill_server_names(seq![c]) =~= (if c.enabled && c.mcp_skills {
        seq![c.name@]
    } else {
        Seq::<Seq<char>>::empty()
    }));
}

/// A URL that is non-empty, at most `MAX_URI_LEN` bytes long, free of
/// control characters, and whose part before its first `:` is a valid
/// scheme, is accepted.
pub proof fn law_well_formed_uri_is_accepted(url: Seq<char>, k: int)
    requires
        url.len() > 0,
        encode_utf8(url).len() <= MAX_URI_LEN,
        forall|i: int| 0 <= i < url.len() ==> !is_control_char(#[trigger] url[i]),
        is_first_colon(url, k),
        valid_scheme(url.take(k)),
    ensures
        uri_check(url) is Ok,
{
    lemma_first_colon_unique(url, k);
    assert(url[k] == ':');
    assert(has_colon(url));
}

} // verus!

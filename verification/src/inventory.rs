//! The tools that are known, and under which names.
use crate::annotations::{plain_annotations, ToolAnnotations};
use crate::text::{chars_of, string_of};
use crate::time::Stopwatch;
use crate::tool_parser::markup::{find_char, lemma_next_char, next_char};
use vstd::prelude::*;

verus! {

/// Where a tool comes from.
#[derive(Debug, Clone, Copy, PartialEq, Eq, Hash, Structural)]
pub enum ToolCategory {
    Static,
    Alias,
    Dynamic,
    Custom,
    /// A tool that is built in and reached by an alias.
    Builtin,
}

impl Default for ToolCategory {
    fn default() -> (r: Self)
        ensures
            r == ToolCategory::Static,
    {
        ToolCategory::Static
    }
}

/// The server key of aliases.
pub const ALIAS_SERVER_KEY: &'static str = "alias";

/// The name of a tool together with that of its server, written
/// `server_key:tool_name`.
#[derive(Debug, PartialEq, Eq, Hash)]
pub struct QualifiedToolName {
    server_key: String,
    tool_name: String,
}

/// A qualified name, as it is written.
pub open spec fn qualified_text(server: Seq<char>, tool: Seq<char>) -> Seq<char> {
    server.push(':') + tool
}

/// What a qualified name is read as: it is split at the first colon.
pub open spec fn qualified_parts(text: Seq<char>) -> Option<(Seq<char>, Seq<char>)> {
    match next_char(text, ':', 0) {
        Some(at) => Some((text.take(at), text.skip(at + 1))),
        None => None,
    }
}

/// What is read is what was written: a text that is read as a server and a tool
/// is what these are written as.
pub proof fn law_written_as_read(text: Seq<char>)
    ensures
        qualified_parts(text) matches Some((server, tool)) ==> qualified_text(server, tool)
            == text,
{
    lemma_next_char(text, ':', 0);
    if let Some(at) = next_char(text, ':', 0) {
        assert(text.take(at).push(':') + text.skip(at + 1) =~= text);
    }
}

/// What is written is read back, where the server key has no colon.
pub proof fn law_read_as_written(server: Seq<char>, tool: Seq<char>)
    requires
        !server.contains(':'),
    ensures
        qualified_parts(qualified_text(server, tool)) == Some((server, tool)),
{
    let text = qualified_text(server, tool);
    lemma_first_colon(text, server, 0);
    assert(text.take(server.len() as int) =~= server);
    assert(text.skip(server.len() as int + 1) =~= tool);
}

proof fn lemma_first_colon(text: Seq<char>, server: Seq<char>, from: int)
    requires
        !server.contains(':'),
        server.push(':').is_prefix_of(text),
        0 <= from <= server.len(),
    ensures
        next_char(text, ':', from) == Some(server.len() as int),
    decreases server.len() - from,
{
    assert(server.push(':')[from] == text[from]);
    if from < server.len() {
        assert(server[from] == text[from]);
        lemma_first_colon(text, server, from + 1);
    }
}

impl QualifiedToolName {
    /// The key of the server.
    pub closed spec fn server(&self) -> Seq<char> {
        self.server_key@
    }

    /// The name of the tool.
    pub closed spec fn tool(&self) -> Seq<char> {
        self.tool_name@
    }

    /// The name of a tool of a server.
    pub fn new(server_key: &str, tool_name: &str) -> (r: Self)
        ensures
            r.server() == server_key@,
            r.tool() == tool_name@,
    {
        QualifiedToolName { server_key: server_key.to_owned(), tool_name: tool_name.to_owned() }
    }

    /// Read a qualified name. There must be a colon.
    pub fn parse(s: &str) -> (r: Option<Self>)
        ensures
            match qualified_parts(s@) {
                Some((server, tool)) => r matches Some(name) && name.server() == server
                    && name.tool() == tool,
                None => r is None,
            },
    {
        let chars = chars_of(s);
        let n = chars.len();
        proof {
            lemma_next_char(s@, ':', 0);
        }
        match find_char(&chars, ':', 0) {
            Some(at) => {
                assert(at < n);
                let server_key = string_of(&chars, 0, at);
                let tool_name = string_of(&chars, at + 1, n);
                proof {
                    assert(s@.subrange(0, at as int) =~= s@.take(at as int));
                    assert(s@.subrange(at + 1, n as int) =~= s@.skip(at + 1));
                }
                Some(QualifiedToolName { server_key, tool_name })
            },
            None => None,
        }
    }

    /// The name as it is written.
    pub fn display(&self) -> (r: String)
        ensures
            r@ == qualified_text(self.server(), self.tool()),
    {
        let mut out = self.server_key.clone();
        out.push(':');
        out.append(self.tool_name.as_str());
        out
    }

    /// The key of the server.
    pub fn server_key(&self) -> (r: &str)
        ensures
            r@ == self.server(),
    {
        self.server_key.as_str()
    }

    /// The name of the tool.
    pub fn tool_name(&self) -> (r: &str)
        ensures
            r@ == self.tool(),
    {
        self.tool_name.as_str()
    }
}

impl Clone for QualifiedToolName {
    fn clone(&self) -> (r: Self)
        ensures
            r.server() == self.server(),
            r.tool() == self.tool(),
    {
        QualifiedToolName {
            server_key: self.server_key.clone(),
            tool_name: self.tool_name.clone(),
        }
    }
}

/// `serde_json::Value`: a JSON value.
#[verifier::external_type_specification]
#[verifier::external_body]
pub struct ExValue(serde_json::Value);

/// How the arguments of an alias become those of its target.
#[derive(Debug, Clone, PartialEq, Eq)]
pub struct ArgMapping {
    pub renames: Vec<(String, String)>,
    pub defaults: Vec<(String, serde_json::Value)>,
    pub overrides: Vec<(String, serde_json::Value)>,
}

impl Default for ArgMapping {
    fn default() -> (r: Self)
        ensures
            r.renames@.len() == 0,
            r.defaults@.len() == 0,
            r.overrides@.len() == 0,
    {
        ArgMapping { renames: Vec::new(), defaults: Vec::new(), overrides: Vec::new() }
    }
}

impl ArgMapping {
    /// A mapping that changes nothing.
    pub fn new() -> (r: Self)
        ensures
            r.renames@.len() == 0,
            r.defaults@.len() == 0,
            r.overrides@.len() == 0,
    {
        Self::default()
    }

    /// The same, with one more argument renamed.
    #[must_use]
    pub fn with_rename(self, from: String, to: String) -> (r: Self)
        ensures
            r.renames@ == self.renames@.push((from, to)),
            r.defaults == self.defaults,
            r.overrides == self.overrides,
    {
        let mut renames = self.renames;
        renames.push((from, to));
        ArgMapping { renames, defaults: self.defaults, overrides: self.overrides }
    }

    /// The same, with one more argument filled in where it is missing.
    #[must_use]
    pub fn with_default(self, name: String, value: serde_json::Value) -> (r: Self)
        ensures
            r.renames == self.renames,
            r.defaults@ == self.defaults@.push((name, value)),
            r.overrides == self.overrides,
    {
        let mut defaults = self.defaults;
        defaults.push((name, value));
        ArgMapping { renames: self.renames, defaults, overrides: self.overrides }
    }

    /// The same, with one more argument set whatever is given.
    #[must_use]
    pub fn with_override(self, name: String, value: serde_json::Value) -> (r: Self)
        ensures
            r.renames == self.renames,
            r.defaults == self.defaults,
            r.overrides@ == self.overrides@.push((name, value)),
    {
        let mut overrides = self.overrides;
        overrides.push((name, value));
        ArgMapping { renames: self.renames, defaults: self.defaults, overrides }
    }
}

/// What an alias stands for.
#[derive(Debug, Clone, PartialEq, Eq)]
pub struct AliasTarget {
    pub target: QualifiedToolName,
    pub arg_mapping: Option<ArgMapping>,
}

impl AliasTarget {
    /// An alias that passes its arguments on.
    pub fn new(target: QualifiedToolName) -> (r: Self)
        ensures
            r.target == target,
            r.arg_mapping is None,
    {
        AliasTarget { target, arg_mapping: None }
    }

    /// The same, with a mapping of its arguments.
    #[must_use]
    pub fn with_arg_mapping(self, mapping: ArgMapping) -> (r: Self)
        ensures
            r.target == self.target,
            r.arg_mapping == Some(mapping),
    {
        AliasTarget { target: self.target, arg_mapping: Some(mapping) }
    }
}

/// A tool as its server describes it.
#[derive(Debug)]
pub struct Tool {
    pub name: String,
    pub description: String,
    pub input_schema: serde_json::Value,
}

/// Whose a tool is.
#[derive(Debug)]
pub struct TenantId {
    pub id: String,
}

/// A tool that is known.
pub struct ToolEntry {
    pub qualified_name: QualifiedToolName,
    pub tool: Tool,
    pub category: ToolCategory,
    pub annotations: ToolAnnotations,
    pub tenant_id: Option<TenantId>,
    pub alias_target: Option<AliasTarget>,
    pub arg_mapping: Option<ArgMapping>,
    pub cached_at: Stopwatch,
    /// For how many nanoseconds the entry is good.
    pub ttl: Option<u128>,
}

impl ToolEntry {
    /// A tool under a name, with nothing else known of it.
    pub fn new(qualified_name: QualifiedToolName, tool: Tool) -> (r: Self)
        ensures
            r.qualified_name == qualified_name,
            r.tool == tool,
            r.category == ToolCategory::Static,
            r.annotations == plain_annotations(),
            r.tenant_id is None,
            r.alias_target is None,
            r.arg_mapping is None,
            r.ttl is None,
    {
        ToolEntry {
            qualified_name,
            tool,
            category: ToolCategory::default(),
            annotations: ToolAnnotations::default(),
            tenant_id: None,
            alias_target: None,
            arg_mapping: None,
            cached_at: Stopwatch::start(),
            ttl: None,
        }
    }

    /// A tool of a server, under its own name.
    pub fn from_server_tool(server_key: &str, tool: Tool) -> (r: Self)
        ensures
            r.qualified_name.server() == server_key@,
            r.qualified_name.tool() == tool.name@,
            r.tool == tool,
            r.category == ToolCategory::Static,
            r.annotations == plain_annotations(),
            r.tenant_id is None,
            r.alias_target is None,
            r.arg_mapping is None,
            r.ttl is None,
    {
        let name = QualifiedToolName::new(server_key, tool.name.as_str());
        Self::new(name, tool)
    }

    /// The same, in another category.
    #[must_use]
    pub fn with_category(self, category: ToolCategory) -> (r: Self)
        ensures
            r == (ToolEntry { category, ..self }),
    {
        ToolEntry { category, ..self }
    }

    /// The same, with other annotations.
    #[must_use]
    pub fn with_annotations(self, annotations: ToolAnnotations) -> (r: Self)
        ensures
            r == (ToolEntry { annotations, ..self }),
    {
        ToolEntry { annotations, ..self }
    }

    /// The same, of a tenant.
    #[must_use]
    pub fn with_tenant(self, tenant_id: TenantId) -> (r: Self)
        ensures
            r == (ToolEntry { tenant_id: Some(tenant_id), ..self }),
    {
        ToolEntry { tenant_id: Some(tenant_id), ..self }
    }

    /// The same, as an alias.
    #[must_use]
    pub fn with_alias(self, target: AliasTarget) -> (r: Self)
        ensures
            r == (ToolEntry {
                alias_target: Some(target),
                category: ToolCategory::Alias,
                ..self
            }),
    {
        ToolEntry { alias_target: Some(target), category: ToolCategory::Alias, ..self }
    }

    /// The same, with a mapping of its arguments.
    #[must_use]
    pub fn with_arg_mapping(self, mapping: ArgMapping) -> (r: Self)
        ensures
            r == (ToolEntry { arg_mapping: Some(mapping), ..self }),
    {
        ToolEntry { arg_mapping: Some(mapping), ..self }
    }

    /// The same, good for a number of nanoseconds.
    #[must_use]
    pub fn with_ttl(self, ttl: u128) -> (r: Self)
        ensures
            r == (ToolEntry { ttl: Some(ttl), ..self }),
    {
        ToolEntry { ttl: Some(ttl), ..self }
    }

    /// Whether an entry of that age in nanoseconds is no longer good. One without
    /// a limit stays good.
    pub fn expired_at(&self, age: u128) -> (r: bool)
        ensures
            r == expired(self.ttl, age),
    {
        match self.ttl {
            Some(ttl) => age > ttl,
            None => false,
        }
    }

    /// Whether the entry is no longer good by now. How old it is, the clock says.
    pub fn is_expired(&self) -> (r: bool)
        ensures
            self.ttl is None ==> !r,
            self.ttl == Some(u128::MAX) ==> !r,
    {
        let age = self.cached_at.nanos();
        self.expired_at(age)
    }

    /// The key of the server.
    pub fn server_key(&self) -> (r: &str)
        ensures
            r@ == self.qualified_name.server(),
    {
        self.qualified_name.server_key()
    }

    /// The name of the tool.
    pub fn tool_name(&self) -> (r: &str)
        ensures
            r@ == self.qualified_name.tool(),
    {
        self.qualified_name.tool_name()
    }
}

/// Something of an age is older than its limit, if it has one.
pub open spec fn expired(ttl: Option<u128>, age: u128) -> bool {
    match ttl {
        Some(ttl) => age > ttl,
        None => false,
    }
}

/// An entry that is no longer good does not become good again.
pub proof fn law_expiry_is_final(ttl: Option<u128>, age: u128, later: u128)
    requires
        expired(ttl, age),
        later >= age,
    ensures
        expired(ttl, later),
{
}

} // verus!

//! What is known of tools, and what is read of calls.
use crate::text::{opt_text, str_eq};
use vstd::prelude::*;

verus! {

/// A parameter of a tool, and the type that its schema declares.
#[derive(Debug)]
pub struct ParamType {
    pub key: String,
    pub declared: String,
}

/// A tool that may be called, with those of its parameters whose type is
/// declared.
#[derive(Debug)]
pub struct Tool {
    pub name: String,
    pub params: Vec<ParamType>,
}

/// What a declaration of a parameter says.
#[verifier::ext_equal]
pub struct ParamTypeView {
    pub key: Seq<char>,
    pub declared: Seq<char>,
}

impl View for ParamType {
    type V = ParamTypeView;

    open spec fn view(&self) -> ParamTypeView {
        ParamTypeView { key: self.key@, declared: self.declared@ }
    }
}

/// What is known of a tool.
#[verifier::ext_equal]
pub struct ToolView {
    pub name: Seq<char>,
    pub params: Seq<ParamTypeView>,
}

impl View for Tool {
    type V = ToolView;

    open spec fn view(&self) -> ToolView {
        ToolView { name: self.name@, params: self.params@.map_values(|p: ParamType| p@) }
    }
}

/// What is known of tools.
pub open spec fn tools_view(tools: Seq<Tool>) -> Seq<ToolView> {
    tools.map_values(|t: Tool| t@)
}

/// The first tool with a name.
pub open spec fn tool_named(tools: Seq<ToolView>, name: Seq<char>) -> Option<ToolView>
    decreases tools.len(),
{
    if tools.len() == 0 {
        None
    } else if tools[0].name == name {
        Some(tools[0])
    } else {
        tool_named(tools.drop_first(), name)
    }
}

/// The first declaration of a parameter.
pub open spec fn type_of(params: Seq<ParamTypeView>, key: Seq<char>) -> Option<Seq<char>>
    decreases params.len(),
{
    if params.len() == 0 {
        None
    } else if params[0].key == key {
        Some(params[0].declared)
    } else {
        type_of(params.drop_first(), key)
    }
}

/// The type that is declared of a parameter of the tool with a name.
pub open spec fn declared_type(
    tools: Seq<ToolView>,
    function: Seq<char>,
    key: Seq<char>,
) -> Option<Seq<char>> {
    match tool_named(tools, function) {
        Some(tool) => type_of(tool.params, key),
        None => None,
    }
}

/// The tool with a name.
pub fn find_tool<'a>(tools: &'a [Tool], name: &str) -> (r: Option<&'a Tool>)
    ensures
        match r {
            Some(t) => tool_named(tools_view(tools@), name@) == Some(t@),
            None => tool_named(tools_view(tools@), name@) is None,
        },
{
    let ghost all = tools_view(tools@);
    let n = tools.len();
    assert(all.skip(0) =~= all);
    for i in 0..n
        invariant
            n == tools@.len(),
            all == tools_view(tools@),
            tool_named(all, name@) == tool_named(all.skip(i as int), name@),
    {
        assert(all.skip(i as int).drop_first() =~= all.skip(i + 1));
        assert(all.skip(i as int)[0] == tools@[i as int]@);
        if str_eq(tools[i].name.as_str(), name) {
            return Some(&tools[i]);
        }
    }
    None
}

/// The type that is declared of a parameter of the tool with a name.
pub fn find_type<'a>(tools: &'a [Tool], function: &str, key: &str) -> (r: Option<&'a str>)
    ensures
        match r {
            Some(t) => declared_type(tools_view(tools@), function@, key@) == Some(t@),
            None => declared_type(tools_view(tools@), function@, key@) is None,
        },
{
    let tool = match find_tool(tools, function) {
        Some(tool) => tool,
        None => return None,
    };
    let ghost all = tool@.params;
    let n = tool.params.len();
    assert(all.skip(0) =~= all);
    for i in 0..n
        invariant
            n == tool.params@.len(),
            all == tool@.params,
            type_of(all, key@) == type_of(all.skip(i as int), key@),
            tool_named(tools_view(tools@), function@) == Some(tool@),
    {
        assert(all.skip(i as int).drop_first() =~= all.skip(i + 1));
        assert(all.skip(i as int)[0] == tool.params@[i as int]@);
        if str_eq(tool.params[i].key.as_str(), key) {
            return Some(tool.params[i].declared.as_str());
        }
    }
    None
}

/// A function and the arguments to call it with, as JSON text.
#[derive(Debug)]
pub struct FunctionCall {
    pub name: String,
    pub arguments: String,
}

/// A complete call.
#[derive(Debug)]
pub struct ToolCall {
    pub function: FunctionCall,
}

/// What a complete call says.
#[verifier::ext_equal]
pub struct CallView {
    pub name: Seq<char>,
    pub arguments: Seq<char>,
}

impl View for ToolCall {
    type V = CallView;

    open spec fn view(&self) -> CallView {
        CallView { name: self.function.name@, arguments: self.function.arguments@ }
    }
}

/// What complete calls say.
pub open spec fn tool_calls_view(calls: Seq<ToolCall>) -> Seq<CallView> {
    calls.map_values(|c: ToolCall| c@)
}

/// A piece of a call: its name, or a further piece of its arguments.
#[derive(Debug)]
pub struct ToolCallItem {
    pub tool_index: usize,
    pub name: Option<String>,
    pub parameters: String,
}

/// What a piece of a call says.
#[verifier::ext_equal]
pub struct ItemView {
    pub tool_index: nat,
    pub name: Option<Seq<char>>,
    pub parameters: Seq<char>,
}

impl View for ToolCallItem {
    type V = ItemView;

    open spec fn view(&self) -> ItemView {
        ItemView {
            tool_index: self.tool_index as nat,
            name: opt_text(self.name),
            parameters: self.parameters@,
        }
    }
}

/// What pieces of calls say.
pub open spec fn items_view(items: Seq<ToolCallItem>) -> Seq<ItemView> {
    items.map_values(|i: ToolCallItem| i@)
}

/// What one chunk of a stream brought.
#[derive(Debug)]
pub struct StreamingParseResult {
    pub normal_text: String,
    pub calls: Vec<ToolCallItem>,
}

/// Why a text cannot be parsed.
#[derive(Debug)]
pub enum ParserError {
    /// What is wrong with the text.
    ParsingFailed(String),
}

} // verus!

//! Decisions of the command line and the MCP server that need no I/O:
//! which handler a JSON-RPC message goes to, which tool a name selects,
//! render modes, benchmarks, and the process exit code of an error.

use vstd::prelude::*;
use crate::candidates::has_char;
use crate::text::{after_last, after_last_vec, chars_of, contains_seq, has_substring, str_eq, string_from_chars};

verus! {

/// Where a JSON-RPC message is handled.
#[derive(Debug, Clone, Copy, PartialEq, Eq, Structural)]
pub enum RpcRoute {
    /// A notification (no id): no response.
    Ignore,
    Initialize,
    Ping,
    ListTools,
    CallTool,
    /// A request for a method the server does not have.
    NotFound,
}

/// Routing of a message by method name and whether it carries an id.
pub open spec fn route_spec(method: Seq<char>, has_id: bool) -> RpcRoute {
    if !has_id {
        RpcRoute::Ignore
    } else if method == "initialize"@ {
        RpcRoute::Initialize
    } else if method == "ping"@ {
        RpcRoute::Ping
    } else if method == "tools/list"@ {
        RpcRoute::ListTools
    } else if method == "tools/call"@ {
        RpcRoute::CallTool
    } else {
        RpcRoute::NotFound
    }
}

/// Routing of a JSON-RPC message (see [`route_spec`]).
pub fn route(method: &str, has_id: bool) -> (r: RpcRoute)
    ensures
        r == route_spec(method@, has_id),
{
    if !has_id {
        RpcRoute::Ignore
    } else if str_eq(method, "initialize") {
        RpcRoute::Initialize
    } else if str_eq(method, "ping") {
        RpcRoute::Ping
    } else if str_eq(method, "tools/list") {
        RpcRoute::ListTools
    } else if str_eq(method, "tools/call") {
        RpcRoute::CallTool
    } else {
        RpcRoute::NotFound
    }
}

/// The read-only tools the MCP server offers.
#[derive(Debug, Clone, Copy, PartialEq, Eq, Structural)]
pub enum Tool {
    SearchCode,
    ExplainSymbol,
    FindCallers,
    FindTests,
    BuildContextPack,
    ChangedSince,
    ImpactAnalysis,
    GetContent,
}

/// The tool a name selects.
pub open spec fn tool_spec(name: Seq<char>) -> Option<Tool> {
    if name == "search_code"@ {
        Some(Tool::SearchCode)
    } else if name == "explain_symbol"@ {
        Some(Tool::ExplainSymbol)
    } else if name == "find_callers"@ {
        Some(Tool::FindCallers)
    } else if name == "find_tests"@ {
        Some(Tool::FindTests)
    } else if name == "build_context_pack"@ {
        Some(Tool::BuildContextPack)
    } else if name == "changed_since"@ {
        Some(Tool::ChangedSince)
    } else if name == "impact_analysis"@ {
        Some(Tool::ImpactAnalysis)
    } else if name == "get_content"@ {
        Some(Tool::GetContent)
    } else {
        None
    }
}

/// Text of the error for a tool name that selects no tool.
pub open spec fn unknown_tool_message(name: Seq<char>) -> Seq<char> {
    "unknown tool '"@ + name + "' — see tools/list for available tools"@
}

fn concat3(a: &str, b: &str, c: &str) -> (r: String)
    ensures
        r@ == a@ + b@ + c@,
{
    let mut v = chars_of(a);
    let mut m = chars_of(b);
    let mut t = chars_of(c);
    v.append(&mut m);
    v.append(&mut t);
    string_from_chars(&v)
}

impl Tool {
    /// The tool named `name`; any other name is an error with its message.
    pub fn by_name(name: &str) -> (r: Result<Tool, String>)
        ensures
            match tool_spec(name@) {
                Some(t) => r == Ok::<Tool, String>(t),
                None => r matches Err(e) && e@ == unknown_tool_message(name@),
            },
    {
        if str_eq(name, "search_code") {
            Ok(Tool::SearchCode)
        } else if str_eq(name, "explain_symbol") {
            Ok(Tool::ExplainSymbol)
        } else if str_eq(name, "find_callers") {
            Ok(Tool::FindCallers)
        } else if str_eq(name, "find_tests") {
            Ok(Tool::FindTests)
        } else if str_eq(name, "build_context_pack") {
            Ok(Tool::BuildContextPack)
        } else if str_eq(name, "changed_since") {
            Ok(Tool::ChangedSince)
        } else if str_eq(name, "impact_analysis") {
            Ok(Tool::ImpactAnalysis)
        } else if str_eq(name, "get_content") {
            Ok(Tool::GetContent)
        } else {
            Err(concat3("unknown tool '", name, "' — see tools/list for available tools"))
        }
    }
}

/// How a pack is rendered for a consumer.
#[derive(Debug, Clone, Copy, PartialEq, Eq, Structural)]
pub enum RenderMode {
    Plain,
    Anthropic,
    OpenAi,
}

/// The render mode a name selects.
pub open spec fn render_mode_spec(name: Seq<char>) -> Option<RenderMode> {
    if name == "plain"@ {
        Some(RenderMode::Plain)
    } else if name == "anthropic"@ {
        Some(RenderMode::Anthropic)
    } else if name == "openai"@ {
        Some(RenderMode::OpenAi)
    } else {
        None
    }
}

/// Text of the error for a name that selects no render mode.
pub open spec fn unknown_render_message(name: Seq<char>) -> Seq<char> {
    "unknown render mode '"@ + name + "' (plain|anthropic|openai)"@
}

impl RenderMode {
    /// The render mode named `name`; any other name is an error with its
    /// message.
    pub fn by_name(name: &str) -> (r: Result<RenderMode, String>)
        ensures
            match render_mode_spec(name@) {
                Some(m) => r == Ok::<RenderMode, String>(m),
                None => r matches Err(e) && e@ == unknown_render_message(name@),
            },
    {
        if str_eq(name, "plain") {
            Ok(RenderMode::Plain)
        } else if str_eq(name, "anthropic") {
            Ok(RenderMode::Anthropic)
        } else if str_eq(name, "openai") {
            Ok(RenderMode::OpenAi)
        } else {
            Err(concat3("unknown render mode '", name, "' (plain|anthropic|openai)"))
        }
    }
}

/// The reproducible benchmarks.
#[derive(Debug, Clone, Copy, PartialEq, Eq, Structural)]
pub enum Benchmark {
    TokenSavings,
    CacheStability,
}

/// The benchmark a name selects.
pub open spec fn benchmark_spec(name: Seq<char>) -> Option<Benchmark> {
    if name == "token-savings"@ {
        Some(Benchmark::TokenSavings)
    } else if name == "cache-stability"@ {
        Some(Benchmark::CacheStability)
    } else {
        None
    }
}

/// Text of the error for a name that selects no benchmark.
pub open spec fn unknown_benchmark_message(name: Seq<char>) -> Seq<char> {
    "unknown benchmark '"@ + name + "' (token-savings|cache-stability)"@
}

impl Benchmark {
    /// The benchmark named `name`; any other name is an error with its
    /// message.
    pub fn by_name(name: &str) -> (r: Result<Benchmark, String>)
        ensures
            match benchmark_spec(name@) {
                Some(b) => r == Ok::<Benchmark, String>(b),
                None => r matches Err(e) && e@ == unknown_benchmark_message(name@),
            },
    {
        if str_eq(name, "token-savings") {
            Ok(Benchmark::TokenSavings)
        } else if str_eq(name, "cache-stability") {
            Ok(Benchmark::CacheStability)
        } else {
            Err(concat3("unknown benchmark '", name, "' (token-savings|cache-stability)"))
        }
    }
}

/// Exit status of a failed command: 2 when there is no index to work on,
/// 1 otherwise.
pub fn exit_code(message: &str) -> (r: i32)
    ensures
        r == if has_substring(message@, "no PackMind index"@) {
            2i32
        } else {
            1i32
        },
{
    if contains_seq(&chars_of(message), &chars_of("no PackMind index")) {
        2
    } else {
        1
    }
}

/// A target names a file when it holds a `/` or a `.`; the file is then
/// looked up by its last path segment. Any other target names a symbol.
pub open spec fn file_target_spec(target: Seq<char>) -> Option<Seq<char>> {
    if target.contains('/') || target.contains('.') {
        Some(after_last(target, '/'))
    } else {
        None
    }
}

/// The last path segment of a file target, or `None` for a symbol (see
/// [`file_target_spec`]).
pub fn file_target(target: &str) -> (r: Option<String>)
    ensures
        match r {
            Some(s) => file_target_spec(target@) == Some(s@),
            None => file_target_spec(target@) is None,
        },
{
    let t = chars_of(target);
    if has_char(&t, '/') || has_char(&t, '.') {
        Some(string_from_chars(&after_last_vec(&t, '/')))
    } else {
        None
    }
}

} // verus!

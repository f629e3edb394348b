use packmind::route::{exit_code, route, Benchmark, RenderMode, RpcRoute, Tool};

#[test]
fn json_rpc_routing() {
    assert_eq!(route("initialize", true), RpcRoute::Initialize);
    assert_eq!(route("ping", true), RpcRoute::Ping);
    assert_eq!(route("tools/list", true), RpcRoute::ListTools);
    assert_eq!(route("tools/call", true), RpcRoute::CallTool);
    assert_eq!(route("resources/list", true), RpcRoute::NotFound);
    // Notifications never get a response, whatever the method.
    assert_eq!(route("tools/call", false), RpcRoute::Ignore);
    assert_eq!(route("notifications/initialized", false), RpcRoute::Ignore);
}

#[test]
fn tools_by_name() {
    assert_eq!(Tool::by_name("search_code"), Ok(Tool::SearchCode));
    assert_eq!(Tool::by_name("build_context_pack"), Ok(Tool::BuildContextPack));
    assert_eq!(Tool::by_name("get_content"), Ok(Tool::GetContent));
    assert_eq!(
        Tool::by_name("rm_rf"),
        Err("unknown tool 'rm_rf' — see tools/list for available tools".to_string())
    );
}

#[test]
fn render_modes_and_benchmarks_by_name() {
    assert_eq!(RenderMode::by_name("openai"), Ok(RenderMode::OpenAi));
    assert_eq!(RenderMode::by_name("plain"), Ok(RenderMode::Plain));
    assert_eq!(
        RenderMode::by_name("html"),
        Err("unknown render mode 'html' (plain|anthropic|openai)".to_string())
    );
    assert_eq!(Benchmark::by_name("token-savings"), Ok(Benchmark::TokenSavings));
    assert_eq!(
        Benchmark::by_name("speed"),
        Err("unknown benchmark 'speed' (token-savings|cache-stability)".to_string())
    );
}

#[test]
fn missing_index_exits_with_two() {
    assert_eq!(exit_code("no PackMind index found at /tmp/x — run: packmind index ."), 2);
    assert_eq!(exit_code("pack 'x' not found"), 1);
}

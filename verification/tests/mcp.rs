use fluxion::mcp::{needs_reply, next_content_length, INTERNAL_ERROR};
use fluxion::mcp::{
    body_length, frame_message, method_not_found, missing_argument, parse_header_line, route_method,
    route_tool, unknown_tool, HeaderLine, McpMethod, McpTool,
};

#[test]
fn framing() {
    assert_eq!(frame_message("{}"), "Content-Length: 2\r\n\r\n{}");
    assert_eq!(frame_message("é"), "Content-Length: 2\r\n\r\né");
}

#[test]
fn header_lines() {
    assert!(matches!(parse_header_line("\r\n"), HeaderLine::End));
    assert!(matches!(parse_header_line("\n"), HeaderLine::End));
    assert!(matches!(parse_header_line("Content-Length: 42\r\n"), HeaderLine::ContentLength(Some(42))));
    assert!(matches!(parse_header_line("Content-Length:  +7 \n"), HeaderLine::ContentLength(Some(7))));
    assert!(matches!(parse_header_line("Content-Length: x\r\n"), HeaderLine::ContentLength(None)));
    assert!(matches!(parse_header_line("Content-Type: json\r\n"), HeaderLine::Other));
    assert_eq!(body_length(Some(0)), None);
    assert_eq!(body_length(None), None);
    assert_eq!(body_length(Some(3)), Some(3));
}

#[test]
fn routing() {
    assert!(matches!(route_method("initialize"), McpMethod::Initialize));
    assert!(matches!(route_method("ping"), McpMethod::Ping));
    assert!(matches!(route_method("tools/list"), McpMethod::ToolsList));
    assert!(matches!(route_method("tools/call"), McpMethod::ToolsCall));
    assert!(matches!(route_method("resources/list"), McpMethod::Unknown));
    assert!(matches!(route_tool("workflow_run"), McpTool::WorkflowRun));
    assert!(matches!(route_tool("workflow_retry"), McpTool::WorkflowRetry));
    assert!(matches!(route_tool("runs_list"), McpTool::RunsList));
    assert!(matches!(route_tool("workflow_status"), McpTool::WorkflowStatus));
    assert!(matches!(route_tool("workflow_logs"), McpTool::WorkflowLogs));
    assert!(matches!(route_tool("rm -rf"), McpTool::Unknown));
    assert_eq!(method_not_found("foo"), "Method not found: foo");
    assert_eq!(unknown_tool("bar"), "Unknown tool: bar");
    assert_eq!(missing_argument("path"), "missing 'path'");
}

#[test]
fn framed_message_reads_back() {
    let body = "{\"jsonrpc\":\"2.0\",\"id\":1}";
    let framed = frame_message(body);
    let header_end = framed.find('\n').unwrap() + 1;
    let (header, rest) = framed.split_at(header_end);
    assert!(matches!(parse_header_line(header), HeaderLine::ContentLength(Some(n)) if n == body.len()));
    let (blank, payload) = rest.split_at(2);
    assert!(matches!(parse_header_line(blank), HeaderLine::End));
    assert_eq!(payload, body);
    assert_eq!(body_length(Some(body.len())), Some(body.len()));
}

#[test]
fn server_decisions() {
    assert_eq!(next_content_length(Some(3), HeaderLine::ContentLength(Some(9))), Some(9));
    assert_eq!(next_content_length(Some(3), HeaderLine::ContentLength(None)), None);
    assert_eq!(next_content_length(Some(3), HeaderLine::Other), Some(3));
    assert!(needs_reply(false, true, true));
    assert!(!needs_reply(true, false, false));
    assert!(!needs_reply(false, false, true));
    assert!(!needs_reply(false, true, false));
    assert_eq!(INTERNAL_ERROR, -32603);
}

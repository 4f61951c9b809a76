//! Message framing and request routing of the MCP server (Content-Length
//! framed JSON-RPC 2.0 over stdio).
use vstd::prelude::*;

use crate::text::{
    all_digits, decimal, is_white, lemma_decimal, parse_usize, parsed_usize, str_eq, str_trim, trim_end,
    trim_start, trimmed, usize_to_decimal,
};

verus! {

/// `s` without its trailing run of `c`.
pub open spec fn strip_trailing(s: Seq<char>, c: char) -> Seq<char>
    decreases s.len(),
{
    if s.len() > 0 && s.last() == c {
        strip_trailing(s.drop_last(), c)
    } else {
        s
    }
}

/// `str::trim_end_matches` with a character: `s` without its trailing run of `c`.
#[verifier::external_body]
fn str_trim_end_matches(s: &str, c: char) -> (r: &str)
    ensures
        r@ == strip_trailing(s@, c),
{
    s.trim_end_matches(c)
}

/// `str::strip_prefix`: the rest of `s` after `prefix`, when `s` starts with it.
#[verifier::external_body]
fn str_strip_prefix<'a>(s: &'a str, prefix: &str) -> (r: Option<&'a str>)
    ensures
        r is Some <==> prefix@.is_prefix_of(s@),
        r matches Some(t) ==> t@ == s@.skip(prefix@.len() as int),
{
    s.strip_prefix(prefix)
}

/// One header line of a framed message.
pub enum HeaderLine {
    /// A blank line: the headers end.
    End,
    /// A `Content-Length: ` header and its value, if it is a number.
    ContentLength(Option<usize>),
    /// Any other header.
    Other,
}

/// A header line without its line ending (trailing `\n`s, then trailing `\r`s).
pub open spec fn header_text(line: Seq<char>) -> Seq<char> {
    strip_trailing(strip_trailing(line, '\n'), '\r')
}

/// What a header line stands for: a blank line ends the headers, a
/// `Content-Length: ` line gives its value if that is a number.
pub open spec fn read_header(line: Seq<char>) -> HeaderLine {
    let t = header_text(line);
    let p = "Content-Length: "@;
    if t.len() == 0 {
        HeaderLine::End
    } else if p.is_prefix_of(t) {
        HeaderLine::ContentLength(parsed_usize(trimmed(t.skip(p.len() as int))))
    } else {
        HeaderLine::Other
    }
}

/// Reads one header line.
pub fn parse_header_line(line: &str) -> (r: HeaderLine)
    ensures
        r == read_header(line@),
{
    let a = str_trim_end_matches(line, '\n');
    let t = str_trim_end_matches(a, '\r');
    if t.is_empty() {
        return HeaderLine::End;
    }
    match str_strip_prefix(t, "Content-Length: ") {
        Some(val) => HeaderLine::ContentLength(parse_usize(str_trim(val))),
        None => HeaderLine::Other,
    }
}

/// The content length known after one more header line: a `Content-Length`
/// line sets it (the last one read wins, and a value that is no number
/// clears it); any other line leaves it as it was.
pub fn next_content_length(current: Option<usize>, line: HeaderLine) -> (r: Option<usize>)
    ensures
        match line {
            HeaderLine::ContentLength(v) => r == v,
            _ => r == current,
        },
{
    match line {
        HeaderLine::ContentLength(v) => v,
        _ => current,
    }
}

/// The JSON-RPC error code of a request that failed.
pub const INTERNAL_ERROR: i64 = -32603;

/// Whether a message gets a reply: only a nonempty body that parses as JSON
/// and carries an id (a request, not a notification).
pub fn needs_reply(body_empty: bool, parsed: bool, has_id: bool) -> (r: bool)
    ensures
        r == (!body_empty && parsed && has_id),
{
    !body_empty && parsed && has_id
}

/// The length of the body to read: a positive content length, else none (the
/// message is taken as empty).
pub fn body_length(content_length: Option<usize>) -> (r: Option<usize>)
    ensures
        r == match content_length {
            Some(l) => if l > 0 {
                Some(l)
            } else {
                None
            },
            None => None,
        },
{
    match content_length {
        Some(l) => if l > 0 {
            Some(l)
        } else {
            None
        },
        None => None,
    }
}

/// Frames a message body: `Content-Length: <bytes>`, a blank line, the body.
pub fn frame_message(body: &str) -> (r: String)
    ensures
        r@ == "Content-Length: "@ + decimal(body.len() as nat) + "\r\n\r\n"@ + body@,
{
    let mut s = String::from_str("Content-Length: ");
    let n = usize_to_decimal(body.len());
    s.append(n.as_str());
    s.append("\r\n\r\n");
    s.append(body);
    s
}

/// The header line that frames a body of `n` bytes.
pub open spec fn frame_header(n: nat) -> Seq<char> {
    "Content-Length: "@ + decimal(n) + "\r\n"@
}

/// A framed message reads back: it is its header line, a blank line and the
/// body; the header line has its only line feed at its end and reads as the
/// length it was written with, and the blank line ends the headers.
pub proof fn lemma_frame_reads_back(n: usize, body: Seq<char>)
    ensures
        "Content-Length: "@ + decimal(n as nat) + "\r\n\r\n"@ + body == frame_header(n as nat) + "\r\n"@
            + body,
        read_header(frame_header(n as nat)) == HeaderLine::ContentLength(Some(n)),
        read_header("\r\n"@) == HeaderLine::End,
        forall|i: int| 0 <= i < frame_header(n as nat).len() - 1 ==> frame_header(n as nat)[i] != '\n',
        frame_header(n as nat).last() == '\n',
{
    reveal_strlit("Content-Length: ");
    reveal_strlit("\r\n");
    reveal_strlit("\r\n\r\n");
    let p = "Content-Length: "@;
    let d = decimal(n as nat);
    lemma_decimal(n as nat);
    let x = p + d;
    let h = frame_header(n as nat);
    assert(h =~= x.push('\r').push('\n'));
    assert("Content-Length: "@ + d + "\r\n\r\n"@ + body =~= h + "\r\n"@ + body);
    // The line ending comes off: first the line feed, then the carriage return.
    assert(h.drop_last() =~= x.push('\r'));
    assert(strip_trailing(x.push('\r'), '\n') == x.push('\r'));
    assert(strip_trailing(h, '\n') == x.push('\r'));
    assert(x.push('\r').drop_last() =~= x);
    assert('0' <= d.last() <= '9');
    assert(x.last() == d.last());
    assert(strip_trailing(x, '\r') == x);
    assert(strip_trailing(x.push('\r'), '\r') == x);
    assert(header_text(h) == x);
    // The value is the decimal text, which has no white space to trim.
    assert(p.is_prefix_of(x)) by {
        assert(x.subrange(0, p.len() as int) =~= p);
    }
    assert(x.skip(p.len() as int) =~= d);
    assert('0' <= d[0] <= '9');
    assert(!is_white(d[0]));
    assert(!is_white(d.last()));
    assert(trim_start(d) == d);
    assert(trim_end(d) == d);
    assert(trimmed(d) == d);
    assert(d[0] != '+');
    assert(parsed_usize(d) == Some(n));
    // The blank line.
    let b = "\r\n"@;
    assert(b.drop_last() =~= seq!['\r']);
    assert(strip_trailing(seq!['\r'], '\n') == seq!['\r']);
    assert(seq!['\r'].drop_last() =~= Seq::<char>::empty());
    assert(strip_trailing(Seq::<char>::empty(), '\r') == Seq::<char>::empty());
    assert(header_text(b) =~= Seq::<char>::empty());
    // No line feed before the end of the header line.
    assert forall|i: int| 0 <= i < h.len() - 1 implies h[i] != '\n' by {
        if i >= p.len() && i < x.len() {
            assert(h[i] == d[i - p.len()]);
            assert(all_digits(d));
            assert('0' <= d[i - p.len()] <= '9');
        }
    }
}

/// The JSON-RPC methods the server answers.
pub enum McpMethod {
    Initialize,
    Ping,
    ToolsList,
    ToolsCall,
    Unknown,
}

/// Routes a JSON-RPC method name.
pub fn route_method(method: &str) -> (r: McpMethod)
    ensures
        method@ == "initialize"@ <==> r is Initialize,
        method@ == "ping"@ <==> r is Ping,
        method@ == "tools/list"@ <==> r is ToolsList,
        method@ == "tools/call"@ <==> r is ToolsCall,
{
    proof {
        reveal_strlit("initialize");
        reveal_strlit("ping");
        reveal_strlit("tools/list");
        reveal_strlit("tools/call");
        assert("initialize"@ != "ping"@) by { assert("initialize"@.len() != "ping"@.len()); }
        assert("initialize"@ != "tools/list"@) by { assert("initialize"@[0] != "tools/list"@[0]); }
        assert("initialize"@ != "tools/call"@) by { assert("initialize"@[0] != "tools/call"@[0]); }
        assert("ping"@ != "tools/list"@) by { assert("ping"@.len() != "tools/list"@.len()); }
        assert("ping"@ != "tools/call"@) by { assert("ping"@.len() != "tools/call"@.len()); }
        assert("tools/list"@ != "tools/call"@) by { assert("tools/list"@[6] != "tools/call"@[6]); }
    }
    if str_eq(method, "initialize") {
        McpMethod::Initialize
    } else if str_eq(method, "ping") {
        McpMethod::Ping
    } else if str_eq(method, "tools/list") {
        McpMethod::ToolsList
    } else if str_eq(method, "tools/call") {
        McpMethod::ToolsCall
    } else {
        McpMethod::Unknown
    }
}

/// The tools the server offers.
pub enum McpTool {
    WorkflowRun,
    WorkflowRetry,
    RunsList,
    WorkflowStatus,
    WorkflowLogs,
    Unknown,
}

/// Routes a tool name.
pub fn route_tool(name: &str) -> (r: McpTool)
    ensures
        name@ == "workflow_run"@ <==> r is WorkflowRun,
        name@ == "workflow_retry"@ <==> r is WorkflowRetry,
        name@ == "runs_list"@ <==> r is RunsList,
        name@ == "workflow_status"@ <==> r is WorkflowStatus,
        name@ == "workflow_logs"@ <==> r is WorkflowLogs,
{
    proof {
        reveal_strlit("workflow_run");
        reveal_strlit("workflow_retry");
        reveal_strlit("runs_list");
        reveal_strlit("workflow_status");
        reveal_strlit("workflow_logs");
        assert("workflow_run"@ != "workflow_retry"@) by { assert("workflow_run"@.len() != "workflow_retry"@.len()); }
        assert("workflow_run"@ != "runs_list"@) by { assert("workflow_run"@.len() != "runs_list"@.len()); }
        assert("workflow_run"@ != "workflow_status"@) by { assert("workflow_run"@.len() != "workflow_status"@.len()); }
        assert("workflow_run"@ != "workflow_logs"@) by { assert("workflow_run"@.len() != "workflow_logs"@.len()); }
        assert("workflow_retry"@ != "runs_list"@) by { assert("workflow_retry"@.len() != "runs_list"@.len()); }
        assert("workflow_retry"@ != "workflow_status"@) by { assert("workflow_retry"@.len() != "workflow_status"@.len()); }
        assert("workflow_retry"@ != "workflow_logs"@) by { assert("workflow_retry"@.len() != "workflow_logs"@.len()); }
        assert("runs_list"@ != "workflow_status"@) by { assert("runs_list"@.len() != "workflow_status"@.len()); }
        assert("runs_list"@ != "workflow_logs"@) by { assert("runs_list"@.len() != "workflow_logs"@.len()); }
        assert("workflow_status"@ != "workflow_logs"@) by { assert("workflow_status"@.len() != "workflow_logs"@.len()); }
    }
    if str_eq(name, "workflow_run") {
        McpTool::WorkflowRun
    } else if str_eq(name, "workflow_retry") {
        McpTool::WorkflowRetry
    } else if str_eq(name, "runs_list") {
        McpTool::RunsList
    } else if str_eq(name, "workflow_status") {
        McpTool::WorkflowStatus
    } else if str_eq(name, "workflow_logs") {
        McpTool::WorkflowLogs
    } else {
        McpTool::Unknown
    }
}

/// The error message of an unknown method.
pub fn method_not_found(method: &str) -> (r: String)
    ensures
        r@ == "Method not found: "@ + method@,
{
    let mut s = String::from_str("Method not found: ");
    s.append(method);
    s
}

/// The error message of an unknown tool.
pub fn unknown_tool(name: &str) -> (r: String)
    ensures
        r@ == "Unknown tool: "@ + name@,
{
    let mut s = String::from_str("Unknown tool: ");
    s.append(name);
    s
}

/// The error message of a missing tool argument.
pub fn missing_argument(arg: &str) -> (r: String)
    ensures
        r@ == "missing '"@ + arg@ + "'"@,
{
    let mut s = String::from_str("missing '");
    s.append(arg);
    s.append("'");
    s
}

} // verus!

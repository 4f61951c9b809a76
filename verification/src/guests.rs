//! The task components that run inside the host: what each one computes from
//! its input and what it answers.
use vstd::prelude::*;

use crate::text::{
    decimal, decode_utf8, parse_u64, parse_usize, parsed_u64, parsed_usize, trimmed, str_trim,
    u64_to_decimal, usize_to_decimal, utf8_error_text, utf8_string,
};

verus! {

/// What a task component answers: its output text and its metadata pairs.
#[derive(Debug)]
pub struct TaskReply {
    pub content: String,
    pub metadata: Vec<(String, String)>,
}

/// The metadata pairs of a reply, as text.
pub open spec fn pairs(m: Seq<(String, String)>) -> Seq<(Seq<char>, Seq<char>)> {
    m.map_values(|p: (String, String)| (p.0@, p.1@))
}

/// A reply with one metadata pair.
pub fn reply1(content: String, key: &str, value: String) -> (r: TaskReply)
    ensures
        r.content@ == content@,
        pairs(r.metadata@) == seq![(key@, value@)],
{
    let mut metadata: Vec<(String, String)> = Vec::new();
    metadata.push((key.to_owned(), value));
    let r = TaskReply { content, metadata };
    assert(pairs(r.metadata@) =~= seq![(key@, value@)]);
    r
}

/// A reply with two metadata pairs.
pub fn reply2(content: String, k1: &str, v1: String, k2: &str, v2: String) -> (r: TaskReply)
    ensures
        r.content@ == content@,
        pairs(r.metadata@) == seq![(k1@, v1@), (k2@, v2@)],
{
    let mut metadata: Vec<(String, String)> = Vec::new();
    metadata.push((k1.to_owned(), v1));
    metadata.push((k2.to_owned(), v2));
    let r = TaskReply { content, metadata };
    assert(pairs(r.metadata@) =~= seq![(k1@, v1@), (k2@, v2@)]);
    r
}

// ── hello ────────────────────────────────────────────────────────────────────

/// The greeting of the hello component for an input of `len` bytes.
pub fn hello_reply(len: usize) -> (r: TaskReply)
    ensures
        r.content@ == "Hello from Fluxion! Received "@ + decimal(len as nat) + " bytes."@,
        pairs(r.metadata@) == seq![("source"@, "hello-component"@)],
{
    let mut msg = String::from_str("Hello from Fluxion! Received ");
    let n = usize_to_decimal(len);
    msg.append(n.as_str());
    msg.append(" bytes.");
    reply1(msg, "source", String::from_str("hello-component"))
}

// ── spin ─────────────────────────────────────────────────────────────────────

/// The number read from an input: its trimmed UTF-8 text as a `u64`, else `none`.
pub open spec fn number_or(content: Seq<u8>, none: u64) -> u64 {
    if vstd::utf8::valid_utf8(content) {
        match parsed_u64(trimmed(vstd::utf8::decode_utf8(content))) {
            Some(n) => n,
            None => none,
        }
    } else {
        none
    }
}

/// How many iterations the spin component runs: the number in its input, else
/// `u64::MAX` (spin until interrupted).
pub fn spin_iterations(content: Vec<u8>) -> (r: u64)
    ensures
        r == number_or(content@, u64::MAX),
{
    match utf8_string(content) {
        Some(s) => match parse_u64(str_trim(s.as_str())) {
            Some(n) => n,
            None => u64::MAX,
        },
        None => u64::MAX,
    }
}

/// `0 + 1 + ... + (n - 1)`.
pub open spec fn sum_below(n: nat) -> nat
    decreases n,
{
    if n == 0 {
        0
    } else {
        sum_below((n - 1) as nat) + (n - 1) as nat
    }
}

/// The sum of the numbers below `n` is `n * (n - 1) / 2`.
pub proof fn lemma_sum_below(n: nat)
    ensures
        2 * sum_below(n) == n * (n - 1),
    decreases n,
{
    if n > 0 {
        let m = (n - 1) as nat;
        lemma_sum_below(m);
        assert(2 * sum_below(n) == m * (m - 1) + 2 * m);
        assert(m * (m - 1) + 2 * m == n * (n - 1)) by (nonlinear_arith)
            requires
                m + 1 == n,
        ;
    } else {
        assert(n * (n - 1) == 0) by (nonlinear_arith)
            requires
                n == 0,
        ;
    }
}

/// Adding `x` with wrapping to a running sum kept modulo 2^64 keeps it modulo 2^64.
proof fn lemma_wrapping_step(total: nat, acc: u64, x: u64)
    requires
        acc == total % 0x1_0000_0000_0000_0000,
    ensures
        acc.wrapping_add(x) == (total + x) % 0x1_0000_0000_0000_0000,
{
    let m: int = 0x1_0000_0000_0000_0000;
    vstd::arithmetic::div_mod::lemma_add_mod_noop(total as int, x as int, m);
    vstd::arithmetic::div_mod::lemma_small_mod(x as nat, m as nat);
    if acc + x < m {
        vstd::arithmetic::div_mod::lemma_small_mod((acc + x) as nat, m as nat);
    } else {
        vstd::arithmetic::div_mod::lemma_small_mod((acc + x - m) as nat, m as nat);
        vstd::arithmetic::div_mod::lemma_mod_sub_multiples_vanish((acc + x) as int, m);
    }
}

/// The spin loop: the sum of `0..n` with wrapping `u64` addition.
pub fn spin_sum(n: u64) -> (r: u64)
    ensures
        r == sum_below(n as nat) % 0x1_0000_0000_0000_0000,
{
    let mut acc: u64 = 0;
    let mut i: u64 = 0;
    while i < n
        invariant
            i <= n,
            acc == sum_below(i as nat) % 0x1_0000_0000_0000_0000,
        decreases n - i,
    {
        proof {
            lemma_wrapping_step(sum_below(i as nat), acc, i);
            assert(sum_below((i + 1) as nat) == sum_below(i as nat) + i);
        }
        acc = acc.wrapping_add(i);
        i = i + 1;
    }
    acc
}

/// What the spin component answers after `n` iterations that summed to `acc`.
pub fn spin_reply(n: u64, acc: u64) -> (r: TaskReply)
    ensures
        r.content@ == "sum="@ + decimal(acc as nat),
        pairs(r.metadata@) == seq![("iterations"@, decimal(n as nat))],
{
    let mut msg = String::from_str("sum=");
    let a = u64_to_decimal(acc);
    msg.append(a.as_str());
    reply1(msg, "iterations", u64_to_decimal(n))
}

/// The spin component: sums `0..n` for the `n` its input names.
pub fn spin_process(content: Vec<u8>) -> (r: TaskReply)
    ensures
        ({
            let n = number_or(content@, u64::MAX);
            &&& r.content@ == "sum="@ + decimal(sum_below(n as nat) % 0x1_0000_0000_0000_0000)
            &&& pairs(r.metadata@) == seq![("iterations"@, decimal(n as nat))]
        }),
{
    let n = spin_iterations(content);
    let acc = spin_sum(n);
    spin_reply(n, acc)
}

// ── alloc-bomb ───────────────────────────────────────────────────────────────

/// The size read from an input: its trimmed UTF-8 text as a `usize`, else `none`.
pub open spec fn size_or(content: Seq<u8>, none: usize) -> usize {
    if vstd::utf8::valid_utf8(content) {
        match parsed_usize(trimmed(vstd::utf8::decode_utf8(content))) {
            Some(n) => n,
            None => none,
        }
    } else {
        none
    }
}

/// How many megabytes the alloc-bomb component allocates: the number in its
/// input, else 64.
pub fn alloc_megabytes(content: Vec<u8>) -> (r: usize)
    ensures
        r == size_or(content@, 64),
{
    match utf8_string(content) {
        Some(s) => match parse_usize(str_trim(s.as_str())) {
            Some(n) => n,
            None => 64,
        },
        None => 64,
    }
}

/// `(0 % 256) + (1 % 256) + ... + ((n - 1) % 256)`: the sum of a buffer of
/// `n` bytes that counts up and wraps at 256.
pub open spec fn byte_sum(n: nat) -> nat
    decreases n,
{
    if n == 0 {
        0
    } else {
        byte_sum((n - 1) as nat) + ((n - 1) as nat % 256)
    }
}

/// Byte sums: the first 256 bytes sum to `n * (n - 1) / 2`, and every further
/// run of 256 bytes adds 32640 (the sum of 0..=255).
pub proof fn lemma_byte_sum(n: nat)
    ensures
        n <= 256 ==> 2 * byte_sum(n) == n * (n - 1),
        byte_sum(n + 256) == byte_sum(n) + 32640,
    decreases n,
{
    if n <= 256 {
        lemma_byte_sum_small(n);
    }
    if n == 0 {
        lemma_byte_sum_small(256);
        assert(byte_sum(256) == 32640);
    } else {
        lemma_byte_sum((n - 1) as nat);
        assert((n - 1 + 256) as nat % 256 == (n - 1) as nat % 256);
    }
}

proof fn lemma_byte_sum_small(n: nat)
    requires
        n <= 256,
    ensures
        2 * byte_sum(n) == n * (n - 1),
    decreases n,
{
    if n > 0 {
        let m = (n - 1) as nat;
        lemma_byte_sum_small(m);
        assert(m % 256 == m);
        assert(m * (m - 1) + 2 * m == n * (n - 1)) by (nonlinear_arith)
            requires
                m + 1 == n,
        ;
    } else {
        assert(n * (n - 1) == 0) by (nonlinear_arith)
            requires
                n == 0,
        ;
    }
}

/// The alloc-bomb component: allocates `mb` megabytes, writes every byte
/// (byte `i` gets `i % 256`), and reports their sum (wrapping in `u64`).
pub fn alloc_bomb(mb: usize) -> (r: TaskReply)
    requires
        mb * 1048576 <= isize::MAX,
    ensures
        r.content@ == "Allocated "@ + decimal(mb as nat) + "MB ok"@,
        pairs(r.metadata@) == seq![
            ("mb"@, decimal(mb as nat)),
            ("checksum"@, decimal(byte_sum(mb as nat * 1048576) % 0x1_0000_0000_0000_0000)),
        ],
{
    let size = mb * 1024 * 1024;
    let mut data = vec![0u8; size];
    let mut i: usize = 0;
    while i < size
        invariant
            i <= size,
            data@.len() == size,
            forall|j: int| 0 <= j < i ==> #[trigger] data@[j] == (j % 256) as u8,
        decreases size - i,
    {
        data.set(i, (i % 256) as u8);
        i = i + 1;
    }
    let mut sum: u64 = 0;
    let mut k: usize = 0;
    while k < size
        invariant
            k <= size,
            data@.len() == size,
            forall|j: int| 0 <= j < size ==> #[trigger] data@[j] == (j % 256) as u8,
            sum == byte_sum(k as nat) % 0x1_0000_0000_0000_0000,
        decreases size - k,
    {
        let b = data[k];
        proof {
            assert(b == (k % 256) as u8);
            lemma_wrapping_step(byte_sum(k as nat), sum, b as u64);
            assert(byte_sum((k + 1) as nat) == byte_sum(k as nat) + (k as nat % 256));
        }
        sum = sum.wrapping_add(b as u64);
        k = k + 1;
    }
    let mut msg = String::from_str("Allocated ");
    let m = usize_to_decimal(mb);
    msg.append(m.as_str());
    msg.append("MB ok");
    reply2(msg, "mb", usize_to_decimal(mb), "checksum", u64_to_decimal(sum))
}

// ── file-reader ──────────────────────────────────────────────────────────────

/// The path the file-reader component reads: the trimmed text of its input,
/// `/data/input.txt` when that is empty.
pub open spec fn reader_path(text: Seq<char>) -> Seq<char> {
    if trimmed(text).len() == 0 {
        "/data/input.txt"@
    } else {
        trimmed(text)
    }
}

/// The path the file-reader component reads, or why its input is no text.
pub fn file_reader_path(content: Vec<u8>) -> (r: Result<String, String>)
    ensures
        r is Ok <==> vstd::utf8::valid_utf8(content@),
        r matches Ok(p) ==> p@ == reader_path(vstd::utf8::decode_utf8(content@)),
        r matches Err(e) ==> e@ == utf8_error_text(content@),
{
    let text = decode_utf8(content)?;
    let t = str_trim(text.as_str());
    if t.is_empty() {
        Ok(String::from_str("/data/input.txt"))
    } else {
        Ok(t.to_owned())
    }
}

/// What the file-reader component answers after reading `byte_len` bytes from `path`.
pub fn file_read_reply(path: &str, byte_len: usize) -> (r: TaskReply)
    ensures
        r.content@ == "Read "@ + decimal(byte_len as nat) + " bytes from "@ + path@,
        pairs(r.metadata@) == seq![("file"@, path@), ("status"@, "ok"@)],
{
    let mut msg = String::from_str("Read ");
    let n = usize_to_decimal(byte_len);
    msg.append(n.as_str());
    msg.append(" bytes from ");
    msg.append(path);
    reply2(msg, "file", path.to_owned(), "status", String::from_str("ok"))
}

/// The failure of the file-reader component when `path` cannot be read.
pub fn file_read_failure(path: &str, err: &str) -> (r: String)
    ensures
        r@ == "Cannot read '"@ + path@ + "': "@ + err@,
{
    let mut msg = String::from_str("Cannot read '");
    msg.append(path);
    msg.append("': ");
    msg.append(err);
    msg
}

// ── network-probe ────────────────────────────────────────────────────────────

/// The address the network-probe component connects to: the trimmed text of
/// its input, or why its input is no text.
pub fn probe_target(content: Vec<u8>) -> (r: Result<String, String>)
    ensures
        r is Ok <==> vstd::utf8::valid_utf8(content@),
        r matches Ok(a) ==> a@ == trimmed(vstd::utf8::decode_utf8(content@)),
        r matches Err(e) ==> e@ == utf8_error_text(content@),
{
    let text = decode_utf8(content)?;
    Ok(str_trim(text.as_str()).to_owned())
}

/// How a connection attempt ended.
pub enum ProbeOutcome {
    /// The connection was made.
    Connected,
    /// The network was reached but nothing listens there.
    Refused,
    /// Any other failure, with its text.
    Failed(String),
}

/// What the network-probe component answers for a connection attempt to `addr`.
pub fn probe_reply(addr: &str, outcome: ProbeOutcome) -> (r: Result<TaskReply, String>)
    ensures
        match outcome {
            ProbeOutcome::Connected => r matches Ok(t) && t.content@ == "Connected to "@ + addr@
                && pairs(t.metadata@) == seq![("status"@, "connected"@)],
            ProbeOutcome::Refused => r matches Ok(t) && t.content@ == "Reached "@ + addr@
                + " (no server \u{2014} permission granted)"@ && pairs(t.metadata@) == seq![
                ("status"@, "reached"@),
            ],
            ProbeOutcome::Failed(e) => r matches Err(m) && m@ == "Cannot connect to '"@ + addr@
                + "': "@ + e@,
        },
{
    match outcome {
        ProbeOutcome::Connected => {
            let mut msg = String::from_str("Connected to ");
            msg.append(addr);
            Ok(reply1(msg, "status", String::from_str("connected")))
        },
        ProbeOutcome::Refused => {
            let mut msg = String::from_str("Reached ");
            msg.append(addr);
            msg.append(" (no server \u{2014} permission granted)");
            Ok(reply1(msg, "status", String::from_str("reached")))
        },
        ProbeOutcome::Failed(e) => {
            let mut msg = String::from_str("Cannot connect to '");
            msg.append(addr);
            msg.append("': ");
            msg.append(e.as_str());
            Err(msg)
        },
    }
}

} // verus!

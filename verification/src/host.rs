//! Decisions of the component host: the network allowlist, resource limits,
//! and how the outcome of a component call is reported.
use vstd::prelude::*;

use crate::text::{contains_seq, decimal, str_contains, u64_to_decimal};

verus! {

/// Epoch ticks per second of the interruption ticker.
pub const TICKS_PER_SEC: u64 = 10;

/// An IP address: IPv4 as its 32-bit value, IPv6 as its 128-bit value.
#[derive(PartialEq, Eq, Structural, Clone, Copy, Debug)]
pub enum IpAddr {
    V4(u32),
    V6(u128),
}

/// A socket address. IPv6 addresses carry their flow label and scope id,
/// which take part in equality.
#[derive(PartialEq, Eq, Structural, Clone, Copy, Debug)]
pub enum SocketAddr {
    V4 { ip: u32, port: u16 },
    V6 { ip: u128, port: u16, flowinfo: u32, scope_id: u32 },
}

/// The IP address of a socket address.
pub open spec fn sock_ip(a: SocketAddr) -> IpAddr {
    match a {
        SocketAddr::V4 { ip, .. } => IpAddr::V4(ip),
        SocketAddr::V6 { ip, .. } => IpAddr::V6(ip),
    }
}

impl SocketAddr {
    /// The IP address part.
    pub fn ip(&self) -> (r: IpAddr)
        ensures
            r == sock_ip(*self),
    {
        match self {
            SocketAddr::V4 { ip, .. } => IpAddr::V4(*ip),
            SocketAddr::V6 { ip, .. } => IpAddr::V6(*ip),
        }
    }
}

/// An entry in the network allowlist: either an exact IP:port or all ports on an IP.
#[derive(PartialEq, Eq, Structural, Clone, Copy, Debug)]
pub enum NetworkEntry {
    Exact(SocketAddr),
    AnyPort(IpAddr),
}

/// Whether allowlist entry `e` lets a connection to `addr` through.
pub open spec fn entry_matches(e: NetworkEntry, addr: SocketAddr) -> bool {
    match e {
        NetworkEntry::Exact(a) => a == addr,
        NetworkEntry::AnyPort(ip) => ip == sock_ip(addr),
    }
}

impl NetworkEntry {
    /// Whether this entry lets a connection to `addr` through.
    pub fn matches(&self, addr: SocketAddr) -> (r: bool)
        ensures
            r == entry_matches(*self, addr),
    {
        match self {
            NetworkEntry::Exact(a) => *a == addr,
            NetworkEntry::AnyPort(ip) => *ip == addr.ip(),
        }
    }
}

/// Why the sandbox of a job could not be set up.
#[derive(Clone, Debug)]
pub enum HostError {
    /// The allowlist has entries but none is an `IP` or an `IP:port`.
    NoParsableEntries,
}

impl HostError {
    /// The error's message.
    pub fn message(&self) -> (r: String)
        ensures
            r@ == "network.allow has entries but none could be parsed as `IP` or `IP:port`"@,
    {
        String::from_str("network.allow has entries but none could be parsed as `IP` or `IP:port`")
    }
}

/// The network check a job runs under: `None` installs no check, which denies
/// every address; `Some(entries)` lets through what some entry matches.
pub open spec fn gate_for(allow_len: nat, entries: Seq<NetworkEntry>) -> Result<Option<Seq<NetworkEntry>>, HostError> {
    if allow_len == 0 {
        Ok(None)
    } else if entries.len() == 0 {
        Err(HostError::NoParsableEntries)
    } else {
        Ok(Some(entries))
    }
}

/// Some entry of `es` lets a connection to `addr` through.
pub open spec fn some_entry_matches(es: Seq<NetworkEntry>, addr: SocketAddr) -> bool {
    exists|i: int| 0 <= i < es.len() && entry_matches(#[trigger] es[i], addr)
}

/// Whether a check lets a connection to `addr` through.
pub open spec fn gate_permits(gate: Option<Seq<NetworkEntry>>, addr: SocketAddr) -> bool {
    match gate {
        None => false,
        Some(es) => some_entry_matches(es, addr),
    }
}

/// Chooses the network check of a job from the length of its allowlist and
/// the entries of it that parsed. An empty allowlist installs no check (deny
/// all); an allowlist of which nothing parsed is an error.
pub fn network_gate(allow_len: usize, entries: Vec<NetworkEntry>) -> (r: Result<Option<Vec<NetworkEntry>>, HostError>)
    ensures
        match r {
            Ok(None) => gate_for(allow_len as nat, entries@) == Ok::<Option<Seq<NetworkEntry>>, HostError>(None),
            Ok(Some(es)) => gate_for(allow_len as nat, entries@) == Ok::<Option<Seq<NetworkEntry>>, HostError>(Some(es@)),
            Err(e) => gate_for(allow_len as nat, entries@) == Err::<Option<Seq<NetworkEntry>>, HostError>(e),
        },
        allow_len == 0 ==> r matches Ok(None),
        allow_len > 0 && entries@.len() == 0 ==> r is Err,
        allow_len > 0 && entries@.len() > 0 ==> (r matches Ok(Some(es)) && es@ == entries@),
{
    if allow_len == 0 {
        Ok(None)
    } else if entries.len() == 0 {
        Err(HostError::NoParsableEntries)
    } else {
        Ok(Some(entries))
    }
}

/// Whether some entry of `es` lets a connection to `addr` through.
fn any_entry_matches(es: &Vec<NetworkEntry>, addr: SocketAddr) -> (r: bool)
    ensures
        r == some_entry_matches(es@, addr),
{
    let mut i: usize = 0;
    while i < es.len()
        invariant
            0 <= i <= es.len(),
            forall|j: int| 0 <= j < i ==> !entry_matches(#[trigger] es@[j], addr),
        decreases es.len() - i,
    {
        if es[i].matches(addr) {
            assert(entry_matches(es@[i as int], addr));
            return true;
        }
        i += 1;
    }
    false
}

/// Whether the check `gate` lets a connection to `addr` through.
pub fn addr_permitted(gate: &Option<Vec<NetworkEntry>>, addr: SocketAddr) -> (r: bool)
    ensures
        r == gate_permits(
            match gate {
                None => None,
                Some(es) => Some(es@),
            },
            addr,
        ),
{
    match gate {
        None => false,
        Some(es) => {
            let r = any_entry_matches(es, addr);
            r
        },
    }
}

/// A job with a nonempty allowlist of which some entries parsed lets through
/// exactly the addresses that some parsed entry matches: every entry is kept.
pub proof fn lemma_gate_keeps_every_entry(allow_len: nat, entries: Seq<NetworkEntry>, addr: SocketAddr)
    requires
        allow_len > 0,
        entries.len() > 0,
    ensures
        gate_for(allow_len, entries) matches Ok(Some(g)) && g == entries,
        match gate_for(allow_len, entries) {
            Ok(g) => gate_permits(g, addr) <==> exists|i: int| 0 <= i < entries.len() && #[trigger] entry_matches(entries[i], addr),
            Err(_) => false,
        },
{
}

/// A job with an empty allowlist can reach no address.
pub proof fn lemma_empty_allowlist_denies(entries: Seq<NetworkEntry>, addr: SocketAddr)
    ensures
        match gate_for(0, entries) {
            Ok(g) => !gate_permits(g, addr),
            Err(_) => false,
        },
{
}

/// An exact entry lets through its own address only; a bare IP lets through
/// every port of that IP and nothing else.
pub proof fn lemma_entry_scope(e: NetworkEntry, addr: SocketAddr)
    ensures
        e matches NetworkEntry::Exact(a) ==> (entry_matches(e, addr) <==> a == addr),
        e matches NetworkEntry::AnyPort(ip) ==> (entry_matches(e, addr) <==> sock_ip(addr) == ip),
{
}

/// Whether an error message reports that a memory limit was hit.
pub open spec fn is_oom_text(msg: Seq<char>) -> bool {
    contains_seq(msg, "exceeds memory limits"@) || contains_seq(msg, "memory allocation failed"@)
}

/// Whether an error message reports that a memory limit was hit.
pub fn is_oom_error(msg: &str) -> (r: bool)
    ensures
        r == is_oom_text(msg@),
{
    str_contains(msg, "exceeds memory limits") || str_contains(msg, "memory allocation failed")
}

/// The message that replaces an instantiation error caused by the memory limit.
pub open spec fn oom_text(memory_mb: nat, err: Seq<char>) -> Seq<char> {
    "OOM: component exceeded memory_mb="@ + decimal(memory_mb) + " limit ("@ + err + ")"@
}

/// Rewrites an instantiation error: one caused by the memory limit becomes an
/// OOM message naming the limit; `None` leaves any other error as it is.
pub fn oom_rewrite(memory_mb: u64, err: &str) -> (r: Option<String>)
    ensures
        is_oom_text(err@) ==> r is Some && r.unwrap()@ == oom_text(memory_mb as nat, err@),
        !is_oom_text(err@) ==> r is None,
{
    if is_oom_error(err) {
        let mut s = String::from_str("OOM: component exceeded memory_mb=");
        let mb = u64_to_decimal(memory_mb);
        s.append(mb.as_str());
        s.append(" limit (");
        s.append(err);
        s.append(")");
        Some(s)
    } else {
        None
    }
}

/// The memory limit in bytes.
pub fn memory_limit_bytes(memory_mb: u64) -> (r: usize)
    requires
        memory_mb * 1024 * 1024 <= usize::MAX,
    ensures
        r == memory_mb * 1024 * 1024,
{
    (memory_mb as usize) * 1024 * 1024
}

/// The epoch deadline, in ticks, of a job limited to `timeout_secs` seconds.
pub fn epoch_deadline(timeout_secs: u64) -> (r: u64)
    requires
        timeout_secs * TICKS_PER_SEC <= u64::MAX,
    ensures
        r == timeout_secs * TICKS_PER_SEC,
{
    timeout_secs * TICKS_PER_SEC
}

/// What calling a component's `process` gave.
pub enum CallOutcome {
    /// The component returned output content.
    Output(Vec<u8>),
    /// The component returned an error message.
    ComponentError(String),
    /// The runtime trapped; `epoch_interrupt` tells whether the epoch deadline fired.
    Trap { epoch_interrupt: bool },
}

/// The result of running a component.
pub enum CallVerdict {
    /// The output content.
    Output(Vec<u8>),
    /// A failure with this message.
    Failed(String),
    /// A trap other than the deadline, passed on as it is.
    Trap,
}

/// Reports the outcome of a component call: output is returned, a component
/// error and an epoch interrupt become failure messages, other traps pass on.
pub fn judge_call(outcome: CallOutcome, timeout_secs: u64) -> (r: CallVerdict)
    ensures
        match outcome {
            CallOutcome::Output(c) => r matches CallVerdict::Output(o) && o@ == c@,
            CallOutcome::ComponentError(e) => r matches CallVerdict::Failed(m) && m@ == "Component error: "@ + e@,
            CallOutcome::Trap { epoch_interrupt } => if epoch_interrupt {
                r matches CallVerdict::Failed(m) && m@ == "Timeout: killed after "@ + decimal(timeout_secs as nat)
                    + "s (epoch interrupt)"@
            } else {
                r is Trap
            },
        },
{
    match outcome {
        CallOutcome::Output(c) => CallVerdict::Output(c),
        CallOutcome::ComponentError(e) => {
            let mut m = String::from_str("Component error: ");
            m.append(e.as_str());
            CallVerdict::Failed(m)
        },
        CallOutcome::Trap { epoch_interrupt } => {
            if epoch_interrupt {
                let mut m = String::from_str("Timeout: killed after ");
                let t = u64_to_decimal(timeout_secs);
                m.append(t.as_str());
                m.append("s (epoch interrupt)");
                CallVerdict::Failed(m)
            } else {
                CallVerdict::Trap
            }
        },
    }
}

/// A directory handed to a component, under the same path inside as outside,
/// and whether the component may write in it.
pub struct Preopen {
    pub path: String,
    pub writable: bool,
}

/// The entries of `paths` whose flag in `keep` is set, in order.
pub open spec fn kept(paths: Seq<Seq<char>>, keep: Seq<bool>) -> Seq<Seq<char>>
    decreases paths.len(),
{
    if paths.len() == 0 {
        Seq::empty()
    } else {
        kept(paths.drop_last(), keep) + if keep[paths.len() - 1] {
            seq![paths.last()]
        } else {
            Seq::empty()
        }
    }
}

/// The kept entries are exactly the entries whose flag is set, each at most
/// as often as it occurs.
pub proof fn lemma_kept_members(paths: Seq<Seq<char>>, keep: Seq<bool>)
    requires
        keep.len() == paths.len(),
    ensures
        forall|p: Seq<char>|
            #[trigger] kept(paths, keep).contains(p) <==> exists|i: int| 0 <= i < paths.len() && keep[i] && paths[i] == p,
        kept(paths, keep).len() <= paths.len(),
        (forall|i: int| 0 <= i < keep.len() ==> #[trigger] keep[i]) ==> kept(paths, keep) == paths,
    decreases paths.len(),
{
    if paths.len() > 0 {
        let q = paths.drop_last();
        let kq = keep.take(q.len() as int);
        // The flags past the end of `q` do not matter.
        lemma_kept_flags(q, keep, kq);
        lemma_kept_members(q, kq);
        let prev = kept(q, keep);
        let cur = kept(paths, keep);
        assert forall|p: Seq<char>|
            #[trigger] cur.contains(p) <==> exists|i: int| 0 <= i < paths.len() && keep[i] && paths[i] == p by {
            if cur.contains(p) {
                let j = choose|j: int| 0 <= j < cur.len() && cur[j] == p;
                if j < prev.len() {
                    assert(prev[j] == p);
                    assert(prev.contains(p));
                    let i = choose|i: int| 0 <= i < q.len() && kq[i] && q[i] == p;
                    assert(keep[i] && paths[i] == p);
                } else {
                    assert(keep[paths.len() - 1] && paths[paths.len() - 1] == p);
                }
            }
            if exists|i: int| 0 <= i < paths.len() && keep[i] && paths[i] == p {
                let i = choose|i: int| 0 <= i < paths.len() && keep[i] && paths[i] == p;
                if i < paths.len() - 1 {
                    assert(kq[i] && q[i] == p);
                    assert(prev.contains(p));
                    let j = choose|j: int| 0 <= j < prev.len() && prev[j] == p;
                    assert(cur[j] == p);
                } else {
                    assert(cur[cur.len() - 1] == p);
                }
            }
        }
        if forall|i: int| 0 <= i < keep.len() ==> #[trigger] keep[i] {
            assert(forall|i: int| 0 <= i < kq.len() ==> #[trigger] kq[i] == keep[i]);
            assert(keep[paths.len() - 1]);
            assert(cur =~= paths);
        }
    }
}

/// `kept` reads only the flags of the paths it is given.
proof fn lemma_kept_flags(paths: Seq<Seq<char>>, a: Seq<bool>, b: Seq<bool>)
    requires
        paths.len() <= a.len(),
        paths.len() <= b.len(),
        forall|i: int| 0 <= i < paths.len() ==> a[i] == b[i],
    ensures
        kept(paths, a) == kept(paths, b),
    decreases paths.len(),
{
    if paths.len() > 0 {
        lemma_kept_flags(paths.drop_last(), a, b);
    }
}

/// The directories a job's component sees: the read directories that exist
/// (`read_exists`), read-only, then every write directory, read-write.
pub fn plan_preopens(read: &Vec<String>, read_exists: &Vec<bool>, write: &Vec<String>) -> (r: Vec<Preopen>)
    requires
        read_exists@.len() == read@.len(),
    ensures
        r@.map_values(|p: Preopen| (p.path@, p.writable)) == kept(
            read@.map_values(|s: String| s@),
            read_exists@,
        ).map_values(|p: Seq<char>| (p, false)) + write@.map_values(|s: String| (s@, true)),
{
    let ghost rv = read@.map_values(|s: String| s@);
    let mut out: Vec<Preopen> = Vec::new();
    let mut i: usize = 0;
    while i < read.len()
        invariant
            i <= read@.len(),
            read_exists@.len() == read@.len(),
            rv == read@.map_values(|s: String| s@),
            out@.map_values(|p: Preopen| (p.path@, p.writable)) == kept(rv.take(i as int), read_exists@).map_values(
                |p: Seq<char>| (p, false),
            ),
        decreases read.len() - i,
    {
        proof {
            assert(rv.take(i as int + 1).drop_last() =~= rv.take(i as int));
            assert(rv.take(i as int + 1).last() == read@[i as int]@);
        }
        let ghost before = out@;
        if read_exists[i] {
            out.push(Preopen { path: read[i].clone(), writable: false });
            assert(out@.map_values(|p: Preopen| (p.path@, p.writable)) =~= before.map_values(
                |p: Preopen| (p.path@, p.writable),
            ).push((read@[i as int]@, false)));
        }
        assert(kept(rv.take(i as int + 1), read_exists@).map_values(|p: Seq<char>| (p, false))
            =~= out@.map_values(|p: Preopen| (p.path@, p.writable)));
        i = i + 1;
    }
    assert(rv.take(read@.len() as int) =~= rv);
    let ghost first = out@.map_values(|p: Preopen| (p.path@, p.writable));
    let mut j: usize = 0;
    while j < write.len()
        invariant
            j <= write@.len(),
            out@.map_values(|p: Preopen| (p.path@, p.writable)) == first + write@.take(j as int).map_values(
                |s: String| (s@, true),
            ),
        decreases write.len() - j,
    {
        let ghost before = out@;
        out.push(Preopen { path: write[j].clone(), writable: true });
        assert(out@.map_values(|p: Preopen| (p.path@, p.writable)) =~= before.map_values(
            |p: Preopen| (p.path@, p.writable),
        ).push((write@[j as int]@, true)));
        assert(write@.take(j as int + 1).map_values(|s: String| (s@, true)) =~= write@.take(j as int).map_values(
            |s: String| (s@, true),
        ).push((write@[j as int]@, true)));
        j = j + 1;
    }
    assert(write@.take(write@.len() as int) =~= write@);
    out
}

/// The kinds of item a component imports or exports.
#[derive(Clone, Copy, Debug)]
pub enum ItemKind {
    ComponentFunc,
    CoreFunc,
    Module,
    Component,
    ComponentInstance,
    Type,
    Resource,
}

/// The label under which an item kind is listed.
pub open spec fn kind_label(k: ItemKind) -> Seq<char> {
    match k {
        ItemKind::ComponentFunc => "func"@,
        ItemKind::CoreFunc => "core-func"@,
        ItemKind::Module => "module"@,
        ItemKind::Component => "component"@,
        ItemKind::ComponentInstance => "instance"@,
        ItemKind::Type => "type"@,
        ItemKind::Resource => "resource"@,
    }
}

/// The label under which an item of kind `k` is listed.
pub fn item_kind_label(k: ItemKind) -> (r: &'static str)
    ensures
        r@ == kind_label(k),
{
    match k {
        ItemKind::ComponentFunc => "func",
        ItemKind::CoreFunc => "core-func",
        ItemKind::Module => "module",
        ItemKind::Component => "component",
        ItemKind::ComponentInstance => "instance",
        ItemKind::Type => "type",
        ItemKind::Resource => "resource",
    }
}

} // verus!

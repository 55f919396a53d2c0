//! The operator's window into a server: its state at one moment, rendered as
//! Prometheus text and served over HTTP.

use vstd::prelude::*;
use vstd::string::{StrSliceExecFns, StringExecFns};

use crate::text::{decimal, push_decimal, text};

verus! {

/// A point-in-time view of one server.
#[derive(Debug, Clone, PartialEq, Eq)]
pub struct ServerStats {
    /// This server's index in the deployment.
    pub node: usize,
    /// `"leader"` or `"follower"`.
    pub role: &'static str,
    /// Current leadership epoch.
    pub epoch: u64,
    /// Highest seq this node has sequenced (leader) or applied (follower).
    pub seq: u64,
    /// Replication lag in frames.
    pub lag: u64,
    /// Seq of the most recent durable snapshot, or 0 if there is none.
    pub snapshot_seq: u64,
    /// Journal segment files on disk.
    pub journal_segments: u64,
}

/// One metric: its help line, its type line, and its value for a node.
pub open spec fn metric(
    name: Seq<char>,
    help: Seq<char>,
    kind: Seq<char>,
    node: nat,
    value: nat,
) -> Seq<char> {
    "# HELP "@ + name + " "@ + help + "\n"@ + "# TYPE "@ + name + " "@ + kind + "\n"@ + name
        + "{node=\""@ + decimal(node) + "\"} "@ + decimal(value) + "\n"@
}

/// Appends one metric.
fn push_metric(out: &mut String, name: &str, help: &str, kind: &str, node: u64, value: u64)
    ensures
        final(out)@ == old(out)@ + metric(name@, help@, kind@, node as nat, value as nat),
{
    let ghost start = out@;
    out.append("# HELP ");
    out.append(name);
    out.append(" ");
    out.append(help);
    out.append("\n");
    out.append("# TYPE ");
    out.append(name);
    out.append(" ");
    out.append(kind);
    out.append("\n");
    out.append(name);
    out.append("{node=\"");
    push_decimal(out, node);
    out.append("\"} ");
    push_decimal(out, value);
    out.append("\n");
    assert(out@ =~= start + metric(name@, help@, kind@, node as nat, value as nat));
}

/// All metrics of a server.
pub open spec fn prometheus(
    node: nat,
    leads: bool,
    epoch: u64,
    seq: u64,
    lag: u64,
    snapshot_seq: u64,
    journal_segments: u64,
) -> Seq<char> {
    metric(
        "ticktape_role"@,
        "1 if this node is the leader, else 0"@,
        "gauge"@,
        node,
        if leads {
            1
        } else {
            0
        },
    ) + metric("ticktape_epoch"@, "current leadership epoch"@, "counter"@, node, epoch as nat)
        + metric("ticktape_seq"@, "highest sequenced/applied seq"@, "counter"@, node, seq as nat)
        + metric(
        "ticktape_lag_frames"@,
        "replication lag behind the leader"@,
        "gauge"@,
        node,
        lag as nat,
    ) + metric(
        "ticktape_snapshot_seq"@,
        "seq of the latest durable snapshot"@,
        "counter"@,
        node,
        snapshot_seq as nat,
    ) + metric(
        "ticktape_journal_segments"@,
        "journal segment files on disk"@,
        "gauge"@,
        node,
        journal_segments as nat,
    )
}

/// Whether two texts are the same.
fn same_text(a: &str, b: &str) -> (r: bool)
    ensures
        r == (a@ == b@),
{
    let n: usize = a.unicode_len();
    let m: usize = b.unicode_len();
    proof {
        assert(a@.subrange(0, n as int) =~= a@);
        if n == m && b@.is_prefix_of(a@) {
            assert(a@ =~= b@);
        }
    }
    n == m && begins_with(a, 0, n, b)
}

/// Whether the characters of `a` in `[from, to)` begin with `b`.
fn begins_with(a: &str, from: usize, to: usize, b: &str) -> (r: bool)
    requires
        from <= to <= a@.len(),
    ensures
        r == b@.is_prefix_of(a@.subrange(from as int, to as int)),
{
    let n: usize = b.unicode_len();
    if n > to - from {
        return false;
    }
    let mut i: usize = 0;
    while i < n
        invariant
            i <= n == b@.len(),
            n <= to - from,
            from <= to <= a@.len(),
            b@.take(i as int) == a@.subrange(from as int, from + i),
        decreases n - i,
    {
        let x: char = a.get_char(from + i);
        let y: char = b.get_char(i);
        if x != y {
            proof {
                assert(b@[i as int] != a@.subrange(from as int, to as int)[i as int]);
            }
            return false;
        }
        proof {
            assert(b@.take(i + 1) =~= b@.take(i as int).push(y));
            assert(a@.subrange(from as int, from + i + 1) =~= a@.subrange(
                from as int,
                from + i,
            ).push(x));
        }
        i = i + 1;
    }
    proof {
        assert(b@.take(n as int) =~= b@);
        assert(a@.subrange(from as int, to as int).take(n as int) =~= a@.subrange(
            from as int,
            from + n,
        ));
    }
    true
}

impl ServerStats {
    /// The stats as Prometheus text.
    pub open spec fn rendered(&self) -> Seq<char> {
        prometheus(
            self.node as nat,
            self.role@ == "leader"@,
            self.epoch,
            self.seq,
            self.lag,
            self.snapshot_seq,
            self.journal_segments,
        )
    }

    /// Renders the stats in the Prometheus text format. The `node` label tells
    /// servers apart when several are scraped.
    pub fn to_prometheus(&self) -> (r: String)
        ensures
            r@ == self.rendered(),
    {
        let n: u64 = self.node as u64;
        let leads: u64 = if same_text(self.role, "leader") {
            1
        } else {
            0
        };
        let mut out = String::new();
        push_metric(
            &mut out,
            "ticktape_role",
            "1 if this node is the leader, else 0",
            "gauge",
            n,
            leads,
        );
        push_metric(
            &mut out,
            "ticktape_epoch",
            "current leadership epoch",
            "counter",
            n,
            self.epoch,
        );
        push_metric(
            &mut out,
            "ticktape_seq",
            "highest sequenced/applied seq",
            "counter",
            n,
            self.seq,
        );
        push_metric(
            &mut out,
            "ticktape_lag_frames",
            "replication lag behind the leader",
            "gauge",
            n,
            self.lag,
        );
        push_metric(
            &mut out,
            "ticktape_snapshot_seq",
            "seq of the latest durable snapshot",
            "counter",
            n,
            self.snapshot_seq,
        );
        push_metric(
            &mut out,
            "ticktape_journal_segments",
            "journal segment files on disk",
            "gauge",
            n,
            self.journal_segments,
        );
        assert(out@ =~= self.rendered());
        out
    }
}

/// White space, as Unicode has it.
pub open spec fn is_space(c: char) -> bool {
    let n = c as u32;
    ||| 0x9 <= n <= 0xD
    ||| n == 0x20
    ||| n == 0x85
    ||| n == 0xA0
    ||| n == 0x1680
    ||| 0x2000 <= n <= 0x200A
    ||| n == 0x2028
    ||| n == 0x2029
    ||| n == 0x202F
    ||| n == 0x205F
    ||| n == 0x3000
}

fn space(c: char) -> (r: bool)
    ensures
        r == is_space(c),
{
    let n: u32 = c as u32;
    (n >= 0x9 && n <= 0xD) || n == 0x20 || n == 0x85 || n == 0xA0 || n == 0x1680 || (n >= 0x2000
        && n <= 0x200A) || n == 0x2028 || n == 0x2029 || n == 0x202F || n == 0x205F || n == 0x3000
}

/// The first position at or behind `i` that holds white space (`white`), or
/// that holds none; the end where there is no such position.
pub open spec fn skip_to(text: Seq<char>, i: nat, white: bool) -> nat
    decreases text.len() - i,
{
    if i >= text.len() {
        text.len()
    } else if is_space(text[i as int]) == white {
        i
    } else {
        skip_to(text, i + 1, white)
    }
}

fn find(request: &str, len: usize, start: usize, white: bool) -> (r: usize)
    requires
        start <= len == request@.len(),
    ensures
        r == skip_to(request@, start as nat, white),
        start <= r <= len,
{
    let mut i: usize = start;
    while i < len
        invariant
            start <= i <= len == request@.len(),
            skip_to(request@, start as nat, white) == skip_to(request@, i as nat, white),
        decreases len - i,
    {
        if space(request.get_char(i)) == white {
            return i;
        }
        i = i + 1;
    }
    i
}

/// The path that a request asks for: its second word, or `/` where there is
/// none.
pub open spec fn requested(request: Seq<char>) -> Seq<char> {
    let method_end = skip_to(request, skip_to(request, 0, false), true);
    let start = skip_to(request, method_end, false);
    let end = skip_to(request, start, true);
    if start < end <= request.len() {
        request.subrange(start as int, end as int)
    } else {
        "/"@
    }
}

/// A whole HTTP response.
pub open spec fn http_response(status: Seq<char>, content: Seq<char>, body: Seq<char>) -> Seq<
    char,
> {
    "HTTP/1.1 "@ + status + "\r\n"@ + "Content-Type: "@ + content + "\r\n"@ + "Content-Length: "@
        + decimal(body.len()) + "\r\n"@ + "Connection: close\r\n\r\n"@ + body
}

/// What a request is answered.
pub open spec fn answered(request: Seq<char>, stats: &ServerStats) -> Seq<char> {
    let path = requested(request);
    if "/metrics"@.is_prefix_of(path) {
        http_response("200 OK"@, "text/plain; version=0.0.4"@, stats.rendered())
    } else if "/healthz"@.is_prefix_of(path) {
        http_response("200 OK"@, "text/plain"@, "ok\n"@)
    } else {
        http_response("404 Not Found"@, "text/plain"@, "not found\n"@)
    }
}

fn respond_with(status: &str, content: &str, body: String) -> (r: String)
    ensures
        r@ == http_response(status@, content@, body@),
{
    let len: usize = body.as_str().unicode_len();
    let mut out = String::new();
    out.append("HTTP/1.1 ");
    out.append(status);
    out.append("\r\n");
    out.append("Content-Type: ");
    out.append(content);
    out.append("\r\n");
    out.append("Content-Length: ");
    push_decimal(&mut out, len as u64);
    out.append("\r\n");
    out.append("Connection: close\r\n\r\n");
    out.append(body.as_str());
    assert(out@ =~= http_response(status@, content@, body@));
    out
}

/// Answers an HTTP request: `/metrics` with the stats, `/healthz` with `ok`,
/// any other path with a 404. Every body is ASCII, so its length in characters
/// is its length in bytes.
pub fn respond(request: &str, stats: &ServerStats) -> (r: String)
    ensures
        r@ == answered(request@, stats),
{
    let len: usize = request.unicode_len();
    let first: usize = find(request, len, 0, false);
    let method_end: usize = find(request, len, first, true);
    let start: usize = find(request, len, method_end, false);
    let end: usize = find(request, len, start, true);
    let (metrics, health): (bool, bool) = if start < end {
        (begins_with(request, start, end, "/metrics"), begins_with(request, start, end, "/healthz"))
    } else {
        proof {
            reveal_strlit("/");
            assert("/"@.subrange(0, 1) =~= "/"@);
        }
        (begins_with("/", 0, 1, "/metrics"), begins_with("/", 0, 1, "/healthz"))
    };
    if metrics {
        respond_with("200 OK", "text/plain; version=0.0.4", stats.to_prometheus())
    } else if health {
        respond_with("200 OK", "text/plain", text("ok\n"))
    } else {
        respond_with("404 Not Found", "text/plain", text("not found\n"))
    }
}

/// Skipping stops at the first position of the kind that is looked for.
proof fn lemma_skip_to(text: Seq<char>, i: nat, j: nat, white: bool)
    requires
        i <= j <= text.len(),
        forall|k: int| i <= k < j ==> is_space(#[trigger] text[k]) != white,
        j < text.len() ==> is_space(text[j as int]) == white,
    ensures
        skip_to(text, i, white) == j,
    decreases j - i,
{
    if i < j {
        assert(is_space(text[i as int]) != white);
        lemma_skip_to(text, i + 1, j, white);
    }
}

/// The path of a request is its second word, whatever follows behind white space;
/// a request of one word asks for `/`.
pub proof fn law_path_is_the_second_word(
    method: Seq<char>,
    path: Seq<char>,
    rest: Seq<char>,
    gap: char,
)
    requires
        method.len() > 0,
        path.len() > 0,
        is_space(gap),
        forall|k: int| 0 <= k < method.len() ==> !is_space(#[trigger] method[k]),
        forall|k: int| 0 <= k < path.len() ==> !is_space(#[trigger] path[k]),
        rest.len() > 0 ==> is_space(rest[0]),
    ensures
        requested(method + seq![gap] + path + rest) == path,
        requested(method) == "/"@,
{
    let text = method + seq![gap] + path + rest;
    let a = method.len();
    let b = a + 1 + path.len();
    assert forall|k: int| 0 <= k < a implies !is_space(#[trigger] text[k]) by {
        assert(text[k] == method[k]);
    }
    assert(text[a as int] == gap);
    assert forall|k: int| a + 1 <= k < b implies !is_space(#[trigger] text[k]) by {
        assert(text[k] == path[k - a - 1]);
    }
    if rest.len() > 0 {
        assert(text[b as int] == rest[0]);
    }
    assert(!is_space(text[0]));
    lemma_skip_to(text, 0, 0, false);
    lemma_skip_to(text, 0, a, true);
    assert(!is_space(text[a as int + 1]));
    lemma_skip_to(text, a, a + 1, false);
    lemma_skip_to(text, a + 1, b, true);
    assert(text.subrange(a as int + 1, b as int) =~= path);
    assert(!is_space(method[0]));
    lemma_skip_to(method, 0, 0, false);
    lemma_skip_to(method, 0, a, true);
}

/// Only white space separates words.
pub proof fn law_words_are_parted_by_white_space()
    ensures
        is_space(' '),
        is_space('\n'),
        is_space('\r'),
        is_space('\t'),
        !is_space('/'),
        !is_space('a'),
        !is_space('0'),
{
}

/// An answer ends in its body, and tells the body's length in front of it.
pub proof fn law_answer_ends_in_its_body(status: Seq<char>, content: Seq<char>, body: Seq<char>)
    ensures
        ({
            let all = http_response(status, content, body);
            let head = "HTTP/1.1 "@ + status + "\r\n"@ + "Content-Type: "@ + content + "\r\n"@
                + "Content-Length: "@ + decimal(body.len()) + "\r\n"@
                + "Connection: close\r\n\r\n"@;
            all == head + body
        }),
{
}

/// The metrics are asked for under `/metrics`, liveness under `/healthz`, and what
/// is asked for under any other path is not there.
pub proof fn law_paths_that_are_served(request: Seq<char>, stats: &ServerStats)
    ensures
        ({
            let path = requested(request);
            let metrics = path.len() >= 8 && path.take(8) == "/metrics"@;
            let health = path.len() >= 8 && path.take(8) == "/healthz"@;
            &&& metrics ==> answered(request, stats) == http_response(
                "200 OK"@,
                "text/plain; version=0.0.4"@,
                stats.rendered(),
            )
            &&& health && !metrics ==> answered(request, stats) == http_response(
                "200 OK"@,
                "text/plain"@,
                "ok\n"@,
            )
            &&& !health && !metrics ==> answered(request, stats) == http_response(
                "404 Not Found"@,
                "text/plain"@,
                "not found\n"@,
            )
        }),
{
    reveal_strlit("/metrics");
    reveal_strlit("/healthz");
    let path = requested(request);
    if "/metrics"@.is_prefix_of(path) {
        assert(path.take(8) =~= "/metrics"@);
    } else if path.len() >= 8 && path.take(8) == "/metrics"@ {
        assert("/metrics"@ =~= path.subrange(0, 8));
    }
    if "/healthz"@.is_prefix_of(path) {
        assert(path.take(8) =~= "/healthz"@);
    } else if path.len() >= 8 && path.take(8) == "/healthz"@ {
        assert("/healthz"@ =~= path.subrange(0, 8));
    }
}

/// Each metric is told under its own name with its own value: a leader has the
/// role 1 and a follower the role 0.
pub proof fn law_each_metric_tells_its_value(stats: &ServerStats)
    ensures
        ({
            let node = stats.node as nat;
            let role: nat = if stats.role@ == "leader"@ {
                1
            } else {
                0
            };
            stats.rendered() == metric(
                "ticktape_role"@,
                "1 if this node is the leader, else 0"@,
                "gauge"@,
                node,
                role,
            ) + metric(
                "ticktape_epoch"@,
                "current leadership epoch"@,
                "counter"@,
                node,
                stats.epoch as nat,
            ) + metric(
                "ticktape_seq"@,
                "highest sequenced/applied seq"@,
                "counter"@,
                node,
                stats.seq as nat,
            ) + metric(
                "ticktape_lag_frames"@,
                "replication lag behind the leader"@,
                "gauge"@,
                node,
                stats.lag as nat,
            ) + metric(
                "ticktape_snapshot_seq"@,
                "seq of the latest durable snapshot"@,
                "counter"@,
                node,
                stats.snapshot_seq as nat,
            ) + metric(
                "ticktape_journal_segments"@,
                "journal segment files on disk"@,
                "gauge"@,
                node,
                stats.journal_segments as nat,
            )
        }),
{
}

/// A metric is three lines: what it is, of which kind it is, and its value for
/// the node.
pub proof fn law_metric_has_three_lines(
    name: Seq<char>,
    help: Seq<char>,
    kind: Seq<char>,
    node: nat,
    value: nat,
)
    ensures
        metric(name, help, kind, node, value) == ("# HELP "@ + name + " "@ + help + "\n"@) + (
        "# TYPE "@ + name + " "@ + kind + "\n"@) + (name + "{node=\""@ + decimal(node) + "\"} "@
            + decimal(value) + "\n"@),
{
    assert(metric(name, help, kind, node, value) =~= ("# HELP "@ + name + " "@ + help + "\n"@) + (
    "# TYPE "@ + name + " "@ + kind + "\n"@) + (name + "{node=\""@ + decimal(node) + "\"} "@
        + decimal(value) + "\n"@));
}

} // verus!

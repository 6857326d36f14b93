//! Settings of the tracing reporter.

use vstd::prelude::*;
use vstd::utf8::encode_utf8;

verus! {

/// Why tracing settings are rejected.
#[derive(Clone, Copy, Debug, PartialEq, Eq, Structural)]
pub enum ConfigError {
    /// The agent address is not `host:port` with a port from 1 to 65535.
    InvalidAddress,
    /// Reporting is on but no reporting thread is allowed.
    ZeroReportThreads,
    /// Reporting is on but no span may be kept.
    ZeroSpansMaxLength,
}

/// Settings of the tracing reporter.
pub struct Config {
    /// Address of the agent spans are sent to; empty turns reporting off.
    pub jaeger_thrift_compact_agent: String,
    pub num_report_threads: usize,
    /// Traces shorter than this many milliseconds are not reported.
    pub duration_threshold_ms: u64,
    pub spans_max_length: usize,
}

pub const COLON: u8 = 58;

pub open spec fn is_digit(b: u8) -> bool {
    48 <= b <= 57
}

/// Decimal value of the digits `s[0 .. n]`.
pub open spec fn decimal_value(s: Seq<u8>, n: nat) -> nat
    decreases n,
{
    if n == 0 {
        0
    } else {
        decimal_value(s, (n - 1) as nat) * 10 + (s[n - 1] - 48) as nat
    }
}

/// `b` is `host:port`: one colon, a non-empty host, and a port of one to
/// five digits whose value lies in `1 ..= 65535`.
pub open spec fn addr_ok(b: Seq<u8>) -> bool {
    exists|i: int|
        #![trigger b[i]]
        0 < i < b.len() && b[i] == COLON && {
            let host = b.subrange(0, i);
            let port = b.subrange(i + 1, b.len() as int);
            &&& forall|k: int| 0 <= k < host.len() ==> #[trigger] host[k] != COLON
            &&& 1 <= port.len() <= 5
            &&& forall|k: int| 0 <= k < port.len() ==> is_digit(#[trigger] port[k])
            &&& 1 <= decimal_value(port, port.len()) <= 65535
        }
}

/// The settings pass validation.
pub open spec fn config_ok(agent: Seq<u8>, threads: usize, spans: usize) -> Result<(), ConfigError> {
    if agent.len() == 0 {
        Ok(())
    } else if !addr_ok(agent) {
        Err(ConfigError::InvalidAddress)
    } else if threads == 0 {
        Err(ConfigError::ZeroReportThreads)
    } else if spans == 0 {
        Err(ConfigError::ZeroSpansMaxLength)
    } else {
        Ok(())
    }
}

/// Checks that `b` is `host:port`.
pub fn check_addr(b: &[u8]) -> (r: bool)
    ensures
        r == addr_ok(b@),
{
    let n: usize = b.len();
    let mut i: usize = 0;
    while i < n && b[i] != COLON
        invariant
            i <= n == b@.len(),
            forall|k: int| 0 <= k < i ==> b@[k] != COLON,
        decreases n - i,
    {
        i = i + 1;
    }
    if i == 0 || i == n {
        proof {
            if addr_ok(b@) {
                let j = choose|j: int|
                    #![trigger b@[j]]
                    0 < j < b@.len() && b@[j] == COLON && {
                        let host = b@.subrange(0, j);
                        let port = b@.subrange(j + 1, b@.len() as int);
                        &&& forall|k: int| 0 <= k < host.len() ==> #[trigger] host[k] != COLON
                        &&& 1 <= port.len() <= 5
                        &&& forall|k: int| 0 <= k < port.len() ==> is_digit(#[trigger] port[k])
                        &&& 1 <= decimal_value(port, port.len()) <= 65535
                    };
                if i == 0 {
                    assert(b@[0] == COLON);
                    assert(b@.subrange(0, j)[0] != COLON);
                }
            }
        }
        return false;
    }
    let plen: usize = n - i - 1;
    if plen < 1 || plen > 5 {
        proof {
            lemma_colon_unique(b@, i as int);
        }
        return false;
    }
    let port = vstd::slice::slice_subrange(b, i + 1, n);
    let mut v: u64 = 0;
    let mut k: usize = 0;
    while k < plen
        invariant
            k <= plen <= 5,
            0 < i < n == b@.len(),
            b@[i as int] == COLON,
            forall|j: int| 0 <= j < i ==> b@[j] != COLON,
            port@ == b@.subrange(i + 1, n as int),
            port@.len() == plen,
            forall|j: int| 0 <= j < k ==> is_digit(#[trigger] port@[j]),
            v == decimal_value(port@, k as nat),
            v < 100000,
        decreases plen - k,
    {
        if port[k] < 48 || port[k] > 57 {
            proof {
                lemma_colon_unique(b@, i as int);
                assert(port@ == b@.subrange(i + 1, b@.len() as int));
            }
            return false;
        }
        proof {
            lemma_decimal_bound(port@, (k + 1) as nat);
        }
        v = v * 10 + (port[k] - 48) as u64;
        k = k + 1;
    }
    proof {
        lemma_colon_unique(b@, i as int);
        assert(port@ == b@.subrange(i + 1, b@.len() as int));
    }
    1 <= v && v <= 65535
}

proof fn lemma_decimal_bound(s: Seq<u8>, n: nat)
    requires
        n <= 5,
        n <= s.len(),
        forall|j: int| 0 <= j < n - 1 ==> is_digit(#[trigger] s[j]),
        n > 0 ==> is_digit(s[n - 1]),
    ensures
        decimal_value(s, n) < 100000,
        decimal_value(s, n) < pow10(n),
    decreases n,
{
    if n > 0 {
        lemma_decimal_bound(s, (n - 1) as nat);
    }
    reveal_with_fuel(pow10, 6);
}

pub open spec fn pow10(n: nat) -> nat
    decreases n,
{
    if n == 0 {
        1
    } else {
        10 * pow10((n - 1) as nat)
    }
}

/// With the first colon at `i`, `addr_ok` is decided by the split at `i`.
proof fn lemma_colon_unique(b: Seq<u8>, i: int)
    requires
        0 < i < b.len(),
        b[i] == COLON,
        forall|k: int| 0 <= k < i ==> b[k] != COLON,
    ensures
        addr_ok(b) == {
            let port = b.subrange(i + 1, b.len() as int);
            &&& 1 <= port.len() <= 5
            &&& forall|k: int| 0 <= k < port.len() ==> is_digit(#[trigger] port[k])
            &&& 1 <= decimal_value(port, port.len()) <= 65535
        },
{
    let host = b.subrange(0, i);
    assert(forall|k: int| 0 <= k < host.len() ==> #[trigger] host[k] != COLON);
    if addr_ok(b) {
        let j = choose|j: int|
            #![trigger b[j]]
            0 < j < b.len() && b[j] == COLON && {
                let host = b.subrange(0, j);
                let port = b.subrange(j + 1, b.len() as int);
                &&& forall|k: int| 0 <= k < host.len() ==> #[trigger] host[k] != COLON
                &&& 1 <= port.len() <= 5
                &&& forall|k: int| 0 <= k < port.len() ==> is_digit(#[trigger] port[k])
                &&& 1 <= decimal_value(port, port.len()) <= 65535
            };
        if j > i {
            assert(b.subrange(0, j)[i] == COLON);
        }
        if j < i {
            assert(b[j] != COLON);
        }
    }
}

impl Config {
    /// Checks the settings: with an agent address, the address must be
    /// `host:port` and both the thread count and the span limit non-zero.
    pub fn validate(&self) -> (r: Result<(), ConfigError>)
        ensures
            r == config_ok(
                encode_utf8(self.jaeger_thrift_compact_agent@),
                self.num_report_threads,
                self.spans_max_length,
            ),
    {
        let agent: &[u8] = self.jaeger_thrift_compact_agent.as_str().as_bytes();
        if agent.len() == 0 {
            return Ok(());
        }
        if !check_addr(agent) {
            return Err(ConfigError::InvalidAddress);
        }
        if self.num_report_threads == 0 {
            return Err(ConfigError::ZeroReportThreads);
        }
        if self.spans_max_length == 0 {
            return Err(ConfigError::ZeroSpansMaxLength);
        }
        Ok(())
    }
}

impl Default for Config {
    fn default() -> (r: Config)
        ensures
            r.jaeger_thrift_compact_agent@.len() == 0,
            r.num_report_threads == 1,
            r.duration_threshold_ms == 100,
            r.spans_max_length == 1000,
    {
        Config {
            jaeger_thrift_compact_agent: String::new(),
            num_report_threads: 1,
            duration_threshold_ms: 100,
            spans_max_length: 1000,
        }
    }
}

} // verus!

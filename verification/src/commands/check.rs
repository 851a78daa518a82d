//! Checking ports and finding the next free one.
use vstd::prelude::*;

use crate::domain::entities::{
    least_holder, lowest_unassigned, port_assigned, Assignment, Registry, RegistryConfig,
};
use crate::domain::errors::{PortmanError, PortmanErrorView};
use crate::domain::ports::{answered_free, answered_process, ProcessInfo, SocketChecker};
use crate::text::{
    append_str, chars_of, decimal, is_digit, lemma_decimal_digits, lemma_parse_decimal,
    parse_decimal, parse_unsigned, string_from_chars,
};

verus! {

// ---------------------------------------------------------------------------
// The state of one port
// ---------------------------------------------------------------------------

/// What the machine reported of a port.
#[derive(Debug, Clone, PartialEq, Eq)]
pub enum SocketState {
    /// Nothing listens on it.
    Free,
    /// Something listens on it: the process, where it could be found.
    InUse(Option<ProcessInfo>),
}

/// The state of a port in the registry and on the machine.
#[derive(Debug, Clone, PartialEq, Eq)]
pub struct PortCheck {
    /// The project that holds the port, the first in name order.
    pub holder: Option<String>,
    /// What the machine reported.
    pub socket: SocketState,
}

/// The report on `port` given what the machine answered: whether the port
/// is `free`, and, for a port in use, the process `info` found on it.
pub fn port_report(registry: &Registry, port: u16, free: bool, info: Option<ProcessInfo>) -> (c: PortCheck)
    ensures
        match c.holder {
            None => least_holder(registry.assignments@, port) is None,
            Some(h) => least_holder(registry.assignments@, port) == Some(h@),
        },
        c.socket == (if free {
            SocketState::Free
        } else {
            SocketState::InUse(info)
        }),
{
    let holder = match registry.find_by_port(port) {
        Some((name, _)) => Some(name.to_owned()),
        None => None,
    };
    let state = if free {
        SocketState::Free
    } else {
        SocketState::InUse(info)
    };
    PortCheck { holder, socket: state }
}

/// Checks a port: which project holds it, and whether something listens on
/// it, with the process when it does. The socket is asked whether `port` is
/// free, and only for a port in use is the process looked up; the report is
/// what `port_report` makes of those answers.
pub fn check_port<S: SocketChecker + ?Sized>(registry: &Registry, socket: &S, port: u16) -> (c: PortCheck)
    ensures
        match c.holder {
            None => least_holder(registry.assignments@, port) is None,
            Some(h) => least_holder(registry.assignments@, port) == Some(h@),
        },
        match c.socket {
            SocketState::Free => answered_free(socket, port, true),
            SocketState::InUse(info) => answered_free(socket, port, false) && answered_process(
                socket,
                port,
                info,
            ),
        },
{
    let free = socket.is_port_free(port);
    let info = if free {
        None
    } else {
        socket.get_process_info(port)
    };
    port_report(registry, port, free, info)
}

// ---------------------------------------------------------------------------
// Ranges of ports
// ---------------------------------------------------------------------------

/// `i` is the position of the one and only `-` in `s`.
pub open spec fn sole_dash_at(s: Seq<char>, i: int) -> bool {
    &&& 0 <= i < s.len()
    &&& s[i] == '-'
    &&& forall|j: int| 0 <= j < s.len() && j != i ==> #[trigger] s[j] != '-'
}

/// What a range written as `start-end` stands for: the two ports, or the
/// error that says which part is wrong. `s` must split at `-` into exactly
/// two parts, and each part must read as a port.
pub open spec fn range_result(s: Seq<char>) -> Result<(u16, u16), PortmanErrorView> {
    if exists|i: int| sole_dash_at(s, i) {
        let i = choose|i: int| sole_dash_at(s, i);
        let a = s.take(i);
        let b = s.skip(i + 1);
        match parse_unsigned(a, 65535) {
            None => Err(PortmanErrorView::Other("Invalid range start: '"@ + a + "'"@)),
            Some(x) => match parse_unsigned(b, 65535) {
                None => Err(PortmanErrorView::Other("Invalid range end: '"@ + b + "'"@)),
                Some(y) => Ok((x as u16, y as u16)),
            },
        }
    } else {
        Err(
            PortmanErrorView::Other(
                "Invalid range format '"@ + s + "'. Expected: start-end (e.g. 8400-8999)"@,
            ),
        )
    }
}

/// Reads a range written as `start-end`, such as `8400-8999`.
pub fn parse_range(range: &str) -> (r: Result<(u16, u16), PortmanError>)
    ensures
        match (r, range_result(range@)) {
            (Ok(p), Ok(q)) => p == q,
            (Err(e), Err(f)) => e@ == f,
            _ => false,
        },
{
    let x = chars_of(range);
    let mut dashes: usize = 0;
    let mut at: usize = 0;
    let mut i: usize = 0;
    while i < x.len()
        invariant
            x@ == range@,
            i <= x.len(),
            dashes <= i,
            dashes == 0 ==> forall|j: int| 0 <= j < i ==> #[trigger] x@[j] != '-',
            dashes == 1 ==> at < i && x@[at as int] == '-' && forall|j: int|
                0 <= j < i && j != at ==> #[trigger] x@[j] != '-',
            dashes >= 2 ==> exists|j1: int, j2: int|
                0 <= j1 < j2 < i && x@[j1] == '-' && x@[j2] == '-',
        decreases x.len() - i,
    {
        if x[i] == '-' {
            if dashes == 0 {
                at = i;
            } else if dashes == 1 {
                assert(x@[at as int] == '-' && x@[i as int] == '-');
            }
            if dashes < 2 {
                dashes = dashes + 1;
            }
        }
        i = i + 1;
    }
    if dashes != 1 {
        proof {
            if exists|k: int| sole_dash_at(range@, k) {
                let k = choose|k: int| sole_dash_at(range@, k);
                if dashes >= 2 {
                    let (j1, j2) = choose|j1: int, j2: int|
                        0 <= j1 < j2 < x.len() && x@[j1] == '-' && x@[j2] == '-';
                    assert(x@[j1] == '-' && x@[j2] == '-');
                } else {
                    assert(x@[k] == '-');
                }
            }
        }
        let mut msg = String::new();
        append_str(&mut msg, "Invalid range format '");
        append_str(&mut msg, range);
        append_str(&mut msg, "'. Expected: start-end (e.g. 8400-8999)");
        return Err(PortmanError::Other(msg));
    }
    assert(sole_dash_at(range@, at as int));
    proof {
        let k = choose|k: int| sole_dash_at(range@, k);
        if k != at as int {
            assert(x@[k] == '-');
        }
    }
    let mut left: Vec<char> = Vec::new();
    let mut j: usize = 0;
    while j < at
        invariant
            x@ == range@,
            at < x.len(),
            j <= at,
            left@ == x@.take(j as int),
        decreases at - j,
    {
        left.push(x[j]);
        assert(x@.take(j + 1) =~= x@.take(j as int).push(x@[j as int]));
        j = j + 1;
    }
    let mut right: Vec<char> = Vec::new();
    let mut k: usize = at + 1;
    while k < x.len()
        invariant
            x@ == range@,
            at < x.len(),
            at + 1 <= k <= x.len(),
            right@ == x@.subrange(at + 1, k as int),
        decreases x.len() - k,
    {
        right.push(x[k]);
        assert(x@.subrange(at + 1, k + 1) =~= x@.subrange(at + 1, k as int).push(x@[k as int]));
        k = k + 1;
    }
    assert(right@ =~= x@.skip(at + 1));
    let start_text = string_from_chars(&left);
    let end_text = string_from_chars(&right);
    let start = match parse_decimal(start_text.as_str(), 65535) {
        Some(v) => v,
        None => {
            let mut msg = String::new();
            append_str(&mut msg, "Invalid range start: '");
            append_str(&mut msg, start_text.as_str());
            append_str(&mut msg, "'");
            return Err(PortmanError::Other(msg));
        },
    };
    let end = match parse_decimal(end_text.as_str(), 65535) {
        Some(v) => v,
        None => {
            let mut msg = String::new();
            append_str(&mut msg, "Invalid range end: '");
            append_str(&mut msg, end_text.as_str());
            append_str(&mut msg, "'");
            return Err(PortmanError::Other(msg));
        },
    };
    Ok((start as u16, end as u16))
}

/// Writing two ports as `start-end` and reading them back gives the two
/// ports.
pub proof fn law_range_round_trip(start: u16, end: u16)
    ensures
        range_result(decimal(start as nat) + "-"@ + decimal(end as nat)) == Ok::<(u16, u16), PortmanErrorView>((start, end)),
{
    reveal_strlit("-");
    let a = decimal(start as nat);
    let b = decimal(end as nat);
    let s = a + "-"@ + b;
    lemma_decimal_digits(start as nat);
    lemma_decimal_digits(end as nat);
    lemma_parse_decimal(start as nat, 65535);
    lemma_parse_decimal(end as nat, 65535);
    let i = a.len() as int;
    assert forall|j: int| 0 <= j < s.len() && j != i implies #[trigger] s[j] != '-' by {
        if j < i {
            assert(s[j] == a[j]);
            assert(is_digit(a[j]));
        } else {
            assert(s[j] == b[j - i - 1]);
            assert(is_digit(b[j - i - 1]));
        }
    }
    assert(sole_dash_at(s, i));
    let k = choose|k: int| sole_dash_at(s, k);
    if k != i {
        assert(s[k] == '-');
    }
    assert(s.take(i) =~= a);
    assert(s.skip(i + 1) =~= b);
}


// ---------------------------------------------------------------------------
// The next free port
// ---------------------------------------------------------------------------

/// An optional text, taken as characters.
pub open spec fn opt_text(t: Option<&str>) -> Option<Seq<char>> {
    match t {
        Some(x) => Some(x@),
        None => None,
    }
}

/// The range that `next` searches. `from` is where the search starts and a
/// range given as text bounds it: with both, the search runs from the later
/// of `from` and the range's start to the range's end. Without a range it
/// runs from `from` (by default the configured start) to the configured end.
pub open spec fn search_range_result(config: RegistryConfig, from: Option<u16>, range: Option<Seq<char>>) -> Result<(u16, u16), PortmanErrorView> {
    match range {
        Some(r) => match range_result(r) {
            Ok((a, b)) => Ok(
                (
                    match from {
                        Some(f) => if f > a {
                            f
                        } else {
                            a
                        },
                        None => a,
                    },
                    b,
                ),
            ),
            Err(e) => Err(e),
        },
        None => Ok(
            (
                match from {
                    Some(f) => f,
                    None => config.default_range_start,
                },
                config.default_range_end,
            ),
        ),
    }
}

/// The range that `next` searches.
pub fn search_range(config: &RegistryConfig, from: Option<u16>, range: Option<&str>) -> (r: Result<(u16, u16), PortmanError>)
    ensures
        match (r, search_range_result(*config, from, opt_text(range))) {
            (Ok(p), Ok(q)) => p == q,
            (Err(e), Err(f)) => e@ == f,
            _ => false,
        },
{
    match range {
        Some(text) => {
            let (a, b) = match parse_range(text) {
                Ok(bounds) => bounds,
                Err(e) => {
                    return Err(e);
                },
            };
            let start = match from {
                Some(f) => if f > a {
                    f
                } else {
                    a
                },
                None => a,
            };
            Ok((start, b))
        },
        None => {
            let start = match from {
                Some(f) => f,
                None => config.default_range_start,
            };
            Ok((start, config.default_range_end))
        },
    }
}

/// The lowest port from `from` to `end` that no project holds and that
/// `free` calls free: what `next` looks for, given the machine's answers.
pub open spec fn first_available(m: Map<Seq<char>, Assignment>, from: int, end: int, free: spec_fn(u16) -> bool) -> Option<u16>
    decreases end + 1 - from,
{
    if from > end || from < 0 || from > 65535 {
        None
    } else if !port_assigned(m, from as u16) && free(from as u16) {
        Some(from as u16)
    } else {
        first_available(m, from + 1, end, free)
    }
}

/// A step of the search for the next free port.
#[derive(Debug, Clone, Copy, PartialEq, Eq)]
pub enum NextStep {
    /// Ask the machine whether this port is free.
    Probe(u16),
    /// This port is the answer.
    Found(u16),
    /// No port of the range is left.
    Exhausted,
}

/// The step to which a port that no project holds leads: a probe, or the
/// end of the search.
pub open spec fn probe_or_exhausted(p: Option<u16>) -> NextStep {
    match p {
        Some(q) => NextStep::Probe(q),
        None => NextStep::Exhausted,
    }
}

/// The first step of a search from `start` to `end`: probe the lowest port
/// that no project holds.
pub fn first_step(registry: &Registry, start: u16, end: u16) -> (step: NextStep)
    ensures
        step == probe_or_exhausted(lowest_unassigned(registry.assignments@, start as int, end as int)),
        step matches NextStep::Probe(p) ==> start <= p <= end && !port_assigned(registry.assignments@, p)
            && forall|q: u16| start <= q < p ==> port_assigned(registry.assignments@, q),
        step is Exhausted ==> forall|q: u16| start <= q <= end ==> port_assigned(registry.assignments@, q),
{
    match registry.next_unassigned(start, end) {
        Some(p) => NextStep::Probe(p),
        None => NextStep::Exhausted,
    }
}

/// The step after the machine said whether `probed` is free: the port
/// itself when it is, else a probe of the next port that no project holds.
pub fn after_probe(registry: &Registry, probed: u16, free: bool, end: u16) -> (step: NextStep)
    ensures
        step == (if free {
            NextStep::Found(probed)
        } else {
            probe_or_exhausted(lowest_unassigned(registry.assignments@, probed + 1, end as int))
        }),
        step matches NextStep::Probe(p) ==> probed < p <= end && !port_assigned(registry.assignments@, p)
            && forall|q: u16| probed < q < p ==> port_assigned(registry.assignments@, q),
        step is Exhausted ==> forall|q: u16| probed < q <= end ==> port_assigned(registry.assignments@, q),
{
    if free {
        NextStep::Found(probed)
    } else if probed >= end {
        proof {
            assert(lowest_unassigned(registry.assignments@, probed + 1, end as int) is None);
        }
        NextStep::Exhausted
    } else {
        match registry.next_unassigned(probed + 1, end) {
            Some(p) => NextStep::Probe(p),
            None => NextStep::Exhausted,
        }
    }
}

/// What the search from a step finds, where the machine answers as `free`.
pub open spec fn step_answer(m: Map<Seq<char>, Assignment>, step: NextStep, end: int, free: spec_fn(u16) -> bool) -> Option<u16> {
    match step {
        NextStep::Probe(p) => first_available(m, p as int, end, free),
        NextStep::Found(p) => Some(p),
        NextStep::Exhausted => None,
    }
}

proof fn lemma_skip_assigned(m: Map<Seq<char>, Assignment>, from: int, end: int, free: spec_fn(u16) -> bool)
    ensures
        step_answer(m, probe_or_exhausted(lowest_unassigned(m, from, end)), end, free)
            == first_available(m, from, end, free),
    decreases end + 1 - from,
{
    if !(from > end || from < 0 || from > 65535) && port_assigned(m, from as u16) {
        lemma_skip_assigned(m, from + 1, end, free);
    }
}

/// The search finds the next port that is both unassigned in the registry
/// and free on the machine: the first step, and every step after a probe of
/// a port in the range, lead to what `first_available` says of the range
/// that is left, whatever the machine answers.
pub proof fn law_search_finds_first_available(
    registry: Registry,
    start: u16,
    end: u16,
    probed: u16,
    free: spec_fn(u16) -> bool,
)
    requires
        probed <= end,
        !port_assigned(registry.assignments@, probed),
    ensures
        step_answer(
            registry.assignments@,
            probe_or_exhausted(lowest_unassigned(registry.assignments@, start as int, end as int)),
            end as int,
            free,
        ) == first_available(registry.assignments@, start as int, end as int, free),
        step_answer(
            registry.assignments@,
            if free(probed) {
                NextStep::Found(probed)
            } else {
                probe_or_exhausted(lowest_unassigned(registry.assignments@, probed + 1, end as int))
            },
            end as int,
            free,
        ) == first_available(registry.assignments@, probed as int, end as int, free),
{
    let m = registry.assignments@;
    lemma_skip_assigned(m, start as int, end as int, free);
    lemma_skip_assigned(m, probed + 1, end as int, free);
}

/// The answer is the first available port of what the machine said: where
/// the machine called `p` free and called every lower unassigned port of
/// the range busy, `first_available` over those answers is `p`.
pub proof fn law_found_port_is_first_available(
    m: Map<Seq<char>, Assignment>,
    start: u16,
    end: u16,
    p: u16,
    free: spec_fn(u16) -> bool,
)
    requires
        start <= p <= end,
        !port_assigned(m, p),
        free(p),
        forall|q: u16| start <= q < p && !port_assigned(m, q) ==> !free(q),
    ensures
        first_available(m, start as int, end as int, free) == Some(p),
    decreases p - start,
{
    if start < p {
        law_found_port_is_first_available(m, (start + 1) as u16, end, p, free);
        if !port_assigned(m, start) {
            assert(!free(start));
        }
    }
}

/// Where the machine called every unassigned port of the range busy, no
/// port of the range is available.
pub proof fn law_exhausted_range_has_none(
    m: Map<Seq<char>, Assignment>,
    start: u16,
    end: u16,
    free: spec_fn(u16) -> bool,
)
    requires
        forall|q: u16| start <= q <= end && !port_assigned(m, q) ==> !free(q),
    ensures
        first_available(m, start as int, end as int, free) is None,
    decreases end + 1 - start,
{
    if start < end {
        law_exhausted_range_has_none(m, (start + 1) as u16, end, free);
    } else {
        assert(first_available(m, start as int + 1, end as int, free) is None);
    }
}

/// Finds the next port from the range that is both unassigned in the
/// registry and free according to `socket`. Whatever the socket answers,
/// a port that comes back is in the range and no project holds it; the
/// search fails when the range is malformed, and when no port of it is
/// left, with `NoAvailablePort`.
pub fn find_next_port<S: SocketChecker + ?Sized>(
    registry: &Registry,
    socket: &S,
    from: Option<u16>,
    range: Option<&str>,
) -> (r: Result<u16, PortmanError>)
    ensures
        match search_range_result(registry.config, from, opt_text(range)) {
            Err(f) => r matches Err(e) && e@ == f,
            Ok((start, end)) => match r {
                Ok(p) => start <= p <= end && !port_assigned(registry.assignments@, p) && answered_free(
                    socket,
                    p,
                    true,
                ) && forall|q: u16|
                    start <= q < p && !port_assigned(registry.assignments@, q) ==> answered_free(
                        socket,
                        q,
                        false,
                    ),
                Err(e) => e@ == PortmanErrorView::NoAvailablePort(start, end) && forall|q: u16|
                    start <= q <= end && !port_assigned(registry.assignments@, q) ==> answered_free(
                        socket,
                        q,
                        false,
                    ),
            },
        },
        search_range_result(registry.config, from, opt_text(range)) matches Ok((start, end))
            && lowest_unassigned(registry.assignments@, start as int, end as int) is None ==> r is Err,
{
    let (start, end) = match search_range(&registry.config, from, range) {
        Ok(b) => b,
        Err(e) => {
            return Err(e);
        },
    };
    let mut step = first_step(registry, start, end);
    loop
        invariant
            search_range_result(registry.config, from, opt_text(range)) == Ok::<(u16, u16), PortmanErrorView>((start, end)),
            match step {
                NextStep::Probe(p) => start <= p <= end && !port_assigned(registry.assignments@, p)
                    && forall|q: u16|
                    start <= q < p && !port_assigned(registry.assignments@, q) ==> answered_free(
                        socket,
                        q,
                        false,
                    ),
                NextStep::Found(p) => start <= p <= end && !port_assigned(registry.assignments@, p)
                    && answered_free(socket, p, true) && forall|q: u16|
                    start <= q < p && !port_assigned(registry.assignments@, q) ==> answered_free(
                        socket,
                        q,
                        false,
                    ),
                NextStep::Exhausted => forall|q: u16|
                    start <= q <= end && !port_assigned(registry.assignments@, q) ==> answered_free(
                        socket,
                        q,
                        false,
                    ),
            },
            lowest_unassigned(registry.assignments@, start as int, end as int) is None ==> step
                == NextStep::Exhausted,
        decreases (match step {
            NextStep::Probe(p) => end as int + 1 - p as int,
            _ => 0,
        }),
    {
        match step {
            NextStep::Probe(p) => {
                let free = socket.is_port_free(p);
                step = after_probe(registry, p, free, end);
            },
            NextStep::Found(p) => {
                return Ok(p);
            },
            NextStep::Exhausted => {
                return Err(PortmanError::NoAvailablePort(start, end));
            },
        }
    }
}

} // verus!

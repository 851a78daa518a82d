//! Listing the assignments with the live state of their ports.
use vstd::prelude::*;

use crate::domain::entities::{EntryView, Registry};
use crate::domain::ports::{answered_free, SocketChecker};
use crate::text::name_lt;

verus! {

/// A line of the listing: a project, its port, and whether something
/// listens on the port.
#[derive(Debug, Clone, PartialEq, Eq)]
pub struct ListRow {
    pub name: String,
    pub port: u16,
    pub active: bool,
}

/// A row with its name taken as characters.
pub type RowView = (Seq<char>, u16, bool);

/// The rows, names taken as characters.
pub open spec fn row_views(rows: Seq<ListRow>) -> Seq<RowView> {
    rows.map_values(|r: ListRow| (r.name@, r.port, r.active))
}

/// The rows for the first `i` entries of `s`, where `in_use[k]` says
/// whether the port of entry `k` is in use: one row per entry, marked with
/// that answer, except that with `active_only` the entries whose port is
/// not in use are left out.
pub open spec fn rows_for(s: Seq<EntryView>, in_use: Seq<bool>, active_only: bool, i: int) -> Seq<RowView>
    decreases i,
{
    if i <= 0 {
        Seq::empty()
    } else {
        let prev = rows_for(s, in_use, active_only, i - 1);
        if in_use[i - 1] || !active_only {
            prev.push((s[i - 1].0, s[i - 1].1.port, in_use[i - 1]))
        } else {
            prev
        }
    }
}

/// The rows that are marked active, in their order.
pub open spec fn active_rows(rows: Seq<RowView>) -> Seq<RowView> {
    rows.filter(|r: RowView| r.2)
}

/// Each row of the full listing is its entry marked with the answer for its
/// port, and the listing of active ports is the full listing with the idle
/// rows left out.
pub proof fn law_rows_follow_answers(s: Seq<EntryView>, in_use: Seq<bool>, i: int)
    requires
        0 <= i <= s.len(),
        in_use.len() == s.len(),
    ensures
        rows_for(s, in_use, false, i).len() == i,
        forall|k: int| 0 <= k < i ==> #[trigger] rows_for(s, in_use, false, i)[k] == (s[k].0, s[k].1.port, in_use[k]),
        rows_for(s, in_use, true, i) == active_rows(rows_for(s, in_use, false, i)),
    decreases i,
{
    reveal(Seq::filter);
    if i > 0 {
        law_rows_follow_answers(s, in_use, i - 1);
        let all = rows_for(s, in_use, false, i);
        let prev = rows_for(s, in_use, false, i - 1);
        assert(all.drop_last() =~= prev);
        assert(all.last() == (s[i - 1].0, s[i - 1].1.port, in_use[i - 1]));
        assert(active_rows(all) == (if all.last().2 {
            active_rows(prev).push(all.last())
        } else {
            active_rows(prev)
        }));
        assert forall|k: int| 0 <= k < i implies #[trigger] rows_for(s, in_use, false, i)[k] == (s[k].0, s[k].1.port, in_use[k]) by {
            if k < i - 1 {
                assert(all[k] == prev[k]);
            }
        }
    } else {
        assert(active_rows(rows_for(s, in_use, false, 0)) =~= Seq::<RowView>::empty());
    }
}

/// The ports of the entries, in name order: the ports that the listing asks
/// about, one answer each.
pub open spec fn entry_ports(s: Seq<EntryView>) -> Seq<u16> {
    s.map_values(|e: EntryView| e.1.port)
}

/// The ports to ask the machine about, in name order.
pub fn probe_ports(registry: &Registry) -> (ports: Vec<u16>)
    ensures
        ports@ == entry_ports(registry.assignments.ordered()),
{
    let n = registry.assignments.len();
    let mut ports: Vec<u16> = Vec::new();
    let mut i: usize = 0;
    while i < n
        invariant
            n == registry.assignments.ordered().len(),
            i <= n,
            ports@ == entry_ports(registry.assignments.ordered()).take(i as int),
        decreases n - i,
    {
        let (_, a) = registry.assignments.entry(i).unwrap();
        ports.push(a.port);
        assert(entry_ports(registry.assignments.ordered()).take(i + 1) =~= entry_ports(
            registry.assignments.ordered(),
        ).take(i as int).push(a.port));
        i = i + 1;
    }
    assert(entry_ports(registry.assignments.ordered()).take(n as int) =~= entry_ports(
        registry.assignments.ordered(),
    ));
    ports
}

/// The rows of the listing given the machine's answers: `in_use[i]` says
/// whether the port of the `i`-th entry in name order is in use.
pub fn rows_from(registry: &Registry, in_use: &Vec<bool>, active_only: bool) -> (rows: Vec<ListRow>)
    requires
        in_use.len() == registry.assignments.ordered().len(),
    ensures
        row_views(rows@) == rows_for(
            registry.assignments.ordered(),
            in_use@,
            active_only,
            registry.assignments.ordered().len() as int,
        ),
        forall|j1: int, j2: int| 0 <= j1 < j2 < rows.len() ==> name_lt(#[trigger] rows[j1].name@, #[trigger] rows[j2].name@),
        active_only ==> forall|j: int| 0 <= j < rows.len() ==> (#[trigger] rows[j]).active,
        !active_only ==> rows.len() == registry.assignments.ordered().len(),
{
    proof {
        use_type_invariant(&registry.assignments);
    }
    let ghost s = registry.assignments.ordered();
    let n = registry.assignments.len();
    let mut rows: Vec<ListRow> = Vec::new();
    let mut i: usize = 0;
    while i < n
        invariant
            s == registry.assignments.ordered(),
            registry.assignments.wf(),
            n == s.len(),
            in_use.len() == n,
            i <= n,
            row_views(rows@) == rows_for(s, in_use@, active_only, i as int),
            forall|j: int| 0 <= j < rows.len() ==> exists|k: int|
                0 <= k < i && s[k].0 == (#[trigger] rows[j]).name@,
            forall|j1: int, j2: int| 0 <= j1 < j2 < rows.len() ==> name_lt(#[trigger] rows[j1].name@, #[trigger] rows[j2].name@),
            active_only ==> forall|j: int| 0 <= j < rows.len() ==> (#[trigger] rows[j]).active,
            !active_only ==> rows.len() == i,
        decreases n - i,
    {
        let (name, a) = registry.assignments.entry(i).unwrap();
        let active = in_use[i];
        if active || !active_only {
            let row = ListRow { name: name.to_owned(), port: a.port, active };
            proof {
                assert forall|j: int| 0 <= j < rows.len() implies name_lt(#[trigger] rows[j].name@, row.name@) by {
                    let k = choose|k: int| 0 <= k < i && s[k].0 == rows[j].name@;
                    assert(name_lt(s[k].0, s[i as int].0));
                }
            }
            let ghost before = rows@;
            rows.push(row);
            proof {
                assert(row_views(rows@) =~= row_views(before).push((row.name@, row.port, row.active)));
                assert forall|j: int| 0 <= j < rows.len() implies exists|k: int|
                    0 <= k < i + 1 && s[k].0 == (#[trigger] rows[j]).name@ by {
                    if j == rows.len() - 1 {
                        assert(s[i as int].0 == rows[j].name@);
                    } else {
                        assert(rows[j] == before[j]);
                        let k = choose|k: int| 0 <= k < i && s[k].0 == before[j].name@;
                    }
                }
            }
        }
        i = i + 1;
    }
    rows
}

/// The rows of the listing in name order. The socket is asked about each
/// entry's port in turn (the ports of `probe_ports`), and the rows are what
/// `rows_from` makes of its answers: one row per project, marked active
/// when its port is in use, and with `active_only` only the active ones.
pub fn list_rows<S: SocketChecker + ?Sized>(registry: &Registry, socket: &S, active_only: bool) -> (rows: Vec<ListRow>)
    ensures
        exists|in_use: Seq<bool>|
            in_use.len() == registry.assignments.ordered().len() && (forall|i: int|
                0 <= i < in_use.len() ==> answered_free(
                    socket,
                    (#[trigger] registry.assignments.ordered()[i]).1.port,
                    !in_use[i],
                )) && row_views(rows@) == rows_for(
                registry.assignments.ordered(),
                in_use,
                active_only,
                registry.assignments.ordered().len() as int,
            ),
        forall|j1: int, j2: int| 0 <= j1 < j2 < rows.len() ==> name_lt(#[trigger] rows[j1].name@, #[trigger] rows[j2].name@),
        active_only ==> forall|j: int| 0 <= j < rows.len() ==> (#[trigger] rows[j]).active,
        !active_only ==> rows.len() == registry.assignments.ordered().len(),
{
    let ports = probe_ports(registry);
    let mut in_use: Vec<bool> = Vec::new();
    let mut i: usize = 0;
    while i < ports.len()
        invariant
            ports@ == entry_ports(registry.assignments.ordered()),
            i <= ports.len(),
            in_use.len() == i,
            forall|k: int| 0 <= k < i ==> answered_free(socket, ports@[k], !#[trigger] in_use@[k]),
        decreases ports.len() - i,
    {
        let free = socket.is_port_free(ports[i]);
        in_use.push(!free);
        i = i + 1;
    }
    let rows = rows_from(registry, &in_use, active_only);
    proof {
        assert forall|k: int| 0 <= k < in_use@.len() implies answered_free(
            socket,
            (#[trigger] registry.assignments.ordered()[k]).1.port,
            !in_use@[k],
        ) by {
            assert(ports@[k] == registry.assignments.ordered()[k].1.port);
        }
    }
    rows
}

} // verus!

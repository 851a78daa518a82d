//! Laws of the registry: what holds of its operations taken together.
use vstd::prelude::*;

use crate::domain::entities::{
    after_assign, is_least_holder, least_holder, plan_assign, port_assigned, AssignPlan,
    Assignment, Registry,
};
use crate::domain::errors::PortmanErrorView;
use crate::text::lemma_name_lt_irreflexive;

verus! {

/// No two projects of `m` hold the same port.
pub open spec fn ports_unique(m: Map<Seq<char>, Assignment>) -> bool {
    forall|k1: Seq<char>, k2: Seq<char>|
        #[trigger] m.contains_key(k1) && #[trigger] m.contains_key(k2) && k1 != k2 ==> m[k1].port
            != m[k2].port
}

/// The least holder of a port holds it.
proof fn lemma_least_holder_holds(m: Map<Seq<char>, Assignment>, port: u16)
    requires
        least_holder(m, port) is Some,
    ensures
        m.contains_key(least_holder(m, port)->0),
        m[least_holder(m, port)->0].port == port,
{
    let k = choose|k: Seq<char>| is_least_holder(m, port, k);
    assert(is_least_holder(m, port, k));
}

/// Where only `k` holds `port`, `k` is its least holder.
proof fn lemma_sole_holder(m: Map<Seq<char>, Assignment>, port: u16, k: Seq<char>)
    requires
        m.contains_key(k),
        m[k].port == port,
        forall|k2: Seq<char>| #[trigger] m.contains_key(k2) && m[k2].port == port ==> k2 == k,
    ensures
        least_holder(m, port) == Some(k),
{
    lemma_name_lt_irreflexive(k);
    assert(is_least_holder(m, port, k));
    let c = choose|c: Seq<char>| is_least_holder(m, port, c);
    assert(is_least_holder(m, port, c));
}

/// No two projects share a port: an assignment that goes through, forced
/// or not, keeps every port held by at most one project.
pub proof fn law_assign_keeps_ports_unique(
    before: Registry,
    name: Seq<char>,
    port: u16,
    force: bool,
    a: Assignment,
)
    requires
        before.assignments.wf(),
        ports_unique(before.assignments@),
        a.port == port,
        plan_assign(before.assignments@, name, port, force) is Apply,
    ensures
        ports_unique(
            after_assign(
                before.assignments@,
                plan_assign(before.assignments@, name, port, force)->Apply_0,
                name,
                a,
            ),
        ),
{
    let m = before.assignments@;
    let ev = plan_assign(m, name, port, force)->Apply_0;
    let after = after_assign(m, ev, name, a);
    before.assignments.lemma_holder(port);
    if least_holder(m, port) is Some {
        lemma_least_holder_holds(m, port);
    }
    assert forall|k1: Seq<char>, k2: Seq<char>|
        #[trigger] after.contains_key(k1) && #[trigger] after.contains_key(k2) && k1 != k2 implies after[k1].port
            != after[k2].port by {
        if k1 == name || k2 == name {
            let other = if k1 == name { k2 } else { k1 };
            assert(m.contains_key(other));
            if m[other].port == port {
                assert(port_assigned(m, port));
                let h = least_holder(m, port)->0;
                if h != other {
                    assert(m.contains_key(h) && m[h].port == port);
                }
            }
        } else {
            assert(m.contains_key(k1) && m.contains_key(k2));
        }
    }
}

/// Once an assignment goes through, the port is taken and its project is
/// the one that `find_by_port` reports.
pub proof fn law_assign_then_find(
    before: Registry,
    name: Seq<char>,
    port: u16,
    force: bool,
    a: Assignment,
)
    requires
        before.assignments.wf(),
        ports_unique(before.assignments@),
        a.port == port,
        plan_assign(before.assignments@, name, port, force) is Apply,
    ensures
        ({
            let after = after_assign(
                before.assignments@,
                plan_assign(before.assignments@, name, port, force)->Apply_0,
                name,
                a,
            );
            &&& port_assigned(after, port)
            &&& least_holder(after, port) == Some(name)
            &&& after[name] == a
        }),
{
    let m = before.assignments@;
    let ev = plan_assign(m, name, port, force)->Apply_0;
    let after = after_assign(m, ev, name, a);
    law_assign_keeps_ports_unique(before, name, port, force, a);
    assert(after.contains_key(name));
    assert forall|k2: Seq<char>| #[trigger] after.contains_key(k2) && after[k2].port == port implies k2 == name by {
        if k2 != name {
            assert(after[k2].port != after[name].port);
        }
    }
    lemma_sole_holder(after, port, name);
}

/// A forced request always goes through: afterwards the project holds the
/// new assignment, a different project that held the port has lost it, and
/// every other project keeps its own.
pub proof fn law_forced_assign_goes_through(before: Registry, name: Seq<char>, port: u16, a: Assignment)
    requires
        a.port == port,
    ensures
        plan_assign(before.assignments@, name, port, true) is Apply,
        ({
            let m = before.assignments@;
            let after = after_assign(m, plan_assign(m, name, port, true)->Apply_0, name, a);
            &&& after.contains_key(name)
            &&& after[name] == a
            &&& forall|k: Seq<char>| #[trigger] after.contains_key(k) ==> k == name || m.contains_key(k)
            &&& forall|k: Seq<char>|
                #[trigger] m.contains_key(k) && k != name && least_holder(m, port) != Some(k)
                    ==> after.contains_key(k) && after[k] == m[k]
            &&& (least_holder(m, port) is Some && least_holder(m, port)->0 != name) ==> !after.contains_key(least_holder(m, port)->0)
        }),
{
}

/// Releasing undoes assigning: when `name` has no assignment and `port` is
/// free, an assignment goes through without evicting anyone, and releasing
/// `name` afterwards hands the assignment back and leaves the registry as
/// it was.
pub proof fn law_release_undoes_assign(
    before: Registry,
    name: Seq<char>,
    port: u16,
    force: bool,
    a: Assignment,
)
    requires
        before.assignments.wf(),
        !before.assignments@.contains_key(name),
        !port_assigned(before.assignments@, port),
        a.port == port,
    ensures
        plan_assign(before.assignments@, name, port, force) == AssignPlan::Apply(None),
        after_assign(before.assignments@, None, name, a).contains_key(name),
        after_assign(before.assignments@, None, name, a)[name] == a,
        after_assign(before.assignments@, None, name, a).remove(name) == before.assignments@,
{
    let m = before.assignments@;
    before.assignments.lemma_holder(port);
    assert(m.insert(name, a).remove(name) =~= m);
}

/// Another project's port is refused without `force`: where no two
/// projects share a port and `other` holds `port`, a request of `name` for
/// it fails with a conflict that names `other`.
pub proof fn law_port_conflict_refused(
    before: Registry,
    name: Seq<char>,
    other: Seq<char>,
    port: u16,
)
    requires
        before.assignments.wf(),
        ports_unique(before.assignments@),
        before.assignments@.contains_key(other),
        before.assignments@[other].port == port,
        other != name,
    ensures
        plan_assign(before.assignments@, name, port, false) == AssignPlan::Reject(
            PortmanErrorView::PortConflict { port, name: other },
        ),
{
    let m = before.assignments@;
    assert forall|k2: Seq<char>| #[trigger] m.contains_key(k2) && m[k2].port == port implies k2 == other by {
        if k2 != other {
            assert(m[k2].port != m[other].port);
        }
    }
    lemma_sole_holder(m, port, other);
}

/// A project holds one port: where `name` holds another port and `port` is
/// free, a request without `force` fails naming the port that `name` holds.
pub proof fn law_name_conflict_refused(before: Registry, name: Seq<char>, port: u16)
    requires
        before.assignments.wf(),
        before.assignments@.contains_key(name),
        before.assignments@[name].port != port,
        !port_assigned(before.assignments@, port),
    ensures
        plan_assign(before.assignments@, name, port, false) == AssignPlan::Reject(
            PortmanErrorView::NameConflict(name, before.assignments@[name].port),
        ),
{
    before.assignments.lemma_holder(port);
}

/// Assigning a project the port it already holds goes through, and only
/// replaces its assignment.
pub proof fn law_reassign_same_port(
    before: Registry,
    name: Seq<char>,
    port: u16,
    force: bool,
    a: Assignment,
)
    requires
        before.assignments.wf(),
        ports_unique(before.assignments@),
        before.assignments@.contains_key(name),
        before.assignments@[name].port == port,
    ensures
        plan_assign(before.assignments@, name, port, force) == AssignPlan::Apply(None),
        after_assign(before.assignments@, None, name, a).dom() == before.assignments@.dom(),
{
    let m = before.assignments@;
    assert forall|k2: Seq<char>| #[trigger] m.contains_key(k2) && m[k2].port == port implies k2 == name by {
        if k2 != name {
            assert(m[k2].port != m[name].port);
        }
    }
    lemma_sole_holder(m, port, name);
    assert(m.insert(name, a).dom() =~= m.dom());
}

} // verus!

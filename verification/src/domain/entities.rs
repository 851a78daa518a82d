//! The registry of port assignments and the rules that every change to it
//! obeys.
use vstd::prelude::*;

use crate::domain::errors::{PortmanError, PortmanErrorView};
use crate::text::{
    lemma_name_lt_asymmetric, lemma_name_lt_irreflexive, lemma_name_lt_total,
    lemma_name_lt_transitive, name_lt, name_order, same_text, NameOrder,
};

verus! {

/// A single port reservation. Reassigning a project replaces its
/// `Assignment` as a whole.
#[derive(Debug, PartialEq)]
pub struct Assignment {
    pub port: u16,
    pub assigned_at: String,
    pub notes: Option<String>,
}

impl Clone for Assignment {
    /// An equal assignment.
    fn clone(&self) -> (r: Self)
        ensures
            r == *self,
    {
        let notes = match &self.notes {
            Some(n) => Some(n.clone()),
            None => None,
        };
        Assignment { port: self.port, assigned_at: self.assigned_at.clone(), notes }
    }
}

// ---------------------------------------------------------------------------
// The abstract model: entries ordered by name
// ---------------------------------------------------------------------------

/// An entry of the registry with its name taken as characters.
pub type EntryView = (Seq<char>, Assignment);

/// The names of `s` strictly increase: the entries are sorted by name and
/// no name occurs twice.
pub open spec fn names_increasing(s: Seq<EntryView>) -> bool {
    forall|i: int, j: int| 0 <= i < j < s.len() ==> name_lt(#[trigger] s[i].0, #[trigger] s[j].0)
}

/// The map from names to assignments that a sequence of entries holds.
pub open spec fn entries_map(s: Seq<EntryView>) -> Map<Seq<char>, Assignment>
    decreases s.len(),
{
    if s.len() == 0 {
        Map::empty()
    } else {
        entries_map(s.drop_last()).insert(s.last().0, s.last().1)
    }
}

/// The entries of a vector of named assignments, names taken as characters.
pub open spec fn entry_views(v: Seq<(String, Assignment)>) -> Seq<EntryView> {
    v.map_values(|e: (String, Assignment)| (e.0@, e.1))
}

/// No name occurs twice in `s`.
pub open spec fn distinct_names(s: Seq<EntryView>) -> bool {
    forall|i: int, j: int| 0 <= i < s.len() && 0 <= j < s.len() && i != j ==> #[trigger] s[i].0 != #[trigger] s[j].0
}

/// Entries in increasing name order have distinct names.
pub proof fn lemma_increasing_distinct(s: Seq<EntryView>)
    requires
        names_increasing(s),
    ensures
        distinct_names(s),
{
    assert forall|i: int, j: int| 0 <= i < s.len() && 0 <= j < s.len() && i != j implies #[trigger] s[i].0 != #[trigger] s[j].0 by {
        if i < j {
            lemma_name_lt_irreflexive(s[i].0);
        } else {
            lemma_name_lt_irreflexive(s[j].0);
        }
    }
}

/// What the map of a sequence of entries with distinct names holds: the
/// entries and nothing else, one key per entry.
pub proof fn lemma_entries_map(s: Seq<EntryView>)
    requires
        distinct_names(s),
    ensures
        forall|i: int| 0 <= i < s.len() ==> #[trigger] entries_map(s).contains_key(s[i].0)
            && entries_map(s)[s[i].0] == s[i].1,
        forall|k: Seq<char>| #[trigger] entries_map(s).contains_key(k) ==> exists|i: int| 0 <= i < s.len() && s[i].0 == k,
        entries_map(s).dom().finite(),
        entries_map(s).len() == s.len(),
    decreases s.len(),
{
    if s.len() > 0 {
        let t = s.drop_last();
        assert(distinct_names(t)) by {
            assert forall|i: int, j: int| 0 <= i < t.len() && 0 <= j < t.len() && i != j implies #[trigger] t[i].0 != #[trigger] t[j].0 by {
                assert(t[i] == s[i] && t[j] == s[j]);
            }
        }
        lemma_entries_map(t);
        let last = s.last();
        assert(!entries_map(t).contains_key(last.0)) by {
            if entries_map(t).contains_key(last.0) {
                let i = choose|i: int| 0 <= i < t.len() && t[i].0 == last.0;
                assert(s[i].0 == s[s.len() - 1].0);
            }
        }
        assert forall|i: int| 0 <= i < s.len() implies #[trigger] entries_map(s).contains_key(s[i].0)
            && entries_map(s)[s[i].0] == s[i].1 by {
            if i < s.len() - 1 {
                assert(s[i] == t[i]);
                assert(s[i].0 != last.0);
            }
        }
        assert forall|k: Seq<char>| #[trigger] entries_map(s).contains_key(k) implies exists|i: int| 0 <= i < s.len() && s[i].0 == k by {
            if k != last.0 {
                let i = choose|i: int| 0 <= i < t.len() && t[i].0 == k;
                assert(s[i] == t[i]);
            } else {
                assert(s[s.len() - 1].0 == k);
            }
        }
    }
}

/// A map that holds exactly the entries of `s` is the map of `s`.
pub proof fn lemma_entries_map_equal(s: Seq<EntryView>, m: Map<Seq<char>, Assignment>)
    requires
        distinct_names(s),
        forall|i: int| 0 <= i < s.len() ==> #[trigger] m.contains_key(s[i].0) && m[s[i].0] == s[i].1,
        forall|k: Seq<char>| #[trigger] m.contains_key(k) ==> exists|i: int| 0 <= i < s.len() && s[i].0 == k,
    ensures
        entries_map(s) == m,
{
    lemma_entries_map(s);
    assert forall|k: Seq<char>| #[trigger] entries_map(s).contains_key(k) == m.contains_key(k) by {
        if m.contains_key(k) {
            let i = choose|i: int| 0 <= i < s.len() && s[i].0 == k;
            assert(entries_map(s).contains_key(s[i].0));
        }
        if entries_map(s).contains_key(k) {
            let i = choose|i: int| 0 <= i < s.len() && s[i].0 == k;
            assert(m.contains_key(s[i].0));
        }
    }
    assert forall|k: Seq<char>| #[trigger] entries_map(s).contains_key(k) implies entries_map(s)[k] == m[k] by {
        let i = choose|i: int| 0 <= i < s.len() && s[i].0 == k;
        assert(entries_map(s).contains_key(s[i].0));
    }
    assert(entries_map(s) =~= m);
}

/// The map of the entries of `s` with `e` put at position `p`, where the
/// names before `p` come before `e`'s name and the others after it.
proof fn lemma_insert_entry(s: Seq<EntryView>, p: int, e: EntryView)
    requires
        names_increasing(s),
        0 <= p <= s.len(),
        forall|j: int| 0 <= j < p ==> name_lt(#[trigger] s[j].0, e.0),
        forall|j: int| p <= j < s.len() ==> name_lt(e.0, #[trigger] s[j].0),
    ensures
        names_increasing(s.insert(p, e)),
        entries_map(s.insert(p, e)) == entries_map(s).insert(e.0, e.1),
{
    let t = s.insert(p, e);
    assert forall|i: int, j: int| 0 <= i < j < t.len() implies name_lt(#[trigger] t[i].0, #[trigger] t[j].0) by {
        if i < p && j < p {
            assert(t[i] == s[i] && t[j] == s[j]);
        } else if i < p && j == p {
            assert(t[i] == s[i]);
        } else if i < p {
            assert(t[i] == s[i] && t[j] == s[j - 1]);
        } else if i == p {
            assert(t[j] == s[j - 1]);
        } else {
            assert(t[i] == s[i - 1] && t[j] == s[j - 1]);
        }
    }
    lemma_increasing_distinct(s);
    lemma_increasing_distinct(t);
    lemma_entries_map(s);
    let m = entries_map(s).insert(e.0, e.1);
    assert forall|i: int| 0 <= i < t.len() implies #[trigger] m.contains_key(t[i].0) && m[t[i].0] == t[i].1 by {
        if i < p {
            assert(t[i] == s[i]);
            lemma_name_lt_irreflexive(e.0);
        } else if i > p {
            assert(t[i] == s[i - 1]);
            lemma_name_lt_irreflexive(e.0);
        }
    }
    assert forall|k: Seq<char>| #[trigger] m.contains_key(k) implies exists|i: int| 0 <= i < t.len() && t[i].0 == k by {
        if k == e.0 {
            assert(t[p].0 == k);
        } else {
            let i = choose|i: int| 0 <= i < s.len() && s[i].0 == k;
            if i < p {
                assert(t[i] == s[i]);
            } else {
                assert(t[i + 1] == s[i]);
            }
        }
    }
    lemma_entries_map_equal(t, m);
}

/// The map of the entries of `s` with the entry at `i` given a new
/// assignment.
proof fn lemma_update_entry(s: Seq<EntryView>, i: int, a: Assignment)
    requires
        names_increasing(s),
        0 <= i < s.len(),
    ensures
        names_increasing(s.update(i, (s[i].0, a))),
        entries_map(s.update(i, (s[i].0, a))) == entries_map(s).insert(s[i].0, a),
{
    let t = s.update(i, (s[i].0, a));
    assert forall|x: int, y: int| 0 <= x < y < t.len() implies name_lt(#[trigger] t[x].0, #[trigger] t[y].0) by {
        assert(t[x].0 == s[x].0 && t[y].0 == s[y].0);
    }
    lemma_increasing_distinct(s);
    lemma_increasing_distinct(t);
    lemma_entries_map(s);
    let m = entries_map(s).insert(s[i].0, a);
    assert forall|j: int| 0 <= j < t.len() implies #[trigger] m.contains_key(t[j].0) && m[t[j].0] == t[j].1 by {
        if j != i {
            assert(t[j] == s[j]);
            assert(s[j].0 != s[i].0);
        }
    }
    assert forall|k: Seq<char>| #[trigger] m.contains_key(k) implies exists|j: int| 0 <= j < t.len() && t[j].0 == k by {
        if k == s[i].0 {
            assert(t[i].0 == k);
        } else {
            let j = choose|j: int| 0 <= j < s.len() && s[j].0 == k;
            assert(t[j].0 == s[j].0);
        }
    }
    lemma_entries_map_equal(t, m);
}

/// The map of the entries of `s` without the entry at `i`.
proof fn lemma_remove_entry(s: Seq<EntryView>, i: int)
    requires
        names_increasing(s),
        0 <= i < s.len(),
    ensures
        names_increasing(s.remove(i)),
        entries_map(s.remove(i)) == entries_map(s).remove(s[i].0),
{
    let t = s.remove(i);
    assert forall|x: int, y: int| 0 <= x < y < t.len() implies name_lt(#[trigger] t[x].0, #[trigger] t[y].0) by {
        if y < i {
            assert(t[x] == s[x] && t[y] == s[y]);
        } else if x < i {
            assert(t[x] == s[x] && t[y] == s[y + 1]);
        } else {
            assert(t[x] == s[x + 1] && t[y] == s[y + 1]);
        }
    }
    lemma_increasing_distinct(s);
    lemma_increasing_distinct(t);
    lemma_entries_map(s);
    let m = entries_map(s).remove(s[i].0);
    assert forall|j: int| 0 <= j < t.len() implies #[trigger] m.contains_key(t[j].0) && m[t[j].0] == t[j].1 by {
        if j < i {
            assert(t[j] == s[j]);
            assert(s[j].0 != s[i].0);
        } else {
            assert(t[j] == s[j + 1]);
            assert(s[j + 1].0 != s[i].0);
        }
    }
    assert forall|k: Seq<char>| #[trigger] m.contains_key(k) implies exists|j: int| 0 <= j < t.len() && t[j].0 == k by {
        let j = choose|j: int| 0 <= j < s.len() && s[j].0 == k;
        if j < i {
            assert(t[j] == s[j]);
        } else {
            assert(j != i);
            assert(t[j - 1] == s[j]);
        }
    }
    lemma_entries_map_equal(t, m);
}

// ---------------------------------------------------------------------------
// The map of assignments
// ---------------------------------------------------------------------------

/// The assignments of a registry, keyed by project name and kept in
/// increasing name order, so that walking them and writing them out always
/// goes by name.
#[derive(Debug, PartialEq)]
pub struct AssignmentMap {
    entries: Vec<(String, Assignment)>,
}

impl AssignmentMap {
    /// The entries in the order in which they are walked.
    pub closed spec fn ordered(&self) -> Seq<EntryView> {
        entry_views(self.entries@)
    }

    /// The entries are in increasing name order, each name once.
    pub open spec fn wf(&self) -> bool {
        names_increasing(self.ordered())
    }

    /// Every assignment map is well ordered.
    #[verifier::type_invariant]
    pub open spec fn type_inv(&self) -> bool {
        self.wf()
    }
}

impl View for AssignmentMap {
    type V = Map<Seq<char>, Assignment>;

    open spec fn view(&self) -> Map<Seq<char>, Assignment> {
        entries_map(self.ordered())
    }
}

impl Clone for AssignmentMap {
    /// A map with the same entries in the same order.
    fn clone(&self) -> (r: Self)
        ensures
            r.ordered() == self.ordered(),
            r@ == self@,
    {
        let mut entries: Vec<(String, Assignment)> = Vec::new();
        let mut i: usize = 0;
        while i < self.entries.len()
            invariant
                i <= self.entries.len(),
                entries@ == self.entries@.take(i as int),
            decreases self.entries.len() - i,
        {
            let name = self.entries[i].0.clone();
            let a = self.entries[i].1.clone();
            entries.push((name, a));
            assert(entries@ =~= self.entries@.take(i + 1));
            i = i + 1;
        }
        assert(entries@ =~= self.entries@);
        proof {
            use_type_invariant(self);
        }
        AssignmentMap { entries }
    }
}

/// Where a name stands among the entries.
enum Place {
    /// At this index.
    At(usize),
    /// Absent; it would go at this index.
    Before(usize),
}

impl AssignmentMap {
    /// What the map of a well-ordered assignment map holds.
    pub proof fn lemma_view(&self)
        requires
            self.wf(),
        ensures
            forall|i: int| 0 <= i < self.ordered().len() ==> #[trigger] self@.contains_key(self.ordered()[i].0)
                && self@[self.ordered()[i].0] == self.ordered()[i].1,
            forall|k: Seq<char>| #[trigger] self@.contains_key(k) ==> exists|i: int| 0 <= i < self.ordered().len() && self.ordered()[i].0 == k,
            self@.dom().finite(),
            self@.len() == self.ordered().len(),
    {
        lemma_increasing_distinct(self.ordered());
        lemma_entries_map(self.ordered());
    }

    /// A port has a least holder exactly when some project holds it.
    pub proof fn lemma_holder(&self, port: u16)
        requires
            self.wf(),
        ensures
            (least_holder(self@, port) is None) == !port_assigned(self@, port),
    {
        lemma_least_holder(self.ordered(), port);
    }

    /// An empty map.
    pub fn new() -> (m: Self)
        ensures
            m@ == Map::<Seq<char>, Assignment>::empty(),
            m.ordered().len() == 0,
    {
        let m = AssignmentMap { entries: Vec::new() };
        assert(m.ordered() =~= Seq::<EntryView>::empty());
        m
    }

    /// The number of assignments.
    pub fn len(&self) -> (n: usize)
        ensures
            n == self@.len(),
            n == self.ordered().len(),
    {
        proof {
            use_type_invariant(self);
            self.lemma_view();
        }
        self.entries.len()
    }

    /// Whether there are no assignments.
    pub fn is_empty(&self) -> (r: bool)
        ensures
            r == (self@.len() == 0),
    {
        self.len() == 0
    }

    fn locate(&self, name: &str) -> (r: Place)
        ensures
            match r {
                Place::At(i) => i < self.ordered().len() && self.ordered()[i as int].0 == name@,
                Place::Before(p) => p <= self.ordered().len() && (forall|j: int|
                    0 <= j < p ==> name_lt(#[trigger] self.ordered()[j].0, name@)) && (forall|j: int|
                    p <= j < self.ordered().len() ==> name_lt(name@, #[trigger] self.ordered()[j].0)),
            },
    {
        proof {
            use_type_invariant(self);
        }
        let ghost s = self.ordered();
        let mut i: usize = 0;
        while i < self.entries.len()
            invariant
                s == self.ordered(),
                names_increasing(s),
                s.len() == self.entries.len(),
                i <= s.len(),
                forall|j: int| 0 <= j < i ==> name_lt(#[trigger] s[j].0, name@),
            decreases self.entries.len() - i,
        {
            assert(s[i as int].0 == self.entries[i as int].0@);
            match name_order(self.entries[i].0.as_str(), name) {
                NameOrder::Before => {
                    i = i + 1;
                },
                NameOrder::Same => {
                    return Place::At(i);
                },
                NameOrder::After => {
                    assert forall|j: int| i <= j < s.len() implies name_lt(name@, #[trigger] s[j].0) by {
                        if j > i {
                            lemma_name_lt_transitive(name@, s[i as int].0, s[j].0);
                        }
                    }
                    return Place::Before(i);
                },
            }
        }
        Place::Before(i)
    }

    /// Whether a project of this name has an assignment.
    pub fn contains_key(&self, name: &str) -> (r: bool)
        ensures
            r == self@.contains_key(name@),
    {
        proof {
            use_type_invariant(self);
            self.lemma_view();
        }
        match self.locate(name) {
            Place::At(i) => {
                true
            },
            Place::Before(p) => {
                proof {
                    if self@.contains_key(name@) {
                        let i = choose|i: int| 0 <= i < self.ordered().len() && self.ordered()[i].0 == name@;
                        lemma_name_lt_irreflexive(name@);
                    }
                }
                false
            },
        }
    }

    /// The assignment of the project of this name.
    pub fn get(&self, name: &str) -> (r: Option<&Assignment>)
        ensures
            match r {
                Some(a) => self@.contains_key(name@) && *a == self@[name@],
                None => !self@.contains_key(name@),
            },
    {
        proof {
            use_type_invariant(self);
            self.lemma_view();
        }
        match self.locate(name) {
            Place::At(i) => {
                assert(self.ordered()[i as int] == (self.entries@[i as int].0@, self.entries@[i as int].1));
                assert(self@.contains_key(self.ordered()[i as int].0));
                Some(&self.entries[i].1)
            },
            Place::Before(p) => {
                proof {
                    if self@.contains_key(name@) {
                        let i = choose|i: int| 0 <= i < self.ordered().len() && self.ordered()[i].0 == name@;
                        lemma_name_lt_irreflexive(name@);
                    }
                }
                None
            },
        }
    }

    /// The entry at position `i` in name order.
    pub fn entry(&self, i: usize) -> (r: Option<(&str, &Assignment)>)
        ensures
            match r {
                Some((n, a)) => i < self.ordered().len() && n@ == self.ordered()[i as int].0 && *a
                    == self.ordered()[i as int].1,
                None => i >= self.ordered().len(),
            },
    {
        if i < self.entries.len() {
            Some((self.entries[i].0.as_str(), &self.entries[i].1))
        } else {
            None
        }
    }

    /// Gives `name` the assignment `a`, and hands back the assignment that
    /// it replaces.
    pub fn insert(&mut self, name: String, a: Assignment) -> (r: Option<Assignment>)
        ensures
            final(self)@ == old(self)@.insert(name@, a),
            match r {
                Some(b) => old(self)@.contains_key(name@) && b == old(self)@[name@],
                None => !old(self)@.contains_key(name@),
            },
    {
        proof {
            use_type_invariant(&*self);
            self.lemma_view();
        }
        let ghost s = self.ordered();
        let place = self.locate(name.as_str());
        let mut v: Vec<(String, Assignment)> = Vec::new();
        std::mem::swap(&mut v, &mut self.entries);
        assert(entry_views(v@) == s);
        match place {
            Place::At(i) => {
                let old_entry = v.remove(i);
                v.insert(i, (name, a));
                proof {
                    assert(s[i as int] == (old_entry.0@, old_entry.1));
                    assert(old(self)@.contains_key(s[i as int].0));
                    lemma_update_entry(s, i as int, a);
                    assert(entry_views(v@) =~= s.update(i as int, (s[i as int].0, a)));
                }
                self.entries = v;
                Some(old_entry.1)
            },
            Place::Before(p) => {
                let ghost e: EntryView = (name@, a);
                v.insert(p, (name, a));
                proof {
                    lemma_insert_entry(s, p as int, e);
                    assert(entry_views(v@) =~= s.insert(p as int, e));
                    if old(self)@.contains_key(e.0) {
                        let i = choose|i: int| 0 <= i < s.len() && s[i].0 == e.0;
                        lemma_name_lt_irreflexive(e.0);
                    }
                }
                self.entries = v;
                None
            },
        }
    }

    /// Takes the assignment of the project of this name out of the map.
    pub fn remove(&mut self, name: &str) -> (r: Option<Assignment>)
        ensures
            final(self)@ == old(self)@.remove(name@),
            match r {
                Some(b) => old(self)@.contains_key(name@) && b == old(self)@[name@],
                None => !old(self)@.contains_key(name@) && *final(self) == *old(self),
            },
    {
        proof {
            use_type_invariant(&*self);
            self.lemma_view();
        }
        let ghost s = self.ordered();
        match self.locate(name) {
            Place::At(i) => {
                let mut v: Vec<(String, Assignment)> = Vec::new();
                std::mem::swap(&mut v, &mut self.entries);
                assert(entry_views(v@) == s);
                let old_entry = v.remove(i);
                proof {
                    assert(s[i as int] == (old_entry.0@, old_entry.1));
                    assert(old(self)@.contains_key(s[i as int].0));
                    lemma_remove_entry(s, i as int);
                    assert(entry_views(v@) =~= s.remove(i as int));
                }
                self.entries = v;
                Some(old_entry.1)
            },
            Place::Before(p) => {
                proof {
                    if old(self)@.contains_key(name@) {
                        let i = choose|i: int| 0 <= i < s.len() && s[i].0 == name@;
                        lemma_name_lt_irreflexive(name@);
                    }
                    assert(old(self)@.remove(name@) =~= old(self)@);
                }
                None
            },
        }
    }

    /// Removes every assignment.
    pub fn clear(&mut self)
        ensures
            final(self)@ == Map::<Seq<char>, Assignment>::empty(),
            final(self).ordered().len() == 0,
    {
        self.entries = Vec::new();
        assert(self.ordered() =~= Seq::<EntryView>::empty());
    }

    /// The entries, in increasing name order.
    pub fn into_entries(self) -> (v: Vec<(String, Assignment)>)
        ensures
            entry_views(v@) == self.ordered(),
            self.wf(),
    {
        proof {
            use_type_invariant(&self);
        }
        let AssignmentMap { entries } = self;
        entries
    }
}


// ---------------------------------------------------------------------------
// The registry
// ---------------------------------------------------------------------------

/// The range in which the next free port is searched by default.
#[derive(Debug, Clone, Copy, PartialEq, Eq, Structural)]
pub struct RegistryConfig {
    pub default_range_start: u16,
    pub default_range_end: u16,
}

impl Default for RegistryConfig {
    fn default() -> (c: Self)
        ensures
            c.default_range_start == 8400,
            c.default_range_end == 8999,
    {
        RegistryConfig { default_range_start: 8400, default_range_end: 8999 }
    }
}

/// The version of the registry format that this library writes.
pub fn default_version() -> (v: u32)
    ensures
        v == 1,
{
    1
}

/// The first project, in name order, whose assignment holds `port`.
pub open spec fn first_holder(s: Seq<EntryView>, port: u16) -> Option<Seq<char>>
    decreases s.len(),
{
    if s.len() == 0 {
        None
    } else if s[0].1.port == port {
        Some(s[0].0)
    } else {
        first_holder(s.drop_first(), port)
    }
}

/// The lowest port from `from` to `end` that no project of `m` holds.
pub open spec fn lowest_unassigned(m: Map<Seq<char>, Assignment>, from: int, end: int) -> Option<u16>
    decreases end + 1 - from,
{
    if from > end || from < 0 || from > 65535 {
        None
    } else if !port_assigned(m, from as u16) {
        Some(from as u16)
    } else {
        lowest_unassigned(m, from + 1, end)
    }
}

/// `k` holds `port` in `m`, and no project that holds it comes before `k`
/// in name order.
pub open spec fn is_least_holder(m: Map<Seq<char>, Assignment>, port: u16, k: Seq<char>) -> bool {
    &&& m.contains_key(k)
    &&& m[k].port == port
    &&& forall|k2: Seq<char>| #[trigger] m.contains_key(k2) && m[k2].port == port ==> !name_lt(k2, k)
}

/// The project that holds `port` in `m` and comes first in name order among
/// those that hold it.
pub open spec fn least_holder(m: Map<Seq<char>, Assignment>, port: u16) -> Option<Seq<char>> {
    if exists|k: Seq<char>| is_least_holder(m, port, k) {
        Some(choose|k: Seq<char>| is_least_holder(m, port, k))
    } else {
        None
    }
}

/// Some project of `m` holds `port`.
pub open spec fn port_assigned(m: Map<Seq<char>, Assignment>, port: u16) -> bool {
    exists|k: Seq<char>| #[trigger] m.contains_key(k) && m[k].port == port
}

/// What `first_holder` picks: none when no entry holds the port, else the
/// name of the first entry that does.
pub proof fn lemma_first_holder(s: Seq<EntryView>, port: u16)
    ensures
        (first_holder(s, port) is None) == (forall|i: int| 0 <= i < s.len() ==> #[trigger] s[i].1.port != port),
        first_holder(s, port) is Some ==> exists|i: int|
            0 <= i < s.len() && s[i].0 == first_holder(s, port)->0 && s[i].1.port == port && (forall|j: int|
                0 <= j < i ==> #[trigger] s[j].1.port != port),
    decreases s.len(),
{
    if s.len() > 0 {
        let t = s.drop_first();
        lemma_first_holder(t, port);
        if s[0].1.port != port {
            assert forall|i: int| 0 < i < s.len() implies #[trigger] s[i] == t[i - 1] by {}
            if first_holder(t, port) is Some {
                let i = choose|i: int|
                    0 <= i < t.len() && t[i].0 == first_holder(t, port)->0 && t[i].1.port == port && (
                    forall|j: int| 0 <= j < i ==> #[trigger] t[j].1.port != port);
                assert(s[i + 1] == t[i]);
                assert forall|j: int| 0 <= j < i + 1 implies #[trigger] s[j].1.port != port by {
                    if j > 0 {
                        assert(s[j] == t[j - 1]);
                    }
                }
            } else {
                assert forall|i: int| 0 <= i < s.len() implies #[trigger] s[i].1.port != port by {
                    if i > 0 {
                        assert(s[i] == t[i - 1]);
                    }
                }
            }
        }
    }
}

/// In entries ordered by name, the first entry that holds a port is the
/// least holder of the port in their map.
pub proof fn lemma_least_holder(s: Seq<EntryView>, port: u16)
    requires
        names_increasing(s),
    ensures
        least_holder(entries_map(s), port) == first_holder(s, port),
        (least_holder(entries_map(s), port) is None) == !port_assigned(entries_map(s), port),
{
    let m = entries_map(s);
    lemma_first_holder(s, port);
    lemma_increasing_distinct(s);
    lemma_entries_map(s);
    if first_holder(s, port) is None {
        assert(!port_assigned(m, port)) by {
            if port_assigned(m, port) {
                let k = choose|k: Seq<char>| #[trigger] m.contains_key(k) && m[k].port == port;
                let i = choose|i: int| 0 <= i < s.len() && s[i].0 == k;
                assert(m.contains_key(s[i].0));
                assert(s[i].1.port != port);
            }
        }
        assert(!exists|k: Seq<char>| is_least_holder(m, port, k));
    } else {
        let n = first_holder(s, port)->0;
        let i = choose|i: int|
            0 <= i < s.len() && s[i].0 == n && s[i].1.port == port && (forall|j: int|
                0 <= j < i ==> #[trigger] s[j].1.port != port);
        assert(m.contains_key(s[i].0));
        assert forall|k2: Seq<char>| #[trigger] m.contains_key(k2) && m[k2].port == port implies !name_lt(k2, n) by {
            let j = choose|j: int| 0 <= j < s.len() && s[j].0 == k2;
            assert(m.contains_key(s[j].0));
            if j < i {
                assert(s[j].1.port != port);
            } else if j == i {
                lemma_name_lt_irreflexive(n);
            } else {
                lemma_name_lt_asymmetric(s[i].0, s[j].0);
            }
        }
        assert(is_least_holder(m, port, n));
        let k = choose|k: Seq<char>| is_least_holder(m, port, k);
        assert(!name_lt(k, n));
        assert(!name_lt(n, k));
        lemma_name_lt_total(k, n);
    }
}

/// What an assignment request leads to.
pub enum AssignPlan {
    /// The request is refused with this error; nothing changes.
    Reject(PortmanErrorView),
    /// The request is carried out, after the named project, if any, has
    /// lost its assignment to make room.
    Apply(Option<Seq<char>>),
}

/// The rules of an assignment request: a port belongs to one project and a
/// project holds one port, unless `force` overrides them. The project that
/// holds the port is the first in name order that does.
pub open spec fn plan_assign(m: Map<Seq<char>, Assignment>, name: Seq<char>, port: u16, force: bool) -> AssignPlan {
    let holder = least_holder(m, port);
    if holder is Some && holder->0 != name {
        if force {
            AssignPlan::Apply(holder)
        } else {
            AssignPlan::Reject(PortmanErrorView::PortConflict { port, name: holder->0 })
        }
    } else if m.contains_key(name) && m[name].port != port && !force {
        AssignPlan::Reject(PortmanErrorView::NameConflict(name, m[name].port))
    } else {
        AssignPlan::Apply(None)
    }
}

/// The assignments after a request that is carried out: the evicted project
/// is gone and `name` holds `a`.
pub open spec fn after_assign(
    m: Map<Seq<char>, Assignment>,
    evicted: Option<Seq<char>>,
    name: Seq<char>,
    a: Assignment,
) -> Map<Seq<char>, Assignment> {
    let base = match evicted {
        Some(h) => m.remove(h),
        None => m,
    };
    base.insert(name, a)
}

/// How far the system clock reads now from 1970-01-01T00:00:00Z: `Ok` with
/// the whole seconds after it, or `Err` with the whole seconds and the
/// nanoseconds before it.
///
/// Reads `std::time::SystemTime::now` and measures it from `UNIX_EPOCH`
/// with `duration_since`, whose error carries the distance of a time before
/// the epoch. Neither call panics. The result depends on the clock, so the
/// contract states nothing of it.
#[verifier::external_body]
fn clock_seconds() -> Result<u64, (u64, u32)> {
    match std::time::SystemTime::now().duration_since(std::time::UNIX_EPOCH) {
        Ok(d) => Ok(d.as_secs()),
        Err(e) => Err((e.duration().as_secs(), e.duration().subsec_nanos())),
    }
}

/// The furthest from 1970, in seconds either way, that a time stamp goes:
/// about 34,800 years, well inside what chrono represents.
pub const STAMP_LIMIT: u64 = 1_099_511_627_776;

/// The RFC 3339 text, in UTC with whole seconds and a `Z` for the zone,
/// of the instant `secs` seconds after 1970-01-01T00:00:00Z, such as
/// `2026-01-01T00:00:00Z`; none when chrono cannot represent that instant.
pub uninterp spec fn rfc3339_utc(secs: int) -> Option<Seq<char>>;

/// The RFC 3339 text of an instant given in seconds since the epoch.
///
/// Calls `chrono::DateTime::from_timestamp(secs, 0)`, which gives none for
/// an instant out of chrono's range and never panics, and writes the result
/// with `DateTime::to_rfc3339_opts(SecondsFormat::Secs, true)`, which writes
/// into a `String` and cannot fail. The contract names the text
/// `rfc3339_utc` and states two facts that chrono's source shows: with the
/// zone UTC and `use_z` set, the text ends in `Z`; and an instant within
/// `STAMP_LIMIT` seconds of 1970 is within chrono's range (its dates run
/// from year -262143 to 262142), so it has a text.
#[verifier::external_body]
fn rfc3339_seconds(secs: i64) -> (r: Option<String>)
    ensures
        match r {
            Some(t) => rfc3339_utc(secs as int) == Some(t@) && t@.len() > 0 && t@.last() == 'Z',
            None => rfc3339_utc(secs as int) is None,
        },
        -(STAMP_LIMIT as int) <= secs <= STAMP_LIMIT ==> r is Some,
{
    match chrono::DateTime::from_timestamp(secs, 0) {
        Some(t) => Some(t.to_rfc3339_opts(chrono::SecondsFormat::Secs, true)),
        None => None,
    }
}

/// The message of an assignment that the clock could not stamp.
pub open spec fn clock_error_message() -> Seq<char> {
    "system time before Unix epoch"@
}

/// The single source of truth for port assignments.
#[derive(Debug, Clone, PartialEq)]
pub struct Registry {
    pub version: u32,
    pub assignments: AssignmentMap,
    pub config: RegistryConfig,
}

impl Registry {
    /// An empty registry with the default range 8400 to 8999.
    pub fn new() -> (r: Self)
        ensures
            r.version == 1,
            r.assignments@ == Map::<Seq<char>, Assignment>::empty(),
            r.assignments.ordered().len() == 0,
            r.config == (RegistryConfig { default_range_start: 8400, default_range_end: 8999 }),
    {
        Registry {
            version: default_version(),
            assignments: AssignmentMap::new(),
            config: RegistryConfig::default(),
        }
    }

    /// Assigns `port` to the project `name`, stamped with the current time.
    /// The request is refused or carried out as `plan_assign` says, and a
    /// request that is carried out always succeeds. The clock is read only
    /// for such a request; its stamp is the RFC 3339 text of the whole
    /// second that the clock reads (a clock before 1970 gives a stamp before
    /// 1970), kept within `STAMP_LIMIT` seconds of 1970.
    pub fn assign(&mut self, name: &str, port: u16, notes: Option<String>, force: bool) -> (r: Result<(), PortmanError>)
        ensures
            final(self).version == old(self).version,
            final(self).config == old(self).config,
            match plan_assign(old(self).assignments@, name@, port, force) {
                AssignPlan::Reject(e) => r matches Err(err) && err@ == e && *final(self) == *old(self),
                AssignPlan::Apply(evicted) => match r {
                    Ok(()) => exists|t: String, secs: int|
                        rfc3339_utc(secs) == Some(t@) && final(self).assignments@ == after_assign(
                            old(self).assignments@,
                            evicted,
                            name@,
                            Assignment { port, assigned_at: t, notes },
                        ),
                    Err(err) => err@ == PortmanErrorView::Other(clock_error_message()) && *final(self)
                        == *old(self),
                },
            },
            plan_assign(old(self).assignments@, name@, port, force) is Apply ==> r is Ok,
    {
        match self.check_assign(name, port, force) {
            Ok(()) => {},
            Err(e) => {
                return Err(e);
            },
        }
        let secs: i64 = match clock_seconds() {
            Ok(after) => if after > STAMP_LIMIT {
                STAMP_LIMIT as i64
            } else {
                after as i64
            },
            Err((before, nanos)) => {
                let back: u64 = if before >= STAMP_LIMIT {
                    STAMP_LIMIT
                } else if nanos > 0 {
                    before + 1
                } else {
                    before
                };
                -(back as i64)
            },
        };
        let assigned_at = rfc3339_seconds(secs).unwrap();
        self.assign_at(name, port, notes, force, assigned_at)
    }

    /// Whether an assignment request goes through, as `plan_assign` says:
    /// the error that refuses it, if any. Nothing changes.
    pub fn check_assign(&self, name: &str, port: u16, force: bool) -> (r: Result<(), PortmanError>)
        ensures
            match plan_assign(self.assignments@, name@, port, force) {
                AssignPlan::Reject(e) => r matches Err(err) && err@ == e,
                AssignPlan::Apply(_) => r is Ok,
            },
    {
        match self.find_by_port(port) {
            Some((holder, _)) => {
                if !same_text(holder, name) {
                    if !force {
                        return Err(PortmanError::PortConflict { port, name: holder.to_owned() });
                    }
                    return Ok(());
                }
            },
            None => {},
        }
        match self.assignments.get(name) {
            Some(existing) => {
                if existing.port != port && !force {
                    return Err(PortmanError::NameConflict(name.to_owned(), existing.port));
                }
            },
            None => {},
        }
        Ok(())
    }

    /// Assigns `port` to the project `name` with the time stamp
    /// `assigned_at`, as `plan_assign` says: the request is refused when
    /// another project holds the port or when `name` holds another port,
    /// unless `force` is set; with `force`, the project that held the port
    /// loses it.
    pub fn assign_at(
        &mut self,
        name: &str,
        port: u16,
        notes: Option<String>,
        force: bool,
        assigned_at: String,
    ) -> (r: Result<(), PortmanError>)
        ensures
            final(self).version == old(self).version,
            final(self).config == old(self).config,
            match plan_assign(old(self).assignments@, name@, port, force) {
                AssignPlan::Reject(e) => r matches Err(err) && err@ == e && *final(self) == *old(self),
                AssignPlan::Apply(evicted) => r is Ok && final(self).assignments@ == after_assign(
                    old(self).assignments@,
                    evicted,
                    name@,
                    Assignment { port, assigned_at, notes },
                ),
            },
    {
        let ghost s = self.assignments.ordered();
        let ghost m = self.assignments@;
        match self.find_by_port(port) {
            Some((holder, _)) => {
                if !same_text(holder, name) {
                    let holder_name = holder.to_owned();
                    if !force {
                        return Err(PortmanError::PortConflict { port, name: holder_name });
                    }
                    self.assignments.remove(holder_name.as_str());
                }
            },
            None => {},
        }
        let existing_port = match self.assignments.get(name) {
            Some(existing) => Some(existing.port),
            None => None,
        };
        match existing_port {
            Some(p) => {
                if p != port && !force {
                    return Err(PortmanError::NameConflict(name.to_owned(), p));
                }
            },
            None => {},
        }
        self.assignments.insert(name.to_owned(), Assignment { port, assigned_at, notes });
        Ok(())
    }

    /// Takes the assignment of the project `name` out of the registry and
    /// hands it back; fails when there is none.
    pub fn release(&mut self, name: &str) -> (r: Result<Assignment, PortmanError>)
        ensures
            final(self).version == old(self).version,
            final(self).config == old(self).config,
            match r {
                Ok(a) => old(self).assignments@.contains_key(name@) && a == old(self).assignments@[name@]
                    && final(self).assignments@ == old(self).assignments@.remove(name@),
                Err(e) => !old(self).assignments@.contains_key(name@) && e@
                    == PortmanErrorView::ProjectNotFound(name@) && *final(self) == *old(self),
            },
    {
        match self.assignments.remove(name) {
            Some(a) => Ok(a),
            None => Err(PortmanError::ProjectNotFound(name.to_owned())),
        }
    }

    /// Removes every assignment and says how many there were.
    pub fn release_all(&mut self) -> (count: usize)
        ensures
            count == old(self).assignments@.len(),
            final(self).assignments@ == Map::<Seq<char>, Assignment>::empty(),
            final(self).version == old(self).version,
            final(self).config == old(self).config,
    {
        let count = self.assignments.len();
        self.assignments.clear();
        count
    }

    /// The first project, in name order, that holds `port`, with its
    /// assignment.
    pub fn find_by_port(&self, port: u16) -> (r: Option<(&str, &Assignment)>)
        ensures
            match r {
                None => least_holder(self.assignments@, port) is None,
                Some((n, a)) => least_holder(self.assignments@, port) == Some(n@)
                    && self.assignments@.contains_key(n@) && *a == self.assignments@[n@] && a.port
                    == port,
            },
    {
        proof {
            use_type_invariant(&self.assignments);
            self.assignments.lemma_view();
        }
        let ghost s = self.assignments.ordered();
        proof {
            lemma_least_holder(s, port);
        }
        let n = self.assignments.len();
        let mut i: usize = 0;
        assert(s.skip(0) =~= s);
        while i < n
            invariant
                s == self.assignments.ordered(),
                n == s.len(),
                i <= n,
                first_holder(s, port) == first_holder(s.skip(i as int), port),
                least_holder(self.assignments@, port) == first_holder(s, port),
                self.assignments.wf(),
            decreases n - i,
        {
            let (name, a) = self.assignments.entry(i).unwrap();
            if a.port == port {
                proof {
                    self.assignments.lemma_view();
                    assert(s.skip(i as int)[0] == s[i as int]);
                }
                assert(self.assignments@.contains_key(s[i as int].0));
                return Some((name, a));
            }
            assert(s.skip(i as int).drop_first() =~= s.skip(i + 1));
            i = i + 1;
        }
        None
    }

    /// Whether some project holds `port`.
    pub fn is_port_assigned(&self, port: u16) -> (r: bool)
        ensures
            r == port_assigned(self.assignments@, port),
    {
        proof {
            use_type_invariant(&self.assignments);
            lemma_least_holder(self.assignments.ordered(), port);
        }
        match self.find_by_port(port) {
            Some((n, a)) => true,
            None => false,
        }
    }

    /// The lowest port from `from` to `end` that no project holds.
    pub fn next_unassigned(&self, from: u16, end: u16) -> (r: Option<u16>)
        ensures
            r == lowest_unassigned(self.assignments@, from as int, end as int),
            match r {
                Some(p) => from <= p <= end && !port_assigned(self.assignments@, p) && forall|q: u16|
                    from <= q < p ==> port_assigned(self.assignments@, q),
                None => forall|q: u16| from <= q <= end ==> port_assigned(self.assignments@, q),
            },
    {
        let mut p: u32 = from as u32;
        while p <= end as u32
            invariant
                from <= p,
                p <= end as u32 + 1 || p == from as u32,
                forall|q: u16| from <= q < p ==> port_assigned(self.assignments@, q),
                lowest_unassigned(self.assignments@, from as int, end as int) == lowest_unassigned(
                    self.assignments@,
                    p as int,
                    end as int,
                ),
            decreases end as u32 + 1 - p,
        {
            if !self.is_port_assigned(p as u16) {
                return Some(p as u16);
            }
            p = p + 1;
        }
        None
    }
}

} // verus!

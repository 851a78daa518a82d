//! Exporting the registry and importing another one into it.
use vstd::prelude::*;

use crate::domain::entities::{
    entries_map, entry_views, lemma_entries_map, lemma_increasing_distinct, Assignment, EntryView,
    Registry,
};
use crate::domain::errors::{PortmanError, PortmanErrorView};
use crate::text::{append_str, chars_of, decimal, decimal_string, push_char, same_text};

verus! {

// ---------------------------------------------------------------------------
// Export formats
// ---------------------------------------------------------------------------

/// The forms in which the registry can be exported.
#[derive(Debug, Clone, Copy, PartialEq, Eq)]
pub enum ExportFormat {
    /// The registry as JSON.
    Json,
    /// One shell `export` statement per project.
    Env,
}

/// Reads the name of an export format: `json` or `env`.
pub fn parse_format(format: &str) -> (r: Result<ExportFormat, PortmanError>)
    ensures
        format@ == "json"@ ==> r == Ok::<ExportFormat, PortmanError>(ExportFormat::Json),
        format@ == "env"@ ==> r == Ok::<ExportFormat, PortmanError>(ExportFormat::Env),
        format@ != "json"@ && format@ != "env"@ ==> (r matches Err(e) && e@ == PortmanErrorView::Other(
            "Unknown format '"@ + format@ + "'. Supported: json, env"@,
        )),
{
    proof {
        reveal_strlit("json");
        reveal_strlit("env");
        assert("json"@.len() != "env"@.len());
    }
    if same_text(format, "json") {
        Ok(ExportFormat::Json)
    } else if same_text(format, "env") {
        Ok(ExportFormat::Env)
    } else {
        let mut msg = String::new();
        append_str(&mut msg, "Unknown format '");
        append_str(&mut msg, format);
        append_str(&mut msg, "'. Supported: json, env");
        Err(PortmanError::Other(msg))
    }
}

// ---------------------------------------------------------------------------
// Shell statements
// ---------------------------------------------------------------------------

/// What `str::to_uppercase` gives for a string: each character mapped to
/// its upper case under the Unicode case tables.
pub uninterp spec fn upper_case(s: Seq<char>) -> Seq<char>;

/// The upper case of `s`.
///
/// Wraps `str::to_uppercase`; the contract names its result `upper_case`
/// of the characters, and states the one fact that its documentation fixes
/// in a few lines: ASCII text is upper-cased letter by letter, `a` to `z`
/// becoming `A` to `Z` and every other character staying.
#[verifier::external_body]
fn to_upper_case(s: &str) -> (r: String)
    ensures
        r@ == upper_case(s@),
        vstd::utf8::is_ascii_chars(s@) ==> r@ == ascii_upper(s@),
{
    s.to_uppercase()
}

/// An ASCII lower-case letter, `a` to `z`.
pub open spec fn is_ascii_lower(c: char) -> bool {
    97 <= (c as u32) && (c as u32) <= 122
}

/// The ASCII upper case of a character: `a` to `z` become `A` to `Z`, and
/// every other character stays.
pub open spec fn ascii_upper_char(c: char) -> char {
    if is_ascii_lower(c) {
        (((c as u32) - 32) as u8) as char
    } else {
        c
    }
}

/// `s` with every ASCII lower-case letter made upper case.
pub open spec fn ascii_upper(s: Seq<char>) -> Seq<char> {
    s.map_values(|c: char| ascii_upper_char(c))
}

/// `s` with every ASCII lower-case letter made upper case, the others kept,
/// as `str::to_ascii_uppercase` gives it.
pub fn ascii_upper_string(s: &str) -> (r: String)
    ensures
        r@ == ascii_upper(s@),
{
    let x = chars_of(s);
    let mut r = String::new();
    let mut i: usize = 0;
    while i < x.len()
        invariant
            x@ == s@,
            i <= x.len(),
            r@ == ascii_upper(x@.take(i as int)),
        decreases x.len() - i,
    {
        let c = x[i];
        let code = c as u32;
        let u = if 97 <= code && code <= 122 {
            ((code - 32) as u8) as char
        } else {
            c
        };
        push_char(&mut r, u);
        assert(ascii_upper(x@.take(i + 1)) =~= ascii_upper(x@.take(i as int)).push(u));
        i = i + 1;
    }
    assert(x@.take(i as int) =~= x@);
    r
}

/// `s` with every `-` turned into `_`.
pub open spec fn dashes_to_underscores(s: Seq<char>) -> Seq<char> {
    s.map_values(|c: char| if c == '-' { '_' } else { c })
}

/// The statement `export NAME_PORT=port` for a project whose upper-cased
/// name is `upper`.
pub open spec fn env_line(upper: Seq<char>, port: u16) -> Seq<char> {
    "export "@ + dashes_to_underscores(upper) + "_PORT="@ + decimal(port as nat)
}

/// The export statement for a project whose name, upper-cased, is `upper`.
pub fn env_line_from_upper(upper: &str, port: u16) -> (line: String)
    ensures
        line@ == env_line(upper@, port),
{
    let mut line = String::new();
    append_str(&mut line, "export ");
    let x = chars_of(upper);
    let ghost start = line@;
    let mut i: usize = 0;
    while i < x.len()
        invariant
            x@ == upper@,
            i <= x.len(),
            line@ == start + dashes_to_underscores(x@.take(i as int)),
        decreases x.len() - i,
    {
        let c = if x[i] == '-' { '_' } else { x[i] };
        push_char(&mut line, c);
        assert(dashes_to_underscores(x@.take(i + 1)) =~= dashes_to_underscores(x@.take(i as int)).push(c));
        i = i + 1;
    }
    assert(x@.take(i as int) =~= x@);
    append_str(&mut line, "_PORT=");
    let d = decimal_string(port as u32);
    append_str(&mut line, d.as_str());
    line
}

/// An ASCII name is written upper case: in its export statement the name
/// keeps its length, no ASCII lower-case letter is left, each letter `a` to
/// `z` becomes its capital, `-` becomes `_`, and every other character
/// stays.
pub proof fn law_env_line_upper_cases_ascii(name: Seq<char>, port: u16)
    requires
        vstd::utf8::is_ascii_chars(name),
    ensures
        ({
            let v = env_line(ascii_upper(name), port);
            &&& v.len() == name.len() + 13 + decimal(port as nat).len()
            &&& forall|i: int| 0 <= i < name.len() ==> !is_ascii_lower(#[trigger] v[7 + i])
            &&& forall|i: int|
                0 <= i < name.len() && is_ascii_lower(name[i]) ==> (#[trigger] v[7 + i]) as u32 + 32
                    == name[i] as u32
            &&& forall|i: int| 0 <= i < name.len() && name[i] == '-' ==> #[trigger] v[7 + i] == '_'
            &&& forall|i: int|
                0 <= i < name.len() && !is_ascii_lower(name[i]) && name[i] != '-' ==> #[trigger] v[7
                    + i] == name[i]
        }),
{
    reveal_strlit("export ");
    reveal_strlit("_PORT=");
    let u = ascii_upper(name);
    let d = dashes_to_underscores(u);
    let v = env_line(u, port);
    assert forall|i: int| 0 <= i < name.len() implies #[trigger] v[7 + i] == d[i] by {
        assert(v == "export "@ + d + "_PORT="@ + decimal(port as nat));
    }
    assert forall|i: int| 0 <= i < name.len() && is_ascii_lower(name[i]) implies (u[i] as u32) + 32 == name[i] as u32 by {
        let x = ((name[i] as u32) - 32) as u8;
        assert((x as char) as u32 == x as u32);
    }
}

/// The export statement for the project `name` on `port`, such as
/// `export MY_APP_PORT=8500` for `my-app`.
///
/// The upper case is what `str::to_uppercase` gives. For an ASCII name,
/// whose upper case is fixed letter by letter, the letters are upper-cased
/// here, so that the line does not rest on the call.
pub fn env_export_line(name: &str, port: u16) -> (line: String)
    ensures
        line@ == env_line(upper_case(name@), port),
        vstd::utf8::is_ascii_chars(name@) ==> line@ == env_line(ascii_upper(name@), port),
{
    let upper = to_upper_case(name);
    let text = if name.is_ascii() {
        ascii_upper_string(name)
    } else {
        upper
    };
    env_line_from_upper(text.as_str(), port)
}

/// The export statements of the registry, one per project, in name order.
pub fn env_export_lines(registry: &Registry) -> (lines: Vec<String>)
    ensures
        lines.len() == registry.assignments.ordered().len(),
        forall|i: int| 0 <= i < lines.len() ==> #[trigger] lines[i]@ == env_line(
            upper_case(registry.assignments.ordered()[i].0),
            registry.assignments.ordered()[i].1.port,
        ),
        forall|i: int|
            0 <= i < lines.len() && vstd::utf8::is_ascii_chars(registry.assignments.ordered()[i].0)
                ==> #[trigger] lines[i]@ == env_line(
                ascii_upper(registry.assignments.ordered()[i].0),
                registry.assignments.ordered()[i].1.port,
            ),
{
    let n = registry.assignments.len();
    let mut lines: Vec<String> = Vec::new();
    let mut i: usize = 0;
    while i < n
        invariant
            n == registry.assignments.ordered().len(),
            i <= n,
            lines.len() == i,
            forall|j: int| 0 <= j < i ==> #[trigger] lines[j]@ == env_line(
                upper_case(registry.assignments.ordered()[j].0),
                registry.assignments.ordered()[j].1.port,
            ),
            forall|j: int|
                0 <= j < i && vstd::utf8::is_ascii_chars(registry.assignments.ordered()[j].0)
                    ==> #[trigger] lines[j]@ == env_line(
                    ascii_upper(registry.assignments.ordered()[j].0),
                    registry.assignments.ordered()[j].1.port,
                ),
        decreases n - i,
    {
        let (name, a) = registry.assignments.entry(i).unwrap();
        lines.push(env_export_line(name, a.port));
        i = i + 1;
    }
    lines
}


// ---------------------------------------------------------------------------
// Importing with merge
// ---------------------------------------------------------------------------

/// The map of `ev` from position `k - 1` on is the map from position `k`
/// on with the entry at `k - 1` added, under a name that it lacked.
proof fn lemma_prepend_entry(ev: Seq<EntryView>, k: int)
    requires
        crate::domain::entities::names_increasing(ev),
        0 < k <= ev.len(),
    ensures
        !entries_map(ev.skip(k)).contains_key(ev[k - 1].0),
        entries_map(ev.skip(k - 1)) == entries_map(ev.skip(k)).insert(ev[k - 1].0, ev[k - 1].1),
        entries_map(ev.skip(k)).dom().finite(),
{
    lemma_increasing_distinct(ev);
    let s = ev.skip(k);
    let t = ev.skip(k - 1);
    let e = ev[k - 1];
    assert(crate::domain::entities::distinct_names(s)) by {
        assert forall|i: int, j: int| 0 <= i < s.len() && 0 <= j < s.len() && i != j implies #[trigger] s[i].0 != #[trigger] s[j].0 by {
            assert(s[i] == ev[i + k] && s[j] == ev[j + k]);
        }
    }
    assert(crate::domain::entities::distinct_names(t)) by {
        assert forall|i: int, j: int| 0 <= i < t.len() && 0 <= j < t.len() && i != j implies #[trigger] t[i].0 != #[trigger] t[j].0 by {
            assert(t[i] == ev[i + k - 1] && t[j] == ev[j + k - 1]);
        }
    }
    lemma_entries_map(s);
    lemma_entries_map(t);
    if entries_map(s).contains_key(e.0) {
        let i = choose|i: int| 0 <= i < s.len() && s[i].0 == e.0;
        assert(s[i] == ev[i + k]);
    }
    let m = entries_map(s).insert(e.0, e.1);
    assert forall|i: int| 0 <= i < t.len() implies #[trigger] m.contains_key(t[i].0) && m[t[i].0] == t[i].1 by {
        if i > 0 {
            assert(t[i] == s[i - 1]);
            assert(entries_map(s).contains_key(s[i - 1].0));
            assert(t[i].0 != t[0].0);
        }
    }
    assert forall|key: Seq<char>| #[trigger] m.contains_key(key) implies exists|i: int| 0 <= i < t.len() && t[i].0 == key by {
        if key == e.0 {
            assert(t[0].0 == key);
        } else {
            let i = choose|i: int| 0 <= i < s.len() && s[i].0 == key;
            assert(t[i + 1] == s[i]);
        }
    }
    crate::domain::entities::lemma_entries_map_equal(t, m);
}

/// Merges an imported registry into `registry`: projects that the registry
/// already has keep their assignments, the others are added. Returns how
/// many were added.
pub fn merge_import(registry: &mut Registry, imported: Registry) -> (added: usize)
    ensures
        final(registry).assignments@ == imported.assignments@.union_prefer_right(
            old(registry).assignments@,
        ),
        added == imported.assignments@.dom().difference(old(registry).assignments@.dom()).len(),
        final(registry).version == old(registry).version,
        final(registry).config == old(registry).config,
{
    let ghost old_map = registry.assignments@;
    let ghost ev = imported.assignments.ordered();
    let ghost imported_map = imported.assignments@;
    let mut entries = imported.assignments.into_entries();
    let mut added: usize = 0;
    proof {
        assert(ev.skip(ev.len() as int) =~= Seq::<EntryView>::empty());
        assert(entries_map(Seq::<EntryView>::empty()).union_prefer_right(old_map) =~= old_map);
        assert(entries_map(Seq::<EntryView>::empty()).dom().difference(old_map.dom()) =~= Set::empty());
        assert(ev.take(ev.len() as int) =~= ev);
        assert(entry_views(entries@).len() == entries@.len());
        assert(ev.len() == entries.len());
    }
    while entries.len() > 0
        invariant
            crate::domain::entities::names_increasing(ev),
            imported_map == entries_map(ev),
            entries.len() <= ev.len(),
            ev.len() <= usize::MAX,
            entry_views(entries@) == ev.take(entries.len() as int),
            registry.assignments@ == entries_map(ev.skip(entries.len() as int)).union_prefer_right(old_map),
            entries_map(ev.skip(entries.len() as int)).dom().finite(),
            added == entries_map(ev.skip(entries.len() as int)).dom().difference(old_map.dom()).len(),
            added <= ev.len() - entries.len(),
            registry.version == old(registry).version,
            registry.config == old(registry).config,
        decreases entries.len(),
    {
        let ghost k = entries.len() as int;
        let ghost before = entries@;
        let (name, a) = entries.pop().unwrap();
        proof {
            assert(ev.take(k)[k - 1] == ev[k - 1]);
            assert(entry_views(before)[k - 1] == (name@, a));
            assert(entry_views(entries@) =~= ev.take(k - 1));
            lemma_prepend_entry(ev, k);
        }
        let ghost s = entries_map(ev.skip(k));
        let ghost t = entries_map(ev.skip(k - 1));
        if !registry.assignments.contains_key(name.as_str()) {
            let ghost cur = registry.assignments@;
            registry.assignments.insert(name, a);
            proof {
                assert(registry.assignments@ =~= t.union_prefer_right(old_map));
                assert(t.dom().difference(old_map.dom()) =~= s.dom().difference(old_map.dom()).insert(ev[k - 1].0));
            }
            added = added + 1;
        } else {
            proof {
                assert(registry.assignments@ =~= t.union_prefer_right(old_map));
                assert(t.dom().difference(old_map.dom()) =~= s.dom().difference(old_map.dom()));
            }
        }
    }
    proof {
        assert(ev.skip(0) =~= ev);
    }
    added
}

} // verus!

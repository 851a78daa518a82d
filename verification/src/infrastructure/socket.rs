//! Reading the output of `lsof` and `ps`: the process that listens on a
//! port, and its name.
use vstd::prelude::*;

use crate::domain::ports::ProcessInfo;
use crate::text::{append_str, parse_decimal, parse_unsigned, string_from_chars, trim, trim_chars};

verus! {

/// `i` is the position of the first line feed in `t`.
pub open spec fn first_newline_at(t: Seq<char>, i: int) -> bool {
    &&& 0 <= i < t.len()
    &&& t[i] == '\n'
    &&& forall|j: int| 0 <= j < i ==> #[trigger] t[j] != '\n'
}

/// The first line of `t`, as `str::lines` yields it: the text before the
/// first line feed, without a carriage return just before that line feed;
/// all of `t` when it has no line feed.
pub open spec fn first_line(t: Seq<char>) -> Seq<char> {
    if exists|i: int| first_newline_at(t, i) {
        let l = t.take(choose|i: int| first_newline_at(t, i));
        if l.len() > 0 && l.last() == '\r' {
            l.drop_last()
        } else {
            l
        }
    } else {
        t
    }
}

/// The process id that `lsof -t` printed: the first line of its trimmed
/// output, read as a `u32`; none when the output is blank or the line is
/// not a number.
pub open spec fn lsof_pid(out: Seq<char>) -> Option<nat> {
    let t = trim(out);
    if t.len() == 0 {
        None
    } else {
        parse_unsigned(first_line(t), 0xffff_ffff)
    }
}

/// Reads the process id from the output of `lsof -t`.
pub fn parse_pid(lsof_output: &str) -> (r: Option<u32>)
    ensures
        match r {
            Some(pid) => lsof_pid(lsof_output@) == Some(pid as nat),
            None => lsof_pid(lsof_output@) is None,
        },
{
    let t = trim_chars(lsof_output);
    if t.len() == 0 {
        return None;
    }
    let mut i: usize = 0;
    while i < t.len() && t[i] != '\n'
        invariant
            i <= t.len(),
            forall|j: int| 0 <= j < i ==> #[trigger] t@[j] != '\n',
        decreases t.len() - i,
    {
        i = i + 1;
    }
    let mut line: Vec<char> = Vec::new();
    let mut k: usize = 0;
    while k < i
        invariant
            i <= t.len(),
            k <= i,
            line@ == t@.take(k as int),
        decreases i - k,
    {
        line.push(t[k]);
        assert(t@.take(k + 1) =~= t@.take(k as int).push(t@[k as int]));
        k = k + 1;
    }
    proof {
        if i < t.len() {
            assert(first_newline_at(t@, i as int));
            let c = choose|c: int| first_newline_at(t@, c);
            if c != i as int {
                if c < i {
                    assert(t@[c] != '\n');
                } else {
                    assert(t@[i as int] != '\n');
                }
            }
        } else {
            if exists|c: int| first_newline_at(t@, c) {
                let c = choose|c: int| first_newline_at(t@, c);
                assert(t@[c] != '\n');
            }
            assert(t@.take(i as int) =~= t@);
        }
    }
    if i < t.len() && line.len() > 0 && line[line.len() - 1] == '\r' {
        line.pop();
    }
    let text = string_from_chars(&line);
    parse_decimal(text.as_str(), 0xffff_ffff)
}

/// The name of a process as `ps -o comm=` printed it: the trimmed output,
/// or `unknown` when it is blank.
pub open spec fn process_name_of(out: Seq<char>) -> Seq<char> {
    if trim(out).len() == 0 {
        "unknown"@
    } else {
        trim(out)
    }
}

/// The name of a process from the output of `ps -o comm=`.
pub fn process_name(ps_output: &str) -> (name: String)
    ensures
        name@ == process_name_of(ps_output@),
{
    let t = trim_chars(ps_output);
    if t.len() == 0 {
        let mut s = String::new();
        append_str(&mut s, "unknown");
        s
    } else {
        string_from_chars(&t)
    }
}

/// The process with id `pid` whose name `ps -o comm=` printed.
pub fn process_info(pid: u32, ps_output: &str) -> (info: ProcessInfo)
    ensures
        info.pid == pid,
        info.name@ == process_name_of(ps_output@),
{
    ProcessInfo { pid, name: process_name(ps_output) }
}

} // verus!

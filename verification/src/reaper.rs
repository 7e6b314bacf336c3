//! Leftovers of processes that are gone: whose a tagged directory is, and whether it
//! may be removed.
use crate::text::{
    bounded_decimal, chars_of, find_char, parse_decimal, slice_chars, strip_prefix,
};
use vstd::prelude::*;

verus! {

/// The error number by which the system says that there is no such process.
pub const ESRCH: i32 = 3;

/// What the system answers to the null signal.
#[derive(Debug, Clone, Copy, PartialEq, Eq, Structural)]
pub enum SignalResult {
    Delivered,
    /// The error number, where the system gave one.
    Failed(Option<i32>),
}

pub open spec fn counts_as_alive(pid: i32, signal: SignalResult) -> bool {
    pid <= 0 || signal != SignalResult::Failed(Some(ESRCH))
}

/// Whether a process must be taken to be alive: all but those that the system says do
/// not exist, and numbers that name no single process.
pub fn process_is_alive(pid: i32, signal: SignalResult) -> (r: bool)
    ensures
        r == counts_as_alive(pid, signal),
{
    if pid <= 0 {
        return true;
    }
    match signal {
        SignalResult::Delivered => true,
        SignalResult::Failed(Some(e)) => e != ESRCH,
        SignalResult::Failed(None) => true,
    }
}

/// The process number in a name that is `prefix`, the number and, unless the number
/// comes last, a hyphen and more.
pub open spec fn tagged_pid(name: Seq<char>, prefix: Seq<char>, pid_is_last: bool) -> Option<int> {
    match crate::text::after_prefix(name, prefix) {
        Some(rest) => {
            let number = if pid_is_last {
                rest
            } else {
                rest.take(crate::text::span_before(rest, '-') as int)
            };
            match bounded_decimal(number, i32::MAX as int) {
                Some(n) => if n > 0 {
                    Some(n)
                } else {
                    None
                },
                None => None,
            }
        },
        None => None,
    }
}

pub fn pid_from_tagged(name: &str, prefix: &str, pid_is_last: bool) -> (r: Option<i32>)
    ensures
        r is Some <==> tagged_pid(name@, prefix@, pid_is_last) is Some,
        r matches Some(p) ==> tagged_pid(name@, prefix@, pid_is_last) == Some(p as int),
{
    let v: Vec<char> = chars_of(name);
    let rest: Vec<char> = match strip_prefix(&v, prefix) {
        Some(rest) => rest,
        None => return None,
    };
    let number: Vec<char> = if pid_is_last {
        rest
    } else {
        assert(rest@.skip(0) =~= rest@);
        let n: usize = find_char(&rest, 0, '-');
        assert(rest@.subrange(0, n as int) =~= rest@.take(n as int));
        slice_chars(&rest, 0, n)
    };
    match parse_decimal(&number, i32::MAX as u64) {
        Some(n) => if n > 0 {
            Some(n as i32)
        } else {
            None
        },
        None => None,
    }
}

/// The positions among `names` that are left over: tagged with the number of another
/// process that, by the answers, is not alive.
pub open spec fn stale_positions(
    names: Seq<String>,
    prefix: Seq<char>,
    pid_is_last: bool,
    self_pid: i32,
    alive: Seq<bool>,
) -> Seq<usize>
    decreases names.len(),
{
    if names.len() == 0 {
        Seq::empty()
    } else {
        let k = names.len() - 1;
        let rest = stale_positions(names.drop_last(), prefix, pid_is_last, self_pid, alive);
        match tagged_pid(names[k]@, prefix, pid_is_last) {
            Some(pid) => if pid != self_pid && !alive[k] {
                rest.push(k as usize)
            } else {
                rest
            },
            None => rest,
        }
    }
}

/// The answers are those that `is_alive` gives for the tagged names.
pub open spec fn answers<F: Fn(i32) -> bool>(
    names: Seq<String>,
    prefix: Seq<char>,
    pid_is_last: bool,
    self_pid: i32,
    is_alive: F,
    alive: Seq<bool>,
) -> bool {
    &&& alive.len() == names.len()
    &&& forall|k: int|
        0 <= k < names.len() ==> (tagged_pid(#[trigger] names[k]@, prefix, pid_is_last) matches Some(
            pid,
        ) ==> pid == self_pid || call_ensures(is_alive, (pid as i32,), alive[k]))
}

/// The positions of the left-over entries of a directory, in the order of the listing.
/// A process is asked after only where the entry names one other than this.
pub fn for_each_stale<F: Fn(i32) -> bool>(
    names: &Vec<String>,
    prefix: &str,
    pid_is_last: bool,
    self_pid: i32,
    is_alive: F,
) -> (out: Vec<usize>)
    requires
        forall|pid: i32| pid > 0 ==> #[trigger] call_requires(is_alive, (pid,)),
    ensures
        exists|alive: Seq<bool>|
            #[trigger] answers(names@, prefix@, pid_is_last, self_pid, is_alive, alive) && out@
                == stale_positions(names@, prefix@, pid_is_last, self_pid, alive),
{
    let mut out: Vec<usize> = Vec::new();
    let ghost mut alive: Seq<bool> = Seq::empty();
    let mut i: usize = 0;
    assert(names@.take(0) =~= Seq::<String>::empty());
    while i < names.len()
        invariant
            i <= names.len(),
            forall|pid: i32| pid > 0 ==> #[trigger] call_requires(is_alive, (pid,)),
            answers(names@.take(i as int), prefix@, pid_is_last, self_pid, is_alive, alive),
            out@ == stale_positions(names@.take(i as int), prefix@, pid_is_last, self_pid, alive),
        decreases names.len() - i,
    {
        let ghost seen = names@.take(i as int);
        let ghost before = alive;
        let mut stale: bool = false;
        let ghost mut answer: bool = true;
        if let Some(pid) = pid_from_tagged(names[i].as_str(), prefix, pid_is_last) {
            if pid != self_pid {
                let a: bool = is_alive(pid);
                stale = !a;
                proof {
                    answer = a;
                }
            }
        }
        proof {
            alive = alive.push(answer);
            let next = names@.take(i + 1);
            assert(next.drop_last() =~= seen);
            lemma_stale_ignores_rest(seen, prefix@, pid_is_last, self_pid, before, alive);
            assert forall|k: int| 0 <= k < next.len() implies (tagged_pid(
                #[trigger] next[k]@,
                prefix@,
                pid_is_last,
            ) matches Some(pid) ==> pid == self_pid || call_ensures(
                is_alive,
                (pid as i32,),
                alive[k],
            )) by {
                if k < i {
                    assert(next[k] == seen[k]);
                    assert(alive[k] == before[k]);
                }
            }
        }
        if stale {
            out.push(i);
        }
        i = i + 1;
    }
    assert(names@.take(i as int) =~= names@);
    out
}

proof fn lemma_stale_ignores_rest(
    names: Seq<String>,
    prefix: Seq<char>,
    pid_is_last: bool,
    self_pid: i32,
    a: Seq<bool>,
    b: Seq<bool>,
)
    requires
        names.len() <= a.len(),
        names.len() <= b.len(),
        forall|k: int| 0 <= k < names.len() ==> a[k] == b[k],
    ensures
        stale_positions(names, prefix, pid_is_last, self_pid, a) == stale_positions(
            names,
            prefix,
            pid_is_last,
            self_pid,
            b,
        ),
    decreases names.len(),
{
    if names.len() > 0 {
        lemma_stale_ignores_rest(names.drop_last(), prefix, pid_is_last, self_pid, a, b);
    }
}

/// Only what another, dead process left is ever listed: never this process's own,
/// never what a living process holds, never what bears no tag.
pub proof fn only_the_dead_are_reaped(
    names: Seq<String>,
    prefix: Seq<char>,
    pid_is_last: bool,
    self_pid: i32,
    alive: Seq<bool>,
    at: int,
)
    requires
        0 <= at < stale_positions(names, prefix, pid_is_last, self_pid, alive).len(),
    ensures
        ({
            let k = stale_positions(names, prefix, pid_is_last, self_pid, alive)[at] as int;
            names.len() <= usize::MAX ==> 0 <= k < names.len() && !alive[k] && (tagged_pid(
                names[k]@,
                prefix,
                pid_is_last,
            ) matches Some(pid) && pid != self_pid)
        }),
    decreases names.len(),
{
    let last = names.len() - 1;
    let rest = stale_positions(names.drop_last(), prefix, pid_is_last, self_pid, alive);
    if at < rest.len() {
        only_the_dead_are_reaped(names.drop_last(), prefix, pid_is_last, self_pid, alive, at);
    }
}

/// A name made of the prefix, a process number and, where more follows, a hyphen and
/// the rest, names that process.
pub proof fn tags_round_trip(prefix: Seq<char>, pid: i32, rest: Seq<char>)
    requires
        pid > 0,
    ensures
        tagged_pid(prefix + crate::text::digits(pid as nat), prefix, true) == Some(pid as int),
        tagged_pid(
            prefix + crate::text::digits(pid as nat) + seq!['-'] + rest,
            prefix,
            false,
        ) == Some(pid as int),
{
    let d = crate::text::digits(pid as nat);
    crate::text::decimal_round_trip(pid as nat);
    let a = prefix + d;
    assert(a.take(prefix.len() as int) =~= prefix);
    assert(a.skip(prefix.len() as int) =~= d);
    let b = prefix + d + seq!['-'] + rest;
    assert(b.take(prefix.len() as int) =~= prefix);
    let tail = b.skip(prefix.len() as int);
    assert(tail =~= d + seq!['-'] + rest);
    crate::text::span_before_ends_at_the_first(tail, '-');
    let n = crate::text::span_before(tail, '-') as int;
    assert(tail[d.len() as int] == '-');
    assert forall|i: int| 0 <= i < d.len() implies #[trigger] tail[i] != '-' by {
        assert(crate::text::is_digit(d[i]));
    }
    assert(n == d.len()) by {
        if n < d.len() {
            assert(tail[n] == '-');
        }
    }
    assert(tail.take(n) =~= d);
}

/// Only a process that the system says does not exist, by error 3, counts as gone; and a
/// number that names no single process never does.
pub proof fn doubt_counts_as_alive(pid: i32, e: i32)
    ensures
        pid > 0 ==> !counts_as_alive(pid, SignalResult::Failed(Some(3))),
        pid > 0 && e != 3 ==> counts_as_alive(pid, SignalResult::Failed(Some(e))),
        counts_as_alive(pid, SignalResult::Failed(None)),
        counts_as_alive(pid, SignalResult::Delivered),
        pid <= 0 ==> counts_as_alive(pid, SignalResult::Failed(Some(3))),
{
}

} // verus!

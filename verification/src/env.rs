//! A snapshot of the process environment, and the readings taken from it.
use crate::text::{
    chars_of, lower, parse_decimal, same, same_text, trim,
};
use crate::time::Duration;
use vstd::prelude::*;

verus! {

/// Environment variables by name. The first of several entries with one name counts.
#[derive(Debug, Clone)]
pub struct Environment {
    pub vars: Vec<(String, String)>,
}

pub open spec fn first_var(vars: Seq<(String, String)>, name: Seq<char>) -> Option<Seq<char>>
    decreases vars.len(),
{
    if vars.len() == 0 {
        None
    } else if vars[0].0@ == name {
        Some(vars[0].1@)
    } else {
        first_var(vars.drop_first(), name)
    }
}

impl Environment {
    pub fn new(vars: Vec<(String, String)>) -> (e: Self)
        ensures
            e.vars == vars,
    {
        Environment { vars }
    }

    /// The value of the variable `name`, if it is set.
    pub open spec fn value(&self, name: Seq<char>) -> Option<Seq<char>> {
        first_var(self.vars@, name)
    }

    pub fn get(&self, name: &str) -> (r: Option<&str>)
        ensures
            r is Some <==> self.value(name@) is Some,
            r matches Some(v) ==> self.value(name@) == Some(v@),
    {
        let mut i: usize = 0;
        assert(self.vars@.skip(0) =~= self.vars@);
        while i < self.vars.len()
            invariant
                i <= self.vars.len(),
                first_var(self.vars@, name@) == first_var(self.vars@.skip(i as int), name@),
            decreases self.vars.len() - i,
        {
            if same_text(self.vars[i].0.as_str(), name) {
                return Some(self.vars[i].1.as_str());
            }
            proof {
                assert(self.vars@.skip(i as int).drop_first() =~= self.vars@.skip(i + 1));
            }
            i = i + 1;
        }
        None
    }
}

/// A switch is off when its text, trimmed and in small letters, says so.
pub open spec fn says_off(v: Seq<char>) -> bool {
    let t = crate::text::lowered(crate::text::trimmed(v));
    t == ""@ || t == "0"@ || t == "false"@ || t == "no"@ || t == "off"@
}

pub open spec fn switch_value(v: Option<Seq<char>>, default: bool) -> bool {
    match v {
        Some(s) => !says_off(s),
        None => default,
    }
}

/// Reads a switch: set to anything but an empty text, `0`, `false`, `no` or `off`
/// it is on; unset it has its default.
pub fn env_on(env: &Environment, name: &str, default: bool) -> (on: bool)
    ensures
        on == switch_value(env.value(name@), default),
{
    match env.get(name) {
        Some(v) => {
            let chars: Vec<char> = chars_of(v);
            let t: Vec<char> = lower(&trim(&chars));
            !(same(&t, "") || same(&t, "0") || same(&t, "false") || same(&t, "no") || same(
                &t,
                "off",
            ))
        },
        None => default,
    }
}

/// The number a variable holds, white space around it allowed, or the default.
pub open spec fn number_or(v: Option<Seq<char>>, max: int, default: int) -> int {
    match v {
        Some(s) => match crate::text::bounded_decimal(crate::text::trimmed(s), max) {
            Some(n) => n,
            None => default,
        },
        None => default,
    }
}

/// As [`number_or`], with zero standing for the default too.
pub open spec fn positive_or(v: Option<Seq<char>>, max: int, default: int) -> int {
    let n = number_or(v, max, 0);
    if n > 0 {
        n
    } else {
        default
    }
}

pub fn number_from(raw: Option<&str>, max: u64, default: u64) -> (n: u64)
    ensures
        n == number_or(
            crate::text::text_of(raw),
            max as int,
            default as int,
        ),
{
    match raw {
        Some(v) => {
            let chars: Vec<char> = chars_of(v);
            let t: Vec<char> = trim(&chars);
            match parse_decimal(&t, max) {
                Some(n) => n,
                None => default,
            }
        },
        None => default,
    }
}

/// Reads a number from the environment.
pub fn env_u64(env: &Environment, name: &str, default: u64) -> (n: u64)
    ensures
        n == number_or(env.value(name@), u64::MAX as int, default as int),
{
    number_from(env.get(name), u64::MAX, default)
}

/// Reads a number above zero from the environment.
pub fn env_positive(env: &Environment, name: &str, max: u64, default: u64) -> (n: u64)
    ensures
        n == positive_or(env.value(name@), max as int, default as int),
{
    let n: u64 = number_from(env.get(name), max, 0);
    if n > 0 {
        n
    } else {
        default
    }
}

/// Reads a span of milliseconds above zero from the environment.
pub fn env_millis(env: &Environment, name: &str, default: u64) -> (d: Duration)
    ensures
        d@ == positive_or(env.value(name@), u64::MAX as int, default as int)
            * crate::time::NANOS_PER_MILLI,
{
    Duration::from_millis(env_positive(env, name, u64::MAX, default))
}

/// The first variable of a name counts, and a name that no variable has is not set.
pub proof fn the_first_variable_counts(env: &Environment, name: Seq<char>, i: int)
    requires
        0 <= i <= env.vars@.len(),
        forall|k: int| 0 <= k < i ==> (#[trigger] env.vars@[k]).0@ != name,
    ensures
        i < env.vars@.len() && env.vars@[i].0@ == name ==> env.value(name) == Some(env.vars@[i].1@),
        i == env.vars@.len() ==> env.value(name) is None,
{
    lemma_first_var(env.vars@, name, i);
}

proof fn lemma_first_var(vars: Seq<(String, String)>, name: Seq<char>, i: int)
    requires
        0 <= i <= vars.len(),
        forall|k: int| 0 <= k < i ==> (#[trigger] vars[k]).0@ != name,
    ensures
        i < vars.len() && vars[i].0@ == name ==> first_var(vars, name) == Some(vars[i].1@),
        i == vars.len() ==> first_var(vars, name) is None,
    decreases vars.len(),
{
    if i > 0 {
        let rest = vars.drop_first();
        assert(vars[0].0@ != name);
        assert forall|k: int| 0 <= k < i - 1 implies (#[trigger] rest[k]).0@ != name by {
            assert(rest[k] == vars[k + 1]);
        }
        lemma_first_var(rest, name, i - 1);
    }
}

/// A number written plainly is read as it is, up to the greatest that is allowed; beyond
/// that, and where the variable is not set, the default counts. Zero counts as not set
/// where a positive number is wanted.
pub proof fn plain_numbers_are_read(n: nat, max: int)
    requires
        max >= 0,
    ensures
        forall|d: int|
            n <= max ==> #[trigger] number_or(Some(crate::text::digits(n)), max, d) == n,
        forall|d: int| n > max ==> #[trigger] number_or(Some(crate::text::digits(n)), max, d) == d,
        forall|d: int|
            0 < n <= max ==> #[trigger] positive_or(Some(crate::text::digits(n)), max, d) == n,
        forall|d: int| n == 0 ==> #[trigger] positive_or(Some(crate::text::digits(n)), max, d) == d,
        forall|d: int| #[trigger] number_or(None, max, d) == d,
        forall|d: int| #[trigger] positive_or(None, max, d) == d,
{
    crate::text::decimal_round_trip(n);
    crate::text::numerals_hold_no_white_space(n);
}

/// Five texts switch off, in capitals or not and with white space around them; any other
/// switches on, whatever the default; and not set, a switch has its default.
pub proof fn five_texts_switch_off(v: Seq<char>, default: bool)
    ensures
        crate::text::lowered(crate::text::trimmed(v)) == ""@ ==> !switch_value(Some(v), default),
        crate::text::lowered(crate::text::trimmed(v)) == "0"@ ==> !switch_value(Some(v), default),
        crate::text::lowered(crate::text::trimmed(v)) == "false"@ ==> !switch_value(
            Some(v),
            default,
        ),
        crate::text::lowered(crate::text::trimmed(v)) == "no"@ ==> !switch_value(Some(v), default),
        crate::text::lowered(crate::text::trimmed(v)) == "off"@ ==> !switch_value(Some(v), default),
        v == "1"@ || v == "true"@ || v == "yes"@ || v == "on"@ ==> switch_value(Some(v), default),
        crate::text::trimmed(v).len() > 5 ==> switch_value(Some(v), default),
        switch_value(None, default) == default,
{
    reveal_strlit("");
    reveal_strlit("0");
    reveal_strlit("false");
    reveal_strlit("no");
    reveal_strlit("off");
    reveal_strlit("1");
    reveal_strlit("true");
    reveal_strlit("yes");
    reveal_strlit("on");
    let t = crate::text::trimmed(v);
    let l = crate::text::lowered(t);
    assert(l.len() == t.len());
    if v == "1"@ || v == "true"@ || v == "yes"@ || v == "on"@ {
        crate::text::trimmed_texts_stay(v);
        assert(l[0] == v[0]);
        if v == "on"@ {
            assert(l[1] == 'n');
            assert("no"@[0] == 'n');
            assert("off"@.len() == 3);
        }
        assert("0"@[0] == '0' && "false"@[0] == 'f' && "off"@[0] == 'o');
    }
}

} // verus!

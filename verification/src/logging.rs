//! Log files: where they are kept, when they are rotated, and how.
use crate::env::Environment;
use crate::text::{chars_of, concat2, decimal_text, join_path, parse_decimal};
use vstd::prelude::*;

verus! {

/// The name of the log that is written to. Archives bear it too, with a dot and a
/// number.
pub open spec fn base_name() -> Seq<char> {
    "macrdp.log"@
}

pub const DEFAULT_MAX_BYTES: u64 = 10_485_760;

pub const DEFAULT_MAX_FILES: usize = 5;

/// The default directory below the user's home.
pub open spec fn home_logs(home: Option<Seq<char>>) -> Option<Seq<char>> {
    match home {
        Some(h) => Some(crate::text::joined(h, "Library/Logs"@)),
        None => None,
    }
}

pub fn default_log_dir(home: Option<&str>) -> (r: Option<String>)
    ensures
        crate::text::string_text(r) == home_logs(crate::text::text_of(home)),
{
    match home {
        Some(h) => Some(join_path(h, "Library/Logs")),
        None => None,
    }
}

pub open spec fn chosen_dir(
    asked: Option<Seq<char>>,
    stdout_is_tty: bool,
    home: Option<Seq<char>>,
) -> Option<Seq<char>> {
    match asked {
        Some(d) => Some(d),
        None => if stdout_is_tty {
            None
        } else {
            home_logs(home)
        },
    }
}

/// The directory to log to, or none for standard output: the one that was asked for;
/// else, away from a terminal, the default one.
pub fn log_dir(log_dir_override: Option<&str>, stdout_is_tty: bool, home: Option<&str>) -> (r: Option<
    String,
>)
    ensures
        crate::text::string_text(r) == chosen_dir(
            crate::text::text_of(log_dir_override),
            stdout_is_tty,
            crate::text::text_of(home),
        ),
{
    match log_dir_override {
        Some(d) => Some(d.to_owned()),
        None => if stdout_is_tty {
            None
        } else {
            default_log_dir(home)
        },
    }
}

/// The number that a variable holds exactly, with no white space around it.
pub open spec fn exact_number(v: Option<Seq<char>>, max: int) -> Option<int> {
    match v {
        Some(s) => crate::text::bounded_decimal(s, max),
        None => None,
    }
}

/// Reads a number above zero.
pub fn env_u64(env: &Environment, key: &str, default: u64) -> (n: u64)
    ensures
        n == (match exact_number(env.value(key@), u64::MAX as int) {
            Some(v) => if v > 0 {
                v
            } else {
                default as int
            },
            None => default as int,
        }),
{
    match env.get(key) {
        Some(s) => {
            let chars: Vec<char> = chars_of(s);
            match parse_decimal(&chars, u64::MAX) {
                Some(v) => if v > 0 {
                    v
                } else {
                    default
                },
                None => default,
            }
        },
        None => default,
    }
}

/// Reads a count, zero included.
pub fn env_usize(env: &Environment, key: &str, default: usize) -> (n: usize)
    ensures
        n == (match exact_number(env.value(key@), usize::MAX as int) {
            Some(v) => v,
            None => default as int,
        }),
{
    match env.get(key) {
        Some(s) => {
            let chars: Vec<char> = chars_of(s);
            match parse_decimal(&chars, usize::MAX as u64) {
                Some(v) => v as usize,
                None => default,
            }
        },
        None => default,
    }
}

/// The file that a number stands for: 0 is the log itself, the others are archives,
/// the youngest numbered 1.
pub open spec fn numbered_name(n: nat) -> Seq<char> {
    if n == 0 {
        base_name()
    } else {
        base_name() + "."@ + crate::text::digits(n)
    }
}

pub fn file_name(n: usize) -> (s: String)
    ensures
        s@ == numbered_name(n as nat),
{
    if n == 0 {
        return "macrdp.log".to_owned();
    }
    let d: String = decimal_text(n as u128);
    let dotted: String = concat2("macrdp.log", ".");
    concat2(dotted.as_str(), d.as_str())
}

/// One step of a rotation, on files by their numbers.
#[derive(Debug, Clone, Copy, PartialEq, Eq, Structural)]
pub enum FileOp {
    /// The file takes another's place.
    Rename { from: usize, to: usize },
    Remove(usize),
    /// The file is started anew, empty.
    Create(usize),
}

/// A log directory: file contents by number.
pub type Dir = Map<nat, Seq<u8>>;

pub open spec fn apply(dir: Dir, op: FileOp) -> Dir {
    match op {
        FileOp::Rename { from, to } => dir.remove(from as nat).insert(to as nat, dir[from as nat]),
        FileOp::Remove(n) => dir.remove(n as nat),
        FileOp::Create(n) => dir.insert(n as nat, Seq::empty()),
    }
}

pub open spec fn apply_all(dir: Dir, ops: Seq<FileOp>) -> Dir
    decreases ops.len(),
{
    if ops.len() == 0 {
        dir
    } else {
        apply(apply_all(dir, ops.drop_last()), ops.last())
    }
}

/// What archive `n` holds after a rotation: the file that came before it, where there
/// is one. The oldest archive stays where none comes to take its place, and so does
/// everything beyond the limit.
pub open spec fn shifted(dir: Dir, max_files: nat, n: nat) -> Option<Seq<u8>> {
    if n == 0 {
        Some(Seq::empty())
    } else if n > max_files {
        content(dir, n)
    } else if dir.contains_key((n - 1) as nat) {
        Some(dir[(n - 1) as nat])
    } else if n == max_files {
        content(dir, n)
    } else {
        None
    }
}

pub open spec fn content(dir: Dir, n: nat) -> Option<Seq<u8>> {
    if dir.contains_key(n) {
        Some(dir[n])
    } else {
        None
    }
}

/// `present` tells which of the archives exist.
pub open spec fn describes(present: Seq<bool>, dir: Dir, max_files: nat) -> bool {
    &&& present.len() == max_files
    &&& forall|n: int| 1 <= n < max_files ==> #[trigger] present[n] == dir.contains_key(n as nat)
}

/// The steps of a rotation: every archive below the limit that exists moves up by
/// one, oldest first; the log becomes the youngest archive, or goes where none is
/// kept; and an empty log is started. `present[n]` tells whether archive `n` exists.
pub fn rotation_plan(present: &Vec<bool>, max_files: usize) -> (ops: Vec<FileOp>)
    requires
        present@.len() == max_files,
    ensures
        forall|dir: Dir, n: nat|
            #![trigger describes(present@, dir, max_files as nat), content(apply_all(dir, ops@), n)]
            describes(present@, dir, max_files as nat) && dir.contains_key(0) ==> content(
                apply_all(dir, ops@),
                n,
            ) == shifted(dir, max_files as nat, n),
{
    let mut ops: Vec<FileOp> = Vec::new();
    let mut n: usize = max_files;
    while n > 1
        invariant
            n <= max_files,
            present@.len() == max_files,
            max_files >= 1 ==> n >= 1,
            forall|dir: Dir, k: nat|
                #![trigger describes(present@, dir, max_files as nat), content(apply_all(dir, ops@), k)]
                describes(present@, dir, max_files as nat) ==> content(apply_all(dir, ops@), k)
                    == moved_above(dir, max_files as nat, n as nat, k),
        decreases n,
    {
        let ghost before = ops@;
        let from: usize = n - 1;
        if present[from] {
            ops.push(FileOp::Rename { from, to: n });
            assert(ops@.drop_last() =~= before);
        }
        proof {
            assert forall|dir: Dir, k: nat|
                #![trigger describes(present@, dir, max_files as nat), content(apply_all(dir, ops@), k)]
                describes(present@, dir, max_files as nat) implies content(
                apply_all(dir, ops@),
                k,
            ) == moved_above(dir, max_files as nat, from as nat, k) by {
                let d = apply_all(dir, before);
                assert(content(d, k) == moved_above(dir, max_files as nat, n as nat, k));
                assert(content(d, from as nat) == moved_above(
                    dir,
                    max_files as nat,
                    n as nat,
                    from as nat,
                ));
                assert(present@[from as int] == dir.contains_key(from as nat));
            }
        }
        n = from;
    }
    let ghost before = ops@;
    if max_files >= 1 {
        ops.push(FileOp::Rename { from: 0, to: 1 });
    } else {
        ops.push(FileOp::Remove(0));
    }
    let ghost middle = ops@;
    ops.push(FileOp::Create(0));
    proof {
        assert(middle.drop_last() =~= before);
        assert(ops@.drop_last() =~= middle);
        assert forall|dir: Dir, k: nat|
            #![trigger describes(present@, dir, max_files as nat), content(apply_all(dir, ops@), k)]
            describes(present@, dir, max_files as nat) && dir.contains_key(0) implies content(
            apply_all(dir, ops@),
            k,
        ) == shifted(dir, max_files as nat, k) by {
            let d = apply_all(dir, before);
            assert(apply_all(dir, middle) == apply(d, middle.last()));
            assert(apply_all(dir, ops@) == apply(apply_all(dir, middle), FileOp::Create(0)));
            assert(content(d, k) == moved_above(dir, max_files as nat, n as nat, k));
            assert(content(d, 0) == moved_above(dir, max_files as nat, n as nat, 0));
            assert(content(d, 1) == moved_above(dir, max_files as nat, n as nat, 1));
        }
    }
    ops
}

/// What file `k` holds once every archive from number `n` on has moved.
spec fn moved_above(dir: Dir, max_files: nat, n: nat, k: nat) -> Option<Seq<u8>> {
    if k > max_files || k < n || max_files == 0 {
        content(dir, k)
    } else if k == n {
        if n == max_files {
            content(dir, k)
        } else {
            None
        }
    } else if dir.contains_key((k - 1) as nat) {
        Some(dir[(k - 1) as nat])
    } else if k == max_files {
        content(dir, k)
    } else {
        None
    }
}

/// A rotation adds no archive beyond the limit and, where one is kept at all, keeps
/// everything that was just logged as the youngest.
pub proof fn rotation_keeps_within_the_limit(dir: Dir, max_files: nat)
    requires
        dir.contains_key(0),
        forall|n: nat| n > max_files ==> !#[trigger] dir.contains_key(n),
    ensures
        forall|n: nat| n > max_files && n > 0 ==> #[trigger] shifted(dir, max_files, n) is None,
        max_files >= 1 ==> shifted(dir, max_files, 1) == Some(dir[0]),
        shifted(dir, max_files, 0) == Some(Seq::<u8>::empty()),
{
}

/// How much the log holds, and how much it may.
#[derive(Debug, Clone, Copy, PartialEq, Eq, Structural)]
pub struct Rotator {
    pub written: u64,
    pub max_bytes: u64,
    pub max_files: usize,
}

/// Whether the log makes way before `len` bytes more are written.
pub open spec fn rotates(r: Rotator, len: u64) -> bool {
    r.written > 0 && r.written + len > r.max_bytes
}

/// The log after it was started anew.
pub open spec fn emptied(r: Rotator) -> Rotator {
    Rotator { written: 0, ..r }
}

/// The log after `n` bytes more.
pub open spec fn grown(r: Rotator, n: u64) -> Rotator {
    Rotator { written: (r.written + n) as u64, ..r }
}

/// The limits that the environment names.
pub open spec fn limits_read(r: Rotator, env: &Environment) -> bool {
    &&& r.max_bytes == (match exact_number(env.value("MACRDP_LOG_MAX_BYTES"@), u64::MAX as int) {
        Some(v) => if v > 0 {
            v
        } else {
            DEFAULT_MAX_BYTES as int
        },
        None => DEFAULT_MAX_BYTES as int,
    })
    &&& r.max_files == (match exact_number(env.value("MACRDP_LOG_MAX_FILES"@), usize::MAX as int) {
        Some(v) => v,
        None => DEFAULT_MAX_FILES as int,
    })
}

impl Rotator {
    /// Goes on with a log that already holds `len` bytes.
    pub fn open(len: u64, max_bytes: u64, max_files: usize) -> (r: Self)
        ensures
            r.written == len,
            r.max_bytes == max_bytes,
            r.max_files == max_files,
    {
        Rotator { written: len, max_bytes, max_files }
    }

    /// With the limits that the environment names, each with its default.
    pub fn from_env(env: &Environment, len: u64) -> (r: Self)
        ensures
            r.written == len,
            limits_read(r, env),
    {
        let max_bytes: u64 = env_u64(env, "MACRDP_LOG_MAX_BYTES", DEFAULT_MAX_BYTES);
        let max_files: usize = env_usize(env, "MACRDP_LOG_MAX_FILES", DEFAULT_MAX_FILES);
        Self::open(len, max_bytes, max_files)
    }

    /// Whether the log is rotated before `len` bytes more are written: where they do
    /// not fit, unless the log is empty anyway.
    pub fn needs_rotation(&self, len: u64) -> (r: bool)
        ensures
            r == rotates(*self, len),
    {
        if self.written == 0 {
            return false;
        }
        match self.written.checked_add(len) {
            Some(total) => total > self.max_bytes,
            None => true,
        }
    }

    pub fn rotated(&mut self)
        ensures
            *final(self) == emptied(*old(self)),
    {
        self.written = 0;
    }

    /// `n` bytes were written.
    pub fn wrote(&mut self, n: u64)
        requires
            old(self).written + n <= u64::MAX,
        ensures
            *final(self) == grown(*old(self), n),
    {
        self.written = self.written + n;
    }
}

/// A log that is rotated whenever it asks to be never exceeds its limit, except by a
/// single write that exceeds it alone.
pub proof fn the_log_stays_within_its_limit(r: Rotator, len: u64)
    requires
        r.written <= r.max_bytes,
    ensures
        ({
            let base = if r.written > 0 && r.written + len > r.max_bytes {
                0
            } else {
                r.written as int
            };
            base + len <= r.max_bytes || (base == 0 && len > r.max_bytes)
        }),
{
}

/// A write that fits is appended; one that does not makes the log start anew first, unless
/// there is nothing in it to make way. So a log that makes way whenever it must stays within
/// its limit, except by a single write that exceeds it alone.
pub proof fn logs_make_way(r: Rotator, len: u64)
    ensures
        r.written + len <= r.max_bytes ==> !rotates(r, len),
        r.written > 0 && r.written + len > r.max_bytes ==> rotates(r, len),
        r.written == 0 ==> !rotates(r, len),
        !rotates(emptied(r), len),
        emptied(r).written == 0,
        emptied(r).max_bytes == r.max_bytes && emptied(r).max_files == r.max_files,
        r.written + len <= u64::MAX ==> grown(r, len).written == r.written + len,
        r.written <= r.max_bytes && !rotates(r, len) && len <= r.max_bytes ==> grown(r, len).written
            <= r.max_bytes,
{
}

/// A rotation moves every file up by one: what was logged becomes archive 1, archive 1
/// becomes archive 2, and so on up to the limit, where the oldest gives way.
pub proof fn archives_move_up_by_one(dir: Dir, max_files: nat, n: nat)
    ensures
        n < max_files && dir.contains_key(n) ==> shifted(dir, max_files, n + 1) == Some(dir[n]),
        n + 1 < max_files && !dir.contains_key(n) ==> shifted(dir, max_files, n + 1) is None,
        n > max_files ==> (dir.contains_key(n) ==> shifted(dir, max_files, n) == Some(dir[n])),
        shifted(dir, max_files, 0) == Some(Seq::<u8>::empty()),
{
}

/// The log is `macrdp.log`, and archive `n` is that with a dot and the number.
pub proof fn archives_bear_their_numbers(n: nat)
    ensures
        numbered_name(0) == "macrdp.log"@,
        n > 0 ==> numbered_name(n) == "macrdp.log"@ + "."@ + crate::text::digits(n),
{
}

/// Logs go where it was asked for; else to the terminal where there is one, and to the home
/// directory's where there is none.
pub proof fn logs_go_where_asked(dir: Seq<char>, tty: bool, home: Seq<char>)
    ensures
        chosen_dir(Some(dir), tty, Some(home)) == Some(dir),
        chosen_dir(None, true, Some(home)) is None,
        chosen_dir(None, false, Some(home)) == Some(crate::text::joined(home, "Library/Logs"@)),
        chosen_dir(None, false, None) is None,
{
}

/// With no variable set the log holds ten megabytes, and five archives are kept. Each
/// variable sets its own limit; no archives may be kept, but no bytes count as not set.
pub proof fn logs_have_default_limits(r: Rotator, env: &Environment, n: nat)
    requires
        limits_read(r, env),
        n <= u32::MAX,
    ensures
        env.vars@.len() == 0 ==> r.max_bytes == 10 * 1024 * 1024 && r.max_files == 5,
        env.value("MACRDP_LOG_MAX_BYTES"@) == Some(crate::text::digits(n)) && n > 0 ==> r.max_bytes == n,
        env.value("MACRDP_LOG_MAX_BYTES"@) == Some(crate::text::digits(0)) ==> r.max_bytes == 10 * 1024
            * 1024,
        env.value("MACRDP_LOG_MAX_FILES"@) == Some(crate::text::digits(n)) ==> r.max_files == n,
{
    crate::text::decimal_round_trip(n);
    crate::text::decimal_round_trip(0);
}

} // verus!

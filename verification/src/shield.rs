//! The helper that covers physical displays with black windows: its frames, and how
//! often it is called on before giving up.
use crate::env::Environment;
use crate::text::{chars_of, parse_decimal};
use crate::time::Duration;
use crate::wire::{be16, be32, push_be16, push_be32, read16, read32};
use vstd::prelude::*;

verus! {

pub const DEFAULT_PORT: u16 = 40244;

/// How long a connection or a write may take.
pub const IO_TIMEOUT_MS: u64 = 250;

pub const CONNECT_ATTEMPTS: usize = 3;

pub const CONNECT_RETRY_DELAY_MS: u64 = 100;

/// The port that a variable names, or the default; no white space is allowed.
pub open spec fn port_or(v: Option<Seq<char>>, default: u16) -> int {
    match v {
        Some(s) => match crate::text::bounded_decimal(s, u16::MAX as int) {
            Some(n) => n,
            None => default as int,
        },
        None => default as int,
    }
}

pub fn port_from(env: &Environment, name: &str, default: u16) -> (p: u16)
    ensures
        p == port_or(env.value(name@), default),
{
    match env.get(name) {
        Some(v) => {
            let chars: Vec<char> = chars_of(v);
            match parse_decimal(&chars, u16::MAX as u64) {
                Some(n) => n as u16,
                None => default,
            }
        },
        None => default,
    }
}

/// The helper's port.
pub fn port(env: &Environment) -> (p: u16)
    ensures
        p == port_or(env.value("MACRDP_SHIELD_PORT"@), DEFAULT_PORT),
{
    port_from(env, "MACRDP_SHIELD_PORT", DEFAULT_PORT)
}

/// What to do after a failed attempt to reach the helper.
#[derive(Debug, Clone, Copy, PartialEq, Eq, Structural)]
pub enum Retry {
    After(Duration),
    GiveUp,
}

pub open spec fn retry_after(attempt: usize) -> Retry {
    if attempt + 1 < CONNECT_ATTEMPTS {
        Retry::After(
            Duration { nanos: (CONNECT_RETRY_DELAY_MS * crate::time::NANOS_PER_MILLI) as u128 },
        )
    } else {
        Retry::GiveUp
    }
}

/// Decides on another attempt after attempt number `attempt`, counted from 0, failed.
pub fn connect_failed(attempt: usize) -> (r: Retry)
    ensures
        r == retry_after(attempt),
{
    if attempt < CONNECT_ATTEMPTS - 1 {
        Retry::After(Duration::from_millis(CONNECT_RETRY_DELAY_MS))
    } else {
        Retry::GiveUp
    }
}

/// The numbers, one after another, four bytes each.
pub open spec fn id_bytes(ids: Seq<u32>) -> Seq<u8>
    decreases ids.len(),
{
    if ids.len() == 0 {
        Seq::empty()
    } else {
        id_bytes(ids.drop_last()) + be32(ids.last())
    }
}

/// The displays that fit into one frame.
pub open spec fn counted(ids: Seq<u32>) -> Seq<u32> {
    if ids.len() <= u16::MAX {
        ids
    } else {
        ids.take(u16::MAX as int)
    }
}

/// A show frame: the opcode, the count, the displays.
pub open spec fn show_frame(ids: Seq<u32>) -> Seq<u8> {
    seq![1u8] + be16(counted(ids).len() as u16) + id_bytes(counted(ids))
}

pub fn encode_show(display_ids: &[u32]) -> (b: Vec<u8>)
    ensures
        b@ == show_frame(display_ids@),
{
    let mut b: Vec<u8> = Vec::new();
    b.push(1);
    let n: usize = display_ids.len();
    let count: u16 = if n <= u16::MAX as usize {
        n as u16
    } else {
        u16::MAX
    };
    push_be16(&mut b, count);
    let ghost head = b@;
    let ghost ids = counted(display_ids@);
    let mut i: usize = 0;
    assert(ids.take(0) =~= Seq::<u32>::empty());
    assert(head + id_bytes(Seq::<u32>::empty()) =~= head);
    while i < count as usize
        invariant
            i <= count,
            ids == counted(display_ids@),
            ids.len() == count,
            b@ == head + id_bytes(ids.take(i as int)),
        decreases count - i,
    {
        push_be32(&mut b, display_ids[i]);
        proof {
            assert(ids.take(i + 1).drop_last() =~= ids.take(i as int));
            assert(head + id_bytes(ids.take(i + 1)) =~= head + id_bytes(ids.take(i as int)) + be32(
                ids[i as int],
            ));
        }
        i = i + 1;
    }
    assert(ids.take(i as int) =~= ids);
    assert(b@ =~= show_frame(display_ids@));
    b
}

/// A hide frame: the opcode alone.
pub fn encode_hide() -> (b: Vec<u8>)
    ensures
        b@ == seq![3u8],
{
    let mut b: Vec<u8> = Vec::new();
    b.push(3);
    assert(b@ =~= seq![3u8]);
    b
}

#[derive(Debug, Clone, Copy, PartialEq, Eq, Structural)]
pub enum ShieldError {
    NoDisplays,
}

/// The frame that names these displays to the helper. An empty list is refused.
pub fn show(display_ids: &[u32]) -> (r: Result<Vec<u8>, ShieldError>)
    ensures
        display_ids@.len() == 0 ==> r == Err::<Vec<u8>, ShieldError>(ShieldError::NoDisplays),
        display_ids@.len() > 0 ==> (r matches Ok(b) && b@ == show_frame(display_ids@)),
{
    if display_ids.len() == 0 {
        return Err(ShieldError::NoDisplays);
    }
    Ok(encode_show(display_ids))
}

/// The frame that takes all covers away.
pub fn hide_all() -> (b: Vec<u8>)
    ensures
        b@ == seq![3u8],
{
    encode_hide()
}

proof fn lemma_id_bytes(ids: Seq<u32>, k: int)
    requires
        0 <= k < ids.len(),
    ensures
        id_bytes(ids).len() == 4 * ids.len(),
        id_bytes(ids).subrange(4 * k, 4 * k + 4) == be32(ids[k]),
    decreases ids.len(),
{
    let front = ids.drop_last();
    let n = front.len() as int;
    if n > 0 {
        lemma_id_bytes(
            front,
            if k < n {
                k
            } else {
                0
            },
        );
    }
    let all = id_bytes(front) + be32(ids.last());
    if k < n {
        assert(all.subrange(4 * k, 4 * k + 4) =~= id_bytes(front).subrange(4 * k, 4 * k + 4));
    } else {
        assert(all.subrange(4 * k, 4 * k + 4) =~= be32(ids.last()));
    }
}

/// A show frame can be read back: its opcode is 1, its count is the number of
/// displays, and each display stands in its place.
pub proof fn show_frames_can_be_read(ids: Seq<u32>, k: int)
    requires
        0 <= k < counted(ids).len(),
    ensures
        show_frame(ids).len() == 3 + 4 * counted(ids).len(),
        show_frame(ids)[0] == 1,
        read16(show_frame(ids).skip(1)) == counted(ids).len(),
        read32(show_frame(ids).skip(3 + 4 * k)) == ids[k],
{
    let c = counted(ids);
    lemma_id_bytes(c, k);
    let f = show_frame(ids);
    crate::wire::numbers_round_trip(c.len() as u16, c[k]);
    assert(f.skip(1)[0] == be16(c.len() as u16)[0] && f.skip(1)[1] == be16(c.len() as u16)[1]);
    let s = id_bytes(c).subrange(4 * k, 4 * k + 4);
    let t = f.skip(3 + 4 * k);
    assert(t[0] == s[0] && t[1] == s[1] && t[2] == s[2] && t[3] == s[3]);
}

/// The helper is tried three times, a tenth of a second apart.
pub proof fn helpers_are_tried_three_times(attempt: usize)
    ensures
        attempt < 2 ==> retry_after(attempt) == Retry::After(Duration { nanos: 100_000_000 }),
        attempt >= 2 ==> retry_after(attempt) is GiveUp,
{
}

/// The helper listens on the port that is named in decimal, or on 40244.
pub proof fn the_named_port_is_taken(n: nat, default: u16)
    ensures
        n <= 65535 ==> port_or(Some(crate::text::digits(n)), default) == n,
        n > 65535 ==> port_or(Some(crate::text::digits(n)), default) == default,
        port_or(None, default) == default,
        DEFAULT_PORT == 40244,
{
    crate::text::decimal_round_trip(n);
}

/// A frame names all displays, up to 65535 of them.
pub proof fn frames_name_all_displays(ids: Seq<u32>)
    ensures
        ids.len() <= 65535 ==> counted(ids) == ids,
        ids.len() > 65535 ==> counted(ids) == ids.take(65535),
        show_frame(Seq::empty()) == seq![1u8, 0u8, 0u8],
{
    assert(show_frame(Seq::empty()) =~= seq![1u8, 0u8, 0u8]);
}

} // verus!

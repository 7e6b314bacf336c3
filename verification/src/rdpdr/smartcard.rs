//! The smart-card bridge: the requests of the local card service, the answers, and
//! the conversation with the client's reader behind them.
use crate::env::Environment;
use crate::shield::port_from;
use crate::time::{since, Duration, Instant};
use crate::wire::{append_bytes, be32, be32_at, copy_bytes, push_be32, read32};
use vstd::prelude::*;

verus! {

pub const DEFAULT_PORT: u16 = 40242;

pub const CMD_POWER_ON: u8 = 1;

pub const CMD_POWER_OFF: u8 = 2;

pub const CMD_TRANSMIT: u8 = 3;

pub const CMD_PRESENCE: u8 = 4;

/// The longest command that is passed on to a card.
pub const MAX_APDU_LEN: usize = 65_544;

/// How long a card's presence is remembered.
pub const PRESENCE_TTL_MS: u64 = 300;

/// The bridge's port.
pub fn port(env: &Environment) -> (p: u16)
    ensures
        p == crate::shield::port_or(env.value("MACRDP_SCARD_PORT"@), DEFAULT_PORT),
{
    port_from(env, "MACRDP_SCARD_PORT", DEFAULT_PORT)
}

/// A request of the card service.
#[derive(Debug)]
pub enum Request {
    PowerOn,
    PowerOff,
    Transmit { apdu: Vec<u8>, recv_len: u32 },
    Presence,
}

/// What the bytes received so far amount to.
#[derive(Debug)]
pub enum Parsed {
    /// More bytes are needed.
    Incomplete,
    /// A request, and how many bytes it took.
    Request(Request, usize),
    /// No request starts this way: the connection is closed.
    Close,
}

/// [`Parsed`] as a mathematical value.
pub enum ParsedView {
    Incomplete,
    PowerOn,
    PowerOff,
    Presence,
    Transmit { apdu: Seq<u8>, recv_len: u32 },
    Close,
}

/// The request that the bytes start with. A transmission is its opcode, the length of
/// the command, the command, and the length of the answer that is expected.
pub open spec fn parsed(s: Seq<u8>) -> ParsedView {
    if s.len() == 0 {
        ParsedView::Incomplete
    } else if s[0] == CMD_PRESENCE {
        ParsedView::Presence
    } else if s[0] == CMD_POWER_ON {
        ParsedView::PowerOn
    } else if s[0] == CMD_POWER_OFF {
        ParsedView::PowerOff
    } else if s[0] == CMD_TRANSMIT {
        if s.len() < 5 {
            ParsedView::Incomplete
        } else {
            let n = read32(s.skip(1)) as int;
            if n > MAX_APDU_LEN {
                ParsedView::Close
            } else if s.len() < 9 + n {
                ParsedView::Incomplete
            } else {
                ParsedView::Transmit {
                    apdu: s.subrange(5, 5 + n),
                    recv_len: read32(s.skip(5 + n)),
                }
            }
        }
    } else {
        ParsedView::Close
    }
}

/// How many bytes the request took.
pub open spec fn taken(v: ParsedView) -> int {
    match v {
        ParsedView::Transmit { apdu, .. } => 9 + apdu.len() as int,
        _ => 1,
    }
}

pub open spec fn means(p: Parsed, v: ParsedView) -> bool {
    match p {
        Parsed::Incomplete => v == ParsedView::Incomplete,
        Parsed::Close => v == ParsedView::Close,
        Parsed::Request(r, n) => n == taken(v) && match r {
            Request::PowerOn => v == ParsedView::PowerOn,
            Request::PowerOff => v == ParsedView::PowerOff,
            Request::Presence => v == ParsedView::Presence,
            Request::Transmit { apdu, recv_len } => v == (ParsedView::Transmit {
                apdu: apdu@,
                recv_len,
            }),
        },
    }
}

/// Reads the request that the received bytes start with.
pub fn next_request(buf: &[u8]) -> (p: Parsed)
    ensures
        means(p, parsed(buf@)),
{
    let len: usize = buf.len();
    if len == 0 {
        return Parsed::Incomplete;
    }
    match buf[0] {
        CMD_PRESENCE => Parsed::Request(Request::Presence, 1),
        CMD_POWER_ON => Parsed::Request(Request::PowerOn, 1),
        CMD_POWER_OFF => Parsed::Request(Request::PowerOff, 1),
        CMD_TRANSMIT => {
            if len < 5 {
                return Parsed::Incomplete;
            }
            let wide: u32 = be32_at(buf, 1);
            if wide > MAX_APDU_LEN as u32 {
                return Parsed::Close;
            }
            let n: usize = wide as usize;
            if len < 9 + n {
                return Parsed::Incomplete;
            }
            let apdu: Vec<u8> = copy_bytes(buf, 5, 5 + n);
            let recv_len: u32 = be32_at(buf, 5 + n);
            Parsed::Request(Request::Transmit { apdu, recv_len }, 9 + n)
        },
        _ => Parsed::Close,
    }
}

/// Once a request is there, or the connection is to be closed, further bytes do not
/// change that.
pub proof fn requests_are_settled(s: Seq<u8>, more: Seq<u8>)
    requires
        !(parsed(s) is Incomplete),
    ensures
        parsed(s + more) == parsed(s),
{
    let t = s + more;
    if s[0] == CMD_TRANSMIT {
        assert(s.len() >= 5);
        assert(t.skip(1)[0] == s.skip(1)[0] && t.skip(1)[1] == s.skip(1)[1] && t.skip(1)[2]
            == s.skip(1)[2] && t.skip(1)[3] == s.skip(1)[3]);
        let n = read32(s.skip(1)) as int;
        if n <= MAX_APDU_LEN {
            assert(t.subrange(5, 5 + n) =~= s.subrange(5, 5 + n));
            let a = s.skip(5 + n);
            let b = t.skip(5 + n);
            assert(a[0] == b[0] && a[1] == b[1] && a[2] == b[2] && a[3] == b[3]);
        }
    }
}

/// A transmission as the card service writes it.
pub open spec fn transmit_bytes(apdu: Seq<u8>, recv_len: u32) -> Seq<u8> {
    seq![CMD_TRANSMIT] + be32(apdu.len() as u32) + apdu + be32(recv_len)
}

/// A transmission is read as it was written, whatever follows it.
pub proof fn transmissions_round_trip(apdu: Seq<u8>, recv_len: u32, rest: Seq<u8>)
    requires
        apdu.len() <= MAX_APDU_LEN,
    ensures
        parsed(transmit_bytes(apdu, recv_len) + rest) == (ParsedView::Transmit { apdu, recv_len }),
        taken(ParsedView::Transmit { apdu, recv_len }) == transmit_bytes(apdu, recv_len).len(),
{
    let n = apdu.len() as int;
    let h = be32(n as u32);
    let r = be32(recv_len);
    let s = transmit_bytes(apdu, recv_len) + rest;
    assert(s.skip(1)[0] == h[0] && s.skip(1)[1] == h[1] && s.skip(1)[2] == h[2] && s.skip(1)[3]
        == h[3]);
    crate::wire::numbers_round_trip(0, n as u32);
    crate::wire::numbers_round_trip(0, recv_len);
    assert(s.subrange(5, 5 + n) =~= apdu);
    let t = s.skip(5 + n);
    assert(t[0] == r[0] && t[1] == r[1] && t[2] == r[2] && t[3] == r[3]);
}

pub open spec fn presence_bytes(present: bool) -> Seq<u8> {
    seq![if present {
        1u8
    } else {
        0u8
    }]
}

/// The answer to a question after the card: one byte.
pub fn presence_reply(present: bool) -> (b: Vec<u8>)
    ensures
        b@ == presence_bytes(present),
{
    let mut b: Vec<u8> = Vec::new();
    b.push(
        if present {
            1
        } else {
            0
        },
    );
    assert(b@ =~= seq![if present {
        1u8
    } else {
        0u8
    }]);
    b
}

/// The answer to a power-on that succeeded: a zero and the card's ATR behind its
/// length. An ATR too long for that is left out.
pub open spec fn atr_reply(atr: Seq<u8>) -> Seq<u8> {
    if atr.len() <= 255 {
        seq![0u8, atr.len() as u8] + atr
    } else {
        seq![0u8, 0u8]
    }
}

pub open spec fn power_on_bytes(atr: Option<Seq<u8>>) -> Seq<u8> {
    match atr {
        Some(a) => atr_reply(a),
        None => seq![1u8],
    }
}

/// The answer to a power-on; a failure is the single byte 1.
pub fn power_on_reply(atr: Option<&Vec<u8>>) -> (b: Vec<u8>)
    ensures
        b@ == power_on_bytes(bytes_of(atr)),
{
    let mut b: Vec<u8> = Vec::new();
    match atr {
        Some(a) => {
            b.push(0);
            if a.len() <= 255 {
                b.push(a.len() as u8);
                append_bytes(&mut b, a.as_slice());
            } else {
                b.push(0);
            }
            assert(b@ =~= atr_reply(a@));
        },
        None => {
            b.push(1);
            assert(b@ =~= seq![1u8]);
        },
    }
    b
}

/// The bytes of an answer, where there is one.
pub open spec fn bytes_of(v: Option<&Vec<u8>>) -> Option<Seq<u8>> {
    match v {
        Some(b) => Some(b@),
        None => None,
    }
}

/// What of a card's answer fits behind a length of four bytes.
pub open spec fn sendable(resp: Seq<u8>) -> Seq<u8> {
    if resp.len() <= u32::MAX {
        resp
    } else {
        resp.take(u32::MAX as int)
    }
}

pub open spec fn transmit_answer(resp: Option<Seq<u8>>) -> Seq<u8> {
    match resp {
        Some(r) => seq![0u8] + be32(sendable(r).len() as u32) + sendable(r),
        None => seq![1u8],
    }
}

/// The answer to a transmission: a zero and the card's answer behind its length; a
/// failure is the single byte 1.
pub fn transmit_reply(resp: Option<&Vec<u8>>) -> (b: Vec<u8>)
    ensures
        b@ == transmit_answer(bytes_of(resp)),
{
    let mut b: Vec<u8> = Vec::new();
    match resp {
        Some(r) => {
            b.push(0);
            if r.len() as u64 <= u32::MAX as u64 {
                push_be32(&mut b, r.len() as u32);
                append_bytes(&mut b, r.as_slice());
            } else {
                push_be32(&mut b, u32::MAX);
                let head: Vec<u8> = copy_bytes(r.as_slice(), 0, u32::MAX as usize);
                assert(head@ =~= r@.take(u32::MAX as int));
                append_bytes(&mut b, head.as_slice());
            }
            assert(b@ =~= seq![0u8] + be32(sendable(r@).len() as u32) + sendable(r@));
        },
        None => {
            b.push(1);
            assert(b@ =~= seq![1u8]);
        },
    }
    b
}

/// The answer to a power-off, whether or not it succeeded.
pub fn power_off_reply() -> (b: Vec<u8>)
    ensures
        b@ == seq![0u8],
{
    let mut b: Vec<u8> = Vec::new();
    b.push(0);
    assert(b@ =~= seq![0u8]);
    b
}

/// A context with the client's card service.
#[derive(Debug, Clone, Copy, PartialEq, Eq, Structural)]
pub struct ScardContext {
    pub value: u32,
}

/// A connected card.
#[derive(Debug)]
pub struct CardHandle {
    pub context: ScardContext,
    pub value: Vec<u8>,
}

/// [`CardHandle`] as a mathematical value, with the card's protocol.
#[verifier::ext_equal]
pub struct CardView {
    pub context: ScardContext,
    pub value: Seq<u8>,
    pub protocol: u32,
}

/// The bit of a reader's state that says that a card is in it.
pub const SCARD_STATE_PRESENT: u32 = 0x20;

/// The state of a reader.
#[derive(Debug)]
pub struct ReaderState {
    pub event_state: u32,
    pub atr_length: u32,
    pub atr: Vec<u8>,
}

pub open spec fn has_card(s: ReaderState) -> bool {
    s.event_state & SCARD_STATE_PRESENT == SCARD_STATE_PRESENT
}

fn card_in(s: &ReaderState) -> (r: bool)
    ensures
        r == has_card(*s),
{
    s.event_state & SCARD_STATE_PRESENT == SCARD_STATE_PRESENT
}

/// Whether any reader holds a card.
pub fn any_card(states: &Vec<ReaderState>) -> (r: bool)
    ensures
        r == exists|i: int| 0 <= i < states@.len() && has_card(#[trigger] states@[i]),
{
    let mut i: usize = 0;
    while i < states.len()
        invariant
            i <= states.len(),
            forall|k: int| 0 <= k < i ==> !has_card(#[trigger] states@[k]),
        decreases states.len() - i,
    {
        if card_in(&states[i]) {
            assert(has_card(states@[i as int]));
            return true;
        }
        i = i + 1;
    }
    false
}

/// The ATR that a reader reports: as many bytes as it says, as far as they are there.
pub open spec fn atr_of(s: ReaderState) -> Seq<u8> {
    if s.atr_length <= s.atr@.len() {
        s.atr@.take(s.atr_length as int)
    } else {
        s.atr@
    }
}

/// The ATR of the first reader that holds a card and reports one.
pub open spec fn first_atr(states: Seq<ReaderState>) -> Option<Seq<u8>>
    decreases states.len(),
{
    if states.len() == 0 {
        None
    } else if has_card(states[0]) && states[0].atr_length > 0 {
        Some(atr_of(states[0]))
    } else {
        first_atr(states.drop_first())
    }
}

pub fn find_atr(states: &Vec<ReaderState>) -> (r: Option<Vec<u8>>)
    ensures
        r is Some <==> first_atr(states@) is Some,
        r matches Some(a) ==> first_atr(states@) == Some(a@),
{
    let mut i: usize = 0;
    assert(states@.skip(0) =~= states@);
    while i < states.len()
        invariant
            i <= states.len(),
            first_atr(states@) == first_atr(states@.skip(i as int)),
        decreases states.len() - i,
    {
        let s: &ReaderState = &states[i];
        if card_in(s) && s.atr_length > 0 {
            let n: usize = if s.atr_length as u64 <= s.atr.len() as u64 {
                s.atr_length as usize
            } else {
                s.atr.len()
            };
            let atr: Vec<u8> = copy_bytes(s.atr.as_slice(), 0, n);
            assert(atr@ =~= atr_of(*s));
            return Some(atr);
        }
        assert(states@.skip(i as int).drop_first() =~= states@.skip(i + 1));
        i = i + 1;
    }
    None
}

/// What is asked of the client's card service next.
#[derive(Debug)]
pub enum Step {
    EstablishContext,
    ListReaders(ScardContext),
    Connect(ScardContext, String),
    GetStatus(ScardContext, String),
}

#[derive(Debug, Clone, Copy, PartialEq, Eq, Structural)]
pub enum CardError {
    NoReaders,
    NoAtr,
    NotConnected,
}

/// One conversation of the card service with the client's reader.
#[derive(Debug)]
pub struct Session {
    pub context: Option<ScardContext>,
    pub reader: Option<String>,
    pub card: Option<(CardHandle, u32)>,
    pub presence_cache: Option<(Instant, bool)>,
}

/// [`Session`] as a mathematical value.
#[verifier::ext_equal]
pub struct SessionView {
    pub context: Option<ScardContext>,
    pub reader: Option<Seq<char>>,
    pub card: Option<CardView>,
    pub presence_cache: Option<(Instant, bool)>,
}

pub open spec fn card_view(c: Option<(CardHandle, u32)>) -> Option<CardView> {
    match c {
        Some((h, protocol)) => Some(
            CardView { context: h.context, value: h.value@, protocol },
        ),
        None => None,
    }
}

impl View for Session {
    type V = SessionView;

    open spec fn view(&self) -> SessionView {
        SessionView {
            context: self.context,
            reader: match self.reader {
                Some(r) => Some(r@),
                None => None,
            },
            card: card_view(self.card),
            presence_cache: self.presence_cache,
        }
    }
}

/// What a conversation needs before readers can be asked for their state; the last of
/// these is asking for it.
pub open spec fn step_is(s: SessionView, connect: bool, r: Step) -> bool {
    match s.context {
        None => r == Step::EstablishContext,
        Some(ctx) => match s.reader {
            None => r == Step::ListReaders(ctx),
            Some(reader) => if connect && s.card is None {
                r matches Step::Connect(c, name) && c == ctx && name@ == reader
            } else {
                r matches Step::GetStatus(c, name) && c == ctx && name@ == reader
            },
        },
    }
}

/// How to answer a question after the card.
#[derive(Debug)]
pub enum Presence {
    /// The answer is known.
    Cached(bool),
    /// This has to be asked first.
    Ask(Step),
}

pub open spec fn remembered(s: SessionView, now: Instant) -> Option<bool> {
    match s.presence_cache {
        Some((observed, present)) => if since(now, observed) < PRESENCE_TTL_MS
            * crate::time::NANOS_PER_MILLI {
            Some(present)
        } else {
            None
        },
        None => None,
    }
}

impl Session {
    pub fn new() -> (s: Self)
        ensures
            s@ == (SessionView {
                context: None,
                reader: None,
                card: None,
                presence_cache: None,
            }),
    {
        Session { context: None, reader: None, card: None, presence_cache: None }
    }

    /// The next step towards the readers' state, with a connected card where `connect`
    /// asks for one.
    fn next_step(&self, connect: bool) -> (r: Step)
        ensures
            step_is(self@, connect, r),
    {
        match self.context {
            None => Step::EstablishContext,
            Some(ctx) => match &self.reader {
                None => Step::ListReaders(ctx),
                Some(reader) => if connect && self.card.is_none() {
                    Step::Connect(ctx, reader.clone())
                } else {
                    Step::GetStatus(ctx, reader.clone())
                },
            },
        }
    }

    /// Starts or goes on answering whether a card is there.
    pub fn presence(&self, now: Instant) -> (r: Presence)
        ensures
            match remembered(self@, now) {
                Some(present) => r == Presence::Cached(present),
                None => r matches Presence::Ask(step) && step_is(self@, false, step),
            },
    {
        if let Some((observed, present)) = self.presence_cache {
            let ttl: Duration = Duration::from_millis(PRESENCE_TTL_MS);
            if now.saturating_duration_since(observed).nanos < ttl.nanos {
                return Presence::Cached(present);
            }
        }
        Presence::Ask(self.next_step(false))
    }

    /// Starts or goes on powering the card on.
    pub fn power_on(&self) -> (r: Step)
        ensures
            step_is(self@, true, r),
    {
        self.next_step(true)
    }

    pub fn on_context(&mut self, ctx: ScardContext)
        ensures
            final(self)@ == (SessionView { context: Some(ctx), ..old(self)@ }),
    {
        self.context = Some(ctx);
    }

    /// The client's readers are known: the first is used.
    pub fn on_readers(&mut self, readers: &Vec<String>) -> (r: Result<(), CardError>)
        ensures
            readers@.len() == 0 ==> r == Err::<(), CardError>(CardError::NoReaders) && final(self)@
                == old(self)@,
            readers@.len() > 0 ==> r is Ok && final(self)@ == (SessionView {
                reader: Some(readers@[0]@),
                ..old(self)@
            }),
    {
        if readers.len() == 0 {
            return Err(CardError::NoReaders);
        }
        self.reader = Some(readers[0].clone());
        Ok(())
    }

    /// A card was connected. It belongs to the conversation's context.
    pub fn on_connected(&mut self, context: ScardContext, value: Vec<u8>, protocol: u32)
        ensures
            final(self)@ == (SessionView {
                card: Some(CardView { context, value: value@, protocol }),
                ..old(self)@
            }),
    {
        self.card = Some((CardHandle { context, value }, protocol));
    }

    /// The readers' state after a question for the card: the answer, which is kept.
    pub fn on_presence_status(&mut self, states: &Vec<ReaderState>, now: Instant) -> (present: bool)
        ensures
            present == exists|i: int| 0 <= i < states@.len() && has_card(#[trigger] states@[i]),
            final(self)@ == (SessionView { presence_cache: Some((now, present)), ..old(self)@ }),
    {
        let present: bool = any_card(states);
        self.presence_cache = Some((now, present));
        present
    }

    /// The readers' state after a power-on: the card's ATR.
    pub fn on_power_status(&self, states: &Vec<ReaderState>) -> (r: Result<Vec<u8>, CardError>)
        ensures
            match first_atr(states@) {
                Some(atr) => r matches Ok(a) && a@ == atr,
                None => r == Err::<Vec<u8>, CardError>(CardError::NoAtr),
            },
    {
        match find_atr(states) {
            Some(atr) => Ok(atr),
            None => Err(CardError::NoAtr),
        }
    }

    /// The card that a transmission goes to.
    pub fn transmit(&self) -> (r: Result<(CardHandle, u32), CardError>)
        ensures
            match self@.card {
                Some(c) => r matches Ok(h) && card_view(Some(h)) == Some(c),
                None => r == Err::<(CardHandle, u32), CardError>(CardError::NotConnected),
            },
    {
        match &self.card {
            Some((h, protocol)) => {
                let value: Vec<u8> = copy_bytes(h.value.as_slice(), 0, h.value.len());
                assert(value@ =~= h.value@);
                Ok((CardHandle { context: h.context, value }, *protocol))
            },
            None => Err(CardError::NotConnected),
        }
    }

    /// Lets go of the card; the one to disconnect, where there is one.
    pub fn power_off(&mut self) -> (r: Option<(CardHandle, u32)>)
        ensures
            card_view(r) == old(self)@.card,
            final(self)@ == (SessionView { card: None, ..old(self)@ }),
    {
        self.card.take()
    }

    /// Ends the conversation: the card to disconnect and the context to release.
    pub fn teardown(&mut self) -> (r: (Option<(CardHandle, u32)>, Option<ScardContext>))
        ensures
            card_view(r.0) == old(self)@.card,
            r.1 == old(self)@.context,
            final(self)@ == (SessionView { card: None, context: None, ..old(self)@ }),
    {
        let card: Option<(CardHandle, u32)> = self.card.take();
        let context: Option<ScardContext> = self.context.take();
        (card, context)
    }
}

/// How many answers a conversation still waits for before the last one.
pub open spec fn steps_left(s: SessionView, connect: bool) -> nat {
    (if s.context is None {
        1nat
    } else {
        0
    }) + (if s.reader is None {
        1nat
    } else {
        0
    }) + (if connect && s.card is None {
        1nat
    } else {
        0
    })
}

/// Every answer brings a conversation one step on, and what was established stays so:
/// nothing is asked for twice.
pub proof fn conversations_make_progress(
    s: SessionView,
    ctx: ScardContext,
    reader: Seq<char>,
    card: CardView,
    connect: bool,
)
    ensures
        s.context is None ==> steps_left(SessionView { context: Some(ctx), ..s }, connect) + 1
            == steps_left(s, connect),
        s.reader is None ==> steps_left(SessionView { reader: Some(reader), ..s }, connect) + 1
            == steps_left(s, connect),
        connect && s.card is None ==> steps_left(SessionView { card: Some(card), ..s }, connect) + 1
            == steps_left(s, connect),
        forall|r: Step| #[trigger]
            step_is(s, connect, r) ==> (r is GetStatus <==> steps_left(s, connect) == 0),
{
}

/// An answer about the card is repeated without asking until it has grown old, and
/// never afterwards.
pub proof fn presence_is_remembered(s: SessionView, at: Instant, present: bool, now: Instant)
    ensures
        ({
            let kept = SessionView { presence_cache: Some((at, present)), ..s };
            let fresh = since(now, at) < PRESENCE_TTL_MS * crate::time::NANOS_PER_MILLI;
            remembered(kept, now) == if fresh {
                Some(present)
            } else {
                None
            }
        }),
{
}

/// A request is told by its first byte: 1 powers on, 2 powers off, 3 transmits and 4 asks
/// after the card; nothing else is a request. All but a transmission are one byte long.
pub proof fn requests_are_told_by_their_first_byte(s: Seq<u8>)
    requires
        s.len() > 0,
    ensures
        s[0] == 1 ==> parsed(s) is PowerOn,
        s[0] == 2 ==> parsed(s) is PowerOff,
        s[0] == 4 ==> parsed(s) is Presence,
        s[0] == 0 || s[0] > 4 ==> parsed(s) is Close,
        s[0] == 3 ==> parsed(s) is Incomplete || parsed(s) is Transmit || parsed(s) is Close,
        parsed(s) is PowerOn || parsed(s) is PowerOff || parsed(s) is Presence ==> taken(parsed(s)) == 1,
        parsed(Seq::empty()) is Incomplete,
{
}

/// A transmission is read as it stands: the length of the command in four bytes, the command,
/// and the length of the answer in four bytes. Of more than 65544 bytes it is refused.
pub proof fn transmissions_carry_their_command(s: Seq<u8>)
    requires
        s.len() >= 5,
        s[0] == 3,
    ensures
        ({
            let n = s[1] * 0x100_0000 + s[2] * 0x1_0000 + s[3] * 0x100 + s[4];
            &&& n > 65_544 ==> parsed(s) is Close
            &&& n <= 65_544 && s.len() < 9 + n ==> parsed(s) is Incomplete
            &&& n <= 65_544 && s.len() >= 9 + n ==> (parsed(s) matches ParsedView::Transmit {
                apdu,
                recv_len,
            } && apdu == s.subrange(5, 5 + n) && recv_len == s[5 + n] * 0x100_0000 + s[6 + n]
                * 0x1_0000 + s[7 + n] * 0x100 + s[8 + n])
        }),
{
    crate::wire::numbers_are_big_endian(0, 0);
    let t = s.skip(1);
    assert(t[0] == s[1] && t[1] == s[2] && t[2] == s[3] && t[3] == s[4]);
    assert(read32(t) == s[1] * 0x100_0000 + s[2] * 0x1_0000 + s[3] * 0x100 + s[4]);
    let n = read32(t) as int;
    if n <= 65_544 && s.len() >= 9 + n {
        let u = s.skip(5 + n);
        assert(u[0] == s[5 + n] && u[1] == s[6 + n] && u[2] == s[7 + n] && u[3] == s[8 + n]);
        assert(read32(u) == u[0] * 0x100_0000 + u[1] * 0x1_0000 + u[2] * 0x100 + u[3]);
    }
}

/// A card's answer to reset goes out behind a zero and its length, or not at all where it is
/// longer than a byte can say.
pub proof fn resets_are_answered_with_their_length(atr: Seq<u8>)
    ensures
        atr.len() <= 255 ==> atr_reply(atr).len() == 2 + atr.len() && atr_reply(atr)[0] == 0
            && atr_reply(atr)[1] == atr.len() && atr_reply(atr).skip(2) == atr,
        atr.len() > 255 ==> atr_reply(atr) == seq![0u8, 0u8],
{
    if atr.len() <= 255 {
        assert(atr_reply(atr).skip(2) =~= atr);
    }
}

/// The answer to reset is that of the first reader that holds a card and reports one, as long
/// as it says.
pub proof fn the_first_card_answers(states: Seq<ReaderState>, i: int)
    requires
        0 <= i <= states.len(),
        forall|k: int|
            0 <= k < i ==> !has_card(#[trigger] states[k]) || states[k].atr_length == 0,
    ensures
        i < states.len() && has_card(states[i]) && 0 < states[i].atr_length <= states[i].atr@.len()
            ==> first_atr(states) == Some(states[i].atr@.take(states[i].atr_length as int)),
        i == states.len() ==> first_atr(states) is None,
    decreases i,
{
    if i > 0 {
        let rest = states.drop_first();
        assert(!has_card(states[0]) || states[0].atr_length == 0);
        assert forall|k: int| 0 <= k < i - 1 implies !has_card(#[trigger] rest[k])
            || rest[k].atr_length == 0 by {
            assert(rest[k] == states[k + 1]);
        }
        the_first_card_answers(rest, i - 1);
        if i < states.len() {
            assert(rest[i - 1] == states[i]);
        }
    }
}

/// What is known of the card holds for three tenths of a second.
pub proof fn presence_is_known_for_a_moment(s: SessionView, at: Instant, present: bool, now: Instant)
    requires
        s.presence_cache == Some((at, present)),
        now.nanos >= at.nanos,
    ensures
        now.nanos - at.nanos < 300_000_000 ==> remembered(s, now) == Some(present),
        now.nanos - at.nanos >= 300_000_000 ==> remembered(s, now) is None,
{
}

/// A card's answer goes out whole, behind a zero and its length; a failure goes out as a
/// single one, which no success begins with; and the card is there where the byte says one.
pub proof fn answers_are_told_from_failures(resp: Seq<u8>, atr: Seq<u8>, present: bool)
    requires
        resp.len() <= u32::MAX,
    ensures
        transmit_answer(Some(resp)).len() == 5 + resp.len(),
        transmit_answer(Some(resp))[0] == 0,
        crate::wire::read32(transmit_answer(Some(resp)).skip(1)) == resp.len(),
        transmit_answer(Some(resp)).skip(5) == resp,
        transmit_answer(None).len() == 1 && transmit_answer(None)[0] == 1,
        power_on_bytes(Some(atr))[0] == 0,
        atr.len() <= 255 ==> power_on_bytes(Some(atr)).skip(2) == atr,
        power_on_bytes(None).len() == 1 && power_on_bytes(None)[0] == 1,
        presence_bytes(present).len() == 1,
        presence_bytes(present)[0] == 1 <==> present,
        presence_bytes(present)[0] == 0 <==> !present,
{
    let a = transmit_answer(Some(resp));
    let h = be32(resp.len() as u32);
    crate::wire::numbers_are_big_endian(0, resp.len() as u32);
    let t = a.skip(1);
    assert(t[0] == h[0] && t[1] == h[1] && t[2] == h[2] && t[3] == h[3]);
    assert(a.skip(5) =~= resp);
    resets_are_answered_with_their_length(atr);
}

} // verus!

//! Decisions of the tick loop, the session handshake and the input path.
//!
//! The tick loop and the connection handlers do their I/O elsewhere; what to
//! do with each outcome is decided here, from plain values.
use vstd::prelude::*;
use vstd::string::StrSliceExecFns;

verus! {

/// Ticks per second.
pub const TICK_RATE_HZ: u64 = 30;

/// The length of one tick in microseconds.
pub const FRAME_PERIOD_MICROS: u64 = 33333;

/// Capacity of a session's outbound frame queue.
pub const OUTBOUND_CAPACITY: usize = 30;

/// Capacity of a session's input queue.
pub const INPUT_CAPACITY: usize = 100;

/// How long the loop sleeps after a tick that took `elapsed_micros`:
/// `max(0, FRAME_PERIOD_MICROS - elapsed_micros)`.
pub fn pacing_delay_micros(elapsed_micros: u64) -> (r: u64)
    ensures
        r == if elapsed_micros < FRAME_PERIOD_MICROS {
            FRAME_PERIOD_MICROS - elapsed_micros
        } else {
            0
        },
{
    if elapsed_micros < FRAME_PERIOD_MICROS {
        FRAME_PERIOD_MICROS - elapsed_micros
    } else {
        0
    }
}

// ------------------------------------------------------------------ input

/// A key event from a client.
#[derive(Clone, Copy, Debug, PartialEq, Eq)]
pub struct InputEvent {
    pub keycode: u8,
    pub is_down: bool,
}

/// Reads a client message as a key event: exactly two bytes, the key code and
/// a down flag (any non-zero byte is down). Anything else is ignored.
pub fn decode_input(data: &[u8]) -> (r: Option<InputEvent>)
    ensures
        r == if data@.len() == 2 {
            Some(InputEvent { keycode: data@[0], is_down: data@[1] != 0 })
        } else {
            None
        },
{
    if data.len() == 2 {
        Some(InputEvent { keycode: data[0], is_down: data[1] != 0 })
    } else {
        None
    }
}

/// The two bytes a client sends for a key event: the low byte of the key code
/// and `1` for down, `0` for up.
pub fn encode_input(key_code: u32, is_down: bool) -> (r: Vec<u8>)
    ensures
        r@ == seq![(key_code % 256) as u8, if is_down { 1u8 } else { 0u8 }],
{
    let mut r: Vec<u8> = Vec::new();
    r.push((key_code % 256) as u8);
    r.push(if is_down { 1u8 } else { 0u8 });
    assert(r@ =~= seq![(key_code % 256) as u8, if is_down { 1u8 } else { 0u8 }]);
    r
}

// -------------------------------------------------------------- handshake

/// The largest number of characters of a requested session id.
pub const MAX_SESSION_ID_LEN: usize = 64;

/// A character allowed in a session id: an ASCII letter or digit, `-` or `_`
/// (what a UUID or a short token is made of).
pub open spec fn id_char(c: char) -> bool {
    ('0' <= c <= '9') || ('a' <= c <= 'z') || ('A' <= c <= 'Z') || c == '-' || c == '_'
}

/// A well-formed requested session id: 1 to `MAX_SESSION_ID_LEN` characters,
/// each an `id_char`.
pub open spec fn id_well_formed(s: Seq<char>) -> bool {
    &&& 1 <= s.len() <= MAX_SESSION_ID_LEN
    &&& forall|i: int| 0 <= i < s.len() ==> id_char(#[trigger] s[i])
}

/// The session id a connection gets: the one it asked for when that is well
/// formed, else the freshly minted one. A requested id is taken as given even
/// when another session already uses it.
pub open spec fn chosen_id(requested: Option<Seq<char>>, fresh: Seq<char>) -> Seq<char> {
    match requested {
        Some(s) => if id_well_formed(s) {
            s
        } else {
            fresh
        },
        None => fresh,
    }
}

pub open spec fn option_view(o: Option<String>) -> Option<Seq<char>> {
    match o {
        Some(s) => Some(s@),
        None => None,
    }
}

/// Tests `id_well_formed`.
pub fn session_id_well_formed(s: &str) -> (r: bool)
    ensures
        r == id_well_formed(s@),
{
    let n = s.unicode_len();
    if n == 0 || n > MAX_SESSION_ID_LEN {
        return false;
    }
    let mut i: usize = 0;
    while i < n
        invariant
            n == s@.len(),
            i <= n,
            forall|j: int| 0 <= j < i ==> id_char(#[trigger] s@[j]),
        decreases n - i,
    {
        let c = s.get_char(i);
        if !(('0' <= c && c <= '9') || ('a' <= c && c <= 'z') || ('A' <= c && c <= 'Z') || c == '-'
            || c == '_') {
            return false;
        }
        i += 1;
    }
    true
}

pub fn choose_session_id(requested: Option<String>, fresh: String) -> (r: String)
    ensures
        r@ == chosen_id(option_view(requested), fresh@),
{
    match requested {
        Some(s) => if session_id_well_formed(s.as_str()) {
            s
        } else {
            fresh
        },
        None => fresh,
    }
}

/// What a connection handler does once the WebSocket is up, in order.
pub enum HandshakeStep {
    /// Send the WELCOME message, as text.
    SendWelcome { session_id: String, server_instance_id: String },
    /// Hand the session to the tick loop, which then starts sending frames.
    JoinTickLoop { session_id: String },
}

/// The handshake of a new connection: first WELCOME, then joining the tick
/// loop. No frame can reach a session before it has joined, so WELCOME is the
/// first message on every WebSocket.
pub fn handshake(requested: Option<String>, fresh: String, server_instance_id: String) -> (r: Vec<
    HandshakeStep,
>)
    ensures
        r@.len() == 2,
        r@[0] matches HandshakeStep::SendWelcome { session_id, server_instance_id: sid }
            && session_id@ == chosen_id(option_view(requested), fresh@) && sid@
            == server_instance_id@,
        r@[1] matches HandshakeStep::JoinTickLoop { session_id } && session_id@ == chosen_id(
            option_view(requested),
            fresh@,
        ),
{
    let id = choose_session_id(requested, fresh);
    let id2 = id.clone();
    let mut r: Vec<HandshakeStep> = Vec::new();
    r.push(HandshakeStep::SendWelcome { session_id: id, server_instance_id });
    r.push(HandshakeStep::JoinTickLoop { session_id: id2 });
    r
}

// --------------------------------------------------------------- registry

/// What happened when the loop drained a session's input queue.
#[derive(Clone, Copy, Debug, PartialEq, Eq)]
pub enum InputStatus {
    /// The queue is empty for now.
    Drained,
    /// The sending side is gone: the client disconnected.
    Disconnected,
}

/// What happened when the loop offered a session this tick's frame.
#[derive(Clone, Copy, Debug, PartialEq, Eq)]
pub enum SendOutcome {
    /// The frame was queued.
    Sent,
    /// The queue was full; this tick's frame is dropped for this session.
    Full,
    /// The queue is closed: the session is gone.
    Closed,
    /// The logic host produced no frame for this session this tick.
    NoFrame,
}

/// A session stays after its inputs were drained unless it disconnected.
pub open spec fn stays_after_inputs(s: InputStatus) -> bool {
    s is Drained
}

/// A session stays after dispatch unless its queue was closed; a full queue
/// never removes a session.
pub open spec fn stays_after_send(o: SendOutcome) -> bool {
    !(o is Closed)
}

/// Which sessions stay after dispatch, by outcome.
pub open spec fn send_flags(outcomes: Seq<SendOutcome>) -> Seq<bool> {
    outcomes.map_values(|o: SendOutcome| stays_after_send(o))
}

/// Which sessions stay after their inputs were drained, by status.
pub open spec fn input_flags(statuses: Seq<InputStatus>) -> Seq<bool> {
    statuses.map_values(|s: InputStatus| stays_after_inputs(s))
}

/// The flags of `send_flags`, for `Registry::retain_flagged`.
pub fn dispatch_keep(outcomes: &Vec<SendOutcome>) -> (r: Vec<bool>)
    ensures
        r@ == send_flags(outcomes@),
{
    let mut r: Vec<bool> = Vec::new();
    let mut i: usize = 0;
    while i < outcomes.len()
        invariant
            i <= outcomes@.len(),
            r@ == send_flags(outcomes@.subrange(0, i as int)),
        decreases outcomes@.len() - i,
    {
        let o = outcomes[i];
        r.push(!matches!(o, SendOutcome::Closed));
        i += 1;
        assert(r@ =~= send_flags(outcomes@.subrange(0, i as int)));
    }
    assert(outcomes@.subrange(0, outcomes@.len() as int) =~= outcomes@);
    r
}

/// The flags of `input_flags`, for `Registry::retain_flagged`.
pub fn inputs_keep(statuses: &Vec<InputStatus>) -> (r: Vec<bool>)
    ensures
        r@ == input_flags(statuses@),
{
    let mut r: Vec<bool> = Vec::new();
    let mut i: usize = 0;
    while i < statuses.len()
        invariant
            i <= statuses@.len(),
            r@ == input_flags(statuses@.subrange(0, i as int)),
        decreases statuses@.len() - i,
    {
        let st = statuses[i];
        r.push(matches!(st, InputStatus::Drained));
        i += 1;
        assert(r@ =~= input_flags(statuses@.subrange(0, i as int)));
    }
    assert(statuses@.subrange(0, statuses@.len() as int) =~= statuses@);
    r
}

/// The elements of `s[..n]` whose flag in `keep` is set, in order.
pub open spec fn kept<A>(s: Seq<A>, keep: Seq<bool>, n: int) -> Seq<A>
    decreases n,
{
    if n <= 0 {
        Seq::empty()
    } else if keep[n - 1] {
        kept(s, keep, n - 1).push(s[n - 1])
    } else {
        kept(s, keep, n - 1)
    }
}

/// A connected session as the tick loop holds it: its id and the handles the
/// loop talks to it through.
pub struct Session<T> {
    pub id: String,
    pub link: T,
}

/// The sessions the tick loop serves, in order of arrival.
pub struct Registry<T> {
    sessions: Vec<Session<T>>,
}

impl<T> Registry<T> {
    pub closed spec fn sessions(&self) -> Seq<Session<T>> {
        self.sessions@
    }

    pub fn new() -> (r: Self)
        ensures
            r.sessions() == Seq::<Session<T>>::empty(),
    {
        Registry { sessions: Vec::new() }
    }

    pub fn len(&self) -> (r: usize)
        ensures
            r == self.sessions().len(),
    {
        self.sessions.len()
    }

    pub fn session(&self, i: usize) -> (r: &Session<T>)
        requires
            i < self.sessions().len(),
        ensures
            *r == self.sessions()[i as int],
    {
        &self.sessions[i]
    }

    pub fn session_mut(&mut self, i: usize) -> (r: &mut T)
        requires
            i < old(self).sessions().len(),
        ensures
            *r == old(self).sessions()[i as int].link,
            final(self).sessions() == old(self).sessions().update(
                i as int,
                Session { id: old(self).sessions()[i as int].id, link: *final(r) },
            ),
    {
        &mut self.sessions[i].link
    }

    /// Adds a session that completed its handshake.
    pub fn join(&mut self, id: String, link: T)
        ensures
            final(self).sessions() == old(self).sessions().push(Session { id, link }),
    {
        self.sessions.push(Session { id, link });
    }

    /// Keeps the sessions whose flag is set, in order, and hands back the
    /// others, in order.
    pub fn retain_flagged(&mut self, keep: &Vec<bool>) -> (removed: Vec<Session<T>>)
        requires
            keep@.len() == old(self).sessions().len(),
        ensures
            final(self).sessions() == kept(old(self).sessions(), keep@, keep@.len() as int),
            removed@ == kept(
                old(self).sessions(),
                keep@.map_values(|b: bool| !b),
                keep@.len() as int,
            ),
    {
        let ghost orig = self.sessions@;
        let ghost drop = keep@.map_values(|b: bool| !b);
        let mut rest: Vec<Session<T>> = Vec::new();
        std::mem::swap(&mut rest, &mut self.sessions);
        assert(rest@ == orig);
        let mut stay: Vec<Session<T>> = Vec::new();
        let mut gone: Vec<Session<T>> = Vec::new();
        let n = keep.len();
        let mut i: usize = 0;
        while i < n
            invariant
                n == keep@.len(),
                n == orig.len(),
                i <= n,
                drop == keep@.map_values(|b: bool| !b),
                rest@ == orig.subrange(i as int, n as int),
                stay@ == kept(orig, keep@, i as int),
                gone@ == kept(orig, drop, i as int),
            decreases n - i,
        {
            let s = rest.remove(0);
            assert(s == orig[i as int]);
            assert(rest@ =~= orig.subrange(i + 1, n as int));
            if keep[i] {
                stay.push(s);
            } else {
                gone.push(s);
            }
            i += 1;
        }
        self.sessions = stay;
        gone
    }
}

/// After every session was offered its frame and those with a closed queue
/// were removed, each remaining session got this tick's frame queued, found
/// its queue full, or had no frame from the logic host: there is no other
/// outcome, and none of them removes a session.
pub proof fn lemma_dispatch_survivors(outcomes: Seq<SendOutcome>, n: int)
    requires
        0 <= n <= outcomes.len(),
    ensures
        forall|j: int|
            0 <= j < kept(outcomes, send_flags(outcomes), n).len()
                ==> {
                let o = #[trigger] kept(
                    outcomes,
                    send_flags(outcomes),
                    n,
                )[j];
                o is Sent || o is Full || o is NoFrame
            },
    decreases n,
{
    if n > 0 {
        lemma_dispatch_survivors(outcomes, n - 1);
    }
}

} // verus!

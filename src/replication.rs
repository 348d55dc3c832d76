//! The replica's side of the replication handshake, as a state machine: each
//! reply of the primary moves it on and names the next request to send.
//!
//! The steps: PING, awaiting PONG; `REPLCONF listening-port <port>`, awaiting
//! OK; `REPLCONF capa psync2`, awaiting OK; `PSYNC ? -1`, awaiting
//! `FULLRESYNC <replid> <offset>`.
use crate::command::full_resync_text;
use crate::info::{is_alphanumeric, is_replid};
use crate::resp::{Frame, RespIn, RespOut};
use crate::text::{
    ascii_chars, decimal, is_digit, lemma_decimal_digits, decimal_string, eq_ignore_ascii_case, equals_ascii_case_insensitive,
    starts_with_ascii_case_insensitive, starts_with_ignore_ascii_case, str_equal,
};
use vstd::prelude::*;

verus! {

broadcast use vstd::seq::group_seq_axioms;

/// What the replica waits for.
#[derive(PartialEq, Eq, Structural, Clone, Copy, Debug)]
pub enum HandshakeState {
    AwaitingPong,
    AwaitingPortAck,
    AwaitingCapaAck,
    AwaitingFullResync,
    Synced,
}

/// What to do after a reply: send the next request, or stop, synced, with the
/// primary's replication id and offset.
pub enum HandshakeStep {
    Send(RespIn),
    Done(String, String),
}

/// The model of a [`HandshakeStep`].
pub enum StepModel {
    Send(Seq<Seq<char>>),
    Done(Seq<char>, Seq<char>),
}

impl View for HandshakeStep {
    type V = StepModel;

    open spec fn view(&self) -> StepModel {
        match self {
            HandshakeStep::Send(req) => StepModel::Send(req@),
            HandshakeStep::Done(id, offset) => StepModel::Done(id@, offset@),
        }
    }
}

/// The primary's reply was not the one the handshake waits for.
pub struct HandshakeError {
    /// What was expected.
    pub expected: String,
}

impl HandshakeError {
    pub fn message(&self) -> (r: String)
        ensures
            r@ == "expected "@ + self.expected@,
    {
        let mut r = String::from_str("expected ");
        r.append(self.expected.as_str());
        r
    }
}

/// Whether a character is white space, as `char::is_whitespace` has it (the
/// Unicode `White_Space` property).
pub open spec fn is_whitespace(c: char) -> bool {
    ||| '\t' <= c <= '\r'
    ||| c == ' '
    ||| c == '\u{85}'
    ||| c == '\u{a0}'
    ||| c == '\u{1680}'
    ||| '\u{2000}' <= c <= '\u{200a}'
    ||| c == '\u{2028}'
    ||| c == '\u{2029}'
    ||| c == '\u{202f}'
    ||| c == '\u{205f}'
    ||| c == '\u{3000}'
}

/// The first position at or after `i` that does not hold white space.
pub open spec fn skip_whitespace(s: Seq<char>, i: int) -> int
    decreases s.len() - i,
{
    if 0 <= i < s.len() && is_whitespace(s[i]) {
        skip_whitespace(s, i + 1)
    } else {
        i
    }
}

/// The first position at or after `i` that holds white space, or the end.
pub open spec fn token_end(s: Seq<char>, i: int) -> int
    decreases s.len() - i,
{
    if 0 <= i < s.len() && !is_whitespace(s[i]) {
        token_end(s, i + 1)
    } else {
        i
    }
}

/// The next run of non-white-space characters from `i`, and where it ends.
pub open spec fn next_token(s: Seq<char>, i: int) -> Option<(Seq<char>, int)> {
    let a = skip_whitespace(s, i);
    if a < s.len() {
        Some((s.subrange(a, token_end(s, a)), token_end(s, a)))
    } else {
        None
    }
}

/// The text that a `FULLRESYNC` reply begins with, its space included.
pub open spec fn full_resync_prefix() -> Seq<char> {
    "FULLRESYNC "@
}

/// The replication id and offset of a `FULLRESYNC <replid> <offset>` reply: it
/// begins with `FULLRESYNC ` exactly, and the next two white-space separated
/// words after that are the id and the offset.
pub open spec fn full_resync(s: Seq<char>) -> Option<(Seq<char>, Seq<char>)> {
    let n = full_resync_prefix().len() as int;
    if n <= s.len() && s.subrange(0, n) == full_resync_prefix() {
        match next_token(s, n) {
            Some((id, q)) => match next_token(s, q) {
                Some((offset, _)) => Some((id, offset)),
                None => None,
            },
            None => None,
        }
    } else {
        None
    }
}

/// A simple string that begins with `PONG`, in any case.
pub open spec fn is_pong(f: Frame) -> bool {
    f matches Frame::Simple(s) && starts_with_ignore_ascii_case(s, "PONG"@)
}

/// The simple string `OK`, in any case.
pub open spec fn is_ok(f: Frame) -> bool {
    f matches Frame::Simple(s) && eq_ignore_ascii_case(s, "OK"@)
}

pub open spec fn listening_port_request(port: u16) -> Seq<Seq<char>> {
    seq!["REPLCONF"@, "listening-port"@, ascii_chars(decimal(port as nat))]
}

pub open spec fn capa_request() -> Seq<Seq<char>> {
    seq!["REPLCONF"@, "capa"@, "psync2"@]
}

pub open spec fn psync_request() -> Seq<Seq<char>> {
    seq!["PSYNC"@, "?"@, "-1"@]
}

/// Where the handshake goes on a reply `f` in `state`, for a replica that
/// listens on `port`; `None` when the reply is not the awaited one.
pub open spec fn step(state: HandshakeState, f: Frame, port: u16) -> Option<
    (HandshakeState, StepModel),
> {
    match state {
        HandshakeState::AwaitingPong => if is_pong(f) {
            Some(
                (HandshakeState::AwaitingPortAck, StepModel::Send(listening_port_request(port))),
            )
        } else {
            None
        },
        HandshakeState::AwaitingPortAck => if is_ok(f) {
            Some((HandshakeState::AwaitingCapaAck, StepModel::Send(capa_request())))
        } else {
            None
        },
        HandshakeState::AwaitingCapaAck => if is_ok(f) {
            Some((HandshakeState::AwaitingFullResync, StepModel::Send(psync_request())))
        } else {
            None
        },
        HandshakeState::AwaitingFullResync => match f {
            Frame::Simple(s) => match full_resync(s) {
                Some((id, offset)) => Some((HandshakeState::Synced, StepModel::Done(id, offset))),
                None => None,
            },
            _ => None,
        },
        HandshakeState::Synced => None,
    }
}

fn request(parts: Vec<String>) -> (r: RespIn)
    ensures
        r@ == parts@.map_values(|s: String| s@),
{
    RespIn::Array(parts)
}

/// The first request of the handshake, PING, and the state that awaits its reply.
pub fn handshake_start() -> (r: (HandshakeState, RespIn))
    ensures
        r.0 == HandshakeState::AwaitingPong,
        r.1@ == seq!["PING"@],
{
    let r = request(vec![String::from_str("PING")]);
    assert(r@ =~= seq!["PING"@]);
    (HandshakeState::AwaitingPong, r)
}

fn is_whitespace_char(c: char) -> (r: bool)
    ensures
        r == is_whitespace(c),
{
    ('\t' <= c && c <= '\r') || c == ' ' || c == '\u{85}' || c == '\u{a0}' || c == '\u{1680}' || (
    '\u{2000}' <= c && c <= '\u{200a}') || c == '\u{2028}' || c == '\u{2029}' || c == '\u{202f}'
        || c == '\u{205f}' || c == '\u{3000}'
}

/// The next word of `s` from position `from`, and where it ends.
fn next_word(s: &str, from: usize) -> (r: Option<(String, usize)>)
    requires
        from <= s@.len(),
    ensures
        match next_token(s@, from as int) {
            Some((t, p)) => r matches Some((w, q)) && w@ == t && q == p,
            None => r is None,
        },
        r matches Some((_, q)) ==> q <= s@.len(),
{
    let n = s.unicode_len();
    let mut a = from;
    while a < n
        invariant
            n == s@.len(),
            from <= a <= n,
            skip_whitespace(s@, from as int) == skip_whitespace(s@, a as int),
        ensures
            from <= a <= n,
            skip_whitespace(s@, from as int) == a,
        decreases n - a,
    {
        if !is_whitespace_char(s.get_char(a)) {
            break;
        }
        a = a + 1;
    }
    if a >= n {
        return None;
    }
    let mut b = a;
    while b < n
        invariant
            n == s@.len(),
            a <= b <= n,
            token_end(s@, a as int) == token_end(s@, b as int),
        ensures
            a <= b <= n,
            token_end(s@, a as int) == b,
        decreases n - b,
    {
        if is_whitespace_char(s.get_char(b)) {
            break;
        }
        b = b + 1;
    }
    let word = String::from_str(s.substring_char(a, b));
    Some((word, b))
}

/// Checks that a reply is a simple string that equals `expected` up to ASCII
/// case, or, with `prefix`, begins with it.
pub fn expect_simple(res: &RespOut, expected: &str, prefix: bool) -> (r: Result<(), HandshakeError>)
    ensures
        r is Ok <==> (res@ matches Frame::Simple(s) && if prefix {
            starts_with_ignore_ascii_case(s, expected@)
        } else {
            eq_ignore_ascii_case(s, expected@)
        }),
{
    let matched = match res {
        RespOut::SimpleString(s) => if prefix {
            starts_with_ascii_case_insensitive(s.as_str(), expected)
        } else {
            equals_ascii_case_insensitive(s.as_str(), expected)
        },
        _ => false,
    };
    if matched {
        Ok(())
    } else {
        Err(HandshakeError { expected: String::from_str(expected) })
    }
}

/// Reads the replication id and offset from a `FULLRESYNC <replid> <offset>` reply.
pub fn expect_full_resync(res: &RespOut) -> (r: Result<(String, String), HandshakeError>)
    ensures
        match res@ {
            Frame::Simple(s) => match full_resync(s) {
                Some((id, offset)) => r matches Ok((i, o)) && i@ == id && o@ == offset,
                None => r is Err,
            },
            _ => r is Err,
        },
{
    let s = match res {
        RespOut::SimpleString(s) => s.as_str(),
        _ => {
            return Err(HandshakeError { expected: String::from_str("a simple string") });
        },
    };
    let prefix = "FULLRESYNC ";
    let p = prefix.unicode_len();
    if s.unicode_len() < p || !str_equal(s.substring_char(0, p), prefix) {
        return Err(HandshakeError { expected: String::from_str("FULLRESYNC") });
    }
    let (id, q) = match next_word(s, p) {
        Some(w) => w,
        None => {
            return Err(HandshakeError { expected: String::from_str("a replication id") });
        },
    };
    let (offset, _) = match next_word(s, q) {
        Some(w) => w,
        None => {
            return Err(HandshakeError { expected: String::from_str("an offset") });
        },
    };
    Ok((id, offset))
}

/// Moves the handshake on by the primary's reply `res`, for a replica that
/// listens on `port`.
pub fn handshake_step(state: HandshakeState, res: &RespOut, port: u16) -> (r: Result<
    (HandshakeState, HandshakeStep),
    HandshakeError,
>)
    ensures
        match step(state, res@, port) {
            Some((next, action)) => r matches Ok((s, a)) && s == next && a@ == action,
            None => r is Err,
        },
{
    match state {
        HandshakeState::AwaitingPong => match expect_simple(res, "PONG", true) {
            Ok(()) => {
                let digits = decimal_string(port as u64);
                let req = request(
                    vec![String::from_str("REPLCONF"), String::from_str("listening-port"), digits],
                );
                assert(req@ =~= listening_port_request(port));
                Ok((HandshakeState::AwaitingPortAck, HandshakeStep::Send(req)))
            },
            Err(e) => Err(e),
        },
        HandshakeState::AwaitingPortAck => match expect_simple(res, "OK", false) {
            Ok(()) => {
                let req = request(
                    vec![
                        String::from_str("REPLCONF"),
                        String::from_str("capa"),
                        String::from_str("psync2"),
                    ],
                );
                assert(req@ =~= capa_request());
                Ok((HandshakeState::AwaitingCapaAck, HandshakeStep::Send(req)))
            },
            Err(e) => Err(e),
        },
        HandshakeState::AwaitingCapaAck => match expect_simple(res, "OK", false) {
            Ok(()) => {
                let req = request(
                    vec![String::from_str("PSYNC"), String::from_str("?"), String::from_str("-1")],
                );
                assert(req@ =~= psync_request());
                Ok((HandshakeState::AwaitingFullResync, HandshakeStep::Send(req)))
            },
            Err(e) => Err(e),
        },
        HandshakeState::AwaitingFullResync => match expect_full_resync(res) {
            Ok((id, offset)) => Ok((HandshakeState::Synced, HandshakeStep::Done(id, offset))),
            Err(e) => Err(e),
        },
        HandshakeState::Synced => Err(HandshakeError { expected: String::from_str("no reply") }),
    }
}

/// A primary that answers PONG, OK, OK and then FULLRESYNC with an id and an
/// offset takes the replica through PING, `REPLCONF listening-port <port>`,
/// `REPLCONF capa psync2` and `PSYNC ? -1`, in that order, after which it is
/// synced and sends nothing more.
pub proof fn lemma_handshake_sequence(port: u16, pong: Frame, ok1: Frame, ok2: Frame, resync: Frame)
    requires
        is_pong(pong),
        is_ok(ok1),
        is_ok(ok2),
        resync matches Frame::Simple(s) && full_resync(s) is Some,
    ensures
        step(HandshakeState::AwaitingPong, pong, port) == Some(
            (HandshakeState::AwaitingPortAck, StepModel::Send(listening_port_request(port))),
        ),
        step(HandshakeState::AwaitingPortAck, ok1, port) == Some(
            (HandshakeState::AwaitingCapaAck, StepModel::Send(capa_request())),
        ),
        step(HandshakeState::AwaitingCapaAck, ok2, port) == Some(
            (HandshakeState::AwaitingFullResync, StepModel::Send(psync_request())),
        ),
        step(HandshakeState::AwaitingFullResync, resync, port) matches Some((s, a)) && s
            == HandshakeState::Synced && a is Done,
        forall|f: Frame| step(HandshakeState::Synced, f, port) is None,
{
}

/// A run of non-white-space characters from `i` up to white space or the end
/// at `j` is one word.
proof fn lemma_token_end(s: Seq<char>, i: int, j: int)
    requires
        0 <= i <= j <= s.len(),
        forall|t: int| i <= t < j ==> !is_whitespace(#[trigger] s[t]),
        j == s.len() || is_whitespace(s[j]),
    ensures
        token_end(s, i) == j,
    decreases j - i,
{
    if i < j {
        lemma_token_end(s, i + 1, j);
    }
}

/// The reply that a primary gives to PSYNC is one that the handshake accepts,
/// and the handshake reads back the primary's replication id and offset.
pub proof fn lemma_full_resync_accepted(id: Seq<char>, offset: u64)
    requires
        is_replid(id),
    ensures
        full_resync(full_resync_text(id, offset)) == Some((id, ascii_chars(decimal(offset as nat)))),
{
    let digits = ascii_chars(decimal(offset as nat));
    let s = full_resync_text(id, offset);
    reveal_strlit("FULLRESYNC ");
    reveal_strlit(" ");
    lemma_decimal_digits(offset as nat);
    let a = 11int;
    let b = a + id.len();
    assert(s.len() == b + 1 + digits.len());
    assert(s.subrange(0, a) =~= full_resync_prefix());
    assert forall|t: int| a <= t < b implies !is_whitespace(#[trigger] s[t]) by {
        assert(s[t] == id[t - a]);
        assert(is_alphanumeric(id[t - a]));
    }
    assert(skip_whitespace(s, a) == a);
    assert(is_whitespace(s[b]));
    lemma_token_end(s, a, b);
    assert(s.subrange(a, b) =~= id);
    assert forall|t: int| b + 1 <= t < s.len() implies !is_whitespace(#[trigger] s[t]) by {
        assert(s[t] == digits[t - b - 1]);
        assert(is_digit(decimal(offset as nat)[t - b - 1]));
    }
    assert(skip_whitespace(s, b + 1) == b + 1);
    assert(skip_whitespace(s, b) == b + 1);
    lemma_token_end(s, b + 1, s.len() as int);
    assert(s.subrange(b + 1, s.len() as int) =~= digits);
}

} // verus!

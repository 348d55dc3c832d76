//! The command dispatcher: reads a request's arguments into a command, runs it
//! against the store and the server identity, and gives the responses.
use crate::data::{lookup, Data, Entry};
use crate::file::{construct_rdb_file, EMPTY_RDB};
use crate::info::{
    contains_text, info_all, info_text, lemma_info_all_covers_section, present_sections,
    section_text, Info,
};
use crate::resp::{
    encode_items, frames_of, lemma_frames_of, parse_input, request_of, serialize_all, Frame,
    RespIn, RespOut,
};
use crate::text::{
    ascii_chars, decimal, decimal_string, eq_ignore_ascii_case, equals_ascii_case_insensitive,
    join, parse_u64, parse_u64_bytes,
};
use vstd::prelude::*;
use vstd::utf8::encode_utf8;

verus! {

broadcast use vstd::seq::group_seq_axioms;

/// A cursor over the arguments of a request; the command's name is argument 0.
pub struct Args {
    items: Vec<String>,
    pos: usize,
}

impl View for Args {
    /// The arguments, and the position of the next one to read.
    type V = (Seq<Seq<char>>, int);

    closed spec fn view(&self) -> (Seq<Seq<char>>, int) {
        (self.items@.map_values(|s: String| s@), self.pos as int)
    }
}

impl Args {
    pub fn new(items: Vec<String>) -> (r: Args)
        ensures
            r@ == (items@.map_values(|s: String| s@), 0int),
    {
        Args { items, pos: 0 }
    }

    /// The next argument, or which one is missing.
    pub fn next(&mut self) -> (r: Result<String, CommandError>)
        ensures
            final(self)@.0 == old(self)@.0,
            old(self)@.1 < old(self)@.0.len() ==> (r matches Ok(s) && s@ == old(self)@.0[old(
                self,
            )@.1] && final(self)@.1 == old(self)@.1 + 1),
            old(self)@.1 >= old(self)@.0.len() ==> (r matches Err(e) && e@
                == Rejection::MissingArgument(old(self)@.1 as nat) && final(self)@ == old(self)@),
    {
        let pos = self.pos;
        if self.items.len() <= pos {
            return Err(CommandError::MissingArgument(pos));
        }
        let res = self.items[pos].clone();
        self.pos = pos + 1;
        Ok(res)
    }

    pub fn has_next(&self) -> (r: bool)
        ensures
            r == (self@.1 < self@.0.len()),
    {
        self.items.len() > self.pos
    }
}

/// Why a command was refused.
pub enum CommandError {
    UnknownCommand(String),
    /// The request ended before the argument at this position.
    MissingArgument(usize),
    UnknownOption(String),
    InvalidInteger(String),
    /// PSYNC needs a replication id, which only a primary has.
    NotPrimary,
}

/// The model of a [`CommandError`].
pub enum Rejection {
    UnknownCommand(Seq<char>),
    MissingArgument(nat),
    UnknownOption(Seq<char>),
    InvalidInteger(Seq<char>),
    NotPrimary,
}

impl View for CommandError {
    type V = Rejection;

    open spec fn view(&self) -> Rejection {
        match self {
            CommandError::UnknownCommand(s) => Rejection::UnknownCommand(s@),
            CommandError::MissingArgument(n) => Rejection::MissingArgument(*n as nat),
            CommandError::UnknownOption(s) => Rejection::UnknownOption(s@),
            CommandError::InvalidInteger(s) => Rejection::InvalidInteger(s@),
            CommandError::NotPrimary => Rejection::NotPrimary,
        }
    }
}

pub open spec fn error_message(e: Rejection) -> Seq<char> {
    match e {
        Rejection::UnknownCommand(c) => "unknown command: "@ + c,
        Rejection::MissingArgument(n) => "missing argument number "@ + ascii_chars(decimal(n)),
        Rejection::UnknownOption(o) => "unknown option: "@ + o,
        Rejection::InvalidInteger(s) => "not an unsigned integer: "@ + s,
        Rejection::NotPrimary => "only a primary serves PSYNC"@,
    }
}

pub open spec fn error_frame(e: Rejection) -> Frame {
    Frame::Error(error_message(e))
}

impl CommandError {
    pub fn message(&self) -> (r: String)
        ensures
            r@ == error_message(self@),
    {
        match self {
            CommandError::UnknownCommand(c) => {
                let mut r = String::from_str("unknown command: ");
                r.append(c.as_str());
                r
            },
            CommandError::MissingArgument(n) => {
                let mut r = String::from_str("missing argument number ");
                let digits = decimal_string(*n as u64);
                r.append(digits.as_str());
                r
            },
            CommandError::UnknownOption(o) => {
                let mut r = String::from_str("unknown option: ");
                r.append(o.as_str());
                r
            },
            CommandError::InvalidInteger(s) => {
                let mut r = String::from_str("not an unsigned integer: ");
                r.append(s.as_str());
                r
            },
            CommandError::NotPrimary => String::from_str("only a primary serves PSYNC"),
        }
    }

    /// The error response that reports this refusal.
    pub fn response(&self) -> (r: RespOut)
        ensures
            r@ == error_frame(self@),
    {
        RespOut::Error(self.message())
    }
}

/// A command with its arguments read.
pub enum Command {
    Ping,
    Echo(String),
    Get(String),
    /// Key, value and time to live in milliseconds.
    SetValue(String, String, Option<u64>),
    /// The section names asked for.
    Info(Vec<String>),
    Replconf,
    Psync,
}

/// The model of a [`Command`].
pub enum Request {
    Ping,
    Echo(Seq<char>),
    Get(Seq<char>),
    SetValue(Seq<char>, Seq<char>, Option<u64>),
    Info(Seq<Seq<char>>),
    Replconf,
    Psync,
}

impl View for Command {
    type V = Request;

    open spec fn view(&self) -> Request {
        match self {
            Command::Ping => Request::Ping,
            Command::Echo(s) => Request::Echo(s@),
            Command::Get(k) => Request::Get(k@),
            Command::SetValue(k, v, px) => Request::SetValue(k@, v@, *px),
            Command::Info(names) => Request::Info(names@.map_values(|s: String| s@)),
            Command::Replconf => Request::Replconf,
            Command::Psync => Request::Psync,
        }
    }
}

impl Command {
    /// Whether running the command writes to the store.
    pub fn writes_store(&self) -> (r: bool)
        ensures
            r == (self@ is SetValue),
    {
        match self {
            Command::SetValue(_, _, _) => true,
            _ => false,
        }
    }
}

/// The options after SET's key and value, from position `i` on: each `PX` (any
/// case) takes the next argument as milliseconds, and the last one counts.
pub open spec fn set_options(args: Seq<Seq<char>>, i: int, px: Option<u64>) -> Result<
    Option<u64>,
    Rejection,
>
    decreases args.len() - i,
{
    if i >= args.len() {
        Ok(px)
    } else if eq_ignore_ascii_case(args[i], "PX"@) {
        if i + 1 < args.len() {
            match parse_u64(encode_utf8(args[i + 1])) {
                Some(ms) => set_options(args, i + 2, Some(ms)),
                None => Err(Rejection::InvalidInteger(args[i + 1])),
            }
        } else {
            Err(Rejection::MissingArgument((i + 1) as nat))
        }
    } else {
        Err(Rejection::UnknownOption(args[i]))
    }
}

/// The command that a request's arguments name, compared without regard to
/// ASCII case; arguments past the ones a command reads are ignored.
pub open spec fn command_of(args: Seq<Seq<char>>) -> Result<Request, Rejection> {
    if args.len() == 0 {
        Err(Rejection::MissingArgument(0))
    } else {
        let name = args[0];
        if eq_ignore_ascii_case(name, "PING"@) {
            Ok(Request::Ping)
        } else if eq_ignore_ascii_case(name, "ECHO"@) {
            if args.len() >= 2 {
                Ok(Request::Echo(args[1]))
            } else {
                Err(Rejection::MissingArgument(1))
            }
        } else if eq_ignore_ascii_case(name, "GET"@) {
            if args.len() >= 2 {
                Ok(Request::Get(args[1]))
            } else {
                Err(Rejection::MissingArgument(1))
            }
        } else if eq_ignore_ascii_case(name, "SET"@) {
            if args.len() < 2 {
                Err(Rejection::MissingArgument(1))
            } else if args.len() < 3 {
                Err(Rejection::MissingArgument(2))
            } else {
                match set_options(args, 3, None) {
                    Ok(px) => Ok(Request::SetValue(args[1], args[2], px)),
                    Err(e) => Err(e),
                }
            }
        } else if eq_ignore_ascii_case(name, "INFO"@) {
            Ok(Request::Info(args.subrange(1, args.len() as int)))
        } else if eq_ignore_ascii_case(name, "REPLCONF"@) {
            Ok(Request::Replconf)
        } else if eq_ignore_ascii_case(name, "PSYNC"@) {
            Ok(Request::Psync)
        } else {
            Err(Rejection::UnknownCommand(name))
        }
    }
}

/// The first reply to PSYNC: `FULLRESYNC <replid> <offset>`.
pub open spec fn full_resync_text(id: Seq<char>, offset: u64) -> Seq<char> {
    "FULLRESYNC "@ + id + " "@ + ascii_chars(decimal(offset as nat))
}

/// The responses to a command run against the entries `m` at `now`.
pub open spec fn outcome(cmd: Request, m: Map<Seq<char>, Entry>, info: Info, now: u64) -> Result<
    Seq<Frame>,
    Rejection,
> {
    match cmd {
        Request::Ping => Ok(seq![Frame::Simple("PONG"@)]),
        Request::Echo(s) => Ok(seq![Frame::Bulk(s)]),
        Request::Get(k) => Ok(
            seq![
                match lookup(m, k, now) {
                    Some(v) => Frame::Bulk(v),
                    None => Frame::Null,
                },
            ],
        ),
        Request::SetValue(_, _, _) => Ok(seq![Frame::Simple("OK"@)]),
        Request::Info(names) => Ok(
            seq![
                Frame::Bulk(
                    if names.len() == 0 {
                        info_all(info)
                    } else {
                        info_text(info, names)
                    },
                ),
            ],
        ),
        Request::Replconf => Ok(seq![Frame::Simple("OK"@)]),
        Request::Psync => match (info.replication.master_replid, info.replication.master_repl_offset) {
            (Some(id), Some(offset)) => Ok(
                seq![Frame::Simple(full_resync_text(id@, offset)), Frame::Bulk(EMPTY_RDB@)],
            ),
            _ => Err(Rejection::NotPrimary),
        },
    }
}

/// The entries after a command runs at `now`: only SET writes.
pub open spec fn store_after(cmd: Request, m: Map<Seq<char>, Entry>, now: u64) -> Map<
    Seq<char>,
    Entry,
> {
    match cmd {
        Request::SetValue(k, v, px) => m.insert(k, Entry { value: v, created_at: now, px }),
        _ => m,
    }
}

/// The responses to a request: those of its command, or one error.
pub open spec fn responses(args: Seq<Seq<char>>, m: Map<Seq<char>, Entry>, info: Info, now: u64) -> Seq<
    Frame,
> {
    match command_of(args) {
        Ok(cmd) => match outcome(cmd, m, info, now) {
            Ok(fs) => fs,
            Err(e) => seq![error_frame(e)],
        },
        Err(e) => seq![error_frame(e)],
    }
}

/// The entries after a request: unchanged when it is refused.
pub open spec fn store_after_request(args: Seq<Seq<char>>, m: Map<Seq<char>, Entry>, now: u64) -> Map<
    Seq<char>,
    Entry,
> {
    match command_of(args) {
        Ok(cmd) => store_after(cmd, m, now),
        Err(_) => m,
    }
}

/// Whether a request is refused or its command fails.
pub open spec fn fails(args: Seq<Seq<char>>, m: Map<Seq<char>, Entry>, info: Info, now: u64) -> bool {
    match command_of(args) {
        Ok(cmd) => outcome(cmd, m, info, now) is Err,
        Err(_) => true,
    }
}

/// Reads a request's arguments into a command.
pub fn parse_command(request: RespIn) -> (r: Result<Command, CommandError>)
    ensures
        match command_of(request@) {
            Ok(c) => r matches Ok(cmd) && cmd@ == c,
            Err(e) => r matches Err(err) && err@ == e,
        },
{
    let items = match request {
        RespIn::Array(items) => items,
    };
    let ghost all = items@.map_values(|s: String| s@);
    let mut args = Args::new(items);
    let cmd = match args.next() {
        Ok(cmd) => cmd,
        Err(e) => {
            return Err(e);
        },
    };
    if equals_ascii_case_insensitive(cmd.as_str(), "PING") {
        Ok(Command::Ping)
    } else if equals_ascii_case_insensitive(cmd.as_str(), "ECHO") {
        match args.next() {
            Ok(s) => Ok(Command::Echo(s)),
            Err(e) => Err(e),
        }
    } else if equals_ascii_case_insensitive(cmd.as_str(), "GET") {
        match args.next() {
            Ok(k) => Ok(Command::Get(k)),
            Err(e) => Err(e),
        }
    } else if equals_ascii_case_insensitive(cmd.as_str(), "SET") {
        let key = match args.next() {
            Ok(k) => k,
            Err(e) => {
                return Err(e);
            },
        };
        let value = match args.next() {
            Ok(v) => v,
            Err(e) => {
                return Err(e);
            },
        };
        let mut px: Option<u64> = None;
        let ghost whole = command_of(all);
        assert(whole == match set_options(all, 3, None) {
            Ok(px) => Ok(Request::SetValue(all[1], all[2], px)),
            Err(e) => Err::<Request, Rejection>(e),
        });
        while args.has_next()
            invariant
                request@ == all,
                whole == command_of(all),
                whole == match set_options(all, 3, None) {
                    Ok(px) => Ok(Request::SetValue(all[1], all[2], px)),
                    Err(e) => Err::<Request, Rejection>(e),
                },
                key@ == all[1],
                value@ == all[2],
                args@.0 == all,
                3 <= args@.1 <= all.len(),
                set_options(all, 3, None) == set_options(all, args@.1, px),
            decreases all.len() - args@.1,
        {
            let arg = match args.next() {
                Ok(a) => a,
                Err(e) => {
                    return Err(e);
                },
            };
            if equals_ascii_case_insensitive(arg.as_str(), "PX") {
                let ms = match args.next() {
                    Ok(ms) => ms,
                    Err(e) => {
                        return Err(e);
                    },
                };
                match parse_u64_bytes(ms.as_str().as_bytes()) {
                    Some(n) => {
                        px = Some(n);
                    },
                    None => {
                        return Err(CommandError::InvalidInteger(ms));
                    },
                }
            } else {
                return Err(CommandError::UnknownOption(arg));
            }
        }
        Ok(Command::SetValue(key, value, px))
    } else if equals_ascii_case_insensitive(cmd.as_str(), "INFO") {
        let mut names: Vec<String> = Vec::new();
        while args.has_next()
            invariant
                args@.0 == all,
                1 <= args@.1 <= all.len(),
                names@.map_values(|s: String| s@) == all.subrange(1, args@.1),
            decreases all.len() - args@.1,
        {
            let ghost at = args@.1;
            let ghost before = names@;
            let name = match args.next() {
                Ok(n) => n,
                Err(e) => {
                    return Err(e);
                },
            };
            assert(name@ == all[at]);
            names.push(name);
            assert(names@ == before.push(name));
            assert(all.subrange(1, at + 1) =~= all.subrange(1, at).push(all[at]));
            assert(names@.map_values(|s: String| s@) =~= before.map_values(|s: String| s@).push(
                name@,
            ));
        }
        Ok(Command::Info(names))
    } else if equals_ascii_case_insensitive(cmd.as_str(), "REPLCONF") {
        Ok(Command::Replconf)
    } else if equals_ascii_case_insensitive(cmd.as_str(), "PSYNC") {
        Ok(Command::Psync)
    } else {
        Err(CommandError::UnknownCommand(cmd))
    }
}

fn ping() -> (r: Vec<RespOut>)
    ensures
        frames_of(r@) == seq![Frame::Simple("PONG"@)],
{
    let r = vec![RespOut::SimpleString(String::from_str("PONG"))];
    proof {
        lemma_frames_of(r@);
    }
    r
}

fn echo(arg: String) -> (r: Vec<RespOut>)
    ensures
        frames_of(r@) == seq![Frame::Bulk(arg@)],
{
    let r = vec![RespOut::BulkString(arg)];
    proof {
        lemma_frames_of(r@);
    }
    r
}

fn get<D: Data>(data: &D, key: &String, now: u64) -> (r: Vec<RespOut>)
    requires
        data.inv(),
    ensures
        frames_of(r@) == seq![
            match lookup(data.entries(), key@, now) {
                Some(v) => Frame::Bulk(v),
                None => Frame::Null,
            },
        ],
{
    let res = match data.get(key.as_str(), now) {
        Some(value) => RespOut::BulkString(value),
        None => RespOut::Null,
    };
    let r = vec![res];
    proof {
        lemma_frames_of(r@);
    }
    r
}

fn set<D: Data>(data: &mut D, key: String, value: String, px: Option<u64>, now: u64) -> (r: Vec<
    RespOut,
>)
    requires
        old(data).inv(),
    ensures
        final(data).inv(),
        final(data).entries() == old(data).entries().insert(
            key@,
            Entry { value: value@, created_at: now, px },
        ),
        frames_of(r@) == seq![Frame::Simple("OK"@)],
{
    data.set(key, value, px, now);
    let r = vec![RespOut::SimpleString(String::from_str("OK"))];
    proof {
        lemma_frames_of(r@);
    }
    r
}

fn info_sections(info: &Info, names: &Vec<String>) -> (r: Vec<RespOut>)
    ensures
        ({
            let names = names@.map_values(|s: String| s@);
            frames_of(r@) == seq![
                Frame::Bulk(
                    if names.len() == 0 {
                        info_all(*info)
                    } else {
                        info_text(*info, names)
                    },
                ),
            ]
        }),
{
    let ghost views = names@.map_values(|s: String| s@);
    let text = if names.len() == 0 {
        info.get_all()
    } else {
        let mut res: Vec<String> = Vec::new();
        let mut i: usize = 0;
        while i < names.len()
            invariant
                i <= names@.len(),
                views == names@.map_values(|s: String| s@),
                res@.map_values(|s: String| s@) == present_sections(
                    *info,
                    views.subrange(0, i as int),
                ),
            decreases names@.len() - i,
        {
            let ghost before = res@.map_values(|s: String| s@);
            match info.get_section(names[i].as_str()) {
                Some(s) => {
                    res.push(s);
                },
                None => {},
            }
            i = i + 1;
            proof {
                let prefix = views.subrange(0, i as int);
                assert(prefix.drop_last() =~= views.subrange(0, i - 1));
                assert(res@.map_values(|s: String| s@) =~= present_sections(*info, prefix));
            }
        }
        assert(views.subrange(0, i as int) =~= views);
        join(&res)
    };
    let r = vec![RespOut::BulkString(text)];
    proof {
        lemma_frames_of(r@);
    }
    r
}

fn replconf() -> (r: Vec<RespOut>)
    ensures
        frames_of(r@) == seq![Frame::Simple("OK"@)],
{
    let r = vec![RespOut::SimpleString(String::from_str("OK"))];
    proof {
        lemma_frames_of(r@);
    }
    r
}

fn psync<D: Data>(data: &D, info: &Info) -> (r: Result<Vec<RespOut>, CommandError>)
    ensures
        match outcome(Request::Psync, data.entries(), *info, 0) {
            Ok(fs) => r matches Ok(v) && frames_of(v@) == fs,
            Err(e) => r matches Err(err) && err@ == e,
        },
{
    let r = &info.replication;
    match (&r.master_replid, r.master_repl_offset) {
        (Some(id), Some(offset)) => {
            let mut text = String::from_str("FULLRESYNC ");
            text.append(id.as_str());
            text.append(" ");
            let digits = decimal_string(offset);
            text.append(digits.as_str());
            let v = vec![RespOut::SimpleString(text), construct_rdb_file(data)];
            proof {
                lemma_frames_of(v@);
                assert(frames_of(v@) =~= seq![
                    Frame::Simple(full_resync_text(id@, offset)),
                    Frame::Bulk(EMPTY_RDB@),
                ]);
            }
            Ok(v)
        },
        _ => Err(CommandError::NotPrimary),
    }
}

/// Runs a command that does not write to the store.
pub fn query<D: Data>(cmd: Command, data: &D, info: &Info, now: u64) -> (r: Result<
    Vec<RespOut>,
    CommandError,
>)
    requires
        data.inv(),
        !(cmd@ is SetValue),
    ensures
        match outcome(cmd@, data.entries(), *info, now) {
            Ok(fs) => r matches Ok(v) && frames_of(v@) == fs,
            Err(e) => r matches Err(err) && err@ == e,
        },
{
    match cmd {
        Command::Ping => Ok(ping()),
        Command::Echo(s) => Ok(echo(s)),
        Command::Get(k) => Ok(get(data, &k, now)),
        Command::SetValue(_, _, _) => Ok(Vec::new()),  // ruled out by `requires`
        Command::Info(names) => Ok(info_sections(info, &names)),
        Command::Replconf => Ok(replconf()),
        Command::Psync => psync(data, info),
    }
}

/// Runs a command.
pub fn execute<D: Data>(cmd: Command, data: &mut D, info: &Info, now: u64) -> (r: Result<
    Vec<RespOut>,
    CommandError,
>)
    requires
        old(data).inv(),
    ensures
        final(data).inv(),
        final(data).entries() == store_after(cmd@, old(data).entries(), now),
        match outcome(cmd@, old(data).entries(), *info, now) {
            Ok(fs) => r matches Ok(v) && frames_of(v@) == fs,
            Err(e) => r matches Err(err) && err@ == e,
        },
{
    match cmd {
        Command::SetValue(key, value, px) => Ok(set(data, key, value, px, now)),
        other => query(other, &*data, info, now),
    }
}

/// The responses to a request, run against the store at `now`; a refused
/// request gets one error response and leaves the store as it was.
pub fn handle<D: Data>(value: RespIn, data: &mut D, info: &Info, now: u64) -> (r: Vec<RespOut>)
    requires
        old(data).inv(),
    ensures
        final(data).inv(),
        frames_of(r@) == responses(value@, old(data).entries(), *info, now),
        final(data).entries() == store_after_request(value@, old(data).entries(), now),
{
    let r = match parse_command(value) {
        Ok(cmd) => match execute(cmd, data, info, now) {
            Ok(res) => res,
            Err(e) => vec![e.response()],
        },
        Err(e) => vec![e.response()],
    };
    proof {
        lemma_frames_of(r@);
        if r@.len() == 1 {
            assert(frames_of(r@) =~= seq![r@[0]@]);
        }
    }
    r
}

/// The responses to a command that has been read: its own, or one error.
pub open spec fn outcome_frames(cmd: Request, m: Map<Seq<char>, Entry>, info: Info, now: u64) -> Seq<
    Frame,
> {
    match outcome(cmd, m, info, now) {
        Ok(fs) => fs,
        Err(e) => seq![error_frame(e)],
    }
}

/// Reads the bytes of one request into a command, or into the error response
/// that answers them at once: a malformed frame, or a refused command.
pub fn prepare(bytes: &[u8]) -> (r: Result<Command, RespOut>)
    ensures
        match request_of(bytes@) {
            None => r matches Err(resp) && resp@ == Frame::Error("malformed frame"@),
            Some(args) => match command_of(args) {
                Ok(c) => r matches Ok(cmd) && cmd@ == c,
                Err(e) => r matches Err(resp) && resp@ == error_frame(e),
            },
        },
{
    match parse_input(bytes) {
        Ok(request) => match parse_command(request) {
            Ok(cmd) => Ok(cmd),
            Err(e) => Err(e.response()),
        },
        Err(e) => Err(e.response()),
    }
}

/// The bytes that answer a command that does not write to the store.
pub fn reply_to_query<D: Data>(cmd: Command, data: &D, info: &Info, now: u64) -> (r: Vec<u8>)
    requires
        data.inv(),
        !(cmd@ is SetValue),
    ensures
        r@ == encode_items(outcome_frames(cmd@, data.entries(), *info, now)),
{
    let ghost c = cmd@;
    let responses = match query(cmd, data, info, now) {
        Ok(responses) => responses,
        Err(e) => vec![e.response()],
    };
    proof {
        lemma_frames_of(responses@);
        assert(frames_of(responses@) =~= outcome_frames(c, data.entries(), *info, now));
    }
    serialize_all(&responses)
}

/// The bytes that answer a command, which may write to the store.
pub fn reply_to_command<D: Data>(cmd: Command, data: &mut D, info: &Info, now: u64) -> (r: Vec<u8>)
    requires
        old(data).inv(),
    ensures
        final(data).inv(),
        final(data).entries() == store_after(cmd@, old(data).entries(), now),
        r@ == encode_items(outcome_frames(cmd@, old(data).entries(), *info, now)),
{
    let ghost c = cmd@;
    let ghost m = data.entries();
    let responses = match execute(cmd, data, info, now) {
        Ok(responses) => responses,
        Err(e) => vec![e.response()],
    };
    proof {
        lemma_frames_of(responses@);
        assert(frames_of(responses@) =~= outcome_frames(c, m, *info, now));
    }
    serialize_all(&responses)
}

/// PING and ECHO neither read nor write the store: their responses are the same
/// whatever it holds, and it is left as it was.
pub proof fn lemma_ping_echo_ignore_store(
    args: Seq<Seq<char>>,
    m1: Map<Seq<char>, Entry>,
    m2: Map<Seq<char>, Entry>,
    info: Info,
    now: u64,
)
    requires
        command_of(args) matches Ok(c) && (c is Ping || c is Echo),
    ensures
        responses(args, m1, info, now) == responses(args, m2, info, now),
        store_after_request(args, m1, now) == m1,
{
}

/// A request that is refused, or whose command fails, leaves the store unchanged.
pub proof fn lemma_failure_keeps_store(
    args: Seq<Seq<char>>,
    m: Map<Seq<char>, Entry>,
    info: Info,
    now: u64,
)
    requires
        fails(args, m, info, now),
    ensures
        store_after_request(args, m, now) == m,
{
}

/// INFO with no section names answers with text that contains the answer to
/// INFO with any one known section name.
pub proof fn lemma_info_without_names_covers(
    info_cmd: Seq<char>,
    name: Seq<char>,
    m: Map<Seq<char>, Entry>,
    info: Info,
    now: u64,
)
    requires
        eq_ignore_ascii_case(info_cmd, "INFO"@),
        section_text(info, name) is Some,
    ensures
        responses(seq![info_cmd], m, info, now) == seq![Frame::Bulk(info_all(info))],
        responses(seq![info_cmd, name], m, info, now) == seq![
            Frame::Bulk(info_text(info, seq![name])),
        ],
        contains_text(info_all(info), info_text(info, seq![name])),
{
    lemma_not_other_commands(info_cmd);
    assert(seq![info_cmd].subrange(1, 1) =~= Seq::<Seq<char>>::empty());
    assert(seq![info_cmd, name].subrange(1, 2) =~= seq![name]);
    lemma_info_all_covers_section(info, name);
}

/// A name equal to `INFO` up to case is none of the other command names.
proof fn lemma_not_other_commands(name: Seq<char>)
    requires
        eq_ignore_ascii_case(name, "INFO"@),
    ensures
        !eq_ignore_ascii_case(name, "PING"@),
        !eq_ignore_ascii_case(name, "ECHO"@),
        !eq_ignore_ascii_case(name, "GET"@),
        !eq_ignore_ascii_case(name, "SET"@),
{
    reveal_strlit("INFO");
    reveal_strlit("PING");
    reveal_strlit("ECHO");
    reveal_strlit("GET");
    reveal_strlit("SET");
    assert(crate::text::ascii_upper(name[0]) == crate::text::ascii_upper('I'));
}

} // verus!

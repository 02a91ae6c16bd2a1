//! Commands: reading a request into a command, and running it against the
//! store to produce a reply.
use crate::buf::{bytes_as_slice, bytes_from_vec, bytes_view};
use crate::parser::{int_of_word, value_of, value_of_all, RedisValueRef};
use crate::wire::{int_of_text, Val};
use bytes::Bytes;
use vstd::prelude::*;
use vstd::slice::slice_to_vec;
use vstd::string::StringSliceAdditionalSpecFns;

pub use crate::store::Store;

verus! {

/// The longest expiry, in seconds, that `SET ... EX` accepts: its
/// milliseconds still fit in a `u64`.
pub const MAX_EXPIRE_SECS: u64 = 18446744073709551;

/// A command, as the contracts speak of it. The expiry of `SetKey` is in
/// milliseconds.
pub enum Cmd {
    Ping,
    Echo(Seq<u8>),
    SetKey(Seq<u8>, Seq<u8>, Option<u64>),
    Get(Seq<u8>),
}

/// A command read from a request. The expiry of `SetKey` is in milliseconds.
#[derive(Debug)]
pub enum RespCommand {
    Ping,
    Echo(Bytes),
    SetKey((Bytes, Bytes, Option<u64>)),
    Get(Bytes),
}

impl View for RespCommand {
    type V = Cmd;

    open spec fn view(&self) -> Cmd {
        match self {
            RespCommand::Ping => Cmd::Ping,
            RespCommand::Echo(m) => Cmd::Echo(bytes_view(*m)),
            RespCommand::SetKey((k, v, t)) => Cmd::SetKey(bytes_view(*k), bytes_view(*v), *t),
            RespCommand::Get(k) => Cmd::Get(bytes_view(*k)),
        }
    }
}

/// Why a request is not a command.
#[derive(Debug, Clone, Copy, PartialEq, Eq, Structural)]
pub enum CommandError {
    EmptyCommand,
    NotBulkString,
    UnknownCommand,
    WrongArity,
    SyntaxError,
    InvalidExpireTime,
}

/// ASCII lower case of one byte.
pub open spec fn lower(b: u8) -> u8 {
    if 65 <= b <= 90 {
        (b + 32) as u8
    } else {
        b
    }
}

/// ASCII lower case of a byte string.
pub open spec fn lowered(w: Seq<u8>) -> Seq<u8> {
    w.map_values(|b: u8| lower(b))
}

/// The whole seconds that an `EX` argument gives: a positive decimal of at
/// most `MAX_EXPIRE_SECS`.
pub open spec fn expire_secs(w: Seq<u8>) -> Option<u64> {
    match int_of_text(w) {
        Some(n) => if 1 <= n <= MAX_EXPIRE_SECS {
            Some(n as u64)
        } else {
            None
        },
        None => None,
    }
}

/// Every element of a request is a bulk string.
pub open spec fn all_bulk(args: Seq<Val>) -> bool {
    forall|i: int| 0 <= i < args.len() ==> (#[trigger] args[i]) is Bulk
}

/// The bytes of the `i`-th element of a request.
pub open spec fn arg(args: Seq<Val>, i: int) -> Seq<u8> {
    args[i]->Bulk_0
}

/// The command that a request names, or why it names none. The verb is
/// matched without regard to ASCII case.
pub open spec fn command_of(args: Seq<Val>) -> Result<Cmd, CommandError> {
    if args.len() == 0 {
        Err(CommandError::EmptyCommand)
    } else if !all_bulk(args) {
        Err(CommandError::NotBulkString)
    } else {
        let verb = lowered(arg(args, 0));
        let n = args.len();
        if verb == "ping".spec_bytes() {
            if n == 1 {
                Ok(Cmd::Ping)
            } else {
                Err(CommandError::WrongArity)
            }
        } else if verb == "echo".spec_bytes() {
            if n == 2 {
                Ok(Cmd::Echo(arg(args, 1)))
            } else {
                Err(CommandError::WrongArity)
            }
        } else if verb == "get".spec_bytes() {
            if n == 2 {
                Ok(Cmd::Get(arg(args, 1)))
            } else {
                Err(CommandError::WrongArity)
            }
        } else if verb == "set".spec_bytes() {
            if n < 3 {
                Err(CommandError::WrongArity)
            } else if n == 3 {
                Ok(Cmd::SetKey(arg(args, 1), arg(args, 2), None))
            } else if n == 5 && lowered(arg(args, 3)) == "ex".spec_bytes() {
                match expire_secs(arg(args, 4)) {
                    Some(secs) => Ok(Cmd::SetKey(arg(args, 1), arg(args, 2), Some((secs * 1000) as u64))),
                    None => Err(CommandError::InvalidExpireTime),
                }
            } else {
                Err(CommandError::SyntaxError)
            }
        } else {
            Err(CommandError::UnknownCommand)
        }
    }
}

/// The text of the error reply for each reason.
pub open spec fn error_text(e: CommandError) -> Seq<u8> {
    match e {
        CommandError::EmptyCommand => "ERR empty command".spec_bytes(),
        CommandError::NotBulkString => "ERR protocol error: expected bulk strings".spec_bytes(),
        CommandError::UnknownCommand => "ERR unknown command".spec_bytes(),
        CommandError::WrongArity => "ERR wrong number of arguments".spec_bytes(),
        CommandError::SyntaxError => "ERR syntax error".spec_bytes(),
        CommandError::InvalidExpireTime => "ERR invalid expire time".spec_bytes(),
    }
}

/// Whether `w`, in ASCII lower case, is `lit`.
fn matches_word(w: &[u8], lit: &[u8]) -> (r: bool)
    ensures
        r == (lowered(w@) == lit@),
{
    if w.len() != lit.len() {
        return false;
    }
    let mut i: usize = 0;
    while i < w.len()
        invariant
            w@.len() == lit@.len(),
            i <= w@.len(),
            forall|j: int| 0 <= j < i ==> lower(#[trigger] w@[j]) == lit@[j],
        decreases w@.len() - i,
    {
        let b = w[i];
        let low: u8 = if 65 <= b && b <= 90 {
            b + 32
        } else {
            b
        };
        if low != lit[i] {
            proof {
                assert(lowered(w@)[i as int] != lit@[i as int]);
            }
            return false;
        }
        i = i + 1;
    }
    proof {
        assert(lowered(w@) =~= lit@);
    }
    true
}

/// A `Bytes` holding the bytes of `s`.
fn bytes_of(s: &str) -> (r: Bytes)
    ensures
        bytes_view(r) == s.spec_bytes(),
{
    bytes_from_vec(slice_to_vec(s.as_bytes()))
}

impl CommandError {
    /// The error reply that tells the client why.
    pub fn reply(&self) -> (r: RedisValueRef)
        ensures
            r@ == Val::Error(error_text(*self)),
    {
        let text = match self {
            CommandError::EmptyCommand => "ERR empty command",
            CommandError::NotBulkString => "ERR protocol error: expected bulk strings",
            CommandError::UnknownCommand => "ERR unknown command",
            CommandError::WrongArity => "ERR wrong number of arguments",
            CommandError::SyntaxError => "ERR syntax error",
            CommandError::InvalidExpireTime => "ERR invalid expire time",
        };
        RedisValueRef::Error(bytes_of(text))
    }
}

impl RespCommand {
    /// Reads a command from the elements of a request array.
    pub fn parse_command_arr(args: Vec<RedisValueRef>) -> (r: Result<RespCommand, CommandError>)
        ensures
            match r {
                Ok(c) => command_of(value_of_all(args)) == Ok::<Cmd, CommandError>(c@),
                Err(e) => command_of(value_of_all(args)) == Err::<Cmd, CommandError>(e),
            },
    {
        let ghost vals = value_of_all(args);
        let n = args.len();
        if n == 0 {
            return Err(CommandError::EmptyCommand);
        }
        let mut words: Vec<Bytes> = Vec::new();
        let mut i: usize = 0;
        while i < n
            invariant
                n == args@.len(),
                vals == value_of_all(args),
                i <= n,
                words@.len() == i,
                forall|j: int| 0 <= j < i ==> (#[trigger] vals[j]) is Bulk,
                forall|j: int| 0 <= j < i ==> bytes_view(#[trigger] words@[j]) == arg(vals, j),
            decreases n - i,
        {
            assert(vals[i as int] == value_of(args@[i as int]));
            match &args[i] {
                RedisValueRef::String(b) => {
                    words.push(b.clone());
                },
                _ => {
                    return Err(CommandError::NotBulkString);
                },
            }
            i = i + 1;
        }
        let verb = bytes_as_slice(&words[0]);
        if matches_word(verb, "ping".as_bytes()) {
            if n == 1 {
                Ok(RespCommand::Ping)
            } else {
                Err(CommandError::WrongArity)
            }
        } else if matches_word(verb, "echo".as_bytes()) {
            if n == 2 {
                Ok(RespCommand::Echo(words[1].clone()))
            } else {
                Err(CommandError::WrongArity)
            }
        } else if matches_word(verb, "get".as_bytes()) {
            if n == 2 {
                Ok(RespCommand::Get(words[1].clone()))
            } else {
                Err(CommandError::WrongArity)
            }
        } else if matches_word(verb, "set".as_bytes()) {
            if n < 3 {
                Err(CommandError::WrongArity)
            } else if n == 3 {
                Ok(RespCommand::SetKey((words[1].clone(), words[2].clone(), None)))
            } else if n == 5 && matches_word(bytes_as_slice(&words[3]), "ex".as_bytes()) {
                match int_of_word(bytes_as_slice(&words[4])) {
                    Some(secs) if 1 <= secs && secs as u64 <= MAX_EXPIRE_SECS => {
                        let millis = (secs as u64) * 1000;
                        Ok(RespCommand::SetKey((words[1].clone(), words[2].clone(), Some(millis))))
                    },
                    _ => Err(CommandError::InvalidExpireTime),
                }
            } else {
                Err(CommandError::SyntaxError)
            }
        } else {
            Err(CommandError::UnknownCommand)
        }
    }

    /// Runs the command against `store` and returns the reply. What `GET`
    /// finds depends on what every connection has done to the store, so of
    /// its reply only the kind is promised here; `get_reply` says which
    /// reply each outcome of the lookup gives.
    pub fn execute(&self, store: &Store) -> (r: RedisValueRef)
        ensures
            match self@ {
                Cmd::Ping => r@ == Val::Simple("PONG".spec_bytes()),
                Cmd::Echo(m) => r@ == Val::Bulk(m),
                Cmd::SetKey(_, _, _) => r@ == Val::Simple("OK".spec_bytes()),
                Cmd::Get(_) => r@ is Bulk || r@ is NullBulk,
            },
    {
        match self {
            RespCommand::Ping => Self::ping(),
            RespCommand::Echo(msg) => Self::echo(msg),
            RespCommand::SetKey((key, value, expiry)) => Self::set(key, value, *expiry, store),
            RespCommand::Get(key) => Self::get(key, store),
        }
    }

    fn set(key: &Bytes, value: &Bytes, expiry: Option<u64>, store: &Store) -> (r: RedisValueRef)
        ensures
            r@ == Val::Simple("OK".spec_bytes()),
    {
        store.set(key.clone(), value.clone(), expiry);
        RedisValueRef::SimpleString(bytes_of("OK"))
    }

    fn get(key: &Bytes, store: &Store) -> (r: RedisValueRef)
        ensures
            r@ is Bulk || r@ is NullBulk,
    {
        Self::get_reply(store.get(key))
    }

    /// The reply to `GET` for what the lookup found.
    pub fn get_reply(found: Option<Bytes>) -> (r: RedisValueRef)
        ensures
            match found {
                Some(v) => r@ == Val::Bulk(bytes_view(v)),
                None => r@ == Val::NullBulk,
            },
    {
        match found {
            Some(value) => RedisValueRef::String(value),
            None => RedisValueRef::NullBulkString,
        }
    }

    fn ping() -> (r: RedisValueRef)
        ensures
            r@ == Val::Simple("PONG".spec_bytes()),
    {
        RedisValueRef::SimpleString(bytes_of("PONG"))
    }

    fn echo(msg: &Bytes) -> (r: RedisValueRef)
        ensures
            r@ == Val::Bulk(bytes_view(*msg)),
    {
        RedisValueRef::String(msg.clone())
    }
}

/// The reply to a request array: the command's reply, or an error reply
/// when the request names no command.
pub fn respond(args: Vec<RedisValueRef>, store: &Store) -> (r: RedisValueRef)
    ensures
        match command_of(value_of_all(args)) {
            Ok(Cmd::Ping) => r@ == Val::Simple("PONG".spec_bytes()),
            Ok(Cmd::Echo(m)) => r@ == Val::Bulk(m),
            Ok(Cmd::SetKey(_, _, _)) => r@ == Val::Simple("OK".spec_bytes()),
            Ok(Cmd::Get(_)) => r@ is Bulk || r@ is NullBulk,
            Err(e) => r@ == Val::Error(error_text(e)),
        },
{
    match RespCommand::parse_command_arr(args) {
        Ok(command) => command.execute(store),
        Err(e) => e.reply(),
    }
}

} // verus!

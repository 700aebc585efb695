//! Per-request command logic: pulling a command out of a decoded request,
//! running it against the store, and the connection handler's one-step
//! decision from buffered bytes to the action to take.

use vstd::prelude::*;

use crate::resp::{
    Decoded, Frame, Parsed, Value, DEPTH_LIMIT, encoding, frames_of, lemma_frames_of_drop_first,
    lemma_frames_of_index, lemma_frames_of_len, parse_msg, spec_decode,
};
use crate::storage::{Storage, bytes_equal};

verus! {

/// Why a well-formed frame still fails to run as a command. Any of these is
/// fatal to the connection that sent the request.
#[derive(Debug, PartialEq, Eq, Structural)]
pub enum CommandError {
    /// The request is not an array.
    NotArray,
    /// The request array is empty, so it names no command.
    EmptyRequest,
    /// The command name or an argument is not a bulk string.
    NotBulkString,
    /// The command takes a different number of arguments.
    WrongArity,
    /// The command name is not one this server knows. Command names match
    /// case-sensitively.
    UnknownCommand,
}

/// The liveness-check command name, `PING`.
pub open spec fn ping_name() -> Seq<u8> {
    seq![80u8, 73u8, 78u8, 71u8]
}

/// The echo command name, `ECHO`.
pub open spec fn echo_name() -> Seq<u8> {
    seq![69u8, 67u8, 72u8, 79u8]
}

/// The store-read command name, `GET`.
pub open spec fn get_name() -> Seq<u8> {
    seq![71u8, 69u8, 84u8]
}

/// The store-write command name, `SET`.
pub open spec fn set_name() -> Seq<u8> {
    seq![83u8, 69u8, 84u8]
}

/// The liveness reply text, `acknowledged`.
pub open spec fn ack_text() -> Seq<u8> {
    seq![97u8, 99u8, 107u8, 110u8, 111u8, 119u8, 108u8, 101u8, 100u8, 103u8, 101u8, 100u8]
}

/// The store-write reply text, `stored`.
pub open spec fn stored_text() -> Seq<u8> {
    seq![115u8, 116u8, 111u8, 114u8, 101u8, 100u8]
}

/// The reply text standing for a missing key, `absent`.
pub open spec fn absent_text() -> Seq<u8> {
    seq![97u8, 98u8, 115u8, 101u8, 110u8, 116u8]
}

/// What running the request `f` against store contents `m` yields: the
/// reply frame and the new contents, or the error that closes the
/// connection. The request must be a nonempty array of bulk strings, the
/// first naming the command.
pub open spec fn spec_dispatch(f: Frame, m: Map<Seq<u8>, Seq<u8>>) -> Result<
    (Frame, Map<Seq<u8>, Seq<u8>>),
    CommandError,
> {
    match f {
        Frame::Arr(items) => if items.len() == 0 {
            Err(CommandError::EmptyRequest)
        } else {
            match items[0] {
                Frame::Bulk(name) => spec_run(name, items.drop_first(), m),
                _ => Err(CommandError::NotBulkString),
            }
        },
        _ => Err(CommandError::NotArray),
    }
}

/// One named command over its arguments and the store contents: `PING`
/// takes nothing and is acknowledged; `ECHO` returns its one bulk-string
/// argument unchanged; `GET` returns the key's value, or the absent
/// sentinel where the store holds none; `SET` stores its value under its
/// key. Anything else is an error, said exactly.
pub open spec fn spec_run(name: Seq<u8>, args: Seq<Frame>, m: Map<Seq<u8>, Seq<u8>>) -> Result<
    (Frame, Map<Seq<u8>, Seq<u8>>),
    CommandError,
> {
    if name == ping_name() {
        if args.len() == 0 {
            Ok((Frame::Simple(ack_text()), m))
        } else {
            Err(CommandError::WrongArity)
        }
    } else if name == echo_name() {
        if args.len() != 1 {
            Err(CommandError::WrongArity)
        } else {
            match args[0] {
                Frame::Bulk(b) => Ok((Frame::Bulk(b), m)),
                _ => Err(CommandError::NotBulkString),
            }
        }
    } else if name == get_name() {
        if args.len() != 1 {
            Err(CommandError::WrongArity)
        } else {
            match args[0] {
                Frame::Bulk(k) => if m.contains_key(k) {
                    Ok((Frame::Bulk(m[k]), m))
                } else {
                    Ok((Frame::Simple(absent_text()), m))
                },
                _ => Err(CommandError::NotBulkString),
            }
        }
    } else if name == set_name() {
        if args.len() != 2 {
            Err(CommandError::WrongArity)
        } else {
            match (args[0], args[1]) {
                (Frame::Bulk(k), Frame::Bulk(v)) => Ok((Frame::Simple(stored_text()), m.insert(k, v))),
                _ => Err(CommandError::NotBulkString),
            }
        }
    } else {
        Err(CommandError::UnknownCommand)
    }
}

/// The bytes a bulk string holds; any other variant is a shape error.
pub fn unpack_bulk_str(value: Value) -> (r: Result<Vec<u8>, CommandError>)
    ensures
        match value@ {
            Frame::Bulk(b) => r matches Ok(v) && v@ == b,
            _ => r == Err::<Vec<u8>, CommandError>(CommandError::NotBulkString),
        },
{
    match value {
        Value::BulkString(b) => Ok(b),
        _ => Err(CommandError::NotBulkString),
    }
}

/// Split a request into its command name and arguments: the request must be
/// an array whose first element is a bulk string naming the command; the
/// remaining elements are the arguments, in order.
pub fn extract_command(value: Value) -> (r: Result<(Vec<u8>, Vec<Value>), CommandError>)
    ensures
        match value@ {
            Frame::Arr(items) => if items.len() == 0 {
                r == Err::<(Vec<u8>, Vec<Value>), CommandError>(CommandError::EmptyRequest)
            } else {
                match items[0] {
                    Frame::Bulk(name) => r matches Ok((n, args)) && n@ == name && frames_of(args@)
                        == items.drop_first(),
                    _ => r == Err::<(Vec<u8>, Vec<Value>), CommandError>(
                        CommandError::NotBulkString,
                    ),
                }
            },
            _ => r == Err::<(Vec<u8>, Vec<Value>), CommandError>(CommandError::NotArray),
        },
{
    match value {
        Value::Array(mut a) => {
            if a.len() == 0 {
                return Err(CommandError::EmptyRequest);
            }
            proof {
                lemma_frames_of_len(a@);
                lemma_frames_of_index(a@, 0);
                lemma_frames_of_drop_first(a@);
            }
            let ghost a0 = a@;
            let first = a.remove(0);
            proof {
                assert(a@ =~= a0.drop_first());
            }
            match first {
                Value::BulkString(b) => Ok((b, a)),
                _ => Err(CommandError::NotBulkString),
            }
        },
        _ => Err(CommandError::NotArray),
    }
}

/// Run one decoded request against the store: the reply to send, or the
/// error that closes the connection. The store changes exactly as
/// [`spec_dispatch`] says — only a successful `SET` writes — and a reply is
/// never an array, so it can always be serialized.
pub fn dispatch(store: &mut Storage, value: Value) -> (r: Result<Value, CommandError>)
    ensures
        match spec_dispatch(value@, old(store)@) {
            Ok((reply, m)) => r matches Ok(v) && v@ == reply && final(store)@ == m && !(reply
                is Arr),
            Err(e) => r == Err::<Value, CommandError>(e) && final(store)@ == old(store)@,
        },
{
    let (name, mut args) = match extract_command(value) {
        Ok(p) => p,
        Err(e) => {
            return Err(e);
        },
    };
    proof {
        lemma_frames_of_len(args@);
    }
    let ping: Vec<u8> = vec![80u8, 73u8, 78u8, 71u8];
    let echo: Vec<u8> = vec![69u8, 67u8, 72u8, 79u8];
    let read_cmd: Vec<u8> = vec![71u8, 69u8, 84u8];
    let write_cmd: Vec<u8> = vec![83u8, 69u8, 84u8];
    proof {
        assert(ping@ =~= ping_name());
        assert(echo@ =~= echo_name());
        assert(read_cmd@ =~= get_name());
        assert(write_cmd@ =~= set_name());
    }
    if bytes_equal(name.as_slice(), ping.as_slice()) {
        if args.len() != 0 {
            return Err(CommandError::WrongArity);
        }
        let text: Vec<u8> = vec![
            97u8, 99u8, 107u8, 110u8, 111u8, 119u8, 108u8, 101u8, 100u8, 103u8, 101u8, 100u8,
        ];
        proof {
            assert(text@ =~= ack_text());
        }
        Ok(Value::SimpleString(text))
    } else if bytes_equal(name.as_slice(), echo.as_slice()) {
        if args.len() != 1 {
            return Err(CommandError::WrongArity);
        }
        proof {
            lemma_frames_of_index(args@, 0);
        }
        let arg = args.remove(0);
        match arg {
            Value::BulkString(b) => Ok(Value::BulkString(b)),
            _ => Err(CommandError::NotBulkString),
        }
    } else if bytes_equal(name.as_slice(), read_cmd.as_slice()) {
        if args.len() != 1 {
            return Err(CommandError::WrongArity);
        }
        proof {
            lemma_frames_of_index(args@, 0);
        }
        let arg = args.remove(0);
        match arg {
            Value::BulkString(k) => match store.get(k.as_slice()) {
                Some(v) => Ok(Value::BulkString(vstd::slice::slice_to_vec(v.as_slice()))),
                None => {
                    let text: Vec<u8> = vec![97u8, 98u8, 115u8, 101u8, 110u8, 116u8];
                    proof {
                        assert(text@ =~= absent_text());
                    }
                    Ok(Value::SimpleString(text))
                },
            },
            _ => Err(CommandError::NotBulkString),
        }
    } else if bytes_equal(name.as_slice(), write_cmd.as_slice()) {
        if args.len() != 2 {
            return Err(CommandError::WrongArity);
        }
        proof {
            lemma_frames_of_index(args@, 0);
            lemma_frames_of_index(args@, 1);
        }
        let ghost args0 = args@;
        let key = args.remove(0);
        proof {
            assert(args@[0] == args0[1]);
        }
        let val = args.remove(0);
        match (key, val) {
            (Value::BulkString(k), Value::BulkString(v)) => {
                store.set(k, v);
                let text: Vec<u8> = vec![115u8, 116u8, 111u8, 114u8, 101u8, 100u8];
                proof {
                    assert(text@ =~= stored_text());
                }
                Ok(Value::SimpleString(text))
            },
            _ => Err(CommandError::NotBulkString),
        }
    } else {
        Err(CommandError::UnknownCommand)
    }
}

/// What the connection handler should do next with its buffer.
pub enum Step {
    /// The buffer holds no whole frame yet: read more bytes, then try again
    /// with the same unconsumed bytes.
    NeedMore,
    /// Send these reply bytes, then drop the consumed prefix of the buffer.
    Reply { bytes: Vec<u8>, consumed: usize },
    /// Close the connection: the frame was malformed, or the request could
    /// not be run. No reply is owed.
    Close,
}

/// One whole step of the connection handler, from buffered bytes to the
/// action to take: decode one frame, run it against the store, encode the
/// reply. The store changes only where a request ran successfully, and the
/// reply bytes and count of consumed bytes are exactly what the codec and
/// dispatch specifications say.
pub fn process(buffer: &[u8], store: &mut Storage) -> (r: Step)
    ensures
        match spec_decode(buffer@, DEPTH_LIMIT as nat) {
            Parsed::Incomplete => r is NeedMore && final(store)@ == old(store)@,
            Parsed::Malformed => r is Close && final(store)@ == old(store)@,
            Parsed::Found { frame, used } => match spec_dispatch(frame, old(store)@) {
                Ok((reply, m)) => r matches Step::Reply { bytes, consumed } && bytes@ == encoding(
                    reply,
                ) && consumed == used && final(store)@ == m,
                Err(_) => r is Close && final(store)@ == old(store)@,
            },
        },
{
    proof {
        assert(buffer@.skip(0) =~= buffer@);
    }
    match parse_msg(buffer, 0) {
        Decoded::Incomplete => Step::NeedMore,
        Decoded::Malformed => Step::Close,
        Decoded::Found(v, used) => match dispatch(store, v) {
            Err(_) => Step::Close,
            Ok(reply) => Step::Reply { bytes: reply.serialise(), consumed: used },
        },
    }
}

} // verus!

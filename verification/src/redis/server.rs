//! What the connection handler does with each request it reads.
use vstd::prelude::*;
use crate::redis::resp::RESPDataTypes;
use crate::redis::resp::RespValue;
use crate::redis::resp::result_view;
use crate::redis::resp::spec_serialize;
use crate::redis::commands::KvStore;
use crate::redis::commands::RedisCommand;
use crate::redis::commands::spec_try_from;
use crate::redis::commands::spec_respond;
use crate::redis::commands::CommandView;
use crate::redis::commands::lowercase;
use crate::redis::commands::law_request_arguments_verbatim;
use crate::redis::resp::bulk_strings;

verus! {

/// The action the connection handler takes after reading one request.
pub enum HandleStep {
    /// Write these bytes to the client, then read the next request.
    Reply(Vec<u8>),
    /// The client has gone: stop serving the connection.
    Close,
    /// Write nothing and read the next request.
    Skip,
    /// The request names no command the server knows: the handler gives up
    /// on the connection with an error.
    Abort,
}

/// The handler's action and the store afterwards, for a request read as
/// `request` with the store holding `store`: a command is answered, an empty
/// read closes the connection, a bulk error is sent back as it is, and any
/// other read error is passed over.
pub open spec fn spec_handle(
    request: Result<RespValue, RespValue>,
    store: Map<Seq<char>, Seq<char>>,
) -> (Option<Seq<u8>>, bool, Map<Seq<char>, Seq<char>>) {
    match request {
        Ok(v) => match spec_try_from(v) {
            Ok(cmd) => (
                Some(spec_serialize(spec_respond(cmd, store).0)),
                false,
                spec_respond(cmd, store).1,
            ),
            Err(_) => (None, true, store),
        },
        Err(e) => match e {
            RespValue::Null => (None, false, store),
            RespValue::BulkError(_) => (Some(spec_serialize(e)), false, store),
            _ => (None, false, store),
        },
    }
}

/// Decides what the handler does with one request it has read, answering a
/// command against `store`. The first component of [`spec_handle`] is the
/// reply, if any; the second says whether the handler gives up.
pub fn handle_request(request: Result<RESPDataTypes, RESPDataTypes>, store: &mut KvStore) -> (step:
    HandleStep)
    ensures
        final(store)@ == spec_handle(result_view(request), old(store)@).2,
        match step {
            HandleStep::Reply(bytes) => spec_handle(result_view(request), old(store)@).0 == Some(
                bytes@,
            ),
            HandleStep::Close => request matches Err(RESPDataTypes::Null),
            HandleStep::Skip => spec_handle(result_view(request), old(store)@).0 is None
                && !spec_handle(result_view(request), old(store)@).1 && !(request matches Err(
                RESPDataTypes::Null,
            )),
            HandleStep::Abort => spec_handle(result_view(request), old(store)@).1,
        },
{
    match request {
        Ok(value) => match RedisCommand::try_from(value) {
            Ok(mut command) => {
                let mut reply: Vec<u8> = Vec::new();
                command.respond(store, &mut reply);
                assert(reply@ =~= Seq::<u8>::empty() + reply@);
                HandleStep::Reply(reply)
            },
            Err(_) => HandleStep::Abort,
        },
        Err(error) => match error {
            RESPDataTypes::Null => HandleStep::Close,
            RESPDataTypes::BulkError(_) => HandleStep::Reply(error.serialize()),
            _ => HandleStep::Skip,
        },
    }
}

/// A request that reads as a command is answered with exactly the bytes
/// that answering that command against the same store writes, and leaves the
/// store as answering it does; the handler goes on serving.
pub proof fn law_handler_answers_commands(
    request: RespValue,
    store: Map<Seq<char>, Seq<char>>,
    cmd: CommandView,
)
    requires
        spec_try_from(request) == Ok::<CommandView, RespValue>(cmd),
    ensures
        spec_handle(Ok(request), store).0 == Some(spec_serialize(spec_respond(cmd, store).0)),
        !spec_handle(Ok(request), store).1,
        spec_handle(Ok(request), store).2 == spec_respond(cmd, store).1,
{
}

/// A `PING` request with a message is answered with that message as a bulk
/// string.
pub proof fn law_handler_ping_echoes_message(
    args: Seq<Seq<char>>,
    store: Map<Seq<char>, Seq<char>>,
)
    requires
        args.len() > 1,
        lowercase(args[0]) == "ping"@,
    ensures
        spec_handle(Ok(RespValue::Array(bulk_strings(args))), store).0 == Some(
            spec_serialize(RespValue::BulkString(args[1])),
        ),
        spec_handle(Ok(RespValue::Array(bulk_strings(args))), store).2 == store,
{
    law_request_arguments_verbatim(args);
}

/// An empty read closes the connection and a bulk error is sent back as it
/// is, both leaving the store as it was.
pub proof fn law_handler_read_errors(message: Seq<char>, store: Map<Seq<char>, Seq<char>>)
    ensures
        spec_handle(Err(RespValue::Null), store) == (None::<Seq<u8>>, false, store),
        spec_handle(Err(RespValue::BulkError(message)), store) == (
            Some(spec_serialize(RespValue::BulkError(message))),
            false,
            store,
        ),
{
}

} // verus!

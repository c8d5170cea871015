//! The commands the server understands, how a request value becomes a
//! command, and how a command is answered against the key-value store.
use vstd::prelude::*;
use vstd::hash_map::StringHashMap;
use crate::redis::resp::RESPDataTypes;
use crate::redis::resp::RespValue;
use crate::redis::resp::spec_serialize;
use crate::redis::resp::views;
use crate::redis::resp::lemma_array_view;
use crate::redis::resp::bulk_strings;

verus! {

/// The key-value store that `SET` writes and `GET` reads.
pub struct KvStore {
    entries: StringHashMap<String>,
}

impl View for KvStore {
    type V = Map<Seq<char>, Seq<char>>;

    closed spec fn view(&self) -> Map<Seq<char>, Seq<char>> {
        self.entries@.map_values(|v: String| v@)
    }
}

impl KvStore {
    /// An empty store.
    pub fn new() -> (store: KvStore)
        ensures
            store@ == Map::<Seq<char>, Seq<char>>::empty(),
    {
        let store = KvStore { entries: StringHashMap::new() };
        assert(store@ =~= Map::<Seq<char>, Seq<char>>::empty());
        store
    }

    /// The value stored under `key`, if any.
    fn get(&self, key: &String) -> (value: Option<String>)
        ensures
            value is Some <==> self@.contains_key(key@),
            value matches Some(v) ==> v@ == self@[key@],
    {
        match self.entries.get(key.as_str()) {
            Some(v) => Some(v.clone()),
            None => None,
        }
    }

    /// Stores `value` under `key`, replacing what was there.
    fn insert(&mut self, key: String, value: String)
        ensures
            final(self)@ == old(self)@.insert(key@, value@),
    {
        self.entries.insert(key, value);
        assert(self@ =~= old(self)@.insert(key@, value@));
    }
}

/// A command of a client.
pub enum RedisCommand {
    PING { message: Option<String> },
    ECHO { message: String },
    SET { key: String, value: String },
    GET { key: String },
}

/// The mathematical content of a [`RedisCommand`].
pub enum CommandView {
    PING { message: Option<Seq<char>> },
    ECHO { message: Seq<char> },
    SET { key: Seq<char>, value: Seq<char> },
    GET { key: Seq<char> },
}

impl View for RedisCommand {
    type V = CommandView;

    open spec fn view(&self) -> CommandView {
        match self {
            RedisCommand::PING { message } => CommandView::PING {
                message: match message {
                    Some(m) => Some(m@),
                    None => None,
                },
            },
            RedisCommand::ECHO { message } => CommandView::ECHO { message: message@ },
            RedisCommand::SET { key, value } => CommandView::SET { key: key@, value: value@ },
            RedisCommand::GET { key } => CommandView::GET { key: key@ },
        }
    }
}

/// The view of the outcome of reading a command.
pub open spec fn command_result_view(r: Result<RedisCommand, RESPDataTypes>) -> Result<
    CommandView,
    RespValue,
> {
    match r {
        Ok(c) => Ok(c@),
        Err(e) => Err(e@),
    }
}

/// A bulk error carrying `message`.
pub open spec fn bulk_error(message: Seq<char>) -> RespValue {
    RespValue::BulkError(message)
}

/// The command named `name` (already lowercase) with the arguments `args`,
/// or the bulk error that explains why there is none.
pub open spec fn spec_command(name: Seq<char>, args: Seq<Seq<char>>) -> Result<
    CommandView,
    RespValue,
> {
    if name == "ping"@ {
        Ok(CommandView::PING { message: if args.len() > 0 { Some(args[0]) } else { None } })
    } else if name == "echo"@ {
        if args.len() > 0 {
            Ok(CommandView::ECHO { message: args[0] })
        } else {
            Err(bulk_error("message not provided for echo command"@))
        }
    } else if name == "set"@ {
        if args.len() < 2 {
            Err(bulk_error("both key and value should be provided"@))
        } else {
            Ok(CommandView::SET { key: args[0], value: args[1] })
        }
    } else if name == "get"@ {
        if args.len() > 0 {
            Ok(CommandView::GET { key: args[0] })
        } else {
            Err(bulk_error("key not provided"@))
        }
    } else {
        Err(bulk_error("unknown command"@))
    }
}

/// The text that `str::to_lowercase` returns for the characters `s` (the
/// Unicode lowercase mapping, which this library does not spell out).
pub uninterp spec fn lowercase(s: Seq<char>) -> Seq<char>;

/// `str::to_lowercase`. Its result is named by [`lowercase`]: the same text
/// always lowers to the same text; which text that is, is left unsaid.
#[verifier::external_body]
fn to_lowercase(s: &str) -> (lower: String)
    ensures
        lower@ == lowercase(s@),
{
    s.to_lowercase()
}

/// Every value in `s` is a bulk string.
pub open spec fn all_bulk_strings(s: Seq<RespValue>) -> bool {
    forall|i: int| 0 <= i < s.len() ==> (#[trigger] s[i] is BulkString)
}

/// The command that a request value asks for: an array whose elements are
/// all bulk strings, the first of them the command's name in any case, the
/// others its arguments.
pub open spec fn spec_try_from(request: RespValue) -> Result<CommandView, RespValue> {
    match request {
        RespValue::Array(elems) => if elems.len() == 0 {
            Err(bulk_error("no command provided"@))
        } else if !(elems[0] is BulkString) {
            Err(bulk_error("command must be type of bulk string"@))
        } else if !all_bulk_strings(elems.drop_first()) {
            Err(bulk_error("argument must be type of bulk string"@))
        } else {
            spec_command(
                lowercase(elems[0]->BulkString_0),
                Seq::new((elems.len() - 1) as nat, |i: int| elems[i + 1]->BulkString_0),
            )
        },
        _ => Err(bulk_error("resp datatype other than array of bulk string not supported"@)),
    }
}

/// What answering `cmd` with the store holding `store` gives: the reply and
/// the store afterwards. `SET` answers with the value it replaced, or `OK`;
/// `GET` answers with the stored value, or `Null`.
pub open spec fn spec_respond(cmd: CommandView, store: Map<Seq<char>, Seq<char>>) -> (
    RespValue,
    Map<Seq<char>, Seq<char>>,
) {
    match cmd {
        CommandView::PING { message } => (
            match message {
                Some(m) => RespValue::BulkString(m),
                None => RespValue::SimpleString("PONG"@),
            },
            store,
        ),
        CommandView::ECHO { message } => (RespValue::BulkString(message), store),
        CommandView::SET { key, value } => (
            if store.contains_key(key) {
                RespValue::BulkString(store[key])
            } else {
                RespValue::SimpleString("OK"@)
            },
            store.insert(key, value),
        ),
        CommandView::GET { key } => (
            if store.contains_key(key) {
                RespValue::BulkString(store[key])
            } else {
                RespValue::Null
            },
            store,
        ),
    }
}

/// The arguments of a command as text.
pub open spec fn texts(args: Seq<String>) -> Seq<Seq<char>> {
    Seq::new(args.len(), |i: int| args[i]@)
}

impl RedisCommand {
    /// The command named `name`, which the caller has already lowered, with
    /// the arguments `args`.
    pub fn from_lowercase(name: String, args: Vec<String>) -> (r: Result<RedisCommand, RESPDataTypes>)
        ensures
            command_result_view(r) == spec_command(name@, texts(args@)),
    {
        let ghost a = texts(args@);
        if name == "ping".to_owned() {
            let mut message = None;
            if args.len() > 0 {
                message = Some(args[0].clone());
            }
            Ok(RedisCommand::PING { message })
        } else if name == "echo".to_owned() {
            if args.len() > 0 {
                Ok(RedisCommand::ECHO { message: args[0].clone() })
            } else {
                Err(RESPDataTypes::BulkError("message not provided for echo command".to_owned()))
            }
        } else if name == "set".to_owned() {
            if args.len() < 2 {
                Err(RESPDataTypes::BulkError("both key and value should be provided".to_owned()))
            } else {
                Ok(RedisCommand::SET { key: args[0].clone(), value: args[1].clone() })
            }
        } else if name == "get".to_owned() {
            if args.len() > 0 {
                Ok(RedisCommand::GET { key: args[0].clone() })
            } else {
                Err(RESPDataTypes::BulkError("key not provided".to_owned()))
            }
        } else {
            Err(RESPDataTypes::BulkError("unknown command".to_owned()))
        }
    }

    /// The command that `request` asks for, or the bulk error that explains
    /// why it asks for none.
    pub fn try_from(request: RESPDataTypes) -> (r: Result<RedisCommand, RESPDataTypes>)
        ensures
            command_result_view(r) == spec_try_from(request@),
    {
        let ghost req = request@;
        let elements = match request {
            RESPDataTypes::Array(elements) => elements,
            _ => {
                return Err(
                    RESPDataTypes::BulkError(
                        "resp datatype other than array of bulk string not supported".to_owned(),
                    ),
                );
            },
        };
        proof {
            lemma_array_view(RESPDataTypes::Array(elements));
        }
        let ghost elems = views(elements@);
        if elements.len() == 0 {
            return Err(RESPDataTypes::BulkError("no command provided".to_owned()));
        }
        let command = match &elements[0] {
            RESPDataTypes::BulkString(c) => {
                assert(elems[0] == RespValue::BulkString(c@));
                c
            },
            _ => {
                return Err(
                    RESPDataTypes::BulkError("command must be type of bulk string".to_owned()),
                );
            },
        };
        let mut args: Vec<String> = Vec::new();
        let mut i: usize = 1;
        while i < elements.len()
            invariant
                1 <= i <= elements@.len(),
                elems == views(elements@),
                req == RespValue::Array(elems),
                req == request@,
                elems[0] is BulkString,
                elems[0] == RespValue::BulkString(command@),
                args@.len() == i - 1,
                forall|j: int| 1 <= j < i ==> elems[j] is BulkString,
                forall|k: int|
                    0 <= k < i - 1 ==> #[trigger] texts(args@)[k] == elems[k + 1]->BulkString_0,
            decreases elements@.len() - i,
        {
            match &elements[i] {
                RESPDataTypes::BulkString(a) => {
                    let ghost before = args@;
                    assert(elems[i as int] == RespValue::BulkString(a@));
                    args.push(a.clone());
                    assert(texts(args@) =~= texts(before).push(a@));
                },
                _ => {
                    assert(!(elems[i as int] is BulkString));
                    assert(elems.drop_first()[i - 1] == elems[i as int]);

                    return Err(
                        RESPDataTypes::BulkError("argument must be type of bulk string".to_owned()),
                    );
                },
            }
            i = i + 1;
        }
        let ghost arg_texts = Seq::new(
            (elems.len() - 1) as nat,
            |j: int| elems[j + 1]->BulkString_0,
        );
        assert(texts(args@) =~= arg_texts);
        let name = to_lowercase(command.as_str());
        RedisCommand::from_lowercase(name, args)
    }

    /// Answers the command: updates `store` as `SET` does and appends the
    /// reply's bytes to `stream`.
    pub fn respond(&mut self, store: &mut KvStore, stream: &mut Vec<u8>)
        ensures
            final(self)@ == old(self)@,
            final(store)@ == spec_respond(old(self)@, old(store)@).1,
            final(stream)@ == old(stream)@ + spec_serialize(spec_respond(old(self)@, old(store)@).0),
    {
        let response = match self {
            RedisCommand::PING { message } => {
                match message {
                    Some(m) => RESPDataTypes::BulkString(m.clone()),
                    None => RESPDataTypes::SimpleString("PONG".to_owned()),
                }
            },
            RedisCommand::ECHO { message } => RESPDataTypes::BulkString(message.clone()),
            RedisCommand::SET { key, value } => {
                let previous = store.get(key);
                store.insert(key.clone(), value.clone());
                match previous {
                    Some(p) => RESPDataTypes::BulkString(p),
                    None => RESPDataTypes::SimpleString("OK".to_owned()),
                }
            },
            RedisCommand::GET { key } => {
                match store.get(key) {
                    Some(v) => RESPDataTypes::BulkString(v),
                    None => RESPDataTypes::Null,
                }
            },
        };
        response.write(stream);
    }
}

/// After `SET key value`, `GET key` answers with `value`.
pub proof fn law_get_after_set(store: Map<Seq<char>, Seq<char>>, key: Seq<char>, value: Seq<char>)
    ensures
        spec_respond(
            CommandView::GET { key },
            spec_respond(CommandView::SET { key, value }, store).1,
        ).0 == RespValue::BulkString(value),
{
}

/// A second `SET` of a key answers with the value the first one stored.
pub proof fn law_set_answers_previous(
    store: Map<Seq<char>, Seq<char>>,
    key: Seq<char>,
    first: Seq<char>,
    second: Seq<char>,
)
    ensures
        spec_respond(
            CommandView::SET { key, value: second },
            spec_respond(CommandView::SET { key, value: first }, store).1,
        ).0 == RespValue::BulkString(first),
{
}

/// `SET` of one key leaves what `GET` answers for every other key as it was.
pub proof fn law_set_leaves_other_keys(
    store: Map<Seq<char>, Seq<char>>,
    key: Seq<char>,
    other: Seq<char>,
    value: Seq<char>,
)
    requires
        key != other,
    ensures
        spec_respond(
            CommandView::GET { key: other },
            spec_respond(CommandView::SET { key, value }, store).1,
        ).0 == spec_respond(CommandView::GET { key: other }, store).0,
{
    assert(store.insert(key, value).contains_key(other) == store.contains_key(other));
}

/// `PING`, `ECHO` and `GET` leave the store as it was.
pub proof fn law_reads_keep_store(cmd: CommandView, store: Map<Seq<char>, Seq<char>>)
    requires
        !(cmd is SET),
    ensures
        spec_respond(cmd, store).1 == store,
{
}

/// A request that is an array of bulk strings asks for the command that its
/// first element names, once lowered, with the other elements as arguments.
pub proof fn law_request_names_command(args: Seq<Seq<char>>)
    requires
        args.len() > 0,
    ensures
        spec_try_from(RespValue::Array(bulk_strings(args))) == spec_command(
            lowercase(args[0]),
            args.drop_first(),
        ),
{
    let elems = bulk_strings(args);
    assert(all_bulk_strings(elems.drop_first())) by {
        assert forall|i: int| 0 <= i < elems.drop_first().len() implies (
        #[trigger] elems.drop_first()[i] is BulkString) by {
            assert(elems.drop_first()[i] == elems[i + 1]);
        }
    }
    assert(Seq::new((elems.len() - 1) as nat, |i: int| elems[i + 1]->BulkString_0) =~= args.drop_first());
}

/// A request that is an array of bulk strings names a command by its first
/// element, in any case, and the command takes its arguments from the other
/// elements exactly as they were sent: keys, values and messages are never
/// case-mapped.
pub proof fn law_request_arguments_verbatim(args: Seq<Seq<char>>)
    requires
        args.len() > 0,
    ensures
        lowercase(args[0]) == "ping"@ ==> spec_try_from(RespValue::Array(bulk_strings(args)))
            == Ok::<CommandView, RespValue>(
            CommandView::PING {
                message: if args.len() > 1 {
                    Some(args[1])
                } else {
                    None
                },
            },
        ),
        lowercase(args[0]) == "echo"@ && args.len() > 1 ==> spec_try_from(
            RespValue::Array(bulk_strings(args)),
        ) == Ok::<CommandView, RespValue>(CommandView::ECHO { message: args[1] }),
        lowercase(args[0]) == "set"@ && args.len() > 2 ==> spec_try_from(
            RespValue::Array(bulk_strings(args)),
        ) == Ok::<CommandView, RespValue>(CommandView::SET { key: args[1], value: args[2] }),
        lowercase(args[0]) == "get"@ && args.len() > 1 ==> spec_try_from(
            RespValue::Array(bulk_strings(args)),
        ) == Ok::<CommandView, RespValue>(CommandView::GET { key: args[1] }),
{
    reveal_strlit("ping");
    reveal_strlit("echo");
    reveal_strlit("set");
    reveal_strlit("get");
    assert("echo"@[0] != "ping"@[0]);
    assert("get"@.len() != "ping"@.len());
    assert("get"@.len() != "echo"@.len());
    assert("get"@[0] != "set"@[0]);
    law_request_names_command(args);
    let rest = args.drop_first();
    if args.len() > 1 {
        assert(rest[0] == args[1]);
    }
    if args.len() > 2 {
        assert(rest[1] == args[2]);
    }
}

/// `SET` of a key that the store does not hold answers `OK`, whatever else
/// the store holds, and stores the value.
pub proof fn law_set_new_key_answers_ok(
    store: Map<Seq<char>, Seq<char>>,
    key: Seq<char>,
    value: Seq<char>,
)
    requires
        !store.contains_key(key),
    ensures
        spec_respond(CommandView::SET { key, value }, store).0 == RespValue::SimpleString("OK"@),
        spec_respond(CommandView::SET { key, value }, store).1 == store.insert(key, value),
{
}

/// What `SET` and `GET` answer depends only on what the store holds under
/// their key.
pub proof fn law_answer_depends_only_on_key(
    first: Map<Seq<char>, Seq<char>>,
    second: Map<Seq<char>, Seq<char>>,
    key: Seq<char>,
    value: Seq<char>,
)
    requires
        first.contains_key(key) == second.contains_key(key),
        first.contains_key(key) ==> first[key] == second[key],
    ensures
        spec_respond(CommandView::SET { key, value }, first).0 == spec_respond(
            CommandView::SET { key, value },
            second,
        ).0,
        spec_respond(CommandView::GET { key }, first).0 == spec_respond(
            CommandView::GET { key },
            second,
        ).0,
{
}

/// `GET` answers with the stored value as a bulk string, or `Null` when the
/// key holds nothing.
pub proof fn law_get_answers_stored_value(store: Map<Seq<char>, Seq<char>>, key: Seq<char>)
    ensures
        store.contains_key(key) ==> spec_respond(CommandView::GET { key }, store).0
            == RespValue::BulkString(store[key]),
        !store.contains_key(key) ==> spec_respond(CommandView::GET { key }, store).0
            == RespValue::Null,
{
}

/// `PING` with a message and `ECHO` answer with the message as a bulk
/// string; `PING` alone answers `PONG`.
pub proof fn law_ping_echo_answers(store: Map<Seq<char>, Seq<char>>, message: Seq<char>)
    ensures
        spec_respond(CommandView::PING { message: Some(message) }, store).0
            == RespValue::BulkString(message),
        spec_respond(CommandView::PING { message: None }, store).0 == RespValue::SimpleString(
            "PONG"@,
        ),
        spec_respond(CommandView::ECHO { message }, store).0 == RespValue::BulkString(message),
{
}

/// The requests that name no command are answered with a bulk error that
/// says what is wrong with them.
pub proof fn law_request_errors(request: RespValue)
    ensures
        !(request is Array) ==> spec_try_from(request) == Err::<CommandView, RespValue>(
            RespValue::BulkError("resp datatype other than array of bulk string not supported"@),
        ),
        request == RespValue::Array(Seq::empty()) ==> spec_try_from(request) == Err::<
            CommandView,
            RespValue,
        >(RespValue::BulkError("no command provided"@)),
        request matches RespValue::Array(elems) && elems.len() > 0 && !(elems[0] is BulkString)
            ==> spec_try_from(request) == Err::<CommandView, RespValue>(
            RespValue::BulkError("command must be type of bulk string"@),
        ),
        request matches RespValue::Array(elems) && elems.len() > 0 && elems[0] is BulkString && (
        exists|i: int| 1 <= i < elems.len() && !(#[trigger] elems[i] is BulkString))
            ==> spec_try_from(request) == Err::<CommandView, RespValue>(
            RespValue::BulkError("argument must be type of bulk string"@),
        ),
{
    if request matches RespValue::Array(elems) && elems.len() > 0 && elems[0] is BulkString && (
    exists|i: int| 1 <= i < elems.len() && !(#[trigger] elems[i] is BulkString)) {
        let elems = request->Array_0;
        let i = choose|i: int| 1 <= i < elems.len() && !(#[trigger] elems[i] is BulkString);
        assert(elems.drop_first()[i - 1] == elems[i]);
    }
}

/// A command that is named but misses arguments, or a name that is no
/// command, is answered with a bulk error that says so.
pub proof fn law_command_errors(name: Seq<char>, args: Seq<Seq<char>>)
    ensures
        name == "echo"@ && args.len() == 0 ==> spec_command(name, args) == Err::<
            CommandView,
            RespValue,
        >(RespValue::BulkError("message not provided for echo command"@)),
        name == "set"@ && args.len() < 2 ==> spec_command(name, args) == Err::<
            CommandView,
            RespValue,
        >(RespValue::BulkError("both key and value should be provided"@)),
        name == "get"@ && args.len() == 0 ==> spec_command(name, args) == Err::<
            CommandView,
            RespValue,
        >(RespValue::BulkError("key not provided"@)),
        name != "ping"@ && name != "echo"@ && name != "set"@ && name != "get"@ ==> spec_command(
            name,
            args,
        ) == Err::<CommandView, RespValue>(RespValue::BulkError("unknown command"@)),
{
    reveal_strlit("ping");
    reveal_strlit("echo");
    reveal_strlit("set");
    reveal_strlit("get");
    assert("echo"@[0] != "ping"@[0]);
    assert("get"@.len() != "ping"@.len());
    assert("get"@.len() != "echo"@.len());
    assert("get"@[0] != "set"@[0]);
    assert("set"@.len() != "ping"@.len());
    assert("set"@.len() != "echo"@.len());
}

} // verus!

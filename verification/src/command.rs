use crate::byte_buf::bytes_view;
use crate::database::Database;
use crate::frame::{Frame, SpecFrame};
use crate::parse::{spec_finish, spec_next_bytes, spec_next_string, Error, Parse};
use crate::text::{ascii_upper, str_equal, str_to_uppercase, uppercase};
use bytes::Bytes;
use vstd::prelude::*;

verus! {

/// Reads the value of a key.
#[derive(Debug, PartialEq)]
pub struct Get {
    pub key: String,
}

/// Stores a value under a key.
#[derive(Debug, PartialEq)]
pub struct SetCmd {
    pub key: String,
    pub value: Bytes,
}

/// A request to the store.
#[derive(Debug, PartialEq)]
pub enum Command {
    Get(Get),
    SetCmd(SetCmd),
}

/// The mathematical value of a command.
pub enum SpecCommand {
    Get { key: Seq<char> },
    SetCmd { key: Seq<char>, value: Seq<u8> },
}

impl View for Command {
    type V = SpecCommand;

    open spec fn view(&self) -> SpecCommand {
        match self {
            Command::Get(g) => SpecCommand::Get { key: g.key@ },
            Command::SetCmd(s) => SpecCommand::SetCmd { key: s.key@, value: bytes_view(s.value) },
        }
    }
}

/// Reading the key of a GET from the parts, which must then be used up.
pub open spec fn spec_get_from_parse(parts: Seq<SpecFrame>) -> (Result<Seq<char>, Error>, Seq<SpecFrame>) {
    match spec_next_string(parts) {
        (Ok(key), rest) => match spec_finish(rest) {
            Ok(()) => (Ok(key), rest),
            Err(e) => (Err(e), rest),
        },
        (Err(e), rest) => (Err(e), rest),
    }
}

/// Reading the key and value of a SET from the parts, which must then be
/// used up.
pub open spec fn spec_set_from_parse(parts: Seq<SpecFrame>) -> (
    Result<(Seq<char>, Seq<u8>), Error>,
    Seq<SpecFrame>,
) {
    match spec_next_string(parts) {
        (Ok(key), rest) => match spec_next_bytes(rest) {
            (Ok(value), rest2) => match spec_finish(rest2) {
                Ok(()) => (Ok((key, value)), rest2),
                Err(e) => (Err(e), rest2),
            },
            (Err(e), rest2) => (Err(e), rest2),
        },
        (Err(e), rest) => (Err(e), rest),
    }
}

/// The command that an upper-case command name and its remaining parts
/// make.
pub open spec fn spec_from_name(name: Seq<char>, parts: Seq<SpecFrame>) -> Result<SpecCommand, Error> {
    if name == "GET"@ {
        match spec_get_from_parse(parts).0 {
            Ok(key) => Ok(SpecCommand::Get { key }),
            Err(e) => Err(e),
        }
    } else if name == "SET"@ {
        match spec_set_from_parse(parts).0 {
            Ok((key, value)) => Ok(SpecCommand::SetCmd { key, value }),
            Err(e) => Err(e),
        }
    } else {
        Err(Error::Other("Wrong message: Unsupported command, GET or SET expected"))
    }
}

/// The command that a frame stands for: an array whose first part names
/// the command, in any case.
pub open spec fn spec_command_from_frame(f: SpecFrame) -> Result<SpecCommand, Error> {
    match f {
        SpecFrame::Array(parts) => match spec_next_string(parts) {
            (Ok(name), rest) => spec_from_name(uppercase(name), rest),
            (Err(e), _) => Err(e),
        },
        _ => Err(Error::Other("Wrong message: Invalid command, Frame::Array expected")),
    }
}

/// Carrying out a command on the store's contents: the contents after it
/// and the reply.
pub open spec fn spec_apply(db: Map<Seq<char>, Seq<u8>>, c: SpecCommand) -> (
    Map<Seq<char>, Seq<u8>>,
    SpecFrame,
) {
    match c {
        SpecCommand::Get { key } => (
            db,
            if db.contains_key(key) {
                SpecFrame::Bulk(db[key])
            } else {
                SpecFrame::Null
            },
        ),
        SpecCommand::SetCmd { key, value } => (db.insert(key, value), SpecFrame::Simple("OK"@)),
    }
}

impl Get {
    /// Reads a GET's key from the parts.
    ///
    /// # Errors
    /// Those of `Parse::next_string`, or `Error::Other` when more parts
    /// follow the key.
    pub fn from_parse(parse: &mut Parse) -> (r: Result<Get, Error>)
        ensures
            final(parse)@ == spec_get_from_parse(old(parse)@).1,
            match r {
                Ok(g) => spec_get_from_parse(old(parse)@).0 == Ok::<Seq<char>, Error>(g.key@),
                Err(e) => spec_get_from_parse(old(parse)@).0 == Err::<Seq<char>, Error>(e),
            },
    {
        let key = parse.next_string()?;
        parse.finish()?;
        Ok(Get { key })
    }
}

impl SetCmd {
    /// Reads a SET's key and value from the parts.
    ///
    /// # Errors
    /// Those of `Parse::next_string` and `Parse::next_bytes`, or
    /// `Error::Other` when more parts follow the value.
    pub fn from_parse(parse: &mut Parse) -> (r: Result<SetCmd, Error>)
        ensures
            final(parse)@ == spec_set_from_parse(old(parse)@).1,
            match r {
                Ok(s) => spec_set_from_parse(old(parse)@).0 == Ok::<(Seq<char>, Seq<u8>), Error>(
                    (s.key@, bytes_view(s.value)),
                ),
                Err(e) => spec_set_from_parse(old(parse)@).0 == Err::<(Seq<char>, Seq<u8>), Error>(e),
            },
    {
        let key = parse.next_string()?;
        let value = parse.next_bytes()?;
        parse.finish()?;
        Ok(SetCmd { key, value })
    }
}

impl Command {
    /// The command that a frame stands for.
    ///
    /// # Errors
    /// `Error::Other` when the frame is not an array, or names a command
    /// other than GET or SET, or the errors of reading that command's parts.
    pub fn from_frame(frame: Frame) -> (r: Result<Command, Error>)
        ensures
            match r {
                Ok(c) => spec_command_from_frame(frame@) == Ok::<SpecCommand, Error>(c@),
                Err(e) => spec_command_from_frame(frame@) == Err::<SpecCommand, Error>(e),
            },
    {
        let mut parse = Parse::new(frame)?;
        let name = parse.next_string()?;
        let upper = str_to_uppercase(name.as_str());
        Command::from_name(upper.as_str(), &mut parse)
    }

    /// The command that an upper-case name and the parts after it make.
    ///
    /// # Errors
    /// `Error::Other` when the name is neither "GET" nor "SET", or the
    /// errors of reading that command's parts.
    pub fn from_name(name: &str, parse: &mut Parse) -> (r: Result<Command, Error>)
        ensures
            match r {
                Ok(c) => spec_from_name(name@, old(parse)@) == Ok::<SpecCommand, Error>(c@),
                Err(e) => spec_from_name(name@, old(parse)@) == Err::<SpecCommand, Error>(e),
            },
    {
        if str_equal(name, "GET") {
            let g = Get::from_parse(parse)?;
            Ok(Command::Get(g))
        } else if str_equal(name, "SET") {
            let s = SetCmd::from_parse(parse)?;
            Ok(Command::SetCmd(s))
        } else {
            Err(Error::Other("Wrong message: Unsupported command, GET or SET expected"))
        }
    }

    /// Carries out the command on the store and returns the reply: the
    /// value or a null for GET, "OK" for SET.
    pub fn apply(self, database: &mut Database) -> (reply: Frame)
        ensures
            (final(database)@, reply@) == spec_apply(old(database)@, self@),
    {
        match self {
            Command::Get(command) => match database.get(command.key.as_str()) {
                Some(bytes) => Frame::Bulk(bytes),
                None => Frame::Null,
            },
            Command::SetCmd(command) => {
                database.set(command.key, command.value);
                Frame::Simple("OK".to_owned())
            },
        }
    }
}

/// Upper-casing leaves the command names "GET" and "SET" as they are: the
/// fact that lets a request name its command in any case.
pub fn upper_case_command_names()
    ensures
        uppercase("GET"@) == "GET"@,
        uppercase("SET"@) == "SET"@,
{
    let get = str_to_uppercase("GET");
    let set = str_to_uppercase("SET");
    proof {
        reveal_strlit("GET");
        reveal_strlit("SET");
        assert(vstd::utf8::is_ascii_chars("GET"@));
        assert(vstd::utf8::is_ascii_chars("SET"@));
        assert("GET"@.map_values(|c: char| ascii_upper(c)) =~= "GET"@);
        assert("SET"@.map_values(|c: char| ascii_upper(c)) =~= "SET"@);
    }
}

} // verus!

use vstd::prelude::*;
use vstd::string::to_string_from_display_ensures_for_str;

use crate::types::{BulkString, RespValue};

verus! {

broadcast use to_string_from_display_ensures_for_str;

/// A request of the key-value service, decoded from an array of bulk
/// strings whose first element names the operation.
#[derive(Debug)]
pub enum Command {
    Get { key: BulkString },
    SetValue { key: BulkString, value: BulkString },
    Del { key: BulkString },
}

pub open spec fn get_name() -> Seq<char> {
    seq!['G', 'E', 'T']
}

pub open spec fn set_name() -> Seq<char> {
    seq!['S', 'E', 'T']
}

pub open spec fn del_name() -> Seq<char> {
    seq!['D', 'E', 'L']
}

pub open spec fn ok_text() -> Seq<char> {
    seq!['O', 'K']
}

/// `r` is the command that the frame `cmd` names, or `None` when the name is
/// unknown or the number of arguments is wrong.
pub open spec fn command_of(cmd: Seq<BulkString>, r: Option<Command>) -> bool {
    if cmd.len() == 2 && cmd[0]@ == get_name() {
        r matches Some(Command::Get { key }) && key@ == cmd[1]@
    } else if cmd.len() == 3 && cmd[0]@ == set_name() {
        r matches Some(Command::SetValue { key, value }) && key@ == cmd[1]@ && value@ == cmd[2]@
    } else if cmd.len() == 2 && cmd[0]@ == del_name() {
        r matches Some(Command::Del { key }) && key@ == cmd[1]@
    } else {
        r is None
    }
}

fn copy_bulk(b: &BulkString) -> (r: BulkString)
    ensures
        r@ == b@,
{
    BulkString::new(b.value().clone())
}

fn named(b: &BulkString, name: &str) -> (r: bool)
    ensures
        r == (b@ == name@),
{
    *b.value() == name.to_string()
}

impl Command {
    fn get(cmd: &Vec<BulkString>) -> (r: Option<Command>)
        ensures
            cmd@.len() != 2 ==> r is None,
            cmd@.len() == 2 ==> (r matches Some(Command::Get { key }) && key@ == cmd@[1]@),
    {
        if cmd.len() != 2 {
            None
        } else {
            Some(Command::Get { key: copy_bulk(&cmd[1]) })
        }
    }

    fn set(cmd: &Vec<BulkString>) -> (r: Option<Command>)
        ensures
            cmd@.len() != 3 ==> r is None,
            cmd@.len() == 3 ==> (r matches Some(Command::SetValue { key, value }) && key@ == cmd@[1]@
                && value@ == cmd@[2]@),
    {
        if cmd.len() != 3 {
            None
        } else {
            Some(Command::SetValue { key: copy_bulk(&cmd[1]), value: copy_bulk(&cmd[2]) })
        }
    }

    fn del(cmd: &Vec<BulkString>) -> (r: Option<Command>)
        ensures
            cmd@.len() != 2 ==> r is None,
            cmd@.len() == 2 ==> (r matches Some(Command::Del { key }) && key@ == cmd@[1]@),
    {
        if cmd.len() != 2 {
            None
        } else {
            Some(Command::Del { key: copy_bulk(&cmd[1]) })
        }
    }

    /// Recognises `GET key`, `SET key value` and `DEL key`; names are
    /// compared case-sensitively.
    pub fn from_cmd(cmd: &Vec<BulkString>) -> (r: Option<Command>)
        ensures
            command_of(cmd@, r),
    {
        proof {
            reveal_strlit("GET");
            reveal_strlit("SET");
            reveal_strlit("DEL");
            assert("GET"@ =~= get_name());
            assert("SET"@ =~= set_name());
            assert("DEL"@ =~= del_name());
        }
        if cmd.len() == 0 {
            return None;
        }
        let command = &cmd[0];
        if named(command, "GET") {
            Self::get(cmd)
        } else if named(command, "SET") {
            Self::set(cmd)
        } else if named(command, "DEL") {
            Self::del(cmd)
        } else {
            None
        }
    }

    /// The reply to this command, given what the store held under its key
    /// (the value read for `GET`, the value removed for `DEL`; unused for
    /// `SET`).
    pub fn response(&self, previous: Option<String>) -> (r: RespValue)
        ensures
            match self {
                Command::Get { .. } => match previous {
                    Some(v) => (r matches RespValue::Bulk(b) && b@ == v@),
                    None => r is Null,
                },
                Command::SetValue { .. } => (r matches RespValue::Simple(s) && s@ == ok_text()),
                Command::Del { .. } => match previous {
                    Some(_) => (r matches RespValue::Simple(s) && s@ == ok_text()),
                    None => r is Null,
                },
            },
    {
        proof {
            reveal_strlit("OK");
            assert("OK"@ =~= ok_text());
        }
        match self {
            Command::Get { .. } => match previous {
                Some(v) => RespValue::Bulk(BulkString::new(v)),
                None => RespValue::Null,
            },
            Command::SetValue { .. } => RespValue::Simple("OK".to_string()),
            Command::Del { .. } => match previous {
                Some(_) => RespValue::Simple("OK".to_string()),
                None => RespValue::Null,
            },
        }
    }
}

} // verus!

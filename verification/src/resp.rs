//! Values of the RESP protocol, and their abstract model.
use vstd::prelude::*;

use crate::text::{concat_text, text};

verus! {

#[derive(Debug, PartialEq)]
pub enum RespValue {
    SimpleString(String),
    Error(String),
    Integer(i64),
    BulkString(Option<String>),
    Array(Option<Vec<RespValue>>),
}

/// The abstract content of a RESP value.
pub enum Reply {
    Status(Seq<char>),
    Failure(Seq<char>),
    Number(int),
    Bulk(Option<Seq<char>>),
    List(Option<Seq<Reply>>),
}

pub open spec fn reply_of(r: RespValue) -> Reply
    decreases r,
{
    match r {
        RespValue::SimpleString(s) => Reply::Status(s@),
        RespValue::Error(s) => Reply::Failure(s@),
        RespValue::Integer(n) => Reply::Number(n as int),
        RespValue::BulkString(None) => Reply::Bulk(None),
        RespValue::BulkString(Some(s)) => Reply::Bulk(Some(s@)),
        RespValue::Array(None) => Reply::List(None),
        RespValue::Array(Some(v)) => Reply::List(
            Some(
                Seq::new(
                    v@.len(),
                    |i: int|
                        if 0 <= i < v@.len() {
                            proof {
                                assert(decreases_to!(v => v@));
                                assert(decreases_to!(v@ => v@[i]));
                            }
                            reply_of(v@[i])
                        } else {
                            Reply::Number(0)
                        },
                ),
            ),
        ),
    }
}

impl View for RespValue {
    type V = Reply;

    open spec fn view(&self) -> Reply {
        reply_of(*self)
    }
}

/// The text `+OK`-style status replies carry for success.
pub open spec fn ok_reply() -> Reply {
    Reply::Status("OK"@)
}

/// An error reply with the conventional `ERR ` prefix.
pub open spec fn err_reply(msg: Seq<char>) -> Reply {
    Reply::Failure("ERR "@ + msg)
}

pub open spec fn wrongtype_text() -> Seq<char> {
    "WRONGTYPE Operation against a key holding the wrong kind of value"@
}

impl RespValue {
    /// `+OK`.
    pub fn ok() -> (r: RespValue)
        ensures
            r@ == ok_reply(),
    {
        RespValue::SimpleString(text("OK"))
    }

    /// An error reply: `ERR ` and `msg`.
    pub fn error(msg: &str) -> (r: RespValue)
        ensures
            r@ == err_reply(msg@),
    {
        RespValue::Error(concat_text("ERR ", msg))
    }

    /// The reply to an operation on a key of another type.
    pub fn wrongtype() -> (r: RespValue)
        ensures
            r@ == Reply::Failure(wrongtype_text()),
    {
        RespValue::Error(text("WRONGTYPE Operation against a key holding the wrong kind of value"))
    }
}

} // verus!

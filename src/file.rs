//! The snapshot that a primary sends after FULLRESYNC.
//!
//! The payload is a fixed, base64-encoded empty database file, sent as an
//! ordinary bulk string (with its trailing CRLF).
use crate::data::Data;
use crate::resp::{Frame, RespOut};
use vstd::prelude::*;

verus! {

pub const EMPTY_RDB: &'static str = "UkVESVMwMDEx+glyZWRpcy12ZXIFNy4yLjD6CnJlZGlzLWJpdHPAQPoFY3RpbWXCbQi8ZfoIdXNlZC1tZW3CsMQQAPoIYW9mLWJhc2XAAP/wbjv+wP9aog==";

/// The snapshot of the store, as a bulk string.
pub fn construct_rdb_file<D: Data>(_data: &D) -> (r: RespOut)
    ensures
        r@ == Frame::Bulk(EMPTY_RDB@),
{
    RespOut::BulkString(String::from_str(EMPTY_RDB))
}

} // verus!

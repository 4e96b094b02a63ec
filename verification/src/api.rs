//! What a server tells other servers of its records.

use vstd::prelude::*;
use crate::dns::store::{expired, RecordStore, RecordStoreData};
use crate::ip::SocketAddr;
use crate::time::{on_clock, Timestamp};

verus! {

/// Where the records are told.
#[derive(Clone, Copy, PartialEq, Eq, Debug, Hash, Structural)]
pub struct ApiConfig {
    pub address: SocketAddr,
}

/// The records of a server, with its version and its identifier.
#[derive(Debug)]
pub struct ApiRecords {
    pub server_version: String,
    pub server_id: u128,
    pub store: RecordStoreData,
}

/// The records that a server tells: those that hold now.
pub fn v2_records(version: &str, server_id: u128, record_store: &RecordStore) -> (r: ApiRecords)
    ensures
        r.server_version@ == version@,
        r.server_id == server_id,
        exists|time: Timestamp|
            r.store@ == #[trigger] expired(record_store@, time) && on_clock(time),
{
    ApiRecords {
        server_version: version.to_owned(),
        server_id,
        store: record_store.store_data(),
    }
}

} // verus!

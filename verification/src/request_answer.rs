//! The answer a node gives about a file it holds.

use vstd::prelude::*;

verus! {

/// Which chunks of a file a node holds, and how fast it sends them.
pub struct RequestAnswer {
    pub filename: String,
    pub file_owner_ip: String,
    pub number_of_chunks_present: u64,
    pub chunks_present: Vec<u64>,
    pub transfer_speed: u32,
}

impl RequestAnswer {
    pub fn new(
        filename: String,
        file_owner_ip: String,
        number_of_chunks_present: u64,
        chunks_present: Vec<u64>,
        transfer_speed: u32,
    ) -> (r: RequestAnswer)
        ensures
            r.filename@ == filename@,
            r.file_owner_ip@ == file_owner_ip@,
            r.number_of_chunks_present == number_of_chunks_present,
            r.chunks_present@ == chunks_present@,
            r.transfer_speed == transfer_speed,
    {
        RequestAnswer {
            filename,
            file_owner_ip,
            number_of_chunks_present,
            chunks_present,
            transfer_speed,
        }
    }
}

} // verus!

//! A log-structured key/value store: the record codec, the key directory, the
//! writer's bookkeeping and compaction, the layout of the store directory, and the
//! request/response protocol with the server's dispatch.
mod json;
pub mod codec;
pub mod engine;
pub mod errors;
pub mod keydir;
pub mod logdir;
pub mod protocol;
pub mod server;

pub use codec::{decode_all, decode_cmd, encode_cmd, Cmd, CmdModel};
pub use engine::{read_value, CompactionPlan, EncodedCmd, KvsCore, COMPACT_THRESHOLD};
pub use errors::KvsError;
pub use keydir::CmdPos;
pub use logdir::{log_id_of, sorted_file_list, stale_logs, to_log_file};
pub use protocol::{
    decode_get_resp, decode_remove_resp, decode_request, decode_set_resp, encode_get_resp,
    request_may_follow,
    encode_remove_resp, encode_request, encode_set_resp, GetResp, RemoveResp, Request, SetResp,
};
pub use server::{get_reply, remove_reply, set_reply, answered, unit_reply, value_reply, Engine, Server};

//! Library for querying and reprogramming a keyboard's firmware over a raw
//! bidirectional byte device, using a fixed-size framed request/response
//! protocol: frame construction and parsing, chunked data transfer, the
//! profile switch/restore discipline, and the binary/text serialization of
//! keymap profile data.

mod channel;
mod error;
mod frame;
mod info;
mod keymap;
mod layout;
mod profile;
mod transfer;
mod util;

pub use channel::Channel;
pub use error::Error;
pub use frame::{
    build_chunk_read, build_chunk_write, build_simple_get, build_simple_set, chunk_read_payload,
    response_value, simple_get_payload, Frame, CHUNK_CAPACITY, FRAME_LEN, GET_BOOT_LOADER_VERSION,
    GET_CURRENT_PROFILE, GET_DIPSW, GET_FIRMWARE_VERSION, GET_KEYBOARD_LAYOUT, GET_MODEL_NAME,
    GET_PRODUCT_NAME, GET_SERIAL_NUMBER, OP_CHUNK_READ, OP_CHUNK_WRITE, OP_SIMPLE_GET,
    OP_SIMPLE_SET, SET_CURRENT_PROFILE,
};
pub use info::{pack_dipsw, parse_dipsw, truncate_nul_str};
pub use keymap::{
    lemma_canonical_scan, lemma_doc_injective, parse_toml_string, serialize_to_toml_string,
    spec_doc, spec_scan, DOC_LEN, LAYER_DATA_LEN, PROFILE_DATA_LEN,
};
pub use layout::{format_row, BLANK_FLAG};
pub use profile::{
    get_current_profile, lemma_non_switch_frames, lemma_profile_restored, read_profile,
    read_profile_data, set_current_profile, spec_profile_after, write_profile, PROFILE_COUNT,
};
pub use transfer::{
    get_simple, lemma_chunk_plan, read_data, spec_chunk_reads, spec_chunk_size, spec_chunk_writes,
    write_data, MAX_DATA_CHUNK_LEN,
};

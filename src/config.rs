//! Where the click log lives and how much of it the window keeps.
use vstd::prelude::*;
use vstd::string::StringSliceAdditionalSpecFns;
use vstd::utf8::{encode_utf8, encode_utf8_valid_utf8, valid_utf8_concat};

use crate::lines::{append_slice, utf8_text};

verus! {

/// The settings of the click log.
pub struct ApConfig {
    /// The directory that holds the durable click log.
    pub storage_dir: String,
    /// The capacity of the in-memory window, in bytes.
    pub click_buffer_size: usize,
}

impl ApConfig {
    /// The path of the durable click log: `click.log` in the storage directory.
    pub fn click_log_path(&self) -> (r: String)
        ensures
            encode_utf8(r@) == encode_utf8(self.storage_dir@) + encode_utf8("/click.log"@),
    {
        let name = "/click.log";
        let mut out: Vec<u8> = Vec::new();
        append_slice(&mut out, self.storage_dir.as_str().as_bytes());
        append_slice(&mut out, name.as_bytes());
        proof {
            encode_utf8_valid_utf8(self.storage_dir@);
            encode_utf8_valid_utf8(name@);
            valid_utf8_concat(encode_utf8(self.storage_dir@), encode_utf8(name@));
        }
        utf8_text(out.as_slice())
    }
}

} // verus!

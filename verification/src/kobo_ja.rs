//! The record type of the Kobo Japanese-Japanese dictionary: one entry
//! per headword, as parsed out of the device's own dictionary archive.

use vstd::prelude::*;

verus! {

/// One headword of the device dictionary: its lookup key, its writings,
/// its kana pronunciation, and its rendered definition markup.
#[derive(Clone, Debug)]
pub struct Entry {
    pub key: String,
    pub writings: Vec<String>,
    pub kana: String,
    pub definition: String,
}

impl Entry {
    /// An entry with the given fields.
    pub fn new(key: String, writings: Vec<String>, kana: String, definition: String) -> (r: Entry)
        ensures
            r.key@ == key@,
            r.writings.deep_view() == writings.deep_view(),
            r.kana@ == kana@,
            r.definition@ == definition@,
    {
        Entry { key, writings, kana, definition }
    }
}

} // verus!

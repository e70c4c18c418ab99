//! Descriptive metadata of a decrypted file, as it is handed to the stages
//! that tag and transcode it.

use vstd::prelude::*;

verus! {

/// The tag list of a file. Tags are edited by the tagging stage, which
/// works on the decrypted container itself; the list holds no entries of
/// its own, so the editing calls leave it as it is.
#[derive(Debug, Clone, Copy, PartialEq, Eq, Structural)]
pub struct AppleListBox;

impl AppleListBox {
    pub fn edit_or_add_tag(&mut self, _tag: &str, _value: &str)
        ensures
            *final(self) == *old(self),
    {
    }

    pub fn edit_or_add_freeform_tag(&mut self, _domain: &str, _name: &str, _value: &str)
        ensures
            *final(self) == *old(self),
    {
    }
}

/// The tags of an audio book.
pub struct AppleTags {
    pub title: String,
    pub title_sans_unabridged: String,
    pub album: Option<String>,
    pub narrator: Option<String>,
    pub copyright: Option<String>,
    pub cover: Option<Vec<u8>>,
    pub asin: Option<String>,
    pub apple_list_box: AppleListBox,
}

/// A decrypted file seen through its tags.
pub struct Mp4File {
    pub apple_tags: AppleTags,
}

} // verus!

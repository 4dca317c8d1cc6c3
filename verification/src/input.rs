//! A source file: its identity, version and text.
use vstd::prelude::*;

use crate::text::owned;

verus! {

/// A source file's content and metadata.
pub struct SourceFile {
    /// The identity of this file (as URI string).
    pub uri: String,
    /// The version number (from the editor).
    pub version: i32,
    /// The source text content.
    pub text: String,
}

impl SourceFile {
    pub fn new(uri: String, version: i32, text: String) -> (r: SourceFile)
        ensures
            r.uri@ == uri@,
            r.version == version,
            r.text@ == text@,
    {
        SourceFile { uri, version, text }
    }

    pub fn uri(&self) -> (r: &str)
        ensures
            r@ == self.uri@,
    {
        self.uri.as_str()
    }

    pub fn version(&self) -> (r: i32)
        ensures
            r == self.version,
    {
        self.version
    }

    pub fn text(&self) -> (r: &str)
        ensures
            r@ == self.text@,
    {
        self.text.as_str()
    }

    /// A copy of this file.
    pub fn duplicate(&self) -> (r: SourceFile)
        ensures
            r.uri@ == self.uri@,
            r.version == self.version,
            r.text@ == self.text@,
    {
        SourceFile { uri: owned(self.uri.as_str()), version: self.version, text: owned(self.text.as_str()) }
    }
}

} // verus!

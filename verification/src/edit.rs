//! Planned rewrites of files.

use vstd::prelude::*;

use crate::text::texts;

verus! {

/// One file's planned rewrite, holding both versions of its contents so a
/// failed release can put it back exactly.
#[derive(Debug)]
pub struct Edit {
    /// The components of its path.
    pub path: Vec<String>,
    /// Repo relative path, for logs and git pathspecs.
    pub label: String,
    /// The version text being replaced; a lockfile can lag its manifest.
    pub from: String,
    pub original: String,
    pub updated: String,
}

/// An [`Edit`] with its texts as sequences of characters.
pub struct EditModel {
    pub path: Seq<Seq<char>>,
    pub label: Seq<char>,
    pub from: Seq<char>,
    pub original: Seq<char>,
    pub updated: Seq<char>,
}

impl View for Edit {
    type V = EditModel;

    open spec fn view(&self) -> EditModel {
        EditModel {
            path: texts(self.path@),
            label: self.label@,
            from: self.from@,
            original: self.original@,
            updated: self.updated@,
        }
    }
}

/// Edits as models.
pub open spec fn edit_models(edits: Seq<Edit>) -> Seq<EditModel> {
    Seq::new(edits.len(), |i: int| edits[i]@)
}

} // verus!

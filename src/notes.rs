//! Requests that change a note.
use vstd::prelude::*;

verus! {

/// A change to the note at some path: save new content with a commit
/// message, or rename the note at `from` to that path.
#[derive(Clone, Debug)]
pub enum NoteSave {
    Save { content: String, message: String },
    Rename { from: String },
}

impl NoteSave {
    /// The message of the commit that applies the change to the note at
    /// `path`: the given message for a save, `Rename <from> to <path>` for
    /// a rename.
    pub fn commit_message(&self, path: &String) -> (r: String)
        ensures
            match self {
                NoteSave::Save { message, .. } => r@ == message@,
                NoteSave::Rename { from } => r@ == "Rename "@ + from@ + " to "@ + path@,
            },
    {
        match self {
            NoteSave::Save { message, .. } => message.clone(),
            NoteSave::Rename { from } => {
                let mut r = String::from_str("Rename ");
                r.append(from.as_str());
                r.append(" to ");
                r.append(path.as_str());
                proof {
                    reveal_strlit("Rename ");
                    reveal_strlit(" to ");
                }
                r
            },
        }
    }
}

} // verus!

//! Records that are stored as JSON text.

use vstd::prelude::*;

verus! {

/// A record with a JSON text of its own, written by `to_json` and read back
/// by `from_json`.
pub trait JsonSerializable: Sized {
    /// The JSON text of the record.
    spec fn json_text(&self) -> Seq<char>;

    /// Writes the record as JSON text.
    fn to_json(&self) -> (r: String)
        ensures
            r@ == self.json_text(),
    ;

    /// Reads a record from JSON text: `None` exactly when the text is the JSON
    /// text of no record.
    fn from_json(text: &str) -> (r: Option<Self>)
        ensures
            r matches Some(x) ==> x.json_text() == text@,
            r is None ==> forall|x: Self| #[trigger] x.json_text() != text@,
    ;
}

} // verus!

use vstd::prelude::*;

verus! {

/// A note, identified by the path of the file that holds it.
pub struct RoamFile {
    pub path: String,
}

/// The paths of a sequence of notes.
pub open spec fn paths_of(files: Seq<RoamFile>) -> Seq<Seq<char>> {
    files.map_values(|f: RoamFile| f.path@)
}

/// How the link database stores a text value: between double quotes.
pub open spec fn quoted(text: Seq<char>) -> Seq<char> {
    seq!['"'] + text + seq!['"']
}

/// The text of a stored value: without its surrounding double quotes where
/// it has them, unchanged otherwise.
pub open spec fn unquoted(stored: Seq<char>) -> Seq<char> {
    if stored.len() >= 2 && stored[0] == '"' && stored[stored.len() - 1] == '"' {
        stored.subrange(1, stored.len() - 1)
    } else {
        stored
    }
}

/// Reading a stored value gives back the text that was stored.
pub proof fn lemma_unquoted_quoted(text: Seq<char>)
    ensures
        unquoted(quoted(text)) == text,
{
    assert(unquoted(quoted(text)) =~= text);
}

impl RoamFile {
    pub fn new(path: String) -> (r: RoamFile)
        ensures
            r.path@ == path@,
    {
        RoamFile { path }
    }

    /// The note's path in the form the link database stores it.
    pub fn to_store_text(&self) -> (r: String)
        ensures
            r@ == quoted(self.path@),
    {
        let quote = "\"";
        proof {
            reveal_strlit("\"");
        }
        let mut r = String::from_str(quote);
        r.append(self.path.as_str());
        r.append(quote);
        r
    }

    /// The note whose path the link database stores as `stored`.
    pub fn from_store_text(stored: &str) -> (r: RoamFile)
        ensures
            r.path@ == unquoted(stored@),
    {
        let n = stored.unicode_len();
        if n >= 2 && stored.get_char(0) == '"' && stored.get_char(n - 1) == '"' {
            RoamFile { path: String::from_str(stored.substring_char(1, n - 1)) }
        } else {
            RoamFile { path: String::from_str(stored) }
        }
    }

    pub fn as_str(&self) -> (r: &str)
        ensures
            r@ == self.path@,
    {
        self.path.as_str()
    }
}

impl Clone for RoamFile {
    fn clone(&self) -> (r: RoamFile)
        ensures
            r.path@ == self.path@,
    {
        RoamFile { path: self.path.clone() }
    }
}

} // verus!

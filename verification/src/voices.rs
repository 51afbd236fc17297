//! The voice of a sign: which recording says it, and the one asked for.
//!
//! A screen does not play a voice: it asks for one, and the main loop, which
//! may wait for the sound to load, serves the request at the next frame. Two
//! requests close together replace each other rather than pile up.

use vstd::prelude::*;

use crate::keyed::TextMap;

verus! {

/// The recordings of every script, and the request waiting to be served.
pub struct Voices {
    /// Script, then sign, to the name of the file that says it.
    pub index: TextMap<TextMap<String>>,
    /// The script and the sign a screen asked to hear, not played yet.
    pub pending: Option<(String, String)>,
}

/// What is left of a request once another one came: the later one, when
/// its sign can be heard.
pub open spec fn after_request(
    asked: Option<(Seq<char>, Seq<char>)>,
    heard: bool,
    language: Seq<char>,
    glyph: Seq<char>,
) -> Option<(Seq<char>, Seq<char>)> {
    if heard {
        Some((language, glyph))
    } else {
        asked
    }
}

impl Voices {
    /// Well formed: every index is sorted.
    pub open spec fn wf(&self) -> bool {
        &&& self.index.wf()
        &&& forall|l: Seq<char>| #[trigger] self.index.as_map().contains_key(l) ==> self.index.as_map()[l].wf()
    }

    /// The file that says `glyph` in script `language`, if one does.
    pub open spec fn file_of(&self, language: Seq<char>, glyph: Seq<char>) -> Option<Seq<char>> {
        if self.index.as_map().contains_key(language) && self.index.as_map()[language].as_map().contains_key(glyph) {
            Some(self.index.as_map()[language].as_map()[glyph]@)
        } else {
            None
        }
    }

    /// The request waiting, as texts.
    pub open spec fn asked(&self) -> Option<(Seq<char>, Seq<char>)> {
        match self.pending {
            Some((language, glyph)) => Some((language@, glyph@)),
            None => None,
        }
    }

    /// No recording, nothing asked.
    pub fn new() -> (v: Voices)
        ensures
            v.wf(),
            forall|l: Seq<char>, g: Seq<char>| v.file_of(l, g) is None,
            v.asked() is None,
    {
        Voices { index: TextMap::new(), pending: None }
    }

    /// Takes in the recordings of a script: `files` gives, for each sign,
    /// the file that says it. A script given twice keeps the later index.
    pub fn add_language(&mut self, language: String, files: TextMap<String>)
        requires
            old(self).wf(),
            files.wf(),
        ensures
            final(self).wf(),
            forall|l: Seq<char>, g: Seq<char>|
                #[trigger] final(self).file_of(l, g) == if l == language@ {
                    if files.as_map().contains_key(g) {
                        Some(files.as_map()[g]@)
                    } else {
                        None
                    }
                } else {
                    old(self).file_of(l, g)
                },
            final(self).asked() == old(self).asked(),
    {
        let ghost name = language@;
        let ghost kept = files;
        self.index.insert(language, files);
        proof {
            assert(self.index.as_map()[name] == kept);
        }
    }

    /// Has this sign a recording? Screens ask before offering a button
    /// that would say nothing.
    pub fn knows(&self, language: &str, glyph: &str) -> (heard: bool)
        requires
            self.wf(),
        ensures
            heard == self.file_of(language@, glyph@) is Some,
    {
        match self.index.get(language) {
            Some(files) => files.contains_key(glyph),
            None => false,
        }
    }

    /// Asks to hear a sign. Without effect when it has no recording; the
    /// last request of a frame wins, so that two buttons pressed in one
    /// breath do not speak at once.
    pub fn request(&mut self, language: &str, glyph: &str)
        requires
            old(self).wf(),
        ensures
            final(self).wf(),
            final(self).index == old(self).index,
            final(self).asked() == after_request(
                old(self).asked(),
                old(self).file_of(language@, glyph@) is Some,
                language@,
                glyph@,
            ),
    {
        if self.knows(language, glyph) {
            self.pending = Some((language.to_string(), glyph.to_string()));
        }
    }

    /// Serves the request waiting, once: the script and the file to play,
    /// if a request waits and its sign has a recording.
    pub fn take_request(&mut self) -> (served: Option<(String, String)>)
        requires
            old(self).wf(),
        ensures
            final(self).wf(),
            final(self).index == old(self).index,
            final(self).asked() is None,
            match old(self).asked() {
                None => served is None,
                Some((l, g)) => match old(self).file_of(l, g) {
                    None => served is None,
                    Some(file) => served matches Some((language, name)) && language@ == l && name@ == file,
                },
            },
    {
        let asked = self.pending.take();
        match asked {
            None => None,
            Some((language, glyph)) => {
                let file = match self.index.get(language.as_str()) {
                    Some(files) => match files.get(glyph.as_str()) {
                        Some(file) => Some(file.clone()),
                        None => None,
                    },
                    None => None,
                };
                match file {
                    Some(name) => Some((language, name)),
                    None => None,
                }
            },
        }
    }
}

/// Of two requests in one frame, the later is served when its sign has a
/// recording, whatever came before.
pub proof fn law_last_request_wins(
    asked: Option<(Seq<char>, Seq<char>)>,
    first_heard: bool,
    first: (Seq<char>, Seq<char>),
    second: (Seq<char>, Seq<char>),
)
    ensures
        after_request(after_request(asked, first_heard, first.0, first.1), true, second.0, second.1) == Some(second),
{
}

/// A request for a sign without a recording changes nothing.
pub proof fn law_silent_request_ignored(asked: Option<(Seq<char>, Seq<char>)>, language: Seq<char>, glyph: Seq<char>)
    ensures
        after_request(asked, false, language, glyph) == asked,
{
}

} // verus!

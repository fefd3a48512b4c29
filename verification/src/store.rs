//! An in-memory image of the vault's note files, keyed by canonical path.
//!
//! The engine works against this store: each entry carries the file's
//! modification time and its content, or no content where the file exists but
//! could not be read.

use vstd::prelude::*;

use crate::strutil::bytes_eq;

verus! {

/// One note file: canonical path, modification time (seconds; zero when the
/// time could not be read), and content (`None` for an unreadable file).
pub struct NoteFile {
    pub path: Vec<u8>,
    pub mtime: u64,
    pub content: Option<Vec<u8>>,
}

/// The spec view of optional note content.
pub open spec fn opt_bytes_view(c: Option<Vec<u8>>) -> Option<Seq<u8>> {
    match c {
        Some(cc) => Some(cc@),
        None => None,
    }
}

/// Spec-level mirror of one note file.
pub struct NoteV {
    pub mtime: u64,
    pub content: Option<Seq<u8>>,
}

impl View for NoteFile {
    type V = NoteV;

    open spec fn view(&self) -> NoteV {
        NoteV { mtime: self.mtime, content: opt_bytes_view(self.content) }
    }
}

/// Some index of the note keyed by `p`.
pub open spec fn note_index_of(s: Seq<NoteFile>, p: Seq<u8>) -> int {
    choose|i: int| 0 <= i < s.len() && (#[trigger] s[i]).path@ == p
}

/// The note list as a map from canonical path to note.
pub open spec fn notes_view(s: Seq<NoteFile>) -> Map<Seq<u8>, NoteV> {
    Map::new(
        |p: Seq<u8>| exists|i: int| 0 <= i < s.len() && (#[trigger] s[i]).path@ == p,
        |p: Seq<u8>| s[note_index_of(s, p)]@,
    )
}

/// The notes of one vault, read into memory.
pub struct NoteStore {
    notes: Vec<NoteFile>,
}

impl View for NoteStore {
    type V = Map<Seq<u8>, NoteV>;

    closed spec fn view(&self) -> Map<Seq<u8>, NoteV> {
        notes_view(self.notes@)
    }
}

impl NoteStore {
    /// Paths are unique.
    pub closed spec fn wf(&self) -> bool {
        forall|i: int, j: int|
            0 <= i < j < self.notes@.len() ==> (#[trigger] self.notes@[i]).path@ != (
            #[trigger] self.notes@[j]).path@
    }

    /// An empty store.
    pub fn new() -> (r: NoteStore)
        ensures
            r.wf(),
            r@ == Map::<Seq<u8>, NoteV>::empty(),
    {
        let r = NoteStore { notes: Vec::new() };
        proof {
            assert(r@ =~= Map::<Seq<u8>, NoteV>::empty());
        }
        r
    }

    /// Register one note, replacing any earlier note under the same path.
    pub fn add(&mut self, path: Vec<u8>, mtime: u64, content: Option<Vec<u8>>)
        requires
            old(self).wf(),
        ensures
            final(self).wf(),
            final(self)@ == old(self)@.insert(
                path@,
                NoteV { mtime, content: opt_bytes_view(content) },
            ),
    {
        let ghost s0 = self.notes@;
        let ghost pp = path@;
        let n = self.notes.len();
        let found = self.find_note(&path);
        let note = NoteFile { path, mtime, content };
        let ghost nv = note@;
        if found < n {
            proof {
                let w = note_index_of(s0, pp);
                assert(0 <= w < s0.len() && s0[w].path@ == pp);
            }
            self.notes.set(found, note);
            proof {
                let s1 = self.notes@;
                assert(s1[found as int].path@ == pp && s1[found as int]@ == nv);
                assert forall|a: int, b: int|
                    0 <= a < b < s1.len() implies (#[trigger] s1[a]).path@ != (
                #[trigger] s1[b]).path@ by {
                    assert(s0[a].path@ != s0[b].path@);
                    if a != found && b != found {
                        assert(s1[a] == s0[a] && s1[b] == s0[b]);
                    }
                }
                lemma_notes_insert_at(s0, s1, found as int, pp, nv);
            }
        } else {
            proof {
                if notes_view(s0).contains_key(pp) {
                    let w = choose|j: int| 0 <= j < s0.len() && (#[trigger] s0[j]).path@ == pp;
                    assert(false);
                }
            }
            self.notes.push(note);
            proof {
                let s1 = self.notes@;
                assert(s1.last().path@ == pp && s1.last()@ == nv);
                assert forall|a: int, b: int|
                    0 <= a < b < s1.len() implies (#[trigger] s1[a]).path@ != (
                #[trigger] s1[b]).path@ by {
                    if b < s1.len() - 1 {
                        assert(s1[a] == s0[a] && s1[b] == s0[b]);
                    } else {
                        assert(s1[a] == s0[a]);
                    }
                }
                lemma_notes_insert_at(s0, s1, s0.len() as int, pp, nv);
            }
        }
    }

    /// The position of the note keyed by `path`, or the note count.
    fn find_note(&self, path: &Vec<u8>) -> (r: usize)
        requires
            self.wf(),
        ensures
            r <= self.notes@.len(),
            r < self.notes@.len() ==> self.notes@[r as int].path@ == path@,
            r == self.notes@.len() ==> forall|j: int|
                0 <= j < self.notes@.len() ==> (#[trigger] self.notes@[j]).path@ != path@,
    {
        let mut i: usize = 0;
        let n = self.notes.len();
        while i < n
            invariant
                i <= n,
                n == self.notes@.len(),
                forall|j: int| 0 <= j < i ==> (#[trigger] self.notes@[j]).path@ != path@,
            decreases n - i,
        {
            if bytes_eq(&self.notes[i].path, path) {
                return i;
            }
            i = i + 1;
        }
        n
    }

    /// The note under a canonical path, if the store holds one.
    pub fn lookup(&self, path: &Vec<u8>) -> (r: Option<&NoteFile>)
        requires
            self.wf(),
        ensures
            match r {
                Some(n) => self@.contains_key(path@) && n@ == self@[path@],
                None => !self@.contains_key(path@),
            },
    {
        let mut i: usize = 0;
        while i < self.notes.len()
            invariant
                i <= self.notes@.len(),
                self.wf(),
                forall|j: int| 0 <= j < i ==> (#[trigger] self.notes@[j]).path@ != path@,
            decreases self.notes@.len() - i,
        {
            if bytes_eq(&self.notes[i].path, path) {
                proof {
                    let w = note_index_of(self.notes@, path@);
                    assert(0 <= w < self.notes@.len() && self.notes@[w].path@ == path@);
                    assert(w == i as int);
                }
                return Some(&self.notes[i]);
            }
            i = i + 1;
        }
        proof {
            if self@.contains_key(path@) {
                let w = choose|j: int|
                    0 <= j < self.notes@.len() && (#[trigger] self.notes@[j]).path@ == path@;
                assert(false);
            }
        }
        None
    }
}

/// A note list whose entry at `at` was set to path `pp` (held nowhere else)
/// reads as the old map with `pp` bound anew.
proof fn lemma_notes_insert_at(s0: Seq<NoteFile>, s1: Seq<NoteFile>, at: int, pp: Seq<u8>, nv: NoteV)
    requires
        0 <= at <= s0.len(),
        s1.len() == if at < s0.len() {
            s0.len() as int
        } else {
            s0.len() + 1int
        },
        forall|j: int| 0 <= j < s1.len() && j != at ==> s1[j] == s0[j],
        at < s1.len(),
        s1[at].path@ == pp,
        s1[at]@ == nv,
        forall|j: int| 0 <= j < s0.len() && j != at ==> (#[trigger] s0[j]).path@ != pp,
        at < s0.len() ==> s0[at].path@ == pp,
        forall|a: int, b: int| 0 <= a < b < s1.len() ==> (#[trigger] s1[a]).path@ != (#[trigger] s1[b]).path@,
    ensures
        notes_view(s1) == notes_view(s0).insert(pp, nv),
{
    let m0 = notes_view(s0);
    let m1 = notes_view(s1);
    assert forall|p: Seq<u8>| m1.contains_key(p) <==> m0.insert(pp, nv).contains_key(p) by {
        if p == pp {
            assert(0 <= at < s1.len() && s1[at].path@ == pp);
        } else {
            if m1.contains_key(p) {
                let w = choose|i: int| 0 <= i < s1.len() && (#[trigger] s1[i]).path@ == p;
                assert(w != at);
                assert(s0[w].path@ == p);
            }
            if m0.contains_key(p) {
                let w = choose|i: int| 0 <= i < s0.len() && (#[trigger] s0[i]).path@ == p;
                assert(w != at);
                assert(s1[w].path@ == p);
            }
        }
    }
    assert forall|p: Seq<u8>| m1.contains_key(p) implies m1[p] == m0.insert(pp, nv)[p] by {
        let w = note_index_of(s1, p);
        assert(0 <= w < s1.len() && s1[w].path@ == p);
        if p == pp {
            assert(w == at);
        } else {
            assert(w != at);
            assert(m0.contains_key(p));
            let w0 = note_index_of(s0, p);
            assert(0 <= w0 < s0.len() && s0[w0].path@ == p);
            assert(w0 != at);
            assert(s1[w0] == s0[w0]);
            assert(w0 == w);
        }
    }
    assert(m1 =~= m0.insert(pp, nv));
}

} // verus!

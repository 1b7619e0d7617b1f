//! One named sequence of a multiple sequence alignment.

use crate::annmap::AnnMap;
use vstd::prelude::*;

verus! {

/// One named biological sequence.
#[derive(Debug, Clone, PartialEq)]
pub struct Record {
    /// Sequence identifier.
    pub id: String,
    /// Residue characters; grows by append-only concatenation as the blocks
    /// of the source format are consumed.
    pub sequence: String,
    /// Per-record annotations.
    pub annotation: AnnMap,
}

impl Record {
    /// Creates a record with the given identifier and initial sequence and
    /// no annotations.
    pub fn new(id: &str, sequence: &str) -> (r: Record)
        ensures
            r.id@ == id@,
            r.sequence@ == sequence@,
            r.annotation@ == Map::<Seq<char>, Seq<char>>::empty(),
    {
        Record { id: id.to_owned(), sequence: sequence.to_owned(), annotation: AnnMap::new() }
    }

    /// Returns the sequence length, in characters.
    pub fn len(&self) -> (r: usize)
        ensures
            r == self.sequence@.len(),
    {
        self.sequence.as_str().unicode_len()
    }

    /// Returns the identifier.
    pub fn id(&self) -> (r: &str)
        ensures
            r@ == self.id@,
    {
        self.id.as_str()
    }

    /// Returns the sequence.
    pub fn sequence(&self) -> (r: &str)
        ensures
            r@ == self.sequence@,
    {
        self.sequence.as_str()
    }

    /// Appends a fragment to the sequence.
    pub fn push_seq(&mut self, string: &str)
        ensures
            final(self).id == old(self).id,
            final(self).sequence@ == old(self).sequence@ + string@,
            final(self).annotation == old(self).annotation,
    {
        self.sequence.append(string);
    }

    /// Returns `true` when both the identifier and the sequence are empty.
    pub fn is_empty(&self) -> (r: bool)
        ensures
            r == (self.id@.len() == 0 && self.sequence@.len() == 0),
    {
        self.id.as_str().is_empty() && self.sequence.as_str().is_empty()
    }

    /// Fills an empty record with an identifier and a first fragment, or
    /// appends the fragment to the sequence of a non-empty one.
    pub fn push_record(&mut self, id: &str, seq: &str)
        ensures
            final(self).annotation == old(self).annotation,
            old(self).id@.len() == 0 && old(self).sequence@.len() == 0 ==> final(self).id@ == id@
                && final(self).sequence@ == seq@,
            !(old(self).id@.len() == 0 && old(self).sequence@.len() == 0) ==> final(self).id
                == old(self).id && final(self).sequence@ == old(self).sequence@ + seq@,
    {
        if self.is_empty() {
            self.id = id.to_owned();
            self.sequence = seq.to_owned();
        } else {
            self.sequence.append(seq);
        }
    }

    /// Concatenates a value onto the named per-record annotation, creating
    /// the entry where it was absent.
    pub fn push_annotation(&mut self, name: &str, value: &str)
        ensures
            final(self).id == old(self).id,
            final(self).sequence == old(self).sequence,
            final(self).annotation@ == old(self).annotation@.insert(
                name@,
                if old(self).annotation@.contains_key(name@) {
                    old(self).annotation@[name@] + value@
                } else {
                    value@
                },
            ),
    {
        self.annotation.append(name, value);
    }
}

} // verus!

//! The multiple sequence alignment model: an ordered collection of records
//! plus whole-alignment and per-column annotation maps.

use crate::annmap::AnnMap;
use crate::record::Record;
use vstd::prelude::*;

verus! {

/// The position of the first record carrying `id`, if any.
pub open spec fn spec_find(rs: Seq<Record>, id: Seq<char>) -> Option<int>
    decreases rs.len(),
{
    if rs.len() == 0 {
        None
    } else if rs[0].id@ == id {
        Some(0int)
    } else {
        match spec_find(rs.drop_first(), id) {
            None => None,
            Some(i) => Some(i + 1),
        }
    }
}

/// Whether some record carries `id`.
pub open spec fn spec_contains(rs: Seq<Record>, id: Seq<char>) -> bool {
    spec_find(rs, id) is Some
}

/// The column count: the sequence length of the first record, zero where
/// there is none.
pub open spec fn spec_col_len(rs: Seq<Record>) -> nat {
    if rs.len() == 0 {
        0
    } else {
        rs[0].sequence@.len()
    }
}

/// `spec_find` returns the earliest position carrying the identifier, and
/// `None` exactly when no record carries it.
pub proof fn lemma_spec_find(rs: Seq<Record>, id: Seq<char>)
    ensures
        match spec_find(rs, id) {
            Some(i) => 0 <= i < rs.len() && rs[i].id@ == id && forall|j: int|
                0 <= j < i ==> (#[trigger] rs[j]).id@ != id,
            None => forall|j: int| 0 <= j < rs.len() ==> (#[trigger] rs[j]).id@ != id,
        },
    decreases rs.len(),
{
    if rs.len() > 0 && rs[0].id@ != id {
        lemma_spec_find(rs.drop_first(), id);
        match spec_find(rs.drop_first(), id) {
            None => {
                assert forall|j: int| 0 <= j < rs.len() implies (#[trigger] rs[j]).id@ != id by {
                    if j > 0 {
                        assert(rs.drop_first()[j - 1] == rs[j]);
                    }
                }
            },
            Some(i) => {
                assert(rs.drop_first()[i] == rs[i + 1]);
                assert forall|j: int| 0 <= j < i + 1 implies (#[trigger] rs[j]).id@ != id by {
                    if j > 0 {
                        assert(rs.drop_first()[j - 1] == rs[j]);
                    }
                }
            },
        }
    }
}

/// One display row: the record's identifier, a tab, its sequence truncated
/// to thirty residues (with an ellipsis where longer), and a newline.
pub open spec fn spec_display_row(r: Record) -> Seq<char> {
    let body = if r.sequence@.len() > 30 {
        r.sequence@.subrange(0, 30) + "..."@
    } else {
        r.sequence@
    };
    r.id@ + "\t"@ + body + "\n"@
}

/// The display rows of the first `k` records, in order.
pub open spec fn spec_display_rows(rs: Seq<Record>, k: int) -> Seq<char>
    decreases k,
{
    if k <= 0 {
        Seq::empty()
    } else {
        spec_display_rows(rs, k - 1) + spec_display_row(rs[k - 1])
    }
}

/// The display summary's first line: the row and column counts, with
/// singular and plural forms.
pub open spec fn spec_display_header(rows: nat, cols: nat) -> Seq<char> {
    "Alignment with "@ + crate::digits::spec_digits(rows) + (if rows == 1 {
        " row"@
    } else {
        " rows"@
    }) + " and "@ + crate::digits::spec_digits(cols) + (if cols == 1 {
        " column"@
    } else {
        " columns"@
    }) + "\n"@
}

/// The display form of an alignment: a summary line, up to ten records, and
/// a trailing ellipsis where more records follow.
pub open spec fn spec_display(msa: MSA) -> Seq<char> {
    if msa.records@.len() == 0 {
        "No sequence in alignment"@
    } else {
        let rows = msa.records@.len();
        let head = spec_display_header(rows, spec_col_len(msa.records@));
        if rows > 10 {
            head + spec_display_rows(msa.records@, 10) + "\n"@ + "..."@
        } else {
            head + spec_display_rows(msa.records@, rows as int)
        }
    }
}

/// A multiple sequence alignment: records in order of first appearance, all
/// of the same sequence length once complete, with unique identifiers.
#[derive(Debug, Clone, PartialEq)]
pub struct MSA {
    /// The records; the parser keeps their sequence lengths equal and their
    /// identifiers pairwise distinct.
    pub records: Vec<Record>,
    /// Whole-alignment metadata, such as the producing program and version.
    pub annotations: AnnMap,
    /// Per-column annotations, one character per alignment column, such as a
    /// consensus row.
    pub column_annotations: AnnMap,
}

impl Default for MSA {
    /// Creates an empty alignment.
    fn default() -> (r: MSA)
        ensures
            r.records@ =~= Seq::<Record>::empty(),
            r.annotations@ == Map::<Seq<char>, Seq<char>>::empty(),
            r.column_annotations@ == Map::<Seq<char>, Seq<char>>::empty(),
    {
        MSA { records: Vec::new(), annotations: AnnMap::new(), column_annotations: AnnMap::new() }
    }
}

impl MSA {
    /// Creates an alignment from its parts.
    pub fn new(records: Vec<Record>, annotations: AnnMap, column_annotations: AnnMap) -> (r: MSA)
        ensures
            r.records == records,
            r.annotations == annotations,
            r.column_annotations == column_annotations,
    {
        MSA { records, annotations, column_annotations }
    }

    /// Returns the number of records.
    pub fn len(&self) -> (r: usize)
        ensures
            r == self.records@.len(),
    {
        self.records.len()
    }

    /// Returns the column count: the sequence length of the first record,
    /// zero where there is none.
    pub fn col_len(&self) -> (r: usize)
        ensures
            r == spec_col_len(self.records@),
    {
        if self.records.len() == 0 {
            0
        } else {
            self.records[0].len()
        }
    }

    /// Returns `true` when the alignment has no records.
    pub fn is_empty(&self) -> (r: bool)
        ensures
            r == (self.records@.len() == 0),
    {
        self.records.is_empty()
    }

    /// Removes every record and every annotation.
    pub fn clear(&mut self)
        ensures
            final(self).records@ =~= Seq::<Record>::empty(),
            final(self).annotations@ == Map::<Seq<char>, Seq<char>>::empty(),
            final(self).column_annotations@ == Map::<Seq<char>, Seq<char>>::empty(),
    {
        self.records.clear();
        self.annotations.clear();
        self.column_annotations.clear();
    }

    /// Looks up a whole-alignment annotation.
    pub fn get_annotation<'a>(&'a self, name: &str) -> (r: Option<&'a String>)
        ensures
            match r {
                Some(v) => self.annotations@.contains_key(name@) && v@ == self.annotations@[name@],
                None => !self.annotations@.contains_key(name@),
            },
    {
        self.annotations.get(name)
    }

    /// Looks up a per-column annotation.
    pub fn get_column_annotation<'a>(&'a self, name: &str) -> (r: Option<&'a String>)
        ensures
            match r {
                Some(v) => self.column_annotations@.contains_key(name@) && v@
                    == self.column_annotations@[name@],
                None => !self.column_annotations@.contains_key(name@),
            },
    {
        self.column_annotations.get(name)
    }

    /// Concatenates a fragment onto the named per-column annotation,
    /// creating the entry where it was absent.
    pub fn add_column_annotation(&mut self, name: &str, value: &str)
        ensures
            final(self).records == old(self).records,
            final(self).annotations == old(self).annotations,
            final(self).column_annotations@ == old(self).column_annotations@.insert(
                name@,
                if old(self).column_annotations@.contains_key(name@) {
                    old(self).column_annotations@[name@] + value@
                } else {
                    value@
                },
            ),
    {
        self.column_annotations.append(name, value);
    }

    /// Binds a whole-alignment annotation, replacing and returning any
    /// earlier value (last-write-wins upsert).
    pub fn add_annotation(&mut self, name: String, value: String) -> (r: Option<String>)
        ensures
            final(self).records == old(self).records,
            final(self).column_annotations == old(self).column_annotations,
            final(self).annotations@ == old(self).annotations@.insert(name@, value@),
            match r {
                Some(v) => old(self).annotations@.contains_key(name@) && v@ == old(
                    self,
                ).annotations@[name@],
                None => !old(self).annotations@.contains_key(name@),
            },
    {
        self.annotations.set(name, value)
    }

    /// Returns `true` when some record carries the given identifier.
    pub fn contains(&self, haystack: &str) -> (r: bool)
        ensures
            r == spec_contains(self.records@, haystack@),
    {
        let n = self.records.len();
        let mut i: usize = 0;
        while i < n
            invariant
                i <= n,
                n == self.records@.len(),
                forall|j: int| 0 <= j < i ==> (#[trigger] self.records@[j]).id@ != haystack@,
            decreases n - i,
        {
            if crate::str_eq(self.records[i].id.as_str(), haystack) {
                proof {
                    lemma_spec_find(self.records@, haystack@);
                }
                return true;
            }
            i += 1;
        }
        proof {
            lemma_spec_find(self.records@, haystack@);
        }
        false
    }

    /// Appends a fragment to the earliest record carrying `id`, or, where
    /// none does, appends a new record with that identifier and the fragment
    /// as its initial sequence.
    pub fn push_record(&mut self, id: &str, seq: &str)
        ensures
            final(self).annotations == old(self).annotations,
            final(self).column_annotations == old(self).column_annotations,
            match spec_find(old(self).records@, id@) {
                Some(i) => {
                    &&& final(self).records@.len() == old(self).records@.len()
                    &&& final(self).records@[i].id == old(self).records@[i].id
                    &&& final(self).records@[i].sequence@ == old(self).records@[i].sequence@
                        + seq@
                    &&& final(self).records@[i].annotation == old(self).records@[i].annotation
                    &&& forall|j: int|
                        0 <= j < old(self).records@.len() && j != i ==> final(self).records@[j]
                            == old(self).records@[j]
                },
                None => {
                    &&& final(self).records@.len() == old(self).records@.len() + 1
                    &&& final(self).records@.last().id@ == id@
                    &&& final(self).records@.last().sequence@ == seq@
                    &&& final(self).records@.last().annotation@ == Map::<
                        Seq<char>,
                        Seq<char>,
                    >::empty()
                    &&& forall|j: int|
                        0 <= j < old(self).records@.len() ==> final(self).records@[j] == old(
                            self,
                        ).records@[j]
                },
            },
    {
        let n = self.records.len();
        let mut i: usize = 0;
        while i < n
            invariant
                i <= n,
                n == self.records@.len(),
                self == old(self),
                forall|j: int| 0 <= j < i ==> (#[trigger] self.records@[j]).id@ != id@,
            decreases n - i,
        {
            if crate::str_eq(self.records[i].id.as_str(), id) {
                proof {
                    lemma_spec_find(self.records@, id@);
                }
                self.records[i].push_seq(seq);
                return ;
            }
            i += 1;
        }
        proof {
            lemma_spec_find(self.records@, id@);
        }
        self.records.push(Record::new(id, seq));
    }

    /// Renders the alignment summary: its row and column counts, up to ten
    /// records with sequences truncated to thirty residues, and a trailing
    /// ellipsis where more records follow.
    pub fn display_string(&self) -> (r: String)
        ensures
            r@ == spec_display(*self),
    {
        if self.records.len() == 0 {
            return String::from_str("No sequence in alignment");
        }
        let rows = self.records.len();
        let cols = self.col_len();
        let mut out = String::from_str("Alignment with ");
        out.append(crate::digits::usize_to_string(rows).as_str());
        if rows == 1 {
            out.append(" row");
        } else {
            out.append(" rows");
        }
        out.append(" and ");
        out.append(crate::digits::usize_to_string(cols).as_str());
        if cols == 1 {
            out.append(" column");
        } else {
            out.append(" columns");
        }
        out.append("\n");
        let ghost head = out@;
        proof {
            assert(head =~= spec_display_header(rows as nat, cols as nat));
            assert(out@ =~= head + spec_display_rows(self.records@, 0));
        }
        let limit: usize = if rows > 10 {
            10
        } else {
            rows
        };
        let mut i: usize = 0;
        while i < limit
            invariant
                i <= limit,
                rows == self.records@.len(),
                limit == if rows > 10 {
                    10int
                } else {
                    rows as int
                },
                head == spec_display_header(rows as nat, spec_col_len(self.records@)),
                out@ == head + spec_display_rows(self.records@, i as int),
            decreases limit - i,
        {
            let ghost before = out@;
            let rec = &self.records[i];
            out.append(rec.id.as_str());
            out.append("\t");
            let rlen = rec.len();
            if rlen > 30 {
                out.append(rec.sequence.as_str().substring_char(0, 30));
                out.append("...");
            } else {
                out.append(rec.sequence.as_str());
            }
            out.append("\n");
            proof {
                assert(out@ =~= before + spec_display_row(self.records@[i as int]));
                assert(out@ =~= head + spec_display_rows(self.records@, i as int + 1));
            }
            i += 1;
        }
        if rows > 10 {
            out.append("\n");
            out.append("...");
            proof {
                assert(out@ =~= spec_display(*self));
            }
        } else {
            proof {
                assert(out@ =~= spec_display(*self));
            }
        }
        out
    }
}

} // verus!

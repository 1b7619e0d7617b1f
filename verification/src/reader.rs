//! The block parser: reads the CLUSTAL family of alignment formats.
//!
//! The input is a sequence of text lines (without line terminators). The
//! first line must start with a recognized program token; the remaining
//! lines form blank-separated blocks of fixed-width `id fragment` lines,
//! each block optionally carrying consensus lines that share the horizontal
//! offsets of the block's fragments.
//!
//! The parse is atomic: either every line is consumed and the returned
//! alignment satisfies the alignment invariants, or an error is returned and
//! no alignment is.

use crate::msa::MSA;
use crate::record::Record;
use vstd::prelude::*;

verus! {

// ---------------------------------------------------------------------------
// Line classification and field splitting
// ---------------------------------------------------------------------------
/// Characters that pad and separate the fields of a line.
pub open spec fn spec_is_space(c: char) -> bool {
    c == ' ' || c == '\t'
}

/// A blank line separates blocks.
pub open spec fn spec_is_blank(l: Seq<char>) -> bool {
    l.len() == 0
}

/// A consensus line is non-blank and starts with padding.
pub open spec fn spec_is_consensus(l: Seq<char>) -> bool {
    l.len() > 0 && spec_is_space(l[0])
}

/// The first position at or after `i` that holds a padding character, or the
/// line's length where none does.
pub open spec fn first_space_at(l: Seq<char>, i: int) -> int
    decreases l.len() - i when 0 <= i <= l.len()
{
    if i >= l.len() {
        l.len() as int
    } else if spec_is_space(l[i]) {
        i
    } else {
        first_space_at(l, i + 1)
    }
}

/// The first position at or after `i` that holds a non-padding character, or
/// the line's length where none does.
pub open spec fn first_nonspace_at(l: Seq<char>, i: int) -> int
    decreases l.len() - i when 0 <= i <= l.len()
{
    if i >= l.len() {
        l.len() as int
    } else if !spec_is_space(l[i]) {
        i
    } else {
        first_nonspace_at(l, i + 1)
    }
}

/// The identifier and residue fragment of a sequence line, together with the
/// fragment's character window `[start, end)` within the raw line, where the
/// line consists of exactly two padding-delimited fields; `None` otherwise.
pub open spec fn spec_split2(l: Seq<char>) -> Option<(Seq<char>, Seq<char>, int, int)> {
    let a = first_space_at(l, 0);
    let b = first_nonspace_at(l, a);
    let c = first_space_at(l, b);
    let d = first_nonspace_at(l, c);
    if a == 0 || b >= l.len() || d < l.len() {
        None
    } else {
        Some((l.subrange(0, a), l.subrange(b, c), b, c))
    }
}

// ---------------------------------------------------------------------------
// Header recognition and version extraction
// ---------------------------------------------------------------------------
/// The recognized program token that the header line starts with, if any,
/// tried in a fixed order.
pub open spec fn spec_header_token(l: Seq<char>) -> Option<Seq<char>> {
    if "CLUSTAL"@.is_prefix_of(l) {
        Some("CLUSTAL"@)
    } else if "PROBCONS"@.is_prefix_of(l) {
        Some("PROBCONS"@)
    } else if "MUSCLE"@.is_prefix_of(l) {
        Some("MUSCLE"@)
    } else if "MSAPROBS"@.is_prefix_of(l) {
        Some("MSAPROBS"@)
    } else if "Kalign"@.is_prefix_of(l) {
        Some("Kalign"@)
    } else {
        None
    }
}

/// The first dotted-version substring of a line — one or more digits followed
/// by one or more groups of a dot and digits — or `None` where the line holds
/// none. The exact leftmost-match semantics are the regex engine's; the
/// result is a function of the line's characters alone.
pub uninterp spec fn version_of(s: Seq<char>) -> Option<Seq<char>>;

/// Relies on `regex::Regex::new` and `regex::Regex::find`: `find` returns the
/// leftmost substring matching the dotted-version pattern, a pure function of
/// the haystack, and `new` cannot fail on this fixed, valid pattern.
#[verifier::external_body]
fn find_version(line: &str) -> (r: Option<String>)
    ensures
        match r {
            Some(v) => version_of(line@) == Some(v@),
            None => version_of(line@) is None,
        },
{
    let re = regex::Regex::new("\\d+(?:\\.\\d+)+").unwrap();
    re.find(line).map(|m| m.as_str().to_string())
}

/// The whole-alignment annotations a successful parse binds: the matched
/// program token, and the header's version where it carries one.
pub open spec fn spec_annotations(header: Seq<char>) -> Map<Seq<char>, Seq<char>>
    recommends
        spec_header_token(header) is Some,
{
    let m = Map::<Seq<char>, Seq<char>>::empty().insert(
        "program"@,
        spec_header_token(header).unwrap(),
    );
    match version_of(header) {
        Some(v) => m.insert("version"@, v),
        None => m,
    }
}

// ---------------------------------------------------------------------------
// The parse state machine
// ---------------------------------------------------------------------------
/// The parser's state between lines: the records built so far as pairs of
/// identifier and sequence, the accumulated consensus row (`None` while no
/// consensus line arrived), the residue window of the last sequence line,
/// the column count at the last block boundary, and the fragment width of
/// the open block (`None` while the block has no sequence line yet).
pub ghost struct ParseState {
    pub recs: Seq<(Seq<char>, Seq<char>)>,
    pub cons: Option<Seq<char>>,
    pub win_start: int,
    pub win_end: int,
    pub base: int,
    pub width: Option<int>,
}

/// The classified parse failures; each carries the offending line or field.
pub ghost enum ErrView {
    UnrecognizedHeader(Seq<char>),
    MalformedLine(Seq<char>),
    LengthMismatch(Seq<char>),
    DuplicateId(Seq<char>),
}

/// The position of the first state record carrying `id`, if any.
pub open spec fn st_find(recs: Seq<(Seq<char>, Seq<char>)>, id: Seq<char>) -> Option<int>
    decreases recs.len(),
{
    if recs.len() == 0 {
        None
    } else if recs[0].0 == id {
        Some(0int)
    } else {
        match st_find(recs.drop_first(), id) {
            None => None,
            Some(i) => Some(i + 1),
        }
    }
}

/// Whether every state record's sequence has length `n`.
pub open spec fn all_len(recs: Seq<(Seq<char>, Seq<char>)>, n: int) -> bool {
    forall|i: int| 0 <= i < recs.len() ==> (#[trigger] recs[i]).1.len() == n
}

/// The position of the first state record whose sequence length is not `n`.
pub open spec fn first_bad(recs: Seq<(Seq<char>, Seq<char>)>, n: int) -> int
    decreases recs.len(),
{
    if recs.len() == 0 {
        0
    } else if recs[0].1.len() != n {
        0
    } else {
        1 + first_bad(recs.drop_first(), n)
    }
}

/// Closes the open block, if any: every record must have received a fragment
/// of the block's width, and the column count advances by that width.
pub open spec fn spec_close(st: ParseState) -> Result<ParseState, ErrView> {
    match st.width {
        None => Ok(st),
        Some(w) => {
            if all_len(st.recs, st.base + w) {
                Ok(ParseState { base: st.base + w, width: None, ..st })
            } else {
                Err(ErrView::LengthMismatch(st.recs[first_bad(st.recs, st.base + w)].0))
            }
        },
    }
}

/// One step of the parser on one non-header line.
///
/// A blank line closes the open block. A consensus line must cover the
/// residue window of the last sequence line — one that ends before the
/// window does is malformed — and appends the window's characters to the
/// consensus row. A sequence line must split into exactly two fields; its
/// fragment must have the open block's width, a new identifier may appear
/// only while no block has been completed, and an identifier already
/// extended in the open block must not repeat.
pub open spec fn spec_step(st: ParseState, l: Seq<char>) -> Result<ParseState, ErrView> {
    if spec_is_blank(l) {
        spec_close(st)
    } else if spec_is_consensus(l) {
        if l.len() < st.win_end {
            Err(ErrView::MalformedLine(l))
        } else {
            let grown = match st.cons {
                None => l.subrange(st.win_start, st.win_end),
                Some(s) => s + l.subrange(st.win_start, st.win_end),
            };
            Ok(ParseState { cons: Some(grown), ..st })
        }
    } else {
        match spec_split2(l) {
            None => Err(ErrView::MalformedLine(l)),
            Some((id, frag, b, c)) => {
                let w = frag.len() as int;
                if st.width is Some && st.width != Some(w) {
                    Err(ErrView::LengthMismatch(l))
                } else {
                    match st_find(st.recs, id) {
                        None => {
                            if st.base == 0 {
                                Ok(
                                    ParseState {
                                        recs: st.recs.push((id, frag)),
                                        win_start: b,
                                        win_end: c,
                                        width: Some(w),
                                        ..st
                                    },
                                )
                            } else {
                                Err(ErrView::LengthMismatch(l))
                            }
                        },
                        Some(i) => {
                            if st.recs[i].1.len() == st.base {
                                Ok(
                                    ParseState {
                                        recs: st.recs.update(i, (id, st.recs[i].1 + frag)),
                                        win_start: b,
                                        win_end: c,
                                        width: Some(w),
                                        ..st
                                    },
                                )
                            } else {
                                Err(ErrView::DuplicateId(id))
                            }
                        },
                    }
                }
            },
        }
    }
}

/// The state before any non-header line.
pub open spec fn init_state() -> ParseState {
    ParseState {
        recs: Seq::empty(),
        cons: None,
        win_start: 0,
        win_end: 0,
        base: 0,
        width: None,
    }
}

/// Runs the parser over the non-header lines and closes the last block at
/// end of input.
pub open spec fn spec_run(st: ParseState, lines: Seq<Seq<char>>) -> Result<ParseState, ErrView>
    decreases lines.len(),
{
    if lines.len() == 0 {
        spec_close(st)
    } else {
        match spec_step(st, lines[0]) {
            Err(e) => Err(e),
            Ok(st2) => spec_run(st2, lines.drop_first()),
        }
    }
}

/// The per-column annotations a parse ending in `cons` binds: none where no
/// consensus line arrived, the accumulated row under the name `cons`
/// otherwise.
pub open spec fn cons_map(cons: Option<Seq<char>>) -> Map<Seq<char>, Seq<char>> {
    match cons {
        None => Map::empty(),
        Some(s) => Map::<Seq<char>, Seq<char>>::empty().insert("cons"@, s),
    }
}

/// The identifier and sequence of each record, in order.
pub open spec fn recs_model(rs: Seq<Record>) -> Seq<(Seq<char>, Seq<char>)> {
    rs.map_values(|r: Record| (r.id@, r.sequence@))
}

// ---------------------------------------------------------------------------
// Errors
// ---------------------------------------------------------------------------
/// A classified parse failure; each variant carries the offending line or
/// field, so that the input can be diagnosed without re-reading it.
#[derive(Debug, Clone, PartialEq, Eq)]
pub enum ParseError {
    /// The first line starts with none of the recognized program tokens.
    UnrecognizedHeader(String),
    /// A sequence line does not split into exactly two fields.
    MalformedLine(String),
    /// A fragment's width is inconsistent with the established column count.
    LengthMismatch(String),
    /// An identifier repeats where it must be new.
    DuplicateId(String),
}

impl View for ParseError {
    type V = ErrView;

    closed spec fn view(&self) -> ErrView {
        match self {
            ParseError::UnrecognizedHeader(s) => ErrView::UnrecognizedHeader(s@),
            ParseError::MalformedLine(s) => ErrView::MalformedLine(s@),
            ParseError::LengthMismatch(s) => ErrView::LengthMismatch(s@),
            ParseError::DuplicateId(s) => ErrView::DuplicateId(s@),
        }
    }
}

/// The diagnostic message of each parse failure: a fixed sentence, followed,
/// for all but an unrecognized header, by the offending line or field; the
/// unrecognized-header message enumerates the accepted program tokens.
pub open spec fn spec_describe(e: ErrView) -> Seq<char> {
    match e {
        ErrView::UnrecognizedHeader(_) =>
            "The header is not a recognised CLUSTAL header: CLUSTAL,PROBCONS,MUSCLE,MSAPROBS,Kalign"@,
        ErrView::MalformedLine(l) => "the line does not split into an identifier and a fragment: "@
            + l,
        ErrView::LengthMismatch(x) => "fragment width inconsistent with the alignment: "@ + x,
        ErrView::DuplicateId(id) => "duplicate sequence identifier: "@ + id,
    }
}

impl ParseError {
    /// Renders the failure for diagnostics; an unrecognized header's message
    /// enumerates the accepted program tokens.
    pub fn describe(&self) -> (r: String)
        ensures
            r@ == spec_describe(self@),
    {
        match self {
            ParseError::UnrecognizedHeader(_) => String::from_str(
                "The header is not a recognised CLUSTAL header: CLUSTAL,PROBCONS,MUSCLE,MSAPROBS,Kalign",
            ),
            ParseError::MalformedLine(l) => {
                let mut s = String::from_str(
                    "the line does not split into an identifier and a fragment: ",
                );
                s.append(l.as_str());
                s
            },
            ParseError::LengthMismatch(x) => {
                let mut s = String::from_str("fragment width inconsistent with the alignment: ");
                s.append(x.as_str());
                s
            },
            ParseError::DuplicateId(id) => {
                let mut s = String::from_str("duplicate sequence identifier: ");
                s.append(id.as_str());
                s
            },
        }
    }
}

// ---------------------------------------------------------------------------
// Executable helpers
// ---------------------------------------------------------------------------
/// Whether `c` pads or separates fields.
fn is_space_char(c: char) -> (r: bool)
    ensures
        r == spec_is_space(c),
{
    c == ' ' || c == '\t'
}

/// Finds the first padding character at or after `i`.
fn find_space_from(l: &str, i: usize) -> (r: usize)
    requires
        i <= l@.len(),
    ensures
        r == first_space_at(l@, i as int),
        i <= r <= l@.len(),
{
    let n = l.unicode_len();
    let mut j: usize = i;
    while j < n
        invariant
            i <= j <= n,
            n == l@.len(),
            first_space_at(l@, i as int) == first_space_at(l@, j as int),
        decreases n - j,
    {
        if is_space_char(l.get_char(j)) {
            return j;
        }
        j += 1;
    }
    j
}

/// Finds the first non-padding character at or after `i`.
fn find_nonspace_from(l: &str, i: usize) -> (r: usize)
    requires
        i <= l@.len(),
    ensures
        r == first_nonspace_at(l@, i as int),
        i <= r <= l@.len(),
{
    let n = l.unicode_len();
    let mut j: usize = i;
    while j < n
        invariant
            i <= j <= n,
            n == l@.len(),
            first_nonspace_at(l@, i as int) == first_nonspace_at(l@, j as int),
        decreases n - j,
    {
        if !is_space_char(l.get_char(j)) {
            return j;
        }
        j += 1;
    }
    j
}

/// Whether `p` is a prefix of `l`, character by character.
fn str_is_prefix(p: &str, l: &str) -> (r: bool)
    ensures
        r == p@.is_prefix_of(l@),
{
    let plen = p.unicode_len();
    let llen = l.unicode_len();
    if plen > llen {
        return false;
    }
    let mut i: usize = 0;
    while i < plen
        invariant
            i <= plen,
            plen == p@.len(),
            llen == l@.len(),
            plen <= llen,
            forall|j: int| 0 <= j < i ==> p@[j] == l@[j],
        decreases plen - i,
    {
        if p.get_char(i) != l.get_char(i) {
            proof {
                assert(!p@.is_prefix_of(l@)) by {
                    if p@.is_prefix_of(l@) {
                        assert(p@[i as int] == l@.subrange(0, plen as int)[i as int]);
                    }
                }
            }
            return false;
        }
        i += 1;
    }
    proof {
        assert(p@ =~= l@.subrange(0, plen as int));
    }
    true
}

/// The recognized program token the line starts with, if any.
fn match_header(line: &str) -> (r: Option<String>)
    ensures
        match r {
            Some(t) => spec_header_token(line@) == Some(t@),
            None => spec_header_token(line@) is None,
        },
{
    if str_is_prefix("CLUSTAL", line) {
        Some(String::from_str("CLUSTAL"))
    } else if str_is_prefix("PROBCONS", line) {
        Some(String::from_str("PROBCONS"))
    } else if str_is_prefix("MUSCLE", line) {
        Some(String::from_str("MUSCLE"))
    } else if str_is_prefix("MSAPROBS", line) {
        Some(String::from_str("MSAPROBS"))
    } else if str_is_prefix("Kalign", line) {
        Some(String::from_str("Kalign"))
    } else {
        None
    }
}

/// Splits a line into its two fields and the fragment's character window.
fn split_fields(l: &str) -> (r: Option<(String, String, usize, usize)>)
    ensures
        match r {
            Some(t) => spec_split2(l@) == Some((t.0@, t.1@, t.2 as int, t.3 as int)) && t.2 <= t.3
                <= l@.len(),
            None => spec_split2(l@) is None,
        },
{
    let n = l.unicode_len();
    let a = find_space_from(l, 0);
    let b = find_nonspace_from(l, a);
    let c = find_space_from(l, b);
    let d = find_nonspace_from(l, c);
    if a == 0 || b >= n || d < n {
        None
    } else {
        let id = l.substring_char(0, a).to_owned();
        let frag = l.substring_char(b, c).to_owned();
        Some((id, frag, b, c))
    }
}

/// The position of the earliest record of the alignment carrying `id`.
fn find_record(msa: &MSA, id: &str) -> (r: Option<usize>)
    ensures
        match r {
            Some(i) => i < msa.records@.len() && crate::msa::spec_find(msa.records@, id@) == Some(
                i as int,
            ),
            None => crate::msa::spec_find(msa.records@, id@) is None,
        },
{
    let n = msa.records.len();
    let mut i: usize = 0;
    while i < n
        invariant
            i <= n,
            n == msa.records@.len(),
            forall|j: int| 0 <= j < i ==> (#[trigger] msa.records@[j]).id@ != id@,
        decreases n - i,
    {
        if crate::str_eq(msa.records[i].id.as_str(), id) {
            proof {
                crate::msa::lemma_spec_find(msa.records@, id@);
            }
            return Some(i);
        }
        i += 1;
    }
    proof {
        crate::msa::lemma_spec_find(msa.records@, id@);
    }
    None
}

/// `first_bad` names the earliest record whose length is not `n`.
proof fn lemma_first_bad_at(recs: Seq<(Seq<char>, Seq<char>)>, n: int, i: int)
    requires
        0 <= i < recs.len(),
        recs[i].1.len() != n,
        forall|j: int| 0 <= j < i ==> (#[trigger] recs[j]).1.len() == n,
    ensures
        first_bad(recs, n) == i,
    decreases i,
{
    if i > 0 {
        assert(recs.drop_first()[i - 1] == recs[i]);
        assert forall|j: int| 0 <= j < i - 1 implies (#[trigger] recs.drop_first()[j]).1.len()
            == n by {
            assert(recs.drop_first()[j] == recs[j + 1]);
        }
        lemma_first_bad_at(recs.drop_first(), n, i - 1);
    }
}

/// The earliest record whose sequence length is not `target`, if any.
fn first_len_mismatch(records: &Vec<Record>, target: usize) -> (r: Option<usize>)
    ensures
        match r {
            Some(i) => i < records@.len() && records@[i as int].sequence@.len() != target
                && first_bad(recs_model(records@), target as int) == i,
            None => all_len(recs_model(records@), target as int),
        },
{
    let n = records.len();
    let mut i: usize = 0;
    while i < n
        invariant
            i <= n,
            n == records@.len(),
            forall|j: int| 0 <= j < i ==> (#[trigger] records@[j]).sequence@.len() == target,
        decreases n - i,
    {
        if records[i].len() != target {
            proof {
                assert forall|j: int| 0 <= j < i implies (#[trigger] recs_model(
                    records@,
                )[j]).1.len() == target as int by {
                    assert(recs_model(records@)[j] == (records@[j].id@, records@[j].sequence@));
                }
                assert(recs_model(records@)[i as int] == (
                    records@[i as int].id@,
                    records@[i as int].sequence@,
                ));
                lemma_first_bad_at(recs_model(records@), target as int, i as int);
            }
            return Some(i);
        }
        i += 1;
    }
    proof {
        assert forall|j: int| 0 <= j < recs_model(records@).len() implies (#[trigger] recs_model(
            records@,
        )[j]).1.len() == target as int by {
            assert(recs_model(records@)[j] == (records@[j].id@, records@[j].sequence@));
        }
    }
    None
}

/// `st_find` over the record model agrees with `spec_find` over the records.
proof fn lemma_find_model(rs: Seq<Record>, id: Seq<char>)
    ensures
        st_find(recs_model(rs), id) == crate::msa::spec_find(rs, id),
    decreases rs.len(),
{
    if rs.len() > 0 {
        assert(recs_model(rs)[0] == (rs[0].id@, rs[0].sequence@));
        assert forall|j: int| 0 <= j < recs_model(rs).drop_first().len() implies recs_model(
            rs,
        ).drop_first()[j] == recs_model(rs.drop_first())[j] by {
            assert(rs.drop_first()[j] == rs[j + 1]);
            assert(recs_model(rs)[j + 1] == (rs[j + 1].id@, rs[j + 1].sequence@));
            assert(recs_model(rs.drop_first())[j] == (
                rs.drop_first()[j].id@,
                rs.drop_first()[j].sequence@,
            ));
        }
        assert(recs_model(rs).drop_first() =~= recs_model(rs.drop_first()));
        lemma_find_model(rs.drop_first(), id);
    }
}

// ---------------------------------------------------------------------------
// The reader
// ---------------------------------------------------------------------------
/// The view of each input line.
pub open spec fn lines_view(lines: Seq<String>) -> Seq<Seq<char>> {
    lines.map_values(|s: String| s@)
}

/// Reads an alignment from a sequence of input lines (without terminators).
pub struct Reader {
    /// The input lines.
    pub inner: Vec<String>,
}

impl Reader {
    /// Creates a reader over the given lines.
    pub fn new(inner: Vec<String>) -> (r: Reader)
        ensures
            r.inner == inner,
    {
        Reader { inner }
    }

    /// Parses the lines as a CLUSTAL-family alignment.
    ///
    /// The first line must start with a recognized program token, which is
    /// bound as the `program` annotation, together with the header's dotted
    /// version as `version` where it carries one. The remaining lines run
    /// through the block state machine `spec_run`; on success the returned
    /// records carry exactly the machine's identifiers and sequences, in
    /// order, with empty per-record annotation maps, and the consensus row
    /// accumulated from the blocks' consensus lines is bound, where one
    /// arrived, as the per-column annotation `cons`. The parse is atomic: on
    /// an error no alignment is returned.
    pub fn read_clustal(&mut self) -> (r: Result<MSA, ParseError>)
        ensures
            final(self).inner == old(self).inner,
            ({
                let lines = lines_view(old(self).inner@);
                if lines.len() == 0 {
                    r matches Err(e) && e@ == ErrView::UnrecognizedHeader(Seq::<char>::empty())
                } else if spec_header_token(lines[0]) is None {
                    r matches Err(e) && e@ == ErrView::UnrecognizedHeader(lines[0])
                } else {
                    match spec_run(init_state(), lines.drop_first()) {
                        Ok(st) => r matches Ok(msa) && {
                            &&& recs_model(msa.records@) == st.recs
                            &&& forall|i: int|
                                0 <= i < msa.records@.len() ==> (#[trigger] msa.records@[i]).annotation@
                                    == Map::<Seq<char>, Seq<char>>::empty()
                            &&& msa.annotations@ == spec_annotations(lines[0])
                            &&& msa.column_annotations@ == cons_map(st.cons)
                        },
                        Err(ev) => r matches Err(e) && e@ == ev,
                    }
                }
            }),
    {
        let ghost lines = lines_view(self.inner@);
        if self.inner.len() == 0 {
            return Err(ParseError::UnrecognizedHeader(String::new()));
        }
        let mut msa = MSA::default();
        let tok = match match_header(self.inner[0].as_str()) {
            None => {
                return Err(ParseError::UnrecognizedHeader(self.inner[0].clone()));
            },
            Some(t) => t,
        };
        let _ = msa.add_annotation(String::from_str("program"), tok);
        match find_version(self.inner[0].as_str()) {
            Some(v) => {
                let _ = msa.add_annotation(String::from_str("version"), v);
            },
            None => {},
        }
        proof {
            assert(msa.annotations@ == spec_annotations(lines[0]));
        }
        let n = self.inner.len();
        let mut k: usize = 1;
        let mut start: usize = 0;
        let mut end: usize = 0;
        let mut base: usize = 0;
        let mut block: Option<(usize, usize)> = None;
        let ghost mut st = init_state();
        proof {
            assert(lines.skip(1) =~= lines.drop_first());
        }
        while k < n
            invariant
                1 <= k <= n,
                n == self.inner@.len(),
                self.inner == old(self).inner,
                lines == lines_view(self.inner@),
                lines.len() == n,
                spec_header_token(lines[0]) is Some,
                recs_model(msa.records@) == st.recs,
                forall|i: int|
                    0 <= i < msa.records@.len() ==> (#[trigger] msa.records@[i]).annotation@
                        == Map::<Seq<char>, Seq<char>>::empty(),
                msa.annotations@ == spec_annotations(lines[0]),
                msa.column_annotations@ == cons_map(st.cons),
                st.win_start == start as int,
                st.win_end == end as int,
                start <= end,
                st.base == base as int,
                match block {
                    None => st.width is None,
                    Some((w, t)) => st.width == Some(w as int) && t == base + w,
                },
                spec_run(st, lines.skip(k as int)) == spec_run(init_state(), lines.drop_first()),
            decreases n - k,
        {
            let ghost prev_st = st;
            let ghost tail = lines.skip(k as int);
            proof {
                assert(lines[k as int] == self.inner@[k as int]@);
                assert(tail[0] == lines[k as int]);
                assert(tail.drop_first() =~= lines.skip(k as int + 1));
            }
            let line = &self.inner[k];
            let llen = line.as_str().unicode_len();
            if llen == 0 {
                match block {
                    None => {},
                    Some((w, target)) => {
                        match first_len_mismatch(&msa.records, target) {
                            Some(i) => {
                                proof {
                                    assert(recs_model(msa.records@)[i as int] == (
                                        msa.records@[i as int].id@,
                                        msa.records@[i as int].sequence@,
                                    ));
                                    assert(spec_is_blank(lines[k as int]));
                                    assert(!all_len(prev_st.recs, prev_st.base + w as int));
                                    assert(spec_step(prev_st, tail[0]) == Err::<
                                        ParseState,
                                        ErrView,
                                    >(ErrView::LengthMismatch(prev_st.recs[i as int].0)));
                                }
                                return Err(ParseError::LengthMismatch(msa.records[i].id.clone()));
                            },
                            None => {
                                base = target;
                                block = None;
                                proof {
                                    st = ParseState { base: st.base + w as int, width: None, ..st };
                                }
                            },
                        }
                    },
                }
            } else if is_space_char(line.as_str().get_char(0)) {
                if llen < end {
                    proof {
                        assert(!spec_is_blank(lines[k as int]));
                        assert(spec_is_consensus(lines[k as int]));
                        assert(spec_step(prev_st, tail[0]) == Err::<ParseState, ErrView>(
                            ErrView::MalformedLine(lines[k as int]),
                        ));
                    }
                    return Err(ParseError::MalformedLine(line.clone()));
                }
                let frag = line.as_str().substring_char(start, end).to_owned();
                msa.add_column_annotation("cons", frag.as_str());
                proof {
                    let win = lines[k as int].subrange(prev_st.win_start, prev_st.win_end);
                    let grown = match prev_st.cons {
                        None => win,
                        Some(cs) => cs + win,
                    };
                    st = ParseState { cons: Some(grown), ..prev_st };
                    assert(msa.column_annotations@ =~= cons_map(st.cons));
                }
            } else {
                match split_fields(line.as_str()) {
                    None => {
                        proof {
                            assert(!spec_is_blank(lines[k as int]));
                            assert(!spec_is_consensus(lines[k as int]));
                            assert(spec_step(prev_st, tail[0]) == Err::<ParseState, ErrView>(
                                ErrView::MalformedLine(lines[k as int]),
                            ));
                        }
                        return Err(ParseError::MalformedLine(line.clone()));
                    },
                    Some((id, frag, b, c)) => {
                        let w = frag.as_str().unicode_len();
                        if let Some((w0, _)) = block {
                            if w != w0 {
                                proof {
                                    assert(!spec_is_blank(lines[k as int]));
                                    assert(!spec_is_consensus(lines[k as int]));
                                    assert(spec_step(prev_st, tail[0]) == Err::<
                                        ParseState,
                                        ErrView,
                                    >(ErrView::LengthMismatch(lines[k as int])));
                                }
                                return Err(ParseError::LengthMismatch(line.clone()));
                            }
                        }
                        proof {
                            lemma_find_model(msa.records@, id@);
                        }
                        match find_record(&msa, id.as_str()) {
                            None => {
                                if base != 0 {
                                    proof {
                                        assert(!spec_is_blank(lines[k as int]));
                                        assert(!spec_is_consensus(lines[k as int]));
                                        assert(spec_step(prev_st, tail[0]) == Err::<
                                            ParseState,
                                            ErrView,
                                        >(ErrView::LengthMismatch(lines[k as int])));
                                    }
                                    return Err(ParseError::LengthMismatch(line.clone()));
                                }
                                msa.push_record(id.as_str(), frag.as_str());
                                start = b;
                                end = c;
                                block = Some((w, w));
                                proof {
                                    st = ParseState {
                                        recs: prev_st.recs.push((id@, frag@)),
                                        win_start: b as int,
                                        win_end: c as int,
                                        width: Some(w as int),
                                        ..prev_st
                                    };
                                    assert forall|j: int|
                                        0 <= j < msa.records@.len() implies recs_model(
                                        msa.records@,
                                    )[j] == st.recs[j] by {
                                        assert(recs_model(msa.records@)[j] == (
                                            msa.records@[j].id@,
                                            msa.records@[j].sequence@,
                                        ));
                                    }
                                    assert(recs_model(msa.records@) =~= st.recs);
                                }
                            },
                            Some(i) => {
                                let rl = msa.records[i].len();
                                proof {
                                    crate::msa::lemma_spec_find(msa.records@, id@);
                                    assert(recs_model(msa.records@)[i as int] == (
                                        msa.records@[i as int].id@,
                                        msa.records@[i as int].sequence@,
                                    ));
                                }
                                if rl != base {
                                    proof {
                                        assert(!spec_is_blank(lines[k as int]));
                                        assert(!spec_is_consensus(lines[k as int]));
                                        assert(spec_step(prev_st, tail[0]) == Err::<
                                            ParseState,
                                            ErrView,
                                        >(ErrView::DuplicateId(id@)));
                                    }
                                    return Err(ParseError::DuplicateId(id));
                                }
                                msa.push_record(id.as_str(), frag.as_str());
                                let target = msa.records[i].len();
                                start = b;
                                end = c;
                                block = Some((w, target));
                                proof {
                                    st = ParseState {
                                        recs: prev_st.recs.update(
                                            i as int,
                                            (id@, prev_st.recs[i as int].1 + frag@),
                                        ),
                                        win_start: b as int,
                                        win_end: c as int,
                                        width: Some(w as int),
                                        ..prev_st
                                    };
                                    assert forall|j: int|
                                        0 <= j < msa.records@.len() implies recs_model(
                                        msa.records@,
                                    )[j] == st.recs[j] by {
                                        assert(recs_model(msa.records@)[j] == (
                                            msa.records@[j].id@,
                                            msa.records@[j].sequence@,
                                        ));
                                    }
                                    assert(recs_model(msa.records@) =~= st.recs);
                                }
                            },
                        }
                    },
                }
            }
            proof {
                assert(spec_step(prev_st, lines[k as int]) == Ok::<ParseState, ErrView>(st));
            }
            k += 1;
        }
        proof {
            assert(lines.skip(n as int) =~= Seq::<Seq<char>>::empty());
        }
        match block {
            None => Ok(msa),
            Some((w, target)) => {
                match first_len_mismatch(&msa.records, target) {
                    Some(i) => {
                        proof {
                            assert(recs_model(msa.records@)[i as int] == (
                                msa.records@[i as int].id@,
                                msa.records@[i as int].sequence@,
                            ));
                        }
                        Err(ParseError::LengthMismatch(msa.records[i].id.clone()))
                    },
                    None => {
                        proof {
                            st = ParseState { base: st.base + w as int, width: None, ..st };
                        }
                        Ok(msa)
                    },
                }
            },
        }
    }
}

// ---------------------------------------------------------------------------
// Laws
// ---------------------------------------------------------------------------
/// Positional facts about `first_space_at`: the result lies between `i` and
/// the line's length, holds a padding character unless it is the length, and
/// nothing before it is padding.
proof fn lemma_first_space_at(l: Seq<char>, i: int)
    requires
        0 <= i <= l.len(),
    ensures
        i <= first_space_at(l, i) <= l.len(),
        first_space_at(l, i) < l.len() ==> spec_is_space(l[first_space_at(l, i)]),
    decreases l.len() - i,
{
    if i < l.len() && !spec_is_space(l[i]) {
        lemma_first_space_at(l, i + 1);
    }
}

/// Positional facts about `first_nonspace_at`.
proof fn lemma_first_nonspace_at(l: Seq<char>, i: int)
    requires
        0 <= i <= l.len(),
    ensures
        i <= first_nonspace_at(l, i) <= l.len(),
        first_nonspace_at(l, i) < l.len() ==> !spec_is_space(l[first_nonspace_at(l, i)]),
    decreases l.len() - i,
{
    if i < l.len() && spec_is_space(l[i]) {
        lemma_first_nonspace_at(l, i + 1);
    }
}

/// A split sequence line has a non-empty fragment.
proof fn lemma_split2_frag(l: Seq<char>, id: Seq<char>, frag: Seq<char>, b: int, c: int)
    requires
        spec_split2(l) == Some((id, frag, b, c)),
    ensures
        0 <= b < c <= l.len(),
        frag.len() == c - b,
        frag.len() > 0,
{
    let a = first_space_at(l, 0);
    lemma_first_space_at(l, 0);
    lemma_first_nonspace_at(l, a);
    lemma_first_space_at(l, first_nonspace_at(l, a));
}

/// `st_find` returns the earliest position carrying the identifier, and
/// `None` exactly when no state record carries it.
proof fn lemma_st_find(recs: Seq<(Seq<char>, Seq<char>)>, id: Seq<char>)
    ensures
        match st_find(recs, id) {
            Some(i) => 0 <= i < recs.len() && recs[i].0 == id && forall|j: int|
                0 <= j < i ==> (#[trigger] recs[j]).0 != id,
            None => forall|j: int| 0 <= j < recs.len() ==> (#[trigger] recs[j]).0 != id,
        },
    decreases recs.len(),
{
    if recs.len() > 0 && recs[0].0 != id {
        lemma_st_find(recs.drop_first(), id);
        match st_find(recs.drop_first(), id) {
            None => {
                assert forall|j: int| 0 <= j < recs.len() implies (#[trigger] recs[j]).0 != id by {
                    if j > 0 {
                        assert(recs.drop_first()[j - 1] == recs[j]);
                    }
                }
            },
            Some(i) => {
                assert(recs.drop_first()[i] == recs[i + 1]);
                assert forall|j: int| 0 <= j < i + 1 implies (#[trigger] recs[j]).0 != id by {
                    if j > 0 {
                        assert(recs.drop_first()[j - 1] == recs[j]);
                    }
                }
            },
        }
    }
}

/// Well-formed parser states: identifiers pairwise distinct; every sequence
/// at the block-boundary length, or, inside an open block of width `w`, at
/// that length or at that length extended by `w`; and, inside an open block,
/// the residue window exactly `w` characters wide.
pub open spec fn wf_state(st: ParseState) -> bool {
    &&& forall|i: int, j: int|
        0 <= i < j < st.recs.len() ==> (#[trigger] st.recs[i]).0 != (#[trigger] st.recs[j]).0
    &&& match st.width {
        None => all_len(st.recs, st.base),
        Some(w) => w > 0 && st.win_end - st.win_start == w && forall|i: int|
            0 <= i < st.recs.len() ==> (#[trigger] st.recs[i]).1.len() == st.base
                || st.recs[i].1.len() == st.base + w,
    }
    &&& 0 <= st.base
    &&& 0 <= st.win_start <= st.win_end
}

/// One parser step preserves well-formedness.
proof fn lemma_step_wf(st: ParseState, l: Seq<char>, st2: ParseState)
    requires
        wf_state(st),
        spec_step(st, l) == Ok::<ParseState, ErrView>(st2),
    ensures
        wf_state(st2),
{
    if !spec_is_blank(l) && !spec_is_consensus(l) {
        match spec_split2(l) {
            None => {},
            Some((id, frag, b, c)) => {
                lemma_split2_frag(l, id, frag, b, c);
                lemma_st_find(st.recs, id);
                match st_find(st.recs, id) {
                    None => {
                        assert(st2.recs == st.recs.push((id, frag)));
                        assert(forall|i: int|
                            0 <= i < st.recs.len() ==> (#[trigger] st2.recs[i]) == st.recs[i]);
                    },
                    Some(i) => {
                        assert(st2.recs == st.recs.update(i, (id, st.recs[i].1 + frag)));
                        assert(st2.recs[i].0 == st.recs[i].0);
                        assert(forall|j: int|
                            0 <= j < st.recs.len() && j != i ==> (#[trigger] st2.recs[j])
                                == st.recs[j]);
                    },
                }
            },
        }
    }
}

/// A successful run from a well-formed state ends well-formed, with no open
/// block.
proof fn lemma_run_wf(st: ParseState, lines: Seq<Seq<char>>, st2: ParseState)
    requires
        wf_state(st),
        spec_run(st, lines) == Ok::<ParseState, ErrView>(st2),
    ensures
        wf_state(st2),
        st2.width is None,
        all_len(st2.recs, st2.base),
    decreases lines.len(),
{
    if lines.len() > 0 {
        match spec_step(st, lines[0]) {
            Ok(stm) => {
                lemma_step_wf(st, lines[0], stm);
                lemma_run_wf(stm, lines.drop_first(), st2);
            },
            Err(_) => {},
        }
    }
}

/// The length of the consensus row, zero where none arrived.
pub open spec fn cons_len(cons: Option<Seq<char>>) -> int {
    match cons {
        None => 0,
        Some(s) => s.len() as int,
    }
}

/// While a block is open, each consensus line grows the consensus row by
/// exactly the block's fragment width, and changes nothing else: the column
/// annotation stays synchronized with the sequence columns it annotates.
pub proof fn lemma_consensus_grows_by_width(
    st: ParseState,
    l: Seq<char>,
    st2: ParseState,
    w: int,
)
    requires
        wf_state(st),
        st.width == Some(w),
        spec_is_consensus(l),
        spec_step(st, l) == Ok::<ParseState, ErrView>(st2),
    ensures
        cons_len(st2.cons) == cons_len(st.cons) + w,
        st2.recs == st.recs,
        st2.base == st.base,
        st2.width == st.width,
{
    assert(l.len() >= st.win_end);
}

/// Invariant preservation: an alignment whose records model a successful
/// run's state has pairwise distinct identifiers, and every record's
/// sequence length equals the alignment's column count.
pub proof fn lemma_parse_invariants(lines: Seq<Seq<char>>, msa: MSA, st: ParseState)
    requires
        spec_run(init_state(), lines) == Ok::<ParseState, ErrView>(st),
        recs_model(msa.records@) == st.recs,
    ensures
        forall|i: int, j: int|
            0 <= i < j < msa.records@.len() ==> (#[trigger] msa.records@[i]).id@ != (
            #[trigger] msa.records@[j]).id@,
        forall|i: int|
            0 <= i < msa.records@.len() ==> (#[trigger] msa.records@[i]).sequence@.len()
                == crate::msa::spec_col_len(msa.records@),
{
    lemma_run_wf(init_state(), lines, st);
    assert forall|i: int, j: int| 0 <= i < j < msa.records@.len() implies (
    #[trigger] msa.records@[i]).id@ != (#[trigger] msa.records@[j]).id@ by {
        assert(recs_model(msa.records@)[i] == (msa.records@[i].id@, msa.records@[i].sequence@));
        assert(recs_model(msa.records@)[j] == (msa.records@[j].id@, msa.records@[j].sequence@));
    }
    assert forall|i: int| 0 <= i < msa.records@.len() implies (
    #[trigger] msa.records@[i]).sequence@.len() == crate::msa::spec_col_len(msa.records@) by {
        assert(recs_model(msa.records@)[i] == (msa.records@[i].id@, msa.records@[i].sequence@));
        assert(st.recs[i].1.len() == st.base);
        assert(recs_model(msa.records@)[0] == (msa.records@[0].id@, msa.records@[0].sequence@));
        assert(st.recs[0].1.len() == st.base);
    }
}

/// The residue fragments the lines contribute for `id`: the second field of
/// every sequence line whose identifier field is `id`, in input order.
pub open spec fn spec_fragments(lines: Seq<Seq<char>>, id: Seq<char>) -> Seq<Seq<char>>
    decreases lines.len(),
{
    if lines.len() == 0 {
        Seq::empty()
    } else {
        let rest = spec_fragments(lines.drop_first(), id);
        if !spec_is_blank(lines[0]) && !spec_is_consensus(lines[0]) {
            match spec_split2(lines[0]) {
                Some((lid, frag, b, c)) => if lid == id {
                    seq![frag] + rest
                } else {
                    rest
                },
                None => rest,
            }
        } else {
            rest
        }
    }
}

/// The concatenation of a sequence of fragments, in order.
pub open spec fn concat_all(fs: Seq<Seq<char>>) -> Seq<char>
    decreases fs.len(),
{
    if fs.len() == 0 {
        Seq::empty()
    } else {
        fs[0] + concat_all(fs.drop_first())
    }
}

/// Concatenation peels its first fragment off.
proof fn lemma_concat_cons(f: Seq<char>, fs: Seq<Seq<char>>)
    ensures
        concat_all(seq![f] + fs) == f + concat_all(fs),
{
    let s = seq![f] + fs;
    assert(s[0] == f);
    assert(s.drop_first() =~= fs);
}

/// Each record a run leaves ends with the fragments its identifier
/// contributed over the run's lines; records the run created carry exactly
/// those fragments.
proof fn lemma_run_fragments(st: ParseState, lines: Seq<Seq<char>>, st2: ParseState)
    requires
        wf_state(st),
        spec_run(st, lines) == Ok::<ParseState, ErrView>(st2),
    ensures
        st2.recs.len() >= st.recs.len(),
        forall|i: int|
            0 <= i < st.recs.len() ==> (#[trigger] st2.recs[i]).0 == st.recs[i].0
                && st2.recs[i].1 == st.recs[i].1 + concat_all(spec_fragments(lines, st.recs[i].0)),
        forall|i: int|
            st.recs.len() <= i < st2.recs.len() ==> (#[trigger] st2.recs[i]).1 == concat_all(
                spec_fragments(lines, st2.recs[i].0),
            ),
    decreases lines.len(),
{
    if lines.len() == 0 {
        assert(st2.recs == st.recs);
        assert forall|i: int| 0 <= i < st.recs.len() implies (#[trigger] st2.recs[i]).0
            == st.recs[i].0 && st2.recs[i].1 == st.recs[i].1 + concat_all(
            spec_fragments(lines, st.recs[i].0),
        ) by {
            assert(st.recs[i].1 + Seq::<char>::empty() =~= st.recs[i].1);
        }
    } else {
        let l = lines[0];
        let rest = lines.drop_first();
        match spec_step(st, l) {
            Err(_) => {
                assert(false);
            },
            Ok(stm) => {
                lemma_step_wf(st, l, stm);
                lemma_run_wf(stm, rest, st2);
                lemma_run_fragments(stm, rest, st2);
                if spec_is_blank(l) || spec_is_consensus(l) {
                    assert(stm.recs == st.recs);
                    assert forall|i: int| 0 <= i < st.recs.len() implies (
                    #[trigger] st2.recs[i]).0 == st.recs[i].0 && st2.recs[i].1 == st.recs[i].1 + concat_all(
                        spec_fragments(lines, st.recs[i].0),
                    ) by {
                        assert(spec_fragments(lines, st.recs[i].0) == spec_fragments(
                            rest,
                            st.recs[i].0,
                        ));
                    }
                    assert forall|i: int| st.recs.len() <= i < st2.recs.len() implies (
                    #[trigger] st2.recs[i]).1 == concat_all(spec_fragments(lines, st2.recs[i].0))
                        by {
                        assert(spec_fragments(lines, st2.recs[i].0) == spec_fragments(
                            rest,
                            st2.recs[i].0,
                        ));
                    }
                } else {
                    match spec_split2(l) {
                        None => {
                            assert(false);
                        },
                        Some((lid, frag, b, c)) => {
                            lemma_st_find(st.recs, lid);
                            match st_find(st.recs, lid) {
                                None => {
                                    assert(stm.recs == st.recs.push((lid, frag)));
                                    let p = st.recs.len() as int;
                                    assert(stm.recs[p] == (lid, frag));
                                    assert(st2.recs[p].0 == lid);
                                    assert forall|i: int| 0 <= i < st.recs.len() implies (
                                    #[trigger] st2.recs[i]).0 == st.recs[i].0 && st2.recs[i].1
                                        == st.recs[i].1 + concat_all(
                                        spec_fragments(lines, st.recs[i].0),
                                    ) by {
                                        assert(stm.recs[i] == st.recs[i]);
                                        assert(st.recs[i].0 != lid);
                                        assert(spec_fragments(lines, st.recs[i].0)
                                            == spec_fragments(rest, st.recs[i].0));
                                    }
                                    assert forall|i: int|
                                        st.recs.len() <= i < st2.recs.len() implies (
                                    #[trigger] st2.recs[i]).1 == concat_all(
                                        spec_fragments(lines, st2.recs[i].0),
                                    ) by {
                                        if i == p {
                                            assert(st2.recs[p].1 == stm.recs[p].1 + concat_all(
                                                spec_fragments(rest, lid),
                                            ));
                                            assert(spec_fragments(lines, lid) == seq![frag]
                                                + spec_fragments(rest, lid));
                                            lemma_concat_cons(frag, spec_fragments(rest, lid));
                                            assert(frag + concat_all(spec_fragments(rest, lid))
                                                =~= concat_all(spec_fragments(lines, lid)));
                                        } else {
                                            assert(st2.recs[i].0 != lid);
                                            assert(spec_fragments(lines, st2.recs[i].0)
                                                == spec_fragments(rest, st2.recs[i].0));
                                        }
                                    }
                                },
                                Some(ii) => {
                                    assert(stm.recs == st.recs.update(
                                        ii,
                                        (lid, st.recs[ii].1 + frag),
                                    ));
                                    assert(st.recs[ii].0 == lid);
                                    assert(st2.recs[ii].0 == lid);
                                    assert forall|i: int| 0 <= i < st.recs.len() implies (
                                    #[trigger] st2.recs[i]).0 == st.recs[i].0 && st2.recs[i].1
                                        == st.recs[i].1 + concat_all(
                                        spec_fragments(lines, st.recs[i].0),
                                    ) by {
                                        if i == ii {
                                            assert(st2.recs[ii].1 == stm.recs[ii].1 + concat_all(
                                                spec_fragments(rest, lid),
                                            ));
                                            assert(spec_fragments(lines, lid) == seq![frag]
                                                + spec_fragments(rest, lid));
                                            lemma_concat_cons(frag, spec_fragments(rest, lid));
                                            assert((st.recs[ii].1 + frag) + concat_all(
                                                spec_fragments(rest, lid),
                                            ) =~= st.recs[ii].1 + concat_all(
                                                spec_fragments(lines, lid),
                                            ));
                                        } else {
                                            assert(stm.recs[i] == st.recs[i]);
                                            assert(st.recs[i].0 != lid);
                                            assert(spec_fragments(lines, st.recs[i].0)
                                                == spec_fragments(rest, st.recs[i].0));
                                        }
                                    }
                                    assert forall|i: int|
                                        st.recs.len() <= i < st2.recs.len() implies (
                                    #[trigger] st2.recs[i]).1 == concat_all(
                                        spec_fragments(lines, st2.recs[i].0),
                                    ) by {
                                        assert(st2.recs[i].0 != lid);
                                        assert(spec_fragments(lines, st2.recs[i].0)
                                            == spec_fragments(rest, st2.recs[i].0));
                                    }
                                },
                            }
                        },
                    }
                }
            },
        }
    }
}

/// Round trip: each record of an alignment whose records model a successful
/// run's state carries exactly the concatenation of the fragments its
/// identifier contributed, in input order.
pub proof fn lemma_round_trip(lines: Seq<Seq<char>>, msa: MSA, st: ParseState)
    requires
        spec_run(init_state(), lines) == Ok::<ParseState, ErrView>(st),
        recs_model(msa.records@) == st.recs,
    ensures
        forall|i: int|
            0 <= i < msa.records@.len() ==> (#[trigger] msa.records@[i]).sequence@ == concat_all(
                spec_fragments(lines, msa.records@[i].id@),
            ),
{
    lemma_run_fragments(init_state(), lines, st);
    assert forall|i: int| 0 <= i < msa.records@.len() implies (
    #[trigger] msa.records@[i]).sequence@ == concat_all(
        spec_fragments(lines, msa.records@[i].id@),
    ) by {
        assert(recs_model(msa.records@)[i] == (msa.records@[i].id@, msa.records@[i].sequence@));
    }
}

} // verus!

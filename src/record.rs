//! Alignment records read from lines of a GAF file.

use vstd::prelude::*;

use crate::edit_script::{CigarOp, EditRun};
use gfa::cigar::CIGAROp;
use gfa::optfields::{OptFieldVal, OptionalFields};

verus! {

/// An optional field of a GAF line: its two-byte tag, and its value when
/// that value is a string (type `Z`).
#[derive(Debug)]
pub struct OptionalField {
    pub tag: Vec<u8>,
    pub text: Option<Vec<u8>>,
}

/// The parts of a GAF line that coverage needs.
#[derive(Debug)]
pub struct GafLine {
    pub seq_name: Vec<u8>,
    pub seq_len: usize,
    pub seq_start: usize,
    pub optional: Vec<OptionalField>,
}

/// One alignment of a query sequence: its name and length, the query
/// position where the alignment starts, and its edit script.
#[derive(Debug)]
pub struct AlignmentRecord {
    pub name: Vec<u8>,
    pub length: usize,
    pub start: usize,
    pub script: Vec<EditRun>,
}

/// Why a line gave no record.
#[derive(Clone, Copy, Debug, PartialEq, Eq, Structural)]
pub enum RecordError {
    /// The line is not a GAF record.
    Unparsable,
    /// The record has no `cg` field holding a string.
    MissingEditScript,
    /// The `cg` field does not hold a CIGAR string.
    MalformedEditScript,
    /// The line holds a number or an optional field beyond what the GAF
    /// parser accepts: a run of more than nine digits in the path or the
    /// edit script, an optional field whose tag is not a letter followed by
    /// a letter or digit, or an empty `B` array.
    Unsupported,
}

pub type OptionalFieldView = (Seq<u8>, Option<Seq<u8>>);

pub type GafLineView = (Seq<u8>, usize, usize, Seq<OptionalFieldView>);

pub type RecordView = (Seq<u8>, usize, usize, Seq<EditRun>);

pub open spec fn bytes_view(t: Option<Vec<u8>>) -> Option<Seq<u8>> {
    match t {
        Some(v) => Some(v@),
        None => None,
    }
}

impl OptionalField {
    pub open spec fn view(self) -> OptionalFieldView {
        (self.tag@, bytes_view(self.text))
    }
}

impl GafLine {
    pub open spec fn view(self) -> GafLineView {
        (
            self.seq_name@,
            self.seq_len,
            self.seq_start,
            self.optional@.map_values(|o: OptionalField| o.view()),
        )
    }
}

impl AlignmentRecord {
    pub open spec fn view(self) -> RecordView {
        (self.name@, self.length, self.start, self.script@)
    }
}

pub open spec fn fields_view(fields: Seq<Vec<u8>>) -> Seq<Seq<u8>> {
    fields.map_values(|f: Vec<u8>| f@)
}

/// The pieces of `s` between tab bytes, in order: one more piece than
/// there are tabs, each piece possibly empty.
pub open spec fn tab_split(s: Seq<u8>) -> Seq<Seq<u8>>
    decreases s.len(),
{
    if s.len() == 0 {
        seq![Seq::empty()]
    } else {
        let rest = tab_split(s.drop_last());
        if s.last() == 9u8 {
            rest.push(Seq::empty())
        } else {
            rest.update(rest.len() - 1, rest.last().push(s.last()))
        }
    }
}

/// What gfa's GAF parser makes of a line split into fields.
pub uninterp spec fn gaf_of(fields: Seq<Seq<u8>>) -> Option<GafLineView>;

/// What gfa's CIGAR parser makes of a byte string.
pub uninterp spec fn cigar_of(text: Seq<u8>) -> Option<Seq<EditRun>>;

/// Relies on bstr's `ByteSlice::split_str` with a tab separator: the pieces
/// of `line` between tab bytes, in order, an empty piece beside each tab at
/// either end and between two tabs.
#[verifier::external_body]
fn split_tabs(line: &[u8]) -> (r: Vec<Vec<u8>>)
    ensures
        fields_view(r@) == tab_split(line@),
{
    bstr::ByteSlice::split_str(line, b"\t").map(|f| f.to_vec()).collect()
}

/// Relies on gfa's `gafpaf::parse_gaf` with optional fields kept in a
/// vector: the query name, length and start, and each optional field's tag
/// with its string value, as the parser reads them. gfa panics on the lines
/// that `gaf_fields_supported` leaves out.
#[verifier::external_body]
fn parse_gaf_fields(fields: &Vec<Vec<u8>>) -> (r: Option<GafLine>)
    requires
        gaf_fields_supported(fields_view(fields@)),
    ensures
        match r {
            Some(g) => gaf_of(fields_view(fields@)) == Some(g.view()),
            None => gaf_of(fields_view(fields@)) is None,
        },
{
    let gaf = gfa::gafpaf::parse_gaf::<_, OptionalFields>(fields.iter())?;
    let optional = gaf.optional.into_iter().map(|o| OptionalField {
        tag: o.tag.to_vec(),
        text: match o.value {
            OptFieldVal::Z(t) => Some(t),
            _ => None,
        },
    }).collect();
    Some(GafLine { seq_name: gaf.seq_name, seq_len: gaf.seq_len, seq_start: gaf.seq_range.0, optional })
}

/// Relies on gfa's `cigar::CIGAR::from_bytestring`, read back run by run
/// through `CIGAR::iter`. gfa panics on a run of digits too long for a
/// `u32`, which `digit_runs_at_most(text, 9)` leaves out.
#[verifier::external_body]
fn parse_cigar(text: &[u8]) -> (r: Option<Vec<EditRun>>)
    requires
        digit_runs_at_most(text@, 9),
    ensures
        match r {
            Some(s) => cigar_of(text@) == Some(s@),
            None => cigar_of(text@) is None,
        },
{
    let cigar = gfa::cigar::CIGAR::from_bytestring(text)?;
    Some(cigar.iter().map(|(len, op)| (len, match op {
        CIGAROp::M => CigarOp::Match, CIGAROp::I => CigarOp::Insertion, CIGAROp::D => CigarOp::Deletion,
        CIGAROp::N => CigarOp::Skip, CIGAROp::S => CigarOp::SoftClip, CIGAROp::H => CigarOp::HardClip,
        CIGAROp::P => CigarOp::Padding, CIGAROp::E => CigarOp::Equal, CIGAROp::X => CigarOp::Mismatch,
    })).collect())
}

/// The tag of the optional field that holds the edit script.
pub open spec fn cg_tag() -> Seq<u8> {
    seq![99u8, 103u8]
}

/// The value of the first optional field tagged `tag`, if there is one.
pub open spec fn field_lookup(opts: Seq<OptionalFieldView>, tag: Seq<u8>) -> Option<Option<Seq<u8>>>
    decreases opts.len(),
{
    if opts.len() == 0 {
        None
    } else if opts[0].0 == tag {
        Some(opts[0].1)
    } else {
        field_lookup(opts.drop_first(), tag)
    }
}

/// The record that a parsed GAF line gives, or why it gives none.
pub open spec fn record_from_gaf_spec(g: GafLineView) -> Result<RecordView, RecordError> {
    match field_lookup(g.3, cg_tag()) {
        Some(Some(text)) => if !digit_runs_at_most(text, 9) {
            Err(RecordError::Unsupported)
        } else {
            match cigar_of(text) {
                Some(script) => Ok((g.0, g.1, g.2, script)),
                None => Err(RecordError::MalformedEditScript),
            }
        },
        _ => Err(RecordError::MissingEditScript),
    }
}

/// The record that a line gives, or why it gives none.
pub open spec fn record_spec(line: Seq<u8>) -> Result<RecordView, RecordError> {
    let fields = tab_split(line);
    if !gaf_fields_supported(fields) {
        Err(RecordError::Unsupported)
    } else {
        match gaf_of(fields) {
            Some(g) => record_from_gaf_spec(g),
            None => Err(RecordError::Unparsable),
        }
    }
}

pub open spec fn result_view(r: Result<AlignmentRecord, RecordError>) -> Result<RecordView, RecordError> {
    match r {
        Ok(rec) => Ok(rec.view()),
        Err(e) => Err(e),
    }
}

/// Index of the first optional field tagged `tag`, if there is one.
pub fn find_field(opts: &Vec<OptionalField>, tag: &[u8]) -> (r: Option<usize>)
    ensures
        match r {
            Some(i) => i < opts@.len() && field_lookup(
                opts@.map_values(|o: OptionalField| o.view()),
                tag@,
            ) == Some(opts@[i as int].view().1),
            None => field_lookup(opts@.map_values(|o: OptionalField| o.view()), tag@) is None,
        },
{
    let ghost ov = opts@.map_values(|o: OptionalField| o.view());
    let mut i: usize = 0;
    assert(ov.subrange(0, ov.len() as int) == ov);
    while i < opts.len()
        invariant
            0 <= i <= opts@.len(),
            ov == opts@.map_values(|o: OptionalField| o.view()),
            field_lookup(ov, tag@) == field_lookup(ov.subrange(i as int, ov.len() as int), tag@),
        decreases opts@.len() - i,
    {
        let ghost rest = ov.subrange(i as int, ov.len() as int);
        assert(rest[0] == ov[i as int]);
        assert(rest.drop_first() == ov.subrange(i + 1, ov.len() as int));
        if bytes_equal(opts[i].tag.as_slice(), tag) {
            return Some(i);
        }
        i = i + 1;
    }
    None
}

/// Whether two byte strings are equal.
pub fn bytes_equal(a: &[u8], b: &[u8]) -> (r: bool)
    ensures
        r == (a@ == b@),
{
    if a.len() != b.len() {
        return false;
    }
    let mut i: usize = 0;
    while i < a.len()
        invariant
            a@.len() == b@.len(),
            0 <= i <= a@.len(),
            forall|k: int| 0 <= k < i ==> a@[k] == b@[k],
        decreases a@.len() - i,
    {
        if a[i] != b[i] {
            return false;
        }
        i = i + 1;
    }
    assert(a@ =~= b@);
    true
}

/// Reads the record out of a parsed GAF line: its query name, length and
/// start, and the edit script parsed from its first `cg` field.
pub fn record_from_gaf(gaf: GafLine) -> (r: Result<AlignmentRecord, RecordError>)
    ensures
        result_view(r) == record_from_gaf_spec(gaf.view()),
{
    let ghost gv = gaf.view();
    let GafLine { seq_name, seq_len, seq_start, mut optional } = gaf;
    let tag: [u8; 2] = [99u8, 103u8];
    proof {
        assert(tag@ == cg_tag()) by {
            assert(tag@ =~= cg_tag());
        }
    }
    match find_field(&optional, tag.as_slice()) {
        None => Err(RecordError::MissingEditScript),
        Some(i) => {
            let field = optional.remove(i);
            match field.text {
                None => Err(RecordError::MissingEditScript),
                Some(text) => {
                    if !digit_runs_short(text.as_slice(), 9) {
                        return Err(RecordError::Unsupported);
                    }
                    match parse_cigar(text.as_slice()) {
                        None => Err(RecordError::MalformedEditScript),
                        Some(script) => Ok(
                            AlignmentRecord { name: seq_name, length: seq_len, start: seq_start, script },
                        ),
                    }
                },
            }
        },
    }
}

/// Reads one line of a GAF file (a trailing newline may stay on it) into an
/// alignment record, or says why it holds none.
pub fn parse_record(line: &[u8]) -> (r: Result<AlignmentRecord, RecordError>)
    ensures
        result_view(r) == record_spec(line@),
{
    let fields = split_tabs(line);
    if !gaf_fields_ok(&fields) {
        return Err(RecordError::Unsupported);
    }
    match parse_gaf_fields(&fields) {
        None => Err(RecordError::Unparsable),
        Some(gaf) => record_from_gaf(gaf),
    }
}

pub open spec fn is_digit(b: u8) -> bool {
    48 <= b <= 57
}

/// Number of consecutive digits of `s` that end at index `i`.
pub open spec fn digit_run_at(s: Seq<u8>, i: int) -> nat
    decreases i + 1,
{
    if i < 0 || i >= s.len() || !is_digit(s[i]) {
        0
    } else {
        digit_run_at(s, i - 1) + 1
    }
}

/// No run of consecutive digits in `s` is longer than `k`.
pub open spec fn digit_runs_at_most(s: Seq<u8>, k: nat) -> bool {
    forall|i: int| 0 <= i < s.len() ==> #[trigger] digit_run_at(s, i) <= k
}

/// Whether no run of consecutive digits in `s` is longer than `k`.
pub fn digit_runs_short(s: &[u8], k: usize) -> (r: bool)
    ensures
        r == digit_runs_at_most(s@, k as nat),
{
    let mut i: usize = 0;
    let mut run: usize = 0;
    while i < s.len()
        invariant
            0 <= i <= s@.len(),
            run == digit_run_at(s@, i - 1),
            run <= k,
            forall|j: int| 0 <= j < i ==> #[trigger] digit_run_at(s@, j) <= k,
        decreases s@.len() - i,
    {
        if 48 <= s[i] && s[i] <= 57 {
            if run == k {
                assert(digit_run_at(s@, i as int) > k);
                return false;
            }
            run = run + 1;
        } else {
            run = 0;
        }
        i = i + 1;
    }
    true
}

pub open spec fn is_alpha(b: u8) -> bool {
    (65 <= b <= 90) || (97 <= b <= 122)
}

/// An optional field that gfa reads without failing hard: one too short to
/// hold a value, or one with a letter and a letter or digit as its tag and,
/// for a `B` array, at least one byte of contents.
pub open spec fn optional_field_supported(f: Seq<u8>) -> bool {
    f.len() >= 5 ==> {
        &&& is_alpha(f[0])
        &&& is_alpha(f[1]) || is_digit(f[1])
        &&& !(f.len() == 5 && f[3] == 66u8)
    }
}

/// A split line that gfa's GAF parser reads without failing hard.
pub open spec fn gaf_fields_supported(fields: Seq<Seq<u8>>) -> bool {
    &&& fields.len() > 5 ==> digit_runs_at_most(fields[5], 9)
    &&& forall|k: int| 12 <= k < fields.len() ==> optional_field_supported(#[trigger] fields[k])
}

fn optional_field_ok(f: &Vec<u8>) -> (r: bool)
    ensures
        r == optional_field_supported(f@),
{
    if f.len() < 5 {
        return true;
    }
    let a = f[0];
    let b = f[1];
    let alpha_a = (65 <= a && a <= 90) || (97 <= a && a <= 122);
    let alnum_b = (65 <= b && b <= 90) || (97 <= b && b <= 122) || (48 <= b && b <= 57);
    alpha_a && alnum_b && !(f.len() == 5 && f[3] == 66u8)
}

/// Whether gfa's GAF parser reads these fields without failing hard.
pub fn gaf_fields_ok(fields: &Vec<Vec<u8>>) -> (r: bool)
    ensures
        r == gaf_fields_supported(fields_view(fields@)),
{
    let ghost fv = fields_view(fields@);
    if fields.len() > 5 {
        assert(fv[5] == fields@[5]@);
    }
    if fields.len() > 5 && !digit_runs_short(fields[5].as_slice(), 9) {
        return false;
    }
    let mut k: usize = 12;
    while k < fields.len()
        invariant
            fv == fields_view(fields@),
            12 <= k,
            fields@.len() > 5 ==> digit_runs_at_most(fv[5], 9),
            forall|j: int| 12 <= j < k && j < fv.len() ==> optional_field_supported(#[trigger] fv[j]),
        decreases fields@.len() - k,
    {
        assert(fv[k as int] == fields@[k as int]@);
        if !optional_field_ok(&fields[k]) {
            return false;
        }
        k = k + 1;
    }
    true
}

} // verus!

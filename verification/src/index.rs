//! Symbol-index files: records of the sorted-flat format, sections of the
//! file-sectioned format, and the order the sorted-flat format requires.

use vstd::prelude::*;
use crate::bytes::lex_lt;
use crate::bytes::lower;
use crate::bytes::lower_bytes;
use crate::bytes::bytes_eq;
use crate::bytes::bytes_lt;
use crate::bytes::clone_bytes;
use crate::bytes::lemma_lex_lt_trichotomy;
use crate::bytes::lemma_lex_lt_transitive;

verus! {

/// The two supported index formats, selected once per run.
#[derive(Clone, Copy, PartialEq, Eq, Structural)]
pub enum IndexFormat {
    /// One globally sorted table of records.
    SortedFlat,
    /// One self-contained section per source file.
    FileSectioned,
}

/// One record of a sorted-flat index: a symbol, the file it is defined in,
/// and the search pattern that locates it there.
#[derive(Clone)]
pub struct Record {
    pub symbol: Vec<u8>,
    pub file: Vec<u8>,
    pub pattern: Vec<u8>,
}

/// Mathematical value of a [`Record`].
pub struct RecordV {
    pub symbol: Seq<u8>,
    pub file: Seq<u8>,
    pub pattern: Seq<u8>,
}

impl View for Record {
    type V = RecordV;

    open spec fn view(&self) -> RecordV {
        RecordV { symbol: self.symbol@, file: self.file@, pattern: self.pattern@ }
    }
}

/// One section of a file-sectioned index: the path of a source file and
/// the section's verbatim content.
#[derive(Clone)]
pub struct Section {
    pub path: Vec<u8>,
    pub content: Vec<u8>,
}

/// Mathematical value of a [`Section`].
pub struct SectionV {
    pub path: Seq<u8>,
    pub content: Seq<u8>,
}

impl View for Section {
    type V = SectionV;

    open spec fn view(&self) -> SectionV {
        SectionV { path: self.path@, content: self.content@ }
    }
}

/// The value of a sequence of records.
pub open spec fn recs_view(s: Seq<Record>) -> Seq<RecordV> {
    s.map_values(|r: Record| r@)
}

/// The value of a sequence of sections.
pub open spec fn secs_view(s: Seq<Section>) -> Seq<SectionV> {
    s.map_values(|s: Section| s@)
}

/// A symbol index for one package or for a merged set of packages, in one
/// of the two supported formats.
#[derive(Clone)]
pub enum IndexFile {
    SortedFlat(Vec<Record>),
    FileSectioned(Vec<Section>),
}

/// Mathematical value of an [`IndexFile`].
pub enum IndexFileV {
    SortedFlat(Seq<RecordV>),
    FileSectioned(Seq<SectionV>),
}

impl View for IndexFile {
    type V = IndexFileV;

    open spec fn view(&self) -> IndexFileV {
        match self {
            IndexFile::SortedFlat(recs) => IndexFileV::SortedFlat(recs_view(recs@)),
            IndexFile::FileSectioned(secs) => IndexFileV::FileSectioned(secs_view(secs@)),
        }
    }
}

/// The format an index file is in.
pub open spec fn format_of(f: IndexFileV) -> IndexFormat {
    match f {
        IndexFileV::SortedFlat(_) => IndexFormat::SortedFlat,
        IndexFileV::FileSectioned(_) => IndexFormat::FileSectioned,
    }
}

/// Returns the format an index file is in.
pub fn index_format(f: &IndexFile) -> (r: IndexFormat)
    ensures
        r == format_of(f@),
{
    match f {
        IndexFile::SortedFlat(_) => IndexFormat::SortedFlat,
        IndexFile::FileSectioned(_) => IndexFormat::FileSectioned,
    }
}

/// Tests two records for exact equality of all three fields.
pub fn rec_eq(a: &Record, b: &Record) -> (r: bool)
    ensures
        r == (a@ == b@),
{
    bytes_eq(&a.symbol, &b.symbol) && bytes_eq(&a.file, &b.file) && bytes_eq(&a.pattern, &b.pattern)
}

/// Returns a copy of a record.
pub fn rec_clone(r: &Record) -> (c: Record)
    ensures
        c@ == r@,
{
    Record {
        symbol: clone_bytes(&r.symbol),
        file: clone_bytes(&r.file),
        pattern: clone_bytes(&r.pattern),
    }
}

/// Returns a copy of a section.
pub fn section_clone(s: &Section) -> (c: Section)
    ensures
        c@ == s@,
{
    Section { path: clone_bytes(&s.path), content: clone_bytes(&s.content) }
}

/// The sorted-flat format's order on records: by case-normalized symbol
/// name first, with exact symbol, file and pattern as tie breakers so that
/// the order is total and merge output is pinned byte for byte.
pub open spec fn rec_lt(a: RecordV, b: RecordV) -> bool {
    lex_lt(lower(a.symbol), lower(b.symbol)) || (lower(a.symbol) == lower(b.symbol) && (lex_lt(
        a.symbol,
        b.symbol,
    ) || (a.symbol == b.symbol && (lex_lt(a.file, b.file) || (a.file == b.file && lex_lt(
        a.pattern,
        b.pattern,
    ))))))
}

/// Exactly one of `rec_lt(a, b)`, `rec_lt(b, a)`, `a == b` holds.
pub proof fn lemma_rec_lt_trichotomy(a: RecordV, b: RecordV)
    ensures
        rec_lt(a, b) || rec_lt(b, a) || a == b,
        rec_lt(a, b) ==> !rec_lt(b, a) && a != b,
{
    lemma_lex_lt_trichotomy(lower(a.symbol), lower(b.symbol));
    lemma_lex_lt_trichotomy(a.symbol, b.symbol);
    lemma_lex_lt_trichotomy(a.file, b.file);
    lemma_lex_lt_trichotomy(a.pattern, b.pattern);
}

/// The record order is transitive.
pub proof fn lemma_rec_lt_transitive(a: RecordV, b: RecordV, c: RecordV)
    requires
        rec_lt(a, b),
        rec_lt(b, c),
    ensures
        rec_lt(a, c),
{
    let la = lower(a.symbol);
    let lb = lower(b.symbol);
    let lc = lower(c.symbol);
    if lex_lt(la, lb) && lex_lt(lb, lc) {
        lemma_lex_lt_transitive(la, lb, lc);
    } else if la == lb && lb == lc {
        if lex_lt(a.symbol, b.symbol) && lex_lt(b.symbol, c.symbol) {
            lemma_lex_lt_transitive(a.symbol, b.symbol, c.symbol);
        } else if a.symbol == b.symbol && b.symbol == c.symbol {
            if lex_lt(a.file, b.file) && lex_lt(b.file, c.file) {
                lemma_lex_lt_transitive(a.file, b.file, c.file);
            } else if a.file == b.file && b.file == c.file {
                lemma_lex_lt_transitive(a.pattern, b.pattern, c.pattern);
            }
        }
    }
}

/// Compares two records in the sorted-flat format's order.
pub fn rec_lt_exec(a: &Record, b: &Record) -> (r: bool)
    ensures
        r == rec_lt(a@, b@),
{
    let la = lower_bytes(&a.symbol);
    let lb = lower_bytes(&b.symbol);
    if bytes_lt(&la, &lb) {
        return true;
    }
    if !bytes_eq(&la, &lb) {
        return false;
    }
    if bytes_lt(&a.symbol, &b.symbol) {
        return true;
    }
    if !bytes_eq(&a.symbol, &b.symbol) {
        return false;
    }
    if bytes_lt(&a.file, &b.file) {
        return true;
    }
    if !bytes_eq(&a.file, &b.file) {
        return false;
    }
    bytes_lt(&a.pattern, &b.pattern)
}

/// The file name an index of the given format is written under, both in a
/// root package's source directory and beside a standard-library tree.
pub fn tags_file_name(fmt: IndexFormat) -> (r: Vec<u8>)
    ensures
        fmt == IndexFormat::SortedFlat ==> r@ == flat_file_name(),
        fmt == IndexFormat::FileSectioned ==> r@ == sectioned_file_name(),
{
    let mut r: Vec<u8> = Vec::new();
    r.push(114);
    r.push(117);
    r.push(115);
    r.push(116);
    r.push(121);
    r.push(45);
    r.push(116);
    r.push(97);
    r.push(103);
    r.push(115);
    r.push(46);
    match fmt {
        IndexFormat::SortedFlat => {
            r.push(118);
            r.push(105);
            proof {
                assert(r@ =~= flat_file_name());
            }
        },
        IndexFormat::FileSectioned => {
            r.push(101);
            r.push(109);
            r.push(97);
            r.push(99);
            r.push(115);
            proof {
                assert(r@ =~= sectioned_file_name());
            }
        },
    }
    r
}

/// The bytes of `rusty-tags.vi`.
pub open spec fn flat_file_name() -> Seq<u8> {
    seq![114u8, 117u8, 115u8, 116u8, 121u8, 45u8, 116u8, 97u8, 103u8, 115u8, 46u8, 118u8, 105u8]
}

/// The bytes of `rusty-tags.emacs`.
pub open spec fn sectioned_file_name() -> Seq<u8> {
    seq![
        114u8,
        117u8,
        115u8,
        116u8,
        121u8,
        45u8,
        116u8,
        97u8,
        103u8,
        115u8,
        46u8,
        101u8,
        109u8,
        97u8,
        99u8,
        115u8,
    ]
}

} // verus!

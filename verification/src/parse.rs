//! The line-oriented incremental blame format. Each chunk opens with a
//! header `<sha-hex> <orig_line> <final_line> <num_lines>`, is followed by
//! metadata lines of which only `previous <sha> <filename>` is kept, and is
//! closed by a `filename <name>` line. The parser is a state machine fed one
//! line at a time.
use vstd::prelude::*;
use crate::LineRange;
use crate::blame::BlameEntry;

verus! {

/// A decimal digit.
pub open spec fn is_digit(b: u8) -> bool {
    48 <= b <= 57
}

/// A hexadecimal digit, either case.
pub open spec fn is_hex_digit(b: u8) -> bool {
    (48 <= b <= 57) || (97 <= b <= 102) || (65 <= b <= 70)
}

/// The value of a hexadecimal digit; zero on other bytes.
pub open spec fn hex_val(b: u8) -> u8 {
    if 48 <= b <= 57 {
        (b - 48) as u8
    } else if 97 <= b <= 102 {
        (b - 97 + 10) as u8
    } else if 65 <= b <= 70 {
        (b - 65 + 10) as u8
    } else {
        0
    }
}

/// The bytes an even run of hexadecimal digits denotes.
pub open spec fn hex_decode(s: Seq<u8>) -> Seq<u8> {
    Seq::new((s.len() / 2) as nat, |i: int| (16 * hex_val(s[2 * i]) + hex_val(s[2 * i + 1])) as u8)
}

/// Relies on hex::decode: it yields one byte for each pair of hexadecimal
/// digits, high digit first, both letter cases accepted, and fails exactly
/// on an odd-length input or a byte that is no hexadecimal digit.
#[verifier::external_body]
fn hex_decode_bytes(data: &Vec<u8>) -> (r: Option<Vec<u8>>)
    ensures
        match r {
            Some(out) => data@.len() % 2 == 0 && (forall|i: int|
                0 <= i < data@.len() ==> is_hex_digit(data@[i])) && out@ == hex_decode(data@),
            None => data@.len() % 2 != 0 || (exists|i: int|
                0 <= i < data@.len() && !is_hex_digit(data@[i])),
        },
{
    match hex::decode(data.as_slice()) {
        Ok(v) => Some(v),
        Err(_) => None,
    }
}

/// The first index at or after `from` holding a space, or the length.
pub open spec fn first_space(s: Seq<u8>, from: int) -> int
    decreases s.len() - from,
    when 0 <= from <= s.len()
{
    if from >= s.len() {
        s.len() as int
    } else if s[from] == 32 {
        from
    } else {
        first_space(s, from + 1)
    }
}

proof fn lemma_first_space(s: Seq<u8>, from: int)
    requires
        0 <= from <= s.len(),
    ensures
        from <= first_space(s, from) <= s.len(),
        forall|k: int| from <= k < first_space(s, from) ==> s[k] != 32,
        first_space(s, from) < s.len() ==> s[first_space(s, from)] == 32,
    decreases s.len() - from,
{
    if from >= s.len() {
    } else if s[from] == 32 {
    } else {
        lemma_first_space(s, from + 1);
    }
}

fn find_space(line: &Vec<u8>, from: usize) -> (r: usize)
    requires
        from <= line@.len(),
    ensures
        r == first_space(line@, from as int),
{
    let n = line.len();
    let mut i = from;
    while i < n
        invariant
            from <= i <= n,
            n == line@.len(),
            first_space(line@, from as int) == first_space(line@, i as int),
        decreases n - i,
    {
        if line[i] == 32 {
            return i;
        }
        i = i + 1;
    }
    i
}

/// The number a run of decimal digits denotes.
pub open spec fn dec_val(s: Seq<u8>) -> nat
    decreases s.len(),
{
    if s.len() == 0 {
        0
    } else {
        dec_val(s.drop_last()) * 10 + (if is_digit(s.last()) {
            (s.last() - 48) as nat
        } else {
            0
        })
    }
}

/// A non-empty run of decimal digits.
pub open spec fn all_digits(s: Seq<u8>) -> bool {
    s.len() > 0 && forall|i: int| 0 <= i < s.len() ==> is_digit(#[trigger] s[i])
}

proof fn lemma_dec_val_prefix(s: Seq<u8>, j: int)
    requires
        0 <= j <= s.len(),
    ensures
        dec_val(s.take(j)) <= dec_val(s),
    decreases s.len() - j,
{
    if j == s.len() {
        assert(s.take(j) =~= s);
    } else {
        lemma_dec_val_prefix(s, j + 1);
        assert(s.take(j + 1).drop_last() =~= s.take(j));
        assert(dec_val(s.take(j + 1)) == dec_val(s.take(j)) * 10 + (if is_digit(s.take(j + 1).last()) {
            (s.take(j + 1).last() - 48) as nat
        } else {
            0
        }));
    }
}

/// Why a line was rejected.
#[derive(PartialEq, Eq, Structural, Clone, Copy, Debug)]
pub enum ParseError {
    /// The header does not open with forty hexadecimal digits and a space.
    BadSha,
    /// A numeric header field is empty, holds a non-digit, or overflows.
    BadNumber,
    /// The header ends before all three numeric fields.
    MissingField,
    /// A chunk's line range would run past the largest line number.
    RangeOverflow,
}

/// Parses the digits in `line[start..end]` as a `u32`.
fn parse_u32(line: &Vec<u8>, start: usize, end: usize) -> (r: Result<u32, ParseError>)
    requires
        start <= end <= line@.len(),
    ensures
        match r {
            Ok(v) => all_digits(line@.subrange(start as int, end as int)) && v == dec_val(
                line@.subrange(start as int, end as int),
            ) && dec_val(line@.subrange(start as int, end as int)) <= u32::MAX,
            Err(e) => e == ParseError::BadNumber && (!all_digits(
                line@.subrange(start as int, end as int),
            ) || dec_val(line@.subrange(start as int, end as int)) > u32::MAX),
        },
{
    let ghost tok = line@.subrange(start as int, end as int);
    if start == end {
        return Err(ParseError::BadNumber);
    }
    let mut acc: u64 = 0;
    let mut i = start;
    while i < end
        invariant
            start <= i <= end <= line@.len(),
            tok == line@.subrange(start as int, end as int),
            acc <= u32::MAX,
            acc == dec_val(tok.take(i - start)),
            forall|k: int| 0 <= k < i - start ==> is_digit(#[trigger] tok[k]),
        decreases end - i,
    {
        let b = line[i];
        assert(tok[i - start] == b);
        if b < 48 || b > 57 {
            return Err(ParseError::BadNumber);
        }
        let d = (b - 48) as u64;
        let next: u64 = acc * 10 + d;
        proof {
            assert(tok.take(i - start + 1).drop_last() =~= tok.take(i - start));
            assert(tok.take(i - start + 1).last() == b);
            assert(next == dec_val(tok.take(i - start + 1)));
        }
        if next > 0xFFFF_FFFFu64 {
            proof {
                lemma_dec_val_prefix(tok, i - start + 1);
            }
            return Err(ParseError::BadNumber);
        }
        acc = next;
        i = i + 1;
    }
    proof {
        assert(tok.take(end - start) =~= tok);
    }
    Ok(acc as u32)
}

/// An owned copy of `line[start..end]`.
fn copy_range(line: &Vec<u8>, start: usize, end: usize) -> (r: Vec<u8>)
    requires
        start <= end <= line@.len(),
    ensures
        r@ == line@.subrange(start as int, end as int),
{
    let mut out: Vec<u8> = Vec::new();
    let mut i = start;
    while i < end
        invariant
            start <= i <= end <= line@.len(),
            out@ == line@.subrange(start as int, i as int),
        decreases end - i,
    {
        out.push(line[i]);
        assert(out@ =~= line@.subrange(start as int, i as int + 1));
        i = i + 1;
    }
    out
}

/// `p` opens `s`.
pub open spec fn is_prefix(p: Seq<u8>, s: Seq<u8>) -> bool {
    s.len() >= p.len() && forall|i: int| 0 <= i < p.len() ==> s[i] == #[trigger] p[i]
}

fn has_prefix(line: &Vec<u8>, p: &Vec<u8>) -> (r: bool)
    ensures
        r == is_prefix(p@, line@),
{
    let m = p.len();
    if line.len() < m {
        return false;
    }
    let mut i: usize = 0;
    while i < m
        invariant
            i <= m,
            m == p@.len() <= line@.len(),
            forall|k: int| 0 <= k < i ==> line@[k] == #[trigger] p@[k],
        decreases m - i,
    {
        if line[i] != p[i] {
            return false;
        }
        i = i + 1;
    }
    true
}

/// The bytes of `previous `, the metadata key that names a chunk's earlier
/// file name.
pub open spec fn previous_prefix() -> Seq<u8> {
    seq![112u8, 114u8, 101u8, 118u8, 105u8, 111u8, 117u8, 115u8, 32u8]
}

/// The bytes of `filename `, the metadata key that closes a chunk.
pub open spec fn filename_prefix() -> Seq<u8> {
    seq![102u8, 105u8, 108u8, 101u8, 110u8, 97u8, 109u8, 101u8, 32u8]
}

fn make_previous_prefix() -> (r: Vec<u8>)
    ensures
        r@ == previous_prefix(),
{
    let r: Vec<u8> = vec![112u8, 114u8, 101u8, 118u8, 105u8, 111u8, 117u8, 115u8, 32u8];
    assert(r@ =~= previous_prefix());
    r
}

fn make_filename_prefix() -> (r: Vec<u8>)
    ensures
        r@ == filename_prefix(),
{
    let r: Vec<u8> = vec![102u8, 105u8, 108u8, 101u8, 110u8, 97u8, 109u8, 101u8, 32u8];
    assert(r@ =~= filename_prefix());
    r
}

/// One parsed chunk header: the blamed commit, where the run starts in the
/// original and in the current file, how many lines it covers, and the
/// file's earlier name where the metadata named one.
#[derive(Debug)]
pub struct BlameChunk {
    pub sha: Vec<u8>,
    pub line_original: u32,
    pub line_final: u32,
    pub num_lines: u32,
    pub previous_filename: Option<Vec<u8>>,
}

/// The mathematical content of a chunk.
#[verifier::ext_equal]
pub struct ChunkModel {
    pub sha: Seq<u8>,
    pub line_original: u32,
    pub line_final: u32,
    pub num_lines: u32,
    pub previous_filename: Option<Seq<u8>>,
}

impl View for BlameChunk {
    type V = ChunkModel;

    open spec fn view(&self) -> ChunkModel {
        ChunkModel {
            sha: self.sha@,
            line_original: self.line_original,
            line_final: self.line_final,
            num_lines: self.num_lines,
            previous_filename: match self.previous_filename {
                None => None,
                Some(ref p) => Some(p@),
            },
        }
    }
}

/// What one header line means: the chunk it opens, or why it is rejected.
pub open spec fn spec_header(line: Seq<u8>) -> Result<ChunkModel, ParseError> {
    let s1 = first_space(line, 0);
    if s1 != 40 {
        Err(ParseError::BadSha)
    } else if exists|i: int| 0 <= i < 40 && !is_hex_digit(line[i]) {
        Err(ParseError::BadSha)
    } else if line.len() == 40 {
        Err(ParseError::MissingField)
    } else {
        let e1 = first_space(line, 41);
        let t1 = line.subrange(41, e1);
        if !all_digits(t1) || dec_val(t1) > u32::MAX {
            Err(ParseError::BadNumber)
        } else if e1 == line.len() {
            Err(ParseError::MissingField)
        } else {
            let e2 = first_space(line, e1 + 1);
            let t2 = line.subrange(e1 + 1, e2);
            if !all_digits(t2) || dec_val(t2) > u32::MAX {
                Err(ParseError::BadNumber)
            } else if e2 == line.len() {
                Err(ParseError::MissingField)
            } else {
                let e3 = first_space(line, e2 + 1);
                let t3 = line.subrange(e2 + 1, e3);
                if !all_digits(t3) || dec_val(t3) > u32::MAX {
                    Err(ParseError::BadNumber)
                } else {
                    Ok(ChunkModel {
                        sha: hex_decode(line.take(40)),
                        line_original: dec_val(t1) as u32,
                        line_final: dec_val(t2) as u32,
                        num_lines: dec_val(t3) as u32,
                        previous_filename: None,
                    })
                }
            }
        }
    }
}

/// What one line does to the parser: the next pending chunk and what the
/// call reports.
pub open spec fn spec_feed(cur: Option<ChunkModel>, line: Seq<u8>) -> (Option<ChunkModel>, Result<
    Option<ChunkModel>,
    ParseError,
>) {
    match cur {
        Some(c) => {
            if is_prefix(filename_prefix(), line) {
                (None, Ok(Some(c)))
            } else if is_prefix(previous_prefix(), line) {
                let sp = first_space(line, 9);
                if sp < line.len() {
                    (
                        Some(
                            ChunkModel {
                                previous_filename: Some(line.skip(sp + 1)),
                                ..c
                            },
                        ),
                        Ok(None),
                    )
                } else {
                    (Some(c), Ok(None))
                }
            } else {
                (Some(c), Ok(None))
            }
        },
        None => match spec_header(line) {
            Ok(c) => (Some(c), Ok(None)),
            Err(e) => (None, Err(e)),
        },
    }
}

/// The incremental-blame state machine: at most one chunk is pending at a
/// time, opened by a header line and closed by a `filename` line.
pub struct ChunkParser {
    current: Option<BlameChunk>,
}

impl ChunkParser {
    /// The pending chunk.
    pub closed spec fn model(self) -> Option<ChunkModel> {
        match self.current {
            None => None,
            Some(c) => Some(c@),
        }
    }

    pub fn new() -> (r: Self)
        ensures
            r.model() is None,
    {
        ChunkParser { current: None }
    }

    /// Feeds one line; yields a chunk when the line closed one.
    pub fn feed_line(&mut self, line: &Vec<u8>) -> (r: Result<Option<BlameChunk>, ParseError>)
        ensures
            ({
                let (st, res) = spec_feed(old(self).model(), line@);
                &&& final(self).model() == st
                &&& match r {
                    Ok(None) => res == Ok::<Option<ChunkModel>, ParseError>(None),
                    Ok(Some(c)) => res == Ok::<Option<ChunkModel>, ParseError>(Some(c@)),
                    Err(e) => res == Err::<Option<ChunkModel>, ParseError>(e),
                }
            }),
    {
        let cur = self.current.take();
        match cur {
            Some(mut c) => {
                let fname = make_filename_prefix();
                let prev = make_previous_prefix();
                if has_prefix(line, &fname) {
                    Ok(Some(c))
                } else if has_prefix(line, &prev) {
                    assert(line@.len() >= 9);
                    let sp = find_space(line, 9);
                    if sp < line.len() {
                        let name = copy_range(line, sp + 1, line.len());
                        proof {
                            assert(name@ =~= line@.skip(sp as int + 1));
                        }
                        c.previous_filename = Some(name);
                        self.current = Some(c);
                    } else {
                        self.current = Some(c);
                    }
                    Ok(None)
                } else {
                    self.current = Some(c);
                    Ok(None)
                }
            },
            None => match self.parse_header(line) {
                Ok(c) => {
                    self.current = Some(c);
                    Ok(None)
                },
                Err(e) => Err(e),
            },
        }
    }

    fn parse_header(&mut self, line: &Vec<u8>) -> (r: Result<BlameChunk, ParseError>)
        ensures
            *final(self) == *old(self),
            match r {
                Ok(c) => spec_header(line@) == Ok::<ChunkModel, ParseError>(c@),
                Err(e) => spec_header(line@) == Err::<ChunkModel, ParseError>(e),
            },
    {
        proof {
            lemma_first_space(line@, 0);
        }
        let s1 = find_space(line, 0);
        if s1 != 40 {
            return Err(ParseError::BadSha);
        }
        let sha_hex = copy_range(line, 0, 40);
        let sha = match hex_decode_bytes(&sha_hex) {
            Some(s) => s,
            None => {
                proof {
                    assert(sha_hex@.len() == 40);
                    assert(exists|i: int| 0 <= i < 40 && !is_hex_digit(line@[i])) by {
                        let i = choose|i: int|
                            0 <= i < sha_hex@.len() && !is_hex_digit(sha_hex@[i]);
                        assert(sha_hex@[i] == line@[i]);
                    }
                }
                return Err(ParseError::BadSha);
            },
        };
        proof {
            assert(forall|i: int| 0 <= i < 40 ==> is_hex_digit(#[trigger] line@[i])) by {
                assert(forall|i: int|
                    0 <= i < 40 ==> sha_hex@[i] == #[trigger] line@[i] && is_hex_digit(
                        sha_hex@[i],
                    ));
            }
            assert(sha@ == hex_decode(line@.take(40))) by {
                assert(sha_hex@ =~= line@.take(40));
            }
        }
        if line.len() == 40 {
            return Err(ParseError::MissingField);
        }
        proof {
            lemma_first_space(line@, 41);
        }
        let e1 = find_space(line, 41);
        let line_original = match parse_u32(line, 41, e1) {
            Ok(v) => v,
            Err(e) => {
                return Err(e);
            },
        };
        if e1 == line.len() {
            return Err(ParseError::MissingField);
        }
        proof {
            lemma_first_space(line@, e1 as int + 1);
        }
        let e2 = find_space(line, e1 + 1);
        let line_final = match parse_u32(line, e1 + 1, e2) {
            Ok(v) => v,
            Err(e) => {
                return Err(e);
            },
        };
        if e2 == line.len() {
            return Err(ParseError::MissingField);
        }
        proof {
            lemma_first_space(line@, e2 as int + 1);
        }
        let e3 = find_space(line, e2 + 1);
        let num_lines = match parse_u32(line, e2 + 1, e3) {
            Ok(v) => v,
            Err(e) => {
                return Err(e);
            },
        };
        let c = BlameChunk {
            sha,
            line_original,
            line_final,
            num_lines,
            previous_filename: None,
        };
        proof {
            assert(c@ =~= spec_header(line@)->Ok_0);
        }
        Ok(c)
    }
}

/// The blame entry a chunk denotes: `num_lines` lines starting at
/// `line_final` in the blamed file and at `line_original` in the original.
/// Rejected where a range would pass the largest representable line.
pub fn chunk_entry(c: BlameChunk) -> (r: Result<BlameEntry, ParseError>)
    ensures
        match r {
            Ok(e) => {
                &&& c.line_final + c.num_lines <= u32::MAX
                &&& c.line_original + c.num_lines <= u32::MAX
                &&& e@.rb == (LineRange {
                    start: c.line_final,
                    end: (c.line_final + c.num_lines) as u32,
                })
                &&& e@.ro == (LineRange {
                    start: c.line_original,
                    end: (c.line_original + c.num_lines) as u32,
                })
                &&& e@.sha == c.sha@
            },
            Err(e) => e == ParseError::RangeOverflow && (c.line_final + c.num_lines > u32::MAX
                || c.line_original + c.num_lines > u32::MAX),
        },
{
    if c.num_lines > u32::MAX - c.line_final || c.num_lines > u32::MAX - c.line_original {
        return Err(ParseError::RangeOverflow);
    }
    Ok(
        BlameEntry {
            range_in_blamed_file: LineRange {
                start: c.line_final,
                end: c.line_final + c.num_lines,
            },
            range_in_original_file: LineRange {
                start: c.line_original,
                end: c.line_original + c.num_lines,
            },
            commit_id: c.sha,
        },
    )
}

} // verus!

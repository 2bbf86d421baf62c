//! Spans, source files and the source map.
//!
//! Every loaded file owns a disjoint range of a global 32-bit byte address
//! space; a [`Span`] addresses a contiguous byte range inside one file, and
//! the [`SourceMap`] resolves it back to text or to a line/column location.
//! Offsets and lengths are counted in bytes of the UTF-8 encoding of the
//! text, while the text itself is held as a vector of characters.

use vstd::prelude::*;

verus! {

/// A contiguous byte range of the session's global source address space:
/// a start offset and a length in bytes. Spans order by start offset, then
/// by length.
#[derive(Debug, Clone, Copy, PartialEq, Eq, PartialOrd, Ord, Structural)]
pub struct Span {
    pub lo: u32,
    pub len: u32,
}

impl Span {
    pub fn new(lo: u32, len: u32) -> (s: Span)
        ensures
            s.lo == lo,
            s.len == len,
    {
        Span { lo, len }
    }
}

/// Number of bytes of the UTF-8 encoding of `c`.
pub open spec fn char_bytes(c: char) -> nat {
    if (c as u32) < 0x80 {
        1
    } else if (c as u32) < 0x800 {
        2
    } else if (c as u32) < 0x10000 {
        3
    } else {
        4
    }
}

/// Number of bytes of the UTF-8 encoding of the character sequence `s`.
pub open spec fn bytes_of(s: Seq<char>) -> nat
    decreases s.len(),
{
    if s.len() == 0 {
        0
    } else {
        bytes_of(s.drop_last()) + char_bytes(s.last())
    }
}

/// Byte size of one more character of the prefix.
pub proof fn lemma_bytes_of_take_succ(s: Seq<char>, i: int)
    requires
        0 <= i < s.len(),
    ensures
        bytes_of(s.take(i + 1)) == bytes_of(s.take(i)) + char_bytes(s[i]),
{
    assert(s.take(i + 1).drop_last() =~= s.take(i));
    assert(s.take(i + 1).last() == s[i]);
}

/// Byte sizes of prefixes grow strictly with the prefix length.
pub proof fn lemma_bytes_of_take_mono(s: Seq<char>, i: int, j: int)
    requires
        0 <= i <= j <= s.len(),
    ensures
        bytes_of(s.take(i)) + (j - i) <= bytes_of(s.take(j)),
    decreases j - i,
{
    if i < j {
        lemma_bytes_of_take_succ(s, i);
        lemma_bytes_of_take_mono(s, i + 1, j);
    }
}

/// The whole sequence is its own longest prefix.
pub proof fn lemma_bytes_of_take_all(s: Seq<char>)
    ensures
        bytes_of(s.take(s.len() as int)) == bytes_of(s),
{
    assert(s.take(s.len() as int) =~= s);
}

/// Byte sizes add over concatenation.
pub proof fn lemma_bytes_of_concat(a: Seq<char>, b: Seq<char>)
    ensures
        bytes_of(a + b) == bytes_of(a) + bytes_of(b),
    decreases b.len(),
{
    if b.len() == 0 {
        assert(a + b =~= a);
    } else {
        assert((a + b).drop_last() =~= a + b.drop_last());
        lemma_bytes_of_concat(a, b.drop_last());
    }
}

/// The byte size of a middle piece is the difference of two prefix sizes.
pub proof fn lemma_bytes_of_subrange(s: Seq<char>, i: int, j: int)
    requires
        0 <= i <= j <= s.len(),
    ensures
        bytes_of(s.take(i)) + bytes_of(s.subrange(i, j)) == bytes_of(s.take(j)),
{
    assert(s.take(j) =~= s.take(i) + s.subrange(i, j));
    lemma_bytes_of_concat(s.take(i), s.subrange(i, j));
}

/// `b` is on a character boundary of `s`: some prefix of `s` encodes to
/// exactly `b` bytes.
pub open spec fn is_char_boundary(s: Seq<char>, b: int) -> bool {
    exists|i: int| 0 <= i <= s.len() && bytes_of(s.take(i)) == b
}

/// The index of the character starting at byte offset `b` of `s`.
pub open spec fn char_idx_at(s: Seq<char>, b: int) -> int {
    choose|i: int| 0 <= i <= s.len() && bytes_of(s.take(i)) == b
}

/// A byte offset lies on at most one character boundary.
pub proof fn lemma_char_boundary_unique(s: Seq<char>, i: int, j: int)
    requires
        0 <= i <= s.len(),
        0 <= j <= s.len(),
        bytes_of(s.take(i)) == bytes_of(s.take(j)),
    ensures
        i == j,
{
    if i < j {
        lemma_bytes_of_take_mono(s, i, j);
    }
    if j < i {
        lemma_bytes_of_take_mono(s, j, i);
    }
}

/// Byte offsets of the newline characters among the first `i` characters
/// of `s`, in increasing order.
pub open spec fn line_table_upto(s: Seq<char>, i: int) -> Seq<int>
    decreases i,
{
    if i <= 0 {
        Seq::empty()
    } else if s[i - 1] == '\n' {
        line_table_upto(s, i - 1).push(bytes_of(s.take(i - 1)) as int)
    } else {
        line_table_upto(s, i - 1)
    }
}

/// Byte offsets of all newline characters of `s`, in increasing order.
pub open spec fn line_table(s: Seq<char>) -> Seq<int> {
    line_table_upto(s, s.len() as int)
}

/// The newline table of a prefix is sorted, stays under the prefix's byte
/// size, and cannot hold more entries than there are bytes before each.
pub proof fn lemma_line_table_upto_props(s: Seq<char>, i: int)
    requires
        0 <= i <= s.len(),
    ensures
        forall|k: int|
            0 <= k < line_table_upto(s, i).len() ==> k <= #[trigger] line_table_upto(s, i)[k]
                < bytes_of(s.take(i)),
        forall|k1: int, k2: int|
            0 <= k1 < k2 < line_table_upto(s, i).len() ==> line_table_upto(s, i)[k1]
                < line_table_upto(s, i)[k2],
        line_table_upto(s, i).len() <= bytes_of(s.take(i)),
    decreases i,
{
    if i > 0 {
        lemma_line_table_upto_props(s, i - 1);
        lemma_bytes_of_take_succ(s, i - 1);
        lemma_bytes_of_take_mono(s, 0, i - 1);
        assert(s.take(0) =~= Seq::<char>::empty());
    }
}

/// How many entries of `t` lie strictly below `b`.
pub open spec fn count_lt(t: Seq<int>, b: int) -> int
    decreases t.len(),
{
    if t.len() == 0 {
        0
    } else {
        count_lt(t.drop_last(), b) + if t.last() < b {
            1int
        } else {
            0int
        }
    }
}

/// For a sorted table, the split index with everything below `b` on the
/// left and nothing below `b` on the right is the count of entries below `b`.
pub proof fn lemma_count_lt_partition(t: Seq<int>, b: int, k: int)
    requires
        0 <= k <= t.len(),
        forall|i: int| 0 <= i < k ==> t[i] < b,
        forall|i: int| k <= i < t.len() ==> t[i] >= b,
    ensures
        count_lt(t, b) == k,
    decreases t.len(),
{
    if t.len() > 0 {
        if k == t.len() {
            lemma_count_lt_partition(t.drop_last(), b, k - 1);
        } else {
            lemma_count_lt_partition(t.drop_last(), b, k);
        }
    }
}

/// One-based line number of byte offset `b` in text `s`: one more than the
/// number of newlines that lie strictly before `b`.
pub open spec fn spec_line(s: Seq<char>, b: int) -> int {
    count_lt(line_table(s), b) + 1
}

/// One-based byte column of byte offset `b` in text `s`: its distance from
/// the start of its line.
pub open spec fn spec_col(s: Seq<char>, b: int) -> int {
    let c = count_lt(line_table(s), b);
    if c == 0 {
        b + 1
    } else {
        b - line_table(s)[c - 1]
    }
}

/// Could not load a file into the source map.
#[derive(Debug)]
pub enum LoadError {
    /// The underlying read failed; the payload is the operating system's
    /// description of the failure.
    Io(String),
    /// The 32-bit global address space is exhausted: the file's assigned
    /// range would end past `u32::MAX`.
    OffsetOverflowError,
}

/// The diagnostic text for a failed load.
pub open spec fn spec_load_error_message(e: LoadError) -> Seq<char> {
    match e {
        LoadError::Io(m) => m@,
        LoadError::OffsetOverflowError => "4GB limit for source files reached"@,
    }
}

impl LoadError {
    /// The diagnostic text for this failure.
    pub fn message(&self) -> (r: String)
        ensures
            r@ == spec_load_error_message(*self),
    {
        match self {
            LoadError::Io(m) => m.clone(),
            LoadError::OffsetOverflowError => String::from_str(
                "4GB limit for source files reached",
            ),
        }
    }
}

/// One loaded file: its path, its text, the global byte offset its range
/// starts at, and the byte offsets of its newlines.
pub struct SourceFile {
    /// path to this file on disk
    pub path: String,
    /// the full text of the file, one entry per character
    pub src: Vec<char>,
    /// absolute start position of this file in the source map
    pub start_pos: u32,
    /// size of the text in bytes
    pub size: u32,
    /// relative byte offsets of each newline
    pub lines: Vec<u32>,
}

impl SourceFile {
    /// The stored byte size and newline table describe the text, and the
    /// file's global byte range fits the 32-bit address space.
    pub open spec fn wf(&self) -> bool {
        &&& self.size == bytes_of(self.src@)
        &&& self.start_pos + self.size <= u32::MAX
        &&& self.lines@.len() == line_table(self.src@).len()
        &&& forall|k: int|
            0 <= k < self.lines@.len() ==> self.lines@[k] as int == line_table(self.src@)[k]
    }

    /// Build a file record at global offset `start_pos`: measure the text in
    /// bytes and table its newlines. Fails exactly when the file's range
    /// would end past `u32::MAX`.
    pub fn new(path: String, src: Vec<char>, start_pos: u32) -> (r: Result<SourceFile, LoadError>)
        ensures
            match r {
                Ok(f) => {
                    &&& f.wf()
                    &&& f.path@ == path@
                    &&& f.src@ == src@
                    &&& f.start_pos == start_pos
                    &&& start_pos + bytes_of(src@) <= u32::MAX
                },
                Err(e) => {
                    &&& e is OffsetOverflowError
                    &&& start_pos + bytes_of(src@) > u32::MAX
                },
            },
    {
        let budget: u32 = u32::MAX - start_pos;
        let mut size: u32 = 0;
        let mut lines: Vec<u32> = Vec::new();
        let n = src.len();
        let mut i: usize = 0;
        while i < n
            invariant
                0 <= i <= n,
                n == src@.len(),
                size == bytes_of(src@.take(i as int)),
                size <= budget,
                budget == u32::MAX - start_pos,
                lines@.len() == line_table_upto(src@, i as int).len(),
                forall|k: int|
                    0 <= k < lines@.len() ==> lines@[k] as int == line_table_upto(
                        src@,
                        i as int,
                    )[k],
            decreases n - i,
        {
            let c = src[i];
            let w = char_width(c);
            proof {
                lemma_bytes_of_take_succ(src@, i as int);
            }
            if w > budget - size {
                proof {
                    lemma_bytes_of_take_mono(src@, i + 1, src@.len() as int);
                    lemma_bytes_of_take_all(src@);
                }
                return Err(LoadError::OffsetOverflowError);
            }
            if c == '\n' {
                lines.push(size);
            }
            size = size + w;
            i = i + 1;
        }
        proof {
            lemma_bytes_of_take_all(src@);
        }
        Ok(SourceFile { path, src, start_pos, size, lines })
    }

    /// One-based line number of the local byte offset: the count of newlines
    /// strictly before it, plus one.
    pub fn line_number(&self, byte_offset: u32) -> (r: usize)
        requires
            self.wf(),
            byte_offset < u32::MAX,
        ensures
            r == spec_line(self.src@, byte_offset as int),
            1 <= r <= self.lines@.len() + 1,
            forall|i: int| 0 <= i < r - 1 ==> self.lines@[i] < byte_offset,
            forall|i: int| r - 1 <= i < self.lines@.len() ==> self.lines@[i] >= byte_offset,
    {
        proof {
            lemma_line_table_upto_props(self.src@, self.src@.len() as int);
        }
        let mut lo: usize = 0;
        let mut hi: usize = self.lines.len();
        while lo < hi
            invariant
                0 <= lo <= hi <= self.lines@.len(),
                self.wf(),
                forall|i: int| 0 <= i < lo ==> self.lines@[i] < byte_offset,
                forall|i: int| hi <= i < self.lines@.len() ==> self.lines@[i] >= byte_offset,
            decreases hi - lo,
        {
            proof {
                lemma_line_table_upto_props(self.src@, self.src@.len() as int);
            }
            let mid = lo + (hi - lo) / 2;
            if self.lines[mid] < byte_offset {
                proof {
                    assert forall|i: int| 0 <= i < mid + 1 implies self.lines@[i]
                        < byte_offset by {
                        if i < mid {
                            assert(line_table(self.src@)[i] < line_table(self.src@)[mid as int]);
                        }
                    }
                }
                lo = mid + 1;
            } else {
                proof {
                    assert forall|i: int| mid <= i < self.lines@.len() implies self.lines@[i]
                        >= byte_offset by {
                        if i > mid {
                            assert(line_table(self.src@)[mid as int] < line_table(self.src@)[i]);
                        }
                    }
                }
                hi = mid;
            }
        }
        proof {
            lemma_line_table_upto_props(self.src@, self.src@.len() as int);
            let t = line_table(self.src@);
            assert forall|i: int| 0 <= i < lo implies t[i] < byte_offset by {
                assert(self.lines@[i] < byte_offset);
            }
            assert forall|i: int| lo <= i < t.len() implies t[i] >= byte_offset by {
                assert(self.lines@[i] >= byte_offset);
            }
            lemma_count_lt_partition(t, byte_offset as int, lo as int);
            if lo > 0 {
                // the split index stays a step under `u32::MAX`, so adding one is safe
                assert(lo - 1 <= t[lo - 1] < byte_offset);
            }
        }
        lo + 1
    }

    /// Global byte offset one past the last byte of this file's text.
    pub fn end_position(&self) -> (r: u32)
        requires
            self.wf(),
        ensures
            r == self.start_pos + bytes_of(self.src@),
    {
        self.start_pos + self.size
    }
}

/// Number of bytes of the UTF-8 encoding of `c`.
pub fn char_width(c: char) -> (w: u32)
    ensures
        w == char_bytes(c),
{
    let u = c as u32;
    if u < 0x80 {
        1
    } else if u < 0x800 {
        2
    } else if u < 0x10000 {
        3
    } else {
        4
    }
}

/// Relies on `String as FromIterator<char>`: collecting an iterator of
/// characters yields the string holding exactly those characters in order.
#[verifier::external_body]
pub(crate) fn string_from_chars(v: &Vec<char>) -> (r: String)
    ensures
        r@ == v@,
{
    v.iter().collect()
}

/// Global byte offset `p` lies within file `f`'s byte range.
pub open spec fn file_range_holds(f: SourceFile, p: int) -> bool {
    f.start_pos <= p < f.start_pos + bytes_of(f.src@)
}

/// A resolved position: the index of the owning file in the source map and
/// the 1-based line and 1-based byte column within that file.
#[derive(Debug, Clone, Copy, PartialEq, Eq, Structural)]
pub struct Location {
    pub file: usize,
    pub line: usize,
    pub col: usize,
}

/// Owner and resolver of all loaded files' text and offset ranges for one
/// compilation session. Files are only ever appended; consecutive files are
/// separated by a one-byte gap of the global address space.
pub struct SourceMap {
    pub files: Vec<SourceFile>,
}

impl Default for SourceMap {
    /// An empty source map: no file loaded, the whole address space free.
    fn default() -> (r: SourceMap)
        ensures
            r.files@.len() == 0,
            r.wf(),
    {
        SourceMap { files: Vec::new() }
    }
}

impl SourceMap {
    /// Every file is well formed, the first starts at offset zero, and each
    /// later file starts one byte past the end of the one before it.
    pub open spec fn wf(&self) -> bool {
        &&& forall|k: int| 0 <= k < self.files@.len() ==> (#[trigger] self.files@[k]).wf()
        &&& self.files@.len() > 0 ==> self.files@[0].start_pos == 0
        &&& forall|k: int|
            0 <= k < self.files@.len() - 1 ==> (#[trigger] self.files@[k + 1].start_pos) as int
                == self.files@[k].start_pos + bytes_of(self.files@[k].src@) + 1
    }

    /// The global start offset the next loaded file would get.
    pub open spec fn spec_next_start(&self) -> int {
        if self.files@.len() == 0 {
            0
        } else {
            self.files@.last().start_pos + bytes_of(self.files@.last().src@) + 1
        }
    }

    /// Span `span` lies within file `k`'s byte range, on character boundaries.
    pub open spec fn span_in_file(&self, span: Span, k: int) -> bool {
        &&& 0 <= k < self.files@.len()
        &&& self.files@[k].start_pos <= span.lo
        &&& span.lo + span.len <= self.files@[k].start_pos + bytes_of(self.files@[k].src@)
        &&& is_char_boundary(self.files@[k].src@, span.lo - self.files@[k].start_pos)
        &&& is_char_boundary(self.files@[k].src@, span.lo + span.len - self.files@[k].start_pos)
    }

    /// Global byte offset `pos` lies within file `k`'s byte range, the end
    /// offset included: the one-byte gap between consecutive files keeps an
    /// offset at a file's end unambiguous, so it resolves to that file and
    /// never to the next.
    pub open spec fn pos_in_file(&self, pos: u32, k: int) -> bool {
        &&& 0 <= k < self.files@.len()
        &&& self.files@[k].start_pos <= pos
        &&& pos <= self.files@[k].start_pos + bytes_of(self.files@[k].src@)
    }

    /// Files' start offsets grow with their index, and each file's whole
    /// range lies below every later file's start.
    pub proof fn lemma_files_ordered(&self, i: int, j: int)
        requires
            self.wf(),
            0 <= i < j < self.files@.len(),
        ensures
            self.files@[i].start_pos + bytes_of(self.files@[i].src@) < self.files@[j].start_pos,
        decreases j - i,
    {
        if j == i + 1 {
        } else {
            self.lemma_files_ordered(i + 1, j);
        }
    }

    /// Offset disjointness: the byte ranges of any two loaded files are
    /// disjoint, with at least a one-byte gap between consecutive ranges.
    pub proof fn lemma_offset_disjointness(&self, i: int, j: int)
        requires
            self.wf(),
            0 <= i < j < self.files@.len(),
        ensures
            self.files@[i].start_pos + bytes_of(self.files@[i].src@) < self.files@[j].start_pos,
            forall|p: int|
                #[trigger] file_range_holds(self.files@[i], p) ==> !file_range_holds(
                    self.files@[j],
                    p,
                ),
    {
        self.lemma_files_ordered(i, j);
    }

    /// A global offset lies in at most one file's range.
    pub proof fn lemma_pos_in_file_unique(&self, pos: u32, i: int, j: int)
        requires
            self.wf(),
            self.pos_in_file(pos, i),
            self.pos_in_file(pos, j),
        ensures
            i == j,
    {
        if i < j {
            self.lemma_files_ordered(i, j);
        }
        if j < i {
            self.lemma_files_ordered(j, i);
        }
    }

    /// Append a file's text to the map, assigning it the next free global
    /// offset range. Fails exactly when that range would end past `u32::MAX`,
    /// and then leaves the map unchanged. Returns the new file's index.
    pub fn load_file(&mut self, path: String, src: Vec<char>) -> (r: Result<usize, LoadError>)
        requires
            old(self).wf(),
        ensures
            final(self).wf(),
            match r {
                Ok(idx) => {
                    &&& old(self).spec_next_start() + bytes_of(src@) <= u32::MAX
                    &&& idx == old(self).files@.len()
                    &&& final(self).files@.len() == old(self).files@.len() + 1
                    &&& forall|k: int|
                        0 <= k < old(self).files@.len() ==> final(self).files@[k] == old(
                            self,
                        ).files@[k]
                    &&& final(self).files@[idx as int].path@ == path@
                    &&& final(self).files@[idx as int].src@ == src@
                    &&& final(self).files@[idx as int].start_pos == old(self).spec_next_start()
                },
                Err(e) => {
                    &&& e is OffsetOverflowError
                    &&& old(self).spec_next_start() + bytes_of(src@) > u32::MAX
                    &&& *final(self) == *old(self)
                },
            },
    {
        let n = self.files.len();
        let start_pos: u32 = if n == 0 {
            0
        } else {
            let last_end = self.files[n - 1].end_position();
            if last_end == u32::MAX {
                proof {
                    lemma_bytes_of_take_mono(src@, 0, src@.len() as int);
                    assert(src@.take(0) =~= Seq::<char>::empty());
                    lemma_bytes_of_take_all(src@);
                }
                return Err(LoadError::OffsetOverflowError);
            }
            last_end + 1
        };
        match SourceFile::new(path, src, start_pos) {
            Ok(f) => {
                self.files.push(f);
                Ok(n)
            },
            Err(e) => Err(e),
        }
    }

    /// Index of the file whose range holds the global offset `pos`: a binary
    /// search for the last file whose start offset is at most `pos`.
    pub fn lookup_source_file_idx(&self, pos: u32) -> (r: usize)
        requires
            self.wf(),
            self.files@.len() > 0,
        ensures
            0 <= r < self.files@.len(),
            self.files@[r as int].start_pos <= pos,
            forall|k: int| r < k < self.files@.len() ==> self.files@[k].start_pos > pos,
    {
        let mut lo: usize = 1;
        let mut hi: usize = self.files.len();
        while lo < hi
            invariant
                1 <= lo <= hi <= self.files@.len(),
                self.wf(),
                forall|i: int| 1 <= i < lo ==> self.files@[i].start_pos <= pos,
                forall|i: int| hi <= i < self.files@.len() ==> self.files@[i].start_pos > pos,
            decreases hi - lo,
        {
            let mid = lo + (hi - lo) / 2;
            if self.files[mid].start_pos <= pos {
                proof {
                    assert forall|i: int| 1 <= i < mid + 1 implies self.files@[i].start_pos
                        <= pos by {
                        if i < mid {
                            self.lemma_files_ordered(i, mid as int);
                        }
                    }
                }
                lo = mid + 1;
            } else {
                proof {
                    assert forall|i: int| mid <= i < self.files@.len() implies self.files@[i].start_pos
                        > pos by {
                        if i > mid {
                            self.lemma_files_ordered(mid as int, i);
                        }
                    }
                }
                hi = mid;
            }
        }
        lo - 1
    }

    /// The file reference for the global offset `pos`; `pos` must lie within
    /// some file's range, its end offset included: an offset at a file's end
    /// resolves to that file, never to the next.
    pub fn lookup_source_file(&self, pos: u32) -> (r: &SourceFile)
        requires
            self.wf(),
            exists|k: int| self.pos_in_file(pos, k),
        ensures
            forall|k: int| self.pos_in_file(pos, k) ==> r == self.files@[k],
    {
        let idx = self.lookup_source_file_idx(pos);
        proof {
            let k = choose|k: int| self.pos_in_file(pos, k);
            if k != idx {
                if k < idx {
                    self.lemma_files_ordered(k, idx as int);
                }
                assert(false);
            }
            assert forall|j: int| self.pos_in_file(pos, j) implies j == idx by {
                self.lemma_pos_in_file_unique(pos, j, k);
            }
        }
        &self.files[idx]
    }

    /// A span lies within at most one file.
    pub proof fn lemma_span_in_file_unique(&self, span: Span, i: int, j: int)
        requires
            self.wf(),
            self.span_in_file(span, i),
            self.span_in_file(span, j),
        ensures
            i == j,
    {
        if i < j {
            self.lemma_files_ordered(i, j);
        }
        if j < i {
            self.lemma_files_ordered(j, i);
        }
    }

    /// The exact text the span addresses: the characters of the owning file
    /// between the span's two byte offsets.
    pub fn span_to_string(&self, span: Span) -> (r: String)
        requires
            self.wf(),
            exists|k: int| self.span_in_file(span, k),
        ensures
            forall|k: int|
                self.span_in_file(span, k) ==> r@ == self.files@[k].src@.subrange(
                    char_idx_at(self.files@[k].src@, span.lo - self.files@[k].start_pos),
                    char_idx_at(self.files@[k].src@, span.lo + span.len - self.files@[k].start_pos),
                ),
    {
        let idx = self.lookup_source_file_idx(span.lo);
        proof {
            let k = choose|k: int| self.span_in_file(span, k);
            if k < idx {
                self.lemma_files_ordered(k, idx as int);
                assert(false);
            }
            if idx < k {
                self.lemma_files_ordered(idx as int, k);
                assert(false);
            }
            assert(self.span_in_file(span, idx as int));
        }
        let file = &self.files[idx];
        let local_lo: u32 = span.lo - file.start_pos;
        let local_hi: u32 = local_lo + span.len;
        let s = &file.src;
        let n = s.len();
        let ghost i0 = char_idx_at(s@, local_lo as int);
        let ghost i1 = char_idx_at(s@, local_hi as int);
        proof {
            assert(0 <= i0 <= s@.len() && bytes_of(s@.take(i0)) == local_lo);
            assert(0 <= i1 <= s@.len() && bytes_of(s@.take(i1)) == local_hi);
            if i1 < i0 {
                lemma_bytes_of_take_mono(s@, i1, i0);
            }
        }
        let mut i: usize = 0;
        let mut b: u32 = 0;
        while b < local_lo
            invariant
                0 <= i <= i0 <= i1 <= s@.len(),
                n == s@.len(),
                b == bytes_of(s@.take(i as int)),
                b <= local_lo,
                i0 == char_idx_at(s@, local_lo as int),
                i1 == char_idx_at(s@, local_hi as int),
                bytes_of(s@.take(i0)) == local_lo,
                bytes_of(s@.take(i1)) == local_hi,
            decreases i0 - i,
        {
            proof {
                if i == i0 {
                    assert(false);
                }
                lemma_bytes_of_take_succ(s@, i as int);
                lemma_bytes_of_take_mono(s@, i + 1, i0);
            }
            b = b + char_width(s[i]);
            i = i + 1;
        }
        proof {
            lemma_char_boundary_unique(s@, i as int, i0);
            assert(s@.subrange(i0, i0) =~= Seq::<char>::empty());
        }
        let mut out: Vec<char> = Vec::new();
        while b < local_hi
            invariant
                0 <= i0 <= i <= i1 <= s@.len(),
                n == s@.len(),
                b == bytes_of(s@.take(i as int)),
                b <= local_hi,
                i0 == char_idx_at(s@, local_lo as int),
                i1 == char_idx_at(s@, local_hi as int),
                bytes_of(s@.take(i0)) == local_lo,
                bytes_of(s@.take(i1)) == local_hi,
                out@ == s@.subrange(i0, i as int),
            decreases i1 - i,
        {
            proof {
                if i == i1 {
                    assert(false);
                }
                lemma_bytes_of_take_succ(s@, i as int);
                lemma_bytes_of_take_mono(s@, i + 1, i1);
                assert(s@.subrange(i0, i + 1) =~= s@.subrange(i0, i as int).push(s@[i as int]));
            }
            let c = s[i];
            out.push(c);
            b = b + char_width(c);
            i = i + 1;
        }
        proof {
            lemma_char_boundary_unique(s@, i as int, i1);
            assert forall|j: int| self.span_in_file(span, j) implies j == idx as int by {
                if j < idx {
                    self.lemma_files_ordered(j, idx as int);
                }
                if idx < j {
                    self.lemma_files_ordered(idx as int, j);
                }
            }
        }
        string_from_chars(&out)
    }

    /// Resolve the span's start offset to its owning file and the 1-based
    /// line and byte column within it. The offset may sit anywhere in the
    /// file's range, its end included; the resulting column number must fit
    /// the machine, which bounds the local offset below `u32::MAX`.
    pub fn span_to_location(&self, span: Span) -> (loc: Location)
        requires
            self.wf(),
            exists|k: int|
                self.pos_in_file(span.lo, k) && span.lo - self.files@[k].start_pos < u32::MAX,
        ensures
            forall|k: int|
                self.pos_in_file(span.lo, k) ==> {
                    &&& loc.file == k
                    &&& loc.line == spec_line(
                        self.files@[k].src@,
                        span.lo - self.files@[k].start_pos,
                    )
                    &&& loc.col == spec_col(
                        self.files@[k].src@,
                        span.lo - self.files@[k].start_pos,
                    )
                },
    {
        let idx = self.lookup_source_file_idx(span.lo);
        proof {
            let k = choose|k: int|
                self.pos_in_file(span.lo, k) && span.lo - self.files@[k].start_pos < u32::MAX;
            if k < idx {
                self.lemma_files_ordered(k, idx as int);
                assert(false);
            }
            if idx < k {
                self.lemma_files_ordered(idx as int, k);
                assert(false);
            }
            assert forall|j: int| self.pos_in_file(span.lo, j) implies j == idx by {
                self.lemma_pos_in_file_unique(span.lo, j, k);
            }
        }
        let file = &self.files[idx];
        let local: u32 = span.lo - file.start_pos;
        let line = file.line_number(local);
        let col: usize = if line == 1 {
            (local + 1) as usize
        } else {
            (local - file.lines[line - 2]) as usize
        };
        Location { file: idx, line, col }
    }
}

/// Location monotonicity: of two byte offsets within one text, the smaller
/// one never maps to a larger line, and on one line the smaller offset maps
/// to the smaller column.
pub proof fn lemma_location_monotonic(s: Seq<char>, a: int, b: int)
    requires
        0 <= a < b,
    ensures
        spec_line(s, a) <= spec_line(s, b),
        spec_line(s, a) == spec_line(s, b) ==> spec_col(s, a) < spec_col(s, b),
{
    lemma_count_lt_mono(line_table(s), a, b);
}

/// Counting below a threshold grows with the threshold.
pub proof fn lemma_count_lt_mono(t: Seq<int>, a: int, b: int)
    requires
        a <= b,
    ensures
        count_lt(t, a) <= count_lt(t, b),
    decreases t.len(),
{
    if t.len() > 0 {
        lemma_count_lt_mono(t.drop_last(), a, b);
    }
}

} // verus!

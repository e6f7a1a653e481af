//! The backtracking cursor: walks through a file one character at a time,
//! tracking the byte offset, line and column, and hands out markers that
//! later turn into spans or rollback targets.
use vstd::prelude::*;

verus! {

use crate::location::Location;
use crate::location::Span;
use crate::text::char_utf8_len;
use crate::text::char_width;
use crate::text::substring_bytes;
use vstd::string::StrSliceExecFns;
use vstd::string::StringSliceAdditionalSpecFns;
use vstd::utf8::decode_utf8;
use vstd::utf8::encode_utf8;
use vstd::utf8::valid_utf8;
use vstd::utf8::is_char_boundary;
use vstd::utf8::encode_utf8_valid_utf8;
use vstd::utf8::encode_utf8_decode_utf8;
use vstd::utf8::decode_utf8_encode_utf8;
use vstd::utf8::encode_utf8_first_scalar;
use vstd::utf8::valid_utf8_split;
use vstd::utf8::decode_utf8_split;
use vstd::utf8::is_char_boundary_start_end_of_seq;
use vstd::utf8::is_char_boundary_iff_not_is_continuation_byte;

/// Walks through a file, producing characters one at a time.
#[derive(Debug, Clone)]
pub struct FileWalker<'filedata> {
    all_data: &'filedata str,
    filename: &'filedata str,
    current_byte_index: usize,
    column: usize,
    line: usize,
}

/// A marker for a location within a file: an opaque, copyable snapshot of
/// the cursor state, usable for span extraction or rollback.
#[derive(Debug, Clone, Copy, PartialEq, Eq, Structural)]
pub struct FileLocationMarker {
    index: usize,
    column: usize,
    line: usize,
}

impl FileLocationMarker {
    /// The byte offset the marker was taken at.
    pub closed spec fn midx(self) -> int {
        self.index as int
    }

    /// The column the marker was taken at.
    pub closed spec fn mcol(self) -> int {
        self.column as int
    }

    /// The line the marker was taken at.
    pub closed spec fn mline(self) -> int {
        self.line as int
    }
}

/// How a line number advances over one character: a line feed starts the
/// next line, any other character stays on the same line.
pub open spec fn advance_line(line: int, c: char) -> int {
    if c == '\n' {
        line + 1
    } else {
        line
    }
}

/// How a column advances over one character: a line feed resets it to 0,
/// any other character moves it one to the right.
pub open spec fn advance_col(col: int, c: char) -> int {
    if c == '\n' {
        0
    } else {
        col + 1
    }
}

/// The line number after stepping over a whole character sequence.
pub open spec fn line_through(line: int, cs: Seq<char>) -> int
    decreases cs.len(),
{
    if cs.len() == 0 {
        line
    } else {
        line_through(advance_line(line, cs[0]), cs.drop_first())
    }
}

/// The column after stepping over a whole character sequence.
pub open spec fn col_through(col: int, cs: Seq<char>) -> int
    decreases cs.len(),
{
    if cs.len() == 0 {
        col
    } else {
        col_through(advance_col(col, cs[0]), cs.drop_first())
    }
}

pub proof fn lemma_line_col_through_push(line: int, col: int, cs: Seq<char>, c: char)
    ensures
        line_through(line, cs.push(c)) == advance_line(line_through(line, cs), c),
        col_through(col, cs.push(c)) == advance_col(col_through(col, cs), c),
    decreases cs.len(),
{
    if cs.len() == 0 {
        reveal_with_fuel(line_through, 3);
        reveal_with_fuel(col_through, 3);
        assert(cs.push(c)[0] == c);
        assert(cs.push(c).drop_first() =~= cs);
    } else {
        assert(cs.push(c)[0] == cs[0]);
        assert(cs.push(c).drop_first() =~= cs.drop_first().push(c));
        lemma_line_col_through_push(
            advance_line(line, cs[0]),
            advance_col(col, cs[0]),
            cs.drop_first(),
            c,
        );
    }
}

/// True when restoring this marker's line and column leaves enough room
/// for the walk over the rest of the given text to count them upward.
pub open spec fn marker_fits(m: FileLocationMarker, bytes: Seq<u8>) -> bool {
    &&& bytes.len() < usize::MAX
    &&& m.midx() <= bytes.len()
    &&& m.mline() + (bytes.len() - m.midx()) < usize::MAX
    &&& m.mcol() + (bytes.len() - m.midx()) < usize::MAX
}

impl<'filedata> FileWalker<'filedata> {
    /// The whole source text, as characters.
    pub closed spec fn source(self) -> Seq<char> {
        self.all_data@
    }

    /// The whole source text, as UTF-8 bytes.
    pub closed spec fn bytes(self) -> Seq<u8> {
        self.all_data.spec_bytes()
    }

    /// The name of the file being walked, as characters.
    pub closed spec fn file(self) -> Seq<char> {
        self.filename@
    }

    /// The current byte offset into the source.
    pub closed spec fn idx(self) -> int {
        self.current_byte_index as int
    }

    /// The current column.
    pub closed spec fn col(self) -> int {
        self.column as int
    }

    /// The current line.
    pub closed spec fn line_no(self) -> int {
        self.line as int
    }

    /// The characters already stepped over.
    pub open spec fn consumed(self) -> Seq<char> {
        decode_utf8(self.bytes().take(self.idx()))
    }

    /// The characters not yet stepped over.
    pub open spec fn remaining(self) -> Seq<char> {
        decode_utf8(self.bytes().skip(self.idx()))
    }

    /// Well-formed: the byte offset lies on a character boundary, and the
    /// line and column leave room to count across the rest of the text.
    pub open spec fn wf(self) -> bool {
        &&& self.bytes().len() < usize::MAX
        &&& self.idx() <= self.bytes().len()
        &&& is_char_boundary(self.bytes(), self.idx())
        &&& self.line_no() + (self.bytes().len() - self.idx()) < usize::MAX
        &&& self.col() + (self.bytes().len() - self.idx()) < usize::MAX
    }

    /// Another walker over the same source text and file name.
    pub open spec fn same_source(self, other: FileWalker<'_>) -> bool {
        self.source() == other.source() && self.file() == other.file()
    }

    /// Another walker over the same source, standing at the same position:
    /// same byte offset, column and line.
    pub open spec fn same_state(self, other: FileWalker<'_>) -> bool {
        &&& self.same_source(other)
        &&& self.idx() == other.idx()
        &&& self.col() == other.col()
        &&& self.line_no() == other.line_no()
    }

    /// Construct a new `FileWalker` from a name and data, positioned at the
    /// start of the text: offset 0, line 0, column 0.
    pub fn from_data(data: &'filedata str, filename: &'filedata str) -> (r: Self)
        requires
            data.spec_bytes().len() < usize::MAX,
        ensures
            r.source() == data@,
            r.bytes() == data.spec_bytes(),
            r.file() == filename@,
            r.idx() == 0,
            r.col() == 0,
            r.line_no() == 0,
            r.wf(),
            r.consumed() == Seq::<char>::empty(),
            r.remaining() == data@,
    {
        proof {
            broadcast use encode_utf8_valid_utf8;

            let bytes = data.spec_bytes();
            assert(bytes.skip(0) =~= bytes);
            assert(bytes.take(0) =~= Seq::<u8>::empty());
            assert(valid_utf8(Seq::<u8>::empty()));
            broadcast use encode_utf8_decode_utf8;

            assert(decode_utf8(encode_utf8(data@)) == data@);
            assert(encode_utf8(Seq::<char>::empty()) =~= Seq::<u8>::empty());
            assert(decode_utf8(encode_utf8(Seq::<char>::empty())) == Seq::<char>::empty());
        }
        Self { all_data: data, filename, current_byte_index: 0, column: 0, line: 0 }
    }

    /// Construct a `FileWalker` scoped to a span: it walks only the span's
    /// own text, but starts at the span's location, so positions derived
    /// from it still carry file-correct coordinates.
    pub fn from_span(span: &Span<'filedata>) -> (r: Self)
        requires
            span.location.line + span.data.spec_bytes().len() < usize::MAX,
            span.location.column + span.data.spec_bytes().len() < usize::MAX,
        ensures
            r.source() == span.data@,
            r.bytes() == span.data.spec_bytes(),
            r.file() == span.location.filename@,
            r.idx() == 0,
            r.col() == span.location.column,
            r.line_no() == span.location.line,
            r.wf(),
            r.consumed() == Seq::<char>::empty(),
            r.remaining() == span.data@,
    {
        proof {
            broadcast use encode_utf8_valid_utf8;
            broadcast use encode_utf8_decode_utf8;

            let bytes = span.data.spec_bytes();
            assert(bytes.skip(0) =~= bytes);
            assert(bytes.take(0) =~= Seq::<u8>::empty());
            assert(decode_utf8(encode_utf8(span.data@)) == span.data@);
            assert(encode_utf8(Seq::<char>::empty()) =~= Seq::<u8>::empty());
            assert(decode_utf8(encode_utf8(Seq::<char>::empty())) == Seq::<char>::empty());
        }
        Self {
            all_data: span.data,
            filename: span.location.filename,
            current_byte_index: 0,
            column: span.location.column,
            line: span.location.line,
        }
    }

    /// Get the location of the currently referenced character.
    pub fn current_location(&self) -> (r: Location<'filedata>)
        ensures
            r.column == self.col(),
            r.line == self.line_no(),
            r.filename@ == self.file(),
    {
        Location::from_components(self.column, self.line, self.filename)
    }

    /// Get the current state as a `FileLocationMarker`.
    pub fn get_marker(&self) -> (r: FileLocationMarker)
        ensures
            r.midx() == self.idx(),
            r.mcol() == self.col(),
            r.mline() == self.line_no(),
    {
        FileLocationMarker { index: self.current_byte_index, line: self.line, column: self.column }
    }

    /// Get the text from the current position to the end of the source.
    pub fn current_string(&self) -> (r: &'filedata str)
        requires
            self.wf(),
        ensures
            r@ == self.remaining(),
            r.spec_bytes() == self.bytes().skip(self.idx()),
    {
        proof {
            broadcast use encode_utf8_valid_utf8;

            is_char_boundary_start_end_of_seq(self.bytes());
            assert(self.bytes().subrange(self.idx(), self.bytes().len() as int) =~= self.bytes()
                .skip(self.idx()));
        }
        substring_bytes(self.all_data, self.current_byte_index, self.all_data.len())
    }

    /// Step forward by one character if possible and return the character
    /// stepped over; at the end of the input return `None`. A line feed
    /// increments the line and resets the column to 0; any other character
    /// increments the column.
    pub fn step(&mut self) -> (r: Option<char>)
        requires
            old(self).wf(),
        ensures
            final(self).wf(),
            final(self).same_source(*old(self)),
            old(self).remaining().len() == 0 ==> r is None && *final(self) == *old(self),
            old(self).remaining().len() > 0 ==> {
                let c = old(self).remaining()[0];
                &&& r == Some(c)
                &&& final(self).idx() == old(self).idx() + char_utf8_len(c)
                &&& final(self).consumed() == old(self).consumed().push(c)
                &&& final(self).remaining() == old(self).remaining().drop_first()
                &&& final(self).line_no() == advance_line(old(self).line_no(), c)
                &&& final(self).col() == advance_col(old(self).col(), c)
            },
    {
        let rest = self.current_string();
        let mut it = rest.chars();
        let character = it.next();
        proof {
            broadcast use vstd::string::axiom_spec_iter;
            broadcast use vstd::string::next_postcondition;
            broadcast use encode_utf8_valid_utf8;

        }
        if let Some(c) = character {
            proof {
                assert(valid_utf8(self.bytes())) by {
                    broadcast use encode_utf8_valid_utf8;

                }
                lemma_first_char_decomposition(self.bytes(), self.idx());
            }
            let width = char_width(c);
            self.current_byte_index += width;
            if c == '\n' {
                self.line += 1;
                self.column = 0;
            } else {
                self.column += 1;
            }
        }
        character
    }

    /// Return to a previous state captured in a marker and report true; if
    /// the marker's offset is not a character boundary of the source,
    /// report false and change nothing. A valid marker is restored
    /// unconditionally, even one ahead of the current position.
    pub fn pop_back(&mut self, marker: FileLocationMarker) -> (r: bool)
        ensures
            r == is_char_boundary(old(self).bytes(), marker.midx()),
            final(self).same_source(*old(self)),
            !r ==> *final(self) == *old(self),
            r ==> final(self).idx() == marker.midx() && final(self).col() == marker.mcol()
                && final(self).line_no() == marker.mline(),
            r && marker_fits(marker, old(self).bytes()) ==> final(self).wf(),
    {
        if self.all_data.is_char_boundary(marker.index) {
            self.current_byte_index = marker.index;
            self.line = marker.line;
            self.column = marker.column;
            proof {
                assert(valid_utf8(self.bytes())) by {
                    broadcast use encode_utf8_valid_utf8;

                }
                lemma_boundary_in_range(self.bytes(), marker.midx());
            }
            true
        } else {
            false
        }
    }

    /// Get the location a marker was taken at, or `None` if the marker's
    /// offset is not a character boundary of the source.
    pub fn get_location_of_marker(&self, marker: FileLocationMarker) -> (r: Option<
        Location<'filedata>,
    >)
        ensures
            r is Some <==> is_char_boundary(self.bytes(), marker.midx()),
            r matches Some(loc) ==> loc.column == marker.mcol() && loc.line == marker.mline()
                && loc.filename@ == self.file(),
    {
        if self.all_data.is_char_boundary(marker.index) {
            Some(Location::from_components(marker.column, marker.line, self.filename))
        } else {
            None
        }
    }

    /// Get the span from a marker to the current position, not including
    /// the character the cursor points at. Returns `None` if the marker's
    /// offset is not a character boundary or lies past the current
    /// position; a marker at the current position gives an empty span at
    /// the current location.
    pub fn span_from_marker_to_here(&self, marker: FileLocationMarker) -> (r: Option<
        Span<'filedata>,
    >)
        requires
            self.wf(),
        ensures
            marker.midx() == self.idx() ==> (r matches Some(sp) && sp.location.column == self.col()
                && sp.location.line == self.line_no() && sp.location.filename@ == self.file()
                && sp.data@ == Seq::<char>::empty() && sp.data.spec_bytes() == Seq::<u8>::empty()),
            marker.midx() != self.idx() && !(is_char_boundary(self.bytes(), marker.midx())
                && marker.midx() <= self.idx()) ==> r is None,
            marker.midx() != self.idx() && is_char_boundary(self.bytes(), marker.midx())
                && marker.midx() <= self.idx() ==> (r matches Some(sp) && sp.location.column
                == marker.mcol() && sp.location.line == marker.mline() && sp.location.filename@
                == self.file() && sp.data.spec_bytes() == self.bytes().subrange(
                marker.midx(),
                self.idx(),
            ) && sp.data@ == decode_utf8(self.bytes().subrange(marker.midx(), self.idx()))),
            r matches Some(sp) ==> sp.data.spec_bytes().len() == self.idx() - marker.midx(),
    {
        proof {
            broadcast use encode_utf8_valid_utf8;

        }
        if marker.index == self.current_byte_index {
            let empty: &str = "";
            proof {
                reveal_strlit("");
                assert(empty@ =~= Seq::<char>::empty());
                assert(empty.spec_bytes() =~= Seq::<u8>::empty());
            }
            Some(Span::from_components(self.current_location(), empty))
        } else if !self.all_data.is_char_boundary(marker.index) || marker.index
            > self.current_byte_index {
            None
        } else {
            let location = Location::from_components(marker.column, marker.line, self.filename);
            let data = substring_bytes(self.all_data, marker.index, self.current_byte_index);
            Some(Span::from_components(location, data))
        }
    }
}

/// The index of the first line feed at or after position `k`, or the text
/// length if none remains.
pub open spec fn next_newline(text: Seq<char>, k: int) -> int
    decreases text.len() - k,
    when 0 <= k <= text.len()
{
    if k >= text.len() {
        text.len() as int
    } else if text[k] == '\n' {
        k
    } else {
        next_newline(text, k + 1)
    }
}

/// The index where the line after position `k` starts: just past the next
/// line feed, or the text length if none remains.
pub open spec fn next_line_start(text: Seq<char>, k: int) -> int {
    let p = next_newline(text, k);
    if p < text.len() {
        p + 1
    } else {
        text.len() as int
    }
}

/// The index where the given (zero-based) line starts; the text length if
/// the text has fewer lines.
pub open spec fn line_start(text: Seq<char>, line: int) -> int
    decreases line,
{
    if line <= 0 {
        0
    } else {
        next_line_start(text, line_start(text, line - 1))
    }
}

/// Where a forward walk from position `k` stops: right before the `n`-th
/// line feed at or after `k`, or at the end of the text if fewer remain.
pub open spec fn window_end(text: Seq<char>, k: int, n: int) -> int
    decreases n,
{
    if n <= 0 {
        k
    } else {
        let p = next_newline(text, k);
        if n == 1 || p >= text.len() {
            p
        } else {
            window_end(text, p + 1, n - 1)
        }
    }
}

/// True when position `k` of the text carries exactly the given line and
/// column, counting from the start of the text.
pub open spec fn pos_matches(text: Seq<char>, k: int, line: int, col: int) -> bool {
    &&& 0 <= k <= text.len()
    &&& line_through(0, text.take(k)) == line
    &&& col_through(0, text.take(k)) == col
}

/// The span invariant: the span's data is the slice of the text that
/// starts at index `k`, and its location carries that index's line and
/// column.
pub open spec fn span_at(sp: Span<'_>, text: Seq<char>, k: int) -> bool {
    &&& pos_matches(text, k, sp.location.line as int, sp.location.column as int)
    &&& k + sp.data@.len() <= text.len()
    &&& sp.data@ == text.subrange(k, k + sp.data@.len() as int)
}

/// The index a span starts at within the text; meaningful when some index
/// satisfies the span invariant (and then unique).
pub open spec fn span_index(sp: Span<'_>, text: Seq<char>) -> int {
    choose|k: int| span_at(sp, text, k)
}

pub proof fn lemma_next_newline_in_range(text: Seq<char>, k: int)
    requires
        0 <= k <= text.len(),
    ensures
        k <= next_newline(text, k) <= text.len(),
        k <= next_line_start(text, k) <= text.len(),
    decreases text.len() - k,
{
    if k < text.len() && text[k] != '\n' {
        lemma_next_newline_in_range(text, k + 1);
    }
}

pub proof fn lemma_line_start_in_range(text: Seq<char>, line: int)
    ensures
        0 <= line_start(text, line) <= text.len(),
    decreases line,
{
    if line > 0 {
        lemma_line_start_in_range(text, line - 1);
        lemma_next_newline_in_range(text, line_start(text, line - 1));
    }
}

pub proof fn lemma_line_start_monotone(text: Seq<char>, a: int, b: int)
    requires
        a <= b,
    ensures
        line_start(text, a) <= line_start(text, b),
    decreases b - a,
{
    if a < b {
        lemma_line_start_monotone(text, a, b - 1);
        if b > 0 {
            lemma_line_start_in_range(text, b - 1);
            lemma_next_newline_in_range(text, line_start(text, b - 1));
        }
    }
}

pub proof fn lemma_window_end_in_range(text: Seq<char>, k: int, n: int)
    requires
        0 <= k <= text.len(),
        n >= 1,
    ensures
        k <= window_end(text, k, n) <= text.len(),
    decreases n,
{
    lemma_next_newline_in_range(text, k);
    let p = next_newline(text, k);
    if !(n == 1 || p >= text.len()) {
        lemma_window_end_in_range(text, p + 1, n - 1);
    }
}

/// When no line feed stands between `a` and `b`, and one stands at `b`,
/// the first line feed at or after `a` is the one at `b`.
proof fn lemma_next_newline_reaches(text: Seq<char>, a: int, b: int)
    requires
        0 <= a <= b <= text.len(),
        forall|j: int| a <= j < b ==> text[j] != '\n',
        b == text.len() || text[b] == '\n',
    ensures
        next_newline(text, a) == b,
    decreases b - a,
{
    if a < b {
        lemma_next_newline_reaches(text, a + 1, b);
    }
}

/// Every position of the text splits into the start of its line plus its
/// column, and no line feed stands between the two.
pub proof fn lemma_position_decomposition(text: Seq<char>, k: int)
    requires
        0 <= k <= text.len(),
    ensures
        ({
            let l = line_through(0, text.take(k));
            let c = col_through(0, text.take(k));
            &&& 0 <= c <= k
            &&& 0 <= l <= k
            &&& line_start(text, l) == k - c
            &&& forall|j: int| k - c <= j < k ==> text[j] != '\n'
        }),
    decreases k,
{
    if k == 0 {
        assert(text.take(0) =~= Seq::<char>::empty());
    } else {
        lemma_position_decomposition(text, k - 1);
        let prev = text.take(k - 1);
        let c = text[k - 1];
        assert(text.take(k) =~= prev.push(c));
        lemma_line_col_through_push(0, 0, prev, c);
        let l0 = line_through(0, prev);
        let c0 = col_through(0, prev);
        if c == '\n' {
            lemma_next_newline_reaches(text, k - 1 - c0, k - 1);
            assert(line_start(text, l0 + 1) == next_line_start(text, k - 1 - c0));
        }
    }
}

/// Two positions with the same line and column are the same position.
pub proof fn lemma_pos_matches_unique(text: Seq<char>, j: int, k: int, line: int, col: int)
    requires
        pos_matches(text, j, line, col),
        pos_matches(text, k, line, col),
    ensures
        j == k,
{
    lemma_position_decomposition(text, j);
    lemma_position_decomposition(text, k);
}

/// Finds the start of the given line by scanning for line feeds.
fn find_line_start(s: &str, line: usize) -> (r: usize)
    ensures
        r == line_start(s@, line as int),
        r <= s@.len(),
{
    let len = s.unicode_len();
    let mut cur: usize = 0;
    let mut l: usize = 0;
    proof {
        assert(s@.take(0) =~= Seq::<char>::empty());
    }
    while l < line && cur < len
        invariant
            0 <= cur <= len,
            len == s@.len(),
            l <= line,
            l == line_through(0, s@.take(cur as int)),
            cur == line_start(s@, l as int) + col_through(0, s@.take(cur as int)),
            col_through(0, s@.take(cur as int)) <= cur,
            l == line ==> col_through(0, s@.take(cur as int)) == 0,
        decreases len - cur,
    {
        let c = s.get_char(cur);
        proof {
            assert(s@.take(cur + 1) =~= s@.take(cur as int).push(c));
            lemma_line_col_through_push(0, 0, s@.take(cur as int), c);
            lemma_position_decomposition(s@, cur + 1);
            lemma_position_decomposition(s@, cur as int);
        }
        if c == '\n' {
            l += 1;
        }
        cur += 1;
    }
    if l == line {
        // the loop leaves the cursor right after the line feed that opened
        // this line, where the column is zero
        cur
    } else {
        // the text ran out before the requested line: that line and every
        // later one start at the end of the text
        proof {
            lemma_position_decomposition(s@, cur as int);
            let c0 = col_through(0, s@.take(cur as int));
            lemma_next_newline_reaches(s@, cur - c0, len as int);
            lemma_line_start_saturates(s@, l + 1, line as int);
        }
        len
    }
}

/// Once a line starts at the end of the text, so does every later line.
proof fn lemma_line_start_saturates(text: Seq<char>, a: int, b: int)
    requires
        0 <= a <= b,
        line_start(text, a) == text.len(),
    ensures
        line_start(text, b) == text.len(),
    decreases b - a,
{
    if a < b {
        lemma_next_newline_in_range(text, text.len() as int);
        lemma_line_start_saturates(text, a + 1, b);
    }
}

/// Finds the position carrying the given line and column by scanning from
/// the start of the text; some position must carry it.
fn find_position(s: &str, line: usize, column: usize) -> (r: usize)
    requires
        exists|k: int| pos_matches(s@, k, line as int, column as int),
    ensures
        pos_matches(s@, r as int, line as int, column as int),
{
    let len = s.unicode_len();
    let mut cur: usize = 0;
    let mut l: usize = 0;
    let mut c: usize = 0;
    proof {
        assert(s@.take(0) =~= Seq::<char>::empty());
    }
    loop
        invariant
            0 <= cur <= len,
            len == s@.len(),
            l == line_through(0, s@.take(cur as int)),
            c == col_through(0, s@.take(cur as int)),
            l <= cur,
            c <= cur,
            forall|j: int|
                0 <= j < cur ==> !(line_through(0, s@.take(j)) == line && col_through(
                    0,
                    s@.take(j),
                ) == column),
            exists|k: int| pos_matches(s@, k, line as int, column as int),
        decreases len - cur,
    {
        if l == line && c == column {
            return cur;
        }
        if cur >= len {
            proof {
                let k = choose|k: int| pos_matches(s@, k, line as int, column as int);
                assert(s@.take(len as int) =~= s@.take(k));
            }
            // unreachable: some position carries the line and column, the
            // scan has excluded every position before the end, and the end
            // itself was just compared
            proof {
                assert(false);
            }
        }
        let ch = s.get_char(cur);
        proof {
            assert(s@.take(cur + 1) =~= s@.take(cur as int).push(ch));
            lemma_line_col_through_push(0, 0, s@.take(cur as int), ch);
        }
        if ch == '\n' {
            l += 1;
            c = 0;
        } else {
            c += 1;
        }
        cur += 1;
    }
}

/// Walks forward from a position until right before the `n`-th line feed,
/// where `n` is one more than the given radius; stops at the end of the
/// text if fewer remain.
fn find_window_end(s: &str, k: usize, radius: usize) -> (r: usize)
    requires
        k <= s@.len(),
    ensures
        r == window_end(s@, k as int, radius + 1),
        k <= r <= s@.len(),
{
    let len = s.unicode_len();
    let mut cur: usize = k;
    let mut rem: usize = radius;
    loop
        invariant
            k <= cur <= len,
            len == s@.len(),
            rem <= radius,
            window_end(s@, k as int, radius + 1) == window_end(s@, cur as int, rem + 1),
        decreases len - cur,
    {
        if cur >= len {
            return len;
        }
        let ch = s.get_char(cur);
        if ch == '\n' {
            if rem == 0 {
                return cur;
            }
            rem -= 1;
        }
        cur += 1;
    }
}

impl<'filedata> FileWalker<'filedata> {
    /// Get a span of whole lines around the given span: up to `lines_away`
    /// lines before the span's starting line, and forward from the span's
    /// end until right before the line feed that closes the
    /// `lines_away`-th line after the line containing that end, clamped to
    /// the start and end of the text. The returned location points at
    /// column 0 of the first included line.
    pub fn expand_span(&self, span: &Span<'filedata>, lines_away: usize) -> (r: Span<'filedata>)
        requires
            self.wf(),
            exists|k: int| span_at(*span, self.source(), k),
        ensures
            ({
                let k = span_index(*span, self.source());
                let start_line = if span.location.line >= lines_away {
                    span.location.line - lines_away
                } else {
                    0
                };
                let s = line_start(self.source(), start_line as int);
                let e = window_end(self.source(), k + span.data@.len(), lines_away + 1);
                &&& r.location.column == 0
                &&& r.location.line == start_line
                &&& r.location.filename@ == self.file()
                &&& r.data@ == self.source().subrange(s, e)
            }),
    {
        let start_line_number = if span.location.line >= lines_away {
            span.location.line - lines_away
        } else {
            0
        };
        let span_start = find_position(self.all_data, span.location.line, span.location.column);
        proof {
            let text = self.source();
            let kw = choose|k: int| span_at(*span, text, k);
            lemma_pos_matches_unique(
                text,
                span_start as int,
                kw,
                span.location.line as int,
                span.location.column as int,
            );
            let ki = span_index(*span, text);
            lemma_pos_matches_unique(
                text,
                span_start as int,
                ki,
                span.location.line as int,
                span.location.column as int,
            );
            broadcast use lemma_walker_bytes;

            lemma_chars_le_bytes(text);
        }
        let span_end = span_start + span.data.unicode_len();
        let window_start = find_line_start(self.all_data, start_line_number);
        let window_stop = find_window_end(self.all_data, span_end, lines_away);
        proof {
            let text = self.source();
            // the window starts no later than the span does
            lemma_position_decomposition(text, span_start as int);
            lemma_line_start_monotone(text, start_line_number as int, span.location.line as int);
        }
        let location = Location::from_components(0, start_line_number, self.filename);
        let data = self.all_data.substring_char(window_start, window_stop);
        Span::from_components(location, data)
    }
}

/// A walker's bytes are the UTF-8 encoding of its source characters, and
/// so always form a valid encoding.
pub broadcast proof fn lemma_walker_bytes(w: FileWalker<'_>)
    ensures
        #[trigger] w.bytes() == encode_utf8(w.source()),
        valid_utf8(w.bytes()),
{
    broadcast use encode_utf8_valid_utf8;

}

/// A character sequence never has more characters than its UTF-8
/// encoding has bytes.
pub proof fn lemma_chars_le_bytes(chars: Seq<char>)
    ensures
        chars.len() <= encode_utf8(chars).len(),
    decreases chars.len(),
{
    if chars.len() > 0 {
        lemma_chars_le_bytes(chars.drop_first());
    }
}

/// A line's start index is no smaller than its line number, unless the
/// text ran out of lines first.
pub proof fn lemma_line_start_lower(text: Seq<char>, line: int)
    requires
        line >= 0,
    ensures
        line_start(text, line) >= line || line_start(text, line) == text.len(),
    decreases line,
{
    if line > 0 {
        lemma_line_start_lower(text, line - 1);
        let prev = line_start(text, line - 1);
        if prev == text.len() {
            lemma_next_newline_in_range(text, text.len() as int);
        } else {
            lemma_line_start_in_range(text, line - 1);
            lemma_next_newline_in_range(text, prev);
        }
    }
}

/// What a walker has stepped over and what is left of it together make
/// up its whole source.
pub proof fn lemma_consumed_remaining(w: FileWalker<'_>)
    requires
        w.wf(),
    ensures
        w.consumed() + w.remaining() == w.source(),
{
    broadcast use encode_utf8_valid_utf8;

    decode_utf8_split(w.bytes(), w.idx());
    assert(w.bytes().subrange(0, w.idx()) =~= w.bytes().take(w.idx()));
    assert(w.bytes().subrange(w.idx(), w.bytes().len() as int) =~= w.bytes().skip(w.idx()));
    encode_utf8_decode_utf8(w.source());
}

/// The characters between two boundaries are the decoded suffix that the
/// longer prefix adds over the shorter one.
pub proof fn lemma_decode_between(bytes: Seq<u8>, i: int, j: int)
    requires
        valid_utf8(bytes),
        0 <= i <= j <= bytes.len(),
        is_char_boundary(bytes, i),
        is_char_boundary(bytes, j),
    ensures
        decode_utf8(bytes.take(j)) == decode_utf8(bytes.take(i)) + decode_utf8(
            bytes.subrange(i, j),
        ),
{
    valid_utf8_split(bytes, j);
    crate::text::lemma_boundary_of_prefix(bytes, j, i);
    let prefix = bytes.take(j);
    assert(prefix =~= bytes.subrange(0, j));
    decode_utf8_split(prefix, i);
    assert(prefix.subrange(0, i) =~= bytes.take(i));
    assert(prefix.subrange(i, prefix.len() as int) =~= bytes.subrange(i, j));
}

/// A character boundary of a valid UTF-8 byte sequence never lies past its
/// end.
pub proof fn lemma_boundary_in_range(bytes: Seq<u8>, idx: int)
    requires
        valid_utf8(bytes),
        is_char_boundary(bytes, idx),
    ensures
        0 <= idx <= bytes.len(),
    decreases bytes.len(),
{
    if idx != 0 {
        vstd::utf8::is_char_boundary_start_end_of_seq(bytes);
        if idx < 0 || bytes.len() < idx {
            assert(!is_char_boundary(bytes, idx));
        }
    }
}

/// How one step decomposes the byte sequence around a boundary: the next
/// character's encoding sits between this boundary and the next, stepping
/// over it pushes that character onto the decoded prefix and pops it off
/// the decoded suffix.
pub proof fn lemma_first_char_decomposition(bytes: Seq<u8>, idx: int)
    requires
        valid_utf8(bytes),
        0 <= idx <= bytes.len(),
        is_char_boundary(bytes, idx),
        decode_utf8(bytes.skip(idx)).len() > 0,
    ensures
        ({
            let rem = decode_utf8(bytes.skip(idx));
            let c = rem[0];
            let w = char_utf8_len(c);
            &&& idx + w <= bytes.len()
            &&& is_char_boundary(bytes, idx + w)
            &&& decode_utf8(bytes.take(idx + w)) == decode_utf8(bytes.take(idx)).push(c)
            &&& decode_utf8(bytes.skip(idx + w)) == rem.drop_first()
        }),
{
    broadcast use encode_utf8_valid_utf8;

    let suffix = bytes.skip(idx);
    assert(suffix =~= bytes.subrange(idx, bytes.len() as int));
    valid_utf8_split(bytes, idx);
    let rem = decode_utf8(suffix);
    let c = rem[0];
    let w = char_utf8_len(c);
    decode_utf8_encode_utf8(suffix);
    // suffix is the encoding of its own decoding, whose head is c
    assert(encode_utf8(rem) == suffix);
    assert(encode_utf8(rem) == encode_utf8::<>(rem));
    let head = vstd::utf8::encode_scalar(c as u32);
    let tail = encode_utf8(rem.drop_first());
    assert(encode_utf8(rem) == head + tail);
    assert(suffix.len() == w + tail.len());
    assert(idx + w <= bytes.len());
    // the bytes of c are exactly suffix[0..w]
    assert(suffix.take(w) =~= head);
    assert(suffix.skip(w) =~= tail);

    // the next boundary: first within the suffix, then within the whole
    encode_utf8_first_scalar(rem);
    assert(vstd::utf8::length_of_first_scalar(suffix) == w);
    assert(vstd::utf8::pop_first_scalar(suffix) =~= tail);
    assert(is_char_boundary(suffix, w)) by {
        assert(is_char_boundary(tail, 0));
    }
    if idx + w == bytes.len() {
        is_char_boundary_start_end_of_seq(bytes);
    } else {
        assert(bytes[idx + w] == suffix[w]);
        is_char_boundary_iff_not_is_continuation_byte(bytes, idx + w);
        is_char_boundary_iff_not_is_continuation_byte(suffix, w);
    }

    // decoding splits around both boundaries
    decode_utf8_split(bytes, idx);
    decode_utf8_split(bytes, idx + w);
    assert(bytes.take(idx) =~= bytes.subrange(0, idx));
    assert(bytes.take(idx + w) =~= bytes.subrange(0, idx + w));
    let prefix_w = bytes.take(idx + w);
    valid_utf8_split(bytes, idx + w);
    crate::text::lemma_boundary_of_prefix(bytes, idx + w, idx);
    decode_utf8_split(prefix_w, idx);
    assert(prefix_w.subrange(0, idx) =~= bytes.take(idx));
    assert(prefix_w.subrange(idx, prefix_w.len() as int) =~= suffix.take(w));
    // the middle piece decodes to exactly the one character
    assert(decode_utf8(head) == seq![c]) by {
        let single = seq![c];
        assert(encode_utf8(single.drop_first()) =~= Seq::<u8>::empty());
        assert(encode_utf8(single) =~= head);
        encode_utf8_decode_utf8(single);
    }
    assert(decode_utf8(bytes.take(idx + w)) =~= decode_utf8(bytes.take(idx)).push(c));
    // and the rest decodes to the remaining characters
    assert(bytes.skip(idx + w) =~= bytes.subrange(idx + w, bytes.len() as int));
    assert(bytes.skip(idx + w) =~= suffix.skip(w));
    assert(decode_utf8(bytes.skip(idx + w)) == rem.drop_first()) by {
        encode_utf8_decode_utf8(rem.drop_first());
    }
}

} // verus!

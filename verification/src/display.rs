//! The diagnostic renderer: turns a primary message and a list of located
//! notes into a multi-line, source-annotated report, with caret rows
//! under the lines the notes point at and optional color codes.
use vstd::prelude::*;

verus! {

use crate::location::Location;
use crate::location::Span;
use crate::text::dec_digits;
use crate::text::dec_len;
use crate::text::dec_len_exec;
use crate::text::lemma_dec_digits_len;
use crate::text::push_decimal;
use crate::text::push_repeated;
use crate::text::repeat_char;
use crate::walker::FileWalker;
use vstd::string::StrSliceExecFns;
use vstd::string::StringExecFns;

/// How severe the condition a note or report points out is.
#[derive(Debug, Clone, Copy, PartialEq, Eq, Structural)]
pub enum ErrorLevel {
    Error,
    Warning,
    Info,
}

/// Settings for rendering a report; `colored` switches the ANSI color
/// codes on or off without altering the layout.
#[derive(Debug, Clone, PartialEq, Eq, Structural)]
pub struct ErrorDisplaySettings {
    pub colored: bool,
}

impl Default for ErrorDisplaySettings {
    /// By default reports are colored.
    fn default() -> (r: Self)
        ensures
            r.colored == true,
    {
        Self { colored: true }
    }
}

/// The code that switches coloring off.
pub open spec fn code_clear() -> Seq<char> {
    "\x1b[0m"@
}

/// The code for red.
pub open spec fn code_red() -> Seq<char> {
    "\x1b[31m"@
}

/// The code for yellow.
pub open spec fn code_yellow() -> Seq<char> {
    "\x1b[33m"@
}

/// The code for cyan.
pub open spec fn code_cyan() -> Seq<char> {
    "\x1b[36m"@
}

/// The code for white.
pub open spec fn code_white() -> Seq<char> {
    "\x1b[37m"@
}

/// The given code when coloring is on, nothing when it is off.
pub open spec fn if_colored(colored: bool, code: Seq<char>) -> Seq<char> {
    if colored {
        code
    } else {
        Seq::<char>::empty()
    }
}

/// The color a severity renders in: red for an error, yellow for a
/// warning, cyan for information.
pub open spec fn level_code(level: ErrorLevel) -> Seq<char> {
    match level {
        ErrorLevel::Error => code_red(),
        ErrorLevel::Warning => code_yellow(),
        ErrorLevel::Info => code_cyan(),
    }
}

fn clear_str(colored: bool) -> (r: &'static str)
    ensures
        r@ == if_colored(colored, code_clear()),
{
    proof {
        reveal_strlit("");
        assert(""@ =~= Seq::<char>::empty());
    }
    if colored {
        "\x1b[0m"
    } else {
        ""
    }
}

fn cyan_str(colored: bool) -> (r: &'static str)
    ensures
        r@ == if_colored(colored, code_cyan()),
{
    proof {
        reveal_strlit("");
        assert(""@ =~= Seq::<char>::empty());
    }
    if colored {
        "\x1b[36m"
    } else {
        ""
    }
}

fn white_str(colored: bool) -> (r: &'static str)
    ensures
        r@ == if_colored(colored, code_white()),
{
    proof {
        reveal_strlit("");
        assert(""@ =~= Seq::<char>::empty());
    }
    if colored {
        "\x1b[37m"
    } else {
        ""
    }
}

fn level_str(colored: bool, level: ErrorLevel) -> (r: &'static str)
    ensures
        r@ == if_colored(colored, level_code(level)),
{
    proof {
        reveal_strlit("");
        assert(""@ =~= Seq::<char>::empty());
    }
    if !colored {
        ""
    } else {
        match level {
            ErrorLevel::Error => "\x1b[31m",
            ErrorLevel::Warning => "\x1b[33m",
            ErrorLevel::Info => "\x1b[36m",
        }
    }
}

/// A note: an annotation anchored to a span of the source, rendered as a
/// caret row under the line the span starts on.
#[derive(Debug, Clone, Copy)]
pub struct Note<'filedata, 'a> {
    span: &'a Span<'filedata>,
    note: &'a str,
    error_level: ErrorLevel,
}

impl<'filedata, 'a> Note<'filedata, 'a> {
    /// Construct a note from the span it is anchored to, its message and
    /// its severity.
    pub fn new(span: &'a Span<'filedata>, text: &'a str, error_level: ErrorLevel) -> (r: Self)
        ensures
            r.nspan() == *span,
            r.msg() == text@,
            r.level() == error_level,
    {
        Self { span, note: text, error_level }
    }

    /// The span the note is anchored to.
    pub closed spec fn nspan(self) -> Span<'filedata> {
        *self.span
    }

    /// The note's message.
    pub closed spec fn msg(self) -> Seq<char> {
        self.note@
    }

    /// The note's severity.
    pub closed spec fn level(self) -> ErrorLevel {
        self.error_level
    }

    /// The line the note's span starts on.
    pub open spec fn nline(self) -> int {
        self.nspan().location.line as int
    }

    /// The column the note's span starts at.
    pub open spec fn ncol(self) -> int {
        self.nspan().location.column as int
    }

    /// How many characters wide the note's caret row is.
    pub open spec fn nwidth(self) -> int {
        self.nspan().data@.len() as int
    }
}

/// One caret row: the gutter, spaces up to the note's column, one caret
/// per character of the note's span, and the note's message, in the
/// severity's color.
pub open spec fn note_row(
    column: int,
    width: int,
    message: Seq<char>,
    level: ErrorLevel,
    colored: bool,
) -> Seq<char> {
    if_colored(colored, code_cyan()) + "    |"@ + repeat_char(' ', column) + if_colored(
        colored,
        level_code(level),
    ) + repeat_char('^', width) + " "@ + message + if_colored(colored, code_clear())
}

/// The caret row a note renders as.
pub open spec fn note_row_of(n: Note<'_, '_>, colored: bool) -> Seq<char> {
    note_row(n.ncol(), n.nwidth(), n.msg(), n.level(), colored)
}

fn push_note_row(out: &mut String, column: usize, width: usize, message: &str, level: ErrorLevel, colored: bool)
    ensures
        final(out)@ == old(out)@ + note_row(column as int, width as int, message@, level, colored),
{
    out.append(cyan_str(colored));
    out.append("    |");
    push_repeated(out, ' ', column);
    out.append(level_str(colored, level));
    push_repeated(out, '^', width);
    out.append(" ");
    out.append(message);
    out.append(clear_str(colored));
}

/// A single note, rendered against given settings.
#[derive(Debug, Clone, Copy)]
pub struct NoteDisplay<'filedata, 'a> {
    pub span: &'a Span<'filedata>,
    settings: &'a ErrorDisplaySettings,
    note: &'a str,
    color: ErrorLevel,
}

impl<'filedata, 'a> NoteDisplay<'filedata, 'a> {
    /// Construct a note display from its components.
    pub fn new(
        span: &'a Span<'filedata>,
        settings: &'a ErrorDisplaySettings,
        note: &'a str,
        color: ErrorLevel,
    ) -> (r: Self)
        ensures
            r.dspan() == *span,
            r.colored() == settings.colored,
            r.dmsg() == note@,
            r.dlevel() == color,
    {
        Self { span, settings, note, color }
    }

    /// Construct a note display for a note.
    pub fn from_note(settings: &'a ErrorDisplaySettings, note: &Note<'filedata, 'a>) -> (r: Self)
        ensures
            r.dspan() == note.nspan(),
            r.colored() == settings.colored,
            r.dmsg() == note.msg(),
            r.dlevel() == note.level(),
    {
        Self { span: note.span, settings, note: note.note, color: note.error_level }
    }

    /// The span under which the carets stand.
    pub closed spec fn dspan(self) -> Span<'filedata> {
        *self.span
    }

    /// Whether the row is colored.
    pub closed spec fn colored(self) -> bool {
        self.settings.colored
    }

    /// The message after the carets.
    pub closed spec fn dmsg(self) -> Seq<char> {
        self.note@
    }

    /// The severity that picks the color.
    pub closed spec fn dlevel(self) -> ErrorLevel {
        self.color
    }

    /// Renders the caret row.
    pub fn to_string(&self) -> (r: String)
        ensures
            r@ == note_row(
                self.dspan().location.column as int,
                self.dspan().data@.len() as int,
                self.dmsg(),
                self.dlevel(),
                self.colored(),
            ),
    {
        let mut out = String::new();
        let width = self.span.data.unicode_len();
        push_note_row(
            &mut out,
            self.span.location.column,
            width,
            self.note,
            self.color,
            self.settings.colored,
        );
        proof {
            assert(out@ =~= Seq::<char>::empty() + out@);
        }
        out
    }
}

/// One source line of a report: a colored gutter with the one-based line
/// number, then the line's text.
pub open spec fn line_row(line: int, data: Seq<char>, colored: bool) -> Seq<char> {
    if_colored(colored, code_cyan()) + gutter_number(line + 1) + " |"@ + if_colored(
        colored,
        code_clear(),
    ) + data
}

/// The one-based line number, right-aligned to at least three characters.
pub open spec fn gutter_number(n: int) -> Seq<char> {
    if dec_len(n) >= 3 {
        dec_digits(n)
    } else {
        repeat_char(' ', 3 - dec_len(n)) + dec_digits(n)
    }
}

/// A single source line, rendered against given settings.
#[derive(Debug, Clone, Copy)]
pub struct LineDisplay<'filedata, 'a> {
    pub line_span: Span<'filedata>,
    settings: &'a ErrorDisplaySettings,
}

impl<'filedata, 'a> LineDisplay<'filedata, 'a> {
    /// Construct a line display from the span of one source line.
    pub fn new(line_span: Span<'filedata>, settings: &'a ErrorDisplaySettings) -> (r: Self)
        ensures
            r.lspan() == line_span,
            r.colored() == settings.colored,
    {
        Self { line_span, settings }
    }

    /// The span of the source line shown.
    pub closed spec fn lspan(self) -> Span<'filedata> {
        self.line_span
    }

    /// Whether the row is colored.
    pub closed spec fn colored(self) -> bool {
        self.settings.colored
    }

    /// Renders the line with its gutter.
    pub fn to_string(&self) -> (r: String)
        requires
            self.lspan().location.line < usize::MAX,
        ensures
            r@ == line_row(self.lspan().location.line as int, self.lspan().data@, self.colored()),
    {
        let mut out = String::new();
        let colored = self.settings.colored;
        out.append(cyan_str(colored));
        let shown = self.line_span.location.line + 1;
        let digits = dec_len_exec(shown);
        if digits < 3 {
            push_repeated(&mut out, ' ', 3 - digits);
        }
        push_decimal(&mut out, shown);
        out.append(" |");
        out.append(clear_str(colored));
        out.append(self.line_span.data);
        proof {
            lemma_dec_digits_len(shown as int);
            assert(out@ =~= line_row(
                self.line_span.location.line as int,
                self.line_span.data@,
                self.colored(),
            ));
        }
        out
    }
}

impl<'filedata, 'a> PartialEq for LineDisplay<'filedata, 'a> {
    fn eq(&self, other: &Self) -> (r: bool) {
        self.line_span == other.line_span && self.settings.colored == other.settings.colored
    }
}

impl<'filedata, 'a> vstd::std_specs::cmp::PartialEqSpecImpl for LineDisplay<'filedata, 'a> {
    open spec fn obeys_eq_spec() -> bool {
        true
    }

    open spec fn eq_spec(&self, other: &LineDisplay<'filedata, 'a>) -> bool {
        self.lspan().same_as(other.lspan()) && self.colored() == other.colored()
    }
}

impl<'filedata, 'a> Eq for LineDisplay<'filedata, 'a> {

}

/// A line as `lines` of the standard library reads it: without the line
/// feed, and without a carriage return right before the line feed.
pub open spec fn strip_cr(line: Seq<char>) -> Seq<char> {
    if line.len() > 0 && line.last() == '\r' {
        line.drop_last()
    } else {
        line
    }
}

/// Finds the first line feed of a string, or its length if none.
fn find_newline(s: &str) -> (r: usize)
    ensures
        r == crate::walker::next_newline(s@, 0),
        r <= s@.len(),
{
    let len = s.unicode_len();
    let mut i: usize = 0;
    while i < len
        invariant
            0 <= i <= len,
            len == s@.len(),
            crate::walker::next_newline(s@, 0) == crate::walker::next_newline(s@, i as int),
        decreases len - i,
    {
        if s.get_char(i) == '\n' {
            return i;
        }
        i += 1;
    }
    len
}

/// Walks line by line over a context window of the source around a span,
/// handing out one `LineDisplay` per line.
#[derive(Debug, Clone)]
pub struct RegionRender<'filedata, 'a> {
    settings: &'a ErrorDisplaySettings,
    location: Location<'filedata>,
    rest: &'filedata str,
}

impl<'filedata, 'a> RegionRender<'filedata, 'a> {
    /// The window text not yet handed out.
    pub closed spec fn window(self) -> Seq<char> {
        self.rest@
    }

    /// The line the next handed-out line carries.
    pub closed spec fn rline(self) -> int {
        self.location.line as int
    }

    /// The column the next handed-out line carries.
    pub closed spec fn rcol(self) -> int {
        self.location.column as int
    }

    /// The file name the handed-out lines carry.
    pub closed spec fn rfile(self) -> Seq<char> {
        self.location.filename@
    }

    /// Whether the handed-out lines render colored.
    pub closed spec fn colored(self) -> bool {
        self.settings.colored
    }

    /// Well-formed: the line counter cannot overflow while lines remain.
    pub open spec fn rr_wf(self) -> bool {
        self.rline() + self.window().len() < usize::MAX
    }

    /// Construct a walk over the window of `width` whole lines around the
    /// given span of the walker's source: `width` lines before the span's
    /// starting line through `width` lines after the line its end falls
    /// on, clamped to the text.
    pub fn new(
        settings: &'a ErrorDisplaySettings,
        span: &Span<'filedata>,
        walker: &'a FileWalker<'filedata>,
        width: usize,
    ) -> (r: Self)
        requires
            walker.wf(),
            exists|k: int| crate::walker::span_at(*span, walker.source(), k),
        ensures
            ({
                let text = walker.source();
                let start_line = if span.location.line >= width {
                    span.location.line - width
                } else {
                    0
                };
                &&& r.rline() == start_line
                &&& r.rcol() == 0
                &&& r.rfile() == walker.file()
                &&& r.colored() == settings.colored
                &&& r.window() == text.subrange(
                    crate::walker::line_start(text, start_line as int),
                    crate::walker::window_end(
                        text,
                        crate::walker::span_index(*span, text) + span.data@.len(),
                        width + 1,
                    ),
                )
                &&& r.rr_wf()
            }),
    {
        let region_span = walker.expand_span(span, width);
        proof {
            broadcast use crate::walker::lemma_walker_bytes;

            let text = walker.source();
            let start_line: int = if span.location.line >= width {
                span.location.line - width
            } else {
                0
            };
            let ki = crate::walker::span_index(*span, text);
            let kw = choose|k: int| crate::walker::span_at(*span, text, k);
            assert(crate::walker::span_at(*span, text, ki));
            let s = crate::walker::line_start(text, start_line);
            let e = crate::walker::window_end(text, ki + span.data@.len(), width + 1);
            crate::walker::lemma_chars_le_bytes(text);
            crate::walker::lemma_window_end_in_range(text, ki + span.data@.len(), width + 1);
            crate::walker::lemma_line_start_lower(text, start_line);
            crate::walker::lemma_line_start_monotone(text, start_line, span.location.line as int);
            crate::walker::lemma_position_decomposition(text, ki);
        }
        Self { settings, location: region_span.location, rest: region_span.data }
    }

    /// Hands out the next line of the window: its text without the line
    /// ending, located at the carried line number, column 0. Returns
    /// `None` once the window is exhausted.
    pub fn next(&mut self) -> (r: Option<LineDisplay<'filedata, 'a>>)
        requires
            old(self).rr_wf(),
        ensures
            final(self).rr_wf(),
            final(self).colored() == old(self).colored(),
            final(self).rfile() == old(self).rfile(),
            old(self).window().len() == 0 ==> r is None && *final(self) == *old(self),
            old(self).window().len() > 0 ==> (r matches Some(ld) && {
                let w = old(self).window();
                &&& ld.lspan().location.line == old(self).rline()
                &&& ld.lspan().location.column == old(self).rcol()
                &&& ld.lspan().location.filename@ == old(self).rfile()
                &&& ld.lspan().data@ == strip_cr(w.take(crate::walker::next_newline(w, 0)))
                &&& ld.colored() == old(self).colored()
                &&& final(self).rline() == old(self).rline() + 1
                &&& final(self).rcol() == 0
                &&& final(self).window() == w.skip(crate::walker::next_line_start(w, 0))
            }),
    {
        if self.rest.is_empty() {
            return None;
        }
        let this_location = self.location;
        let len = self.rest.unicode_len();
        let p = find_newline(self.rest);
        let line_end = if p > 0 && self.rest.get_char(p - 1) == '\r' {
            p - 1
        } else {
            p
        };
        let line_str = self.rest.substring_char(0, line_end);
        proof {
            let w = self.rest@;
            assert(w.take(crate::walker::next_newline(w, 0)) =~= w.subrange(0, p as int));
            if line_end < p {
                assert(strip_cr(w.subrange(0, p as int)) =~= w.subrange(0, line_end as int));
            } else {
                assert(strip_cr(w.subrange(0, p as int)) =~= w.subrange(0, line_end as int));
            }
        }
        let next_start = if p < len {
            p + 1
        } else {
            len
        };
        let new_rest = self.rest.substring_char(next_start, len);
        proof {
            let w = self.rest@;
            assert(w.skip(crate::walker::next_line_start(w, 0)) =~= w.subrange(
                next_start as int,
                len as int,
            ));
        }
        self.rest = new_rest;
        self.location.line = self.location.line + 1;
        self.location.column = 0;
        Some(
            LineDisplay::new(
                Span::from_components(this_location, line_str),
                self.settings,
            ),
        )
    }
}

/// The order reports list their notes in: by line first, and on the same
/// line by descending column.
pub open spec fn note_le(a: Note<'_, '_>, b: Note<'_, '_>) -> bool {
    a.nline() < b.nline() || (a.nline() == b.nline() && a.ncol() >= b.ncol())
}

/// Notes ordered by line, and on the same line by descending column.
pub open spec fn sorted_notes(s: Seq<Note<'_, '_>>) -> bool {
    forall|i: int, j: int| 0 <= i < j < s.len() ==> note_le(s[i], s[j])
}

/// Notes ordered by descending column.
pub open spec fn sorted_by_col(s: Seq<Note<'_, '_>>) -> bool {
    forall|i: int, j: int| 0 <= i < j < s.len() ==> s[i].ncol() >= s[j].ncol()
}

/// The notes anchored to the given line, in the order given.
pub open spec fn notes_on_line<'filedata, 'a>(
    ns: Seq<Note<'filedata, 'a>>,
    line: int,
) -> Seq<Note<'filedata, 'a>>
    decreases ns.len(),
{
    if ns.len() == 0 {
        Seq::<Note<'filedata, 'a>>::empty()
    } else if ns[0].nline() == line {
        seq![ns[0]] + notes_on_line(ns.drop_first(), line)
    } else {
        notes_on_line(ns.drop_first(), line)
    }
}

/// A note that precedes every note of a run, and is anchored to the given
/// line, starts no further left than any note of the run anchored there.
proof fn lemma_notes_on_line_bound(ns: Seq<Note<'_, '_>>, line: int, b: Note<'_, '_>)
    requires
        forall|j: int| 0 <= j < ns.len() ==> note_le(b, ns[j]),
        b.nline() == line,
    ensures
        forall|k: int|
            0 <= k < notes_on_line(ns, line).len() ==> b.ncol() >= notes_on_line(ns, line)[k].ncol(),
    decreases ns.len(),
{
    if ns.len() > 0 {
        assert(forall|j: int| 0 <= j < ns.drop_first().len() ==> note_le(b, ns.drop_first()[j]));
        lemma_notes_on_line_bound(ns.drop_first(), line, b);
        if ns[0].nline() == line {
            assert(notes_on_line(ns, line) =~= seq![ns[0]] + notes_on_line(
                ns.drop_first(),
                line,
            ));
        }
    }
}

/// In a report's note order — by line, then by descending column — the
/// notes anchored to any one line stand by descending column, so the
/// caret rows under a printed line go from right to left.
pub proof fn lemma_sorted_line_rows(all: Seq<Note<'_, '_>>, line: int)
    requires
        sorted_notes(all),
    ensures
        sorted_by_col(notes_on_line(all, line)),
    decreases all.len(),
{
    if all.len() > 0 {
        let tail = all.drop_first();
        assert(forall|i: int, j: int|
            0 <= i < j < tail.len() ==> note_le(#[trigger] tail[i], #[trigger] tail[j])) by {
            assert(forall|i: int, j: int|
                0 <= i < j < tail.len() ==> tail[i] == all[i + 1] && tail[j] == all[j + 1]);
        }
        lemma_sorted_line_rows(tail, line);
        if all[0].nline() == line {
            assert(forall|j: int| 0 <= j < tail.len() ==> note_le(all[0], tail[j])) by {
                assert(forall|j: int| 0 <= j < tail.len() ==> tail[j] == all[j + 1]);
            }
            lemma_notes_on_line_bound(tail, line, all[0]);
            let merged = seq![all[0]] + notes_on_line(tail, line);
            assert(notes_on_line(all, line) =~= merged);
            assert(forall|i: int, j: int|
                0 <= i < j < merged.len() ==> merged[i].ncol() >= merged[j].ncol()) by {
                assert(forall|j: int|
                    1 <= j < merged.len() ==> merged[j] == notes_on_line(tail, line)[j - 1]);
            }
        } else {
            assert(notes_on_line(all, line) =~= notes_on_line(tail, line));
        }
    }
}

/// Sorts notes by line, and on the same line by descending column, by
/// repeatedly moving an element that precedes all others.
fn sort_notes<'filedata, 'a>(notes: Vec<Note<'filedata, 'a>>) -> (r: Vec<Note<'filedata, 'a>>)
    ensures
        sorted_notes(r@),
        r@.to_multiset() == notes@.to_multiset(),
{
    proof {
        broadcast use vstd::seq_lib::group_seq_properties;

    }
    let mut src = notes;
    let mut out: Vec<Note<'filedata, 'a>> = Vec::new();
    while src.len() > 0
        invariant
            sorted_notes(out@),
            out@.to_multiset().add(src@.to_multiset()) =~= notes@.to_multiset(),
            forall|i: int, j: int|
                0 <= i < out@.len() && 0 <= j < src@.len() ==> note_le(out@[i], src@[j]),
        decreases src.len(),
    {
        let mut m: usize = 0;
        let mut j: usize = 1;
        while j < src.len()
            invariant
                0 <= m < j <= src@.len(),
                src@.len() > 0,
                forall|k: int| 0 <= k < j ==> note_le(src@[m as int], src@[k]),
            decreases src.len() - j,
        {
            let better = src[j].span.location.line < src[m].span.location.line || (
            src[j].span.location.line == src[m].span.location.line && src[j].span.location.column
                > src[m].span.location.column);
            if better {
                m = j;
            }
            j += 1;
        }
        let picked = src.remove(m);
        proof {
            broadcast use vstd::seq_lib::group_to_multiset_ensures;

        }
        out.push(picked);
        proof {
            assert(out@.drop_last() =~= out@.subrange(0, out@.len() - 1));
            assert(forall|i: int| 0 <= i < out@.len() - 1 ==> out@[i] == out@.drop_last()[i]);
        }
    }
    out
}

/// Sorts notes by descending column alone.
fn sort_notes_by_col<'filedata, 'a>(notes: Vec<Note<'filedata, 'a>>) -> (r: Vec<
    Note<'filedata, 'a>,
>)
    ensures
        sorted_by_col(r@),
        r@.to_multiset() == notes@.to_multiset(),
{
    proof {
        broadcast use vstd::seq_lib::group_seq_properties;

    }
    let mut src = notes;
    let mut out: Vec<Note<'filedata, 'a>> = Vec::new();
    while src.len() > 0
        invariant
            sorted_by_col(out@),
            out@.to_multiset().add(src@.to_multiset()) =~= notes@.to_multiset(),
            forall|i: int, j: int|
                0 <= i < out@.len() && 0 <= j < src@.len() ==> out@[i].ncol() >= src@[j].ncol(),
        decreases src.len(),
    {
        let mut m: usize = 0;
        let mut j: usize = 1;
        while j < src.len()
            invariant
                0 <= m < j <= src@.len(),
                src@.len() > 0,
                forall|k: int| 0 <= k < j ==> src@[m as int].ncol() >= src@[k].ncol(),
            decreases src.len() - j,
        {
            if src[j].span.location.column > src[m].span.location.column {
                m = j;
            }
            j += 1;
        }
        let picked = src.remove(m);
        proof {
            broadcast use vstd::seq_lib::group_to_multiset_ensures;

        }
        out.push(picked);
    }
    out
}

/// Collects the notes anchored to the given line, keeping their order.
fn collect_line_notes<'filedata, 'a>(notes: &Vec<Note<'filedata, 'a>>, line: usize) -> (r: Vec<
    Note<'filedata, 'a>,
>)
    ensures
        r@ == notes_on_line(notes@, line as int),
{
    let mut acc: Vec<Note<'filedata, 'a>> = Vec::new();
    let mut j: usize = 0;
    proof {
        assert(notes@.skip(0) =~= notes@);
    }
    while j < notes.len()
        invariant
            0 <= j <= notes@.len(),
            notes_on_line(notes@, line as int) == acc@ + notes_on_line(
                notes@.skip(j as int),
                line as int,
            ),
        decreases notes@.len() - j,
    {
        let n = notes[j];
        proof {
            assert(notes@.skip(j as int)[0] == notes@[j as int]);
            assert(notes@.skip(j as int).drop_first() =~= notes@.skip(j + 1));
            if n.nline() == line {
                assert(acc@ + notes_on_line(notes@.skip(j as int), line as int) =~= acc@.push(n)
                    + notes_on_line(notes@.skip(j + 1), line as int));
            }
        }
        if n.span.location.line == line {
            acc.push(n);
        }
        j += 1;
    }
    proof {
        assert(notes@.skip(notes@.len() as int) =~= Seq::<Note<'filedata, 'a>>::empty());
        assert(acc@ =~= acc@ + notes_on_line(notes@.skip(notes@.len() as int), line as int));
    }
    acc
}

/// The caret rows of a run of notes, one row per note, separated by line
/// breaks.
pub open spec fn rows_joined(ns: Seq<Note<'_, '_>>, colored: bool) -> Seq<char>
    decreases ns.len(),
{
    if ns.len() == 0 {
        Seq::<char>::empty()
    } else if ns.len() == 1 {
        note_row_of(ns[0], colored)
    } else {
        note_row_of(ns[0], colored) + "\n"@ + rows_joined(ns.drop_first(), colored)
    }
}

pub proof fn lemma_rows_joined_push(ns: Seq<Note<'_, '_>>, n: Note<'_, '_>, colored: bool)
    ensures
        rows_joined(ns.push(n), colored) == if ns.len() == 0 {
            note_row_of(n, colored)
        } else {
            rows_joined(ns, colored) + "\n"@ + note_row_of(n, colored)
        },
    decreases ns.len(),
{
    if ns.len() == 0 {
        assert(ns.push(n)[0] == n);
        assert(ns.push(n).len() == 1);
    } else {
        assert(ns.push(n)[0] == ns[0]);
        assert(ns.push(n).drop_first() =~= ns.drop_first().push(n));
        lemma_rows_joined_push(ns.drop_first(), n, colored);
        if ns.len() == 1 {
            assert(ns.drop_first().len() == 0);
        }
    }
}

/// Several notes anchored to one line, rendered as their caret rows in
/// descending column order.
#[derive(Debug, Clone)]
pub struct MultiNoteDisplay<'filedata, 'a> {
    notes: Vec<Note<'filedata, 'a>>,
    settings: &'a ErrorDisplaySettings,
}

impl<'filedata, 'a> MultiNoteDisplay<'filedata, 'a> {
    /// Construct the display of every note of the list that is anchored
    /// to the given line, ordered by descending column.
    pub fn new(
        settings: &'a ErrorDisplaySettings,
        notes: &Vec<Note<'filedata, 'a>>,
        line: usize,
    ) -> (r: Self)
        ensures
            sorted_by_col(r.mnotes()),
            r.mnotes().to_multiset() == notes_on_line(notes@, line as int).to_multiset(),
            r.mcolored() == settings.colored,
    {
        let matching = collect_line_notes(notes, line);
        let sorted = sort_notes_by_col(matching);
        Self { settings, notes: sorted }
    }

    /// The notes shown, in descending column order.
    pub closed spec fn mnotes(self) -> Seq<Note<'filedata, 'a>> {
        self.notes@
    }

    /// Whether the rows are colored.
    pub closed spec fn mcolored(self) -> bool {
        self.settings.colored
    }

    /// Renders one caret row per note, separated by line breaks.
    pub fn to_string(&self) -> (r: String)
        ensures
            r@ == rows_joined(self.mnotes(), self.mcolored()),
    {
        let mut out = String::new();
        push_note_rows(&mut out, &self.notes, self.settings.colored);
        proof {
            assert(out@ =~= rows_joined(self.mnotes(), self.mcolored()));
        }
        out
    }
}

/// Appends one caret row per note, separated by line breaks.
fn push_note_rows<'filedata, 'a>(
    out: &mut String,
    notes: &Vec<Note<'filedata, 'a>>,
    colored: bool,
)
    ensures
        final(out)@ == old(out)@ + rows_joined(notes@, colored),
{
    let mut k: usize = 0;
    while k < notes.len()
        invariant
            0 <= k <= notes@.len(),
            out@ == old(out)@ + rows_joined(notes@.take(k as int), colored),
        decreases notes@.len() - k,
    {
        if k != 0 {
            out.append("\n");
        }
        let n = notes[k];
        let width = n.span.data.unicode_len();
        push_note_row(out, n.span.location.column, width, n.note, n.error_level, colored);
        proof {
            assert(notes@.take(k + 1) =~= notes@.take(k as int).push(n));
            lemma_rows_joined_push(notes@.take(k as int), n, colored);
            reveal_strlit("\n");
            if k == 0 {
                assert(notes@.take(0int) =~= Seq::<Note<'filedata, 'a>>::empty());
                assert(out@ =~= old(out)@ + rows_joined(notes@.take(k + 1), colored));
            } else {
                assert(out@ =~= old(out)@ + rows_joined(notes@.take(k + 1), colored));
            }
        }
        k += 1;
    }
    proof {
        assert(notes@.take(notes@.len() as int) =~= notes@);
    }
}

/// The word a severity prints as.
pub open spec fn level_word(level: ErrorLevel) -> Seq<char> {
    match level {
        ErrorLevel::Error => "error"@,
        ErrorLevel::Warning => "warning"@,
        ErrorLevel::Info => "info"@,
    }
}

/// The caret rows under one printed source line: nothing when no note is
/// anchored to it, else one row per anchored note and a final line break.
pub open spec fn line_notes_block(all: Seq<Note<'_, '_>>, line: int, colored: bool) -> Seq<char> {
    let ms = notes_on_line(all, line);
    if ms.len() == 0 {
        Seq::<char>::empty()
    } else {
        rows_joined(ms, colored) + "\n"@
    }
}

/// What rendering the lines of one context window emits, and the
/// watermark left behind: each line at or past the watermark prints with
/// its gutter and its anchored notes' caret rows and raises the
/// watermark past itself; lines below the watermark were already printed
/// by an earlier window and are skipped.
pub open spec fn render_window_spec(
    window: Seq<char>,
    wline: int,
    all: Seq<Note<'_, '_>>,
    colored: bool,
    nl: int,
) -> (Seq<char>, int)
    decreases window.len(),
{
    if window.len() == 0 {
        (Seq::<char>::empty(), nl)
    } else {
        let this = strip_cr(window.take(crate::walker::next_newline(window, 0)));
        let rest = window.skip(crate::walker::next_line_start(window, 0));
        if crate::walker::next_line_start(window, 0) < 1 {
            (Seq::<char>::empty(), nl)
        } else if wline < nl {
            render_window_spec(rest, wline + 1, all, colored, nl)
        } else {
            let tail = render_window_spec(rest, wline + 1, all, colored, wline + 1);
            (
                line_row(wline, this, colored) + "\n"@ + line_notes_block(all, wline, colored)
                    + tail.0,
                tail.1,
            )
        }
    }
}

/// The first line of the window the renderer asks for around a note: one
/// line above the note's line, clamped to the start of the text.
pub open spec fn note_window_start_line(n: Note<'_, '_>) -> int {
    if n.nline() >= 1 {
        n.nline() - 1
    } else {
        0
    }
}

/// The context window the renderer asks for around a note: from the
/// start of the line above it, forward to right before the second line
/// feed at or after the end of the note's span.
pub open spec fn note_window(n: Note<'_, '_>, text: Seq<char>) -> Seq<char> {
    text.subrange(
        crate::walker::line_start(text, note_window_start_line(n)),
        crate::walker::window_end(
            text,
            crate::walker::line_start(text, n.nline()) + n.ncol() + n.nwidth(),
            2,
        ),
    )
}

/// What rendering a run of notes emits: each note's context window in
/// turn, under a watermark that keeps overlapping windows from printing
/// a line twice.
pub open spec fn render_notes_spec(
    notes: Seq<Note<'_, '_>>,
    all: Seq<Note<'_, '_>>,
    text: Seq<char>,
    colored: bool,
    nl: int,
) -> (Seq<char>, int)
    decreases notes.len(),
{
    if notes.len() == 0 {
        (Seq::<char>::empty(), nl)
    } else {
        let n = notes[0];
        let head = render_window_spec(
            note_window(n, text),
            note_window_start_line(n),
            all,
            colored,
            nl,
        );
        let tail = render_notes_spec(notes.drop_first(), all, text, colored, head.1);
        (head.0 + tail.0, tail.1)
    }
}

pub proof fn lemma_render_notes_push(
    notes: Seq<Note<'_, '_>>,
    n: Note<'_, '_>,
    all: Seq<Note<'_, '_>>,
    text: Seq<char>,
    colored: bool,
    nl: int,
)
    ensures
        render_notes_spec(notes.push(n), all, text, colored, nl) == ({
            let head = render_notes_spec(notes, all, text, colored, nl);
            let wseg = render_window_spec(
                note_window(n, text),
                note_window_start_line(n),
                all,
                colored,
                head.1,
            );
            ((head.0 + wseg.0), wseg.1)
        }),
    decreases notes.len(),
{
    if notes.len() == 0 {
        assert(notes.push(n)[0] == n);
        assert(notes.push(n).drop_first() =~= notes);
        let head0 = render_window_spec(
            note_window(n, text),
            note_window_start_line(n),
            all,
            colored,
            nl,
        );
        assert(render_notes_spec(notes, all, text, colored, head0.1).0 =~= Seq::<char>::empty());
        assert(head0.0 + Seq::<char>::empty() =~= head0.0);
        assert(Seq::<char>::empty() + head0.0 =~= head0.0);
    } else {
        assert(notes.push(n)[0] == notes[0]);
        assert(notes.push(n).drop_first() =~= notes.drop_first().push(n));
        let h = render_window_spec(
            note_window(notes[0], text),
            note_window_start_line(notes[0]),
            all,
            colored,
            nl,
        );
        lemma_render_notes_push(notes.drop_first(), n, all, text, colored, h.1);
        let t = render_notes_spec(notes.drop_first(), all, text, colored, h.1);
        let wseg = render_window_spec(
            note_window(n, text),
            note_window_start_line(n),
            all,
            colored,
            t.1,
        );
        assert(h.0 + (t.0 + wseg.0) =~= (h.0 + t.0) + wseg.0);
    }
}

/// The whole report: the severity and the message, the primary location,
/// then each note's context window with caret rows under the annotated
/// lines.
pub open spec fn report_spec(
    level: ErrorLevel,
    colored: bool,
    message: Seq<char>,
    primary: Location<'_>,
    notes: Seq<Note<'_, '_>>,
    text: Seq<char>,
) -> Seq<char> {
    if_colored(colored, level_code(level)) + level_word(level) + if_colored(
        colored,
        code_white(),
    ) + ": "@ + message + if_colored(colored, code_cyan()) + "\n"@ + "   --> "@ + if_colored(
        colored,
        code_clear(),
    ) + primary.display() + "\n"@ + render_notes_spec(notes, notes, text, colored, 0).0
}

/// Every note's span genuinely points into the text: some position of
/// the text carries its location and its data.
pub open spec fn notes_anchored(notes: Seq<Note<'_, '_>>, text: Seq<char>) -> bool {
    forall|i: int|
        0 <= i < notes.len() ==> exists|k: int|
            crate::walker::span_at((#[trigger] notes[i]).nspan(), text, k)
}

/// A full report in the making: a severity and message, a primary
/// location, a list of notes — held sorted by line and then by
/// descending column — and the walker whose source the notes annotate.
#[derive(Debug, Clone)]
pub struct ErrorRender<'filedata, 'a> {
    level: ErrorLevel,
    settings: &'a ErrorDisplaySettings,
    message: &'a str,
    primary_location: &'a Location<'filedata>,
    notes: Vec<Note<'filedata, 'a>>,
    walker: &'a FileWalker<'filedata>,
}

impl<'filedata, 'a> ErrorRender<'filedata, 'a> {
    /// The report's severity.
    pub closed spec fn rlevel(self) -> ErrorLevel {
        self.level
    }

    /// Whether the report renders colored.
    pub closed spec fn rcolored(self) -> bool {
        self.settings.colored
    }

    /// The primary message.
    pub closed spec fn rmsg(self) -> Seq<char> {
        self.message@
    }

    /// The primary location.
    pub closed spec fn rprimary(self) -> Location<'filedata> {
        *self.primary_location
    }

    /// The notes, as sorted at construction.
    pub closed spec fn rnotes(self) -> Seq<Note<'filedata, 'a>> {
        self.notes@
    }

    /// The cursor whose source the report annotates.
    pub closed spec fn rwalker(self) -> FileWalker<'filedata> {
        *self.walker
    }

    /// Construct a report. The notes are sorted here, by ascending line
    /// and on the same line by descending column: the rendering walk
    /// relies on that order.
    pub fn new(
        level: ErrorLevel,
        settings: &'a ErrorDisplaySettings,
        message: &'a str,
        primary_location: &'a Location<'filedata>,
        notes: Vec<Note<'filedata, 'a>>,
        walker: &'a FileWalker<'filedata>,
    ) -> (r: Self)
        ensures
            r.rlevel() == level,
            r.rcolored() == settings.colored,
            r.rmsg() == message@,
            r.rprimary() == *primary_location,
            r.rwalker() == *walker,
            sorted_notes(r.rnotes()),
            r.rnotes().to_multiset() == notes@.to_multiset(),
    {
        let sorted = sort_notes(notes);
        Self { level, settings, message, primary_location, notes: sorted, walker }
    }

    /// Renders the report: the severity and message, the primary
    /// location, then for each note the surrounding source lines — each
    /// printed once even where windows overlap — with one caret row per
    /// note under an annotated line.
    #[verifier::rlimit(100)]
    pub fn render(&self) -> (r: String)
        requires
            self.rwalker().wf(),
            self.rprimary().column < usize::MAX,
            self.rprimary().line < usize::MAX,
            notes_anchored(self.rnotes(), self.rwalker().source()),
        ensures
            r@ == report_spec(
                self.rlevel(),
                self.rcolored(),
                self.rmsg(),
                self.rprimary(),
                self.rnotes(),
                self.rwalker().source(),
            ),
    {
        let colored = self.settings.colored;
        let ghost text = self.rwalker().source();
        let ghost all = self.rnotes();
        let mut out = String::new();
        out.append(level_str(colored, self.level));
        match self.level {
            ErrorLevel::Error => out.append("error"),
            ErrorLevel::Warning => out.append("warning"),
            ErrorLevel::Info => out.append("info"),
        }
        out.append(white_str(colored));
        out.append(": ");
        out.append(self.message);
        out.append(cyan_str(colored));
        out.append("\n");
        out.append("   --> ");
        out.append(clear_str(colored));
        let loc_string = self.primary_location.display_string();
        out.append(loc_string.as_str());
        out.append("\n");
        let ghost header = out@;
        let mut next_line_needed: usize = 0;
        let mut i: usize = 0;
        proof {
            assert(all.take(0int) =~= Seq::<Note<'filedata, 'a>>::empty());
        }
        while i < self.notes.len()
            invariant
                self.rwalker().wf(),
                text == self.rwalker().source(),
                all == self.rnotes(),
                colored == self.rcolored(),
                0 <= i <= self.notes@.len(),
                self.notes@ == all,
                notes_anchored(self.rnotes(), self.rwalker().source()),
                out@ == header + render_notes_spec(all.take(i as int), all, text, colored, 0).0,
                next_line_needed == render_notes_spec(all.take(i as int), all, text, colored, 0).1,
            decreases self.notes@.len() - i,
        {
            let note = self.notes[i];
            proof {
                assert(exists|k: int| crate::walker::span_at(all[i as int].nspan(), text, k));
            }
            let mut region = RegionRender::new(self.settings, note.span, self.walker, 1);
            proof {
                let ki = crate::walker::span_index(note.nspan(), text);
                let kw = choose|k: int| crate::walker::span_at(note.nspan(), text, k);
                assert(crate::walker::span_at(note.nspan(), text, ki));
                crate::walker::lemma_position_decomposition(text, ki);
                assert(ki == crate::walker::line_start(text, note.nline()) + note.ncol());
                assert(region.window() == note_window(note, text));
            }
            let ghost nl0: int = next_line_needed as int;
            let ghost target = render_window_spec(
                region.window(),
                region.rline(),
                all,
                colored,
                nl0,
            );
            let ghost base = out@;
            loop
                invariant
                    region.rr_wf(),
                    region.colored() == colored,
                    all == self.rnotes(),
                    self.notes@ == all,
                    text == self.rwalker().source(),
                    out@ + render_window_spec(
                        region.window(),
                        region.rline(),
                        all,
                        colored,
                        next_line_needed as int,
                    ).0 == base + target.0,
                    render_window_spec(
                        region.window(),
                        region.rline(),
                        all,
                        colored,
                        next_line_needed as int,
                    ).1 == target.1,
                ensures
                    region.window().len() == 0,
                    out@ + render_window_spec(
                        region.window(),
                        region.rline(),
                        all,
                        colored,
                        next_line_needed as int,
                    ).0 == base + target.0,
                    render_window_spec(
                        region.window(),
                        region.rline(),
                        all,
                        colored,
                        next_line_needed as int,
                    ).1 == target.1,
                decreases region.window().len(),
            {
                let ghost w0 = region.window();
                let ghost l0 = region.rline();
                let ghost nl_pre: int = next_line_needed as int;
                let stepped = region.next();
                proof {
                    if w0.len() > 0 {
                        crate::walker::lemma_next_newline_in_range(w0, 0);
                        assert(crate::walker::next_line_start(w0, 0) >= 1);
                    }
                }
                let line = match stepped {
                    None => { break ; },
                    Some(line) => line,
                };
                if line.line_span.location.line >= next_line_needed {
                    let line_string = line.to_string();
                    out.append(line_string.as_str());
                    out.append("\n");
                    let this_line = line.line_span.location.line;
                    next_line_needed = this_line + 1;
                    let matching = collect_line_notes(&self.notes, this_line);
                    if matching.len() > 0 {
                        push_note_rows(&mut out, &matching, colored);
                        out.append("\n");
                    }
                    proof {
                        reveal_strlit("\n");
                        let this = strip_cr(w0.take(crate::walker::next_newline(w0, 0)));
                        let rest = w0.skip(crate::walker::next_line_start(w0, 0));
                        let tail = render_window_spec(rest, l0 + 1, all, colored, l0 + 1);
                        assert(render_window_spec(w0, l0, all, colored, nl_pre).0 == line_row(
                            l0,
                            this,
                            colored,
                        ) + "\n"@ + line_notes_block(all, l0, colored) + tail.0);
                        assert(render_window_spec(w0, l0, all, colored, nl_pre).1 == tail.1);
                    }
                } else {
                    proof {
                        assert(render_window_spec(w0, l0, all, colored, nl_pre)
                            == render_window_spec(
                            w0.skip(crate::walker::next_line_start(w0, 0)),
                            l0 + 1,
                            all,
                            colored,
                            nl_pre,
                        ));
                    }
                }
            }
            proof {
                assert(render_window_spec(
                    region.window(),
                    region.rline(),
                    all,
                    colored,
                    next_line_needed as int,
                ).0 =~= Seq::<char>::empty());
                assert(out@ =~= base + target.0);
                assert(all.take(i + 1) =~= all.take(i as int).push(all[i as int]));
                lemma_render_notes_push(all.take(i as int), all[i as int], all, text, colored, 0);
                assert(out@ =~= header + render_notes_spec(all.take(i + 1), all, text, colored, 0).0);
            }
            i += 1;
        }
        proof {
            assert(all.take(all.len() as int) =~= all);
            assert(out@ =~= report_spec(
                self.rlevel(),
                self.rcolored(),
                self.rmsg(),
                self.rprimary(),
                self.rnotes(),
                self.rwalker().source(),
            ));
        }
        out
    }
}

} // verus!

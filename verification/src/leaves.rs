//! The leaf parsers: primitive parsing functions that read the cursor
//! directly. Each returns either the span it matched, leaving the cursor
//! right past it, or a located error, leaving the cursor exactly where it
//! was.
use vstd::prelude::*;

verus! {

use crate::errors::ErrorKind;
use crate::errors::ParsingError;
use crate::location::Span;
use crate::text::char_utf8_len;
use crate::text::str_contains_char;
use crate::walker::FileWalker;
use crate::walker::advance_col;
use crate::walker::advance_line;
use crate::walker::col_through;
use crate::walker::lemma_decode_between;
use crate::walker::lemma_line_col_through_push;
use crate::walker::line_through;
use vstd::pervasive::unreached;
use vstd::string::StrSliceExecFns;
use vstd::string::StringSliceAdditionalSpecFns;
use vstd::utf8::encode_utf8;

/// True when the text starts with the given prefix.
pub open spec fn begins_with(text: Seq<char>, prefix: Seq<char>) -> bool {
    text.len() >= prefix.len() && text.take(prefix.len() as int) == prefix
}

/// Matches the literal `s` character by character. On a full match the
/// cursor stands right past it and the span covering it is returned; on
/// the first mismatch or early end of input the cursor is rolled back and
/// the error says the literal was expected at the attempt's start.
pub fn tag<'filedata>(s: &'static str, walker: FileWalker<'filedata>) -> (r: (
    FileWalker<'filedata>,
    Result<Span<'filedata>, ParsingError<'filedata>>,
))
    requires
        walker.wf(),
    ensures
        ({
            let (w2, res) = r;
            &&& w2.wf()
            &&& w2.same_source(walker)
            &&& match res {
                Ok(sp) => {
                    &&& begins_with(walker.remaining(), s@)
                    &&& sp.location.column == walker.col()
                    &&& sp.location.line == walker.line_no()
                    &&& sp.location.filename@ == walker.file()
                    &&& sp.data@ == s@
                    &&& sp.data.spec_bytes().len() == w2.idx() - walker.idx()
                    &&& w2.idx() == walker.idx() + encode_utf8(s@).len()
                    &&& w2.consumed() == walker.consumed() + s@
                    &&& w2.remaining() == walker.remaining().skip(s@.len() as int)
                    &&& w2.line_no() == line_through(walker.line_no(), s@)
                    &&& w2.col() == col_through(walker.col(), s@)
                },
                Err(e) => {
                    &&& !begins_with(walker.remaining(), s@)
                    &&& w2.same_state(walker)
                    &&& e.at(walker.col(), walker.line_no(), walker.file())
                    &&& (e.1 matches ErrorKind::ExpectedTag(t) && t@ == s@)
                },
            }
        }),
{
    proof {
        broadcast use crate::walker::lemma_walker_bytes;

    }
    let mut w = walker;
    let start = w.get_marker();
    let n = s.unicode_len();
    let mut i: usize = 0;
    proof {
        assert(s@.take(0) =~= Seq::<char>::empty());
        assert(walker.consumed() + s@.take(0) =~= walker.consumed());
        assert(walker.remaining().skip(0) =~= walker.remaining());
    }
    while i < n
        invariant
            walker.wf(),
            w.wf(),
            w.same_source(walker),
            0 <= i <= n,
            n == s@.len(),
            walker.idx() <= w.idx(),
            walker.remaining().len() >= i,
            walker.remaining().take(i as int) == s@.take(i as int),
            w.consumed() == walker.consumed() + s@.take(i as int),
            w.remaining() == walker.remaining().skip(i as int),
            w.line_no() == line_through(walker.line_no(), s@.take(i as int)),
            w.col() == col_through(walker.col(), s@.take(i as int)),
            start.midx() == walker.idx(),
            start.mcol() == walker.col(),
            start.mline() == walker.line_no(),
        decreases n - i,
    {
        let expected = s.get_char(i);
        let got = w.step();
        let matched = match got {
            Some(c) => c == expected,
            None => false,
        };
        if !matched {
            proof {
                if walker.remaining().len() >= n && walker.remaining().take(n as int) == s@ {
                    assert(walker.remaining().skip(i as int)[0] == walker.remaining()[i as int]);
                    assert(walker.remaining().take(n as int)[i as int] == walker.remaining()[i as int]);
                }
            }
            proof {
                broadcast use crate::walker::lemma_walker_bytes;

                assert(w.bytes() == walker.bytes());
                assert(crate::walker::marker_fits(start, w.bytes()));
            }
            let popped = w.pop_back(start);
            proof {
                broadcast use crate::walker::lemma_walker_bytes;

                assert(w.bytes() == walker.bytes());
            }
            let location = match w.get_location_of_marker(start) {
                Some(location) => location,
                None => unreached(),
            };
            return (w, Err(ParsingError(location, ErrorKind::ExpectedTag(s))));
        }
        proof {
            let c = s@[i as int];
            assert(walker.remaining().skip(i as int)[0] == walker.remaining()[i as int]);
            assert(s@.take(i + 1) =~= s@.take(i as int).push(c));
            assert(walker.remaining().take(i + 1) =~= walker.remaining().take(i as int).push(
                walker.remaining()[i as int],
            ));
            assert(walker.consumed() + s@.take(i + 1) =~= (walker.consumed() + s@.take(
                i as int,
            )).push(c));
            assert(walker.remaining().skip(i as int).drop_first() =~= walker.remaining().skip(
                i + 1,
            ));
            lemma_line_col_through_push(walker.line_no(), walker.col(), s@.take(i as int), c);
        }
        i += 1;
    }
    let sp = match w.span_from_marker_to_here(start) {
        Some(sp) => sp,
        None => unreached(),
    };
    proof {
        broadcast use crate::walker::lemma_walker_bytes;

        assert(s@.take(n as int) =~= s@);
        assert(walker.remaining().take(n as int) == s@);
        if walker.idx() < w.idx() {
            lemma_decode_between(walker.bytes(), walker.idx(), w.idx());
            let between = vstd::utf8::decode_utf8(walker.bytes().subrange(walker.idx(), w.idx()));
            assert(w.consumed() =~= walker.consumed() + between);
            assert(between =~= s@) by {
                assert(forall|k: int|
                    0 <= k < between.len() ==> between[k] == (walker.consumed() + between)[walker.consumed().len() + k]);
            }
        } else {
            assert(s@.len() == 0) by {
                assert(w.consumed() == walker.consumed() + s@);
                assert(walker.bytes().take(walker.idx()) =~= w.bytes().take(w.idx()));
            }
            assert(sp.data@ =~= s@);
        }
        assert(sp.data.spec_bytes() =~= encode_utf8(sp.data@));
    }
    (w, Ok(sp))
}

/// Matches exactly one character out of the given set. On a match the
/// cursor stands past that character; otherwise it is left untouched and
/// the error says one of the set was expected at the attempt's start.
pub fn one_of<'filedata>(s: &'static str, walker: FileWalker<'filedata>) -> (r: (
    FileWalker<'filedata>,
    Result<Span<'filedata>, ParsingError<'filedata>>,
))
    requires
        walker.wf(),
    ensures
        ({
            let (w2, res) = r;
            &&& w2.wf()
            &&& w2.same_source(walker)
            &&& match res {
                Ok(sp) => {
                    let c = walker.remaining()[0];
                    &&& walker.remaining().len() > 0
                    &&& s@.contains(c)
                    &&& sp.location.column == walker.col()
                    &&& sp.location.line == walker.line_no()
                    &&& sp.location.filename@ == walker.file()
                    &&& sp.data@ == seq![c]
                    &&& sp.data.spec_bytes().len() == w2.idx() - walker.idx()
                    &&& w2.idx() == walker.idx() + char_utf8_len(c)
                    &&& w2.consumed() == walker.consumed().push(c)
                    &&& w2.remaining() == walker.remaining().drop_first()
                    &&& w2.line_no() == advance_line(walker.line_no(), c)
                    &&& w2.col() == advance_col(walker.col(), c)
                },
                Err(e) => {
                    &&& !(walker.remaining().len() > 0 && s@.contains(walker.remaining()[0]))
                    &&& w2.same_state(walker)
                    &&& e.at(walker.col(), walker.line_no(), walker.file())
                    &&& (e.1 matches ErrorKind::ExpectedOneOf(t) && t@ == s@)
                },
            }
        }),
{
    proof {
        broadcast use crate::walker::lemma_walker_bytes;

    }
    let mut w = walker;
    let start = w.get_marker();
    let stepped = w.step();
    if let Some(c) = stepped {
        if str_contains_char(s, c) {
            let sp = match w.span_from_marker_to_here(start) {
                Some(sp) => sp,
                None => unreached(),
            };
            proof {
                broadcast use crate::walker::lemma_walker_bytes;

                lemma_decode_between(walker.bytes(), walker.idx(), w.idx());
                let between = vstd::utf8::decode_utf8(
                    walker.bytes().subrange(walker.idx(), w.idx()),
                );
                assert(w.consumed() =~= walker.consumed() + between);
                assert(walker.consumed().push(c) =~= walker.consumed() + seq![c]);
                assert(between =~= seq![c]) by {
                    assert(forall|k: int|
                        0 <= k < between.len() ==> between[k] == (walker.consumed() + between)[
                            walker.consumed().len() + k
                        ]);
                }
            }
            return (w, Ok(sp));
        }
    }
    proof {
        broadcast use crate::walker::lemma_walker_bytes;

        assert(w.bytes() == walker.bytes());
        assert(crate::walker::marker_fits(start, w.bytes()));
    }
    let popped = w.pop_back(start);
    proof {
        broadcast use crate::walker::lemma_walker_bytes;

        assert(w.bytes() == walker.bytes());
    }
    let location = match w.get_location_of_marker(start) {
        Some(location) => location,
        None => unreached(),
    };
    (w, Err(ParsingError(location, ErrorKind::ExpectedOneOf(s))))
}

/// Consumes exactly one character if it satisfies the predicate. On a
/// match the cursor stands past that character; otherwise it is left
/// untouched and the error names the expected class.
pub fn take_if<'filedata, F: Fn(char) -> bool>(f: F, kind: &'static str, walker: FileWalker<'filedata>) -> (r: (
    FileWalker<'filedata>,
    Result<Span<'filedata>, ParsingError<'filedata>>,
))
    requires
        walker.wf(),
        forall|c: char| call_requires(f, (c,)),
    ensures
        ({
            let (w2, res) = r;
            &&& w2.wf()
            &&& w2.same_source(walker)
            &&& match res {
                Ok(sp) => {
                    let c = walker.remaining()[0];
                    &&& walker.remaining().len() > 0
                    &&& call_ensures(f, (c,), true)
                    &&& sp.location.column == walker.col()
                    &&& sp.location.line == walker.line_no()
                    &&& sp.location.filename@ == walker.file()
                    &&& sp.data@ == seq![c]
                    &&& sp.data.spec_bytes().len() == w2.idx() - walker.idx()
                    &&& w2.idx() == walker.idx() + char_utf8_len(c)
                    &&& w2.consumed() == walker.consumed().push(c)
                    &&& w2.remaining() == walker.remaining().drop_first()
                    &&& w2.line_no() == advance_line(walker.line_no(), c)
                    &&& w2.col() == advance_col(walker.col(), c)
                },
                Err(e) => {
                    &&& walker.remaining().len() == 0 || call_ensures(
                        f,
                        (walker.remaining()[0],),
                        false,
                    )
                    &&& w2.same_state(walker)
                    &&& e.at(walker.col(), walker.line_no(), walker.file())
                    &&& (e.1 matches ErrorKind::ExpectedOneOfKind(t) && t@ == kind@)
                },
            }
        }),
{
    proof {
        broadcast use crate::walker::lemma_walker_bytes;

    }
    let mut w = walker;
    let start = w.get_marker();
    let stepped = w.step();
    if let Some(c) = stepped {
        if f(c) {
            let sp = match w.span_from_marker_to_here(start) {
                Some(sp) => sp,
                None => unreached(),
            };
            proof {
                broadcast use crate::walker::lemma_walker_bytes;

                lemma_decode_between(walker.bytes(), walker.idx(), w.idx());
                let between = vstd::utf8::decode_utf8(
                    walker.bytes().subrange(walker.idx(), w.idx()),
                );
                assert(w.consumed() =~= walker.consumed() + between);
                assert(walker.consumed().push(c) =~= walker.consumed() + seq![c]);
                assert(between =~= seq![c]) by {
                    assert(forall|k: int|
                        0 <= k < between.len() ==> between[k] == (walker.consumed() + between)[
                            walker.consumed().len() + k
                        ]);
                }
            }
            return (w, Ok(sp));
        }
    }
    proof {
        broadcast use crate::walker::lemma_walker_bytes;

        assert(w.bytes() == walker.bytes());
        assert(crate::walker::marker_fits(start, w.bytes()));
    }
    let popped = w.pop_back(start);
    proof {
        broadcast use crate::walker::lemma_walker_bytes;

        assert(w.bytes() == walker.bytes());
    }
    let location = match w.get_location_of_marker(start) {
        Some(location) => location,
        None => unreached(),
    };
    (w, Err(ParsingError(location, ErrorKind::ExpectedOneOfKind(kind))))
}

/// What a successful greedy run over `n` characters leaves behind: every
/// character before the stopping point satisfied the predicate, the one
/// at it (if any) did not, the span covers exactly those characters, and
/// the cursor stands right past them.
pub open spec fn took_prefix<'a, F: Fn(char) -> bool>(
    f: F,
    walker: FileWalker<'a>,
    w2: FileWalker<'a>,
    sp: Span<'a>,
    n: int,
) -> bool {
    &&& 1 <= n <= walker.remaining().len()
    &&& forall|j: int| 0 <= j < n ==> call_ensures(f, (walker.remaining()[j],), true)
    &&& (n == walker.remaining().len() || call_ensures(f, (walker.remaining()[n],), false))
    &&& sp.location.column == walker.col()
    &&& sp.location.line == walker.line_no()
    &&& sp.location.filename@ == walker.file()
    &&& sp.data@ == walker.remaining().take(n)
    &&& sp.data.spec_bytes().len() == w2.idx() - walker.idx()
    &&& w2.consumed() == walker.consumed() + walker.remaining().take(n)
    &&& w2.remaining() == walker.remaining().skip(n)
    &&& w2.line_no() == line_through(walker.line_no(), walker.remaining().take(n))
    &&& w2.col() == col_through(walker.col(), walker.remaining().take(n))
}

/// Greedily consumes characters satisfying the predicate, as long as any
/// input remains. Consuming none at all is the one failure: the cursor is
/// then untouched and the error names the expected class.
pub fn take_while<'filedata, F: Fn(char) -> bool>(f: F, kind: &'static str, walker: FileWalker<'filedata>) -> (r: (
    FileWalker<'filedata>,
    Result<Span<'filedata>, ParsingError<'filedata>>,
))
    requires
        walker.wf(),
        forall|c: char| call_requires(f, (c,)),
    ensures
        ({
            let (w2, res) = r;
            &&& w2.wf()
            &&& w2.same_source(walker)
            &&& match res {
                Ok(sp) => exists|n: int|
                    #![trigger walker.remaining().take(n)]
                    took_prefix(f, walker, w2, sp, n),
                Err(e) => {
                    &&& walker.remaining().len() == 0 || call_ensures(
                        f,
                        (walker.remaining()[0],),
                        false,
                    )
                    &&& w2.same_state(walker)
                    &&& e.at(walker.col(), walker.line_no(), walker.file())
                    &&& (e.1 matches ErrorKind::ExpectedKind(t) && t@ == kind@)
                },
            }
        }),
{
    proof {
        broadcast use crate::walker::lemma_walker_bytes;

    }
    let rem_str = walker.current_string();
    let mut w = walker;
    let start = w.get_marker();
    let total = rem_str.unicode_len();
    let mut i: usize = 0;
    let mut stopped = false;
    proof {
        assert(walker.remaining().take(0) =~= Seq::<char>::empty());
        assert(walker.consumed() + walker.remaining().take(0) =~= walker.consumed());
        assert(walker.remaining().skip(0) =~= walker.remaining());
    }
    while i < total && !stopped
        invariant
            walker.wf(),
            w.wf(),
            w.same_source(walker),
            0 <= i <= total,
            total == walker.remaining().len(),
            rem_str@ == walker.remaining(),
            walker.idx() <= w.idx(),
            forall|c: char| call_requires(f, (c,)),
            forall|j: int| 0 <= j < i ==> call_ensures(f, (walker.remaining()[j],), true),
            stopped ==> i < total && call_ensures(f, (walker.remaining()[i as int],), false),
            w.consumed() == walker.consumed() + walker.remaining().take(i as int),
            w.remaining() == walker.remaining().skip(i as int),
            w.line_no() == line_through(walker.line_no(), walker.remaining().take(i as int)),
            w.col() == col_through(walker.col(), walker.remaining().take(i as int)),
            start.midx() == walker.idx(),
            start.mcol() == walker.col(),
            start.mline() == walker.line_no(),
            i == 0 ==> w.same_state(walker),
        decreases total - i + if stopped {
            0int
        } else {
            1int
        },
    {
        let c = rem_str.get_char(i);
        if f(c) {
            proof {
                assert(walker.remaining().skip(i as int)[0] == walker.remaining()[i as int]);
                assert(walker.remaining().take(i + 1) =~= walker.remaining().take(i as int).push(
                    c,
                ));
                assert(walker.consumed() + walker.remaining().take(i + 1) =~= (walker.consumed()
                    + walker.remaining().take(i as int)).push(c));
                assert(walker.remaining().skip(i as int).drop_first() =~= walker.remaining().skip(
                    i + 1,
                ));
                lemma_line_col_through_push(
                    walker.line_no(),
                    walker.col(),
                    walker.remaining().take(i as int),
                    c,
                );
            }
            let _ = w.step();
            i += 1;
        } else {
            stopped = true;
        }
    }
    if i == 0 {
        let location = w.current_location();
        return (w, Err(ParsingError(location, ErrorKind::ExpectedKind(kind))));
    }
    let sp = match w.span_from_marker_to_here(start) {
        Some(sp) => sp,
        None => unreached(),
    };
    proof {
        broadcast use crate::walker::lemma_walker_bytes;

        lemma_decode_between(walker.bytes(), walker.idx(), w.idx());
        let between = vstd::utf8::decode_utf8(walker.bytes().subrange(walker.idx(), w.idx()));
        assert(w.consumed() =~= walker.consumed() + between);
        let taken = walker.remaining().take(i as int);
        assert(between =~= taken) by {
            assert(forall|k: int|
                0 <= k < between.len() ==> between[k] == (walker.consumed() + between)[
                    walker.consumed().len() + k
                ]);
            assert(forall|k: int|
                0 <= k < taken.len() ==> taken[k] == (walker.consumed() + taken)[
                    walker.consumed().len() + k
                ]);
        }
        let n0 = i as int;
        assert(1 <= n0 <= walker.remaining().len());
        assert(sp.data@ == walker.remaining().take(n0));
        assert(took_prefix(f, walker, w, sp, n0));
    }
    (w, Ok(sp))
}

/// Parsing a literal is a function of the cursor state alone: two runs of
/// `tag` with the same literal, from fresh cursors over the same source at
/// the same position, decide alike, move alike, and return the same span
/// or the same error — no hidden state affects the outcome.
pub proof fn lemma_tag_deterministic<'a>(
    s: &'static str,
    w1: FileWalker<'a>,
    w2: FileWalker<'a>,
    r1: (FileWalker<'a>, Result<Span<'a>, ParsingError<'a>>),
    r2: (FileWalker<'a>, Result<Span<'a>, ParsingError<'a>>),
)
    requires
        w1.wf(),
        w2.wf(),
        w1.same_state(w2),
        call_ensures(tag, (s, w1), r1),
        call_ensures(tag, (s, w2), r2),
    ensures
        r1.1 is Ok <==> r2.1 is Ok,
        r1.0.same_state(r2.0),
        r1.1 matches Ok(sp1) ==> (r2.1 matches Ok(sp2) && sp1.same_as(sp2)),
        r1.1 matches Err(e1) ==> (r2.1 matches Err(e2) && e1.same_as(e2)),
{
    broadcast use crate::walker::lemma_walker_bytes;

    assert(w1.bytes() == w2.bytes());
    assert(w1.remaining() == w2.remaining());
}

/// Matching one character of a set is a function of the cursor state
/// alone: two runs of `one_of` with the same set, from fresh cursors over
/// the same source at the same position, agree in every observable way.
pub proof fn lemma_one_of_deterministic<'a>(
    s: &'static str,
    w1: FileWalker<'a>,
    w2: FileWalker<'a>,
    r1: (FileWalker<'a>, Result<Span<'a>, ParsingError<'a>>),
    r2: (FileWalker<'a>, Result<Span<'a>, ParsingError<'a>>),
)
    requires
        w1.wf(),
        w2.wf(),
        w1.same_state(w2),
        call_ensures(one_of, (s, w1), r1),
        call_ensures(one_of, (s, w2), r2),
    ensures
        r1.1 is Ok <==> r2.1 is Ok,
        r1.0.same_state(r2.0),
        r1.1 matches Ok(sp1) ==> (r2.1 matches Ok(sp2) && sp1.same_as(sp2)),
        r1.1 matches Err(e1) ==> (r2.1 matches Err(e2) && e1.same_as(e2)),
{
    broadcast use crate::walker::lemma_walker_bytes;

    assert(w1.bytes() == w2.bytes());
    assert(w1.remaining() == w2.remaining());
}

/// Greedy repetition is a function of the cursor state and the predicate
/// alone: when the predicate itself answers each character one way only,
/// two runs of `take_while` from fresh cursors over the same source at
/// the same position consume the same stretch and agree in every
/// observable way.
pub proof fn lemma_take_while_deterministic<'a, F: Fn(char) -> bool>(
    f: F,
    kind: &'static str,
    w1: FileWalker<'a>,
    w2: FileWalker<'a>,
    r1: (FileWalker<'a>, Result<Span<'a>, ParsingError<'a>>),
    r2: (FileWalker<'a>, Result<Span<'a>, ParsingError<'a>>),
)
    requires
        w1.wf(),
        w2.wf(),
        w1.same_state(w2),
        forall|c: char, b1: bool, b2: bool|
            #[trigger] call_ensures(f, (c,), b1) && #[trigger] call_ensures(f, (c,), b2) ==> b1
                == b2,
        call_ensures(take_while::<F>, (f, kind, w1), r1),
        call_ensures(take_while::<F>, (f, kind, w2), r2),
    ensures
        r1.1 is Ok <==> r2.1 is Ok,
        r1.0.same_state(r2.0),
        r1.1 matches Ok(sp1) ==> (r2.1 matches Ok(sp2) && sp1.same_as(sp2)),
        r1.1 matches Err(e1) ==> (r2.1 matches Err(e2) && e1.same_as(e2)),
{
    broadcast use crate::walker::lemma_walker_bytes;

    assert(w1.bytes() == w2.bytes());
    assert(w1.remaining() == w2.remaining());
    let rem = w1.remaining();
    if r1.1 is Ok && r2.1 is Ok {
        let sp1 = r1.1->Ok_0;
        let sp2 = r2.1->Ok_0;
        let n1 = choose|n: int| took_prefix(f, w1, r1.0, sp1, n);
        let n2 = choose|n: int| took_prefix(f, w2, r2.0, sp2, n);
        assert(took_prefix(f, w1, r1.0, sp1, n1));
        assert(took_prefix(f, w2, r2.0, sp2, n2));
        // the stopping point is unique: before it the predicate said yes,
        // at it the predicate said no, and it answers one way only
        if n1 < n2 {
            assert(call_ensures(f, (rem[n1],), true));
            assert(call_ensures(f, (rem[n1],), false));
        }
        if n2 < n1 {
            assert(call_ensures(f, (rem[n2],), true));
            assert(call_ensures(f, (rem[n2],), false));
        }
        assert(n1 == n2);
        assert(sp1.data@ == sp2.data@);
        assert(sp1.data.spec_bytes() == encode_utf8(sp1.data@));
        assert(sp2.data.spec_bytes() == encode_utf8(sp2.data@));
    } else if r1.1 is Ok && r2.1 is Err {
        let sp1 = r1.1->Ok_0;
        let n1 = choose|n: int| took_prefix(f, w1, r1.0, sp1, n);
        assert(took_prefix(f, w1, r1.0, sp1, n1));
        assert(call_ensures(f, (rem[0],), true));
    } else if r1.1 is Err && r2.1 is Ok {
        let sp2 = r2.1->Ok_0;
        let n2 = choose|n: int| took_prefix(f, w2, r2.0, sp2, n);
        assert(took_prefix(f, w2, r2.0, sp2, n2));
        assert(call_ensures(f, (rem[0],), true));
    }
}

} // verus!

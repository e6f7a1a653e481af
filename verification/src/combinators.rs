//! The combinators: higher-order functions that compose parsing functions
//! into new parsing functions. A parsing function takes the cursor and
//! returns it together with either a parsed value or a located error; the
//! contracts here chain the parts' own contracts and state when a failure
//! restores the cursor.
use vstd::prelude::*;

verus! {

use crate::errors::ErrorKind;
use crate::errors::ParsingError;
use crate::location::Span;
use crate::text::str_eq;
use crate::walker::FileWalker;
use crate::walker::lemma_decode_between;
use crate::walker::lemma_walker_bytes;
use vstd::pervasive::unreached;
use vstd::string::StringSliceAdditionalSpecFns;
use vstd::utf8::decode_utf8;
use vstd::utf8::is_char_boundary;

/// The characters a run from cursor state `w0` to cursor state `w1` over
/// the same source stepped over.
pub open spec fn consumed_between<'a>(w0: FileWalker<'a>, w1: FileWalker<'a>) -> Seq<char> {
    decode_utf8(w0.bytes().subrange(w0.idx(), w1.idx()))
}

/// Every outcome of the parsing function keeps the source text and file
/// name, leaves the cursor well-formed, and never moves it backward.
pub open spec fn well_behaved<'a, A, F: Fn(FileWalker<'a>) -> (FileWalker<'a>, Result<
    A,
    ParsingError<'a>,
>)>(f: &F) -> bool {
    forall|w: FileWalker<'a>, r: (FileWalker<'a>, Result<A, ParsingError<'a>>)|
        #[trigger] call_ensures(*f, (w,), r) ==> r.0.same_source(w) && r.0.wf() && w.idx()
            <= r.0.idx()
}

/// Every failing outcome of the parsing function leaves the cursor in the
/// position it was called at: the atomicity contract.
pub open spec fn self_restoring<'a, A, F: Fn(FileWalker<'a>) -> (FileWalker<'a>, Result<
    A,
    ParsingError<'a>,
>)>(f: &F) -> bool {
    forall|w: FileWalker<'a>, r: (FileWalker<'a>, Result<A, ParsingError<'a>>)|
        #[trigger] call_ensures(*f, (w,), r) && r.1 is Err ==> r.0.same_state(w)
}

/// Every successful outcome of the parsing function moves the cursor
/// forward by at least one byte.
pub open spec fn consuming<'a, A, F: Fn(FileWalker<'a>) -> (FileWalker<'a>, Result<
    A,
    ParsingError<'a>,
>)>(f: &F) -> bool {
    forall|w: FileWalker<'a>, r: (FileWalker<'a>, Result<A, ParsingError<'a>>)|
        #[trigger] call_ensures(*f, (w,), r) && r.1 is Ok ==> w.idx() < r.0.idx()
}

/// The parsing function accepts any well-formed cursor over the same
/// source as `w`.
pub open spec fn accepts_anywhere<'a, A, F: Fn(FileWalker<'a>) -> (FileWalker<'a>, Result<
    A,
    ParsingError<'a>,
>)>(f: &F, w: FileWalker<'a>) -> bool {
    forall|wa: FileWalker<'a>|
        wa.wf() && wa.same_source(w) ==> #[trigger] call_requires(*f, (wa,))
}

/// What popping back to the position of `start` leaves of cursor state
/// `wb`: the position restored if `start`'s offset is a boundary of the
/// text `wb` walks, `wb` untouched otherwise.
pub open spec fn rolled_back_state<'a>(
    w2: FileWalker<'a>,
    wb: FileWalker<'a>,
    start: FileWalker<'a>,
) -> bool {
    &&& w2.same_source(wb)
    &&& if is_char_boundary(wb.bytes(), start.idx()) {
        w2.idx() == start.idx() && w2.col() == start.col() && w2.line_no() == start.line_no()
    } else {
        w2 == wb
    }
}

/// Runs the parsing function and transforms its value on success;
/// failures pass through untouched.
pub fn map<'a, A, B, P: Fn(FileWalker<'a>) -> (FileWalker<'a>, Result<A, ParsingError<'a>>), M: Fn(
    A,
) -> B>(combinator: P, f: M, walker: FileWalker<'a>) -> (r: (
    FileWalker<'a>,
    Result<B, ParsingError<'a>>,
))
    requires
        call_requires(combinator, (walker,)),
        forall|p: (FileWalker<'a>, Result<A, ParsingError<'a>>)|
            #[trigger] call_ensures(combinator, (walker,), p) && p.1 is Ok ==> call_requires(
                f,
                (p.1->Ok_0,),
            ),
    ensures
        r.1 matches Ok(b) ==> exists|w1: FileWalker<'a>, v: A|
            #![trigger call_ensures(combinator, (walker,), (w1, Result::<A, ParsingError<'a>>::Ok(v)))]
            call_ensures(combinator, (walker,), (w1, Result::<A, ParsingError<'a>>::Ok(v))) && w1
                == r.0 && call_ensures(f, (v,), b),
        r.1 matches Err(e) ==> call_ensures(
            combinator,
            (walker,),
            (r.0, Result::<A, ParsingError<'a>>::Err(e)),
        ),
        self_restoring(&combinator) && r.1 is Err ==> r.0.same_state(walker),
{
    let (w1, res) = combinator(walker);
    match res {
        Ok(v) => {
            proof {
                assert(call_ensures(
                    combinator,
                    (walker,),
                    (w1, Result::<A, ParsingError<'a>>::Ok(v)),
                ));
            }
            let b = f(v);
            (w1, Ok(b))
        },
        Err(e) => {
            proof {
                assert(call_ensures(
                    combinator,
                    (walker,),
                    (w1, Result::<A, ParsingError<'a>>::Err(e)),
                ));
            }
            (w1, Err(e))
        },
    }
}

/// Runs two parsing functions one after the other and pairs their values.
/// If the second fails, the cursor is popped back to where it stood
/// before the first ran, and the second's error is returned.
pub fn pair<'a, A, B, P1: Fn(FileWalker<'a>) -> (FileWalker<'a>, Result<A, ParsingError<'a>>), P2: Fn(
    FileWalker<'a>,
) -> (FileWalker<'a>, Result<B, ParsingError<'a>>)>(
    first: P1,
    second: P2,
    walker: FileWalker<'a>,
) -> (r: (FileWalker<'a>, Result<(A, B), ParsingError<'a>>))
    requires
        call_requires(first, (walker,)),
        forall|p: (FileWalker<'a>, Result<A, ParsingError<'a>>)|
            #[trigger] call_ensures(first, (walker,), p) && p.1 is Ok ==> call_requires(
                second,
                (p.0,),
            ),
    ensures
        r.1 matches Ok(ab) ==> exists|w1: FileWalker<'a>, a: A, w2: FileWalker<'a>, b: B|
            #![trigger call_ensures(first, (walker,), (w1, Result::<A, ParsingError<'a>>::Ok(a))), call_ensures(second, (w1,), (w2, Result::<B, ParsingError<'a>>::Ok(b)))]
            call_ensures(first, (walker,), (w1, Result::<A, ParsingError<'a>>::Ok(a)))
                && call_ensures(second, (w1,), (w2, Result::<B, ParsingError<'a>>::Ok(b))) && w2
                == r.0 && ab == (a, b),
        r.1 matches Err(e) ==> call_ensures(
            first,
            (walker,),
            (r.0, Result::<A, ParsingError<'a>>::Err(e)),
        ) || exists|w1: FileWalker<'a>, a: A, wb: FileWalker<'a>|
            #![trigger call_ensures(first, (walker,), (w1, Result::<A, ParsingError<'a>>::Ok(a))), call_ensures(second, (w1,), (wb, Result::<B, ParsingError<'a>>::Err(e)))]
            call_ensures(first, (walker,), (w1, Result::<A, ParsingError<'a>>::Ok(a)))
                && call_ensures(second, (w1,), (wb, Result::<B, ParsingError<'a>>::Err(e)))
                && rolled_back_state(r.0, wb, walker),
        walker.wf() && self_restoring(&first) && well_behaved(&first) && well_behaved(&second)
            && r.1 is Err ==> r.0.same_state(walker),
{
    proof {
        broadcast use lemma_walker_bytes;

    }
    let start = walker.get_marker();
    let (w1, res_a) = first(walker);
    match res_a {
        Err(e) => {
            proof {
                assert(call_ensures(first, (walker,), (w1, Result::<A, ParsingError<'a>>::Err(e))));
            }
            (w1, Err(e))
        },
        Ok(a) => {
            proof {
                assert(call_ensures(first, (walker,), (w1, Result::<A, ParsingError<'a>>::Ok(a))));
            }
            let (w2, res_b) = second(w1);
            match res_b {
                Err(e) => {
                    proof {
                        assert(call_ensures(
                            second,
                            (w1,),
                            (w2, Result::<B, ParsingError<'a>>::Err(e)),
                        ));
                    }
                    let mut wr = w2;
                    let popped = wr.pop_back(start);
                    (wr, Err(e))
                },
                Ok(b) => {
                    proof {
                        assert(call_ensures(
                            second,
                            (w1,),
                            (w2, Result::<B, ParsingError<'a>>::Ok(b)),
                        ));
                    }
                    (w2, Ok((a, b)))
                },
            }
        },
    }
}

/// Runs three parsing functions one after the other and bundles their
/// values. If a later one fails, the cursor is popped back to where it
/// stood before the first ran, and that error is returned.
pub fn triple<'a, A, B, C, P1: Fn(FileWalker<'a>) -> (FileWalker<'a>, Result<A, ParsingError<'a>>), P2: Fn(
    FileWalker<'a>,
) -> (FileWalker<'a>, Result<B, ParsingError<'a>>), P3: Fn(FileWalker<'a>) -> (
    FileWalker<'a>,
    Result<C, ParsingError<'a>>,
)>(first: P1, second: P2, third: P3, walker: FileWalker<'a>) -> (r: (
    FileWalker<'a>,
    Result<(A, B, C), ParsingError<'a>>,
))
    requires
        call_requires(first, (walker,)),
        forall|p: (FileWalker<'a>, Result<A, ParsingError<'a>>)|
            #[trigger] call_ensures(first, (walker,), p) && p.1 is Ok ==> call_requires(
                second,
                (p.0,),
            ),
        forall|p: (FileWalker<'a>, Result<A, ParsingError<'a>>), q: (
            FileWalker<'a>,
            Result<B, ParsingError<'a>>,
        )|
            #[trigger] call_ensures(first, (walker,), p) && p.1 is Ok && #[trigger] call_ensures(
                second,
                (p.0,),
                q,
            ) && q.1 is Ok ==> call_requires(third, (q.0,)),
    ensures
        r.1 matches Ok(abc) ==> exists|
            w1: FileWalker<'a>,
            a: A,
            w2: FileWalker<'a>,
            b: B,
            w3: FileWalker<'a>,
            c: C,
        |
            #![trigger call_ensures(first, (walker,), (w1, Result::<A, ParsingError<'a>>::Ok(a))), call_ensures(second, (w1,), (w2, Result::<B, ParsingError<'a>>::Ok(b))), call_ensures(third, (w2,), (w3, Result::<C, ParsingError<'a>>::Ok(c)))]
            call_ensures(first, (walker,), (w1, Result::<A, ParsingError<'a>>::Ok(a)))
                && call_ensures(second, (w1,), (w2, Result::<B, ParsingError<'a>>::Ok(b)))
                && call_ensures(third, (w2,), (w3, Result::<C, ParsingError<'a>>::Ok(c))) && w3
                == r.0 && abc == (a, b, c),
        r.1 matches Err(e) ==> {
            ||| call_ensures(first, (walker,), (r.0, Result::<A, ParsingError<'a>>::Err(e)))
            ||| exists|w1: FileWalker<'a>, a: A, wb: FileWalker<'a>|
                #![trigger call_ensures(first, (walker,), (w1, Result::<A, ParsingError<'a>>::Ok(a))), call_ensures(second, (w1,), (wb, Result::<B, ParsingError<'a>>::Err(e)))]
                call_ensures(first, (walker,), (w1, Result::<A, ParsingError<'a>>::Ok(a)))
                    && call_ensures(second, (w1,), (wb, Result::<B, ParsingError<'a>>::Err(e)))
                    && rolled_back_state(r.0, wb, walker)
            ||| exists|w1: FileWalker<'a>, a: A, w2: FileWalker<'a>, b: B, wb: FileWalker<'a>|
                #![trigger call_ensures(first, (walker,), (w1, Result::<A, ParsingError<'a>>::Ok(a))), call_ensures(second, (w1,), (w2, Result::<B, ParsingError<'a>>::Ok(b))), call_ensures(third, (w2,), (wb, Result::<C, ParsingError<'a>>::Err(e)))]
                call_ensures(first, (walker,), (w1, Result::<A, ParsingError<'a>>::Ok(a)))
                    && call_ensures(second, (w1,), (w2, Result::<B, ParsingError<'a>>::Ok(b)))
                    && call_ensures(third, (w2,), (wb, Result::<C, ParsingError<'a>>::Err(e)))
                    && rolled_back_state(r.0, wb, walker)
        },
        walker.wf() && self_restoring(&first) && well_behaved(&first) && well_behaved(&second)
            && well_behaved(&third) && r.1 is Err ==> r.0.same_state(walker),
{
    proof {
        broadcast use lemma_walker_bytes;

    }
    let start = walker.get_marker();
    let (w1, res_a) = first(walker);
    let value_a = match res_a {
        Err(e) => {
            proof {
                assert(call_ensures(first, (walker,), (w1, Result::<A, ParsingError<'a>>::Err(e))));
            }
            return (w1, Err(e));
        },
        Ok(a) => {
            proof {
                assert(call_ensures(first, (walker,), (w1, Result::<A, ParsingError<'a>>::Ok(a))));
            }
            a
        },
    };
    let (w2, res_b) = second(w1);
    let value_b = match res_b {
        Err(e) => {
            proof {
                assert(call_ensures(second, (w1,), (w2, Result::<B, ParsingError<'a>>::Err(e))));
            }
            let mut wr = w2;
            let popped = wr.pop_back(start);
            return (wr, Err(e));
        },
        Ok(b) => {
            proof {
                assert(call_ensures(second, (w1,), (w2, Result::<B, ParsingError<'a>>::Ok(b))));
            }
            b
        },
    };
    let (w3, res_c) = third(w2);
    match res_c {
        Err(e) => {
            proof {
                assert(call_ensures(third, (w2,), (w3, Result::<C, ParsingError<'a>>::Err(e))));
            }
            let mut wr = w3;
            let popped = wr.pop_back(start);
            (wr, Err(e))
        },
        Ok(c) => {
            proof {
                assert(call_ensures(third, (w2,), (w3, Result::<C, ParsingError<'a>>::Ok(c))));
            }
            (w3, Ok((value_a, value_b, c)))
        },
    }
}

/// Runs the parsing function and turns failure into an absent value; the
/// failed attempt restores the cursor by its own atomicity contract.
pub fn opt<'a, A, P: Fn(FileWalker<'a>) -> (FileWalker<'a>, Result<A, ParsingError<'a>>)>(
    first: P,
    walker: FileWalker<'a>,
) -> (r: (FileWalker<'a>, Result<Option<A>, ParsingError<'a>>))
    requires
        call_requires(first, (walker,)),
    ensures
        r.1 matches Ok(oa) ==> match oa {
            Some(a) => call_ensures(first, (walker,), (r.0, Result::<A, ParsingError<'a>>::Ok(a))),
            None => exists|w1: FileWalker<'a>, e: ParsingError<'a>|
                #![trigger call_ensures(first, (walker,), (w1, Result::<A, ParsingError<'a>>::Err(e)))]
                call_ensures(first, (walker,), (w1, Result::<A, ParsingError<'a>>::Err(e))) && w1
                    == r.0,
        },
        r.1 is Ok,
{
    let (w1, res) = first(walker);
    match res {
        Ok(a) => {
            proof {
                assert(call_ensures(first, (walker,), (w1, Result::<A, ParsingError<'a>>::Ok(a))));
            }
            (w1, Ok(Some(a)))
        },
        Err(e) => {
            proof {
                assert(call_ensures(first, (walker,), (w1, Result::<A, ParsingError<'a>>::Err(e))));
            }
            (w1, Ok(None))
        },
    }
}

/// Tries the first parsing function; if it fails, tries the second from
/// the position the first left (the first's own atomicity makes that the
/// shared starting position). Returns whichever succeeds first, or the
/// second's error if both fail.
pub fn alt<'a, A, P1: Fn(FileWalker<'a>) -> (FileWalker<'a>, Result<A, ParsingError<'a>>), P2: Fn(
    FileWalker<'a>,
) -> (FileWalker<'a>, Result<A, ParsingError<'a>>)>(
    first: P1,
    second: P2,
    walker: FileWalker<'a>,
) -> (r: (FileWalker<'a>, Result<A, ParsingError<'a>>))
    requires
        call_requires(first, (walker,)),
        forall|p: (FileWalker<'a>, Result<A, ParsingError<'a>>)|
            #[trigger] call_ensures(first, (walker,), p) && p.1 is Err ==> call_requires(
                second,
                (p.0,),
            ),
    ensures
        r.1 matches Ok(a) ==> call_ensures(
            first,
            (walker,),
            (r.0, Result::<A, ParsingError<'a>>::Ok(a)),
        ) || exists|w1: FileWalker<'a>, e1: ParsingError<'a>, w2: FileWalker<'a>|
            #![trigger call_ensures(first, (walker,), (w1, Result::<A, ParsingError<'a>>::Err(e1))), call_ensures(second, (w1,), (w2, Result::<A, ParsingError<'a>>::Ok(a)))]
            call_ensures(first, (walker,), (w1, Result::<A, ParsingError<'a>>::Err(e1)))
                && call_ensures(second, (w1,), (w2, Result::<A, ParsingError<'a>>::Ok(a))) && w2
                == r.0,
        r.1 matches Err(e) ==> exists|w1: FileWalker<'a>, e1: ParsingError<'a>, w2: FileWalker<'a>|
            #![trigger call_ensures(first, (walker,), (w1, Result::<A, ParsingError<'a>>::Err(e1))), call_ensures(second, (w1,), (w2, Result::<A, ParsingError<'a>>::Err(e)))]
            call_ensures(first, (walker,), (w1, Result::<A, ParsingError<'a>>::Err(e1)))
                && call_ensures(second, (w1,), (w2, Result::<A, ParsingError<'a>>::Err(e))) && w2
                == r.0,
        self_restoring(&first) && self_restoring(&second) && r.1 is Err ==> r.0.same_state(walker),
{
    let (w1, res) = first(walker);
    match res {
        Ok(a) => {
            proof {
                assert(call_ensures(first, (walker,), (w1, Result::<A, ParsingError<'a>>::Ok(a))));
            }
            (w1, Ok(a))
        },
        Err(e1) => {
            proof {
                assert(call_ensures(first, (walker,), (w1, Result::<A, ParsingError<'a>>::Err(e1))));
            }
            let (w2, res2) = second(w1);
            match res2 {
                Ok(a) => {
                    proof {
                        assert(call_ensures(
                            second,
                            (w1,),
                            (w2, Result::<A, ParsingError<'a>>::Ok(a)),
                        ));
                    }
                    (w2, Ok(a))
                },
                Err(e) => {
                    proof {
                        assert(call_ensures(
                            second,
                            (w1,),
                            (w2, Result::<A, ParsingError<'a>>::Err(e)),
                        ));
                    }
                    (w2, Err(e))
                },
            }
        },
    }
}

/// A fresh cursor scoped to exactly the text that a run from `w0` to
/// `w1` stepped over, positioned at its start.
pub open spec fn scoped_over<'a>(
    wi: FileWalker<'a>,
    w0: FileWalker<'a>,
    w1: FileWalker<'a>,
) -> bool {
    &&& wi.source() == consumed_between(w0, w1)
    &&& wi.file() == w0.file()
    &&& wi.idx() == 0
    &&& wi.wf()
}

/// Accepts what the first parsing function matches, except when the
/// second also matches the whole of that text: then the result is an
/// error carrying the matched text, located at the attempt's start, and
/// the cursor deliberately stays where the first parser left it — the
/// one documented exception to the atomicity rule, left to the caller's
/// own rollback.
pub fn but_not<'a, A, B, P1: Fn(FileWalker<'a>) -> (FileWalker<'a>, Result<A, ParsingError<'a>>), P2: Fn(
    FileWalker<'a>,
) -> (FileWalker<'a>, Result<B, ParsingError<'a>>)>(
    first: P1,
    second: P2,
    walker: FileWalker<'a>,
) -> (r: (FileWalker<'a>, Result<A, ParsingError<'a>>))
    requires
        walker.wf(),
        call_requires(first, (walker,)),
        well_behaved(&first),
        well_behaved(&second),
        forall|wa: FileWalker<'a>| wa.wf() ==> #[trigger] call_requires(second, (wa,)),
    ensures
        r.0.wf(),
        r.0.same_source(walker),
        r.1 matches Ok(a) ==> call_ensures(
            first,
            (walker,),
            (r.0, Result::<A, ParsingError<'a>>::Ok(a)),
        ) && exists|wi: FileWalker<'a>, q: (FileWalker<'a>, Result<B, ParsingError<'a>>)|
            #![trigger call_ensures(second, (wi,), q)]
            scoped_over(wi, walker, r.0) && call_ensures(second, (wi,), q) && (q.1 is Err || (q.1
                is Ok && q.0.remaining().len() > 0)),
        r.1 matches Err(e) ==> {
            ||| call_ensures(first, (walker,), (r.0, Result::<A, ParsingError<'a>>::Err(e)))
            ||| (exists|
                a: A,
                w1: FileWalker<'a>,
                wi: FileWalker<'a>,
                q: (FileWalker<'a>, Result<B, ParsingError<'a>>),
            |
                #![trigger call_ensures(first, (walker,), (w1, Result::<A, ParsingError<'a>>::Ok(a))), call_ensures(second, (wi,), q)]
                call_ensures(first, (walker,), (w1, Result::<A, ParsingError<'a>>::Ok(a))) && w1
                    == r.0 && scoped_over(wi, walker, r.0) && call_ensures(second, (wi,), q) && q.1
                    is Ok && q.0.remaining().len() == 0) && e.at(
                walker.col(),
                walker.line_no(),
                walker.file(),
            ) && (e.1 matches ErrorKind::InverseFailedGot(got) && got@ == consumed_between(
                walker,
                r.0,
            ))
        },
{
    proof {
        broadcast use lemma_walker_bytes;

    }
    let start = walker.get_marker();
    let (w1, res_a) = first(walker);
    let value = match res_a {
        Err(e) => {
            proof {
                assert(call_ensures(first, (walker,), (w1, Result::<A, ParsingError<'a>>::Err(e))));
            }
            return (w1, Err(e));
        },
        Ok(a) => {
            proof {
                assert(call_ensures(first, (walker,), (w1, Result::<A, ParsingError<'a>>::Ok(a))));
            }
            a
        },
    };
    let span = match w1.span_from_marker_to_here(start) {
        Some(sp) => sp,
        None => unreached(),
    };
    proof {
        if walker.idx() == w1.idx() {
            assert(walker.bytes().subrange(walker.idx(), w1.idx()) =~= Seq::<u8>::empty());
            assert(span.data@ =~= consumed_between(walker, w1));
            assert(span.data.spec_bytes() =~= walker.bytes().subrange(walker.idx(), w1.idx()));
        }
    }
    let inner = FileWalker::from_span(&span);
    let second_start = inner.get_marker();
    let (inner2, res_b) = second(inner);
    if res_b.is_ok() {
        proof {
            broadcast use lemma_walker_bytes;

            assert(call_ensures(second, (inner,), (inner2, res_b)));
        }
        let second_span = match inner2.span_from_marker_to_here(second_start) {
            Some(sp) => sp,
            None => unreached(),
        };
        proof {
            crate::walker::lemma_consumed_remaining(inner2);
            if inner2.idx() > 0 {
                lemma_decode_between(inner2.bytes(), 0, inner2.idx());
                assert(inner2.bytes().take(inner2.idx()) =~= inner2.bytes().subrange(
                    0,
                    inner2.idx(),
                ));
                assert(inner2.bytes().take(0) =~= Seq::<u8>::empty());
                assert(inner2.consumed() =~= second_span.data@);
            } else {
                assert(inner2.consumed() =~= second_span.data@);
            }
        }
        if str_eq(second_span.data, span.data) {
            proof {
                assert(inner2.remaining().len() == 0);
            }
            let location = match w1.get_location_of_marker(start) {
                Some(location) => location,
                None => unreached(),
            };
            return (w1, Err(ParsingError(location, ErrorKind::InverseFailedGot(span.data))));
        }
        proof {
            assert(inner2.remaining().len() > 0);
        }
    } else {
        proof {
            assert(call_ensures(second, (inner,), (inner2, res_b)));
        }
    }
    (w1, Ok(value))
}

/// Runs the parsing function for its movement of the cursor alone and
/// returns the span of whatever text it stepped over, discarding its
/// value; fails exactly when it fails.
pub fn accepts<'a, T, P: Fn(FileWalker<'a>) -> (FileWalker<'a>, Result<T, ParsingError<'a>>)>(
    combinator: P,
    walker: FileWalker<'a>,
) -> (r: (FileWalker<'a>, Result<Span<'a>, ParsingError<'a>>))
    requires
        walker.wf(),
        well_behaved(&combinator),
        call_requires(combinator, (walker,)),
    ensures
        r.0.wf(),
        r.0.same_source(walker),
        r.1 matches Ok(sp) ==> exists|w2: FileWalker<'a>, v: T|
            #![trigger call_ensures(combinator, (walker,), (w2, Result::<T, ParsingError<'a>>::Ok(v)))]
            call_ensures(combinator, (walker,), (w2, Result::<T, ParsingError<'a>>::Ok(v))) && w2
                == r.0 && sp.data@ == consumed_between(walker, r.0) && sp.data.spec_bytes().len()
                == r.0.idx() - walker.idx() && sp.location.filename@ == walker.file() && (
            walker.idx() < r.0.idx() ==> sp.location.column == walker.col() && sp.location.line
                == walker.line_no()) && (walker.idx() == r.0.idx() ==> sp.location.column
                == r.0.col() && sp.location.line == r.0.line_no()),
        r.1 matches Err(e) ==> call_ensures(
            combinator,
            (walker,),
            (r.0, Result::<T, ParsingError<'a>>::Err(e)),
        ),
        self_restoring(&combinator) && r.1 is Err ==> r.0.same_state(walker),
{
    proof {
        broadcast use lemma_walker_bytes;

    }
    let start = walker.get_marker();
    let (w1, res) = combinator(walker);
    match res {
        Err(e) => {
            proof {
                assert(call_ensures(
                    combinator,
                    (walker,),
                    (w1, Result::<T, ParsingError<'a>>::Err(e)),
                ));
            }
            (w1, Err(e))
        },
        Ok(v) => {
            proof {
                assert(call_ensures(
                    combinator,
                    (walker,),
                    (w1, Result::<T, ParsingError<'a>>::Ok(v)),
                ));
            }
            let sp = match w1.span_from_marker_to_here(start) {
                Some(sp) => sp,
                None => unreached(),
            };
            proof {
                if walker.idx() == w1.idx() {
                    assert(walker.bytes().subrange(walker.idx(), w1.idx()) =~= Seq::<u8>::empty());
                    assert(sp.data@ =~= consumed_between(walker, w1));
                    assert(sp.data.spec_bytes() =~= walker.bytes().subrange(
                        walker.idx(),
                        w1.idx(),
                    ));
                }
            }
            (w1, Ok(sp))
        },
    }
}

/// One or more successful runs of the parsing function, each starting
/// where the last ended.
pub open spec fn reaches<'a, A, F: Fn(FileWalker<'a>) -> (FileWalker<'a>, Result<
    A,
    ParsingError<'a>,
>)>(f: &F, w0: FileWalker<'a>, w1: FileWalker<'a>, n: int) -> bool
    decreases n,
{
    if n <= 0 {
        w1 == w0
    } else {
        exists|wm: FileWalker<'a>, a: A|
            #![trigger call_ensures(*f, (wm,), (w1, Result::<A, ParsingError<'a>>::Ok(a)))]
            reaches(f, w0, wm, n - 1) && call_ensures(
                *f,
                (wm,),
                (w1, Result::<A, ParsingError<'a>>::Ok(a)),
            )
    }
}

/// Runs the parsing function over and over until it fails — at least
/// once, else its first error is the result — and returns the span of
/// the total region stepped over. Each successful run must move the
/// cursor forward, so the repetition comes to an end.
pub fn accepts_while<'a, T, P: Fn(FileWalker<'a>) -> (FileWalker<'a>, Result<T, ParsingError<'a>>)>(
    combinator: P,
    walker: FileWalker<'a>,
) -> (r: (FileWalker<'a>, Result<Span<'a>, ParsingError<'a>>))
    requires
        walker.wf(),
        well_behaved(&combinator),
        consuming(&combinator),
        accepts_anywhere(&combinator, walker),
    ensures
        r.0.wf(),
        r.0.same_source(walker),
        r.1 matches Ok(sp) ==> {
            &&& sp.location.column == walker.col()
            &&& sp.location.line == walker.line_no()
            &&& sp.location.filename@ == walker.file()
            &&& sp.data@ == consumed_between(walker, r.0)
            &&& sp.data.spec_bytes().len() == r.0.idx() - walker.idx()
            &&& exists|n: int, wl: FileWalker<'a>, wfin: FileWalker<'a>, e: ParsingError<'a>|
                #![trigger reaches(&combinator, walker, wl, n), call_ensures(combinator, (wl,), (wfin, Result::<T, ParsingError<'a>>::Err(e)))]
                n >= 1 && reaches(&combinator, walker, wl, n) && call_ensures(
                    combinator,
                    (wl,),
                    (wfin, Result::<T, ParsingError<'a>>::Err(e)),
                ) && wfin == r.0
        },
        r.1 matches Err(e) ==> call_ensures(
            combinator,
            (walker,),
            (r.0, Result::<T, ParsingError<'a>>::Err(e)),
        ),
        self_restoring(&combinator) && r.1 is Err ==> r.0.same_state(walker),
{
    proof {
        broadcast use lemma_walker_bytes;

    }
    let start = walker.get_marker();
    let (w1, res1) = combinator(walker);
    match res1 {
        Err(e) => {
            proof {
                assert(call_ensures(
                    combinator,
                    (walker,),
                    (w1, Result::<T, ParsingError<'a>>::Err(e)),
                ));
            }
            return (w1, Err(e));
        },
        Ok(a) => {
            proof {
                assert(call_ensures(
                    combinator,
                    (walker,),
                    (w1, Result::<T, ParsingError<'a>>::Ok(a)),
                ));
                assert(reaches(&combinator, walker, walker, 0));
                assert(reaches(&combinator, walker, w1, 1));
            }
        },
    }
    let mut wc = w1;
    let ghost mut n: int = 1;
    loop
        invariant
            walker.wf(),
            wc.wf(),
            wc.same_source(walker),
            walker.idx() < wc.idx(),
            well_behaved(&combinator),
            consuming(&combinator),
            accepts_anywhere(&combinator, walker),
            n >= 1,
            reaches(&combinator, walker, wc, n),
            start.midx() == walker.idx(),
            start.mcol() == walker.col(),
            start.mline() == walker.line_no(),
        decreases walker.bytes().len() - wc.idx(),
    {
        let (wn, resn) = combinator(wc);
        match resn {
            Ok(a) => {
                proof {
                    broadcast use lemma_walker_bytes;

                    assert(call_ensures(
                        combinator,
                        (wc,),
                        (wn, Result::<T, ParsingError<'a>>::Ok(a)),
                    ));
                    assert(reaches(&combinator, walker, wn, n + 1));
                    assert(wc.idx() < wn.idx());
                    assert(wn.bytes() == walker.bytes());
                    n = n + 1;
                }
                wc = wn;
            },
            Err(e) => {
                proof {
                    broadcast use lemma_walker_bytes;

                    assert(call_ensures(
                        combinator,
                        (wc,),
                        (wn, Result::<T, ParsingError<'a>>::Err(e)),
                    ));
                }
                let sp = match wn.span_from_marker_to_here(start) {
                    Some(sp) => sp,
                    None => unreached(),
                };
                return (wn, Ok(sp));
            },
        }
    }
}

} // verus!

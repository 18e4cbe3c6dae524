use vstd::prelude::*;

verus! {

use vstd::slice::slice_subrange;
use vstd::string::StringSliceAdditionalSpecFns;
use vstd::slice::slice_index_get;

/// One piece of a split line: its byte range in the line and the bytes.
pub struct Match<'a> {
    pub start: usize,
    pub end: usize,
    pub slice: &'a [u8],
}

/// First index in `[i, stop]` whose byte fails `p`, or `stop`.
pub open spec fn run_end(s: Seq<u8>, p: spec_fn(u8) -> bool, i: int, stop: int) -> int
    recommends
        0 <= i <= stop <= s.len(),
    decreases stop - i,
{
    if 0 <= i < stop <= s.len() && p(s[i]) {
        run_end(s, p, i + 1, stop)
    } else {
        i
    }
}

/// The complement of a byte predicate.
pub open spec fn negp(p: spec_fn(u8) -> bool) -> spec_fn(u8) -> bool {
    |x: u8| !p(x)
}

pub proof fn lemma_run_end_step(s: Seq<u8>, p: spec_fn(u8) -> bool, i: int, stop: int)
    requires
        0 <= i < stop <= s.len(),
        p(s[i]),
    ensures
        run_end(s, p, i, stop) == run_end(s, p, i + 1, stop),
{
}

pub proof fn lemma_run_end_stop(s: Seq<u8>, p: spec_fn(u8) -> bool, i: int, stop: int)
    requires
        0 <= i <= stop <= s.len(),
        i == stop || !p(s[i]),
    ensures
        run_end(s, p, i, stop) == i,
{
}

/// A cursor that hands out the separated pieces of a line, at most a
/// given number of them, the last one running to the line's end.
pub struct Split<'a, F: Fn(u8) -> bool> {
    pub slice: &'a [u8],
    pub start: usize,
    pub end: usize,
    pub done: bool,
    pub max: Option<usize>,
    pub pred: F,
    pub gp: Ghost<spec_fn(u8) -> bool>,
}

impl<'a, F: Fn(u8) -> bool> Split<'a, F> {
    /// The separator test can be called on any byte and decides, on every
    /// byte, exactly as the ghost predicate says.
    pub open spec fn wf(&self) -> bool {
        &&& self.start <= self.end
        &&& self.end == self.slice@.len()
        &&& forall|b: u8| #[trigger] self.pred.requires((b,))
        &&& forall|b: u8, rr: bool| self.pred.ensures((b,), rr) ==> rr == (self.gp@)(b)
    }

    /// The next piece: separators are skipped, then the piece runs to the
    /// next separator — or to the line's end when the piece quota is down
    /// to its last. Empty pieces yield nothing.
    pub fn next(&mut self) -> (r: Option<Match<'a>>)
        requires
            old(self).wf(),
        ensures
            final(self).wf(),
            final(self).slice == old(self).slice,
            final(self).end == old(self).end,
            final(self).gp == old(self).gp,
            old(self).done ==> *final(self) == *old(self) && r is None,
            !old(self).done ==> ({
                let s = old(self).slice@;
                let p = old(self).gp@;
                let stop = old(self).end as int;
                let a = run_end(s, p, old(self).start as int, stop);
                let b = run_end(s, negp(p), a, stop);
                let limited = old(self).max matches Some(mx) && mx <= 1;
                let e2 = if limited {
                    stop
                } else {
                    b
                };
                &&& final(self).start == b
                &&& final(self).done == (b == stop || limited)
                &&& final(self).max == (match old(self).max {
                    Some(mx) => if mx <= 1 {
                        Some(mx)
                    } else {
                        Some((mx - 1) as usize)
                    },
                    None => None::<usize>,
                })
                &&& (match r {
                    None => a == e2,
                    Some(mt) => a < e2 && mt.start == a && mt.end == e2 && mt.slice@
                        == s.subrange(a, e2),
                })
            }),
    {
        if self.done {
            return None;
        }
        let ghost s = self.slice@;
        let ghost p = self.gp@;
        let ghost stop = self.end as int;
        let ghost sl0 = self.slice;
        let ghost m0 = self.max;
        let ghost start0 = self.start as int;
        loop
            invariant
                self.wf(),
                self.slice == sl0,
                self.gp@ == p,
                self.max == m0,
                !self.done,
                s == self.slice@,
                stop == self.end as int,
                start0 <= self.start,
                run_end(s, p, start0, stop) == run_end(s, p, self.start as int, stop),
            ensures
                self.wf(),
                self.slice == sl0,
                self.gp@ == p,
                self.max == m0,
                !self.done,
                self.start as int == run_end(s, p, start0, stop),
            decreases stop - self.start,
        {
            if self.start == self.end {
                proof {
                    lemma_run_end_stop(s, p, self.start as int, stop);
                }
                break;
            }
            let b = *slice_index_get(self.slice, self.start);
            let sep = (self.pred)(b);
            if !sep {
                proof {
                    lemma_run_end_stop(s, p, self.start as int, stop);
                }
                break;
            }
            proof {
                lemma_run_end_step(s, p, self.start as int, stop);
            }
            self.start = self.start + 1;
        }
        let a = self.start;
        loop
            invariant
                self.wf(),
                self.slice == sl0,
                self.gp@ == p,
                self.max == m0,
                !self.done,
                s == self.slice@,
                stop == self.end as int,
                a <= self.start,
                run_end(s, negp(p), a as int, stop) == run_end(s, negp(p), self.start as int, stop),
            ensures
                self.wf(),
                self.slice == sl0,
                self.gp@ == p,
                self.max == m0,
                !self.done,
                a <= self.start,
                self.start as int == run_end(s, negp(p), a as int, stop),
            decreases stop - self.start,
        {
            if self.start == self.end {
                proof {
                    lemma_run_end_stop(s, negp(p), self.start as int, stop);
                }
                break;
            }
            let b = *slice_index_get(self.slice, self.start);
            let sep = (self.pred)(b);
            if sep {
                proof {
                    assert(!(negp(p)(s[self.start as int])));
                    lemma_run_end_stop(s, negp(p), self.start as int, stop);
                }
                break;
            }
            proof {
                assert(negp(p)(s[self.start as int]));
                lemma_run_end_step(s, negp(p), self.start as int, stop);
            }
            self.start = self.start + 1;
        }
        let mut piece_end = self.start;
        if self.start == self.end {
            self.done = true;
        }
        match self.max {
            Some(mx) => {
                if mx <= 1 {
                    piece_end = self.end;
                    self.done = true;
                } else {
                    self.max = Some(mx - 1);
                }
            },
            None => {},
        }
        if a == piece_end {
            return None;
        }
        Some(Match { start: a, end: piece_end, slice: slice_subrange(self.slice, a, piece_end) })
    }
}

/// Splits `s` at the bytes that `p` marks, handing out at most `n`
/// pieces; the last one runs to the end of the line. The ghost predicate
/// must agree with `p` on every byte.
pub fn split_n<'a, F: Fn(u8) -> bool>(
    s: &'a str,
    n: usize,
    p: F,
    Ghost(gp): Ghost<spec_fn(u8) -> bool>,
) -> (r: Split<'a, F>)
    requires
        forall|b: u8| #[trigger] p.requires((b,)),
        forall|b: u8, rr: bool| p.ensures((b,), rr) ==> rr == gp(b),
    ensures
        r.wf(),
        r.gp@ == gp,
        r.slice@ == s.spec_bytes(),
        r.start == 0,
        r.done == (n == 0),
        r.max == Some(n),
{
    let bytes = s.as_bytes();
    Split {
        slice: bytes,
        start: 0,
        end: bytes.len(),
        done: n == 0,
        max: Some(n),
        pred: p,
        gp: Ghost(gp),
    }
}

/// Splits `s` at the bytes that `p` marks, with no bound on the number of
/// pieces.
pub fn split<'a, F: Fn(u8) -> bool>(
    s: &'a str,
    p: F,
    Ghost(gp): Ghost<spec_fn(u8) -> bool>,
) -> (r: Split<'a, F>)
    requires
        forall|b: u8| #[trigger] p.requires((b,)),
        forall|b: u8, rr: bool| p.ensures((b,), rr) ==> rr == gp(b),
    ensures
        r.wf(),
        r.gp@ == gp,
        r.slice@ == s.spec_bytes(),
        r.start == 0,
        !r.done,
        r.max is None,
{
    let bytes = s.as_bytes();
    Split { slice: bytes, start: 0, end: bytes.len(), done: false, max: None, pred: p, gp: Ghost(gp) }
}

pub open spec fn is_space_byte(b: u8) -> bool {
    b == 32 || b == 9 || b == 10
}

/// Splits `s` at spaces, tabs and newlines into at most `n` pieces.
pub fn split_n_whitespace<'a>(s: &'a str, n: usize) -> (r: Split<'a, impl Fn(u8) -> bool>)
    ensures
        r.wf(),
        r.gp@ == (|b: u8| is_space_byte(b)),
        r.slice@ == s.spec_bytes(),
        r.start == 0,
        r.done == (n == 0),
        r.max == Some(n),
{
    split_n(
        s,
        n,
        (|b: u8| -> (rr: bool)
            ensures
                rr == is_space_byte(b),
            { b == 32 || b == 9 || b == 10 }),
        Ghost(|b: u8| is_space_byte(b)),
    )
}

} // verus!

//! Tokenizer and grammar of the search syntax.
//!
//! Space-separated terms (all must match), `"quoted phrases"`, `*` and `?`
//! wildcards anchored to the whole name, path terms (a term with `\` or `/`),
//! and the functions `ext:`, `size:`, `path:`, `file:`, `folder:`, `case:`.
//! The operators `|` and `!` are rejected. Unknown `func:` prefixes are plain
//! text. Terms are folded when the query ignores case.

use crate::buffers;
use crate::buffers::CodePointBuf;
use crate::fold;
use crate::text;
use crate::wtf8;
use vstd::prelude::*;
use vstd::string::StringExecFns;
use vstd::utf8::*;

verus! {

/// One element of a wildcard pattern.
#[derive(Clone, Copy, Debug, PartialEq, Eq, Structural)]
pub enum GlobTok {
    Lit(u32),
    /// `?`: exactly one code point.
    AnyOne,
    /// `*`: any run of code points, the empty one included.
    AnyRun,
}

/// A compiled wildcard pattern, matched against a whole name.
#[derive(Clone, Debug, PartialEq, Eq)]
pub struct Wildcard {
    tokens: Vec<GlobTok>,
}

/// The text is one that the pattern describes.
pub open spec fn glob(pat: Seq<GlobTok>, text: Seq<u32>) -> bool
    decreases pat.len(),
{
    if pat.len() == 0 {
        text.len() == 0
    } else {
        match pat[0] {
            GlobTok::Lit(c) => text.len() > 0 && text[0] == c && glob(
                pat.drop_first(),
                text.drop_first(),
            ),
            GlobTok::AnyOne => text.len() > 0 && glob(pat.drop_first(), text.drop_first()),
            GlobTok::AnyRun => exists|k: int|
                0 <= k <= text.len() && glob(
                    pat.drop_first(),
                    #[trigger] text.subrange(k, text.len() as int),
                ),
        }
    }
}

/// The pattern from `p` on describes the text from `t` on.
spec fn glob_at(pat: Seq<GlobTok>, p: int, text: Seq<u32>, t: int) -> bool {
    glob(pat.subrange(p, pat.len() as int), text.subrange(t, text.len() as int))
}

proof fn lemma_glob_unfold(pat: Seq<GlobTok>, p: int, text: Seq<u32>, t: int)
    requires
        0 <= p <= pat.len(),
        0 <= t <= text.len(),
    ensures
        p == pat.len() ==> glob_at(pat, p, text, t) == (t == text.len()),
        p < pat.len() ==> match pat[p] {
            GlobTok::Lit(c) => glob_at(pat, p, text, t) == (t < text.len() && text[t] == c
                && glob_at(pat, p + 1, text, t + 1)),
            GlobTok::AnyOne => glob_at(pat, p, text, t) == (t < text.len() && glob_at(
                pat,
                p + 1,
                text,
                t + 1,
            )),
            GlobTok::AnyRun => glob_at(pat, p, text, t) == (exists|j: int|
                t <= j <= text.len() && #[trigger] glob_at(pat, p + 1, text, j)),
        },
{
    let ps = pat.subrange(p, pat.len() as int);
    let ts = text.subrange(t, text.len() as int);
    if p < pat.len() {
        assert(ps[0] == pat[p]);
        assert(ps.drop_first() =~= pat.subrange(p + 1, pat.len() as int));
        match pat[p] {
            GlobTok::AnyRun => {
                if glob_at(pat, p, text, t) {
                    let k = choose|k: int|
                        0 <= k <= ts.len() && glob(
                            ps.drop_first(),
                            #[trigger] ts.subrange(k, ts.len() as int),
                        );
                    assert(ts.subrange(k, ts.len() as int) =~= text.subrange(
                        t + k,
                        text.len() as int,
                    ));
                    assert(glob_at(pat, p + 1, text, t + k));
                }
                if exists|j: int|
                    t <= j <= text.len() && #[trigger] glob_at(pat, p + 1, text, j) {
                    let j = choose|j: int|
                        t <= j <= text.len() && #[trigger] glob_at(pat, p + 1, text, j);
                    assert(ts.subrange(j - t, ts.len() as int) =~= text.subrange(
                        j,
                        text.len() as int,
                    ));
                    assert(glob(ps.drop_first(), ts.subrange(j - t, ts.len() as int)));
                }
            },
            _ => {
                if t < text.len() {
                    assert(ts[0] == text[t]);
                    assert(ts.drop_first() =~= text.subrange(t + 1, text.len() as int));
                }
            },
        }
    }
}

/// A stretch of the pattern without `*` takes as many code points as it has
/// elements.
proof fn lemma_glob_skip(pat: Seq<GlobTok>, a: int, b: int, text: Seq<u32>, t: int)
    requires
        0 <= a <= b <= pat.len(),
        0 <= t <= text.len(),
        glob_at(pat, a, text, t),
        forall|k: int| a <= k < b ==> pat[k] != GlobTok::AnyRun,
    ensures
        t + (b - a) <= text.len(),
        glob_at(pat, b, text, t + (b - a)),
    decreases b - a,
{
    if a < b {
        lemma_glob_unfold(pat, a, text, t);
        assert(pat[a] != GlobTok::AnyRun);
        lemma_glob_skip(pat, a + 1, b, text, t + 1);
    }
}

/// Iterative match with backtracking on `*`.
fn glob_match(pat: &[GlobTok], text: &[u32]) -> (r: bool)
    ensures
        r == glob(pat@, text@),
{
    let mut ti: usize = 0;
    let mut pi: usize = 0;
    let mut starred = false;
    let mut sp: usize = 0;
    let mut st: usize = 0;
    let ghost whole = glob(pat@, text@);
    proof {
        assert(pat@.subrange(0, pat@.len() as int) =~= pat@);
        assert(text@.subrange(0, text@.len() as int) =~= text@);
    }
    while ti < text.len()
        invariant
            ti <= text@.len(),
            pi <= pat@.len(),
            whole == glob(pat@, text@),
            !starred ==> sp == 0 && st == 0,
            starred ==> sp <= pi && st <= ti && pi - sp == ti - st && forall|k: int|
                sp <= k < pi ==> pat@[k] != GlobTok::AnyRun,
            whole <==> (glob_at(pat@, pi as int, text@, ti as int) || (starred && exists|j: int|
                st < j <= text@.len() && #[trigger] glob_at(pat@, sp as int, text@, j))),
        decreases
                pat@.len() - sp,
                text@.len() - st,
                pat@.len() - pi + text@.len() - ti,
    {
        proof {
            lemma_glob_unfold(pat@, pi as int, text@, ti as int);
        }
        let step: u8 = if pi < pat.len() {
            match pat[pi] {
                GlobTok::Lit(c) => if c == text[ti] {
                    1
                } else {
                    0
                },
                GlobTok::AnyOne => 1,
                GlobTok::AnyRun => 2,
            }
        } else {
            0
        };
        if step == 1 {
            pi = pi + 1;
            ti = ti + 1;
        } else if step == 2 {
            proof {
                if starred {
                    assert forall|j: int|
                        st < j <= text@.len() && glob_at(pat@, sp as int, text@, j) implies glob_at(
                        pat@,
                        pi as int,
                        text@,
                        ti as int,
                    ) by {
                        lemma_glob_skip(pat@, sp as int, pi as int, text@, j);
                        let j2 = j + (pi - sp);
                        lemma_glob_unfold(pat@, pi as int, text@, j2);
                        let m = choose|m: int|
                            j2 <= m <= text@.len() && #[trigger] glob_at(pat@, pi + 1, text@, m);
                        assert(ti <= m);
                        assert(glob_at(pat@, pi + 1, text@, m));
                    }
                }
            }
            starred = true;
            sp = pi + 1;
            st = ti;
            pi = pi + 1;
            proof {
                assert(whole <==> exists|j: int|
                    ti <= j <= text@.len() && #[trigger] glob_at(pat@, pi as int, text@, j));
                if whole {
                    let j = choose|j: int|
                        ti <= j <= text@.len() && #[trigger] glob_at(pat@, pi as int, text@, j);
                    assert(j == ti || st < j);
                }
            }
        } else {
            assert(!glob_at(pat@, pi as int, text@, ti as int));
            if starred {
                pi = sp;
                ti = st + 1;
                proof {
                    if whole {
                        let j = choose|j: int|
                            st < j <= text@.len() && #[trigger] glob_at(
                                pat@,
                                sp as int,
                                text@,
                                j,
                            );
                        assert(j == st + 1 || st + 1 < j);
                    }
                }
                st = st + 1;
            } else {
                return false;
            }
        }
    }
    proof {
        if starred {
            assert forall|j: int| st < j <= text@.len() implies !#[trigger] glob_at(
                pat@,
                sp as int,
                text@,
                j,
            ) by {
                if glob_at(pat@, sp as int, text@, j) {
                    lemma_glob_skip(pat@, sp as int, pi as int, text@, j);
                }
            }
        }
    }
    while pi < pat.len() && pat[pi] == GlobTok::AnyRun
        invariant
            pi <= pat@.len(),
            ti == text@.len(),
            whole == glob_at(pat@, pi as int, text@, ti as int),
        decreases pat@.len() - pi,
    {
        proof {
            lemma_glob_unfold(pat@, pi as int, text@, ti as int);
            if glob_at(pat@, pi + 1, text@, ti as int) {
                assert(exists|j: int|
                    ti <= j <= text@.len() && #[trigger] glob_at(pat@, pi + 1, text@, j));
            }
        }
        pi = pi + 1;
    }
    proof {
        lemma_glob_unfold(pat@, pi as int, text@, ti as int);
    }
    pi == pat.len()
}

/// The elements of a pattern, given its code points: `*` and `?` are
/// wildcards, a run of `*` counts once, everything else stands for itself.
pub open spec fn glob_tokens(cps: Seq<u32>) -> Seq<GlobTok>
    decreases cps.len(),
{
    if cps.len() == 0 {
        seq![]
    } else {
        let before = glob_tokens(cps.drop_last());
        if cps.last() == 0x2A {
            if before.len() > 0 && before.last() == GlobTok::AnyRun {
                before
            } else {
                before.push(GlobTok::AnyRun)
            }
        } else if cps.last() == 0x3F {
            before.push(GlobTok::AnyOne)
        } else {
            before.push(GlobTok::Lit(cps.last()))
        }
    }
}

/// The pattern elements from `a` to `b` are all literals.
pub open spec fn literal_run(pat: Seq<GlobTok>, a: int, b: int) -> bool {
    0 <= a <= b <= pat.len() && forall|k: int| a <= k < b ==> #[trigger] pat[k] is Lit
}

/// The bytes of the literals from `a` to `b`.
pub open spec fn run_bytes(pat: Seq<GlobTok>, a: int, b: int) -> Seq<u8>
    decreases b - a,
{
    if a >= b {
        seq![]
    } else {
        run_bytes(pat, a, b - 1) + wtf8::cp_bytes(pat[b - 1]->Lit_0)
    }
}

/// `best` is the first of the runs of literals with the most bytes.
pub open spec fn longest_run(pat: Seq<GlobTok>, best: Seq<u8>) -> bool {
    exists|a: int, b: int|
        {
            &&& #[trigger] literal_run(pat, a, b)
            &&& best == run_bytes(pat, a, b)
            &&& forall|c: int, d: int| #[trigger]
                literal_run(pat, c, d) ==> run_bytes(pat, c, d).len() <= best.len() && (d < b
                    ==> run_bytes(pat, c, d).len() < best.len())
        }
}

/// Code points that can be encoded.
pub open spec fn in_range(pat: Seq<GlobTok>) -> bool {
    forall|k: int| 0 <= k < pat.len() ==> (#[trigger] pat[k] matches GlobTok::Lit(c) ==> c <= 0x10FFFF)
}

proof fn lemma_run_bytes_grow(pat: Seq<GlobTok>, a: int, m: int, b: int)
    requires
        literal_run(pat, a, b),
        a <= m <= b,
    ensures
        run_bytes(pat, m, b).len() <= run_bytes(pat, a, b).len(),
        run_bytes(pat, a, m).len() <= run_bytes(pat, a, b).len(),
        m < b ==> run_bytes(pat, a, m).len() < run_bytes(pat, a, b).len(),
    decreases b - m,
{
    if m < b {
        lemma_run_bytes_grow(pat, a, m, b - 1);
    } else {
        assert(run_bytes(pat, m, b) =~= Seq::<u8>::empty());
    }
}

impl Wildcard {
    pub closed spec fn tokens(&self) -> Seq<GlobTok> {
        self.tokens@
    }

    /// Every literal of the pattern can be encoded.
    pub closed spec fn wf(&self) -> bool {
        in_range(self.tokens@)
    }

    /// Compiles a pattern whose bytes are already folded if the query ignores
    /// case.
    pub fn compile(pattern: &[u8]) -> (w: Wildcard)
        ensures
            w.wf(),
            w.tokens() == glob_tokens(wtf8::decode(pattern@)),
    {
        let mut tokens: Vec<GlobTok> = Vec::new();
        let mut points = wtf8::CodePoints::new(pattern);
        let ghost mut done: Seq<u32> = seq![];
        assert(done + points.rest() =~= wtf8::decode(pattern@));
        loop
            invariant
                points.wf(),
                points.bytes() == pattern@,
                0 <= points.pos() <= pattern@.len(),
                done + points.rest() == wtf8::decode(pattern@),
                tokens@ == glob_tokens(done),
                in_range(tokens@),
            ensures
                tokens@ == glob_tokens(wtf8::decode(pattern@)),
                in_range(tokens@),
            decreases pattern@.len() - points.pos(),
        {
            let ghost before = points.rest();
            match points.next() {
                None => {
                    assert(done + before =~= done);
                    break;
                },
                Some(cp) => {
                    proof {
                        assert(done.push(cp).drop_last() =~= done);
                        assert(done.push(cp) + points.rest() =~= done + (seq![cp] + points.rest()));
                        done = done.push(cp);
                    }
                    if cp == 0x2A {
                        let n = tokens.len();
                        if n == 0 || tokens[n - 1] != GlobTok::AnyRun {
                            tokens.push(GlobTok::AnyRun);
                        }
                    } else if cp == 0x3F {
                        tokens.push(GlobTok::AnyOne);
                    } else {
                        tokens.push(GlobTok::Lit(cp));
                    }
                },
            }
        }
        Wildcard { tokens }
    }

    /// Matches the whole of `name`, decoding it into the caller's reusable
    /// buffer, whose earlier contents are lost.
    pub fn matches_into(&self, name: &[u8], buf: &mut CodePointBuf) -> (r: bool)
        ensures
            r == glob(self.tokens(), wtf8::decode(name@)),
            buffers::points_of(*final(buf)) == wtf8::decode(name@),
    {
        buffers::clear_points(buf);
        let mut points = wtf8::CodePoints::new(name);
        assert(buffers::points_of(*buf) + points.rest() =~= wtf8::decode(name@));
        loop
            invariant
                points.wf(),
                points.bytes() == name@,
                0 <= points.pos() <= name@.len(),
                buffers::points_of(*buf) + points.rest() == wtf8::decode(name@),
            ensures
                buffers::points_of(*buf) == wtf8::decode(name@),
            decreases name@.len() - points.pos(),
        {
            let ghost before = points.rest();
            let ghost sofar = buffers::points_of(*buf);
            match points.next() {
                None => {
                    assert(sofar + before =~= sofar);
                    break;
                },
                Some(cp) => {
                    buffers::push_point(buf, cp);
                    assert(sofar.push(cp) + points.rest() =~= sofar + (seq![cp] + points.rest()));
                },
            }
        }
        glob_match(self.tokens.as_slice(), buffers::point_slice(buf))
    }

    /// Matches the whole of `name` with a buffer of its own.
    pub fn matches(&self, name: &[u8]) -> (r: bool)
        ensures
            r == glob(self.tokens(), wtf8::decode(name@)),
    {
        let mut buf = CodePointBuf::new();
        self.matches_into(name, &mut buf)
    }

    /// The longest run of literal characters in the pattern, as WTF-8 bytes;
    /// `None` if the pattern is all wildcards.
    pub fn longest_literal(&self) -> (r: Option<Vec<u8>>)
        requires
            self.wf(),
        ensures
            r is None <==> forall|k: int| 0 <= k < self.tokens().len() ==> !(self.tokens()[k] is Lit),
            r matches Some(best) ==> best@.len() > 0 && longest_run(self.tokens(), best@),
    {
        let mut best: Vec<u8> = Vec::new();
        let mut run: Vec<u8> = Vec::new();
        let n = self.tokens.len();
        let ghost pat = self.tokens@;
        let mut i: usize = 0;
        let ghost mut start: int = 0;
        let ghost mut ba: int = 0;
        let ghost mut bb: int = 0;
        while i < n
            invariant
                i <= n,
                n == self.tokens@.len(),
                pat == self.tokens@,
                in_range(pat),
                0 <= start <= i,
                literal_run(pat, start, i as int),
                run@ == run_bytes(pat, start, i as int),
                start > 0 ==> !(pat[start - 1] is Lit),
                literal_run(pat, ba, bb),
                best@ == run_bytes(pat, ba, bb),
                0 <= ba <= bb <= start,
                forall|c: int, d: int| #[trigger]
                    literal_run(pat, c, d) && d <= start ==> run_bytes(pat, c, d).len()
                        <= best@.len() && (d < bb ==> run_bytes(pat, c, d).len() < best@.len()),
                best@.len() == 0 ==> bb == 0,
            decreases n - i,
        {
            match self.tokens[i] {
                GlobTok::Lit(cp) => {
                    assert(pat[i as int] is Lit);
                    wtf8::encode_code_point(cp, &mut run);
                },
                _ => {
                    let ghost old_best = best@;
                    let ghost old_bb = bb;
                    proof {
                        lemma_runs_before(pat, start, i as int);
                    }
                    if run.len() > best.len() {
                        best = run;
                        proof {
                            ba = start;
                            bb = i as int;
                        }
                    }
                    run = Vec::new();
                    proof {
                        assert forall|c: int, d: int| #[trigger]
                            literal_run(pat, c, d) && d <= i + 1 implies run_bytes(pat, c, d).len()
                            <= best@.len() && (d < bb ==> run_bytes(pat, c, d).len()
                            < best@.len()) by {
                            lemma_run_end(pat, start, i as int, c, d);
                            if d == i + 1 {
                                assert(c == d || !(pat[d - 1] is Lit));
                                assert(run_bytes(pat, c, d).len() == 0);
                            }
                        }
                        start = i + 1;
                        assert(run@ =~= run_bytes(pat, start, start));
                    }
                },
            }
            i = i + 1;
        }
        proof {
            lemma_runs_before(pat, start, n as int);
        }
        if run.len() > best.len() {
            best = run;
            proof {
                ba = start;
                bb = n as int;
            }
        }
        proof {
            assert forall|c: int, d: int| #[trigger] literal_run(pat, c, d) implies run_bytes(
                pat,
                c,
                d,
            ).len() <= best@.len() && (d < bb ==> run_bytes(pat, c, d).len() < best@.len()) by {
                lemma_run_end(pat, start, n as int, c, d);
            }
            assert(longest_run(pat, best@));
        }
        if best.len() == 0 {
            proof {
                assert forall|k: int| 0 <= k < pat.len() implies !(pat[k] is Lit) by {
                    if pat[k] is Lit {
                        assert(literal_run(pat, k, k + 1));
                        assert(run_bytes(pat, k, k) =~= Seq::<u8>::empty());
                        assert(run_bytes(pat, k, k + 1).len() > 0);
                    }
                }
            }
            None
        } else {
            proof {
                if forall|k: int| 0 <= k < pat.len() ==> !(pat[k] is Lit) {
                    if ba < bb {
                        assert(pat[ba] is Lit);
                    }
                }
            }
            Some(best)
        }
    }
}

/// Of the runs that end inside the run from `start` to `end`, none is longer
/// than that run, and those that end earlier are shorter.
proof fn lemma_runs_before(pat: Seq<GlobTok>, start: int, end: int)
    requires
        literal_run(pat, start, end),
        start > 0 ==> !(pat[start - 1] is Lit),
    ensures
        forall|c: int, d: int| #[trigger]
            literal_run(pat, c, d) && start < d <= end && c < d ==> start <= c && run_bytes(
                pat,
                c,
                d,
            ).len() <= run_bytes(pat, start, end).len() && (d < end ==> run_bytes(pat, c, d).len()
                < run_bytes(pat, start, end).len()),
{
    assert forall|c: int, d: int| #[trigger]
        literal_run(pat, c, d) && start < d <= end && c < d implies start <= c && run_bytes(
        pat,
        c,
        d,
    ).len() <= run_bytes(pat, start, end).len() && (d < end ==> run_bytes(pat, c, d).len()
        < run_bytes(pat, start, end).len()) by {
        if c < start {
            assert(pat[start - 1] is Lit);
        }
        lemma_run_bytes_grow(pat, start, d, end);
        assert(literal_run(pat, start, d));
        lemma_run_bytes_grow(pat, start, c, d);
    }
}

/// A run of literals ends before `start`, inside the run from `start` to
/// `end`, behind it, or is empty.
proof fn lemma_run_end(pat: Seq<GlobTok>, start: int, end: int, c: int, d: int)
    requires
        literal_run(pat, start, end),
        literal_run(pat, c, d),
        start > 0 ==> !(pat[start - 1] is Lit),
    ensures
        c == d ==> run_bytes(pat, c, d).len() == 0,
        c < d && start < d <= end ==> start <= c && run_bytes(pat, c, d).len() <= run_bytes(
            pat,
            start,
            end,
        ).len() && (d < end ==> run_bytes(pat, c, d).len() < run_bytes(pat, start, end).len()),
{
    lemma_runs_before(pat, start, end);
}

/// `needle` occurs in `hay`.
pub open spec fn contains_bytes(hay: Seq<u8>, needle: Seq<u8>) -> bool {
    exists|i: int|
        0 <= i && i + needle.len() <= hay.len() && #[trigger] hay.subrange(i, i + needle.len())
            == needle
}

/// A match of the whole pattern is at every element of it at some place of
/// the text.
proof fn lemma_glob_reaches(pat: Seq<GlobTok>, p: int, text: Seq<u32>)
    requires
        glob(pat, text),
        0 <= p <= pat.len(),
    ensures
        exists|t: int| 0 <= t <= text.len() && #[trigger] glob_at(pat, p, text, t),
    decreases p,
{
    if p == 0 {
        assert(pat.subrange(0, pat.len() as int) =~= pat);
        assert(text.subrange(0, text.len() as int) =~= text);
        assert(glob_at(pat, 0, text, 0));
    } else {
        lemma_glob_reaches(pat, p - 1, text);
        let t = choose|t: int| 0 <= t <= text.len() && #[trigger] glob_at(pat, p - 1, text, t);
        lemma_glob_unfold(pat, p - 1, text, t);
        match pat[p - 1] {
            GlobTok::AnyRun => {},
            _ => {
                assert(glob_at(pat, p, text, t + 1));
            },
        }
    }
}

/// The literals from `a` to `b` stand in the text where the match is at `a`.
proof fn lemma_glob_literals(pat: Seq<GlobTok>, a: int, b: int, text: Seq<u32>, t: int)
    requires
        literal_run(pat, a, b),
        0 <= t <= text.len(),
        glob_at(pat, a, text, t),
    ensures
        t + (b - a) <= text.len(),
        run_bytes(pat, a, b) == wtf8::cps_bytes(text.subrange(t, t + (b - a))),
        glob_at(pat, b, text, t + (b - a)),
    decreases b - a,
{
    if a == b {
        assert(text.subrange(t, t) =~= Seq::<u32>::empty());
    } else {
        assert(literal_run(pat, a, b - 1));
        lemma_glob_literals(pat, a, b - 1, text, t);
        let m = t + (b - 1 - a);
        lemma_glob_unfold(pat, b - 1, text, m);
        assert(pat[b - 1] is Lit);
        wtf8::lemma_cps_bytes_push(text.subrange(t, m), text[m]);
        assert(text.subrange(t, m).push(text[m]) =~= text.subrange(t, m + 1));
    }
}

/// A well-formed name that matches a pattern contains the pattern's longest
/// literal, so that literal can drive a prefilter.
pub proof fn law_match_contains_longest_literal(pat: Seq<GlobTok>, name: Seq<u8>, best: Seq<u8>)
    requires
        glob(pat, wtf8::decode(name)),
        name == wtf8::cps_bytes(wtf8::decode(name)),
        longest_run(pat, best),
    ensures
        contains_bytes(name, best),
{
    let text = wtf8::decode(name);
    let (a, b) = choose|a: int, b: int|
        #[trigger] literal_run(pat, a, b) && best == run_bytes(pat, a, b);
    lemma_glob_reaches(pat, a, text);
    let t = choose|t: int| 0 <= t <= text.len() && #[trigger] glob_at(pat, a, text, t);
    lemma_glob_literals(pat, a, b, text, t);
    let m = t + (b - a);
    let front = text.subrange(0, t);
    let mid = text.subrange(t, m);
    let back = text.subrange(m, text.len() as int);
    assert(front + mid + back =~= text);
    wtf8::lemma_cps_bytes_concat(front + mid, back);
    wtf8::lemma_cps_bytes_concat(front, mid);
    let i = wtf8::cps_bytes(front).len() as int;
    assert(name.subrange(i, i + best.len()) =~= best);
}

#[derive(Clone, Copy, Debug, PartialEq, Eq, Structural)]
pub enum Kind {
    File,
    Folder,
}

/// An inclusive range of sizes in bytes.
#[derive(Clone, Copy, Debug, PartialEq, Eq, Structural)]
pub struct SizeRange {
    pub min: u64,
    pub max: u64,
}

impl SizeRange {
    pub fn contains(self, n: u64) -> (r: bool)
        ensures
            r == (self.min <= n <= self.max),
    {
        self.min <= n && n <= self.max
    }
}

/// Filters that are not text.
#[derive(Clone, Debug, PartialEq, Eq)]
pub struct Filters {
    /// Extensions to accept, folded and without the leading dot. Absence is
    /// `None`, never an empty list.
    pub ext: Option<Vec<Vec<u8>>>,
    pub size: Option<SizeRange>,
    pub kind: Option<Kind>,
}

impl Default for Filters {
    fn default() -> (f: Filters)
        ensures
            f.ext is None,
            f.size is None,
            f.kind is None,
    {
        Filters { ext: None, size: None, kind: None }
    }
}

/// A parsed query.
#[derive(Clone, Debug, PartialEq, Eq)]
pub struct ParsedQuery {
    /// Substrings of the name, all of which must occur.
    pub name_terms: Vec<Vec<u8>>,
    /// Substrings of the full path, all of which must occur.
    pub path_terms: Vec<Vec<u8>>,
    /// Patterns for the whole name, all of which must match.
    pub wildcards: Vec<Wildcard>,
    pub filters: Filters,
    pub match_case: bool,
}

/// What a parsed query asks for.
#[verifier::ext_equal]
pub ghost struct QueryModel {
    pub name_terms: Seq<Seq<u8>>,
    pub path_terms: Seq<Seq<u8>>,
    pub wildcards: Seq<Seq<GlobTok>>,
    pub ext: Option<Seq<Seq<u8>>>,
    pub size: Option<SizeRange>,
    pub kind: Option<Kind>,
    pub match_case: bool,
}

pub open spec fn byte_lists(v: Seq<Vec<u8>>) -> Seq<Seq<u8>> {
    v.map_values(|x: Vec<u8>| x@)
}

pub open spec fn pattern_lists(v: Seq<Wildcard>) -> Seq<Seq<GlobTok>> {
    v.map_values(|x: Wildcard| x.tokens())
}

impl ParsedQuery {
    pub open spec fn model(&self) -> QueryModel {
        QueryModel {
            name_terms: byte_lists(self.name_terms@),
            path_terms: byte_lists(self.path_terms@),
            wildcards: pattern_lists(self.wildcards@),
            ext: match self.filters.ext {
                Some(e) => Some(byte_lists(e@)),
                None => None,
            },
            size: self.filters.size,
            kind: self.filters.kind,
            match_case: self.match_case,
        }
    }

    /// Every wildcard is well formed.
    pub open spec fn wf(&self) -> bool {
        forall|k: int| 0 <= k < self.wildcards@.len() ==> (#[trigger] self.wildcards@[k]).wf()
    }

    /// There is no positive text constraint: the query matches everything
    /// that passes its filters.
    pub fn is_text_empty(&self) -> (r: bool)
        ensures
            r == (self.model().name_terms.len() == 0 && self.model().path_terms.len() == 0
                && self.model().wildcards.len() == 0),
    {
        self.name_terms.len() == 0 && self.path_terms.len() == 0 && self.wildcards.len() == 0
    }
}

/// A query that cannot be executed as written.
#[derive(Clone, Debug, PartialEq, Eq)]
pub enum QueryError {
    UnsupportedOperator(char),
    Malformed { what: &'static str, detail: String },
}

/// What is wrong with a query.
#[verifier::ext_equal]
pub ghost enum ErrorModel {
    Operator(char),
    Malformed(Seq<char>, Seq<char>),
}

/// The message of a query error.
pub open spec fn error_text(e: ErrorModel) -> Seq<char> {
    match e {
        ErrorModel::Operator(c) => "operator '"@ + seq![c]
            + "' is not supported yet; quote it to search for it literally (e.g. \"a"@ + seq![c]
            + "b\")"@,
        ErrorModel::Malformed(what, detail) => "malformed "@ + what + ": "@ + detail,
    }
}

impl QueryError {
    pub open spec fn model(&self) -> ErrorModel {
        match self {
            QueryError::UnsupportedOperator(c) => ErrorModel::Operator(*c),
            QueryError::Malformed { what, detail } => ErrorModel::Malformed(what@, detail@),
        }
    }

    /// The error in words.
    pub fn message(&self) -> (s: String)
        ensures
            s@ == error_text(self.model()),
    {
        let mut s;
        match self {
            QueryError::UnsupportedOperator(c) => {
                s = String::from_str("operator '");
                s.push(*c);
                s.append("' is not supported yet; quote it to search for it literally (e.g. \"a");
                s.push(*c);
                s.append("b\")");
            },
            QueryError::Malformed { what, detail } => {
                s = String::from_str("malformed ");
                s.append(what);
                s.append(": ");
                s.append(detail.as_str());
            },
        }
        assert(s@ =~= error_text(self.model()));
        s
    }
}

/// The `case:` directive of a token: `case:` and `case:1` turn case
/// sensitivity on, `case:0` turns it off, anything else is none.
pub open spec fn case_switch(t: Seq<char>) -> Option<bool> {
    let l = text::lower_text(t);
    if l == "case:"@ || l == "case:1"@ {
        Some(true)
    } else if l == "case:0"@ {
        Some(false)
    } else {
        None
    }
}

fn case_directive(chars: &[char]) -> (r: Option<bool>)
    ensures
        r == case_switch(chars@),
{
    let l = text::to_lower(chars);
    if text::same(l.as_slice(), "case:") || text::same(l.as_slice(), "case:1") {
        Some(true)
    } else if text::same(l.as_slice(), "case:0") {
        Some(false)
    } else {
        None
    }
}

/// One token of a query: its text without quotes, and whether it had any.
#[verifier::ext_equal]
pub ghost struct Tok {
    pub text: Seq<char>,
    pub quoted: bool,
}

/// The character at `i` stands inside double quotes: the quotes before it are
/// odd in number.
pub open spec fn quoted_at(s: Seq<char>, i: int) -> bool
    decreases i,
{
    if i <= 0 {
        false
    } else if s[i - 1] == '"' {
        !quoted_at(s, i - 1)
    } else {
        quoted_at(s, i - 1)
    }
}

/// The character at `i` separates tokens.
pub open spec fn breaks_at(s: Seq<char>, i: int) -> bool {
    !quoted_at(s, i) && text::is_space(s[i])
}

/// The character at `i` is an operator that is not supported.
pub open spec fn operator_at(s: Seq<char>, i: int) -> bool {
    !quoted_at(s, i) && (s[i] == '|' || s[i] == '!')
}

/// The characters without the double quotes.
pub open spec fn unquoted(s: Seq<char>) -> Seq<char>
    decreases s.len(),
{
    if s.len() == 0 {
        s
    } else if s.last() == '"' {
        unquoted(s.drop_last())
    } else {
        unquoted(s.drop_last()).push(s.last())
    }
}

/// The token written in the characters from `a` to `b`, if there are any.
pub open spec fn token_of(s: Seq<char>, a: int, b: int) -> Seq<Tok> {
    if a < b {
        seq![
            Tok {
                text: unquoted(s.subrange(a, b)),
                quoted: exists|k: int| a <= k < b && s[k] == '"',
            },
        ]
    } else {
        seq![]
    }
}

/// The tokens from `start` on, where none of the characters from `start` to
/// `i` separates.
pub open spec fn tokens_from(s: Seq<char>, start: int, i: int) -> Seq<Tok>
    decreases s.len() - i,
{
    if i >= s.len() {
        token_of(s, start, i)
    } else if breaks_at(s, i) {
        token_of(s, start, i) + tokens_from(s, i + 1, i + 1)
    } else {
        tokens_from(s, start, i + 1)
    }
}

/// The tokens of a query: its stretches between separators.
pub open spec fn tokens_of(s: Seq<char>) -> Seq<Tok> {
    tokens_from(s, 0, 0)
}

/// No character of the query is an unquoted operator.
pub open spec fn operator_free(s: Seq<char>) -> bool {
    forall|k: int| 0 <= k < s.len() ==> !operator_at(s, k)
}

/// `c` is the first unquoted operator of the query.
pub open spec fn first_operator(s: Seq<char>, c: char) -> bool {
    exists|k: int|
        {
            &&& 0 <= k < s.len()
            &&& #[trigger] operator_at(s, k)
            &&& s[k] == c
            &&& forall|j: int| 0 <= j < k ==> !operator_at(s, j)
        }
}

struct Token {
    text: Vec<char>,
    quoted: bool,
}

impl Token {
    spec fn tok(&self) -> Tok {
        Tok { text: self.text@, quoted: self.quoted }
    }
}

spec fn toks(v: Seq<Token>) -> Seq<Tok> {
    v.map_values(|t: Token| t.tok())
}

/// Splits at white space outside double quotes, and rejects the unsupported
/// operators where they stand outside quotes.
fn tokenize(s: &[char]) -> (r: Result<Vec<Token>, QueryError>)
    ensures
        match r {
            Ok(v) => operator_free(s@) && toks(v@) == tokens_of(s@),
            Err(e) => e matches QueryError::UnsupportedOperator(c) && first_operator(s@, c),
        },
{
    let mut tokens: Vec<Token> = Vec::new();
    let mut cur: Vec<char> = Vec::new();
    let mut in_quotes = false;
    let mut token_quoted = false;
    let mut has_content = false;
    let mut i: usize = 0;
    let ghost mut start: int = 0;
    assert(toks(tokens@) + tokens_from(s@, 0, 0) =~= tokens_of(s@));
    assert(s@.subrange(0, 0) =~= Seq::<char>::empty());
    while i < s.len()
        invariant
            0 <= start <= i <= s@.len(),
            toks(tokens@) + tokens_from(s@, start, i as int) == tokens_of(s@),
            in_quotes == quoted_at(s@, i as int),
            cur@ == unquoted(s@.subrange(start, i as int)),
            token_quoted == (exists|k: int| start <= k < i && s@[k] == '"'),
            has_content == (start < i),
            in_quotes ==> has_content,
            forall|k: int| 0 <= k < i ==> !operator_at(s@, k),
        decreases s@.len() - i,
    {
        let ch = s[i];
        let ghost here = s@.subrange(start, i as int);
        proof {
            assert(s@.subrange(start, i + 1) =~= here.push(ch));
            assert(here.push(ch).drop_last() =~= here);
        }
        if ch == '"' {
            in_quotes = !in_quotes;
            token_quoted = true;
            has_content = true;
            assert(s@[i as int] == '"');
        } else if in_quotes {
            cur.push(ch);
        } else if ch == '|' || ch == '!' {
            assert(operator_at(s@, i as int));
            return Err(QueryError::UnsupportedOperator(ch));
        } else if text::space(ch) {
            let ghost before = toks(tokens@);
            let ghost rest = tokens_from(s@, i + 1, i + 1);
            if has_content {
                let token = Token { text: cur, quoted: token_quoted };
                proof {
                    assert(seq![token.tok()] =~= token_of(s@, start, i as int));
                    assert(toks(tokens@.push(token)) =~= before.push(token.tok()));
                    assert(before.push(token.tok()) + rest =~= before + (seq![token.tok()] + rest));
                }
                tokens.push(token);
                cur = Vec::new();
                token_quoted = false;
                has_content = false;
            } else {
                assert(token_of(s@, start, i as int) + rest =~= rest);
            }
            proof {
                start = i + 1;
                assert(s@.subrange(start, i + 1) =~= Seq::<char>::empty());
            }
        } else {
            cur.push(ch);
            has_content = true;
        }
        i = i + 1;
    }
    if has_content {
        let token = Token { text: cur, quoted: token_quoted };
        proof {
            assert(seq![token.tok()] =~= token_of(s@, start, i as int));
            assert(toks(tokens@.push(token)) =~= toks(tokens@) + seq![token.tok()]);
        }
        tokens.push(token);
    } else {
        assert(toks(tokens@) + token_of(s@, start, i as int) =~= toks(tokens@));
    }
    Ok(tokens)
}

pub const KB: u64 = 1024;

pub const MB: u64 = 1024 * KB;

pub const GB: u64 = 1024 * MB;

pub const TB: u64 = 1024 * GB;

/// The number and the unit of a byte count, both in lower case.
pub open spec fn split_unit(l: Seq<char>) -> (Seq<char>, u64) {
    if text::ends(l, "tb"@) {
        (l.subrange(0, l.len() - "tb"@.len()), TB)
    } else if text::ends(l, "gb"@) {
        (l.subrange(0, l.len() - "gb"@.len()), GB)
    } else if text::ends(l, "mb"@) {
        (l.subrange(0, l.len() - "mb"@.len()), MB)
    } else if text::ends(l, "kb"@) {
        (l.subrange(0, l.len() - "kb"@.len()), KB)
    } else if text::ends(l, "b"@) {
        (l.subrange(0, l.len() - "b"@.len()), 1)
    } else {
        (l, 1)
    }
}

/// The byte count that `s` writes: a number with an optional unit of 1024,
/// white space aside, if it fits.
pub open spec fn byte_count(s: Seq<char>) -> Option<nat> {
    let (num, unit) = split_unit(text::lower_text(text::trimmed(s)));
    match text::number(text::trimmed(num), u64::MAX as nat) {
        Some(n) => if n * unit <= u64::MAX {
            Some((n * unit) as nat)
        } else {
            None
        },
        None => None,
    }
}

/// Reads a byte count such as `10mb`, `1024` or `2gb`.
fn parse_bytes(s: &[char]) -> (r: Option<u64>)
    ensures
        r is Some <==> byte_count(s@) is Some,
        r matches Some(n) ==> byte_count(s@) == Some(n as nat),
{
    let l = text::to_lower(text::trim(s));
    let lower = l.as_slice();
    let (num, unit) = if let Some(n) = text::strip_suffix(lower, "tb") {
        (n, TB)
    } else if let Some(n) = text::strip_suffix(lower, "gb") {
        (n, GB)
    } else if let Some(n) = text::strip_suffix(lower, "mb") {
        (n, MB)
    } else if let Some(n) = text::strip_suffix(lower, "kb") {
        (n, KB)
    } else if let Some(n) = text::strip_suffix(lower, "b") {
        (n, 1u64)
    } else {
        (lower, 1u64)
    };
    assert((num@, unit) == split_unit(lower@));
    match text::parse_number(text::trim(num), u64::MAX) {
        Some(value) => value.checked_mul(unit),
        None => None,
    }
}

/// Where `..` first stands in `s`; the length of `s` if it does not.
pub open spec fn dots(s: Seq<char>) -> int
    decreases s.len(),
{
    if s.len() < 2 {
        s.len() as int
    } else if s[0] == '.' && s[1] == '.' {
        0
    } else {
        1 + dots(s.drop_first())
    }
}

fn find_dots(s: &[char]) -> (at: usize)
    ensures
        at == dots(s@),
        at <= s@.len(),
        at < s@.len() ==> at + 2 <= s@.len(),
{
    let n = s.len();
    let mut i: usize = 0;
    assert(s@.subrange(0, n as int) =~= s@);
    while i < n && n - i >= 2
        invariant
            i <= n,
            n == s@.len(),
            dots(s@) == i + dots(s@.subrange(i as int, n as int)),
        decreases n - i,
    {
        let ghost rest = s@.subrange(i as int, n as int);
        assert(rest[0] == s@[i as int] && rest[1] == s@[i + 1]);
        if s[i] == '.' && s[i + 1] == '.' {
            return i;
        }
        assert(rest.drop_first() =~= s@.subrange(i + 1, n as int));
        i = i + 1;
    }
    n
}

/// The range that a named size stands for.
pub open spec fn named_size(l: Seq<char>) -> Option<SizeRange> {
    if l == "empty"@ {
        Some(SizeRange { min: 0, max: 0 })
    } else if l == "tiny"@ {
        Some(SizeRange { min: 0, max: (10 * KB) as u64 })
    } else if l == "small"@ {
        Some(SizeRange { min: (10 * KB) as u64, max: (100 * KB) as u64 })
    } else if l == "medium"@ {
        Some(SizeRange { min: (100 * KB) as u64, max: MB })
    } else if l == "large"@ {
        Some(SizeRange { min: MB, max: (16 * MB) as u64 })
    } else if l == "huge"@ {
        Some(SizeRange { min: (16 * MB) as u64, max: (128 * MB) as u64 })
    } else if l == "gigantic"@ {
        Some(SizeRange { min: (128 * MB) as u64, max: u64::MAX })
    } else {
        None
    }
}

fn parse_named(l: &[char]) -> (r: Option<SizeRange>)
    ensures
        r == named_size(l@),
{
    if text::same(l, "empty") {
        Some(SizeRange { min: 0, max: 0 })
    } else if text::same(l, "tiny") {
        Some(SizeRange { min: 0, max: 10 * KB })
    } else if text::same(l, "small") {
        Some(SizeRange { min: 10 * KB, max: 100 * KB })
    } else if text::same(l, "medium") {
        Some(SizeRange { min: 100 * KB, max: MB })
    } else if text::same(l, "large") {
        Some(SizeRange { min: MB, max: 16 * MB })
    } else if text::same(l, "huge") {
        Some(SizeRange { min: 16 * MB, max: 128 * MB })
    } else if text::same(l, "gigantic") {
        Some(SizeRange { min: 128 * MB, max: u64::MAX })
    } else {
        None
    }
}

/// The byte count that `s` writes, or the text to complain about.
pub open spec fn count_or(s: Seq<char>, blame: Seq<char>) -> Result<u64, Seq<char>> {
    match byte_count(s) {
        Some(n) => Ok(n as u64),
        None => Err(blame),
    }
}

/// One end of a range: what it writes, or its default where it is blank.
pub open spec fn range_end(s: Seq<char>, default: u64) -> Result<u64, Seq<char>> {
    if text::trimmed(s).len() == 0 {
        Ok(default)
    } else {
        count_or(s, s)
    }
}

/// What a `size:` expression asks for, or the part of it that is malformed: a
/// named size, a range `a..b` with either end optional, a comparison, or an
/// exact count with an optional `=`.
pub open spec fn size_expr(value: Seq<char>) -> Result<SizeRange, Seq<char>> {
    let v = text::trimmed(value);
    let n = v.len() as int;
    match named_size(text::lower_text(v)) {
        Some(r) => Ok(r),
        None => if dots(v) < n {
            match range_end(v.subrange(0, dots(v)), 0) {
                Err(e) => Err(e),
                Ok(min) => match range_end(v.subrange(dots(v) + 2, n), u64::MAX) {
                    Err(e) => Err(e),
                    Ok(max) => Ok(SizeRange { min, max }),
                },
            }
        } else if text::starts(v, ">="@) {
            let rest = v.subrange(">="@.len() as int, n);
            match count_or(rest, rest) {
                Err(e) => Err(e),
                Ok(c) => Ok(SizeRange { min: c, max: u64::MAX }),
            }
        } else if text::starts(v, "<="@) {
            let rest = v.subrange("<="@.len() as int, n);
            match count_or(rest, rest) {
                Err(e) => Err(e),
                Ok(c) => Ok(SizeRange { min: 0, max: c }),
            }
        } else if text::starts(v, ">"@) {
            let rest = v.subrange(">"@.len() as int, n);
            match count_or(rest, rest) {
                Err(e) => Err(e),
                Ok(c) => Ok(
                    SizeRange {
                        min: if c < u64::MAX {
                            (c + 1) as u64
                        } else {
                            c
                        },
                        max: u64::MAX,
                    },
                ),
            }
        } else if text::starts(v, "<"@) {
            let rest = v.subrange("<"@.len() as int, n);
            match count_or(rest, rest) {
                Err(e) => Err(e),
                Ok(c) => Ok(
                    SizeRange {
                        min: 0,
                        max: if c > 0 {
                            (c - 1) as u64
                        } else {
                            0
                        },
                    },
                ),
            }
        } else {
            let rest = if text::starts(v, "="@) {
                v.subrange("="@.len() as int, n)
            } else {
                v
            };
            match count_or(rest, v) {
                Err(e) => Err(e),
                Ok(c) => Ok(SizeRange { min: c, max: c }),
            }
        },
    }
}

/// The error of a malformed `size:` expression.
fn malformed_size(detail: &[char]) -> (e: QueryError)
    ensures
        e.model() == ErrorModel::Malformed("size:"@, detail@),
{
    QueryError::Malformed { what: "size:", detail: text::string(detail) }
}

fn parse_count(s: &[char], blame: &[char]) -> (r: Result<u64, QueryError>)
    ensures
        match count_or(s@, blame@) {
            Ok(n) => r is Ok && r->Ok_0 == n,
            Err(d) => r is Err && r->Err_0.model() == ErrorModel::Malformed("size:"@, d),
        },
{
    match parse_bytes(s) {
        Some(n) => Ok(n),
        None => Err(malformed_size(blame)),
    }
}

fn parse_end(s: &[char], default: u64) -> (r: Result<u64, QueryError>)
    ensures
        match range_end(s@, default) {
            Ok(n) => r is Ok && r->Ok_0 == n,
            Err(d) => r is Err && r->Err_0.model() == ErrorModel::Malformed("size:"@, d),
        },
{
    if text::trim(s).len() == 0 {
        Ok(default)
    } else {
        parse_count(s, s)
    }
}

/// Parses a `size:` expression.
pub fn parse_size(value: &[char]) -> (r: Result<SizeRange, QueryError>)
    ensures
        match size_expr(value@) {
            Ok(range) => r is Ok && r->Ok_0 == range,
            Err(d) => r is Err && r->Err_0.model() == ErrorModel::Malformed("size:"@, d),
        },
{
    let v = text::trim(value);
    let l = text::to_lower(v);
    if let Some(range) = parse_named(l.as_slice()) {
        return Ok(range);
    }
    let at = find_dots(v);
    if at < v.len() {
        let min = match parse_end(vstd::slice::slice_subrange(v, 0, at), 0) {
            Ok(n) => n,
            Err(e) => {
                return Err(e);
            },
        };
        let max = match parse_end(vstd::slice::slice_subrange(v, at + 2, v.len()), u64::MAX) {
            Ok(n) => n,
            Err(e) => {
                return Err(e);
            },
        };
        return Ok(SizeRange { min, max });
    }
    if let Some(rest) = text::strip_prefix(v, ">=") {
        return match parse_count(rest, rest) {
            Ok(n) => Ok(SizeRange { min: n, max: u64::MAX }),
            Err(e) => Err(e),
        };
    }
    if let Some(rest) = text::strip_prefix(v, "<=") {
        return match parse_count(rest, rest) {
            Ok(n) => Ok(SizeRange { min: 0, max: n }),
            Err(e) => Err(e),
        };
    }
    if let Some(rest) = text::strip_prefix(v, ">") {
        return match parse_count(rest, rest) {
            Ok(n) => Ok(SizeRange { min: n.saturating_add(1), max: u64::MAX }),
            Err(e) => Err(e),
        };
    }
    if let Some(rest) = text::strip_prefix(v, "<") {
        return match parse_count(rest, rest) {
            Ok(n) => Ok(SizeRange { min: 0, max: n.saturating_sub(1) }),
            Err(e) => Err(e),
        };
    }
    let rest = match text::strip_prefix(v, "=") {
        Some(rest) => rest,
        None => v,
    };
    match parse_count(rest, v) {
        Ok(n) => Ok(SizeRange { min: n, max: n }),
        Err(e) => Err(e),
    }
}

/// The bytes of a term, folded if the query ignores case.
pub open spec fn term_bytes(t: Seq<char>, match_case: bool) -> Seq<u8> {
    if match_case {
        encode_utf8(t)
    } else {
        fold::folded(encode_utf8(t))
    }
}

fn fold_term(t: &[char], match_case: bool) -> (b: Vec<u8>)
    ensures
        b@ == term_bytes(t@, match_case),
{
    let raw = text::utf8_bytes(t);
    if match_case {
        raw
    } else {
        fold::fold(raw.as_slice())
    }
}

/// The characters without the dots in front.
pub open spec fn without_dots(s: Seq<char>) -> Seq<char>
    decreases s.len(),
{
    if s.len() > 0 && s[0] == '.' {
        without_dots(s.drop_first())
    } else {
        s
    }
}

fn strip_dots(s: &[char]) -> (r: &[char])
    ensures
        r@ == without_dots(s@),
{
    let mut a: usize = 0;
    let n = s.len();
    assert(s@.subrange(0, n as int) =~= s@);
    while a < n && s[a] == '.'
        invariant
            a <= n,
            n == s@.len(),
            without_dots(s@.subrange(a as int, n as int)) == without_dots(s@),
        decreases n - a,
    {
        assert(s@.subrange(a as int, n as int).drop_first() =~= s@.subrange(a + 1, n as int));
        a = a + 1;
    }
    assert(a < n ==> s@.subrange(a as int, n as int)[0] == s@[a as int]);
    vstd::slice::slice_subrange(s, a, n)
}

/// The extensions of an `ext:` list: its nonempty parts between semicolons,
/// without leading dots and folded.
pub open spec fn extensions(value: Seq<char>) -> Seq<Seq<u8>>
    decreases value.len(),
{
    let p = text::position(value, ';');
    let head = value.subrange(0, p);
    let first = if head.len() > 0 {
        seq![fold::folded(encode_utf8(without_dots(head)))]
    } else {
        seq![]
    };
    if 0 <= p < value.len() {
        first + extensions(value.subrange(p + 1, value.len() as int))
    } else {
        first
    }
}

fn parse_extensions(value: &[char]) -> (out: Vec<Vec<u8>>)
    ensures
        byte_lists(out@) == extensions(value@),
{
    let mut out: Vec<Vec<u8>> = Vec::new();
    let mut rest = value;
    assert(byte_lists(out@) + extensions(rest@) =~= extensions(value@));
    loop
        invariant_except_break
            byte_lists(out@) + extensions(rest@) == extensions(value@),
        ensures
            byte_lists(out@) == extensions(value@),
        decreases rest@.len(),
    {
        let p = text::find(rest, ';');
        let head = vstd::slice::slice_subrange(rest, 0, p);
        let ghost before = byte_lists(out@);
        let ghost tail = if p < rest@.len() {
            extensions(rest@.subrange(p + 1, rest@.len() as int))
        } else {
            seq![]
        };
        if head.len() > 0 {
            let raw = text::utf8_bytes(strip_dots(head));
            let ext = fold::fold(raw.as_slice());
            assert(byte_lists(out@.push(ext)) =~= before + seq![ext@]);
            out.push(ext);
            assert(before + (seq![ext@] + tail) =~= byte_lists(out@) + tail);
            assert(seq![ext@] + Seq::<Seq<u8>>::empty() =~= seq![ext@]);
        } else {
            assert(Seq::<Seq<u8>>::empty() + tail =~= tail);
        }
        assert(byte_lists(out@) + tail == extensions(value@));
        if p >= rest.len() {
            assert(byte_lists(out@) + tail =~= byte_lists(out@));
            break;
        }
        rest = vstd::slice::slice_subrange(rest, p + 1, rest.len());
    }
    out
}

/// Where an unquoted text goes: a wildcard pattern, a path term or a name
/// term; an empty one goes nowhere.
pub open spec fn with_text(q: QueryModel, t: Seq<char>) -> QueryModel {
    if t.len() == 0 {
        q
    } else if t.contains('*') || t.contains('?') {
        QueryModel {
            wildcards: q.wildcards.push(glob_tokens(wtf8::decode(term_bytes(t, q.match_case)))),
            ..q
        }
    } else if t.contains('\\') || t.contains('/') {
        QueryModel { path_terms: q.path_terms.push(term_bytes(t, q.match_case)), ..q }
    } else {
        QueryModel { name_terms: q.name_terms.push(term_bytes(t, q.match_case)), ..q }
    }
}

fn has_char(t: &[char], c: char) -> (r: bool)
    ensures
        r == t@.contains(c),
{
    let at = text::find(t, c);
    at < t.len()
}

/// Routes an unquoted text to the wildcards, the path terms or the name terms.
fn push_text_term(q: &mut ParsedQuery, t: &[char])
    requires
        old(q).wf(),
    ensures
        final(q).wf(),
        final(q).model() == with_text(old(q).model(), t@),
{
    if t.len() == 0 {
        return;
    }
    let bytes = fold_term(t, q.match_case);
    if has_char(t, '*') || has_char(t, '?') {
        let w = Wildcard::compile(bytes.as_slice());
        q.wildcards.push(w);
        assert(pattern_lists(q.wildcards@) =~= pattern_lists(old(q).wildcards@).push(w.tokens()));
    } else if has_char(t, '\\') || has_char(t, '/') {
        q.path_terms.push(bytes);
        assert(byte_lists(q.path_terms@) =~= byte_lists(old(q).path_terms@).push(bytes@));
    } else {
        q.name_terms.push(bytes);
        assert(byte_lists(q.name_terms@) =~= byte_lists(old(q).name_terms@).push(bytes@));
    }
}

/// What one token adds to a query. A quoted token is a name term; a `case:`
/// directive adds nothing; `ext:`, `size:`, `path:`, `file:`, `folder:` and
/// `dir:` do what they say; everything else is text.
pub open spec fn with_token(q: QueryModel, tok: Tok) -> Result<QueryModel, ErrorModel> {
    let t = tok.text;
    let colon = text::position(t, ':');
    let func = text::lower_text(t.subrange(0, colon));
    let value = t.subrange(colon + 1, t.len() as int);
    if tok.quoted {
        Ok(QueryModel { name_terms: q.name_terms.push(term_bytes(t, q.match_case)), ..q })
    } else if case_switch(t) is Some {
        Ok(q)
    } else if colon >= t.len() {
        Ok(with_text(q, t))
    } else if func == "ext"@ {
        if extensions(value).len() > 0 {
            Ok(QueryModel { ext: Some(extensions(value)), ..q })
        } else {
            Ok(q)
        }
    } else if func == "size"@ {
        match size_expr(value) {
            Ok(range) => Ok(QueryModel { size: Some(range), ..q }),
            Err(d) => Err(ErrorModel::Malformed("size:"@, d)),
        }
    } else if func == "path"@ {
        if value.len() > 0 {
            Ok(QueryModel { path_terms: q.path_terms.push(term_bytes(value, q.match_case)), ..q })
        } else {
            Ok(q)
        }
    } else if func == "file"@ {
        Ok(with_text(QueryModel { kind: Some(Kind::File), ..q }, value))
    } else if func == "folder"@ || func == "dir"@ {
        Ok(with_text(QueryModel { kind: Some(Kind::Folder), ..q }, value))
    } else {
        Ok(with_text(q, t))
    }
}

fn apply_token(q: &mut ParsedQuery, tok: &Token) -> (r: Result<(), QueryError>)
    requires
        old(q).wf(),
    ensures
        match with_token(old(q).model(), tok.tok()) {
            Ok(m) => r is Ok && final(q).wf() && final(q).model() == m,
            Err(e) => r is Err && r->Err_0.model() == e,
        },
{
    let t = tok.text.as_slice();
    if tok.quoted {
        let bytes = fold_term(t, q.match_case);
        q.name_terms.push(bytes);
        assert(byte_lists(q.name_terms@) =~= byte_lists(old(q).name_terms@).push(bytes@));
        return Ok(());
    }
    if case_directive(t).is_some() {
        return Ok(());
    }
    let colon = text::find(t, ':');
    if colon < t.len() {
        let l = text::to_lower(vstd::slice::slice_subrange(t, 0, colon));
        let func = l.as_slice();
        let value = vstd::slice::slice_subrange(t, colon + 1, t.len());
        if text::same(func, "ext") {
            let exts = parse_extensions(value);
            if exts.len() > 0 {
                q.filters.ext = Some(exts);
            }
            return Ok(());
        }
        if text::same(func, "size") {
            return match parse_size(value) {
                Ok(range) => {
                    q.filters.size = Some(range);
                    Ok(())
                },
                Err(e) => Err(e),
            };
        }
        if text::same(func, "path") {
            if value.len() > 0 {
                let bytes = fold_term(value, q.match_case);
                q.path_terms.push(bytes);
                assert(byte_lists(q.path_terms@) =~= byte_lists(old(q).path_terms@).push(bytes@));
            }
            return Ok(());
        }
        if text::same(func, "file") {
            q.filters.kind = Some(Kind::File);
            push_text_term(q, value);
            return Ok(());
        }
        if text::same(func, "folder") || text::same(func, "dir") {
            q.filters.kind = Some(Kind::Folder);
            push_text_term(q, value);
            return Ok(());
        }
    }
    push_text_term(q, t);
    Ok(())
}

/// What the tokens add to a query, one after another; the first that is
/// malformed decides.
pub open spec fn with_tokens(q: QueryModel, toks: Seq<Tok>) -> Result<QueryModel, ErrorModel>
    decreases toks.len(),
{
    if toks.len() == 0 {
        Ok(q)
    } else {
        match with_token(q, toks[0]) {
            Ok(next) => with_tokens(next, toks.drop_first()),
            Err(e) => Err(e),
        }
    }
}

/// Whether the query minds case: the last unquoted `case:` directive decides.
pub open spec fn minds_case(toks: Seq<Tok>) -> bool
    decreases toks.len(),
{
    if toks.len() == 0 {
        false
    } else if !toks.last().quoted && case_switch(toks.last().text) is Some {
        case_switch(toks.last().text)->Some_0
    } else {
        minds_case(toks.drop_last())
    }
}

/// A query without terms and filters.
pub open spec fn empty_query(match_case: bool) -> QueryModel {
    QueryModel {
        name_terms: seq![],
        path_terms: seq![],
        wildcards: seq![],
        ext: None,
        size: None,
        kind: None,
        match_case,
    }
}

/// Parses a query string.
pub fn parse_query(input: &str) -> (r: Result<ParsedQuery, QueryError>)
    ensures
        !operator_free(input@) ==> r is Err && exists|c: char| #[trigger]
            first_operator(input@, c) && r->Err_0.model() == ErrorModel::Operator(c),
        operator_free(input@) ==> match with_tokens(
            empty_query(minds_case(tokens_of(input@))),
            tokens_of(input@),
        ) {
            Ok(m) => r is Ok && r->Ok_0.wf() && r->Ok_0.model() == m,
            Err(e) => r is Err && r->Err_0.model() == e,
        },
{
    let chars = text::chars(input);
    let tokens = match tokenize(chars.as_slice()) {
        Ok(v) => v,
        Err(e) => {
            proof {
                let c = e->UnsupportedOperator_0;
                assert(first_operator(input@, c));
            }
            return Err(e);
        },
    };
    let ghost all = tokens_of(input@);
    let mut match_case = false;
    let mut k: usize = tokens.len();
    assert(all.subrange(0, all.len() as int) =~= all);
    while k > 0
        invariant_except_break
            k <= tokens@.len(),
            toks(tokens@) == all,
            !match_case,
            minds_case(all) == minds_case(all.subrange(0, k as int)),
        ensures
            match_case == minds_case(all),
        decreases k,
    {
        let ghost front = all.subrange(0, k as int);
        assert(front.last() == tokens@[k - 1].tok());
        assert(front.drop_last() =~= all.subrange(0, k - 1));
        if !tokens[k - 1].quoted {
            if let Some(on) = case_directive(tokens[k - 1].text.as_slice()) {
                match_case = on;
                break;
            }
        }
        k = k - 1;
    }
    let mut q = ParsedQuery {
        name_terms: Vec::new(),
        path_terms: Vec::new(),
        wildcards: Vec::new(),
        filters: Filters::default(),
        match_case,
    };
    let ghost want = with_tokens(empty_query(match_case), all);
    assert(q.model() =~= empty_query(match_case));
    assert(all.subrange(0, all.len() as int) =~= all);
    let mut i: usize = 0;
    while i < tokens.len()
        invariant
            i <= tokens@.len(),
            toks(tokens@) == all,
            all == tokens_of(input@),
            operator_free(input@),
            match_case == minds_case(all),
            q.wf(),
            want == with_tokens(empty_query(match_case), all),
            want == with_tokens(q.model(), all.subrange(i as int, all.len() as int)),
        decreases tokens@.len() - i,
    {
        let ghost rest = all.subrange(i as int, all.len() as int);
        assert(rest[0] == tokens@[i as int].tok());
        assert(rest.drop_first() =~= all.subrange(i + 1, all.len() as int));
        match apply_token(&mut q, &tokens[i]) {
            Ok(_) => {},
            Err(e) => {
                return Err(e);
            },
        }
        i = i + 1;
    }
    Ok(q)
}

/// A query without terms, functions and operators matches everything.
pub proof fn law_blank_query_is_empty(input: Seq<char>)
    requires
        forall|k: int| 0 <= k < input.len() ==> text::is_space(#[trigger] input[k]),
    ensures
        operator_free(input),
        tokens_of(input) == Seq::<Tok>::empty(),
        with_tokens(empty_query(minds_case(tokens_of(input))), tokens_of(input)) == Ok::<
            QueryModel,
            ErrorModel,
        >(empty_query(false)),
{
    assert forall|k: int| 0 <= k < input.len() implies !operator_at(input, k) by {
        assert(text::is_space(input[k]));
    }
    lemma_blank(input, 0);
}

proof fn lemma_unquoted_at(input: Seq<char>, i: int)
    requires
        0 <= i <= input.len(),
        forall|k: int| 0 <= k < input.len() ==> text::is_space(#[trigger] input[k]),
    ensures
        !quoted_at(input, i),
    decreases i,
{
    if i > 0 {
        assert(text::is_space(input[i - 1]));
        lemma_unquoted_at(input, i - 1);
    }
}

proof fn lemma_blank(input: Seq<char>, i: int)
    requires
        0 <= i <= input.len(),
        forall|k: int| 0 <= k < input.len() ==> text::is_space(#[trigger] input[k]),
    ensures
        tokens_from(input, i, i) == Seq::<Tok>::empty(),
    decreases input.len() - i,
{
    if i < input.len() {
        lemma_unquoted_at(input, i);
        assert(text::is_space(input[i]));
        lemma_blank(input, i + 1);
    }
}

} // verus!

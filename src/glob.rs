//! Glob patterns over relative paths, and sets of them.
//!
//! A pattern is written with `/` between segments. The segment `**` stands for
//! any number of components, none included. In any other segment `*` stands
//! for any run of bytes and `?` for one byte; every other byte stands for
//! itself.
use vstd::prelude::*;
use crate::path::{split_bytes, split_nonempty, views_of, lemma_views_index, RelPath};

verus! {

#[derive(Clone, Copy, Debug, PartialEq, Eq, Structural)]
pub enum Token {
    Lit(u8),
    AnyByte,
    AnyRun,
}

pub enum Segment {
    AnyPath,
    Name(Vec<Token>),
}

pub enum SegmentView {
    AnyPath,
    Name(Seq<Token>),
}

impl View for Segment {
    type V = SegmentView;

    open spec fn view(&self) -> SegmentView {
        match self {
            Segment::AnyPath => SegmentView::AnyPath,
            Segment::Name(t) => SegmentView::Name(t@),
        }
    }
}

/// `n` from byte `ni` on is matched by `t` from token `ti` on.
pub open spec fn tokens_match_at(t: Seq<Token>, ti: int, n: Seq<u8>, ni: int) -> bool
    decreases t.len() - ti + n.len() - ni,
{
    if ti < 0 || ni < 0 || ti > t.len() || ni > n.len() {
        false
    } else if ti == t.len() {
        ni == n.len()
    } else {
        match t[ti] {
            Token::AnyRun => tokens_match_at(t, ti + 1, n, ni) || (ni < n.len() && tokens_match_at(
                t,
                ti,
                n,
                ni + 1,
            )),
            Token::AnyByte => ni < n.len() && tokens_match_at(t, ti + 1, n, ni + 1),
            Token::Lit(b) => ni < n.len() && n[ni] == b && tokens_match_at(t, ti + 1, n, ni + 1),
        }
    }
}

/// The path `p` from component `pi` on is matched by `g` from segment `gi` on.
pub open spec fn segments_match_at(g: Seq<SegmentView>, gi: int, p: Seq<Seq<u8>>, pi: int) -> bool
    decreases g.len() - gi + p.len() - pi,
{
    if gi < 0 || pi < 0 || gi > g.len() || pi > p.len() {
        false
    } else if gi == g.len() {
        pi == p.len()
    } else {
        match g[gi] {
            SegmentView::AnyPath => segments_match_at(g, gi + 1, p, pi) || (pi < p.len()
                && segments_match_at(g, gi, p, pi + 1)),
            SegmentView::Name(t) => pi < p.len() && tokens_match_at(t, 0, p[pi], 0)
                && segments_match_at(g, gi + 1, p, pi + 1),
        }
    }
}

/// The whole path is matched by the whole pattern.
pub open spec fn glob_matches(g: Seq<SegmentView>, p: Seq<Seq<u8>>) -> bool {
    segments_match_at(g, 0, p, 0)
}

pub open spec fn token_of(b: u8) -> Token {
    if b == 42u8 {
        Token::AnyRun
    } else if b == 63u8 {
        Token::AnyByte
    } else {
        Token::Lit(b)
    }
}

pub open spec fn segment_of(c: Seq<u8>) -> SegmentView {
    if c == seq![42u8, 42u8] {
        SegmentView::AnyPath
    } else {
        SegmentView::Name(c.map_values(|b: u8| token_of(b)))
    }
}

/// The pattern written as `s`.
pub open spec fn parse_glob(s: Seq<u8>) -> Seq<SegmentView> {
    split_nonempty(s, 47u8).map_values(|c: Seq<u8>| segment_of(c))
}

pub open spec fn segment_views(v: Seq<Segment>) -> Seq<SegmentView> {
    v.map_values(|s: Segment| s@)
}

pub struct Glob {
    pub segments: Vec<Segment>,
}

impl View for Glob {
    type V = Seq<SegmentView>;

    open spec fn view(&self) -> Seq<SegmentView> {
        segment_views(self.segments@)
    }
}

fn parse_segment(c: &Vec<u8>) -> (r: Segment)
    ensures
        r@ == segment_of(c@),
{
    if c.len() == 2 && c[0] == 42u8 && c[1] == 42u8 {
        assert(c@ =~= seq![42u8, 42u8]);
        return Segment::AnyPath;
    }
    let mut t: Vec<Token> = Vec::new();
    let mut i: usize = 0;
    while i < c.len()
        invariant
            i <= c.len(),
            t@ == c@.subrange(0, i as int).map_values(|b: u8| token_of(b)),
        decreases c.len() - i,
    {
        let b = c[i];
        let tok = if b == 42u8 {
            Token::AnyRun
        } else if b == 63u8 {
            Token::AnyByte
        } else {
            Token::Lit(b)
        };
        t.push(tok);
        assert(t@ =~= c@.subrange(0, i as int + 1).map_values(|b: u8| token_of(b)));
        i = i + 1;
    }
    assert(c@.subrange(0, i as int) =~= c@);
    Segment::Name(t)
}

fn tokens_match(t: &Vec<Token>, ti: usize, n: &Vec<u8>, ni: usize) -> (r: bool)
    requires
        ti <= t.len(),
        ni <= n.len(),
    ensures
        r == tokens_match_at(t@, ti as int, n@, ni as int),
    decreases t.len() - ti + n.len() - ni,
{
    if ti == t.len() {
        return ni == n.len();
    }
    match t[ti] {
        Token::AnyRun => {
            if tokens_match(t, ti + 1, n, ni) {
                true
            } else {
                ni < n.len() && tokens_match(t, ti, n, ni + 1)
            }
        },
        Token::AnyByte => ni < n.len() && tokens_match(t, ti + 1, n, ni + 1),
        Token::Lit(b) => ni < n.len() && n[ni] == b && tokens_match(t, ti + 1, n, ni + 1),
    }
}

fn segments_match(g: &Vec<Segment>, gi: usize, p: &Vec<Vec<u8>>, pi: usize) -> (r: bool)
    requires
        gi <= g.len(),
        pi <= p.len(),
    ensures
        r == segments_match_at(segment_views(g@), gi as int, views_of(p@), pi as int),
    decreases g.len() - gi + p.len() - pi,
{
    proof {
        assert(segment_views(g@).len() == g@.len());
        assert(views_of(p@).len() == p@.len());
    }
    if gi == g.len() {
        return pi == p.len();
    }
    assert(segment_views(g@)[gi as int] == g@[gi as int]@);
    match &g[gi] {
        Segment::AnyPath => {
            if segments_match(g, gi + 1, p, pi) {
                true
            } else {
                pi < p.len() && segments_match(g, gi, p, pi + 1)
            }
        },
        Segment::Name(t) => {
            if pi < p.len() {
                proof {
                    lemma_views_index(p@, pi as int);
                }
                tokens_match(t, 0, &p[pi], 0) && segments_match(g, gi + 1, p, pi + 1)
            } else {
                false
            }
        },
    }
}

impl Glob {
    /// Reads a pattern.
    pub fn parse(s: &[u8]) -> (r: Glob)
        ensures
            r@ == parse_glob(s@),
    {
        let parts = split_bytes(s, 47u8);
        let mut segs: Vec<Segment> = Vec::new();
        let mut i: usize = 0;
        while i < parts.len()
            invariant
                i <= parts.len(),
                views_of(parts@) == split_nonempty(s@, 47u8),
                segment_views(segs@) == views_of(parts@).subrange(0, i as int).map_values(
                    |c: Seq<u8>| segment_of(c),
                ),
            decreases parts.len() - i,
        {
            proof {
                lemma_views_index(parts@, i as int);
            }
            let ghost before = segs@;
            let seg = parse_segment(&parts[i]);
            let ghost sv = seg@;
            segs.push(seg);
            assert(segment_views(segs@) =~= segment_views(before).push(sv));
            assert(segment_views(segs@) =~= views_of(parts@).subrange(0, i as int + 1).map_values(
                |c: Seq<u8>| segment_of(c),
            ));
            i = i + 1;
        }
        assert(views_of(parts@).subrange(0, i as int) =~= views_of(parts@));
        Glob { segments: segs }
    }

    /// Whether `path` is matched by this pattern.
    pub fn is_match(&self, path: &RelPath) -> (r: bool)
        ensures
            r == glob_matches(self@, path@),
    {
        segments_match(&self.segments, 0, &path.components, 0)
    }
}

/// The pattern from segment `gi` on takes all of `p` from component `pi` on
/// and still has segments left, so that it may match paths below `p`.
pub open spec fn prefix_match_at(g: Seq<SegmentView>, gi: int, p: Seq<Seq<u8>>, pi: int) -> bool
    decreases g.len() - gi + p.len() - pi,
{
    if gi < 0 || pi < 0 || gi > g.len() || pi > p.len() {
        false
    } else if pi == p.len() {
        gi < g.len()
    } else if gi == g.len() {
        false
    } else {
        match g[gi] {
            SegmentView::AnyPath => prefix_match_at(g, gi + 1, p, pi) || prefix_match_at(g, gi, p, pi + 1),
            SegmentView::Name(t) => tokens_match_at(t, 0, p[pi], 0) && prefix_match_at(g, gi + 1, p, pi + 1),
        }
    }
}

/// Some pattern of the set may match paths below `p`.
pub open spec fn set_may_match_below(globs: Seq<Seq<SegmentView>>, p: Seq<Seq<u8>>) -> bool {
    exists|i: int| 0 <= i < globs.len() && prefix_match_at(#[trigger] globs[i], 0, p, 0)
}

fn prefix_match(g: &Vec<Segment>, gi: usize, p: &Vec<Vec<u8>>, pi: usize) -> (r: bool)
    requires
        gi <= g.len(),
        pi <= p.len(),
    ensures
        r == prefix_match_at(segment_views(g@), gi as int, views_of(p@), pi as int),
    decreases g.len() - gi + p.len() - pi,
{
    proof {
        assert(segment_views(g@).len() == g@.len());
        assert(views_of(p@).len() == p@.len());
    }
    if pi == p.len() {
        return gi < g.len();
    }
    if gi == g.len() {
        return false;
    }
    assert(segment_views(g@)[gi as int] == g@[gi as int]@);
    match &g[gi] {
        Segment::AnyPath => {
            if prefix_match(g, gi + 1, p, pi) {
                true
            } else {
                prefix_match(g, gi, p, pi + 1)
            }
        },
        Segment::Name(t) => {
            proof {
                lemma_views_index(p@, pi as int);
            }
            tokens_match(t, 0, &p[pi], 0) && prefix_match(g, gi + 1, p, pi + 1)
        },
    }
}

/// Some pattern of the set matches `p`.
pub open spec fn set_matches(globs: Seq<Seq<SegmentView>>, p: Seq<Seq<u8>>) -> bool {
    exists|i: int| 0 <= i < globs.len() && glob_matches(#[trigger] globs[i], p)
}

/// A set of patterns; a path is matched by the set when one of them matches.
pub struct GlobSet {
    pub globs: Vec<Glob>,
}

impl View for GlobSet {
    type V = Seq<Seq<SegmentView>>;

    open spec fn view(&self) -> Seq<Seq<SegmentView>> {
        self.globs@.map_values(|g: Glob| g@)
    }
}

impl GlobSet {
    pub fn empty() -> (r: GlobSet)
        ensures
            r@.len() == 0,
    {
        let r = GlobSet { globs: Vec::new() };
        assert(r@ =~= Seq::<Seq<SegmentView>>::empty());
        r
    }

    /// Adds the pattern written as `s`.
    pub fn add(&mut self, s: &[u8])
        ensures
            final(self)@ == old(self)@.push(parse_glob(s@)),
    {
        let g = Glob::parse(s);
        self.globs.push(g);
        assert(self@ =~= old(self)@.push(parse_glob(s@)));
    }

    pub fn is_match(&self, path: &RelPath) -> (r: bool)
        ensures
            r == set_matches(self@, path@),
    {
        let mut i: usize = 0;
        while i < self.globs.len()
            invariant
                i <= self.globs.len(),
                forall|j: int| 0 <= j < i ==> !glob_matches(#[trigger] self@[j], path@),
            decreases self.globs.len() - i,
        {
            if self.globs[i].is_match(path) {
                assert(glob_matches(self@[i as int], path@));
                return true;
            }
            i = i + 1;
        }
        false
    }

    /// Whether some pattern may match paths below `path`.
    pub fn may_match_below(&self, path: &RelPath) -> (r: bool)
        ensures
            r == set_may_match_below(self@, path@),
    {
        let mut i: usize = 0;
        while i < self.globs.len()
            invariant
                i <= self.globs.len(),
                forall|j: int| 0 <= j < i ==> !prefix_match_at(#[trigger] self@[j], 0, path@, 0),
            decreases self.globs.len() - i,
        {
            if prefix_match(&self.globs[i].segments, 0, &path.components, 0) {
                assert(prefix_match_at(self@[i as int], 0, path@, 0));
                return true;
            }
            i = i + 1;
        }
        false
    }
}

} // verus!

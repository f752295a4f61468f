//! Gitignore rule sets and the stack of them that applies along a path.
use vstd::prelude::*;
use crate::glob::{glob_matches, parse_glob, segment_views, Glob, Segment, SegmentView};
use crate::path::{is_prefix, split_bytes, split_nonempty, views_of, lemma_views_index, RelPath};

verus! {

/// One line of a gitignore file.
pub struct IgnoreRule {
    pub glob: Glob,
    /// Written with a leading `!`: a match re-includes the path.
    pub negated: bool,
    /// Written with a trailing `/`: only directories match.
    pub dir_only: bool,
}

pub struct RuleView {
    pub glob: Seq<SegmentView>,
    pub negated: bool,
    pub dir_only: bool,
}

impl View for IgnoreRule {
    type V = RuleView;

    open spec fn view(&self) -> RuleView {
        RuleView { glob: self.glob@, negated: self.negated, dir_only: self.dir_only }
    }
}

pub open spec fn rule_views(v: Seq<IgnoreRule>) -> Seq<RuleView> {
    v.map_values(|r: IgnoreRule| r@)
}

pub open spec fn rule_matches(r: RuleView, p: Seq<Seq<u8>>, is_dir: bool) -> bool {
    glob_matches(r.glob, p) && (!r.dir_only || is_dir)
}

/// What the last matching rule of a set says of a path relative to the set's
/// directory: `Some(true)` ignored, `Some(false)` re-included, `None` no rule
/// matches.
pub open spec fn ruleset_decision(rules: Seq<RuleView>, p: Seq<Seq<u8>>, is_dir: bool) -> Option<bool>
    decreases rules.len(),
{
    if rules.len() == 0 {
        None
    } else if rule_matches(rules.last(), p, is_dir) {
        Some(!rules.last().negated)
    } else {
        ruleset_decision(rules.drop_last(), p, is_dir)
    }
}

/// A pattern with no `/` but at its end matches at any depth; one with a `/`
/// is anchored at the directory of its file.
pub open spec fn glob_of_pattern(pat: Seq<u8>) -> Seq<SegmentView> {
    if pat.contains(47u8) {
        parse_glob(pat)
    } else {
        seq![SegmentView::AnyPath] + parse_glob(pat)
    }
}

/// The rule written on a line, if the line holds one.
pub open spec fn rule_of_line(line: Seq<u8>) -> Option<RuleView> {
    if line.len() == 0 || line[0] == 35u8 {
        None
    } else {
        let negated = line[0] == 33u8;
        let a = if negated { line.drop_first() } else { line };
        let dir_only = a.len() > 0 && a.last() == 47u8;
        let b = if dir_only { a.drop_last() } else { a };
        if b.len() == 0 {
            None
        } else {
            Some(RuleView { glob: glob_of_pattern(b), negated, dir_only })
        }
    }
}

/// The rules of a gitignore file, in order.
pub open spec fn rules_of_text(lines: Seq<Seq<u8>>) -> Seq<RuleView>
    decreases lines.len(),
{
    if lines.len() == 0 {
        seq![]
    } else {
        let rest = rules_of_text(lines.drop_last());
        match rule_of_line(lines.last()) {
            Some(r) => rest.push(r),
            None => rest,
        }
    }
}

fn contains_byte(s: &[u8], b: u8) -> (r: bool)
    ensures
        r == s@.contains(b),
{
    let mut i: usize = 0;
    while i < s.len()
        invariant
            i <= s.len(),
            forall|j: int| 0 <= j < i ==> s@[j] != b,
        decreases s.len() - i,
    {
        if s[i] == b {
            assert(s@[i as int] == b);
            return true;
        }
        i = i + 1;
    }
    false
}

fn parse_line(line: &Vec<u8>) -> (r: Option<IgnoreRule>)
    ensures
        match rule_of_line(line@) {
            Some(v) => r.is_some() && r.unwrap()@ == v,
            None => r.is_none(),
        },
{
    if line.len() == 0 || line[0] == 35u8 {
        return None;
    }
    let negated = line[0] == 33u8;
    let start: usize = if negated { 1 } else { 0 };
    let dir_only = line.len() > start && line[line.len() - 1] == 47u8;
    let end: usize = if dir_only { line.len() - 1 } else { line.len() };
    if end <= start {
        return None;
    }
    let pat = &line.as_slice()[start..end];
    proof {
        let a = if negated { line@.drop_first() } else { line@ };
        let b = if dir_only { a.drop_last() } else { a };
        assert(pat@ =~= b);
    }
    let parsed = Glob::parse(pat);
    if contains_byte(pat, 47u8) {
        Some(IgnoreRule { glob: parsed, negated, dir_only })
    } else {
        let mut segs: Vec<Segment> = Vec::new();
        segs.push(Segment::AnyPath);
        let mut rest = parsed.segments;
        let ghost tail = segment_views(rest@);
        segs.append(&mut rest);
        assert(segment_views(segs@) =~= seq![SegmentView::AnyPath] + tail);
        Some(IgnoreRule { glob: Glob { segments: segs }, negated, dir_only })
    }
}

/// Reads the rules of a gitignore file.
pub fn parse_gitignore(text: &[u8]) -> (r: Vec<IgnoreRule>)
    ensures
        rule_views(r@) == rules_of_text(split_nonempty(text@, 10u8)),
{
    let lines = split_bytes(text, 10u8);
    let mut rules: Vec<IgnoreRule> = Vec::new();
    let mut i: usize = 0;
    while i < lines.len()
        invariant
            i <= lines.len(),
            views_of(lines@) == split_nonempty(text@, 10u8),
            rule_views(rules@) == rules_of_text(views_of(lines@).subrange(0, i as int)),
        decreases lines.len() - i,
    {
        proof {
            lemma_views_index(lines@, i as int);
            assert(views_of(lines@).subrange(0, i as int + 1).drop_last() =~= views_of(lines@).subrange(
                0,
                i as int,
            ));
        }
        let ghost before = rules@;
        match parse_line(&lines[i]) {
            Some(rule) => {
                let ghost rv = rule@;
                rules.push(rule);
                assert(rule_views(rules@) =~= rule_views(before).push(rv));
            },
            None => {},
        }
        i = i + 1;
    }
    assert(views_of(lines@).subrange(0, i as int) =~= views_of(lines@));
    rules
}

fn ruleset_decides(rules: &Vec<IgnoreRule>, p: &RelPath, is_dir: bool) -> (r: Option<bool>)
    ensures
        r == ruleset_decision(rule_views(rules@), p@, is_dir),
{
    let mut i: usize = rules.len();
    assert(rule_views(rules@).subrange(0, i as int) =~= rule_views(rules@));
    while i > 0
        invariant
            i <= rules.len(),
            ruleset_decision(rule_views(rules@), p@, is_dir) == ruleset_decision(
                rule_views(rules@).subrange(0, i as int),
                p@,
                is_dir,
            ),
        decreases i,
    {
        let ghost sub = rule_views(rules@).subrange(0, i as int);
        assert(sub.last() == rules@[i - 1]@);
        assert(sub.drop_last() =~= rule_views(rules@).subrange(0, i as int - 1));
        let r = &rules[i - 1];
        if r.glob.is_match(p) && (!r.dir_only || is_dir) {
            return Some(!r.negated);
        }
        i = i - 1;
    }
    None
}

/// The rules of one gitignore file, with the directory it lies in.
pub struct IgnoreLayer {
    pub dir: RelPath,
    pub rules: Vec<IgnoreRule>,
}

pub struct LayerView {
    pub dir: Seq<Seq<u8>>,
    pub rules: Seq<RuleView>,
}

impl View for IgnoreLayer {
    type V = LayerView;

    open spec fn view(&self) -> LayerView {
        LayerView { dir: self.dir@, rules: rule_views(self.rules@) }
    }
}

/// What the layers say of a path: of the layers whose directory holds the
/// path and that have a matching rule, the one added last decides. A scan
/// adds a directory's layer after its parent's, and `set_rules` keeps a
/// layer's place, so along a path that is the deepest.
pub open spec fn stack_decision(layers: Seq<LayerView>, p: Seq<Seq<u8>>, is_dir: bool) -> Option<bool>
    decreases layers.len(),
{
    if layers.len() == 0 {
        None
    } else {
        let l = layers.last();
        let here = if is_prefix(l.dir, p) && l.dir.len() < p.len() {
            ruleset_decision(l.rules, p.skip(l.dir.len() as int), is_dir)
        } else {
            None
        };
        if here.is_some() {
            here
        } else {
            stack_decision(layers.drop_last(), p, is_dir)
        }
    }
}

/// The gitignore layers of the tree, in the order they were added.
pub struct IgnoreStack {
    pub layers: Vec<IgnoreLayer>,
}

impl View for IgnoreStack {
    type V = Seq<LayerView>;

    open spec fn view(&self) -> Seq<LayerView> {
        self.layers@.map_values(|l: IgnoreLayer| l@)
    }
}

impl IgnoreStack {
    pub fn new() -> (r: IgnoreStack)
        ensures
            r@.len() == 0,
    {
        let r = IgnoreStack { layers: Vec::new() };
        assert(r@ =~= Seq::<LayerView>::empty());
        r
    }

    /// Adds the rules of the gitignore file in `dir`, above the others.
    pub fn push(&mut self, dir: RelPath, text: &[u8])
        ensures
            final(self)@ == old(self)@.push(
                LayerView { dir: dir@, rules: rules_of_text(split_nonempty(text@, 10u8)) },
            ),
    {
        let rules = parse_gitignore(text);
        let layer = IgnoreLayer { dir, rules };
        self.layers.push(layer);
        assert(self@ =~= old(self)@.push(
            LayerView { dir: dir@, rules: rules_of_text(split_nonempty(text@, 10u8)) },
        ));
    }

    /// Whether the rules ignore `p`.
    pub fn is_ignored(&self, p: &RelPath, is_dir: bool) -> (r: bool)
        ensures
            r == (stack_decision(self@, p@, is_dir) == Some(true)),
    {
        let mut i: usize = self.layers.len();
        assert(self@.subrange(0, i as int) =~= self@);
        while i > 0
            invariant
                i <= self.layers.len(),
                stack_decision(self@, p@, is_dir) == stack_decision(self@.subrange(0, i as int), p@, is_dir),
            decreases i,
        {
            let ghost sub = self@.subrange(0, i as int);
            assert(sub.last() == self.layers@[i - 1]@);
            assert(sub.drop_last() =~= self@.subrange(0, i as int - 1));
            let l = &self.layers[i - 1];
            if p.starts_with(&l.dir) && l.dir.depth() < p.depth() {
                let rel = p.suffix(l.dir.depth());
                let d = ruleset_decides(&l.rules, &rel, is_dir);
                match d {
                    Some(b) => {
                        return b;
                    },
                    None => {},
                }
            }
            i = i - 1;
        }
        assert(self@.subrange(0, 0) =~= Seq::<LayerView>::empty());
        false
    }

    /// Puts the rules of the gitignore file in `dir` in place of that
    /// directory's earlier rules, or above the others where it had none.
    pub fn set_rules(&mut self, dir: RelPath, text: &[u8])
        ensures
            ({
                let l = LayerView { dir: dir@, rules: rules_of_text(split_nonempty(text@, 10u8)) };
                &&& (exists|i: int| 0 <= i < old(self)@.len() && (#[trigger] old(self)@[i]).dir == dir@) ==> exists|i: int|
                    0 <= i < old(self)@.len() && (#[trigger] old(self)@[i]).dir == dir@ && (forall|j: int|
                        0 <= j < i ==> (#[trigger] old(self)@[j]).dir != dir@) && final(self)@ == old(self)@.update(i, l)
                &&& !(exists|i: int| 0 <= i < old(self)@.len() && (#[trigger] old(self)@[i]).dir == dir@) ==> final(self)@
                    == old(self)@.push(l)
            }),
    {
        let ghost l = LayerView { dir: dir@, rules: rules_of_text(split_nonempty(text@, 10u8)) };
        let mut i: usize = 0;
        while i < self.layers.len()
            invariant
                i <= self.layers@.len(),
                self@ == old(self)@,
                l == (LayerView { dir: dir@, rules: rules_of_text(split_nonempty(text@, 10u8)) }),
                forall|j: int| 0 <= j < i ==> (#[trigger] old(self)@[j]).dir != dir@,
            decreases self.layers@.len() - i,
        {
            assert(self@[i as int] == self.layers@[i as int]@);
            if self.layers[i].dir.path_eq(&dir) {
                let rules = parse_gitignore(text);
                let layer = IgnoreLayer { dir, rules };
                let ghost lv = layer@;
                assert(lv == l);
                let ghost before = self.layers@;
                self.layers.set(i, layer);
                assert(self.layers@ == before.update(i as int, layer));
                assert forall|j: int| 0 <= j < self@.len() implies #[trigger] self@[j] == old(self)@.update(i as int, l)[j] by {
                    if j != i {
                        assert(self.layers@[j] == before[j]);
                    }
                }
                assert(self@ =~= old(self)@.update(i as int, l));
                return;
            }
            i = i + 1;
        }
        self.push(dir, text);
    }
}

} // verus!

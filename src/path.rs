//! Relative paths made of byte components, and their depth-first order.
use vstd::prelude::*;

verus! {

/// Lexicographic order on sequences, from a strict order on their elements.
/// A proper prefix sorts before the longer sequence.
pub open spec fn lex_lt<T>(a: Seq<T>, b: Seq<T>, lt: spec_fn(T, T) -> bool) -> bool
    decreases a.len(),
{
    if a.len() == 0 {
        b.len() > 0
    } else if b.len() == 0 {
        false
    } else if a[0] == b[0] {
        lex_lt(a.drop_first(), b.drop_first(), lt)
    } else {
        lt(a[0], b[0])
    }
}

pub open spec fn is_strict_total<T>(lt: spec_fn(T, T) -> bool) -> bool {
    &&& forall|x: T| !(#[trigger] lt(x, x))
    &&& forall|x: T, y: T, z: T| #[trigger] lt(x, y) && #[trigger] lt(y, z) ==> lt(x, z)
    &&& forall|x: T, y: T| #[trigger] lt(x, y) || lt(y, x) || x == y
}

/// Order of single bytes.
pub open spec fn byte_lt() -> spec_fn(u8, u8) -> bool {
    |x: u8, y: u8| x < y
}

/// Order of path components: byte-wise.
pub open spec fn component_lt() -> spec_fn(Seq<u8>, Seq<u8>) -> bool {
    |x: Seq<u8>, y: Seq<u8>| lex_lt(x, y, byte_lt())
}

/// Order of paths: component by component, so that a directory is directly
/// followed by everything below it.
pub open spec fn path_lt(a: Seq<Seq<u8>>, b: Seq<Seq<u8>>) -> bool {
    lex_lt(a, b, component_lt())
}

/// `prefix` is an ancestor of `p`, or `p` itself.
pub open spec fn is_prefix(prefix: Seq<Seq<u8>>, p: Seq<Seq<u8>>) -> bool {
    prefix.len() <= p.len() && p.subrange(0, prefix.len() as int) == prefix
}

/// The parent of a non-root path.
pub open spec fn parent_of(p: Seq<Seq<u8>>) -> Seq<Seq<u8>> {
    p.drop_last()
}

proof fn lemma_lex_irreflexive<T>(a: Seq<T>, lt: spec_fn(T, T) -> bool)
    ensures
        !lex_lt(a, a, lt),
    decreases a.len(),
{
    if a.len() > 0 {
        lemma_lex_irreflexive(a.drop_first(), lt);
    }
}

proof fn lemma_lex_transitive<T>(a: Seq<T>, b: Seq<T>, c: Seq<T>, lt: spec_fn(T, T) -> bool)
    requires
        is_strict_total(lt),
        lex_lt(a, b, lt),
        lex_lt(b, c, lt),
    ensures
        lex_lt(a, c, lt),
    decreases a.len(),
{
    if a.len() > 0 && b.len() > 0 && c.len() > 0 {
        if a[0] == b[0] && b[0] == c[0] {
            lemma_lex_transitive(a.drop_first(), b.drop_first(), c.drop_first(), lt);
        } else if a[0] != b[0] && b[0] != c[0] {
            assert(lt(a[0], b[0]) && lt(b[0], c[0]));
            if a[0] == c[0] {
                assert(lt(a[0], a[0]));
            }
        }
    }
}

proof fn lemma_lex_total<T>(a: Seq<T>, b: Seq<T>, lt: spec_fn(T, T) -> bool)
    requires
        is_strict_total(lt),
    ensures
        lex_lt(a, b, lt) || lex_lt(b, a, lt) || a == b,
    decreases a.len(),
{
    if a.len() > 0 && b.len() > 0 {
        if a[0] == b[0] {
            lemma_lex_total(a.drop_first(), b.drop_first(), lt);
            if a.drop_first() == b.drop_first() {
                assert(a =~= seq![a[0]] + a.drop_first());
                assert(b =~= seq![b[0]] + b.drop_first());
            }
        } else {
            assert(lt(a[0], b[0]) || lt(b[0], a[0]));
        }
    } else if a.len() == 0 && b.len() == 0 {
        assert(a =~= b);
    }
}

/// Lexicographic order inherits being a strict total order.
pub proof fn lemma_lex_strict_total<T>(lt: spec_fn(T, T) -> bool)
    requires
        is_strict_total(lt),
    ensures
        is_strict_total(|a: Seq<T>, b: Seq<T>| lex_lt(a, b, lt)),
{
    let l = |a: Seq<T>, b: Seq<T>| lex_lt(a, b, lt);
    assert forall|x: Seq<T>| !(#[trigger] l(x, x)) by {
        lemma_lex_irreflexive(x, lt);
    }
    assert forall|x: Seq<T>, y: Seq<T>, z: Seq<T>| #[trigger] l(x, y) && #[trigger] l(y, z) implies l(
        x,
        z,
    ) by {
        lemma_lex_transitive(x, y, z, lt);
    }
    assert forall|x: Seq<T>, y: Seq<T>| #[trigger] l(x, y) || l(y, x) || x == y by {
        lemma_lex_total(x, y, lt);
    }
}

/// The path order is a strict total order.
pub proof fn lemma_path_order()
    ensures
        is_strict_total(component_lt()),
        forall|a: Seq<Seq<u8>>| !#[trigger] path_lt(a, a),
        forall|a: Seq<Seq<u8>>, b: Seq<Seq<u8>>, c: Seq<Seq<u8>>|
            #[trigger] path_lt(a, b) && #[trigger] path_lt(b, c) ==> path_lt(a, c),
        forall|a: Seq<Seq<u8>>, b: Seq<Seq<u8>>| #[trigger] path_lt(a, b) || path_lt(b, a) || a == b,
{
    assert(is_strict_total(byte_lt()));
    lemma_lex_strict_total(byte_lt());
    assert(component_lt() == (|a: Seq<u8>, b: Seq<u8>| lex_lt(a, b, byte_lt())));
    lemma_lex_strict_total(component_lt());
    assert forall|a: Seq<Seq<u8>>| !#[trigger] path_lt(a, a) by {
        lemma_lex_irreflexive(a, component_lt());
    }
    assert forall|a: Seq<Seq<u8>>, b: Seq<Seq<u8>>, c: Seq<Seq<u8>>|
        #[trigger] path_lt(a, b) && #[trigger] path_lt(b, c) implies path_lt(a, c) by {
        lemma_lex_transitive(a, b, c, component_lt());
    }
    assert forall|a: Seq<Seq<u8>>, b: Seq<Seq<u8>>| #[trigger] path_lt(a, b) || path_lt(b, a) || a
        == b by {
        lemma_lex_total(a, b, component_lt());
    }
}

proof fn lemma_lex_step<T>(a: Seq<T>, b: Seq<T>, i: int, lt: spec_fn(T, T) -> bool)
    requires
        0 <= i < a.len(),
        i < b.len(),
        a[i] == b[i],
    ensures
        lex_lt(a.skip(i), b.skip(i), lt) == lex_lt(a.skip(i + 1), b.skip(i + 1), lt),
{
    assert(a.skip(i).drop_first() =~= a.skip(i + 1));
    assert(b.skip(i).drop_first() =~= b.skip(i + 1));
}

/// A path sorts before every path strictly below it.
pub proof fn lemma_prefix_sorts_first(a: Seq<Seq<u8>>, b: Seq<Seq<u8>>)
    requires
        is_prefix(a, b),
        a.len() < b.len(),
    ensures
        path_lt(a, b),
    decreases a.len(),
{
    if a.len() > 0 {
        assert(a[0] == b.subrange(0, a.len() as int)[0]);
        assert(is_prefix(a.drop_first(), b.drop_first())) by {
            assert(b.drop_first().subrange(0, a.len() - 1) =~= b.subrange(0, a.len() as int).drop_first());
        }
        lemma_prefix_sorts_first(a.drop_first(), b.drop_first());
    }
}

/// Byte-wise comparison of two components.
pub fn bytes_lt(a: &Vec<u8>, b: &Vec<u8>) -> (r: bool)
    ensures
        r == lex_lt(a@, b@, byte_lt()),
{
    let mut i: usize = 0;
    assert(a@.skip(0) =~= a@ && b@.skip(0) =~= b@);
    while i < a.len() && i < b.len() && a[i] == b[i]
        invariant
            i <= a.len(),
            i <= b.len(),
            lex_lt(a@, b@, byte_lt()) == lex_lt(a@.skip(i as int), b@.skip(i as int), byte_lt()),
        decreases a.len() - i,
    {
        proof {
            lemma_lex_step(a@, b@, i as int, byte_lt());
        }
        i = i + 1;
    }
    if i == a.len() {
        i < b.len()
    } else if i == b.len() {
        false
    } else {
        a[i] < b[i]
    }
}

/// Byte-wise equality of two components.
pub fn bytes_eq(a: &Vec<u8>, b: &Vec<u8>) -> (r: bool)
    ensures
        r == (a@ == b@),
{
    if a.len() != b.len() {
        return false;
    }
    let mut i: usize = 0;
    while i < a.len()
        invariant
            i <= a.len(),
            a.len() == b.len(),
            a@.subrange(0, i as int) == b@.subrange(0, i as int),
        decreases a.len() - i,
    {
        if a[i] != b[i] {
            assert(a@.subrange(0, i as int + 1)[i as int] != b@.subrange(0, i as int + 1)[i as int]);
            return false;
        }
        assert(a@.subrange(0, i as int + 1) =~= a@.subrange(0, i as int).push(a[i as int]));
        assert(b@.subrange(0, i as int + 1) =~= b@.subrange(0, i as int).push(b[i as int]));
        i = i + 1;
    }
    assert(a@ =~= a@.subrange(0, i as int));
    assert(b@ =~= b@.subrange(0, i as int));
    true
}

/// A copy of a byte vector.
pub fn copy_bytes(a: &Vec<u8>) -> (r: Vec<u8>)
    ensures
        r@ == a@,
{
    let mut r: Vec<u8> = Vec::new();
    let mut i: usize = 0;
    while i < a.len()
        invariant
            i <= a.len(),
            r@ == a@.subrange(0, i as int),
        decreases a.len() - i,
    {
        r.push(a[i]);
        assert(r@ =~= a@.subrange(0, i as int + 1));
        i = i + 1;
    }
    assert(r@ =~= a@);
    r
}

/// Splitting bytes on a separator, left to right: the components found so far
/// and the one being read.
pub open spec fn split_state(s: Seq<u8>, sep: u8) -> (Seq<Seq<u8>>, Seq<u8>)
    decreases s.len(),
{
    if s.len() == 0 {
        (seq![], seq![])
    } else {
        let (done, cur) = split_state(s.drop_last(), sep);
        if s.last() == sep {
            (if cur.len() > 0 { done.push(cur) } else { done }, seq![])
        } else {
            (done, cur.push(s.last()))
        }
    }
}

/// The non-empty runs of bytes between separators, in order.
pub open spec fn split_nonempty(s: Seq<u8>, sep: u8) -> Seq<Seq<u8>> {
    let (done, cur) = split_state(s, sep);
    if cur.len() > 0 {
        done.push(cur)
    } else {
        done
    }
}

/// Components joined with a separator between each two.
pub open spec fn join_with(c: Seq<Seq<u8>>, sep: u8) -> Seq<u8>
    decreases c.len(),
{
    if c.len() == 0 {
        seq![]
    } else if c.len() == 1 {
        c[0]
    } else {
        join_with(c.drop_last(), sep) + seq![sep] + c.last()
    }
}

pub open spec fn views_of(v: Seq<Vec<u8>>) -> Seq<Seq<u8>> {
    v.map_values(|c: Vec<u8>| c@)
}

pub proof fn lemma_views_index(v: Seq<Vec<u8>>, i: int)
    requires
        0 <= i < v.len(),
    ensures
        views_of(v).len() == v.len(),
        views_of(v)[i] == v[i]@,
{
}

/// Splits `s` into its non-empty runs between bytes equal to `sep`.
pub fn split_bytes(s: &[u8], sep: u8) -> (r: Vec<Vec<u8>>)
    ensures
        views_of(r@) == split_nonempty(s@, sep),
{
    let mut done: Vec<Vec<u8>> = Vec::new();
    let mut cur: Vec<u8> = Vec::new();
    let mut i: usize = 0;
    assert(s@.subrange(0, 0) =~= Seq::<u8>::empty());
    assert(views_of(done@) =~= Seq::<Seq<u8>>::empty());
    while i < s.len()
        invariant
            i <= s.len(),
            (views_of(done@), cur@) == split_state(s@.subrange(0, i as int), sep),
        decreases s.len() - i,
    {
        assert(s@.subrange(0, i as int + 1).drop_last() =~= s@.subrange(0, i as int));
        let b = s[i];
        if b == sep {
            if cur.len() > 0 {
                let ghost before = done@;
                done.push(cur);
                assert(views_of(done@) =~= views_of(before).push(
                    split_state(s@.subrange(0, i as int), sep).1,
                ));
            }
            cur = Vec::new();
            assert(cur@ =~= Seq::<u8>::empty());
        } else {
            cur.push(b);
        }
        i = i + 1;
    }
    assert(s@.subrange(0, i as int) =~= s@);
    if cur.len() > 0 {
        let ghost before = done@;
        let ghost c = cur@;
        done.push(cur);
        assert(views_of(done@) =~= views_of(before).push(c));
    }
    done
}

/// Joins components with `sep` between each two.
pub fn join_bytes(c: &Vec<Vec<u8>>, sep: u8) -> (r: Vec<u8>)
    ensures
        r@ == join_with(views_of(c@), sep),
{
    let mut r: Vec<u8> = Vec::new();
    let mut i: usize = 0;
    while i < c.len()
        invariant
            i <= c.len(),
            r@ == join_with(views_of(c@).subrange(0, i as int), sep),
        decreases c.len() - i,
    {
        let ghost prev = r@;
        if i > 0 {
            r.push(sep);
        }
        let part = &c[i];
        let mut j: usize = 0;
        let ghost start = r@;
        while j < part.len()
            invariant
                j <= part.len(),
                r@ == start + part@.subrange(0, j as int),
            decreases part.len() - j,
        {
            r.push(part[j]);
            assert(part@.subrange(0, j as int + 1) =~= part@.subrange(0, j as int).push(part[j as int]));
            j = j + 1;
        }
        assert(part@.subrange(0, j as int) =~= part@);
        let ghost pre = views_of(c@).subrange(0, i as int + 1);
        assert(pre.drop_last() =~= views_of(c@).subrange(0, i as int));
        if i == 0 {
            assert(r@ =~= pre[0]);
        } else {
            assert(r@ =~= prev + seq![sep] + pre.last());
        }
        i = i + 1;
    }
    assert(views_of(c@).subrange(0, i as int) =~= views_of(c@));
    r
}

/// A path relative to the worktree root, as a sequence of components. The
/// empty sequence is the root itself.
pub struct RelPath {
    pub components: Vec<Vec<u8>>,
}

impl View for RelPath {
    type V = Seq<Seq<u8>>;

    open spec fn view(&self) -> Seq<Seq<u8>> {
        views_of(self.components@)
    }
}

impl RelPath {
    /// The root path, with no components.
    pub fn root() -> (r: RelPath)
        ensures
            r@ == Seq::<Seq<u8>>::empty(),
    {
        let r = RelPath { components: Vec::new() };
        assert(r@ =~= Seq::<Seq<u8>>::empty());
        r
    }

    /// Reads a path written with `/` between components; empty components
    /// (from a leading, trailing or doubled `/`) are skipped.
    pub fn parse(s: &[u8]) -> (r: RelPath)
        ensures
            r@ == split_nonempty(s@, 47u8),
    {
        RelPath { components: split_bytes(s, 47u8) }
    }

    /// The path written with `/` between components.
    pub fn to_bytes(&self) -> (r: Vec<u8>)
        ensures
            r@ == join_with(self@, 47u8),
    {
        join_bytes(&self.components, 47u8)
    }

    pub fn depth(&self) -> (r: usize)
        ensures
            r == self@.len(),
    {
        self.components.len()
    }

    pub fn is_root(&self) -> (r: bool)
        ensures
            r == (self@.len() == 0),
    {
        self.components.len() == 0
    }

    /// A copy of this path.
    pub fn copy(&self) -> (r: RelPath)
        ensures
            r@ == self@,
    {
        self.prefix(self.components.len())
    }

    /// The first `n` components.
    pub fn prefix(&self, n: usize) -> (r: RelPath)
        requires
            n <= self@.len(),
        ensures
            r@ == self@.subrange(0, n as int),
    {
        let mut out: Vec<Vec<u8>> = Vec::new();
        let mut i: usize = 0;
        while i < n
            invariant
                i <= n,
                n <= self@.len(),
                views_of(out@) == self@.subrange(0, i as int),
            decreases n - i,
        {
            let ghost before = out@;
            out.push(copy_bytes(&self.components[i]));
            assert(views_of(out@) =~= views_of(before).push(self@[i as int]));
            assert(self@.subrange(0, i as int + 1) =~= self@.subrange(0, i as int).push(self@[i as int]));
            i = i + 1;
        }
        RelPath { components: out }
    }

    /// The components from index `n` on.
    pub fn suffix(&self, n: usize) -> (r: RelPath)
        requires
            n <= self@.len(),
        ensures
            r@ == self@.skip(n as int),
    {
        let mut out: Vec<Vec<u8>> = Vec::new();
        let mut i: usize = n;
        assert(views_of(out@) =~= self@.subrange(n as int, n as int));
        while i < self.components.len()
            invariant
                n <= i <= self@.len(),
                views_of(out@) == self@.subrange(n as int, i as int),
            decreases self@.len() - i,
        {
            let ghost before = out@;
            out.push(copy_bytes(&self.components[i]));
            assert(views_of(out@) =~= views_of(before).push(self@[i as int]));
            assert(self@.subrange(n as int, i as int + 1) =~= self@.subrange(n as int, i as int).push(
                self@[i as int],
            ));
            i = i + 1;
        }
        RelPath { components: out }
    }

    /// The parent directory of a path other than the root.
    pub fn parent(&self) -> (r: RelPath)
        requires
            self@.len() > 0,
        ensures
            r@ == parent_of(self@),
    {
        self.prefix(self.components.len() - 1)
    }

    /// This path followed by one more component.
    pub fn join(&self, name: &Vec<u8>) -> (r: RelPath)
        ensures
            r@ == self@.push(name@),
    {
        let mut r = self.copy();
        let ghost before = r.components@;
        r.components.push(copy_bytes(name));
        assert(r@ =~= views_of(before).push(name@));
        r
    }

    /// This path followed by all components of `rest`.
    pub fn append(&self, rest: &RelPath) -> (r: RelPath)
        ensures
            r@ == self@ + rest@,
    {
        let mut r = self.copy();
        let mut i: usize = 0;
        while i < rest.components.len()
            invariant
                i <= rest@.len(),
                r@ == self@ + rest@.subrange(0, i as int),
            decreases rest@.len() - i,
        {
            let ghost before = r.components@;
            r.components.push(copy_bytes(&rest.components[i]));
            assert(r@ =~= views_of(before).push(rest@[i as int]));
            assert(self@ + rest@.subrange(0, i as int + 1) =~= (self@ + rest@.subrange(0, i as int)).push(
                rest@[i as int],
            ));
            i = i + 1;
        }
        assert(rest@.subrange(0, i as int) =~= rest@);
        r
    }

    /// The last component, if any.
    pub fn file_name(&self) -> (r: Option<Vec<u8>>)
        ensures
            self@.len() == 0 ==> r.is_none(),
            self@.len() > 0 ==> r.is_some() && r.unwrap()@ == self@.last(),
    {
        if self.components.len() == 0 {
            None
        } else {
            Some(copy_bytes(&self.components[self.components.len() - 1]))
        }
    }

    /// Equality of paths.
    pub fn path_eq(&self, other: &RelPath) -> (r: bool)
        ensures
            r == (self@ == other@),
    {
        assert(self@.len() == self.components@.len() && other@.len() == other.components@.len());
        if self.components.len() != other.components.len() {
            return false;
        }
        let r = self.starts_with(other);
        assert(self@.subrange(0, self@.len() as int) =~= self@);
        r
    }

    /// `prefix` is this path or one of its ancestors.
    pub fn starts_with(&self, prefix: &RelPath) -> (r: bool)
        ensures
            r == is_prefix(prefix@, self@),
    {
        if prefix.components.len() > self.components.len() {
            return false;
        }
        let mut i: usize = 0;
        while i < prefix.components.len()
            invariant
                i <= prefix@.len() <= self@.len(),
                self@.subrange(0, i as int) == prefix@.subrange(0, i as int),
            decreases prefix@.len() - i,
        {
            if !bytes_eq(&self.components[i], &prefix.components[i]) {
                assert(self@.subrange(0, prefix@.len() as int)[i as int] != prefix@[i as int]);
                return false;
            }
            assert(self@.subrange(0, i as int + 1) =~= self@.subrange(0, i as int).push(self@[i as int]));
            assert(prefix@.subrange(0, i as int + 1) =~= prefix@.subrange(0, i as int).push(
                prefix@[i as int],
            ));
            i = i + 1;
        }
        assert(prefix@.subrange(0, i as int) =~= prefix@);
        true
    }

    /// Depth-first order: component by component, each component byte-wise.
    pub fn path_lt(&self, other: &RelPath) -> (r: bool)
        ensures
            r == path_lt(self@, other@),
    {
        let a = &self.components;
        let b = &other.components;
        let k = common_prefix_len(a, b);
        proof {
            lemma_lex_skip(self@, other@, k as int, component_lt());
        }
        if k == a.len() {
            k < b.len()
        } else if k == b.len() {
            false
        } else {
            let r = bytes_lt(&a[k], &b[k]);
            proof {
                lemma_views_index(a@, k as int);
                lemma_views_index(b@, k as int);
            }
            assert(self@.skip(k as int)[0] == self@[k as int]);
            assert(other@.skip(k as int)[0] == other@[k as int]);
            r
        }
    }
}

/// How many leading components two paths share.
fn common_prefix_len(a: &Vec<Vec<u8>>, b: &Vec<Vec<u8>>) -> (k: usize)
    ensures
        k <= a.len(),
        k <= b.len(),
        views_of(a@).subrange(0, k as int) == views_of(b@).subrange(0, k as int),
        k < a.len() && k < b.len() ==> a@[k as int]@ != b@[k as int]@,
{
    let mut i: usize = 0;
    while i < a.len() && i < b.len()
        invariant
            i <= a.len(),
            i <= b.len(),
            views_of(a@).subrange(0, i as int) == views_of(b@).subrange(0, i as int),
        decreases a.len() - i,
    {
        if !bytes_eq(&a[i], &b[i]) {
            return i;
        }
        proof {
            lemma_views_index(a@, i as int);
            lemma_views_index(b@, i as int);
        }
        assert(views_of(a@).subrange(0, i as int + 1) =~= views_of(a@).subrange(0, i as int).push(
            a@[i as int]@,
        ));
        assert(views_of(b@).subrange(0, i as int + 1) =~= views_of(b@).subrange(0, i as int).push(
            b@[i as int]@,
        ));
        i = i + 1;
    }
    i
}

proof fn lemma_lex_skip<T>(a: Seq<T>, b: Seq<T>, k: int, lt: spec_fn(T, T) -> bool)
    requires
        0 <= k <= a.len(),
        k <= b.len(),
        a.subrange(0, k) == b.subrange(0, k),
    ensures
        lex_lt(a, b, lt) == lex_lt(a.skip(k), b.skip(k), lt),
    decreases k,
{
    if k == 0 {
        assert(a.skip(0) =~= a && b.skip(0) =~= b);
    } else {
        assert(a.subrange(0, k - 1) =~= a.subrange(0, k).subrange(0, k - 1));
        assert(b.subrange(0, k - 1) =~= b.subrange(0, k).subrange(0, k - 1));
        assert(a[k - 1] == a.subrange(0, k)[k - 1]);
        assert(b[k - 1] == b.subrange(0, k)[k - 1]);
        lemma_lex_skip(a, b, k - 1, lt);
        lemma_lex_step(a, b, k - 1, lt);
    }
}

} // verus!

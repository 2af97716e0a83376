use vstd::prelude::*;

use crate::opts::DisplayMode;
use crate::rank::{
    entries,
    is_top,
    lemma_offer_all_append,
    lemma_select_is_top,
    offer_all,
    offer_entry,
    select,
    CtNode,
    Entry,
};
use crate::text::{
    compare_text,
    lemma_text_lt_irreflexive,
    lemma_text_lt_transitive,
    text_lt,
    trim_end_owned,
    trimmed_end,
};

verus! {

/// One prefix of command tokens. `count_inclusive` counts the history lines
/// that pass through this prefix, `count_exact` those that end exactly here.
/// Children are kept in ascending order of their token, one per token.
#[derive(Debug)]
pub struct Node {
    pub children: Vec<(String, Node)>,
    pub count_inclusive: usize,
    pub count_exact: usize,
}

/// Sum of the inclusive counts of a run of children.
pub open spec fn sum_inclusive(cs: Seq<(String, Node)>) -> int
    decreases cs.len(),
{
    if cs.len() == 0 {
        0
    } else {
        sum_inclusive(cs.drop_last()) + cs.last().1.count_inclusive
    }
}

/// Child tokens strictly ascend, so no token appears twice.
pub open spec fn keys_ordered(cs: Seq<(String, Node)>) -> bool {
    forall|i: int, j: int| 0 <= i < j < cs.len() ==> text_lt(#[trigger] cs[i].0@, #[trigger] cs[j].0@)
}

/// The trie's invariant, at this node and below: every line that passes
/// through a node either ends there or passes through exactly one child, and
/// every child has had a line pass through it.
pub open spec fn node_wf(n: Node) -> bool
    decreases n,
{
    &&& n.count_exact <= n.count_inclusive
    &&& n.count_inclusive == n.count_exact + sum_inclusive(n.children@)
    &&& keys_ordered(n.children@)
    &&& forall|i: int| 0 <= i < n.children@.len() ==> (#[trigger] n.children@[i]).1.count_inclusive > 0
    &&& forall|i: int| 0 <= i < n.children@.len() ==> node_wf(#[trigger] n.children@[i].1)
}

/// The child reached by token `tok`, if any.
pub open spec fn child_of(cs: Seq<(String, Node)>, tok: Seq<char>) -> Option<Node>
    decreases cs.len(),
{
    if cs.len() == 0 {
        None
    } else if cs.last().0@ == tok {
        Some(cs.last().1)
    } else {
        child_of(cs.drop_last(), tok)
    }
}

/// How many lines ended exactly at the prefix `path` below `n`.
pub open spec fn exact_at(n: Node, path: Seq<Seq<char>>) -> int
    decreases path.len(),
{
    if path.len() == 0 {
        n.count_exact as int
    } else {
        match child_of(n.children@, path[0]) {
            Some(c) => exact_at(c, path.drop_first()),
            None => 0,
        }
    }
}

/// How many lines passed through the prefix `path` below `n`.
pub open spec fn inclusive_at(n: Node, path: Seq<Seq<char>>) -> int
    decreases path.len(),
{
    if path.len() == 0 {
        n.count_inclusive as int
    } else {
        match child_of(n.children@, path[0]) {
            Some(c) => inclusive_at(c, path.drop_first()),
            None => 0,
        }
    }
}

/// The tokens of a line, as texts.
pub open spec fn tokens(toks: Seq<String>) -> Seq<Seq<char>> {
    toks.map_values(|t: String| t@)
}

pub open spec fn is_empty_node(n: Node) -> bool {
    n.children@.len() == 0 && n.count_inclusive == 0 && n.count_exact == 0
}

/// Whether a node is a candidate of the report under `mode`. The fuzzy policy
/// keeps a prefix only when at least a tenth of its traffic ends there.
pub open spec fn qualifies(mode: DisplayMode, n: Node) -> bool {
    match mode {
        DisplayMode::Fuzzy => n.count_exact != 0 && (n.count_exact as int * 10) / (
        n.count_inclusive as int) >= 1,
        _ => true,
    }
}

/// The score of a node under `mode`.
pub open spec fn score(mode: DisplayMode, n: Node) -> int {
    match mode {
        DisplayMode::Exact => n.count_exact as int,
        _ => n.count_inclusive as int,
    }
}

/// The prefix text below a child: the parent's prefix, the token, a space.
pub open spec fn step_text(prefix: Seq<char>, tok: Seq<char>) -> Seq<char> {
    prefix + tok + seq![' ']
}

/// Every candidate below `n` (never `n` itself), in traversal order: for each
/// child in ascending token order, the candidates below it, then the child.
pub open spec fn candidates(n: Node, mode: DisplayMode, prefix: Seq<char>) -> Seq<Entry>
    decreases n,
{
    candidates_upto(n, mode, prefix, n.children@.len() as int)
}

/// The candidates contributed by the first `k` children of `n`.
pub open spec fn candidates_upto(n: Node, mode: DisplayMode, prefix: Seq<char>, k: int) -> Seq<
    Entry,
>
    decreases n, k,
{
    if k <= 0 || k > n.children@.len() {
        Seq::empty()
    } else {
        let c = n.children@[k - 1];
        let next = step_text(prefix, c.0@);
        candidates_upto(n, mode, prefix, k - 1) + candidates(c.1, mode, next) + if qualifies(
            mode,
            c.1,
        ) {
            seq![(score(mode, c.1), trimmed_end(next))]
        } else {
            Seq::empty()
        }
    }
}

proof fn lemma_sum_append(a: Seq<(String, Node)>, b: Seq<(String, Node)>)
    ensures
        sum_inclusive(a + b) == sum_inclusive(a) + sum_inclusive(b),
    decreases b.len(),
{
    if b.len() == 0 {
        assert(a + b == a);
    } else {
        lemma_sum_append(a, b.drop_last());
        assert((a + b).drop_last() == a + b.drop_last());
    }
}

proof fn lemma_sum_nonneg(cs: Seq<(String, Node)>)
    ensures
        sum_inclusive(cs) >= 0,
    decreases cs.len(),
{
    if cs.len() > 0 {
        lemma_sum_nonneg(cs.drop_last());
    }
}

proof fn lemma_sum_split(cs: Seq<(String, Node)>, i: int)
    requires
        0 <= i < cs.len(),
    ensures
        sum_inclusive(cs) == sum_inclusive(cs.subrange(0, i)) + cs[i].1.count_inclusive
            + sum_inclusive(cs.subrange(i + 1, cs.len() as int)),
        cs[i].1.count_inclusive <= sum_inclusive(cs),
{
    let a = cs.subrange(0, i);
    let b = cs.subrange(i + 1, cs.len() as int);
    assert(cs == a + seq![cs[i]] + b);
    lemma_sum_append(a + seq![cs[i]], b);
    lemma_sum_append(a, seq![cs[i]]);
    assert(seq![cs[i]].drop_last() == Seq::<(String, Node)>::empty());
    assert(sum_inclusive(seq![cs[i]]) == sum_inclusive(Seq::<(String, Node)>::empty())
        + cs[i].1.count_inclusive);
    lemma_sum_nonneg(a);
    lemma_sum_nonneg(b);
}

proof fn lemma_child_of_at(cs: Seq<(String, Node)>, i: int)
    requires
        keys_ordered(cs),
        0 <= i < cs.len(),
    ensures
        child_of(cs, cs[i].0@) == Some(cs[i].1),
    decreases cs.len(),
{
    if i < cs.len() - 1 {
        assert(text_lt(cs[i].0@, cs[cs.len() - 1].0@));
        lemma_text_lt_irreflexive(cs[i].0@);
        let d = cs.drop_last();
        assert(keys_ordered(d)) by {
            assert forall|a: int, b: int| 0 <= a < b < d.len() implies text_lt(
                #[trigger] d[a].0@,
                #[trigger] d[b].0@,
            ) by {
                assert(d[a] == cs[a] && d[b] == cs[b]);
            }
        }
        lemma_child_of_at(d, i);
        assert(d[i] == cs[i]);
    }
}

proof fn lemma_child_of_none(cs: Seq<(String, Node)>, tok: Seq<char>)
    requires
        forall|i: int| 0 <= i < cs.len() ==> (#[trigger] cs[i]).0@ != tok,
    ensures
        child_of(cs, tok) is None,
    decreases cs.len(),
{
    if cs.len() > 0 {
        let d = cs.drop_last();
        assert forall|i: int| 0 <= i < d.len() implies (#[trigger] d[i]).0@ != tok by {
            assert(d[i] == cs[i]);
        }
        lemma_child_of_none(d, tok);
    }
}

proof fn lemma_empty_node(n: Node, path: Seq<Seq<char>>)
    requires
        is_empty_node(n),
    ensures
        exact_at(n, path) == 0,
        inclusive_at(n, path) == 0,
{
    if path.len() > 0 {
        assert(n.children@.len() == 0);
    }
}

/// Where `tok` stands, or would stand, among ordered children: every token
/// before the slot is smaller; the flag says whether the slot holds `tok`.
fn find_slot(cs: &Vec<(String, Node)>, tok: &str) -> (r: (usize, bool))
    ensures
        r.0 <= cs@.len(),
        forall|j: int| 0 <= j < r.0 ==> text_lt(#[trigger] cs@[j].0@, tok@),
        r.1 ==> r.0 < cs@.len() && cs@[r.0 as int].0@ == tok@,
        !r.1 ==> (r.0 < cs@.len() ==> text_lt(tok@, cs@[r.0 as int].0@)),
{
    let mut i: usize = 0;
    while i < cs.len()
        invariant
            i <= cs@.len(),
            forall|j: int| 0 <= j < i ==> text_lt(#[trigger] cs@[j].0@, tok@),
        decreases cs@.len() - i,
    {
        let c = compare_text(cs[i].0.as_str(), tok);
        if c == 0 {
            return (i, true);
        } else if c == 1 {
            return (i, false);
        }
        i = i + 1;
    }
    (i, false)
}

proof fn lemma_sum_insert(cs: Seq<(String, Node)>, pos: int, e: (String, Node))
    requires
        0 <= pos <= cs.len(),
    ensures
        sum_inclusive(cs.insert(pos, e)) == sum_inclusive(cs) + e.1.count_inclusive,
{
    let a = cs.subrange(0, pos);
    let b = cs.subrange(pos, cs.len() as int);
    assert(cs == a + b);
    assert(cs.insert(pos, e) == a + seq![e] + b);
    lemma_sum_append(a, b);
    lemma_sum_append(a + seq![e], b);
    lemma_sum_append(a, seq![e]);
    assert(seq![e].drop_last() == Seq::<(String, Node)>::empty());
    assert(sum_inclusive(seq![e]) == sum_inclusive(Seq::<(String, Node)>::empty())
        + e.1.count_inclusive);
}

proof fn lemma_sum_update(cs: Seq<(String, Node)>, pos: int, e: (String, Node))
    requires
        0 <= pos < cs.len(),
    ensures
        sum_inclusive(cs.update(pos, e)) == sum_inclusive(cs) - cs[pos].1.count_inclusive
            + e.1.count_inclusive,
{
    let u = cs.update(pos, e);
    lemma_sum_split(cs, pos);
    lemma_sum_split(u, pos);
    assert(u.subrange(0, pos) == cs.subrange(0, pos));
    assert(u.subrange(pos + 1, u.len() as int) == cs.subrange(pos + 1, cs.len() as int));
}

proof fn lemma_insert_ordered(cs: Seq<(String, Node)>, pos: int, e: (String, Node))
    requires
        keys_ordered(cs),
        0 <= pos <= cs.len(),
        forall|j: int| 0 <= j < pos ==> text_lt(#[trigger] cs[j].0@, e.0@),
        pos < cs.len() ==> text_lt(e.0@, cs[pos].0@),
    ensures
        keys_ordered(cs.insert(pos, e)),
        forall|j: int| 0 <= j < cs.len() ==> (#[trigger] cs[j]).0@ != e.0@,
{
    let c = cs.insert(pos, e);
    assert forall|j: int| 0 <= j < cs.len() implies (#[trigger] cs[j]).0@ != e.0@ by {
        lemma_text_lt_irreflexive(e.0@);
        if j > pos {
            assert(text_lt(cs[pos].0@, cs[j].0@));
            lemma_text_lt_transitive(e.0@, cs[pos].0@, cs[j].0@);
        }
    }
    assert forall|a: int, b: int| 0 <= a < b < c.len() implies text_lt(
        #[trigger] c[a].0@,
        #[trigger] c[b].0@,
    ) by {
        if b < pos {
            assert(c[a] == cs[a] && c[b] == cs[b]);
        } else if b == pos {
            assert(c[a] == cs[a]);
        } else {
            assert(c[b] == cs[b - 1]);
            if b - 1 > pos {
                assert(text_lt(cs[pos].0@, cs[b - 1].0@));
                lemma_text_lt_transitive(e.0@, cs[pos].0@, cs[b - 1].0@);
            }
            assert(text_lt(e.0@, c[b].0@));
            if a < pos {
                assert(c[a] == cs[a]);
                lemma_text_lt_transitive(c[a].0@, e.0@, c[b].0@);
            } else if a > pos {
                assert(c[a] == cs[a - 1]);
            }
        }
    }
}

proof fn lemma_lookup_insert(cs: Seq<(String, Node)>, pos: int, e: (String, Node))
    requires
        keys_ordered(cs),
        keys_ordered(cs.insert(pos, e)),
        0 <= pos <= cs.len(),
    ensures
        forall|t: Seq<char>| t != e.0@ ==> child_of(#[trigger] cs.insert(pos, e), t) == child_of(cs, t),
{
    let c = cs.insert(pos, e);
    assert forall|t: Seq<char>| t != e.0@ implies child_of(#[trigger] cs.insert(pos, e), t) == child_of(cs, t) by {
        if exists|j: int| 0 <= j < cs.len() && (#[trigger] cs[j]).0@ == t {
            let j = choose|j: int| 0 <= j < cs.len() && (#[trigger] cs[j]).0@ == t;
            lemma_child_of_at(cs, j);
            let i = if j >= pos {
                j + 1
            } else {
                j
            };
            assert(c[i] == cs[j]);
            lemma_child_of_at(c, i);
        } else {
            lemma_child_of_none(cs, t);
            assert forall|i: int| 0 <= i < c.len() implies (#[trigger] c[i]).0@ != t by {
                if i < pos {
                    assert(c[i] == cs[i]);
                } else if i > pos {
                    assert(c[i] == cs[i - 1]);
                }
            }
            lemma_child_of_none(c, t);
        }
    }
}

proof fn lemma_lookup_update(cs: Seq<(String, Node)>, pos: int, e: (String, Node))
    requires
        keys_ordered(cs),
        0 <= pos < cs.len(),
        cs[pos].0@ == e.0@,
    ensures
        keys_ordered(cs.update(pos, e)),
        child_of(cs.update(pos, e), e.0@) == Some(e.1),
        child_of(cs, e.0@) == Some(cs[pos].1),
        forall|t: Seq<char>| t != e.0@ ==> child_of(#[trigger] cs.update(pos, e), t) == child_of(cs, t),
{
    let c = cs.update(pos, e);
    assert forall|a: int, b: int| 0 <= a < b < c.len() implies text_lt(
        #[trigger] c[a].0@,
        #[trigger] c[b].0@,
    ) by {
        assert(c[a].0@ == cs[a].0@ && c[b].0@ == cs[b].0@);
    }
    lemma_child_of_at(c, pos);
    lemma_child_of_at(cs, pos);
    assert forall|t: Seq<char>| t != e.0@ implies child_of(#[trigger] cs.update(pos, e), t) == child_of(cs, t) by {
        if exists|j: int| 0 <= j < cs.len() && (#[trigger] cs[j]).0@ == t {
            let j = choose|j: int| 0 <= j < cs.len() && (#[trigger] cs[j]).0@ == t;
            lemma_child_of_at(cs, j);
            assert(c[j] == cs[j]);
            lemma_child_of_at(c, j);
        } else {
            lemma_child_of_none(cs, t);
            assert forall|i: int| 0 <= i < c.len() implies (#[trigger] c[i]).0@ != t by {
                if i != pos {
                    assert(c[i] == cs[i]);
                }
            }
            lemma_child_of_none(c, t);
        }
    }
}

proof fn lemma_prefix_step(p: Seq<Seq<char>>, rest: Seq<Seq<char>>)
    requires
        p.len() > 0,
    ensures
        rest.len() > 0 && p[0] == rest[0] ==> (p.is_prefix_of(rest) == p.drop_first().is_prefix_of(
            rest.drop_first(),
        )),
        rest.len() == 0 || p[0] != rest[0] ==> !p.is_prefix_of(rest),
{
    if rest.len() > 0 && p[0] == rest[0] {
        let q = p.drop_first();
        let r = rest.drop_first();
        if q.is_prefix_of(r) {
            assert forall|k: int| 0 <= k < p.len() implies p[k] == rest.subrange(0, p.len() as int)[k] by {
                if k > 0 {
                    assert(p[k] == q[k - 1]);
                    assert(rest[k] == r[k - 1]);
                    assert(r.subrange(0, q.len() as int)[k - 1] == r[k - 1]);
                }
            }
            assert(p =~= rest.subrange(0, p.len() as int));
        }
        if p.is_prefix_of(rest) {
            assert forall|k: int| 0 <= k < q.len() implies q[k] == r.subrange(0, q.len() as int)[k] by {
                assert(q[k] == p[k + 1]);
                assert(r[k] == rest[k + 1]);
                assert(rest.subrange(0, p.len() as int)[k + 1] == rest[k + 1]);
            }
            assert(q =~= r.subrange(0, q.len() as int));
        }
    }
    if rest.len() > 0 && p[0] != rest[0] && p.len() <= rest.len() {
        assert(rest.subrange(0, p.len() as int)[0] == rest[0]);
    }
}

proof fn lemma_path_step(p: Seq<Seq<char>>, rest: Seq<Seq<char>>)
    requires
        p.len() > 0,
        rest.len() > 0,
        p[0] == rest[0],
    ensures
        (p == rest) == (p.drop_first() == rest.drop_first()),
{
    if p.drop_first() == rest.drop_first() {
        assert(p.drop_first().len() == p.len() - 1);
        assert(rest.drop_first().len() == rest.len() - 1);
        assert(p.len() == rest.len());
        assert forall|k: int| 0 <= k < p.len() implies p[k] == rest[k] by {
            if k > 0 {
                assert(p[k] == p.drop_first()[k - 1]);
                assert(rest[k] == rest.drop_first()[k - 1]);
            }
        }
        assert(p =~= rest);
    }
}

impl Node {
    /// An empty trie: no children, both counts zero.
    pub fn new() -> (r: Self)
        ensures
            is_empty_node(r),
            node_wf(r),
    {
        let r = Node { children: Vec::new(), count_inclusive: 0, count_exact: 0 };
        assert(sum_inclusive(r.children@) == 0);
        r
    }

    /// Records one history line, given as its tokens.
    pub fn chomp(&mut self, toks: &[String])
        requires
            node_wf(*old(self)),
            old(self).count_inclusive < usize::MAX,
        ensures
            node_wf(*final(self)),
            final(self).count_inclusive == old(self).count_inclusive + 1,
            forall|p: Seq<Seq<char>>|
                #[trigger] exact_at(*final(self), p) == exact_at(*old(self), p) + if p
                    == tokens(toks@) {
                    1int
                } else {
                    0int
                },
            forall|p: Seq<Seq<char>>|
                #[trigger] inclusive_at(*final(self), p) == inclusive_at(*old(self), p) + if p.is_prefix_of(
                    tokens(toks@),
                ) {
                    1int
                } else {
                    0int
                },
    {
        self.chomp_from(toks, 0);
        assert(tokens(toks@).subrange(0, toks@.len() as int) == tokens(toks@));
    }

    fn chomp_from(&mut self, toks: &[String], start: usize)
        requires
            node_wf(*old(self)),
            old(self).count_inclusive < usize::MAX,
            start <= toks@.len(),
        ensures
            node_wf(*final(self)),
            final(self).count_inclusive == old(self).count_inclusive + 1,
            forall|p: Seq<Seq<char>>|
                #[trigger] exact_at(*final(self), p) == exact_at(*old(self), p) + if p
                    == tokens(toks@).subrange(start as int, toks@.len() as int) {
                    1int
                } else {
                    0int
                },
            forall|p: Seq<Seq<char>>|
                #[trigger] inclusive_at(*final(self), p) == inclusive_at(*old(self), p) + if p.is_prefix_of(
                    tokens(toks@).subrange(start as int, toks@.len() as int),
                ) {
                    1int
                } else {
                    0int
                },
        decreases toks@.len() - start,
    {
        let ghost rest = tokens(toks@).subrange(start as int, toks@.len() as int);
        let ghost cs0 = self.children@;
        proof {
            lemma_sum_nonneg(cs0);
        }
        self.count_inclusive = self.count_inclusive + 1;
        if start == toks.len() {
            self.count_exact = self.count_exact + 1;
            proof {
                assert(rest.len() == 0);
                assert forall|p: Seq<Seq<char>>|
                    #[trigger] exact_at(*self, p) == exact_at(*old(self), p) + if p == rest {
                        1int
                    } else {
                        0int
                    } by {
                    if p.len() == 0 {
                        assert(p == rest);
                    }
                }
                assert forall|p: Seq<Seq<char>>|
                    #[trigger] inclusive_at(*self, p) == inclusive_at(*old(self), p) + if p.is_prefix_of(rest) {
                        1int
                    } else {
                        0int
                    } by {
                    if p.len() == 0 {
                        assert(p.is_prefix_of(rest));
                    } else {
                        lemma_prefix_step(p, rest);
                    }
                }
                assert forall|i: int| 0 <= i < self.children@.len() implies (#[trigger] self.children@[i]).1.count_inclusive > 0 by {
                    assert(cs0[i].1.count_inclusive > 0);
                }
                assert forall|i: int| 0 <= i < self.children@.len() implies node_wf(
                    #[trigger] self.children@[i].1,
                ) by {
                    assert(node_wf(cs0[i].1));
                }
            }
            return;
        }
        let tok = &toks[start];
        let (pos, found) = find_slot(&self.children, tok.as_str());
        if !found {
            let fresh = Node::new();
            self.children.insert(pos, (tok.clone(), fresh));
            proof {
                let e = self.children@[pos as int];
                assert(self.children@ == cs0.insert(pos as int, e));
                lemma_insert_ordered(cs0, pos as int, e);
                lemma_sum_insert(cs0, pos as int, e);
                lemma_lookup_insert(cs0, pos as int, e);
                lemma_child_of_none(cs0, tok@);
            }
        }
        let ghost cs1 = self.children@;
        proof {
            lemma_sum_split(cs1, pos as int);
            assert(forall|i: int| 0 <= i < cs1.len() ==> node_wf(#[trigger] cs1[i].1)) by {
                assert forall|i: int| 0 <= i < cs1.len() implies node_wf(#[trigger] cs1[i].1) by {
                    if found || i < pos {
                        assert(cs1[i] == cs0[i]);
                    } else if i > pos {
                        assert(cs1[i] == cs0[i - 1]);
                    }
                }
            }
        }
        let (key, mut child) = self.children.remove(pos);
        let ghost child0 = child;
        assert(child0 == cs1[pos as int].1);
        child.chomp_from(toks, start + 1);
        self.children.insert(pos, (key, child));
        proof {
            let cs2 = self.children@;
            let e = (key, child);
            assert(cs2 == cs1.update(pos as int, e));
            lemma_sum_update(cs1, pos as int, e);
            lemma_lookup_update(cs1, pos as int, e);
            assert forall|i: int| 0 <= i < cs2.len() implies node_wf(#[trigger] cs2[i].1) by {
                if i != pos {
                    assert(cs2[i] == cs1[i]);
                }
            }
            assert forall|i: int| 0 <= i < cs2.len() implies (#[trigger] cs2[i]).1.count_inclusive > 0 by {
                if i != pos {
                    assert(cs2[i] == cs1[i]);
                    if found || i < pos {
                        assert(cs1[i] == cs0[i]);
                    } else {
                        assert(cs1[i] == cs0[i - 1]);
                    }
                }
            }
            assert(key@ == tok@);
            if found {
                assert(cs1 == cs0);
                assert(child_of(cs0, tok@) == Some(child0));
            } else {
                assert(child_of(cs0, tok@) is None);
            }
            let rest1 = tokens(toks@).subrange(start + 1, toks@.len() as int);
            assert(rest.drop_first() == rest1);
            assert(rest[0] == tok@);
            assert forall|p: Seq<Seq<char>>|
                #[trigger] exact_at(*self, p) == exact_at(*old(self), p) + if p == rest {
                    1int
                } else {
                    0int
                } by {
                if p.len() > 0 {
                    if p[0] == tok@ {
                        assert(child_of(cs2, tok@) == Some(child));
                        assert(exact_at(*self, p) == exact_at(child, p.drop_first()));
                        lemma_path_step(p, rest);
                        if !found {
                            lemma_empty_node(child0, p.drop_first());
                        }
                    } else {
                        assert(child_of(cs2, p[0]) == child_of(cs1, p[0]));
                        assert(child_of(cs1, p[0]) == child_of(cs0, p[0]));
                        assert(p != rest);
                    }
                } else {
                    assert(p != rest);
                }
            }
            assert forall|p: Seq<Seq<char>>|
                #[trigger] inclusive_at(*self, p) == inclusive_at(*old(self), p) + if p.is_prefix_of(rest) {
                    1int
                } else {
                    0int
                } by {
                if p.len() > 0 {
                    lemma_prefix_step(p, rest);
                    if p[0] == tok@ {
                        assert(child_of(cs2, tok@) == Some(child));
                        assert(inclusive_at(*self, p) == inclusive_at(child, p.drop_first()));
                        if !found {
                            lemma_empty_node(child0, p.drop_first());
                        }
                    } else {
                        assert(child_of(cs2, p[0]) == child_of(cs1, p[0]));
                        assert(child_of(cs1, p[0]) == child_of(cs0, p[0]));
                    }
                } else {
                    assert(p.is_prefix_of(rest));
                }
            }
        }
    }

    /// Offers every candidate below this node under `mode`, in traversal
    /// order, to a best-first buffer of at most `limit` entries.
    fn gather(&self, mode: DisplayMode, limit: usize, prefix: &String, buf: &mut Vec<CtNode>)
        requires
            node_wf(*self),
        ensures
            entries(final(buf)@) == offer_all(
                entries(old(buf)@),
                candidates(*self, mode, prefix@),
                limit as int,
            ),
        decreases *self,
    {
        let ghost b0 = entries(buf@);
        let mut k: usize = 0;
        while k < self.children.len()
            invariant
                node_wf(*self),
                k <= self.children@.len(),
                entries(buf@) == offer_all(
                    b0,
                    candidates_upto(*self, mode, prefix@, k as int),
                    limit as int,
                ),
            decreases self.children@.len() - k,
        {
            let key = &self.children[k].0;
            let child = &self.children[k].1;
            assert(node_wf(self.children@[k as int].1));
            let mut next = prefix.clone();
            next.append(key.as_str());
            next.append(" ");
            proof {
                reveal_strlit(" ");
                assert(next@ == step_text(prefix@, key@));
            }
            let ghost before = candidates_upto(*self, mode, prefix@, k as int);
            let ghost below = candidates(*child, mode, next@);
            child.gather(mode, limit, &next, buf);
            proof {
                lemma_offer_all_append(b0, before, below, limit as int);
            }
            let keep = match mode {
                DisplayMode::Fuzzy => child.count_exact != 0 && (child.count_exact as u128) * 10
                    / (child.count_inclusive as u128) >= 1,
                _ => true,
            };
            let count = match mode {
                DisplayMode::Exact => child.count_exact,
                _ => child.count_inclusive,
            };
            if keep {
                let text = trim_end_owned(next.as_str());
                let ghost own = seq![(score(mode, *child), trimmed_end(next@))];
                offer_entry(buf, CtNode { count, full_text: text }, limit);
                proof {
                    lemma_offer_all_append(b0, before + below, own, limit as int);
                    assert(offer_all(offer_all(b0, before + below, limit as int), own, limit as int)
                        == crate::rank::offer(
                        offer_all(b0, before + below, limit as int),
                        (score(mode, *child), trimmed_end(next@)),
                        limit as int,
                    )) by {
                        let x = offer_all(b0, before + below, limit as int);
                        assert(own.drop_last() == Seq::<Entry>::empty());
                        assert(own.last() == (score(mode, *child), trimmed_end(next@)));
                        assert(offer_all(x, Seq::<Entry>::empty(), limit as int) == x);
                    }
                    assert(candidates_upto(*self, mode, prefix@, k + 1) == before + below + own);
                }
            } else {
                proof {
                    assert(candidates_upto(*self, mode, prefix@, k + 1) == before + below
                        + Seq::<Entry>::empty());
                    assert(before + below + Seq::<Entry>::empty() == before + below);
                }
            }
            k = k + 1;
        }
    }

    /// The best `ct` candidates below this node under `mode`, best first; the
    /// texts of candidates start with `prefix`.
    pub fn top_by(&self, mode: DisplayMode, ct: usize, prefix: &str) -> (r: Vec<CtNode>)
        requires
            node_wf(*self),
        ensures
            entries(r@) == select(candidates(*self, mode, prefix@), ct as int),
            is_top(entries(r@), candidates(*self, mode, prefix@), ct as int),
    {
        let mut buf: Vec<CtNode> = Vec::new();
        let start = String::from_str(prefix);
        proof {
            assert(entries(buf@) == Seq::<Entry>::empty());
        }
        self.gather(mode, ct, &start, &mut buf);
        proof {
            lemma_select_is_top(candidates(*self, mode, prefix@), ct as int);
        }
        buf
    }

    /// The best `ct` commands by how often exactly that command was run.
    pub fn top_exclusive(&self, ct: usize, prefix: &str) -> (r: Vec<CtNode>)
        requires
            node_wf(*self),
        ensures
            entries(r@) == select(candidates(*self, DisplayMode::Exact, prefix@), ct as int),
            is_top(entries(r@), candidates(*self, DisplayMode::Exact, prefix@), ct as int),
    {
        self.top_by(DisplayMode::Exact, ct, prefix)
    }

    /// The best `ct` prefixes by the traffic through them.
    pub fn top_inclusive(&self, ct: usize, prefix: &str) -> (r: Vec<CtNode>)
        requires
            node_wf(*self),
        ensures
            entries(r@) == select(candidates(*self, DisplayMode::Heat, prefix@), ct as int),
            is_top(entries(r@), candidates(*self, DisplayMode::Heat, prefix@), ct as int),
    {
        self.top_by(DisplayMode::Heat, ct, prefix)
    }

    /// The best `ct` prefixes by the traffic through them, leaving out those
    /// that are seldom run on their own (less than a tenth of their traffic).
    pub fn top_inclusive_filt(&self, ct: usize, prefix: &str) -> (r: Vec<CtNode>)
        requires
            node_wf(*self),
        ensures
            entries(r@) == select(candidates(*self, DisplayMode::Fuzzy, prefix@), ct as int),
            is_top(entries(r@), candidates(*self, DisplayMode::Fuzzy, prefix@), ct as int),
    {
        self.top_by(DisplayMode::Fuzzy, ct, prefix)
    }

    /// Builds a trie from history lines, each given as its tokens.
    pub fn from_lines(lines: &Vec<Vec<String>>) -> (r: Node)
        requires
            lines@.len() < usize::MAX,
        ensures
            node_wf(r),
            r.count_inclusive == lines@.len(),
            forall|p: Seq<Seq<char>>| #[trigger] exact_at(r, p) == occurrences(lines@, p),
            forall|p: Seq<Seq<char>>| #[trigger] inclusive_at(r, p) == passages(lines@, p),
    {
        let mut t = Node::new();
        let mut i: usize = 0;
        while i < lines.len()
            invariant
                node_wf(t),
                i <= lines@.len(),
                lines@.len() < usize::MAX,
                t.count_inclusive == i,
                forall|p: Seq<Seq<char>>| #[trigger] exact_at(t, p) == occurrences(
                    lines@.subrange(0, i as int),
                    p,
                ),
                forall|p: Seq<Seq<char>>| #[trigger] inclusive_at(t, p) == passages(
                    lines@.subrange(0, i as int),
                    p,
                ),
            decreases lines@.len() - i,
        {
            t.chomp(lines[i].as_slice());
            proof {
                let done = lines@.subrange(0, i + 1);
                assert(done.drop_last() == lines@.subrange(0, i as int));
                assert(done.last() == lines@[i as int]);
            }
            i = i + 1;
        }
        proof {
            assert forall|p: Seq<Seq<char>>| #[trigger] exact_at(t, p) == occurrences(lines@, p) by {
                assert(lines@.subrange(0, i as int) == lines@);
            }
            assert forall|p: Seq<Seq<char>>| #[trigger] inclusive_at(t, p) == passages(lines@, p) by {
                assert(lines@.subrange(0, i as int) == lines@);
            }
        }
        t
    }
}

/// How many of `lines` have exactly the tokens `path`.
pub open spec fn occurrences(lines: Seq<Vec<String>>, path: Seq<Seq<char>>) -> int
    decreases lines.len(),
{
    if lines.len() == 0 {
        0
    } else {
        occurrences(lines.drop_last(), path) + if tokens(lines.last()@) == path {
            1int
        } else {
            0int
        }
    }
}

/// How many of `lines` pass through the prefix `path`.
pub open spec fn passages(lines: Seq<Vec<String>>, path: Seq<Seq<char>>) -> int
    decreases lines.len(),
{
    if lines.len() == 0 {
        0
    } else {
        passages(lines.drop_last(), path) + if path.is_prefix_of(tokens(lines.last()@)) {
            1int
        } else {
            0int
        }
    }
}

proof fn lemma_child_of_member(cs: Seq<(String, Node)>, tok: Seq<char>)
    requires
        child_of(cs, tok) is Some,
    ensures
        exists|i: int| 0 <= i < cs.len() && cs[i].1 == child_of(cs, tok)->Some_0,
    decreases cs.len(),
{
    if cs.last().0@ != tok {
        lemma_child_of_member(cs.drop_last(), tok);
        let i = choose|i: int|
            0 <= i < cs.drop_last().len() && cs.drop_last()[i].1 == child_of(
                cs.drop_last(),
                tok,
            )->Some_0;
        assert(cs[i] == cs.drop_last()[i]);
    } else {
        assert(cs[cs.len() - 1] == cs.last());
    }
}

/// The node at the prefix `path` below `n`, if that prefix was ever seen.
pub open spec fn node_at(n: Node, path: Seq<Seq<char>>) -> Option<Node>
    decreases path.len(),
{
    if path.len() == 0 {
        Some(n)
    } else {
        match child_of(n.children@, path[0]) {
            Some(c) => node_at(c, path.drop_first()),
            None => None,
        }
    }
}

/// In a well-formed trie, at every node, the lines through the node are at
/// least the lines that end there, and are exactly those that end there plus
/// those that pass through its children.
pub proof fn lemma_counts_balance(n: Node, path: Seq<Seq<char>>)
    requires
        node_wf(n),
    ensures
        node_at(n, path) matches Some(m) ==> {
            &&& m.count_inclusive >= m.count_exact
            &&& m.count_inclusive == m.count_exact + sum_inclusive(m.children@)
        },
    decreases path.len(),
{
    if path.len() > 0 {
        if child_of(n.children@, path[0]) is Some {
            lemma_child_of_member(n.children@, path[0]);
            let i = choose|i: int|
                0 <= i < n.children@.len() && n.children@[i].1 == child_of(
                    n.children@,
                    path[0],
                )->Some_0;
            assert(node_wf(n.children@[i].1));
            lemma_counts_balance(n.children@[i].1, path.drop_first());
        }
    }
}

/// How many nodes lie below `n`, `n` itself left out.
pub open spec fn nodes_below(n: Node) -> int
    decreases n,
{
    nodes_below_upto(n, n.children@.len() as int)
}

/// How many nodes lie in the first `k` subtrees of `n`.
pub open spec fn nodes_below_upto(n: Node, k: int) -> int
    decreases n, k,
{
    if k <= 0 || k > n.children@.len() {
        0
    } else {
        nodes_below_upto(n, k - 1) + nodes_below(n.children@[k - 1].1) + 1
    }
}

/// Under the exact and heat policies every node below `n` is a candidate, so
/// an extraction ranks the whole trie.
pub proof fn lemma_every_node_ranked(n: Node, mode: DisplayMode, prefix: Seq<char>)
    requires
        mode != DisplayMode::Fuzzy,
    ensures
        candidates(n, mode, prefix).len() == nodes_below(n),
    decreases n,
{
    lemma_every_node_ranked_upto(n, mode, prefix, n.children@.len() as int);
}

proof fn lemma_every_node_ranked_upto(n: Node, mode: DisplayMode, prefix: Seq<char>, k: int)
    requires
        mode != DisplayMode::Fuzzy,
    ensures
        candidates_upto(n, mode, prefix, k).len() == nodes_below_upto(n, k),
    decreases n, k,
{
    if 0 < k <= n.children@.len() {
        let c = n.children@[k - 1];
        lemma_every_node_ranked_upto(n, mode, prefix, k - 1);
        lemma_every_node_ranked(c.1, mode, step_text(prefix, c.0@));
    }
}

/// Extraction reads the trie only: two extractions under the same policy,
/// bound and prefix from the same trie give the same entries.
pub proof fn lemma_top_repeatable(
    n: Node,
    mode: DisplayMode,
    ct: usize,
    prefix: Seq<char>,
    r1: Seq<CtNode>,
    r2: Seq<CtNode>,
)
    requires
        entries(r1) == select(candidates(n, mode, prefix), ct as int),
        entries(r2) == select(candidates(n, mode, prefix), ct as int),
    ensures
        entries(r1) == entries(r2),
{
}

/// An extraction returns no more entries than asked for, and no more than
/// there are candidate prefixes under its policy; it returns the best ones,
/// best first.
pub proof fn lemma_top_bounded(n: Node, mode: DisplayMode, ct: usize, prefix: Seq<char>)
    ensures
        select(candidates(n, mode, prefix), ct as int).len() <= ct,
        select(candidates(n, mode, prefix), ct as int).len() <= candidates(n, mode, prefix).len(),
        is_top(select(candidates(n, mode, prefix), ct as int), candidates(n, mode, prefix), ct as int),
{
    lemma_select_is_top(candidates(n, mode, prefix), ct as int);
}

} // verus!

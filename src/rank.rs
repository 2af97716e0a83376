use vstd::multiset::Multiset;
use vstd::prelude::*;

verus! {

/// A ranked result: a command (or command prefix) with the score that the
/// active ranking policy gave it.
#[derive(Debug)]
pub struct CtNode {
    pub count: usize,
    pub full_text: String,
}

/// The mathematical value of an entry: its score and its text.
pub type Entry = (int, Seq<char>);

impl View for CtNode {
    type V = Entry;

    open spec fn view(&self) -> Entry {
        (self.count as int, self.full_text@)
    }
}

/// The entries of a vector of results, as values.
pub open spec fn entries(v: Seq<CtNode>) -> Seq<Entry> {
    v.map_values(|e: CtNode| e@)
}

/// Where an entry of score `c` joins a best-first run: right after the last
/// entry whose score is at least `c`, so that earlier arrivals win ties.
pub open spec fn slot(buf: Seq<Entry>, c: int) -> int
    decreases buf.len(),
{
    if buf.len() == 0 {
        0
    } else if buf.last().0 >= c {
        buf.len() as int
    } else {
        slot(buf.drop_last(), c)
    }
}

/// Offers one entry to a best-first buffer that holds at most `limit` entries;
/// when the buffer overflows, its worst entry is evicted.
pub open spec fn offer(buf: Seq<Entry>, e: Entry, limit: int) -> Seq<Entry> {
    let b = buf.insert(slot(buf, e.0), e);
    if b.len() > limit {
        b.drop_last()
    } else {
        b
    }
}

/// The buffer after offering each entry of `s`, in order, starting from `buf`.
pub open spec fn offer_all(buf: Seq<Entry>, s: Seq<Entry>, limit: int) -> Seq<Entry>
    decreases s.len(),
{
    if s.len() == 0 {
        buf
    } else {
        offer(offer_all(buf, s.drop_last(), limit), s.last(), limit)
    }
}

/// The best `limit` entries of `s`, best first, earlier entries first among
/// equal scores.
pub open spec fn select(s: Seq<Entry>, limit: int) -> Seq<Entry> {
    offer_all(Seq::empty(), s, limit)
}

/// Scores never increase along `r`.
pub open spec fn best_first(r: Seq<Entry>) -> bool {
    forall|i: int, j: int| 0 <= i < j < r.len() ==> #[trigger] r[i].0 >= #[trigger] r[j].0
}

pub open spec fn min_len(limit: int, n: int) -> int {
    if limit < n {
        limit
    } else {
        n
    }
}

/// `r` is a true top-`limit` of `s`: best first, as long as `limit` allows,
/// drawn from `s` (with multiplicity), and every entry of `s` left out scores
/// no more than any entry kept.
pub open spec fn is_top(r: Seq<Entry>, s: Seq<Entry>, limit: int) -> bool {
    &&& best_first(r)
    &&& r.len() == min_len(limit, s.len() as int)
    &&& r.to_multiset().subset_of(s.to_multiset())
    &&& forall|e: Entry|
        s.to_multiset().count(e) > #[trigger] r.to_multiset().count(e) ==> {
            &&& r.len() == limit
            &&& forall|k: int| 0 <= k < r.len() ==> e.0 <= #[trigger] r[k].0
        }
}

proof fn lemma_slot(buf: Seq<Entry>, c: int)
    requires
        best_first(buf),
    ensures
        0 <= slot(buf, c) <= buf.len(),
        forall|i: int| 0 <= i < slot(buf, c) ==> buf[i].0 >= c,
        forall|i: int| slot(buf, c) <= i < buf.len() ==> buf[i].0 < c,
    decreases buf.len(),
{
    if buf.len() > 0 {
        let d = buf.drop_last();
        if buf.last().0 < c {
            assert(best_first(d));
            lemma_slot(d, c);
            assert forall|i: int| 0 <= i < slot(buf, c) implies buf[i].0 >= c by {
                assert(buf[i] == d[i]);
            }
            assert forall|i: int| slot(buf, c) <= i < buf.len() implies buf[i].0 < c by {
                if i < d.len() {
                    assert(buf[i] == d[i]);
                }
            }
        } else {
            assert forall|i: int| 0 <= i < slot(buf, c) implies buf[i].0 >= c by {
                if i < buf.len() - 1 {
                    assert(buf[i].0 >= buf[buf.len() - 1].0);
                }
            }
        }
    }
}

proof fn lemma_offer(buf: Seq<Entry>, s: Seq<Entry>, e: Entry, limit: int)
    requires
        limit >= 0,
        is_top(buf, s, limit),
    ensures
        is_top(offer(buf, e, limit), s.push(e), limit),
{
    broadcast use vstd::seq_lib::to_multiset_build, vstd::seq_lib::to_multiset_insert,
        vstd::seq_lib::to_multiset_remove;

    let p = slot(buf, e.0);
    lemma_slot(buf, e.0);
    let b = buf.insert(p, e);
    let r = offer(buf, e, limit);
    let s2 = s.push(e);
    assert(b.to_multiset() == buf.to_multiset().insert(e));
    assert(s2.to_multiset() == s.to_multiset().insert(e));
    assert(best_first(b)) by {
        assert forall|i: int, j: int| 0 <= i < j < b.len() implies #[trigger] b[i].0
            >= #[trigger] b[j].0 by {
            if j < p {
                assert(b[i] == buf[i] && b[j] == buf[j]);
            } else if j == p {
                assert(b[i] == buf[i]);
            } else if i < p {
                assert(b[i] == buf[i] && b[j] == buf[j - 1]);
            } else if i == p {
                assert(b[j] == buf[j - 1]);
            } else {
                assert(b[i] == buf[i - 1] && b[j] == buf[j - 1]);
            }
        }
    }
    if b.len() > limit {
        let x = b.last();
        assert(b.drop_last() == b.remove(b.len() - 1));
        assert(r.to_multiset() == b.to_multiset().remove(x));
        assert(buf.len() == limit);
        assert forall|y: Entry|
            s2.to_multiset().count(y) > #[trigger] r.to_multiset().count(y) implies {
            &&& r.len() == limit
            &&& forall|k: int| 0 <= k < r.len() ==> y.0 <= #[trigger] r[k].0
        } by {
            assert forall|k: int| 0 <= k < r.len() implies y.0 <= #[trigger] r[k].0 by {
                assert(r[k] == b[k]);
                assert(b[k].0 >= x.0);
                if y != x {
                    assert(s.to_multiset().count(y) > buf.to_multiset().count(y));
                    if p == buf.len() {
                        assert(x == e);
                        assert(r[k] == buf[k]);
                    } else {
                        assert(x == buf.last());
                        assert(y.0 <= buf[buf.len() - 1].0);
                    }
                }
            }
        }
        assert(r.to_multiset().subset_of(s2.to_multiset())) by {
            assert forall|y: Entry| #[trigger] r.to_multiset().count(y) <= s2.to_multiset().count(
                y,
            ) by {
                assert(buf.to_multiset().count(y) <= s.to_multiset().count(y));
            }
        }
    } else {
        assert forall|y: Entry|
            s2.to_multiset().count(y) > #[trigger] r.to_multiset().count(y) implies {
            &&& r.len() == limit
            &&& forall|k: int| 0 <= k < r.len() ==> y.0 <= #[trigger] r[k].0
        } by {
            assert(s.to_multiset().count(y) > buf.to_multiset().count(y));
        }
        assert(r.to_multiset().subset_of(s2.to_multiset())) by {
            assert forall|y: Entry| #[trigger] r.to_multiset().count(y) <= s2.to_multiset().count(
                y,
            ) by {
                assert(buf.to_multiset().count(y) <= s.to_multiset().count(y));
            }
        }
    }
}

/// Offering the entries of `s` one by one, from an empty buffer, yields a
/// true top-`limit` of `s`.
pub proof fn lemma_select_is_top(s: Seq<Entry>, limit: int)
    requires
        limit >= 0,
    ensures
        is_top(select(s, limit), s, limit),
    decreases s.len(),
{
    broadcast use vstd::seq_lib::to_multiset_len, vstd::multiset::lemma_multiset_empty_len;

    if s.len() == 0 {
        assert(s.to_multiset().len() == 0);
        assert(Seq::<Entry>::empty().to_multiset().len() == 0);
        assert(s.to_multiset() == Multiset::<Entry>::empty());
        assert(Seq::<Entry>::empty().to_multiset() == Multiset::<Entry>::empty());
    } else {
        lemma_select_is_top(s.drop_last(), limit);
        lemma_offer(select(s.drop_last(), limit), s.drop_last(), s.last(), limit);
        assert(s.drop_last().push(s.last()) == s);
    }
}

/// Offering `s` and then `t` is offering `s + t`.
pub proof fn lemma_offer_all_append(buf: Seq<Entry>, s: Seq<Entry>, t: Seq<Entry>, limit: int)
    ensures
        offer_all(offer_all(buf, s, limit), t, limit) == offer_all(buf, s + t, limit),
    decreases t.len(),
{
    if t.len() == 0 {
        assert(s + t == s);
    } else {
        lemma_offer_all_append(buf, s, t.drop_last(), limit);
        assert((s + t).drop_last() == s + t.drop_last());
        assert((s + t).last() == t.last());
    }
}

/// Offers `e` to a best-first buffer of at most `limit` entries.
pub fn offer_entry(buf: &mut Vec<CtNode>, e: CtNode, limit: usize)
    ensures
        entries(final(buf)@) == offer(entries(old(buf)@), e@, limit as int),
{
    let ghost b0 = entries(buf@);
    let mut i: usize = buf.len();
    proof {
        assert(b0.subrange(0, i as int) == b0);
    }
    while i > 0 && buf[i - 1].count < e.count
        invariant
            0 <= i <= buf.len(),
            b0 == entries(buf@),
            slot(b0, e@.0) == slot(b0.subrange(0, i as int), e@.0),
        decreases i,
    {
        proof {
            let sub = b0.subrange(0, i as int);
            assert(sub.drop_last() == b0.subrange(0, i - 1));
        }
        i = i - 1;
    }
    proof {
        let sub = b0.subrange(0, i as int);
        if i == 0 {
            assert(sub.len() == 0);
        } else {
            assert(sub.last() == b0[i - 1]);
            assert(b0[i - 1] == buf@[i - 1]@);
        }
        assert(slot(b0, e@.0) == i);
    }
    let ghost pre = buf@;
    buf.insert(i, e);
    proof {
        let b = b0.insert(i as int, e@);
        assert forall|k: int| 0 <= k < b.len() implies #[trigger] entries(buf@)[k] == b[k] by {
            if k < i {
                assert(buf@[k] == pre[k]);
            } else if k > i {
                assert(buf@[k] == pre[k - 1]);
            }
        }
        assert(entries(buf@) =~= b);
    }
    let ghost ins = buf@;
    if buf.len() > limit {
        buf.pop();
    }
    proof {
        assert(entries(old(buf)@) == b0);
        let b = b0.insert(slot(b0, e@.0), e@);
        assert(entries(ins) == b);
        if ins.len() > limit {
            assert(buf@ == ins.drop_last());
            assert(entries(buf@) =~= b.drop_last());
        } else {
            assert(buf@ == ins);
        }
    }
}

/// A ranked entry beside the best score of its report: its share of the best
/// is `node.count / best`, and the best entry's share is whole.
#[derive(Debug)]
pub struct ShareLine {
    pub node: CtNode,
    pub best: usize,
}

/// Pairs each entry of a best-first list with the list's best score, the
/// score of its first entry. An empty list gives an empty result.
pub fn with_best(in_dat: &Vec<CtNode>) -> (r: Vec<ShareLine>)
    ensures
        r@.len() == in_dat@.len(),
        forall|i: int|
            0 <= i < r@.len() ==> (#[trigger] r@[i]).node@ == in_dat@[i]@ && r@[i].best
                == in_dat@[0].count,
{
    let mut out: Vec<ShareLine> = Vec::new();
    if in_dat.len() == 0 {
        return out;
    }
    let best = in_dat[0].count;
    let mut i: usize = 0;
    while i < in_dat.len()
        invariant
            i <= in_dat@.len(),
            in_dat@.len() > 0,
            best == in_dat@[0].count,
            out@.len() == i,
            forall|j: int|
                0 <= j < i ==> (#[trigger] out@[j]).node@ == in_dat@[j]@ && out@[j].best == best,
        decreases in_dat@.len() - i,
    {
        let node = CtNode { count: in_dat[i].count, full_text: in_dat[i].full_text.clone() };
        out.push(ShareLine { node, best });
        i = i + 1;
    }
    out
}

} // verus!

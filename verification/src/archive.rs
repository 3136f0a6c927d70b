//! The in-memory archive: an id -> payload mapping kept sorted by ascending
//! id, which is also the serialization order.

use vstd::prelude::*;

verus! {

/// One archive entry: a numbered payload.
pub struct Entry {
    pub id: u32,
    pub data: Vec<u8>,
}

/// An archive: entries kept in strictly ascending id order.
pub struct Xmd {
    entries: Vec<Entry>,
}

/// Ids strictly ascend, so each id occurs once.
pub open spec fn sorted_ids(m: Seq<(u32, Seq<u8>)>) -> bool {
    forall|i: int, j: int| 0 <= i < j < m.len() ==> m[i].0 < m[j].0
}

/// Where a new pair lands in a sorted sequence: entries with larger ids
/// shift right, an entry with the same id is replaced.
pub open spec fn spec_insert(m: Seq<(u32, Seq<u8>)>, id: u32, p: Seq<u8>) -> Seq<(u32, Seq<u8>)>
    decreases m.len(),
{
    if m.len() == 0 {
        seq![(id, p)]
    } else if m.last().0 < id {
        m.push((id, p))
    } else if m.last().0 == id {
        m.drop_last().push((id, p))
    } else {
        spec_insert(m.drop_last(), id, p).push(m.last())
    }
}

pub proof fn lemma_spec_insert_len(m: Seq<(u32, Seq<u8>)>, id: u32, p: Seq<u8>)
    ensures
        m.len() <= spec_insert(m, id, p).len() <= m.len() + 1,
    decreases m.len(),
{
    if m.len() > 0 && m.last().0 > id {
        lemma_spec_insert_len(m.drop_last(), id, p);
    }
}

/// Inserting keeps the sequence sorted; the elements are the old ones save
/// for the given id.
pub proof fn lemma_spec_insert_sorted(m: Seq<(u32, Seq<u8>)>, id: u32, p: Seq<u8>)
    requires
        sorted_ids(m),
    ensures
        sorted_ids(spec_insert(m, id, p)),
        forall|k: int|
            0 <= k < spec_insert(m, id, p).len() ==> (spec_insert(m, id, p)[k] == (id, p) || (
            exists|t: int| 0 <= t < m.len() && spec_insert(m, id, p)[k] == #[trigger] m[t])),
    decreases m.len(),
{
    let r = spec_insert(m, id, p);
    if m.len() == 0 {
    } else if m.last().0 < id {
    } else if m.last().0 == id {
        assert(forall|k: int| 0 <= k < m.len() - 1 ==> r[k] == m[k]);
    } else {
        assert(sorted_ids(m.drop_last()));
        lemma_spec_insert_sorted(m.drop_last(), id, p);
        let r0 = spec_insert(m.drop_last(), id, p);
        lemma_spec_insert_len(m.drop_last(), id, p);
        assert forall|i: int, j: int| 0 <= i < j < r.len() implies r[i].0 < r[j].0 by {
            if j < r.len() - 1 {
                assert(r[i] == r0[i] && r[j] == r0[j]);
            } else {
                assert(r[j] == m.last());
                assert(r[i] == r0[i]);
                if r0[i] == (id, p) {
                } else {
                    let t = choose|t: int| 0 <= t < m.drop_last().len() && r0[i] == m.drop_last()[t];
                    assert(m.drop_last()[t] == m[t]);
                }
            }
        }
    }
}

/// Inserts of distinct ids commute: the archive built does not depend on
/// the order entries arrive in.
pub proof fn lemma_insert_commutes(
    s: Seq<(u32, Seq<u8>)>,
    id1: u32,
    p1: Seq<u8>,
    id2: u32,
    p2: Seq<u8>,
)
    requires
        sorted_ids(s),
        id1 != id2,
    ensures
        spec_insert(spec_insert(s, id1, p1), id2, p2) == spec_insert(
            spec_insert(s, id2, p2),
            id1,
            p1,
        ),
    decreases s.len(),
{
    let e1 = (id1, p1);
    let e2 = (id2, p2);
    if s.len() == 0 {
        assert(spec_insert(s, id1, p1) == seq![e1]);
        assert(spec_insert(s, id2, p2) == seq![e2]);
        assert(seq![e1].drop_last() =~= Seq::<(u32, Seq<u8>)>::empty());
        assert(seq![e2].drop_last() =~= Seq::<(u32, Seq<u8>)>::empty());
        if id1 < id2 {
            assert(spec_insert(seq![e1], id2, p2) == seq![e1].push(e2));
            assert(spec_insert(seq![e2], id1, p1) == spec_insert(
                Seq::<(u32, Seq<u8>)>::empty(),
                id1,
                p1,
            ).push(e2));
            assert(seq![e1].push(e2) =~= seq![e1, e2]);
            assert(seq![e1].push(e2) =~= spec_insert(seq![e2], id1, p1));
        } else {
            assert(spec_insert(seq![e2], id1, p1) == seq![e2].push(e1));
            assert(spec_insert(seq![e1], id2, p2) == spec_insert(
                Seq::<(u32, Seq<u8>)>::empty(),
                id2,
                p2,
            ).push(e1));
            assert(seq![e2].push(e1) =~= spec_insert(seq![e1], id2, p2));
        }
    } else {
        let l = s.last();
        assert(sorted_ids(s.drop_last())) by {
            assert(forall|k: int| 0 <= k < s.len() - 1 ==> s.drop_last()[k] == s[k]);
        }
        if l.0 > id1 && l.0 > id2 {
            lemma_insert_commutes(s.drop_last(), id1, p1, id2, p2);
            let a = spec_insert(s.drop_last(), id1, p1);
            let b = spec_insert(s.drop_last(), id2, p2);
            assert(spec_insert(s, id1, p1) == a.push(l));
            assert(a.push(l).drop_last() =~= a);
            assert(a.push(l).last() == l);
            assert(spec_insert(a.push(l), id2, p2) == spec_insert(a, id2, p2).push(l));
            assert(spec_insert(s, id2, p2) == b.push(l));
            assert(b.push(l).drop_last() =~= b);
            assert(spec_insert(b.push(l), id1, p1) == spec_insert(b, id1, p1).push(l));
        } else if l.0 < id1 && l.0 < id2 {
            assert(spec_insert(s, id1, p1) == s.push(e1));
            assert(spec_insert(s, id2, p2) == s.push(e2));
            assert(s.push(e1).drop_last() =~= s);
            assert(s.push(e2).drop_last() =~= s);
            if id1 < id2 {
                assert(spec_insert(s.push(e1), id2, p2) == s.push(e1).push(e2));
                assert(spec_insert(s.push(e2), id1, p1) == spec_insert(s, id1, p1).push(e2));
                assert(s.push(e1).push(e2) =~= spec_insert(s, id1, p1).push(e2));
            } else {
                assert(spec_insert(s.push(e2), id1, p1) == s.push(e2).push(e1));
                assert(spec_insert(s.push(e1), id2, p2) == spec_insert(s, id2, p2).push(e1));
                assert(s.push(e2).push(e1) =~= spec_insert(s, id2, p2).push(e1));
            }
        } else if l.0 == id1 {
            let t = s.drop_last().push(e1);
            assert(spec_insert(s, id1, p1) == t);
            assert(t.drop_last() =~= s.drop_last());
            assert(t.last() == e1);
            if id1 < id2 {
                assert(spec_insert(t, id2, p2) == t.push(e2));
                assert(spec_insert(s, id2, p2) == s.push(e2));
                assert(s.push(e2).drop_last() =~= s);
                assert(spec_insert(s.push(e2), id1, p1) == spec_insert(s, id1, p1).push(e2));
                assert(t.push(e2) =~= spec_insert(s, id1, p1).push(e2));
            } else {
                assert(spec_insert(t, id2, p2) == spec_insert(s.drop_last(), id2, p2).push(e1));
                let b = spec_insert(s.drop_last(), id2, p2);
                assert(spec_insert(s, id2, p2) == b.push(l));
                assert(b.push(l).drop_last() =~= b);
                assert(b.push(l).last() == l);
                assert(spec_insert(b.push(l), id1, p1) == b.push(e1));
                assert(b.push(e1) =~= spec_insert(t, id2, p2));
            }
        } else if l.0 < id1 && l.0 > id2 {
            let c = spec_insert(s.drop_last(), id2, p2).push(l);
            assert(spec_insert(s, id1, p1) == s.push(e1));
            assert(s.push(e1).drop_last() =~= s);
            assert(s.push(e1).last() == e1);
            assert(spec_insert(s.push(e1), id2, p2) == spec_insert(s, id2, p2).push(e1));
            assert(spec_insert(s, id2, p2) == c);
            assert(c.last() == l);
            assert(spec_insert(c, id1, p1) == c.push(e1));
        } else if l.0 > id1 && l.0 < id2 {
            let c = spec_insert(s.drop_last(), id1, p1).push(l);
            assert(spec_insert(s, id2, p2) == s.push(e2));
            assert(s.push(e2).drop_last() =~= s);
            assert(s.push(e2).last() == e2);
            assert(spec_insert(s.push(e2), id1, p1) == spec_insert(s, id1, p1).push(e2));
            assert(spec_insert(s, id1, p1) == c);
            assert(c.last() == l);
            assert(spec_insert(c, id2, p2) == c.push(e2));
        } else {
            let t = s.drop_last().push(e2);
            assert(l.0 == id2);
            assert(spec_insert(s, id2, p2) == t);
            assert(t.drop_last() =~= s.drop_last());
            assert(t.last() == e2);
            if id2 < id1 {
                assert(spec_insert(t, id1, p1) == t.push(e1));
                assert(spec_insert(s, id1, p1) == s.push(e1));
                assert(s.push(e1).drop_last() =~= s);
                assert(spec_insert(s.push(e1), id2, p2) == spec_insert(s, id2, p2).push(e1));
                assert(t.push(e1) =~= spec_insert(s, id2, p2).push(e1));
            } else {
                assert(spec_insert(t, id1, p1) == spec_insert(s.drop_last(), id1, p1).push(e2));
                let a = spec_insert(s.drop_last(), id1, p1);
                assert(spec_insert(s, id1, p1) == a.push(l));
                assert(a.push(l).drop_last() =~= a);
                assert(a.push(l).last() == l);
                assert(spec_insert(a.push(l), id2, p2) == a.push(e2));
                assert(a.push(e2) =~= spec_insert(t, id1, p1));
            }
        }
    }
}

impl View for Xmd {
    type V = Seq<(u32, Seq<u8>)>;

    closed spec fn view(&self) -> Seq<(u32, Seq<u8>)> {
        Seq::new(self.entries@.len(), |i: int| (self.entries@[i].id, self.entries@[i].data@))
    }
}

impl Xmd {
    /// The archive invariant: ascending, duplicate-free ids.
    pub open spec fn wf(&self) -> bool {
        sorted_ids(self@)
    }

    /// An empty archive.
    pub fn new() -> (r: Xmd)
        ensures
            r@ == Seq::<(u32, Seq<u8>)>::empty(),
            r.wf(),
    {
        let r = Xmd { entries: Vec::new() };
        proof {
            assert(r@ =~= Seq::<(u32, Seq<u8>)>::empty());
        }
        r
    }

    pub fn num_entries(&self) -> (r: usize)
        ensures
            r == self@.len(),
    {
        self.entries.len()
    }

    pub fn entry_id(&self, i: usize) -> (r: u32)
        requires
            i < self@.len(),
        ensures
            r == self@[i as int].0,
    {
        self.entries[i].id
    }

    pub fn entry_data(&self, i: usize) -> (r: &Vec<u8>)
        requires
            i < self@.len(),
        ensures
            r@ == self@[i as int].1,
    {
        &self.entries[i].data
    }

    /// Puts `data` under `id`, replacing any payload already there.
    pub fn insert(&mut self, id: u32, data: Vec<u8>)
        requires
            old(self).wf(),
        ensures
            final(self)@ == spec_insert(old(self)@, id, data@),
            final(self).wf(),
    {
        let ghost m = self@;
        let mut i: usize = self.entries.len();
        proof {
            assert(m.take(i as int) =~= m);
            assert(spec_insert(m.take(i as int), id, data@) + m.skip(i as int) =~= spec_insert(
                m,
                id,
                data@,
            ));
        }
        while i > 0 && self.entries[i - 1].id > id
            invariant
                0 <= i <= self.entries.len(),
                self@ == m,
                sorted_ids(m),
                m.len() == self.entries@.len(),
                forall|t: int| i <= t < m.len() ==> m[t].0 > id,
                spec_insert(m, id, data@) == spec_insert(m.take(i as int), id, data@) + m.skip(
                    i as int,
                ),
            decreases i,
        {
            proof {
                let pre = m.take(i as int);
                assert(pre.last() == m[i - 1]);
                assert(pre.drop_last() =~= m.take(i - 1));
                assert(spec_insert(pre, id, data@) == spec_insert(m.take(i - 1), id, data@).push(
                    m[i - 1],
                ));
                assert(spec_insert(m.take(i - 1), id, data@).push(m[i - 1]) + m.skip(i as int)
                    =~= spec_insert(m.take(i - 1), id, data@) + m.skip(i - 1));
            }
            i = i - 1;
        }
        proof {
            lemma_spec_insert_sorted(m, id, data@);
        }
        if i > 0 && self.entries[i - 1].id == id {
            proof {
                let pre = m.take(i as int);
                assert(pre.last() == m[i - 1]);
                assert(spec_insert(pre, id, data@) == pre.drop_last().push((id, data@)));
                assert(pre.drop_last() =~= m.take(i - 1));
            }
            self.entries.set(i - 1, Entry { id, data });
            proof {
                assert(self@ =~= m.take(i - 1).push((id, data@)) + m.skip(i as int));
            }
        } else {
            proof {
                let pre = m.take(i as int);
                if i > 0 {
                    assert(pre.last() == m[i - 1]);
                    assert(spec_insert(pre, id, data@) == pre.push((id, data@)));
                } else {
                    assert(pre =~= Seq::<(u32, Seq<u8>)>::empty());
                }
            }
            self.entries.insert(i, Entry { id, data });
            proof {
                assert(self@ =~= m.take(i as int).push((id, data@)) + m.skip(i as int));
            }
        }
    }

    /// Whether two archives hold the same entries.
    pub fn equals(&self, other: &Xmd) -> (r: bool)
        ensures
            r <==> (self@ == other@),
    {
        if self.entries.len() != other.entries.len() {
            proof {
                assert(self@.len() != other@.len());
            }
            return false;
        }
        let n = self.entries.len();
        let mut i: usize = 0;
        while i < n
            invariant
                i <= n,
                n == self@.len(),
                n == other@.len(),
                n == self.entries@.len(),
                n == other.entries@.len(),
                forall|t: int| 0 <= t < i ==> self@[t] == other@[t],
            decreases n - i,
        {
            if self.entries[i].id != other.entries[i].id {
                proof {
                    assert(self@[i as int].0 != other@[i as int].0);
                }
                return false;
            }
            if !(self.entries[i].data == other.entries[i].data) {
                proof {
                    assert(self@[i as int].1 != other@[i as int].1);
                }
                return false;
            }
            proof {
                assert(self@[i as int].1 =~= other@[i as int].1);
                assert(self@[i as int] == other@[i as int]);
            }
            i = i + 1;
        }
        proof {
            assert(self@ =~= other@);
        }
        true
    }
}

} // verus!

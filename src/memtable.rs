//! The in-memory sorted buffer of pending writes and point tombstones.
use crate::codec::copy_range;
use crate::order::{bytes_lt, lemma_lex_irrefl, lemma_lex_total, lemma_lex_trans, lex_lt};
use vstd::prelude::*;

verus! {

/// A pending write: a scalar value or a point tombstone, with its sequence number.
pub enum MemValue {
    Scalar(Vec<u8>, u64),
    PointTomb(u64),
}

/// What a `MemValue` stands for.
pub enum MemVal {
    Scalar(Seq<u8>, u64),
    Tomb(u64),
}

impl MemValue {
    pub open spec fn view(&self) -> MemVal {
        match self {
            MemValue::Scalar(v, s) => MemVal::Scalar(v@, *s),
            MemValue::PointTomb(s) => MemVal::Tomb(*s),
        }
    }

    pub fn clone_value(&self) -> (r: MemValue)
        ensures
            r.view() == self.view(),
    {
        match self {
            MemValue::Scalar(v, s) => {
                let c = copy_range(v.as_slice(), 0, v.len());
                proof {
                    assert(v@.subrange(0, v@.len() as int) == v@);
                }
                MemValue::Scalar(c, *s)
            },
            MemValue::PointTomb(s) => MemValue::PointTomb(*s),
        }
    }
}

impl MemVal {
    pub open spec fn seq(&self) -> u64 {
        match self {
            MemVal::Scalar(_, s) => *s,
            MemVal::Tomb(s) => *s,
        }
    }
}

pub struct MemEntry {
    pub key: Vec<u8>,
    pub value: MemValue,
}

/// Entries sorted strictly by key, and the approximate bytes they hold.
pub struct Memtable {
    pub entries: Vec<MemEntry>,
    pub size: usize,
}

pub open spec fn keys_sorted(s: Seq<MemEntry>) -> bool {
    forall|i: int, j: int| 0 <= i < j < s.len() ==> lex_lt(#[trigger] s[i].key@, #[trigger] s[j].key@)
}

pub open spec fn has_key(s: Seq<MemEntry>, k: Seq<u8>) -> bool {
    exists|i: int| 0 <= i < s.len() && #[trigger] s[i].key@ == k
}

/// The position of an entry for `k`.
pub open spec fn index_of(s: Seq<MemEntry>, k: Seq<u8>) -> int {
    choose|i: int| 0 <= i < s.len() && #[trigger] s[i].key@ == k
}

pub open spec fn entries_map(s: Seq<MemEntry>) -> Map<Seq<u8>, MemVal> {
    Map::new(|k: Seq<u8>| has_key(s, k), |k: Seq<u8>| s[index_of(s, k)].value.view())
}

proof fn lemma_sorted_unique(s: Seq<MemEntry>, i: int, j: int)
    requires
        keys_sorted(s),
        0 <= i < s.len(),
        0 <= j < s.len(),
        s[i].key@ == s[j].key@,
    ensures
        i == j,
{
    if i < j {
        lemma_lex_irrefl(s[i].key@);
    } else if j < i {
        lemma_lex_irrefl(s[i].key@);
    }
}

pub proof fn lemma_map_at(s: Seq<MemEntry>, i: int)
    requires
        keys_sorted(s),
        0 <= i < s.len(),
    ensures
        entries_map(s).contains_key(s[i].key@),
        entries_map(s)[s[i].key@] == s[i].value.view(),
{
    let k = s[i].key@;
    assert(has_key(s, k));
    let j = index_of(s, k);
    lemma_sorted_unique(s, i, j);
    assert(entries_map(s).contains_key(k));
    assert(entries_map(s)[k] == s[j].value.view());
}

impl Memtable {
    pub open spec fn wf(&self) -> bool {
        keys_sorted(self.entries@)
    }

    pub open spec fn view(&self) -> Map<Seq<u8>, MemVal> {
        entries_map(self.entries@)
    }

    pub fn new() -> (r: Memtable)
        ensures
            r.wf(),
            r.view() == Map::<Seq<u8>, MemVal>::empty(),
            r.size == 0,
            r.entries@.len() == 0,
    {
        let r = Memtable { entries: Vec::new(), size: 0 };
        assert(r.view() =~= Map::<Seq<u8>, MemVal>::empty());
        r
    }

    /// Where `key` stands or would stand: the first entry not below it.
    fn position(&self, key: &[u8]) -> (r: usize)
        requires
            self.wf(),
        ensures
            r <= self.entries@.len(),
            forall|i: int| 0 <= i < r ==> lex_lt(#[trigger] self.entries@[i].key@, key@),
            r < self.entries@.len() ==> !lex_lt(self.entries@[r as int].key@, key@),
            forall|i: int| r < i < self.entries@.len() ==> lex_lt(key@, #[trigger] self.entries@[i].key@),
    {
        let mut i: usize = 0;
        while i < self.entries.len()
            invariant
                self.wf(),
                i <= self.entries@.len(),
                forall|j: int| 0 <= j < i ==> lex_lt(#[trigger] self.entries@[j].key@, key@),
            decreases self.entries@.len() - i,
        {
            if !bytes_lt(self.entries[i].key.as_slice(), key) {
                proof {
                    let s = self.entries@;
                    assert forall|j: int| i < j < s.len() implies lex_lt(key@, #[trigger] s[j].key@) by {
                        assert(lex_lt(s[i as int].key@, s[j].key@));
                        lemma_lex_total(key@, s[i as int].key@);
                        if key@ != s[i as int].key@ {
                            lemma_lex_trans(key@, s[i as int].key@, s[j].key@);
                        }
                    }
                }
                return i;
            }
            i = i + 1;
        }
        i
    }

    /// The entry for `key`, if any.
    pub fn get(&self, key: &[u8]) -> (r: Option<&MemValue>)
        requires
            self.wf(),
        ensures
            match r {
                None => !self.view().contains_key(key@),
                Some(v) => self.view().contains_key(key@) && self.view()[key@] == v.view(),
            },
    {
        let i = self.position(key);
        if i < self.entries.len() && crate::codec::bytes_eq(self.entries[i].key.as_slice(), key) {
            proof {
                lemma_map_at(self.entries@, i as int);
            }
            return Some(&self.entries[i].value);
        }
        proof {
            if has_key(self.entries@, key@) {
                let j = choose|j: int| 0 <= j < self.entries@.len() && #[trigger] self.entries@[j].key@ == key@;
                if j < i {
                    lemma_lex_irrefl(key@);
                } else if j > i {
                    lemma_lex_irrefl(key@);
                }
            }
        }
        None
    }

    /// Sets the entry for `key` to `value`, replacing any there.
    pub fn insert(&mut self, key: &[u8], value: MemValue)
        requires
            old(self).wf(),
        ensures
            final(self).wf(),
            final(self).view() == old(self).view().insert(key@, value.view()),
            final(self).size == old(self).size,
    {
        let ghost vv = value.view();
        let i = self.position(key);
        let k = copy_range(key, 0, key.len());
        proof {
            assert(key@.subrange(0, key@.len() as int) == key@);
        }
        let ghost s0 = self.entries@;
        if i < self.entries.len() && crate::codec::bytes_eq(self.entries[i].key.as_slice(), key) {
            self.entries.set(i, MemEntry { key: k, value });
        } else {
            self.entries.insert(i, MemEntry { key: k, value });
        }
        proof {
            let s = self.entries@;
            assert(keys_sorted(s)) by {
                assert forall|a: int, b: int| 0 <= a < b < s.len() implies lex_lt(#[trigger] s[a].key@, #[trigger] s[b].key@) by {
                    if s.len() == s0.len() {
                        if a == i {
                            lemma_lex_total(key@, s0[b].key@);
                        }
                    } else {
                        if a < i && b < i {
                        } else if a < i && b == i {
                        } else if a < i && b > i {
                            assert(s[b] == s0[b - 1]);
                            assert(lex_lt(s0[a].key@, s0[b - 1].key@));
                        } else if a == i {
                            assert(s[b] == s0[b - 1]);
                            if b - 1 == i {
                                lemma_lex_total(key@, s0[i as int].key@);
                            }
                        } else {
                            assert(s[a] == s0[a - 1]);
                            assert(s[b] == s0[b - 1]);
                        }
                    }
                }
            }
            let m = old(self).view().insert(key@, vv);
            assert forall|kk: Seq<u8>| #[trigger] m.contains_key(kk) implies entries_map(s).contains_key(kk) && entries_map(s)[kk] == m[kk] by {
                if kk == key@ {
                    lemma_map_at(s, i as int);
                } else {
                    let j = choose|j: int| 0 <= j < s0.len() && #[trigger] s0[j].key@ == kk;
                    lemma_map_at(s0, j);
                    let jj = if s.len() == s0.len() || j < i { j } else { j + 1 };
                    if s.len() == s0.len() && j == i {
                        assert(false);
                    }
                    assert(s[jj] == s0[j]);
                    lemma_map_at(s, jj);
                }
            }
            assert forall|kk: Seq<u8>| #[trigger] entries_map(s).contains_key(kk) implies m.contains_key(kk) by {
                let j = choose|j: int| 0 <= j < s.len() && #[trigger] s[j].key@ == kk;
                if kk != key@ {
                    let j0 = if s.len() == s0.len() || j < i { j } else { j - 1 };
                    assert(s[j] == s0[j0]);
                    lemma_map_at(s0, j0);
                }
            }
            assert(entries_map(s) =~= m);
        }
    }

    /// Removes every entry.
    pub fn clear(&mut self)
        ensures
            final(self).wf(),
            final(self).view() == Map::<Seq<u8>, MemVal>::empty(),
            final(self).size == 0,
            final(self).entries@.len() == 0,
    {
        self.entries = Vec::new();
        self.size = 0;
        assert(self.view() =~= Map::<Seq<u8>, MemVal>::empty());
    }
}

} // verus!

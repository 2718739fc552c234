//! The in-memory link store: a list of (abbreviation, target) entries kept
//! strictly sorted by abbreviation, viewed as a map from abbreviation bytes
//! to target bytes.  Upserting keeps a single entry per abbreviation.

use vstd::prelude::*;

use crate::order::{bytes_eq, bytes_lt, lemma_lex_lt_connected, lemma_lex_lt_irrefl,
    lemma_lex_lt_trans, lex_lt};

verus! {

/// One stored binding: an abbreviation and the target it stands for.
pub struct Entry {
    pub abbrev: Vec<u8>,
    pub target: Vec<u8>,
}

/// The entries as pairs of byte sequences.
pub open spec fn pairs_of(es: Seq<Entry>) -> Seq<(Seq<u8>, Seq<u8>)> {
    es.map_values(|e: Entry| (e.abbrev@, e.target@))
}

/// Folds a pair sequence into a map, left to right, so that a later pair
/// with the same key overrides an earlier one.
pub open spec fn sp_insert_all(
    m: Map<Seq<u8>, Seq<u8>>,
    es: Seq<(Seq<u8>, Seq<u8>)>,
) -> Map<Seq<u8>, Seq<u8>>
    decreases es.len(),
{
    if es.len() == 0 {
        m
    } else {
        sp_insert_all(m.insert(es[0].0, es[0].1), es.drop_first())
    }
}

/// The keys of a pair sequence are strictly increasing.
pub open spec fn sorted_strict(es: Seq<(Seq<u8>, Seq<u8>)>) -> bool {
    forall|i: int, j: int| 0 <= i < j < es.len() ==> #[trigger] lex_lt(es[i].0, es[j].0)
}

/// `k` occurs as a key somewhere in `es`.
pub open spec fn has_key(es: Seq<(Seq<u8>, Seq<u8>)>, k: Seq<u8>) -> bool {
    exists|j: int| 0 <= j < es.len() && (#[trigger] es[j].0) == k
}

/// The abbreviation-to-target mapping, stored sorted by abbreviation.
pub struct LinkMap {
    entries: Vec<Entry>,
}

impl View for LinkMap {
    type V = Map<Seq<u8>, Seq<u8>>;

    open spec fn view(&self) -> Map<Seq<u8>, Seq<u8>> {
        sp_insert_all(Map::empty(), self.entries_view())
    }
}

impl LinkMap {
    /// The stored entries, as pairs of byte sequences, in storage order.
    pub closed spec fn entries_view(&self) -> Seq<(Seq<u8>, Seq<u8>)> {
        pairs_of(self.entries@)
    }

    /// The store is well formed: entries strictly sorted by abbreviation.
    pub closed spec fn wf(&self) -> bool {
        sorted_strict(self.entries_view())
    }

    /// Creates an empty store.
    pub fn new() -> (r: LinkMap)
        ensures
            r.wf(),
            r@ == Map::<Seq<u8>, Seq<u8>>::empty(),
            r.entries_view() == Seq::<(Seq<u8>, Seq<u8>)>::empty(),
    {
        let r = LinkMap { entries: Vec::new() };
        proof {
            assert(r.entries_view() =~= Seq::<(Seq<u8>, Seq<u8>)>::empty());
        }
        r
    }

    /// The stored entries, sorted strictly by abbreviation and carrying
    /// exactly the bindings of the map view.
    pub fn list(&self) -> (r: &Vec<Entry>)
        requires
            self.wf(),
        ensures
            pairs_of(r@) == self.entries_view(),
            sorted_strict(pairs_of(r@)),
            forall|j: int| 0 <= j < r@.len()
                ==> self@.contains_key((#[trigger] r@[j]).abbrev@)
                    && self@[r@[j].abbrev@] == r@[j].target@,
            forall|k: Seq<u8>| self@.contains_key(k)
                ==> exists|j: int| 0 <= j < r@.len() && (#[trigger] r@[j]).abbrev@ == k,
    {
        proof {
            let es = self.entries_view();
            lemma_view_entries(es);
            assert forall|j: int| 0 <= j < self.entries@.len()
                implies self@.contains_key((#[trigger] self.entries@[j]).abbrev@)
                    && self@[self.entries@[j].abbrev@] == self.entries@[j].target@ by {
                assert(es[j] == (self.entries@[j].abbrev@, self.entries@[j].target@));
                assert(has_key(es, es[j].0));
            }
            assert forall|k: Seq<u8>| self@.contains_key(k)
                implies exists|j: int|
                    0 <= j < self.entries@.len() && (#[trigger] self.entries@[j]).abbrev@ == k by {
                assert(has_key(es, k));
                let j = choose|j: int| 0 <= j < es.len() && (#[trigger] es[j].0) == k;
                assert(self.entries@[j].abbrev@ == k);
            }
        }
        &self.entries
    }

    /// Looks an abbreviation up; returns its target exactly when the
    /// abbreviation is bound.
    pub fn get(&self, abbrev: &Vec<u8>) -> (r: Option<&Vec<u8>>)
        requires
            self.wf(),
        ensures
            (match r {
                Some(t) => self@.contains_key(abbrev@) && t@ == self@[abbrev@],
                None => !self@.contains_key(abbrev@),
            }),
    {
        proof {
            lemma_view_entries(self.entries_view());
        }
        let mut i: usize = 0;
        while i < self.entries.len()
            invariant
                self.wf(),
                i <= self.entries.len(),
                forall|j: int| 0 <= j < i ==> (#[trigger] self.entries@[j]).abbrev@ != abbrev@,
            decreases self.entries.len() - i,
        {
            if bytes_eq(&self.entries[i].abbrev, abbrev) {
                proof {
                    let es = self.entries_view();
                    lemma_view_entries(es);
                    assert(es[i as int]
                        == (self.entries@[i as int].abbrev@, self.entries@[i as int].target@));
                    assert(es[i as int].0 == abbrev@);
                    assert(has_key(es, abbrev@));
                    assert(self@[es[i as int].0] == es[i as int].1);
                }
                return Some(&self.entries[i].target);
            }
            i = i + 1;
        }
        proof {
            assert(forall|j: int| 0 <= j < self.entries_view().len()
                ==> (#[trigger] self.entries_view()[j]).0 != abbrev@);
            assert(!has_key(self.entries_view(), abbrev@));
        }
        None
    }

    /// Inserts or overwrites the binding for an abbreviation.
    pub fn insert(&mut self, abbrev: Vec<u8>, target: Vec<u8>)
        requires
            old(self).wf(),
        ensures
            final(self).wf(),
            final(self)@ == old(self)@.insert(abbrev@, target@),
    {
        let ghost es0 = self.entries_view();
        let ghost ka = abbrev@;
        let ghost ta = target@;
        let i = lower_bound(&self.entries, &abbrev);
        if i < self.entries.len() && bytes_eq(&self.entries[i].abbrev, &abbrev) {
            // Overwrite in place: the key stays, only the target changes.
            let e = Entry { abbrev, target };
            self.entries.set(i, e);
            proof {
                assert(self.entries_view() =~= es0.update(i as int, (ka, ta)));
                lemma_replace_ok(es0, self.entries_view(), i as int, ka, ta);
            }
        } else {
            // Splice a fresh entry in at the first position whose key is not
            // smaller, which keeps the entries strictly sorted.
            proof {
                if i < self.entries@.len() {
                    assert(!lex_lt(es0[i as int].0, ka));
                    assert(es0[i as int].0 != ka);
                    lemma_lex_lt_connected_not_eq(ka, es0[i as int].0);
                }
            }
            let e = Entry { abbrev, target };
            self.entries.insert(i, e);
            proof {
                assert(self.entries_view() =~= es0.insert(i as int, (ka, ta)));
                lemma_splice_ok(es0, self.entries_view(), i as int, ka, ta);
            }
        }
    }
}

/// The first position whose abbreviation is not smaller than `key`.
fn lower_bound(entries: &Vec<Entry>, key: &Vec<u8>) -> (i: usize)
    ensures
        i <= entries.len(),
        forall|j: int| 0 <= j < i ==> lex_lt((#[trigger] entries@[j]).abbrev@, key@),
        i < entries.len() ==> !lex_lt(entries@[i as int].abbrev@, key@),
{
    let mut i: usize = 0;
    loop
        invariant
            i <= entries.len(),
            forall|j: int| 0 <= j < i ==> lex_lt((#[trigger] entries@[j]).abbrev@, key@),
        decreases entries.len() - i,
    {
        if i >= entries.len() {
            return i;
        }
        if !bytes_lt(&entries[i].abbrev, key) {
            return i;
        }
        i = i + 1;
    }
}

/// From totality: of two distinct keys, one comes before the other.
proof fn lemma_lex_lt_connected_not_eq(a: Seq<u8>, b: Seq<u8>)
    requires
        !lex_lt(b, a),
        a != b,
    ensures
        lex_lt(a, b),
{
    if !lex_lt(a, b) {
        lemma_lex_lt_connected(a, b);
    }
}

/// A key that occurs nowhere in the sequence commutes with the fold.
pub proof fn lemma_insert_all_commute(
    m: Map<Seq<u8>, Seq<u8>>,
    k: Seq<u8>,
    v: Seq<u8>,
    es: Seq<(Seq<u8>, Seq<u8>)>,
)
    requires
        !has_key(es, k),
    ensures
        sp_insert_all(m.insert(k, v), es) == sp_insert_all(m, es).insert(k, v),
    decreases es.len(),
{
    if es.len() == 0 {
    } else {
        assert(es[0].0 != k);
        assert(m.insert(k, v).insert(es[0].0, es[0].1)
            =~= m.insert(es[0].0, es[0].1).insert(k, v));
        assert(!has_key(es.drop_first(), k)) by {
            assert(forall|j: int| 0 <= j < es.drop_first().len()
                ==> (#[trigger] es.drop_first()[j]) == es[j + 1]);
        }
        lemma_insert_all_commute(m.insert(es[0].0, es[0].1), k, v, es.drop_first());
    }
}

/// Upserting the same abbreviation twice keeps a single binding, bound to
/// the later target: the second insert fully overrides the first.
pub proof fn lemma_upsert_overrides(m: Map<Seq<u8>, Seq<u8>>, x: Seq<u8>, a: Seq<u8>, b: Seq<u8>)
    ensures
        m.insert(x, a).insert(x, b) == m.insert(x, b),
        m.insert(x, a).insert(x, b)[x] == b,
        m.insert(x, a).insert(x, b).dom() == m.dom().insert(x),
{
    assert(m.insert(x, a).insert(x, b) =~= m.insert(x, b));
    assert(m.insert(x, a).insert(x, b).dom() =~= m.dom().insert(x));
}

/// Strictly sorted entries name an abbreviation at most once: two listed
/// positions always carry distinct keys.
pub proof fn lemma_sorted_unique(es: Seq<(Seq<u8>, Seq<u8>)>, i: int, j: int)
    requires
        sorted_strict(es),
        0 <= i < es.len(),
        0 <= j < es.len(),
        i != j,
    ensures
        es[i].0 != es[j].0,
{
    if i < j {
        assert(lex_lt(es[i].0, es[j].0));
        lemma_lex_lt_irrefl(es[i].0);
    } else {
        assert(lex_lt(es[j].0, es[i].0));
        lemma_lex_lt_irrefl(es[j].0);
    }
}

/// On strictly sorted entries the fold of the empty map binds exactly the
/// listed keys, each to its listed target.
pub proof fn lemma_view_entries(es: Seq<(Seq<u8>, Seq<u8>)>)
    requires
        sorted_strict(es),
    ensures
        forall|k: Seq<u8>| sp_insert_all(Map::<Seq<u8>, Seq<u8>>::empty(), es).contains_key(k)
            == has_key(es, k),
        forall|j: int| 0 <= j < es.len()
            ==> sp_insert_all(Map::<Seq<u8>, Seq<u8>>::empty(), es)[(#[trigger] es[j]).0]
                == es[j].1,
    decreases es.len(),
{
    let m0 = Map::<Seq<u8>, Seq<u8>>::empty();
    if es.len() == 0 {
        assert(forall|k: Seq<u8>| !has_key(es, k));
    } else {
        let rest = es.drop_first();
        assert(forall|j: int| 0 <= j < rest.len() ==> (#[trigger] rest[j]) == es[j + 1]);
        assert(sorted_strict(rest)) by {
            assert(forall|i: int, j: int| 0 <= i < j < rest.len()
                ==> #[trigger] lex_lt(rest[i].0, rest[j].0)) by {
                assert(forall|i: int, j: int| 0 <= i < j < rest.len()
                    ==> rest[i] == es[i + 1] && rest[j] == es[j + 1]
                        && lex_lt(es[i + 1].0, es[j + 1].0));
            }
        }
        lemma_view_entries(rest);
        assert(!has_key(rest, es[0].0)) by {
            if has_key(rest, es[0].0) {
                let j = choose|j: int| 0 <= j < rest.len() && (#[trigger] rest[j].0) == es[0].0;
                lemma_sorted_unique(es, 0, j + 1);
            }
        }
        lemma_insert_all_commute(m0, es[0].0, es[0].1, rest);
        assert(sp_insert_all(m0, es) == sp_insert_all(m0, rest).insert(es[0].0, es[0].1)) by {
            assert(sp_insert_all(m0, es)
                == sp_insert_all(m0.insert(es[0].0, es[0].1), rest));
        }
        assert forall|k: Seq<u8>| sp_insert_all(m0, es).contains_key(k) == has_key(es, k) by {
            if k == es[0].0 {
                assert(has_key(es, k));
            } else {
                assert(sp_insert_all(m0, es).contains_key(k)
                    == sp_insert_all(m0, rest).contains_key(k));
                assert(has_key(rest, k) == has_key(es, k)) by {
                    if has_key(rest, k) {
                        let j = choose|j: int|
                            0 <= j < rest.len() && (#[trigger] rest[j].0) == k;
                        assert(es[j + 1].0 == k);
                    }
                    if has_key(es, k) {
                        let j = choose|j: int| 0 <= j < es.len() && (#[trigger] es[j].0) == k;
                        assert(j != 0);
                        assert(rest[j - 1].0 == k);
                    }
                }
            }
        }
        assert forall|j: int| 0 <= j < es.len()
            implies sp_insert_all(m0, es)[(#[trigger] es[j]).0] == es[j].1 by {
            if j == 0 {
            } else {
                lemma_sorted_unique(es, 0, j);
                assert(rest[j - 1] == es[j]);
                assert(sp_insert_all(m0, es)[es[j].0] == sp_insert_all(m0, rest)[es[j].0]);
            }
        }
    }
}

/// Overwriting the target at one position updates the fold at that key.
proof fn lemma_replace_ok(
    es0: Seq<(Seq<u8>, Seq<u8>)>,
    es1: Seq<(Seq<u8>, Seq<u8>)>,
    p: int,
    k: Seq<u8>,
    v: Seq<u8>,
)
    requires
        sorted_strict(es0),
        0 <= p < es0.len(),
        es0[p].0 == k,
        es1 == es0.update(p, (k, v)),
    ensures
        sorted_strict(es1),
        sp_insert_all(Map::<Seq<u8>, Seq<u8>>::empty(), es1)
            == sp_insert_all(Map::<Seq<u8>, Seq<u8>>::empty(), es0).insert(k, v),
{
    let m0 = Map::<Seq<u8>, Seq<u8>>::empty();
    assert(sorted_strict(es1)) by {
        assert(forall|i: int, j: int| 0 <= i < j < es1.len()
            ==> #[trigger] lex_lt(es1[i].0, es1[j].0)) by {
            assert(forall|i: int| 0 <= i < es1.len() ==> (#[trigger] es1[i]).0 == es0[i].0);
        }
    }
    lemma_view_entries(es0);
    lemma_view_entries(es1);
    let a = sp_insert_all(m0, es0);
    let b = sp_insert_all(m0, es1);
    assert(b =~= a.insert(k, v)) by {
        assert(forall|i: int| 0 <= i < es1.len() ==> (#[trigger] es1[i]).0 == es0[i].0);
        assert forall|q: Seq<u8>| b.contains_key(q) == a.insert(k, v).contains_key(q) by {
            assert(has_key(es1, q) == has_key(es0, q)) by {
                if has_key(es1, q) {
                    let j = choose|j: int| 0 <= j < es1.len() && (#[trigger] es1[j].0) == q;
                    assert(es0[j].0 == q);
                }
                if has_key(es0, q) {
                    let j = choose|j: int| 0 <= j < es0.len() && (#[trigger] es0[j].0) == q;
                    assert(es1[j].0 == q);
                }
            }
            assert(b.contains_key(q) == has_key(es1, q));
            assert(a.contains_key(q) == has_key(es0, q));
            assert(es0[p].0 == k);
            assert(has_key(es0, k));
            assert(a.contains_key(k));
        }
        assert forall|q: Seq<u8>| b.contains_key(q) implies b[q] == a.insert(k, v)[q] by {
            assert(b.contains_key(q) == has_key(es1, q));
            let j = choose|j: int| 0 <= j < es1.len() && (#[trigger] es1[j].0) == q;
            assert(es1[p].0 == k);
            if q == k {
                if j != p {
                    lemma_sorted_unique(es1, p, j);
                    assert(false);
                }
                assert(b[q] == es1[p].1);
            } else {
                assert(j != p);
                assert(b[q] == es1[j].1);
                assert(es0[j] == es1[j]);
                assert(a[q] == es0[j].1);
            }
        }
    }
}

/// Splicing a fresh key in at its sorted position keeps the entries sorted
/// and adds exactly that binding to the fold.
proof fn lemma_splice_ok(
    es0: Seq<(Seq<u8>, Seq<u8>)>,
    es1: Seq<(Seq<u8>, Seq<u8>)>,
    p: int,
    k: Seq<u8>,
    v: Seq<u8>,
)
    requires
        sorted_strict(es0),
        0 <= p <= es0.len(),
        forall|j: int| 0 <= j < p ==> lex_lt((#[trigger] es0[j]).0, k),
        p < es0.len() ==> lex_lt(k, es0[p].0),
        es1 == es0.insert(p, (k, v)),
    ensures
        sorted_strict(es1),
        sp_insert_all(Map::<Seq<u8>, Seq<u8>>::empty(), es1)
            == sp_insert_all(Map::<Seq<u8>, Seq<u8>>::empty(), es0).insert(k, v),
{
    let m0 = Map::<Seq<u8>, Seq<u8>>::empty();
    assert(forall|i: int| 0 <= i < p ==> #[trigger] es1[i] == es0[i]);
    assert(es1[p] == (k, v));
    assert(forall|i: int| p < i < es1.len() ==> #[trigger] es1[i] == es0[i - 1]);
    assert(sorted_strict(es1)) by {
        assert forall|i: int, j: int| 0 <= i < j < es1.len()
            implies #[trigger] lex_lt(es1[i].0, es1[j].0) by {
            if i < p && j < p {
                assert(lex_lt(es0[i].0, es0[j].0));
            } else if i < p && j == p {
                assert(lex_lt(es0[i].0, k));
            } else if i < p && j > p {
                assert(lex_lt(es0[i].0, es0[j - 1].0));
            } else if i == p && j > p {
                if j - 1 == p {
                    assert(lex_lt(k, es0[p].0));
                } else {
                    assert(lex_lt(k, es0[p].0));
                    assert(lex_lt(es0[p].0, es0[j - 1].0));
                    lemma_lex_lt_trans(k, es0[p].0, es0[j - 1].0);
                }
            } else {
                assert(i > p && j > p);
                assert(lex_lt(es0[i - 1].0, es0[j - 1].0));
            }
        }
    }
    assert(!has_key(es0, k)) by {
        if has_key(es0, k) {
            let j = choose|j: int| 0 <= j < es0.len() && (#[trigger] es0[j].0) == k;
            if j < p {
                lemma_lex_lt_irrefl(k);
            } else {
                assert(p < es0.len());
                if j == p {
                    lemma_lex_lt_irrefl(k);
                } else {
                    assert(lex_lt(es0[p].0, es0[j].0));
                    lemma_lex_lt_trans(k, es0[p].0, es0[j].0);
                    lemma_lex_lt_irrefl(k);
                }
            }
        }
    }
    lemma_view_entries(es0);
    lemma_view_entries(es1);
    let a = sp_insert_all(m0, es0);
    let b = sp_insert_all(m0, es1);
    assert(b =~= a.insert(k, v)) by {
        assert forall|q: Seq<u8>| b.contains_key(q) == a.insert(k, v).contains_key(q) by {
            assert(b.contains_key(q) == has_key(es1, q));
            assert(a.contains_key(q) == has_key(es0, q));
            if q == k {
                assert(es1[p].0 == k);
                assert(has_key(es1, k));
            } else {
                assert(has_key(es1, q) == has_key(es0, q)) by {
                    if has_key(es1, q) {
                        let j = choose|j: int| 0 <= j < es1.len() && (#[trigger] es1[j].0) == q;
                        assert(j != p);
                        if j < p {
                            assert(es0[j].0 == q);
                        } else {
                            assert(es0[j - 1].0 == q);
                        }
                    }
                    if has_key(es0, q) {
                        let j = choose|j: int| 0 <= j < es0.len() && (#[trigger] es0[j].0) == q;
                        if j < p {
                            assert(es1[j].0 == q);
                        } else {
                            assert(es1[j + 1].0 == q);
                        }
                    }
                }
            }
        }
        assert forall|q: Seq<u8>| b.contains_key(q) implies b[q] == a.insert(k, v)[q] by {
            assert(b.contains_key(q) == has_key(es1, q));
            let j = choose|j: int| 0 <= j < es1.len() && (#[trigger] es1[j].0) == q;
            assert(es1[p].0 == k);
            if q == k {
                if j != p {
                    lemma_sorted_unique(es1, p, j);
                    assert(false);
                }
                assert(b[q] == es1[p].1);
            } else {
                assert(j != p);
                assert(b[q] == es1[j].1);
                if j < p {
                    assert(es0[j] == es1[j]);
                    assert(a[q] == es0[j].1);
                } else {
                    assert(es0[j - 1] == es1[j]);
                    assert(a[q] == es0[j - 1].1);
                }
            }
        }
    }
}

} // verus!

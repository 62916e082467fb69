//! Ordered locator sets: a peer's configured locators, kept sorted and
//! free of duplicates as a `BTreeSet<PeerLocator>` keeps them.
use vstd::prelude::*;

use crate::peer_directory::types::{LocatorView, PeerLocator, lemma_locator_lt_order, locator_lt};

verus! {

pub open spec fn views_of(ls: Seq<PeerLocator>) -> Seq<LocatorView> {
    ls.map_values(|l: PeerLocator| l@)
}

pub open spec fn sorted_locators(s: Seq<LocatorView>) -> bool {
    forall|i: int, j: int| 0 <= i < j < s.len() ==> locator_lt(#[trigger] s[i], #[trigger] s[j])
}

/// The sorted, duplicate-free sequence holding exactly the locators of `set`.
pub open spec fn ordered(set: Set<LocatorView>) -> Seq<LocatorView> {
    choose|s: Seq<LocatorView>| sorted_locators(s) && s.to_set() == set
}

pub proof fn lemma_sorted_unique(s: Seq<LocatorView>, t: Seq<LocatorView>)
    requires
        sorted_locators(s),
        sorted_locators(t),
        s.to_set() == t.to_set(),
    ensures
        s == t,
    decreases s.len(),
{
    if s.len() == 0 {
        if t.len() > 0 {
            assert(t.to_set().contains(t[0]));
        }
        assert(s =~= t);
    } else if t.len() == 0 {
        assert(s.to_set().contains(s[0]));
    } else {
        // The least elements agree.
        assert(s.to_set().contains(s[0]));
        assert(t.to_set().contains(t[0]));
        let i = choose|i: int| 0 <= i < t.len() && t[i] == s[0];
        let j = choose|j: int| 0 <= j < s.len() && s[j] == t[0];
        if i > 0 {
            assert(locator_lt(t[0], t[i]));
            if j > 0 {
                assert(locator_lt(s[0], s[j]));
                lemma_locator_lt_order(s[0], t[0], s[0]);
            } else {
                lemma_locator_lt_order(s[0], s[0], s[0]);
            }
        }
        if j > 0 {
            assert(locator_lt(s[0], s[j]));
            if i > 0 {
            } else {
                lemma_locator_lt_order(s[0], s[0], s[0]);
            }
        }
        assert(s[0] == t[0]);
        let s1 = s.drop_first();
        let t1 = t.drop_first();
        assert forall|x: LocatorView| s1.to_set().contains(x) <==> t1.to_set().contains(x) by {
            if s1.to_set().contains(x) {
                let k = choose|k: int| 0 <= k < s1.len() && s1[k] == x;
                assert(s[k + 1] == x);
                assert(locator_lt(s[0], x));
                lemma_locator_lt_order(x, x, x);
                assert(s.to_set().contains(x));
                assert(t.to_set().contains(x));
                let m = choose|m: int| 0 <= m < t.len() && t[m] == x;
                assert(m != 0);
                assert(t1[m - 1] == x);
            }
            if t1.to_set().contains(x) {
                let k = choose|k: int| 0 <= k < t1.len() && t1[k] == x;
                assert(t[k + 1] == x);
                assert(locator_lt(t[0], x));
                lemma_locator_lt_order(x, x, x);
                assert(t.to_set().contains(x));
                assert(s.to_set().contains(x));
                let m = choose|m: int| 0 <= m < s.len() && s[m] == x;
                assert(m != 0);
                assert(s1[m - 1] == x);
            }
        }
        assert(s1.to_set() =~= t1.to_set());
        lemma_sorted_unique(s1, t1);
        assert(s =~= seq![s[0]] + s1);
        assert(t =~= seq![t[0]] + t1);
    }
}

pub proof fn lemma_ordered(s: Seq<LocatorView>)
    requires
        sorted_locators(s),
    ensures
        ordered(s.to_set()) == s,
{
    let o = ordered(s.to_set());
    assert(sorted_locators(s) && s.to_set() == s.to_set());
    lemma_sorted_unique(o, s);
}

/// Insert `l` into the sorted locator set.
pub fn insert_locator(set: &mut Vec<PeerLocator>, l: PeerLocator)
    requires
        sorted_locators(views_of(old(set)@)),
    ensures
        sorted_locators(views_of(final(set)@)),
        views_of(final(set)@).to_set() == views_of(old(set)@).to_set().insert(l@),
{
    let ghost s0 = views_of(set@);
    let mut i: usize = 0;
    while i < set.len()
        invariant
            set@ == old(set)@,
            s0 == views_of(set@),
            sorted_locators(s0),
            i <= set.len(),
            forall|k: int| 0 <= k < i ==> locator_lt(#[trigger] s0[k], l@),
        ensures
            i <= set.len(),
            i < set.len() ==> locator_lt(l@, s0[i as int]),
        decreases set.len() - i,
    {
        if set[i].equals(&l) {
            proof {
                assert(s0[i as int] == l@);
                assert(s0.to_set() =~= s0.to_set().insert(l@));
            }
            return;
        }
        if l.less_than(&set[i]) {
            break;
        }
        proof {
            lemma_locator_lt_order(s0[i as int], l@, l@);
        }
        i = i + 1;
    }
    let ghost lv = l@;
    set.insert(i, l);
    proof {
        let s1 = views_of(set@);
        assert(s1 =~= s0.insert(i as int, lv));
        assert forall|a: int, b: int| 0 <= a < b < s1.len() implies locator_lt(#[trigger] s1[a], #[trigger] s1[b]) by {
            if b < i {
            } else if b == i {
            } else if a < i {
                lemma_locator_lt_order(s0[a], lv, s0[b - 1]);
                if i < s0.len() {
                    assert(locator_lt(lv, s0[i as int]));
                    if b - 1 > i {
                        assert(locator_lt(s0[i as int], s0[b - 1]));
                        lemma_locator_lt_order(lv, s0[i as int], s0[b - 1]);
                    }
                }
            } else if a == i {
                assert(locator_lt(lv, s0[i as int]));
                if b - 1 > i {
                    assert(locator_lt(s0[i as int], s0[b - 1]));
                    lemma_locator_lt_order(lv, s0[i as int], s0[b - 1]);
                }
            } else {
                assert(locator_lt(s0[a - 1], s0[b - 1]));
            }
        }
        assert forall|x: LocatorView| s1.to_set().contains(x) <==> s0.to_set().insert(lv).contains(x) by {
            if s1.to_set().contains(x) {
                let k = choose|k: int| 0 <= k < s1.len() && s1[k] == x;
                if k < i {
                    assert(s0[k] == x);
                } else if k > i {
                    assert(s0[k - 1] == x);
                }
            }
            if s0.to_set().contains(x) {
                let k = choose|k: int| 0 <= k < s0.len() && s0[k] == x;
                if k < i {
                    assert(s1[k] == x);
                } else {
                    assert(s1[k + 1] == x);
                }
            }
            if x == lv {
                assert(s1[i as int] == x);
            }
        }
        assert(s1.to_set() =~= s0.to_set().insert(lv));
    }
}

/// Add every locator of `more` to the sorted set.
pub fn extend_locators(set: &mut Vec<PeerLocator>, more: &Vec<PeerLocator>)
    requires
        sorted_locators(views_of(old(set)@)),
    ensures
        sorted_locators(views_of(final(set)@)),
        views_of(final(set)@).to_set() == views_of(old(set)@).to_set() + views_of(more@).to_set(),
{
    let mut i: usize = 0;
    while i < more.len()
        invariant
            i <= more.len(),
            sorted_locators(views_of(set@)),
            views_of(set@).to_set() == views_of(old(set)@).to_set() + views_of(more@.subrange(0, i as int)).to_set(),
        decreases more.len() - i,
    {
        let ghost before = views_of(set@).to_set();
        insert_locator(set, more[i].duplicate());
        proof {
            let p = views_of(more@.subrange(0, i as int));
            let q = views_of(more@.subrange(0, i + 1));
            assert(q =~= p.push(more@[i as int]@));
            Seq::lemma_to_set_insert_commutes(p, more@[i as int]@);
            assert(q =~= p + seq![more@[i as int]@]);
            assert(q.to_set() =~= p.to_set().insert(more@[i as int]@));
            assert(views_of(set@).to_set() =~= views_of(old(set)@).to_set() + q.to_set());
        }
        i = i + 1;
    }
    proof {
        assert(more@.subrange(0, more.len() as int) =~= more@);
    }
}

/// A copy of a locator list.
pub fn copy_locators(ls: &Vec<PeerLocator>) -> (r: Vec<PeerLocator>)
    ensures
        views_of(r@) == views_of(ls@),
{
    let mut r: Vec<PeerLocator> = Vec::new();
    let mut i: usize = 0;
    while i < ls.len()
        invariant
            i <= ls.len(),
            views_of(r@) == views_of(ls@.subrange(0, i as int)),
        decreases ls.len() - i,
    {
        r.push(ls[i].duplicate());
        proof {
            assert(views_of(ls@.subrange(0, i + 1)) =~= views_of(ls@.subrange(0, i as int)).push(ls@[i as int]@));
            assert(views_of(r@) =~= views_of(ls@.subrange(0, i + 1)));
        }
        i = i + 1;
    }
    proof {
        assert(ls@.subrange(0, ls.len() as int) =~= ls@);
    }
    r
}

} // verus!

//! The feature store: an immutable index over a library that answers
//! lookups by identifier and tag queries.

use vstd::prelude::*;
use crate::material::{Feature, Library, Query, Meta, has_tag};

verus! {

/// No two features share an identifier.
pub open spec fn ids_unique(s: Seq<Feature>) -> bool {
    forall|i: int, j: int| 0 <= i < j < s.len() ==> s[i].id@ != s[j].id@
}

/// Some feature of `s` has the identifier `id`.
pub open spec fn has_id(s: Seq<Feature>, id: Seq<char>) -> bool {
    exists|i: int| 0 <= i < s.len() && (#[trigger] s[i]).id@ == id
}

/// The features of `s` that `q` matches, in the order of `s`.
pub open spec fn selected(s: Seq<Feature>, q: Query) -> Seq<Feature> {
    s.filter(|f: Feature| q.matches(f.tags@))
}

/// Decides `ids_unique` for the features of a library.
pub fn has_unique_ids(l: &Library) -> (r: bool)
    ensures
        r == ids_unique(l.features@),
{
    let n = l.features.len();
    let mut i: usize = 0;
    while i < n
        invariant
            n == l.features@.len(),
            i <= n,
            forall|a: int, b: int| 0 <= a < b < n && a < i ==> l.features@[a].id@ != l.features@[b].id@,
        decreases n - i,
    {
        let mut j: usize = i + 1;
        while j < n
            invariant
                n == l.features@.len(),
                i < n,
                i < j <= n,
                forall|a: int, b: int| 0 <= a < b < n && a < i ==> l.features@[a].id@ != l.features@[b].id@,
                forall|b: int| i < b < j ==> l.features@[i as int].id@ != l.features@[b].id@,
            decreases n - j,
        {
            if l.features[i].id == l.features[j].id {
                return false;
            }
            j = j + 1;
        }
        i = i + 1;
    }
    true
}

/// An in-memory feature store.
pub struct MemDB {
    features: Vec<Feature>,
}

impl MemDB {
    /// The stored features, in library order.
    pub closed spec fn entries(&self) -> Seq<Feature> {
        self.features@
    }

    #[verifier::type_invariant]
    spec fn distinct_ids(&self) -> bool {
        ids_unique(self.features@)
    }

    /// Builds the store over a library whose identifiers are unique.
    pub fn from(l: Library) -> (r: MemDB)
        requires
            ids_unique(l.features@),
        ensures
            r.entries() == l.features@,
    {
        MemDB { features: l.features }
    }

    /// Number of stored features; their identifiers are distinct.
    pub fn len(&self) -> (r: usize)
        ensures
            r == self.entries().len(),
            ids_unique(self.entries()),
    {
        proof {
            use_type_invariant(self);
        }
        self.features.len()
    }

    /// The feature whose identifier is `id`.
    pub fn lookup_feature(&self, id: &String) -> (r: Option<&Feature>)
        ensures
            ids_unique(self.entries()),
            match r {
                Some(f) => self.entries().contains(*f) && f.id@ == id@,
                None => !has_id(self.entries(), id@),
            },
    {
        proof {
            use_type_invariant(self);
        }
        let mut i: usize = 0;
        while i < self.features.len()
            invariant
                ids_unique(self.entries()),
                i <= self.entries().len(),
                forall|j: int| 0 <= j < i ==> (#[trigger] self.entries()[j]).id@ != id@,
            decreases self.entries().len() - i,
        {
            if self.features[i].id == *id {
                assert(self.entries()[i as int] == self.features@[i as int]);
                return Some(&self.features[i]);
            }
            i = i + 1;
        }
        None
    }

    /// The features that `q` matches, in store order.
    pub fn query(&self, q: &Query) -> (r: Vec<&Feature>)
        ensures
            r@.map_values(|f: &Feature| *f) == selected(self.entries(), *q),
    {
        let mut out: Vec<&Feature> = Vec::new();
        let mut i: usize = 0;
        while i < self.features.len()
            invariant
                i <= self.entries().len(),
                out@.map_values(|f: &Feature| *f) == selected(self.entries().take(i as int), *q),
            decreases self.entries().len() - i,
        {
            let f = &self.features[i];
            proof {
                assert(self.entries().take(i as int + 1).drop_last() == self.entries().take(i as int));
                reveal(Seq::filter);
            }
            let ghost before = out@;
            if q.test(&f.tags) {
                out.push(f);
                assert(out@.map_values(|f: &Feature| *f) =~= before.map_values(|f: &Feature| *f).push(*f));
            }
            i = i + 1;
        }
        assert(self.entries().take(i as int) == self.entries());
        out
    }
}

/// A feature of the store is selected by `Meta(t)` exactly when it carries
/// the tag `t`.
pub proof fn law_meta_selects_tagged(db: &MemDB, f: Feature, t: Meta)
    requires
        db.entries().contains(f),
    ensures
        selected(db.entries(), Query::Meta(t)).contains(f) <==> has_tag(f.tags@, t.tag@),
{
    broadcast use Seq::lemma_filter_contains_rev, Seq::lemma_filter_contains;
    let i = choose|i: int| 0 <= i < db.entries().len() && db.entries()[i] == f;
    if has_tag(f.tags@, t.tag@) {
        db.entries().lemma_filter_contains(|g: Feature| Query::Meta(t).matches(g.tags@), i);
    }
}

/// `And` of no queries selects every feature; `Or` of no tags selects none.
pub proof fn law_empty_and_or(db: &MemDB, none: Vec<Query>, no_tags: Vec<Meta>)
    requires
        none@.len() == 0,
        no_tags@.len() == 0,
    ensures
        selected(db.entries(), Query::And(none)) == db.entries(),
        selected(db.entries(), Query::Or(no_tags)) == Seq::<Feature>::empty(),
{
    lemma_filter_all(db.entries(), Query::And(none));
    lemma_filter_none(db.entries(), Query::Or(no_tags));
}

proof fn lemma_filter_all(s: Seq<Feature>, q: Query)
    requires
        forall|f: Feature| q.matches(f.tags@),
    ensures
        selected(s, q) == s,
    decreases s.len(),
{
    reveal(Seq::filter);
    if s.len() > 0 {
        lemma_filter_all(s.drop_last(), q);
        assert(s.drop_last().push(s.last()) == s);
    }
}

proof fn lemma_filter_none(s: Seq<Feature>, q: Query)
    requires
        forall|f: Feature| !q.matches(f.tags@),
    ensures
        selected(s, q) == Seq::<Feature>::empty(),
    decreases s.len(),
{
    reveal(Seq::filter);
    if s.len() > 0 {
        lemma_filter_none(s.drop_last(), q);
    }
}

/// `And` of two queries selects the intersection of what each selects.
pub proof fn law_and_intersects(db: &MemDB, pair: Vec<Query>)
    requires
        pair@.len() == 2,
    ensures
        selected(db.entries(), Query::And(pair)).to_set() == selected(db.entries(), pair@[0]).to_set().intersect(
            selected(db.entries(), pair@[1]).to_set(),
        ),
{
    broadcast use Seq::lemma_filter_contains_rev, Seq::lemma_filter_contains, Seq::lemma_filter_pred;
    let s = db.entries();
    let both = Query::And(pair);
    let (q1, q2) = (pair@[0], pair@[1]);
    assert forall|f: Feature| both.matches(f.tags@) <==> q1.matches(f.tags@) && q2.matches(f.tags@) by {
        if both.matches(f.tags@) {
            assert(both->And_0@[0] == pair@[0]);
            assert(both->And_0@[1] == pair@[1]);
            assert(pair@[0].matches(f.tags@));
            assert(pair@[1].matches(f.tags@));
        }
    }
    assert forall|f: Feature|
        selected(s, both).contains(f) <==> selected(s, q1).contains(f) && selected(s, q2).contains(f) by {
        if selected(s, both).contains(f) {
            let j = choose|j: int| 0 <= j < selected(s, both).len() && selected(s, both)[j] == f;
            s.lemma_filter_pred(|g: Feature| both.matches(g.tags@), j);
            assert(s.contains(f));
            let i = choose|i: int| 0 <= i < s.len() && s[i] == f;
            s.lemma_filter_contains(|g: Feature| q1.matches(g.tags@), i);
            s.lemma_filter_contains(|g: Feature| q2.matches(g.tags@), i);
        }
        if selected(s, q1).contains(f) && selected(s, q2).contains(f) {
            let j = choose|j: int| 0 <= j < selected(s, q1).len() && selected(s, q1)[j] == f;
            s.lemma_filter_pred(|g: Feature| q1.matches(g.tags@), j);
            let k = choose|k: int| 0 <= k < selected(s, q2).len() && selected(s, q2)[k] == f;
            s.lemma_filter_pred(|g: Feature| q2.matches(g.tags@), k);
            assert(s.contains(f));
            let i = choose|i: int| 0 <= i < s.len() && s[i] == f;
            s.lemma_filter_contains(|g: Feature| both.matches(g.tags@), i);
        }
    }
    assert(selected(s, both).to_set() =~= selected(s, q1).to_set().intersect(selected(s, q2).to_set()));
}

} // verus!

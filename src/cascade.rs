//! A read-only view over several scopes, answering from the first scope, in
//! a configured precedence order, that holds what is asked for.
use vstd::prelude::*;

use crate::store::{has_hash, lemma_lookup_at, lookup, rows_for, Element, ElementStore, MetaStore};
use crate::AnyDhtHash;

verus! {

/// A named partition of the stores, following an operation's lifecycle.
#[derive(Clone, Copy, Debug, PartialEq, Eq, Structural)]
pub enum Scope {
    Authored,
    Integrated,
    Pending,
    Rejected,
    Cache,
}

/// An element store and the metadata index of the same scope, borrowed.
pub struct DbPair<'a> {
    pub element: &'a ElementStore,
    pub meta: &'a MetaStore,
}

impl<'a> DbPair<'a> {
    pub fn new(element: &'a ElementStore, meta: &'a MetaStore) -> (r: DbPair<'a>)
        ensures
            r.element == element,
            r.meta == meta,
    {
        DbPair { element, meta }
    }
}

/// The first answer, in layer order, for the record `h`.
pub open spec fn cascade_find(layers: Seq<(Scope, Seq<Element>)>, h: AnyDhtHash) -> Option<
    (Scope, Element),
>
    decreases layers.len(),
{
    if layers.len() == 0 {
        None
    } else if has_hash(layers[0].1, h) {
        Some((layers[0].0, lookup(layers[0].1, h).unwrap()))
    } else {
        cascade_find(layers.drop_first(), h)
    }
}

/// The first non-empty list of metadata rows, in layer order, for `base`.
pub open spec fn cascade_meta(layers: Seq<(Scope, Seq<(AnyDhtHash, AnyDhtHash)>)>, base: AnyDhtHash) -> Seq<
    AnyDhtHash,
>
    decreases layers.len(),
{
    if layers.len() == 0 {
        Seq::empty()
    } else if rows_for(layers[0].1, base).len() > 0 {
        rows_for(layers[0].1, base)
    } else {
        cascade_meta(layers.drop_first(), base)
    }
}

/// A request-scoped view over borrowed scopes. The order of its layers is
/// its precedence: earlier layers shadow later ones.
pub struct CascadeLocal<'a> {
    layers: Vec<(Scope, DbPair<'a>)>,
}

impl<'a> CascadeLocal<'a> {
    /// The scopes and their records, in precedence order.
    pub closed spec fn elements(&self) -> Seq<(Scope, Seq<Element>)> {
        self.layers@.map_values(|l: (Scope, DbPair<'a>)| (l.0, l.1.element@))
    }

    /// The scopes and their metadata rows, in precedence order.
    pub closed spec fn metas(&self) -> Seq<(Scope, Seq<(AnyDhtHash, AnyDhtHash)>)> {
        self.layers@.map_values(|l: (Scope, DbPair<'a>)| (l.0, l.1.meta@))
    }

    pub open spec fn wf(&self) -> bool {
        forall|i: int| 0 <= i < self.elements().len() ==> crate::store::unique_hashes(
            #[trigger] self.elements()[i].1,
        )
    }

    pub fn empty() -> (r: CascadeLocal<'a>)
        ensures
            r.elements() == Seq::<(Scope, Seq<Element>)>::empty(),
            r.metas() == Seq::<(Scope, Seq<(AnyDhtHash, AnyDhtHash)>)>::empty(),
            r.wf(),
    {
        let r = CascadeLocal { layers: Vec::new() };
        assert(r.elements() =~= Seq::<(Scope, Seq<Element>)>::empty());
        assert(r.metas() =~= Seq::<(Scope, Seq<(AnyDhtHash, AnyDhtHash)>)>::empty());
        r
    }

    /// Adds `pair` as the layer with the lowest precedence so far.
    pub fn with_layer(self, scope: Scope, pair: DbPair<'a>) -> (r: CascadeLocal<'a>)
        requires
            self.wf(),
            pair.element.wf(),
        ensures
            r.elements() == self.elements().push((scope, pair.element@)),
            r.metas() == self.metas().push((scope, pair.meta@)),
            r.wf(),
    {
        let mut layers = self.layers;
        let ghost before = layers@;
        layers.push((scope, pair));
        let r = CascadeLocal { layers };
        assert(r.elements() =~= self.elements().push((scope, pair.element@)));
        assert(r.metas() =~= self.metas().push((scope, pair.meta@)));
        assert forall|i: int| 0 <= i < r.elements().len() implies crate::store::unique_hashes(
            #[trigger] r.elements()[i].1,
        ) by {
            if i < self.elements().len() {
                assert(r.elements()[i] == self.elements()[i]);
            }
        }
        r
    }

    /// The record `h` from the first layer that holds it, with that layer's
    /// scope; `None` when no layer holds it.
    pub fn get(&self, h: AnyDhtHash) -> (r: Option<(Scope, &'a Element)>)
        requires
            self.wf(),
        ensures
            r matches Some((s, e)) ==> cascade_find(self.elements(), h) == Some((s, *e)),
            r is None ==> cascade_find(self.elements(), h) is None,
    {
        let ghost ls = self.elements();
        let n = self.layers.len();
        let mut k: usize = 0;
        assert(ls.subrange(0, n as int) == ls);
        while k < n
            invariant
                n == ls.len(),
                ls == self.elements(),
                self.wf(),
                0 <= k <= n,
                cascade_find(ls, h) == cascade_find(ls.subrange(k as int, n as int), h),
            decreases n - k,
        {
            let (scope, pair) = &self.layers[k];
            let ghost rest = ls.subrange(k as int, n as int);
            assert(rest[0] == ls[k as int]);
            assert(ls[k as int] == (*scope, pair.element@));
            match pair.element.index_of(h) {
                Some(i) => {
                    proof {
                        lemma_lookup_at(pair.element@, i as int);
                        assert(crate::store::unique_hashes(ls[k as int].1));
                    }
                    return Some((*scope, pair.element.at(i)));
                },
                None => {},
            }
            assert(rest.drop_first() == ls.subrange(k + 1, n as int));
            k = k + 1;
        }
        None
    }

    /// Whether some layer holds the record `h`.
    pub fn contains(&self, h: AnyDhtHash) -> (r: bool)
        requires
            self.wf(),
        ensures
            r == cascade_find(self.elements(), h) is Some,
    {
        self.get(h).is_some()
    }

    /// The metadata rows for `base` from the first layer that has any.
    pub fn get_meta(&self, base: AnyDhtHash) -> (r: Vec<AnyDhtHash>)
        ensures
            r@ == cascade_meta(self.metas(), base),
    {
        let ghost ls = self.metas();
        let n = self.layers.len();
        let mut k: usize = 0;
        assert(ls.subrange(0, n as int) == ls);
        while k < n
            invariant
                n == ls.len(),
                ls == self.metas(),
                0 <= k <= n,
                cascade_meta(ls, base) == cascade_meta(ls.subrange(k as int, n as int), base),
            decreases n - k,
        {
            let ghost rest = ls.subrange(k as int, n as int);
            assert(rest[0] == ls[k as int]);
            let found = self.layers[k].1.meta.get(base);
            if found.len() > 0 {
                return found;
            }
            assert(rest.drop_first() == ls.subrange(k + 1, n as int));
            k = k + 1;
        }
        assert(ls.subrange(n as int, n as int).len() == 0);
        Vec::new()
    }
}

/// Precedence is the order of the layers: when the Integrated and the Cache
/// scope both hold `h`, a view ordered [Integrated, Cache] answers with the
/// Integrated record and one ordered [Cache, Integrated] with the Cache record.
pub proof fn lemma_cascade_precedence(integrated: Seq<Element>, cache: Seq<Element>, h: AnyDhtHash)
    requires
        has_hash(integrated, h),
        has_hash(cache, h),
    ensures
        cascade_find(seq![(Scope::Integrated, integrated), (Scope::Cache, cache)], h) == Some(
            (Scope::Integrated, lookup(integrated, h).unwrap()),
        ),
        cascade_find(seq![(Scope::Cache, cache), (Scope::Integrated, integrated)], h) == Some(
            (Scope::Cache, lookup(cache, h).unwrap()),
        ),
{
    let l1 = seq![(Scope::Integrated, integrated), (Scope::Cache, cache)];
    let l2 = seq![(Scope::Cache, cache), (Scope::Integrated, integrated)];
    assert(l1[0] == (Scope::Integrated, integrated));
    assert(l2[0] == (Scope::Cache, cache));
}

/// An element store and the metadata index of the same scope, borrowed for
/// writing (the cache, which fetched records are written into).
pub struct DbPairMut<'a> {
    pub element: &'a mut ElementStore,
    pub meta: &'a mut MetaStore,
}

impl<'a> DbPairMut<'a> {
    pub fn new(element: &'a mut ElementStore, meta: &'a mut MetaStore) -> (r: DbPairMut<'a>)
        ensures
            *r.element == *old(element),
            *r.meta == *old(meta),
            *final(element) == *final(r.element),
            *final(meta) == *final(r.meta),
    {
        DbPairMut { element, meta }
    }
}

} // verus!

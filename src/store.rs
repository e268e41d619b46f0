//! Content-addressed element stores and their metadata indices, one pair per
//! scope.
use vstd::prelude::*;

use crate::AnyDhtHash;

verus! {

/// An operation record: an authored header and the payload it commits to.
/// Its identity is `hash`; it is never changed once created.
#[derive(Debug)]
pub struct Element {
    pub hash: AnyDhtHash,
    pub author: u64,
    /// Position in the author's chain; the first header has 0.
    pub header_seq: u64,
    /// The author's previous header, absent only for the first one.
    pub prev_header: Option<AnyDhtHash>,
    pub timestamp: u64,
    /// Whether the author's signature over the header checked out.
    pub signature_valid: bool,
    /// Hash of the payload.
    pub content: u64,
    /// Operations that must be integrated before this one.
    pub deps: Vec<AnyDhtHash>,
}

pub open spec fn has_hash(s: Seq<Element>, h: AnyDhtHash) -> bool {
    exists|i: int| 0 <= i < s.len() && (#[trigger] s[i]).hash == h
}

pub open spec fn unique_hashes(s: Seq<Element>) -> bool {
    forall|i: int, j: int|
        0 <= i < s.len() && 0 <= j < s.len() && (#[trigger] s[i]).hash == (#[trigger] s[j]).hash
            ==> i == j
}

/// The record a store holds under `h`, if any.
pub open spec fn lookup(s: Seq<Element>, h: AnyDhtHash) -> Option<Element> {
    if has_hash(s, h) {
        Some(s[choose|i: int| 0 <= i < s.len() && (#[trigger] s[i]).hash == h])
    } else {
        None
    }
}

pub proof fn lemma_lookup_at(s: Seq<Element>, i: int)
    requires
        unique_hashes(s),
        0 <= i < s.len(),
    ensures
        lookup(s, s[i].hash) == Some(s[i]),
{
    let h = s[i].hash;
    assert(has_hash(s, h));
    let k = choose|k: int| 0 <= k < s.len() && (#[trigger] s[k]).hash == h;
    assert(k == i);
}

/// The records of one scope, each hash at most once, in insertion order.
pub struct ElementStore {
    items: Vec<Element>,
}

impl View for ElementStore {
    type V = Seq<Element>;

    closed spec fn view(&self) -> Seq<Element> {
        self.items@
    }
}

impl ElementStore {
    pub open spec fn wf(&self) -> bool {
        unique_hashes(self@)
    }

    pub fn new() -> (r: ElementStore)
        ensures
            r@ == Seq::<Element>::empty(),
            r.wf(),
    {
        ElementStore { items: Vec::new() }
    }

    pub fn len(&self) -> (r: usize)
        ensures
            r == self@.len(),
    {
        self.items.len()
    }

    pub fn at(&self, i: usize) -> (r: &Element)
        requires
            i < self@.len(),
        ensures
            *r == self@[i as int],
    {
        &self.items[i]
    }

    /// Where the record with hash `h` stands.
    pub fn index_of(&self, h: AnyDhtHash) -> (r: Option<usize>)
        ensures
            r matches Some(i) ==> i < self@.len() && self@[i as int].hash == h,
            r is None <==> !has_hash(self@, h),
    {
        let mut i: usize = 0;
        while i < self.items.len()
            invariant
                0 <= i <= self@.len(),
                self@ == self.items@,
                forall|k: int| 0 <= k < i ==> (#[trigger] self@[k]).hash != h,
            decreases self@.len() - i,
        {
            if self.items[i].hash == h {
                return Some(i);
            }
            i = i + 1;
        }
        None
    }

    pub fn contains(&self, h: AnyDhtHash) -> (r: bool)
        ensures
            r == has_hash(self@, h),
    {
        self.index_of(h).is_some()
    }

    pub fn get(&self, h: AnyDhtHash) -> (r: Option<&Element>)
        requires
            self.wf(),
        ensures
            r matches Some(e) ==> lookup(self@, h) == Some(*e),
            r is None ==> lookup(self@, h) is None,
    {
        match self.index_of(h) {
            Some(i) => {
                proof {
                    lemma_lookup_at(self@, i as int);
                }
                Some(&self.items[i])
            },
            None => None,
        }
    }

    /// Stores `e` under its hash; storing a hash that is already there changes
    /// nothing.
    pub fn put(&mut self, e: Element) -> (r: AnyDhtHash)
        requires
            old(self).wf(),
        ensures
            final(self).wf(),
            r == e.hash,
            has_hash(old(self)@, e.hash) ==> final(self)@ == old(self)@,
            !has_hash(old(self)@, e.hash) ==> final(self)@ == old(self)@.push(e),
    {
        let h = e.hash;
        if self.contains(h) {
            return h;
        }
        self.items.push(e);
        proof {
            let s = self@;
            assert forall|i: int, j: int|
                0 <= i < s.len() && 0 <= j < s.len() && (#[trigger] s[i]).hash == (#[trigger] s[j]).hash
                implies i == j by {
                if i < s.len() - 1 && j < s.len() - 1 {
                    assert(s[i] == old(self)@[i] && s[j] == old(self)@[j]);
                } else if i < s.len() - 1 {
                    assert(s[i] == old(self)@[i]);
                } else if j < s.len() - 1 {
                    assert(s[j] == old(self)@[j]);
                }
            }
        }
        h
    }

    /// Takes out the record at `i`, keeping the order of the others.
    pub fn remove_at(&mut self, i: usize) -> (r: Element)
        requires
            old(self).wf(),
            i < old(self)@.len(),
        ensures
            final(self).wf(),
            r == old(self)@[i as int],
            final(self)@ == old(self)@.remove(i as int),
    {
        let r = self.items.remove(i);
        proof {
            let s = self@;
            let o = old(self)@;
            assert forall|a: int, b: int|
                0 <= a < s.len() && 0 <= b < s.len() && (#[trigger] s[a]).hash == (#[trigger] s[b]).hash
                implies a == b by {
                let oa = if a < i { a } else { a + 1 };
                let ob = if b < i { b } else { b + 1 };
                assert(s[a] == o[oa] && s[b] == o[ob]);
            }
        }
        r
    }

    /// The hashes of the scope's records, in insertion order.
    pub fn hashes(&self) -> (r: Vec<AnyDhtHash>)
        ensures
            r@ == self@.map_values(|e: Element| e.hash),
    {
        let mut r: Vec<AnyDhtHash> = Vec::new();
        let mut i: usize = 0;
        while i < self.items.len()
            invariant
                0 <= i <= self@.len(),
                self@ == self.items@,
                r@ == self@.take(i as int).map_values(|e: Element| e.hash),
            decreases self@.len() - i,
        {
            r.push(self.items[i].hash);
            assert(self@.take(i + 1) == self@.take(i as int).push(self@[i as int]));
            i = i + 1;
        }
        assert(self@.take(i as int) == self@);
        r
    }
}

/// The operations that a metadata index lists for `base`, in insertion order.
pub open spec fn rows_for(rows: Seq<(AnyDhtHash, AnyDhtHash)>, base: AnyDhtHash) -> Seq<AnyDhtHash>
    decreases rows.len(),
{
    if rows.len() == 0 {
        Seq::empty()
    } else {
        let rest = rows_for(rows.drop_last(), base);
        if rows.last().0 == base {
            rest.push(rows.last().1)
        } else {
            rest
        }
    }
}

/// A secondary index: rows `(base, op)` saying that operation `op`
/// annotates the entity `base`, each row at most once.
pub struct MetaStore {
    rows: Vec<(AnyDhtHash, AnyDhtHash)>,
}

impl View for MetaStore {
    type V = Seq<(AnyDhtHash, AnyDhtHash)>;

    closed spec fn view(&self) -> Seq<(AnyDhtHash, AnyDhtHash)> {
        self.rows@
    }
}

impl MetaStore {
    pub open spec fn wf(&self) -> bool {
        self@.no_duplicates()
    }

    pub fn new() -> (r: MetaStore)
        ensures
            r@ == Seq::<(AnyDhtHash, AnyDhtHash)>::empty(),
            r.wf(),
    {
        MetaStore { rows: Vec::new() }
    }

    pub fn contains(&self, base: AnyDhtHash, op: AnyDhtHash) -> (r: bool)
        ensures
            r == self@.contains((base, op)),
    {
        let mut i: usize = 0;
        while i < self.rows.len()
            invariant
                0 <= i <= self@.len(),
                self@ == self.rows@,
                forall|k: int| 0 <= k < i ==> self@[k] != (base, op),
            decreases self@.len() - i,
        {
            if self.rows[i].0 == base && self.rows[i].1 == op {
                return true;
            }
            i = i + 1;
        }
        false
    }

    /// Adds the row `(base, op)`; adding a row that is already there changes
    /// nothing.
    pub fn add(&mut self, base: AnyDhtHash, op: AnyDhtHash)
        requires
            old(self).wf(),
        ensures
            final(self).wf(),
            old(self)@.contains((base, op)) ==> final(self)@ == old(self)@,
            !old(self)@.contains((base, op)) ==> final(self)@ == old(self)@.push((base, op)),
    {
        if !self.contains(base, op) {
            self.rows.push((base, op));
            assert(self@.no_duplicates()) by {
                let s = self@;
                assert forall|a: int, b: int| 0 <= a < s.len() && 0 <= b < s.len() && a != b
                    implies s[a] != s[b] by {
                    if a < s.len() - 1 && b < s.len() - 1 {
                        assert(s[a] == old(self)@[a] && s[b] == old(self)@[b]);
                    } else if a < s.len() - 1 {
                        assert(old(self)@.contains(s[a]));
                    } else {
                        assert(old(self)@.contains(s[b]));
                    }
                }
            }
        }
    }

    /// The operations listed for `base`.
    pub fn get(&self, base: AnyDhtHash) -> (r: Vec<AnyDhtHash>)
        ensures
            r@ == rows_for(self@, base),
    {
        let mut r: Vec<AnyDhtHash> = Vec::new();
        let mut i: usize = 0;
        while i < self.rows.len()
            invariant
                0 <= i <= self@.len(),
                self@ == self.rows@,
                r@ == rows_for(self@.take(i as int), base),
            decreases self@.len() - i,
        {
            assert(self@.take(i + 1).drop_last() == self@.take(i as int));
            if self.rows[i].0 == base {
                r.push(self.rows[i].1);
            }
            i = i + 1;
        }
        assert(self@.take(i as int) == self@);
        r
    }
}

/// The element store and metadata index of one scope.
pub struct ScopeStore {
    pub element: ElementStore,
    pub meta: MetaStore,
}

impl ScopeStore {
    pub open spec fn wf(&self) -> bool {
        self.element.wf() && self.meta.wf()
    }

    pub fn new() -> (r: ScopeStore)
        ensures
            r.wf(),
            r.element@ == Seq::<Element>::empty(),
            r.meta@ == Seq::<(AnyDhtHash, AnyDhtHash)>::empty(),
    {
        ScopeStore { element: ElementStore::new(), meta: MetaStore::new() }
    }
}

} // verus!

//! Labels: attribute bags attached to nodes and edges, and the two label
//! comparisons that the library offers.

use vstd::prelude::*;
use crate::keyed::KeyedList;
use crate::model::LabelView;

verus! {

/// An attribute bag: string keys, each with one value token. The token stands
/// for a value of the host; equal tokens mean equal values.
#[derive(Debug)]
pub struct Label {
    attrs: KeyedList<u64>,
}

/// Every key of `pattern` is a key of `target`. Values play no part.
pub open spec fn key_coverage(pattern: LabelView, target: LabelView) -> bool {
    pattern.dom().subset_of(target.dom())
}

/// Both labels have the same keys with the same values.
pub open spec fn same_attributes(a: LabelView, b: LabelView) -> bool {
    a == b
}

impl Label {
    /// No key occurs twice.
    pub closed spec fn wf(&self) -> bool {
        self.attrs.wf()
    }

    /// The attributes as a map from key to value token.
    pub closed spec fn view(&self) -> LabelView {
        self.attrs@
    }

    /// The keys in insertion order.
    pub closed spec fn keys(&self) -> Seq<Seq<char>> {
        Seq::new(self.attrs.entries().len(), |i: int| self.attrs.entries()[i].0@)
    }

    /// A label without attributes.
    pub fn new() -> (r: Self)
        ensures
            r.wf(),
            r@ == Map::<Seq<char>, u64>::empty(),
            r.keys() == Seq::<Seq<char>>::empty(),
    {
        let r = Label { attrs: KeyedList::new() };
        assert(r.keys() =~= Seq::<Seq<char>>::empty());
        r
    }

    /// Sets the attribute `key` to `value`, replacing an earlier value.
    pub fn insert(&mut self, key: &str, value: u64)
        ensures
            old(self).wf() ==> final(self).wf(),
            final(self)@ == old(self)@.insert(key@, value),
            final(self).keys() == if old(self)@.contains_key(key@) {
                old(self).keys()
            } else {
                old(self).keys().push(key@)
            },
    {
        let ghost before = self.attrs.entries();
        self.attrs.insert(key.to_owned(), value);
        proof {
            crate::keyed::lemma_position_of(before, key@);
            if old(self)@.contains_key(key@) {
                assert(self.keys() =~= old(self).keys());
            } else {
                assert(self.keys() =~= old(self).keys().push(key@));
            }
        }
    }

    /// Number of attributes.
    pub fn len(&self) -> (n: usize)
        ensures
            n == self.keys().len(),
            self.wf() ==> n == self@.len(),
    {
        self.attrs.len()
    }

    /// The value token of attribute `key`, if the label has that attribute.
    pub fn get(&self, key: &str) -> (r: Option<u64>)
        ensures
            r == (if self@.contains_key(key@) {
                Some(self@[key@])
            } else {
                None
            }),
    {
        let owned = key.to_owned();
        match self.attrs.get(&owned) {
            Some(v) => Some(*v),
            None => None,
        }
    }

    /// Whether the label has the attribute `key`.
    pub fn contains_key(&self, key: &str) -> (r: bool)
        ensures
            r == self@.contains_key(key@),
    {
        let owned = key.to_owned();
        self.attrs.contains_key(&owned)
    }

    /// The key at position `i` of the insertion order.
    pub fn key_at(&self, i: usize) -> (k: &String)
        requires
            i < self.keys().len(),
        ensures
            k@ == self.keys()[i as int],
            self@.contains_key(k@),
    {
        self.attrs.key_at(i)
    }

    /// The value token at position `i` of the insertion order.
    pub fn value_at(&self, i: usize) -> (v: u64)
        requires
            i < self.keys().len(),
        ensures
            self.wf() ==> v == self@[self.keys()[i as int]],
    {
        *self.attrs.value_at(i)
    }

    /// Whether both labels have the same keys with the same values.
    pub fn same_as(&self, other: &Label) -> (r: bool)
        ensures
            r == same_attributes(self@, other@),
    {
        let n = self.attrs.len();
        let mut i: usize = 0;
        while i < n
            invariant
                n == self.attrs.entries().len(),
                0 <= i <= n,
                forall|j: int|
                    0 <= j < i ==> {
                        let k = #[trigger] self.attrs.entries()[j].0@;
                        other@.contains_key(k) && other@[k] == self@[k]
                    },
            decreases n - i,
        {
            let k = self.attrs.key_at(i);
            let mine = self.attrs.get(k);
            let theirs = other.attrs.get(k);
            match (mine, theirs) {
                (Some(a), Some(b)) => {
                    if *a != *b {
                        return false;
                    }
                },
                _ => {
                    return false;
                },
            }
            i += 1;
        }
        let m = other.attrs.len();
        let mut j: usize = 0;
        while j < m
            invariant
                m == other.attrs.entries().len(),
                0 <= j <= m,
                forall|l: int|
                    0 <= l < j ==> self@.contains_key(#[trigger] other.attrs.entries()[l].0@),
            decreases m - j,
        {
            let k = other.attrs.key_at(j);
            if !self.attrs.contains_key(k) {
                return false;
            }
            j += 1;
        }
        proof {
            assert forall|k: Seq<char>| #[trigger] self@.dom().contains(k) implies other@.dom().contains(k)
                && other@[k] == self@[k] by {
                crate::keyed::lemma_position_of(self.attrs.entries(), k);
                let p = crate::keyed::position_of(self.attrs.entries(), k);
                assert(self.attrs.entries()[p].0@ == k);
            }
            assert forall|k: Seq<char>| #[trigger] other@.dom().contains(k) implies self@.dom().contains(k) by {
                crate::keyed::lemma_position_of(other.attrs.entries(), k);
                let p = crate::keyed::position_of(other.attrs.entries(), k);
                assert(other.attrs.entries()[p].0@ == k);
            }
            assert(self@ =~= other@);
        }
        true
    }
}

/// The default label comparison. It accepts a target label that has every
/// key of the pattern label. Where both labels have a key, their values are
/// looked at and the key is accepted whether or not they are equal, so only
/// the keys decide. Keys that only the target has play no part, and a
/// pattern label without keys is accepted by every target label.
pub fn native_same_label_fn(a: &Label, b: &Label) -> (r: bool)
    ensures
        r == key_coverage(a@, b@),
{
    let n = a.len();
    let mut i: usize = 0;
    while i < n
        invariant
            n == a.keys().len(),
            0 <= i <= n,
            forall|j: int| 0 <= j < i ==> b@.contains_key(#[trigger] a.keys()[j]),
        decreases n - i,
    {
        let k = a.key_at(i);
        let v = a.value_at(i);
        match b.get(k.as_str()) {
            Some(other_v) => {
                if v == other_v {
                    i += 1;
                    continue;
                }
            },
            None => {
                return false;
            },
        }
        i += 1;
    }
    proof {
        a.lemma_keys_cover();
        assert forall|k: Seq<char>| a@.dom().contains(k) implies b@.dom().contains(k) by {
            assert(a@.contains_key(k));
            assert(a.keys().contains(k));
            let j = choose|j: int| 0 <= j < a.keys().len() && a.keys()[j] == k;
            assert(b@.contains_key(a.keys()[j]));
        }
    }
    true
}

impl Clone for Label {
    /// A copy with the same attributes in the same order.
    fn clone(&self) -> (r: Self)
        ensures
            r@ == self@,
            r.keys() == self.keys(),
            r.wf() == self.wf(),
    {
        Label { attrs: self.attrs.clone() }
    }
}

impl Label {
    /// Every attribute key stands somewhere in the insertion order, and
    /// nothing else does.
    pub proof fn lemma_keys_cover(&self)
        ensures
            forall|k: Seq<char>| self@.contains_key(k) <==> self.keys().contains(k),
    {
        assert forall|k: Seq<char>| self@.contains_key(k) <==> self.keys().contains(k) by {
            crate::keyed::lemma_position_of(self.attrs.entries(), k);
            let p = crate::keyed::position_of(self.attrs.entries(), k);
            if self@.contains_key(k) {
                assert(self.keys()[p] == k);
            }
            if self.keys().contains(k) {
                let j = choose|j: int| 0 <= j < self.keys().len() && self.keys()[j] == k;
                assert(self.attrs.entries()[j].0@ == k);
            }
        }
    }
}

impl PartialEq for Label {
    /// Two labels are equal when they have the same keys with the same
    /// values, in whatever order the attributes were set.
    fn eq(&self, other: &Self) -> (r: bool) {
        self.same_as(other)
    }
}

impl vstd::std_specs::cmp::PartialEqSpecImpl for Label {
    open spec fn obeys_eq_spec() -> bool {
        true
    }

    open spec fn eq_spec(&self, other: &Self) -> bool {
        same_attributes(self@, other@)
    }
}

} // verus!

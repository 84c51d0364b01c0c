//! Sets of content names.

use crate::text::str_eq;
use vstd::prelude::*;

verus! {

/// The texts that a sequence of strings spells out, in the same order.
pub open spec fn texts(names: Seq<String>) -> Seq<Seq<char>> {
    names.map_values(|s: String| s@)
}

/// The names of a list, each once, in order of first arrival.
pub open spec fn distinct(names: Seq<Seq<char>>) -> Seq<Seq<char>>
    decreases names.len(),
{
    if names.len() == 0 {
        names
    } else {
        let before = distinct(names.drop_last());
        if before.contains(names.last()) {
            before
        } else {
            before.push(names.last())
        }
    }
}

/// Leaving out what came before loses no name and leaves none twice.
pub proof fn lemma_distinct(names: Seq<Seq<char>>)
    ensures
        distinct(names).no_duplicates(),
        distinct(names).to_set() == names.to_set(),
    decreases names.len(),
{
    if names.len() > 0 {
        let front = names.drop_last();
        lemma_distinct(front);
        front.lemma_push_to_set_commute(names.last());
        distinct(front).lemma_push_to_set_commute(names.last());
        assert(front.push(names.last()) =~= names);
        if distinct(front).contains(names.last()) {
            assert(front.to_set().insert(names.last()) =~= front.to_set());
        }
    } else {
        assert(distinct(names).to_set() =~= names.to_set());
    }
}

/// Two lists that hold the same names, in whatever order and however often,
/// give sets with the same members, and as many.
pub proof fn lemma_order_is_no_matter(first: Seq<Seq<char>>, second: Seq<Seq<char>>)
    requires
        first.to_set() == second.to_set(),
    ensures
        distinct(first).to_set() == distinct(second).to_set(),
        distinct(first).len() == distinct(second).len(),
{
    lemma_distinct(first);
    lemma_distinct(second);
    distinct(first).unique_seq_to_set();
    distinct(second).unique_seq_to_set();
}

/// The names of `names` that are in `others`, in their order.
pub open spec fn shared(names: Seq<Seq<char>>, others: Set<Seq<char>>) -> Seq<Seq<char>> {
    names.filter(|n: Seq<char>| others.contains(n))
}

/// The names of `names` that are not in `others`, in their order.
pub open spec fn apart(names: Seq<Seq<char>>, others: Set<Seq<char>>) -> Seq<Seq<char>> {
    names.filter(|n: Seq<char>| !others.contains(n))
}

/// A finite set of content names.
///
/// Two names are the same member exactly when they are the same text. The
/// set remembers the order in which its members first arrived, so that
/// listing it gives the same lines every time.
#[derive(Debug)]
pub struct NameSet {
    names: Vec<String>,
}

impl View for NameSet {
    type V = Set<Seq<char>>;

    open spec fn view(&self) -> Set<Seq<char>> {
        self.order().to_set()
    }
}

impl NameSet {
    /// The members, each once, in order of arrival.
    pub closed spec fn order(&self) -> Seq<Seq<char>> {
        texts(self.names@)
    }

    #[verifier::type_invariant]
    spec fn no_repeats(&self) -> bool {
        self.order().no_duplicates()
    }

    /// The empty set.
    pub fn new() -> (s: NameSet)
        ensures
            s.order() == Seq::<Seq<char>>::empty(),
            s@ == Set::<Seq<char>>::empty(),
    {
        let s = NameSet { names: Vec::new() };
        assert(s.order() =~= Seq::<Seq<char>>::empty());
        assert(s@ =~= Set::<Seq<char>>::empty());
        s
    }

    /// The number of members.
    pub fn len(&self) -> (n: usize)
        ensures
            n == self@.len(),
            n == self.order().len(),
    {
        proof {
            use_type_invariant(self);
            self.order().unique_seq_to_set();
        }
        self.names.len()
    }

    /// Whether the set has no member.
    pub fn is_empty(&self) -> (r: bool)
        ensures
            r == (self@ == Set::<Seq<char>>::empty()),
            r == (self.order().len() == 0),
    {
        proof {
            if self.order().len() == 0 {
                assert(self@ =~= Set::<Seq<char>>::empty());
            } else {
                assert(self@.contains(self.order()[0]));
            }
        }
        self.names.len() == 0
    }

    /// Whether `name` is a member.
    pub fn contains(&self, name: &str) -> (r: bool)
        ensures
            r == self@.contains(name@),
    {
        let mut i: usize = 0;
        while i < self.names.len()
            invariant
                i <= self.names.len(),
                forall|j: int| 0 <= j < i ==> self.order()[j] != name@,
            decreases self.names.len() - i,
        {
            if str_eq(self.names[i].as_str(), name) {
                assert(self.order()[i as int] == name@);
                return true;
            }
            i += 1;
        }
        false
    }

    /// Adds `name`, and says whether it was new to the set. A name that is
    /// already a member leaves the set as it was.
    pub fn insert(&mut self, name: String) -> (fresh: bool)
        ensures
            fresh == !old(self)@.contains(name@),
            final(self)@ == old(self)@.insert(name@),
            final(self).order() == if fresh {
                old(self).order().push(name@)
            } else {
                old(self).order()
            },
    {
        if self.contains(name.as_str()) {
            assert(self@.insert(name@) =~= self@);
            false
        } else {
            self.push_new(name);
            true
        }
    }

    /// Adds a name that is known not to be a member.
    fn push_new(&mut self, name: String)
        requires
            !old(self)@.contains(name@),
        ensures
            final(self)@ == old(self)@.insert(name@),
            final(self).order() == old(self).order().push(name@),
    {
        proof {
            use_type_invariant(&*self);
        }
        let ghost before = self.order();
        let mut names: Vec<String> = Vec::new();
        core::mem::swap(&mut self.names, &mut names);
        names.push(name);
        assert(texts(names@) =~= before.push(name@));
        assert(!before.contains(name@));
        core::mem::swap(&mut self.names, &mut names);
        proof {
            before.lemma_push_to_set_commute(name@);
        }
    }

    /// The member that arrived as number `i`, counting from zero.
    pub fn get(&self, i: usize) -> (name: Option<&String>)
        ensures
            match name {
                Some(name) => i < self.order().len() && name@ == self.order()[i as int],
                None => i >= self.order().len(),
            },
    {
        if i < self.names.len() {
            Some(&self.names[i])
        } else {
            None
        }
    }

    /// The members as a list, in order of arrival.
    pub fn to_vec(&self) -> (list: Vec<String>)
        ensures
            texts(list@) == self.order(),
    {
        let mut list: Vec<String> = Vec::new();
        let mut i: usize = 0;
        while i < self.names.len()
            invariant
                i <= self.names.len(),
                list@ == self.names@.take(i as int),
            decreases self.names.len() - i,
        {
            list.push(self.names[i].clone());
            assert(self.names@.take(i + 1) =~= self.names@.take(i as int).push(self.names@[i as int]));
            i += 1;
        }
        assert(self.names@.take(self.names.len() as int) =~= self.names@);
        list
    }

    /// The members that are in `other` too where `shared` is set, and
    /// those that are not in `other` where it is not.
    fn select(&self, other: &NameSet, shared: bool) -> (r: NameSet)
        ensures
            r.order() == self.order().filter(|n: Seq<char>| other@.contains(n) == shared),
            forall|n: Seq<char>| r@.contains(n) <==> self@.contains(n) && (other@.contains(n) == shared),
    {
        let ghost pred = |n: Seq<char>| other@.contains(n) == shared;
        let mut r = NameSet::new();
        let mut i: usize = 0;
        proof {
            use_type_invariant(self);
            assert(self.order().take(0) =~= Seq::<Seq<char>>::empty());
            reveal(Seq::filter);
        }
        while i < self.names.len()
            invariant
                i <= self.names.len(),
                self.order().no_duplicates(),
                pred == |n: Seq<char>| other@.contains(n) == shared,
                r.order() == self.order().take(i as int).filter(pred),
            decreases self.names.len() - i,
        {
            let name = &self.names[i];
            proof {
                let prefix = self.order().take(i as int);
                assert(self.order().take(i + 1) =~= prefix.push(name@));
                prefix.lemma_filter_push(name@, pred);
                if r@.contains(name@) {
                    prefix.lemma_filter_contains_rev(pred, name@);
                    let j = choose|j: int| 0 <= j < prefix.len() && prefix[j] == name@;
                    assert(self.order()[j] == self.order()[i as int]);
                }
            }
            if other.contains(name.as_str()) == shared {
                r.push_new(name.clone());
            }
            i += 1;
        }
        proof {
            assert(self.order().take(self.names.len() as int) =~= self.order());
            assert forall|n: Seq<char>| r@.contains(n) <==> self@.contains(n) && pred(n) by {
                if r@.contains(n) {
                    self.order().lemma_filter_contains_rev(pred, n);
                    let j = choose|j: int| 0 <= j < r.order().len() && r.order()[j] == n;
                    self.order().lemma_filter_pred(pred, j);
                }
                if self@.contains(n) && pred(n) {
                    let j = choose|j: int| 0 <= j < self.order().len() && self.order()[j] == n;
                    self.order().lemma_filter_contains(pred, j);
                }
            }
        }
        r
    }

    /// The members of this set that are members of `other` too, in this
    /// set's order.
    pub fn intersection(&self, other: &NameSet) -> (r: NameSet)
        ensures
            r@ == self@.intersect(other@),
            r.order() == shared(self.order(), other@),
    {
        let r = self.select(other, true);
        assert(r@ =~= self@.intersect(other@));
        assert((|n: Seq<char>| other@.contains(n) == true) =~= (|n: Seq<char>| other@.contains(n)));
        r
    }

    /// The members of this set that are not members of `other`, in this
    /// set's order.
    pub fn difference(&self, other: &NameSet) -> (r: NameSet)
        ensures
            r@ == self@.difference(other@),
            r.order() == apart(self.order(), other@),
    {
        let r = self.select(other, false);
        assert(r@ =~= self@.difference(other@));
        assert((|n: Seq<char>| other@.contains(n) == false) =~= (|n: Seq<char>| !other@.contains(n)));
        r
    }
}

} // verus!

use crate::text::views;
use vstd::prelude::*;
use vstd::string::*;

verus! {

/// `elems` with each text of `names` that it lacks appended, in order.
pub open spec fn with_all(elems: Seq<Seq<char>>, names: Seq<Seq<char>>) -> Seq<Seq<char>>
    decreases names.len(),
{
    if names.len() == 0 {
        elems
    } else {
        let before = with_all(elems, names.drop_last());
        if before.contains(names.last()) {
            before
        } else {
            before.push(names.last())
        }
    }
}

/// As a set, `with_all` is the union of its arguments.
pub proof fn lemma_with_all_set(elems: Seq<Seq<char>>, names: Seq<Seq<char>>)
    ensures
        with_all(elems, names).to_set() == elems.to_set().union(names.to_set()),
        elems.is_prefix_of(with_all(elems, names)),
        elems.no_duplicates() ==> with_all(elems, names).no_duplicates(),
    decreases names.len(),
{
    if names.len() == 0 {
        assert(elems.to_set().union(names.to_set()) =~= elems.to_set());
    } else {
        let before = with_all(elems, names.drop_last());
        lemma_with_all_set(elems, names.drop_last());
        let after = with_all(elems, names);
        assert forall|x: Seq<char>| after.to_set().contains(x) <==> elems.to_set().union(
            names.to_set(),
        ).contains(x) by {
            if names.contains(x) {
                let i = choose|i: int| 0 <= i < names.len() && names[i] == x;
                if i < names.len() - 1 {
                    assert(names.drop_last()[i] == x);
                    assert(names.drop_last().to_set().contains(x));
                    assert(before.to_set().contains(x));
                    let k = choose|k: int| 0 <= k < before.len() && before[k] == x;
                    assert(after[k] == x);
                } else {
                    if before.contains(x) {
                    } else {
                        assert(after[before.len() as int] == x);
                    }
                }
            }
            if elems.contains(x) {
                assert(before.to_set().contains(x));
                let k = choose|k: int| 0 <= k < before.len() && before[k] == x;
                assert(after[k] == x);
            }
            if after.contains(x) {
                let k = choose|k: int| 0 <= k < after.len() && after[k] == x;
                if k < before.len() {
                    assert(before[k] == x);
                    assert(before.to_set().contains(x));
                    if names.drop_last().contains(x) {
                        let i = choose|i: int| 0 <= i < names.drop_last().len() && names.drop_last()[i] == x;
                        assert(names[i] == x);
                    }
                } else {
                    assert(names[names.len() - 1] == x);
                }
            }
        }
        assert(after.to_set() =~= elems.to_set().union(names.to_set()));
    }
}

/// A set of texts, kept in the order in which they were first inserted.
#[derive(Debug)]
pub struct StringSet {
    items: Vec<String>,
}

impl View for StringSet {
    type V = Set<Seq<char>>;

    /// The texts that the set holds.
    open spec fn view(&self) -> Set<Seq<char>> {
        self.elements().to_set()
    }
}

impl StringSet {
    #[verifier::type_invariant]
    spec fn distinct(self) -> bool {
        views(self.items@).no_duplicates()
    }

    /// The texts that the set holds, in the order of their first insertion.
    pub closed spec fn elements(&self) -> Seq<Seq<char>> {
        views(self.items@)
    }

    /// The empty set.
    pub fn new() -> (s: StringSet)
        ensures
            s.elements() == Seq::<Seq<char>>::empty(),
    {
        let s = StringSet { items: Vec::new() };
        assert(s.elements() =~= Seq::<Seq<char>>::empty());
        s
    }

    /// How many texts the set holds. No text is counted twice, because none
    /// occurs twice among the elements.
    pub fn len(&self) -> (n: usize)
        ensures
            n == self.elements().len(),
            self.elements().no_duplicates(),
    {
        proof {
            use_type_invariant(self);
        }
        self.items.len()
    }

    /// The text at position `i` in the order of first insertion.
    pub fn get(&self, i: usize) -> (name: &String)
        requires
            i < self.elements().len(),
        ensures
            name@ == self.elements()[i as int],
    {
        &self.items[i]
    }

    /// Whether the set holds `name`.
    pub fn contains(&self, name: &String) -> (r: bool)
        ensures
            r == self@.contains(name@),
    {
        let mut i: usize = 0;
        while i < self.items.len()
            invariant
                i <= self.items.len(),
                forall|k: int| 0 <= k < i ==> self.elements()[k] != name@,
            decreases self.items.len() - i,
        {
            if self.items[i] == *name {
                assert(self.elements()[i as int] == name@);
                return true;
            }
            i = i + 1;
        }
        false
    }

    /// Puts `name` into the set. Returns whether it was new; a text that the
    /// set already holds keeps its place.
    pub fn insert(&mut self, name: String) -> (fresh: bool)
        ensures
            fresh == !old(self)@.contains(name@),
            final(self).elements() == if fresh {
                old(self).elements().push(name@)
            } else {
                old(self).elements()
            },
    {
        proof {
            use_type_invariant(&*self);
        }
        if self.contains(&name) {
            false
        } else {
            let ghost before = self.elements();
            let mut items: Vec<String> = Vec::new();
            std::mem::swap(&mut self.items, &mut items);
            items.push(name);
            assert(views(items@) =~= before.push(name@));
            self.items = items;
            true
        }
    }

    /// Puts every text of `names` into the set, in order.
    pub fn extend(&mut self, names: &Vec<String>)
        ensures
            final(self).elements() == with_all(old(self).elements(), views(names@)),
            final(self)@ == old(self)@.union(views(names@).to_set()),
    {
        let mut i: usize = 0;
        proof {
            assert(views(names@).take(0) =~= Seq::<Seq<char>>::empty());
        }
        while i < names.len()
            invariant
                i <= names.len(),
                self.elements() == with_all(old(self).elements(), views(names@).take(i as int)),
            decreases names.len() - i,
        {
            proof {
                let next = views(names@).take(i + 1);
                assert(next.drop_last() =~= views(names@).take(i as int));
                assert(next.last() == names@[i as int]@);
            }
            self.insert(names[i].clone());
            i = i + 1;
        }
        proof {
            assert(views(names@).take(names.len() as int) =~= views(names@));
            lemma_with_all_set(old(self).elements(), views(names@));
        }
    }

    /// The texts of the set, in the order of their first insertion.
    pub fn to_vec(&self) -> (v: Vec<String>)
        ensures
            views(v@) == self.elements(),
    {
        let v = self.items.clone();
        assert(views(v@) =~= self.elements());
        v
    }
}

} // verus!

//! A set of strings kept as a vector without repeats.
use vstd::prelude::*;

verus! {

/// A set of strings, each held once, kept in insertion order.
pub struct StringSet {
    items: Vec<String>,
}

impl View for StringSet {
    type V = Set<Seq<char>>;

    closed spec fn view(&self) -> Set<Seq<char>> {
        self.items@.map_values(|s: String| s@).to_set()
    }
}

impl StringSet {
    /// The strings in insertion order.
    pub closed spec fn seq(&self) -> Seq<Seq<char>> {
        self.items@.map_values(|s: String| s@)
    }

    /// The set holds the strings of `seq`, and, when well formed, each once.
    pub proof fn lemma_seq(&self)
        ensures
            self@ == self.seq().to_set(),
            self.wf() ==> forall|i: int, j: int| 0 <= i < j < self.seq().len() ==> self.seq()[i] != self.seq()[j],
    {
    }

    /// The strings, in insertion order.
    pub fn as_slice(&self) -> (r: &[String])
        ensures
            r@.map_values(|s: String| s@) == self.seq(),
    {
        self.items.as_slice()
    }

    /// No string is held twice.
    pub closed spec fn wf(&self) -> bool {
        forall|i: int, j: int|
            0 <= i < j < self.items@.len() ==> self.items@[i]@ != self.items@[j]@
    }

    /// The empty set.
    pub fn new() -> (r: Self)
        ensures
            r.wf(),
            r@ == Set::<Seq<char>>::empty(),
    {
        let r = StringSet { items: Vec::new() };
        proof {
            assert(r@ =~= Set::<Seq<char>>::empty());
        }
        r
    }

    /// Whether `s` is in the set.
    pub fn contains(&self, s: &str) -> (r: bool)
        ensures
            r == self@.contains(s@),
    {
        let target = String::from_str(s);
        let mut i: usize = 0;
        while i < self.items.len()
            invariant
                i <= self.items@.len(),
                target@ == s@,
                forall|j: int| 0 <= j < i ==> self.items@[j]@ != s@,
            decreases self.items.len() - i,
        {
            if self.items[i] == target {
                proof {
                    assert(self.items@.map_values(|x: String| x@)[i as int] == s@);
                }
                return true;
            }
            i += 1;
        }
        proof {
            if self@.contains(s@) {
                let m = self.items@.map_values(|x: String| x@);
                let k = choose|k: int| 0 <= k < m.len() && m[k] == s@;
                assert(self.items@[k]@ == s@);
            }
        }
        false
    }

    /// Adds `s`; returns whether it was new.
    pub fn insert(&mut self, s: String) -> (r: bool)
        requires
            old(self).wf(),
        ensures
            final(self).wf(),
            final(self)@ == old(self)@.insert(s@),
            r == !old(self)@.contains(s@),
    {
        if self.contains(s.as_str()) {
            proof {
                assert(self@.insert(s@) =~= self@);
            }
            return false;
        }
        let ghost old_items = self.items@;
        self.items.push(s);
        proof {
            assert(self.items@.map_values(|x: String| x@) =~= old_items.map_values(|x: String| x@).push(
                s@,
            ));
            let m0 = old_items.map_values(|x: String| x@);
            let m1 = self.items@.map_values(|x: String| x@);
            assert forall|x: Seq<char>| #[trigger] self@.contains(x) <==> old(self)@.insert(s@).contains(x) by {
                if m1.contains(x) {
                    let k = choose|k: int| 0 <= k < m1.len() && m1[k] == x;
                    if k < m0.len() {
                        assert(m0[k] == x);
                    }
                }
                if m0.contains(x) {
                    let k = choose|k: int| 0 <= k < m0.len() && m0[k] == x;
                    assert(m1[k] == x);
                }
                if x == s@ {
                    assert(m1[m0.len() as int] == x);
                }
            }
            assert(self@ =~= old(self)@.insert(s@));
            assert forall|i: int, j: int|
                0 <= i < j < self.items@.len() implies self.items@[i]@ != self.items@[j]@ by {
                if j == self.items@.len() - 1 {
                    assert(old_items.map_values(|x: String| x@)[i] == self.items@[i]@);
                }
            }
        }
        true
    }

    /// Number of strings.
    pub fn len(&self) -> (r: usize)
        requires
            self.wf(),
        ensures
            r == self@.len(),
    {
        proof {
            let m = self.items@.map_values(|x: String| x@);
            assert forall|i: int, j: int| 0 <= i < j < m.len() implies m[i] != m[j] by {}
            m.unique_seq_to_set();
        }
        self.items.len()
    }

    /// The strings, in insertion order.
    pub fn to_vec(&self) -> (r: Vec<String>)
        ensures
            r@.map_values(|s: String| s@).to_set() == self@,
    {
        let mut r: Vec<String> = Vec::new();
        let mut i: usize = 0;
        while i < self.items.len()
            invariant
                i <= self.items@.len(),
                r@.len() == i,
                forall|j: int| 0 <= j < i ==> r@[j]@ == self.items@[j]@,
            decreases self.items.len() - i,
        {
            r.push(self.items[i].clone());
            i += 1;
        }
        proof {
            assert(r@.map_values(|s: String| s@) =~= self.items@.map_values(|s: String| s@));
        }
        r
    }
}

} // verus!

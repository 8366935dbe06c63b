use vstd::prelude::*;

verus! {

/// Counting the distinct items of a collection.
pub trait CountUnique: Sized {
    /// The distinct items of the collection.
    spec fn distinct_items(&self) -> Set<usize>;

    /// The number of distinct items.
    fn unique(self) -> (r: usize)
        ensures
            r == self.distinct_items().len(),
    ;
}

impl CountUnique for Vec<usize> {
    open spec fn distinct_items(&self) -> Set<usize> {
        self@.to_set()
    }

    fn unique(self) -> (r: usize) {
        let ghost s = self@;
        let mut count: usize = 0;
        let mut i: usize = 0;
        proof {
            assert(s.take(0).to_set() =~= Set::<usize>::empty());
        }
        while i < self.len()
            invariant
                s == self@,
                i <= s.len(),
                count == s.take(i as int).to_set().len(),
                count <= i,
            decreases s.len() - i,
        {
            let x = self[i];
            let mut seen = false;
            let mut j: usize = 0;
            while j < i
                invariant
                    s == self@,
                    i < s.len(),
                    j <= i,
                    x == s[i as int],
                    seen <==> exists|k: int| 0 <= k < j && s[k] == x,
                decreases i - j,
            {
                if self[j] == x {
                    seen = true;
                }
                j = j + 1;
            }
            proof {
                let before = s.take(i as int);
                assert(s.take(i as int + 1) =~= before.push(x));
                before.lemma_push_to_set_commute(x);
                vstd::seq_lib::seq_to_set_is_finite(before);
                if seen {
                    let k = choose|k: int| 0 <= k < i && s[k] == x;
                    assert(before[k] == x);
                    assert(before.to_set().contains(x));
                    assert(before.to_set().insert(x) =~= before.to_set());
                } else {
                    assert(!before.to_set().contains(x)) by {
                        if before.to_set().contains(x) {
                            let k = choose|k: int| 0 <= k < before.len() && before[k] == x;
                            assert(s[k] == x);
                        }
                    }
                }
            }
            if !seen {
                count = count + 1;
            }
            i = i + 1;
        }
        proof {
            assert(s.take(s.len() as int) =~= s);
        }
        count
    }
}

} // verus!

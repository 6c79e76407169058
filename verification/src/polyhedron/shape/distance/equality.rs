use vstd::prelude::*;
use vstd::std_specs::cmp::PartialEqSpecImpl;
use super::Distance;

verus! {

impl Distance {
    /// Whether both hold the same matrix.
    pub fn same_matrix(&self, other: &Distance) -> (r: bool)
        ensures
            r == (self@ == other@),
    {
        proof {
            self.lemma_view();
            other.lemma_view();
        }
        if self.rows.len() != other.rows.len() {
            return false;
        }
        let mut x: usize = 0;
        while x < self.rows.len()
            invariant
                x <= self.rows@.len(),
                self.rows@.len() == other.rows@.len(),
                self@.len() == self.rows@.len(),
                other@.len() == other.rows@.len(),
                forall|k: int| 0 <= k < self.rows@.len() ==> #[trigger] self@[k] == self.rows@[k]@,
                forall|k: int| 0 <= k < other.rows@.len() ==> #[trigger] other@[k] == other.rows@[k]@,
                forall|k: int| 0 <= k < x ==> #[trigger] self@[k] == other@[k],
            decreases self.rows@.len() - x,
        {
            let a = &self.rows[x];
            let b = &other.rows[x];
            if a.len() != b.len() {
                assert(self@[x as int].len() != other@[x as int].len());
                return false;
            }
            let mut y: usize = 0;
            while y < a.len()
                invariant
                    y <= a@.len(),
                    a@.len() == b@.len(),
                    x < self@.len(),
                    a@ == self@[x as int],
                    b@ == other@[x as int],
                    forall|k: int| 0 <= k < y ==> #[trigger] a@[k] == b@[k],
                decreases a@.len() - y,
            {
                if a[y] != b[y] {
                    assert(self@[x as int][y as int] != other@[x as int][y as int]);
                    return false;
                }
                y += 1;
            }
            assert(a@ =~= b@);
            x += 1;
        }
        assert(self@ =~= other@);
        true
    }
}

impl PartialEq for Distance {
    fn eq(&self, other: &Self) -> (r: bool) {
        self.same_matrix(other)
    }
}

impl PartialEqSpecImpl for Distance {
    open spec fn obeys_eq_spec() -> bool {
        true
    }

    open spec fn eq_spec(&self, other: &Self) -> bool {
        self@ == other@
    }
}

} // verus!

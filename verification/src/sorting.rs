use vstd::prelude::*;
use vstd::relations::{sorted_by, total_ordering};

verus! {

/// The order cut points are sorted in.
pub open spec fn leq_u32() -> spec_fn(u32, u32) -> bool {
    |a: u32, b: u32| a <= b
}

pub proof fn lemma_leq_u32_total()
    ensures
        total_ordering(leq_u32()),
{
    assert(vstd::relations::reflexive(leq_u32()));
    assert(vstd::relations::antisymmetric(leq_u32()));
    assert(vstd::relations::transitive(leq_u32()));
    assert(vstd::relations::strongly_connected(leq_u32()));
}

/// The values `v[from..]` in ascending order.
pub fn sorted_tail(v: &Vec<u32>, from: usize) -> (r: Vec<u32>)
    requires
        from <= v.len(),
    ensures
        r@ == v@.subrange(from as int, v@.len() as int).sort_by(leq_u32()),
{
    broadcast use vstd::seq_lib::to_multiset_insert, vstd::seq_lib::to_multiset_build;

    let mut r: Vec<u32> = Vec::new();
    let mut i = from;
    proof {
        assert(v@.subrange(from as int, from as int) =~= Seq::<u32>::empty());
        assert(r@ =~= Seq::<u32>::empty());
    }
    while i < v.len()
        invariant
            from <= i <= v.len(),
            sorted_by(r@, leq_u32()),
            r@.to_multiset() == v@.subrange(from as int, i as int).to_multiset(),
        decreases v.len() - i,
    {
        let x = v[i];
        let mut pos: usize = 0;
        while pos < r.len() && r[pos] <= x
            invariant
                0 <= pos <= r.len(),
                forall|k: int| 0 <= k < pos ==> r@[k] <= x,
            decreases r.len() - pos,
        {
            pos += 1;
        }
        let ghost before = r@;
        r.insert(pos, x);
        proof {
            assert forall|a: int, b: int| 0 <= a < b < r@.len() implies #[trigger] leq_u32()(
                r@[a],
                r@[b],
            ) by {
                if b < pos {
                    assert(leq_u32()(before[a], before[b]));
                } else if b == pos {
                    assert(r@[a] == before[a]);
                } else if a < pos {
                    assert(r@[a] == before[a]);
                    assert(r@[b] == before[b - 1]);
                    if pos < before.len() {
                        assert(x < before[pos as int]);
                        assert(leq_u32()(before[pos as int], before[b - 1]));
                    }
                    assert(before[a] <= x);
                } else if a == pos {
                    assert(r@[b] == before[b - 1]);
                    assert(x < before[pos as int]);
                    if b - 1 > pos {
                        assert(leq_u32()(before[pos as int], before[b - 1]));
                    }
                } else {
                    assert(leq_u32()(before[a - 1], before[b - 1]));
                }
            }
            assert(v@.subrange(from as int, i + 1) =~= v@.subrange(from as int, i as int).push(x));
            vstd::seq_lib::to_multiset_insert(before, pos as int, x);
            vstd::seq_lib::to_multiset_build(v@.subrange(from as int, i as int), x);
        }
        i += 1;
    }
    proof {
        let s = v@.subrange(from as int, v@.len() as int);
        lemma_leq_u32_total();
        s.lemma_sort_by_ensures(leq_u32());
        vstd::seq_lib::lemma_sorted_unique(r@, s.sort_by(leq_u32()), leq_u32());
    }
    r
}

} // verus!

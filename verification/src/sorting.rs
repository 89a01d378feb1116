use vstd::prelude::*;
use vstd::relations::{sorted_by, total_ordering};
use vstd::seq_lib::group_to_multiset_ensures;
use vstd::assert_multisets_equal;

verus! {

/// The order the filter sorts hashed values by.
pub open spec fn value_order() -> spec_fn(u64, u64) -> bool {
    |x: u64, y: u64| x <= y
}

/// `<=` on 64-bit values is a total order.
pub proof fn lemma_value_order_total()
    ensures
        total_ordering(value_order()),
{
}

/// The hashed values of a filter, sorted ascending.
pub open spec fn sort_values_spec(s: Seq<u64>) -> Seq<u64> {
    s.sort_by(value_order())
}

/// Two ascending sequences carrying the same multiset are the same sequence.
pub proof fn lemma_sorted_unique(a: Seq<u64>, b: Seq<u64>)
    requires
        sorted_by(a, value_order()),
        sorted_by(b, value_order()),
        a.to_multiset() == b.to_multiset(),
    ensures
        a =~= b,
    decreases a.len(),
{
    broadcast use group_to_multiset_ensures;

    if a.len() == 0 {
        assert(b.to_multiset().len() == 0);
    } else {
        assert(b.to_multiset().len() == b.len());
        assert(b.len() > 0);
        assert(a.to_multiset().count(a[0]) > 0) by {
            assert(a.contains(a[0]));
        };
        assert(b.to_multiset().count(a[0]) > 0);
        assert(b.contains(a[0]));
        assert(b.to_multiset().count(b[0]) > 0) by {
            assert(b.contains(b[0]));
        };
        assert(a.to_multiset().count(b[0]) > 0);
        assert(a.contains(b[0]));
        let ia = choose|i: int| 0 <= i < a.len() && a[i] == b[0];
        let ib = choose|i: int| 0 <= i < b.len() && b[i] == a[0];
        assert(a[0] <= a[ia]) by {
            if ia > 0 {
                assert(value_order()(a[0], a[ia]));
            }
        };
        assert(b[0] <= b[ib]) by {
            if ib > 0 {
                assert(value_order()(b[0], b[ib]));
            }
        };
        assert(a[0] == b[0]);
        let a1 = a.drop_first();
        let b1 = b.drop_first();
        assert(a1 =~= a.remove(0));
        assert(b1 =~= b.remove(0));
        assert(a.remove(0).to_multiset() =~= a.to_multiset().remove(a[0]));
        assert(b.remove(0).to_multiset() =~= b.to_multiset().remove(b[0]));
        assert(a1.to_multiset() == b1.to_multiset());
        assert(sorted_by(a1, value_order())) by {
            assert(forall|i: int, j: int|
                0 <= i < j < a1.len() ==> a1[i] == a[i + 1] && a1[j] == a[j + 1]);
        };
        assert(sorted_by(b1, value_order())) by {
            assert(forall|i: int, j: int|
                0 <= i < j < b1.len() ==> b1[i] == b[i + 1] && b1[j] == b[j + 1]);
        };
        lemma_sorted_unique(a1, b1);
        assert(a.to_multiset().len() == a.len());
        assert forall|i: int| 0 <= i < a.len() implies a[i] == b[i] by {
            if i > 0 {
                assert(a1[i - 1] == b1[i - 1]);
            }
        }
    }
}

/// Mapping a function over two sequences that hold the same multiset of
/// values gives the same multiset again.
pub proof fn lemma_map_values_multiset<A, B>(a: Seq<A>, b: Seq<A>, f: spec_fn(A) -> B)
    requires
        a.to_multiset() == b.to_multiset(),
    ensures
        a.map_values(f).to_multiset() == b.map_values(f).to_multiset(),
    decreases a.len(),
{
    broadcast use group_to_multiset_ensures;

    if a.len() == 0 {
        assert(b.to_multiset().len() == 0);
        assert(a.map_values(f) =~= Seq::<B>::empty());
        assert(b.map_values(f) =~= Seq::<B>::empty());
    } else {
        let x = a.last();
        let a1 = a.drop_last();
        assert(a =~= a1.push(x));
        assert(a.to_multiset().count(x) > 0) by {
            assert(a.contains(x));
        };
        assert(b.to_multiset().count(x) > 0);
        assert(b.contains(x));
        let j = choose|i: int| 0 <= i < b.len() && b[i] == x;
        let b1 = b.remove(j);
        assert(a1.to_multiset() =~= a.to_multiset().remove(x)) by {
            assert(a1 =~= a.remove(a.len() - 1));
            assert(a.remove(a.len() - 1).to_multiset() =~= a.to_multiset().remove(x));
        };
        assert(b.remove(j).to_multiset() =~= b.to_multiset().remove(x));
        lemma_map_values_multiset(a1, b1, f);
        assert(a.map_values(f) =~= a1.map_values(f).push(f(x)));
        assert(b.map_values(f).remove(j) =~= b1.map_values(f));
        assert(b1.map_values(f).to_multiset() =~= b.map_values(f).to_multiset().remove(f(x))) by {
            assert(b.map_values(f)[j] == f(x));
            assert(b.map_values(f).remove(j).to_multiset() =~= b.map_values(
                f,
            ).to_multiset().remove(f(x)));
        };
        assert(a.map_values(f).to_multiset() =~= a1.map_values(f).to_multiset().insert(f(x))) by {
            assert(a1.map_values(f).push(f(x)).to_multiset() =~= a1.map_values(
                f,
            ).to_multiset().insert(f(x)));
        };
        assert(b.map_values(f).to_multiset().count(f(x)) > 0) by {
            assert(b.map_values(f)[j] == f(x));
            assert(b.map_values(f).contains(f(x)));
        };
        assert(b.map_values(f).to_multiset().remove(f(x)).insert(f(x)) =~= b.map_values(
            f,
        ).to_multiset());
        assert(a.map_values(f).to_multiset() =~= b.map_values(f).to_multiset());
    }
}

/// Sort hashed values ascending.
pub fn sort_values(v: Vec<u64>) -> (r: Vec<u64>)
    ensures
        r@ =~= sort_values_spec(v@),
{
    broadcast use group_to_multiset_ensures;

    let ghost orig = v@;
    let mut rest = v;
    let mut out: Vec<u64> = Vec::new();
    proof {
        assert(out@.to_multiset().add(rest@.to_multiset()) =~= orig.to_multiset());
    }
    while rest.len() > 0
        invariant
            out@.to_multiset().add(rest@.to_multiset()) == orig.to_multiset(),
            sorted_by(out@, value_order()),
            forall|i: int, j: int|
                0 <= i < out@.len() && 0 <= j < rest@.len() ==> out@[i] <= rest@[j],
        decreases rest@.len(),
    {
        let mut mi: usize = 0;
        let mut idx: usize = 1;
        while idx < rest.len()
            invariant
                mi < idx <= rest@.len(),
                rest@.len() > 0,
                forall|k: int| 0 <= k < idx ==> rest@[mi as int] <= rest@[k],
            decreases rest@.len() - idx,
        {
            if rest[idx] < rest[mi] {
                mi = idx;
            }
            idx = idx + 1;
        }
        let ghost before = rest@;
        let ghost outb = out@;
        let x = rest.remove(mi);
        out.push(x);
        proof {
            broadcast use group_to_multiset_ensures;

            assert(rest@ =~= before.remove(mi as int));
            vstd::seq_lib::to_multiset_remove(before, mi as int);
            assert(out@ =~= outb.push(x));
            vstd::seq_lib::to_multiset_build(outb, x);
            assert(before.to_multiset().count(x) > 0) by {
                assert(before.contains(x));
            };
            assert_multisets_equal!(out@.to_multiset().add(rest@.to_multiset()), orig.to_multiset());
            assert(sorted_by(out@, value_order())) by {
                assert(forall|i: int| 0 <= i < outb.len() ==> out@[i] == outb[i]);
                assert(forall|i: int| 0 <= i < outb.len() ==> outb[i] <= x);
            };
            assert forall|i: int, j: int|
                0 <= i < out@.len() && 0 <= j < rest@.len() implies out@[i] <= rest@[j] by {
                assert(rest@[j] == before[if j < mi { j } else { j + 1 }]);
                assert(x <= rest@[j]);
            }
        }
    }
    proof {
        assert(rest@.to_multiset().len() == 0);
        assert(out@.to_multiset() =~= orig.to_multiset()) by {
            assert_multisets_equal!(out@.to_multiset().add(rest@.to_multiset()), out@.to_multiset());
        };
        orig.lemma_sort_by_ensures(value_order());
        lemma_sorted_unique(out@, sort_values_spec(orig));
    }
    out
}

} // verus!

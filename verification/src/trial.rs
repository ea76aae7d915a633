//! Observed trials and their order.
//!
//! A trial pairs a parameter pattern with the objective value observed for
//! it.  The optimizer keeps trials in the order they were told and sorts them
//! by objective value before each split; the sort is the canonical stable
//! insertion sort, so the sorted order is a function of the told sequence
//! alone.
use vstd::prelude::*;
use vstd::seq_lib::group_to_multiset_ensures;
use crate::fbits::{okey, is_nan};

verus! {

/// One observation: a parameter pattern and the objective value it received.
#[derive(Debug, Clone, Copy, PartialEq, Eq, Structural)]
pub struct Trial {
    /// Bit pattern of the parameter value; a NaN pattern marks a trial whose
    /// parameter was not exercised.
    pub param: u64,
    /// Bit pattern of the (never NaN) objective value.
    pub value: u64,
}

/// Sorted ascending by objective value, under the total order that places
/// NaN above every other pattern.
pub open spec fn sorted_by_value(s: Seq<Trial>) -> bool {
    forall|i: int, j: int| 0 <= i <= j < s.len() ==> okey(s[i].value) <= okey(s[j].value)
}

/// Stable insertion of a trial into a sorted sequence: the new trial lands
/// after every trial whose value does not exceed it.
pub open spec fn insert_sorted(s: Seq<Trial>, t: Trial) -> Seq<Trial>
    decreases s.len(),
{
    if s.len() == 0 {
        seq![t]
    } else if okey(s.last().value) <= okey(t.value) {
        s.push(t)
    } else {
        insert_sorted(s.drop_last(), t).push(s.last())
    }
}

/// The canonical stable sort by objective value.
pub open spec fn sort_by_value(s: Seq<Trial>) -> Seq<Trial>
    decreases s.len(),
{
    if s.len() == 0 {
        Seq::empty()
    } else {
        insert_sorted(sort_by_value(s.drop_last()), s.last())
    }
}

/// Insertion keeps the trials (as a multiset), adds one to the length, keeps
/// sortedness, and introduces no trial but the inserted one.
pub proof fn lemma_insert_sorted(s: Seq<Trial>, t: Trial)
    ensures
        insert_sorted(s, t).len() == s.len() + 1,
        insert_sorted(s, t).to_multiset() == s.to_multiset().insert(t),
        sorted_by_value(s) ==> sorted_by_value(insert_sorted(s, t)),
        forall|i: int|
            0 <= i < insert_sorted(s, t).len() ==> (insert_sorted(s, t)[i] == t || s.contains(
                insert_sorted(s, t)[i],
            )),
    decreases s.len(),
{
    broadcast use group_to_multiset_ensures;

    let r = insert_sorted(s, t);
    if s.len() == 0 {
        assert(seq![t] =~= Seq::empty().push(t));
        assert(r.to_multiset() =~= s.to_multiset().insert(t));
    } else if okey(s.last().value) <= okey(t.value) {
        assert(r == s.push(t));
        assert(r.to_multiset() =~= s.to_multiset().insert(t));
        if sorted_by_value(s) {
            assert forall|i: int, j: int| 0 <= i <= j < r.len() implies okey(r[i].value) <= okey(
                r[j].value,
            ) by {
                if j < s.len() {
                } else {
                    assert(r[j] == t);
                    if i < s.len() {
                        assert(okey(s[i].value) <= okey(s.last().value));
                    }
                }
            }
        }
        assert forall|i: int| 0 <= i < r.len() implies (r[i] == t || s.contains(r[i])) by {
            if i < s.len() {
                assert(s[i] == r[i]);
            }
        }
    } else {
        let inner = insert_sorted(s.drop_last(), t);
        lemma_insert_sorted(s.drop_last(), t);
        assert(r == inner.push(s.last()));
        // the multiset recombines: dropping the last and reinserting it
        assert(s.drop_last().push(s.last()) =~= s);
        assert(s.drop_last().to_multiset().insert(s.last()) =~= s.to_multiset());
        assert(r.to_multiset() =~= inner.to_multiset().insert(s.last()));
        assert(inner.to_multiset().insert(s.last()) =~= s.drop_last().to_multiset().insert(
            t,
        ).insert(s.last()));
        assert(s.drop_last().to_multiset().insert(t).insert(s.last())
            =~= s.drop_last().to_multiset().insert(s.last()).insert(t));
        if sorted_by_value(s) {
            assert(sorted_by_value(s.drop_last())) by {
                assert forall|i: int, j: int|
                    0 <= i <= j < s.drop_last().len() implies okey(s.drop_last()[i].value) <= okey(
                    s.drop_last()[j].value,
                ) by {
                    assert(s.drop_last()[i] == s[i] && s.drop_last()[j] == s[j]);
                }
            }
            // every trial of the inner insertion stays at or below the last
            assert forall|i: int, j: int| 0 <= i <= j < r.len() implies okey(r[i].value) <= okey(
                r[j].value,
            ) by {
                if j < inner.len() {
                } else {
                    assert(r[j] == s.last());
                    if i < inner.len() {
                        assert(r[i] == inner[i]);
                        assert(inner[i] == t || s.drop_last().contains(inner[i]));
                        if inner[i] == t {
                        } else {
                            let k = choose|k: int|
                                0 <= k < s.drop_last().len() && s.drop_last()[k] == inner[i];
                            assert(s[k] == inner[i]);
                            assert(okey(s[k].value) <= okey(s.last().value));
                        }
                    }
                }
            }
        }
        assert forall|i: int| 0 <= i < r.len() implies (r[i] == t || s.contains(r[i])) by {
            if i < inner.len() {
                assert(r[i] == inner[i]);
                if inner[i] != t {
                    let k = choose|k: int|
                        0 <= k < s.drop_last().len() && s.drop_last()[k] == inner[i];
                    assert(s[k] == inner[i]);
                }
            } else {
                assert(r[i] == s.last());
                assert(s[s.len() - 1] == s.last());
            }
        }
    }
}

/// The canonical sort keeps the trials and their number, and sorts them.
pub proof fn lemma_sort_by_value(s: Seq<Trial>)
    ensures
        sort_by_value(s).len() == s.len(),
        sort_by_value(s).to_multiset() == s.to_multiset(),
        sorted_by_value(sort_by_value(s)),
    decreases s.len(),
{
    broadcast use group_to_multiset_ensures;

    if s.len() == 0 {
    } else {
        lemma_sort_by_value(s.drop_last());
        lemma_insert_sorted(sort_by_value(s.drop_last()), s.last());
        assert(s.drop_last().push(s.last()) =~= s);
        assert(sort_by_value(s).to_multiset() =~= s.to_multiset());
    }
}

/// Sorting an already sorted sequence leaves it unchanged.
pub proof fn lemma_sort_of_sorted(s: Seq<Trial>)
    requires
        sorted_by_value(s),
    ensures
        sort_by_value(s) == s,
    decreases s.len(),
{
    if s.len() == 0 {
        assert(sort_by_value(s) =~= s);
    } else {
        assert(sorted_by_value(s.drop_last())) by {
            assert forall|i: int, j: int|
                0 <= i <= j < s.drop_last().len() implies okey(s.drop_last()[i].value) <= okey(
                s.drop_last()[j].value,
            ) by {
                assert(s.drop_last()[i] == s[i] && s.drop_last()[j] == s[j]);
            }
        }
        lemma_sort_of_sorted(s.drop_last());
        if s.len() == 1 {
            assert(sort_by_value(s) == insert_sorted(Seq::empty(), s.last()));
            assert(sort_by_value(s) =~= s);
        } else {
            assert(okey(s.drop_last().last().value) <= okey(s.last().value)) by {
                assert(s.drop_last().last() == s[s.len() - 2]);
            }
            assert(sort_by_value(s) == s.drop_last().push(s.last()));
            assert(sort_by_value(s) =~= s);
        }
    }
}

/// The parameter patterns of the trials whose parameter is present (not the
/// NaN "absent" sentinel), in order.  A present parameter of a recorded
/// trial always lies in the optimizer's range and is therefore finite, so
/// these are exactly the finite parameters.
pub open spec fn present_params(s: Seq<Trial>) -> Seq<u64>
    decreases s.len(),
{
    if s.len() == 0 {
        Seq::empty()
    } else {
        let rest = present_params(s.drop_last());
        if is_nan(s.last().param) {
            rest
        } else {
            rest.push(s.last().param)
        }
    }
}

/// Stable insertion, executable: peel trials above the new one off the end,
/// push the new one, put the peeled trials back.
pub fn insert_trial(v: &mut Vec<Trial>, t: Trial)
    ensures
        final(v)@ == insert_sorted(old(v)@, t),
{
    let ghost goal = insert_sorted(old(v)@, t);
    let mut tail: Vec<Trial> = Vec::new();
    while v.len() > 0 && !crate::fbits::bits_okey_le(v[v.len() - 1].value, t.value)
        invariant
            insert_sorted(v@, t).add(tail@.reverse()) == goal,
        decreases v@.len(),
    {
        proof {
            let prev = v@;
            let ts = tail@;
            assert(prev.last() == prev[prev.len() - 1]);
            assert(insert_sorted(prev, t) == insert_sorted(prev.drop_last(), t).push(prev.last()));
            assert(ts.push(prev.last()).reverse() =~= seq![prev.last()].add(ts.reverse()));
            assert(insert_sorted(prev.drop_last(), t).add(ts.push(prev.last()).reverse())
                =~= insert_sorted(prev, t).add(ts.reverse()));
        }
        let x = v.pop().unwrap();
        tail.push(x);
    }
    proof {
        let prev = v@;
        if prev.len() > 0 {
            assert(prev.last() == prev[prev.len() - 1]);
        }
        assert(insert_sorted(prev, t) == prev.push(t));
    }
    v.push(t);
    while tail.len() > 0
        invariant
            v@.add(tail@.reverse()) == goal,
        decreases tail@.len(),
    {
        proof {
            let ts = tail@;
            assert(v@.push(ts.last()).add(ts.drop_last().reverse()) =~= v@.add(ts.reverse()));
        }
        let x = tail.pop().unwrap();
        v.push(x);
    }
    proof {
        assert(v@.add(tail@.reverse()) =~= v@);
    }
}

/// The canonical stable sort by objective value, executable.
pub fn sort_trials(v: &Vec<Trial>) -> (r: Vec<Trial>)
    ensures
        r@ == sort_by_value(v@),
{
    let mut r: Vec<Trial> = Vec::new();
    let mut i: usize = 0;
    proof {
        assert(v@.take(0) =~= Seq::empty());
    }
    while i < v.len()
        invariant
            i <= v.len(),
            r@ == sort_by_value(v@.take(i as int)),
        decreases v.len() - i,
    {
        proof {
            let pre = v@.take(i as int + 1);
            assert(pre.drop_last() =~= v@.take(i as int));
            assert(pre.last() == v@[i as int]);
        }
        insert_trial(&mut r, v[i]);
        i = i + 1;
    }
    proof {
        assert(v@.take(v@.len() as int) =~= v@);
    }
    r
}


/// At most one parameter comes out per trial, each the parameter of some
/// trial whose parameter is not NaN.
pub proof fn lemma_present_params(s: Seq<Trial>)
    ensures
        present_params(s).len() <= s.len(),
        forall|i: int|
            0 <= i < present_params(s).len() ==> exists|k: int|
                0 <= k < s.len() && #[trigger] present_params(s)[i] == s[k].param && !is_nan(
                    s[k].param,
                ),
    decreases s.len(),
{
    if s.len() > 0 {
        lemma_present_params(s.drop_last());
        let fp = present_params(s);
        let rest = present_params(s.drop_last());
        assert forall|i: int|
            0 <= i < fp.len() implies exists|k: int|
            0 <= k < s.len() && #[trigger] fp[i] == s[k].param && !is_nan(s[k].param) by {
            if i < rest.len() {
                assert(fp[i] == rest[i]);
                let k = choose|k: int|
                    0 <= k < s.drop_last().len() && rest[i] == s.drop_last()[k].param && !is_nan(
                        s.drop_last()[k].param,
                    );
                assert(s[k] == s.drop_last()[k]);
                assert(0 <= k < s.len() && fp[i] == s[k].param && !is_nan(s[k].param));
            } else {
                assert(!is_nan(s.last().param) && fp[i] == s.last().param);
                assert(s[s.len() - 1] == s.last());
                assert(0 <= s.len() - 1 < s.len() && fp[i] == s[s.len() - 1].param && !is_nan(
                    s[s.len() - 1].param,
                ));
            }
        }
    }
}

/// The finite parameters of a concatenation are the concatenation of the
/// finite parameters.
pub proof fn lemma_present_params_concat(a: Seq<Trial>, b: Seq<Trial>)
    ensures
        present_params(a + b) == present_params(a) + present_params(b),
    decreases b.len(),
{
    if b.len() == 0 {
        assert(a + b =~= a);
        assert(present_params(a) + present_params(b) =~= present_params(a));
    } else {
        lemma_present_params_concat(a, b.drop_last());
        assert((a + b).drop_last() =~= a + b.drop_last());
        assert((a + b).last() == b.last());
        if is_nan(b.last().param) {
            assert(present_params(a) + present_params(b) =~= present_params(a) + present_params(
                b.drop_last(),
            ));
        } else {
            assert(present_params(a) + present_params(b) =~= (present_params(a) + present_params(
                b.drop_last(),
            )).push(b.last().param));
        }
    }
}

/// Stable insertion does not change how many parameters are finite.
proof fn lemma_present_params_insert(s: Seq<Trial>, t: Trial)
    ensures
        present_params(insert_sorted(s, t)).len() == present_params(s).len() + if is_nan(t.param) {
            0int
        } else {
            1int
        },
    decreases s.len(),
{
    let ind_t: int = if is_nan(t.param) {
        0int
    } else {
        1int
    };
    if s.len() == 0 {
        assert(seq![t].drop_last() =~= Seq::<Trial>::empty());
        assert(seq![t].last() == t);
        assert(present_params(Seq::<Trial>::empty()).len() == 0);
        assert(present_params(seq![t]).len() == ind_t);
    } else if okey(s.last().value) <= okey(t.value) {
        assert(s.push(t).drop_last() =~= s);
        assert(s.push(t).last() == t);
        assert(present_params(s.push(t)).len() == present_params(s).len() + ind_t);
    } else {
        lemma_present_params_insert(s.drop_last(), t);
        let inner = insert_sorted(s.drop_last(), t);
        let x = s.last();
        let ind_x: int = if is_nan(x.param) {
            0int
        } else {
            1int
        };
        assert(inner.push(x).drop_last() =~= inner);
        assert(inner.push(x).last() == x);
        assert(present_params(inner.push(x)).len() == present_params(inner).len() + ind_x);
        assert(present_params(inner).len() == present_params(s.drop_last()).len() + ind_t);
        assert(present_params(s).len() == present_params(s.drop_last()).len() + ind_x);
    }
}

/// Sorting does not change how many parameters are finite.
pub proof fn lemma_present_params_sort(s: Seq<Trial>)
    ensures
        present_params(sort_by_value(s)).len() == present_params(s).len(),
    decreases s.len(),
{
    if s.len() > 0 {
        lemma_present_params_sort(s.drop_last());
        lemma_present_params_insert(sort_by_value(s.drop_last()), s.last());
    }
}

} // verus!

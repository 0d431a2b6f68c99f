//! The identity of a cycle: the packages on it, whatever their order.

use vstd::prelude::*;
use vstd::multiset::Multiset;
use crate::model::{Cycle, NodeView};

verus! {

/// The names of the nodes of a cycle, in order.
pub open spec fn names_of(cycle: Seq<NodeView>) -> Seq<Seq<char>> {
    cycle.map_values(|node: NodeView| node.name)
}

/// The members of a cycle: the names of its nodes, each as often as it
/// occurs, in no order.
pub open spec fn members(cycle: Seq<NodeView>) -> Multiset<Seq<char>> {
    names_of(cycle).to_multiset()
}

/// Whether two cycles are the same cycle: they have the same members.
pub open spec fn same_members(a: Seq<NodeView>, b: Seq<NodeView>) -> bool {
    members(a) =~= members(b)
}

impl Cycle {
    /// How often a package of the given name occurs on the cycle.
    pub fn count(&self, name: &String) -> (times: usize)
        ensures
            times == members(self@).count(name@),
    {
        let ghost names = names_of(self@);
        let mut times: usize = 0;
        let mut k: usize = 0;
        assert(names.take(0).to_multiset().count(name@) == 0) by {
            vstd::seq_lib::to_multiset_contains(names.take(0), name@);
        }
        while k < self.0.len()
            invariant
                k <= self.0.len(),
                names == names_of(self@),
                times <= k,
                times == names.take(k as int).to_multiset().count(name@),
            decreases self.0.len() - k,
        {
            proof {
                broadcast use vstd::seq_lib::group_to_multiset_ensures;

                assert(names.take(k + 1) =~= names.take(k as int).push(names[k as int]));
                assert(names[k as int] == self.0[k as int].name@);
            }
            if self.0[k].name == *name {
                times += 1;
            }
            k += 1;
        }
        assert(names.take(k as int) =~= names);
        times
    }

    /// Whether each package of this cycle occurs on it as often as it
    /// occurs on `other`.
    fn occurs_as_in(&self, other: &Cycle) -> (agree: bool)
        ensures
            agree == forall|k: int|
                0 <= k < self@.len() ==> members(self@).count(#[trigger] self@[k].name) == members(
                    other@,
                ).count(self@[k].name),
    {
        let mut k: usize = 0;
        while k < self.0.len()
            invariant
                k <= self.0.len(),
                forall|j: int|
                    0 <= j < k ==> members(self@).count(#[trigger] self@[j].name) == members(
                        other@,
                    ).count(self@[j].name),
            decreases self.0.len() - k,
        {
            assert(self@[k as int].name == self.0[k as int].name@);
            if self.count(&self.0[k].name) != other.count(&self.0[k].name) {
                return false;
            }
            k += 1;
        }
        true
    }
}

/// Two cycles have the same members exactly if each package of either
/// occurs as often on the one as on the other.
pub proof fn lemma_same_members(a: Seq<NodeView>, b: Seq<NodeView>)
    ensures
        same_members(a, b) <==> {
            &&& forall|k: int|
                0 <= k < a.len() ==> members(a).count(#[trigger] a[k].name) == members(b).count(
                    a[k].name,
                )
            &&& forall|k: int|
                0 <= k < b.len() ==> members(a).count(#[trigger] b[k].name) == members(b).count(
                    b[k].name,
                )
        },
{
    broadcast use vstd::seq_lib::group_to_multiset_ensures;

    if (forall|k: int|
        0 <= k < a.len() ==> members(a).count(#[trigger] a[k].name) == members(b).count(a[k].name))
        && (forall|k: int|
        0 <= k < b.len() ==> members(a).count(#[trigger] b[k].name) == members(b).count(
            b[k].name,
        )) {
        assert forall|name: Seq<char>| members(a).count(name) == members(b).count(name) by {
            if names_of(a).contains(name) {
                let k = choose|k: int| 0 <= k < names_of(a).len() && names_of(a)[k] == name;
                assert(a[k].name == name);
            } else if names_of(b).contains(name) {
                let k = choose|k: int| 0 <= k < names_of(b).len() && names_of(b)[k] == name;
                assert(b[k].name == name);
            }
        }
    }
}

/// Two cycles are equal when they have the same members.
impl PartialEq for Cycle {
    fn eq(&self, other: &Self) -> (equal: bool) {
        proof {
            lemma_same_members(self@, other@);
        }
        self.occurs_as_in(other) && other.occurs_as_in(self)
    }
}

impl vstd::std_specs::cmp::PartialEqSpecImpl for Cycle {
    open spec fn obeys_eq_spec() -> bool {
        true
    }

    open spec fn eq_spec(&self, other: &Self) -> bool {
        same_members(self@, other@)
    }
}

/// Whether `cycles` holds a cycle with the members of `cycle`.
pub open spec fn reported(cycles: Seq<Seq<NodeView>>, cycle: Seq<NodeView>) -> bool {
    exists|k: int| 0 <= k < cycles.len() && same_members(#[trigger] cycles[k], cycle)
}

/// The distinct cycles of a list: in order, each cycle that has the members
/// of none before it.
pub open spec fn distinct(cycles: Seq<Seq<NodeView>>) -> Seq<Seq<NodeView>>
    decreases cycles.len(),
{
    if cycles.len() == 0 {
        Seq::empty()
    } else {
        let earlier = distinct(cycles.drop_last());
        if reported(earlier, cycles.last()) {
            earlier
        } else {
            earlier.push(cycles.last())
        }
    }
}

/// Whether `cycles` holds a cycle with the members of `cycle`.
pub fn is_reported(cycles: &Vec<Cycle>, cycle: &Cycle) -> (found: bool)
    ensures
        found == reported(cycles.deep_view(), cycle@),
{
    let mut k: usize = 0;
    while k < cycles.len()
        invariant
            k <= cycles.len(),
            forall|j: int| 0 <= j < k ==> !same_members(#[trigger] cycles.deep_view()[j], cycle@),
        decreases cycles.len() - k,
    {
        assert(cycles.deep_view()[k as int] == cycles[k as int]@);
        if cycles[k] == *cycle {
            return true;
        }
        k += 1;
    }
    false
}

/// Collapses the cycles that were found more than once: of the cycles with
/// the same members only the first is kept.
pub fn distinct_cycles(cycles: Vec<Cycle>) -> (kept: Vec<Cycle>)
    ensures
        kept.deep_view() == distinct(cycles.deep_view()),
        forall|i: int, j: int|
            0 <= i < j < kept.len() ==> !same_members(
                #[trigger] kept.deep_view()[i],
                #[trigger] kept.deep_view()[j],
            ),
        forall|i: int|
            0 <= i < cycles.len() ==> reported(kept.deep_view(), #[trigger] cycles.deep_view()[i]),
{
    let ghost all = cycles.deep_view();
    proof {
        lemma_distinct_differ(all);
        lemma_distinct_covers(all);
    }
    let mut kept: Vec<Cycle> = Vec::new();
    assert(all.take(0) =~= Seq::empty());
    for cycle in iter: cycles
        invariant
            all == iter.seq().map_values(|c: Cycle| c@),
            kept.deep_view() == distinct(all.take(iter.index() as int)),
    {
        proof {
            let upto = iter.index() as int;
            assert(all.take(upto + 1).drop_last() =~= all.take(upto));
            assert(all.take(upto + 1).last() == cycle@);
        }
        if !is_reported(&kept, &cycle) {
            let ghost before = kept.deep_view();
            kept.push(cycle);
            assert(kept.deep_view() =~= before.push(cycle@));
        }
    }
    assert(all.take(all.len() as int) =~= all);
    kept
}

/// A cycle has the same members wherever it is entered: the cycle that
/// starts `by` nodes later and comes round to the same nodes is the same
/// cycle.
pub proof fn lemma_rotation_same_members(cycle: Seq<NodeView>, by: int)
    requires
        0 <= by <= cycle.len(),
    ensures
        same_members(cycle, cycle.skip(by) + cycle.take(by)),
{
    let names = names_of(cycle);
    assert(names =~= names.take(by) + names.skip(by));
    assert(names_of(cycle.skip(by) + cycle.take(by)) =~= names.skip(by) + names.take(by));
    vstd::seq_lib::lemma_multiset_commutative(names.take(by), names.skip(by));
    vstd::seq_lib::lemma_multiset_commutative(names.skip(by), names.take(by));
}

/// A cycle has the same members in whichever direction it is walked.
pub proof fn lemma_reverse_same_members(cycle: Seq<NodeView>)
    ensures
        same_members(cycle, cycle.reverse()),
{
    assert(names_of(cycle.reverse()) =~= names_of(cycle).reverse());
    names_of(cycle).lemma_reverse_to_multiset();
}

/// Every distinct cycle is a cycle of the list.
pub proof fn lemma_distinct_kept(cycles: Seq<Seq<NodeView>>)
    ensures
        forall|k: int|
            0 <= k < distinct(cycles).len() ==> cycles.contains(#[trigger] distinct(cycles)[k]),
    decreases cycles.len(),
{
    if cycles.len() > 0 {
        let shorter = cycles.drop_last();
        lemma_distinct_kept(shorter);
        assert forall|k: int| 0 <= k < distinct(cycles).len() implies cycles.contains(
            #[trigger] distinct(cycles)[k],
        ) by {
            if k < distinct(shorter).len() {
                let found = distinct(shorter)[k];
                assert(shorter.contains(found));
                let i = choose|i: int| 0 <= i < shorter.len() && shorter[i] == found;
                assert(cycles[i] == found);
            } else {
                assert(distinct(cycles)[k] == cycles[cycles.len() - 1]);
            }
        }
    }
}

/// No two of the distinct cycles have the same members.
pub proof fn lemma_distinct_differ(cycles: Seq<Seq<NodeView>>)
    ensures
        forall|i: int, j: int|
            0 <= i < j < distinct(cycles).len() ==> !same_members(
                #[trigger] distinct(cycles)[i],
                #[trigger] distinct(cycles)[j],
            ),
    decreases cycles.len(),
{
    if cycles.len() > 0 {
        let earlier = distinct(cycles.drop_last());
        let kept = distinct(cycles);
        lemma_distinct_differ(cycles.drop_last());
        assert forall|i: int, j: int| 0 <= i < j < kept.len() implies !same_members(
            #[trigger] kept[i],
            #[trigger] kept[j],
        ) by {
            if j < earlier.len() {
                assert(!same_members(earlier[i], earlier[j]));
            } else {
                assert(!reported(earlier, cycles.last()));
                assert(kept[j] == cycles.last());
                assert(kept[i] == earlier[i]);
            }
        }
    }
}

/// The members of every cycle of the list are the members of one of the
/// distinct cycles.
pub proof fn lemma_distinct_covers(cycles: Seq<Seq<NodeView>>)
    ensures
        forall|i: int| 0 <= i < cycles.len() ==> reported(distinct(cycles), #[trigger] cycles[i]),
    decreases cycles.len(),
{
    if cycles.len() > 0 {
        let shorter = cycles.drop_last();
        let earlier = distinct(shorter);
        let kept = distinct(cycles);
        lemma_distinct_covers(shorter);
        assert forall|i: int| 0 <= i < cycles.len() implies reported(
            kept,
            #[trigger] cycles[i],
        ) by {
            if i < shorter.len() {
                assert(reported(earlier, shorter[i]));
                let k = choose|k: int|
                    0 <= k < earlier.len() && same_members(#[trigger] earlier[k], shorter[i]);
                assert(same_members(kept[k], cycles[i]));
            } else if reported(earlier, cycles.last()) {
            } else {
                assert(same_members(kept[kept.len() - 1], cycles[i]));
            }
        }
    }
}

/// Cycles that were found more than once collapse to one: where the list
/// holds cycles with the members of `cycle`, however many and from whichever
/// node each was entered, exactly one of the distinct cycles has them.
pub proof fn lemma_reported_once(cycles: Seq<Seq<NodeView>>, cycle: Seq<NodeView>)
    requires
        reported(cycles, cycle),
    ensures
        exists|k: int|
            {
                &&& 0 <= k < distinct(cycles).len()
                &&& same_members(#[trigger] distinct(cycles)[k], cycle)
                &&& forall|j: int|
                    0 <= j < distinct(cycles).len() && j != k ==> !same_members(
                        #[trigger] distinct(cycles)[j],
                        cycle,
                    )
            },
{
    let kept = distinct(cycles);
    lemma_distinct_covers(cycles);
    lemma_distinct_differ(cycles);
    let i = choose|i: int| 0 <= i < cycles.len() && same_members(#[trigger] cycles[i], cycle);
    assert(reported(kept, cycles[i]));
    let k = choose|k: int| 0 <= k < kept.len() && same_members(#[trigger] kept[k], cycles[i]);
    assert(same_members(kept[k], cycle));
    assert forall|j: int| 0 <= j < kept.len() && j != k implies !same_members(
        #[trigger] kept[j],
        cycle,
    ) by {
        if same_members(kept[j], cycle) {
            assert(same_members(kept[j], kept[k]));
            if j < k {
                assert(!same_members(kept[j], kept[k]));
            } else {
                assert(!same_members(kept[k], kept[j]));
            }
        }
    }
}

} // verus!

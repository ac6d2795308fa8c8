//! The investments in the loans: what they add up to, and how a new one is
//! recorded.

use vstd::prelude::*;
use crate::address::Address;
use crate::loan::Investment;

verus! {

/// What an investment adds to the total of loan `loan_id`.
pub open spec fn weight_of(investment: Investment, loan_id: u128) -> int {
    if investment.loan_id == loan_id {
        investment.amount as int
    } else {
        0
    }
}

/// The sum of all investments in loan `loan_id`.
pub open spec fn invested_in(investments: Seq<Investment>, loan_id: u128) -> int
    decreases investments.len(),
{
    if investments.len() == 0 {
        0
    } else {
        invested_in(investments.drop_last(), loan_id) + weight_of(investments.last(), loan_id)
    }
}

/// What `investor` has put into loan `loan_id`; zero if nothing.
pub open spec fn contribution_in(
    investments: Seq<Investment>,
    loan_id: u128,
    investor: Address,
) -> int
    decreases investments.len(),
{
    if investments.len() == 0 {
        0
    } else {
        contribution_in(investments.drop_last(), loan_id, investor) + (if investments.last().investor
            == investor {
            weight_of(investments.last(), loan_id)
        } else {
            0
        })
    }
}

/// The investors of loan `loan_id`, in the order in which they first
/// invested.
pub open spec fn investors_in(investments: Seq<Investment>, loan_id: u128) -> Seq<Address>
    decreases investments.len(),
{
    if investments.len() == 0 {
        Seq::empty()
    } else if investments.last().loan_id == loan_id {
        investors_in(investments.drop_last(), loan_id).push(investments.last().investor)
    } else {
        investors_in(investments.drop_last(), loan_id)
    }
}

/// Every investment is positive, and no investor has two entries for one
/// loan.
pub open spec fn investments_wf(investments: Seq<Investment>) -> bool {
    &&& forall|i: int| 0 <= i < investments.len() ==> (#[trigger] investments[i]).amount > 0
    &&& forall|i: int, j: int|
        0 <= i < j < investments.len() ==> !((#[trigger] investments[i]).loan_id == (
        #[trigger] investments[j]).loan_id && investments[i].investor == investments[j].investor)
}

/// Whether the entry is what `investor` put into loan `loan_id`.
pub open spec fn is_stake(investment: Investment, loan_id: u128, investor: Address) -> bool {
    investment.loan_id == loan_id && investment.investor == investor
}

/// Whether `investor` has an entry for loan `loan_id`.
pub open spec fn has_stake(investments: Seq<Investment>, loan_id: u128, investor: Address) -> bool {
    exists|i: int| 0 <= i < investments.len() && is_stake(#[trigger] investments[i], loan_id, investor)
}

/// Where the entry of `investor` for loan `loan_id` stands.
pub open spec fn stake_index(investments: Seq<Investment>, loan_id: u128, investor: Address) -> int {
    choose|i: int| 0 <= i < investments.len() && is_stake(#[trigger] investments[i], loan_id, investor)
}

/// The investments after `investor` put `amount` more into loan
/// `loan_id`: the existing entry grows, or a new one is added at the end.
pub open spec fn recorded(
    investments: Seq<Investment>,
    loan_id: u128,
    investor: Address,
    amount: i128,
) -> Seq<Investment> {
    if has_stake(investments, loan_id, investor) {
        let at = stake_index(investments, loan_id, investor);
        investments.update(
            at,
            Investment { loan_id, investor, amount: (investments[at].amount + amount) as i128 },
        )
    } else {
        investments.push(Investment { loan_id, investor, amount })
    }
}

/// An entry added at the end raises the total of its loan by its amount.
pub proof fn lemma_invested_pushed(investments: Seq<Investment>, added: Investment, loan_id: u128)
    ensures
        invested_in(investments.push(added), loan_id) == invested_in(investments, loan_id)
            + weight_of(added, loan_id),
{
    assert(investments.push(added).drop_last() =~= investments);
}

/// Replacing an entry changes the totals by the difference of the two.
pub proof fn lemma_invested_updated(
    investments: Seq<Investment>,
    at: int,
    entry: Investment,
    loan_id: u128,
)
    requires
        0 <= at < investments.len(),
    ensures
        invested_in(investments.update(at, entry), loan_id) == invested_in(investments, loan_id)
            - weight_of(investments[at], loan_id) + weight_of(entry, loan_id),
    decreases investments.len(),
{
    let after = investments.update(at, entry);
    if at == investments.len() - 1 {
        assert(after.drop_last() =~= investments.drop_last());
    } else {
        lemma_invested_updated(investments.drop_last(), at, entry, loan_id);
        assert(after.drop_last() =~= investments.drop_last().update(at, entry));
    }
}

/// With positive investments, the total of a loan over the first entries
/// does not exceed its total over all.
pub proof fn lemma_invested_prefix(investments: Seq<Investment>, count: int, loan_id: u128)
    requires
        0 <= count <= investments.len(),
        forall|i: int| 0 <= i < investments.len() ==> (#[trigger] investments[i]).amount > 0,
    ensures
        0 <= invested_in(investments.take(count), loan_id) <= invested_in(investments, loan_id),
    decreases investments.len(),
{
    if investments.len() == 0 {
        assert(investments.take(count) =~= investments);
    } else if count == investments.len() {
        assert(investments.take(count) =~= investments);
        lemma_invested_prefix(investments.drop_last(), count - 1, loan_id);
        assert(investments.drop_last().take(count - 1) =~= investments.take(count - 1));
    } else {
        lemma_invested_prefix(investments.drop_last(), count, loan_id);
        assert(investments.drop_last().take(count) =~= investments.take(count));
    }
}

/// With positive investments, no entry exceeds the total of its loan.
pub proof fn lemma_entry_within_total(investments: Seq<Investment>, at: int)
    requires
        0 <= at < investments.len(),
        forall|i: int| 0 <= i < investments.len() ==> (#[trigger] investments[i]).amount > 0,
    ensures
        investments[at].amount <= invested_in(investments, investments[at].loan_id),
{
    let loan_id = investments[at].loan_id;
    lemma_invested_prefix(investments, at + 1, loan_id);
    lemma_invested_prefix(investments, at, loan_id);
    assert(investments.take(at + 1).drop_last() =~= investments.take(at));
    assert(investments.take(at + 1).last() == investments[at]);
    assert forall|i: int| 0 <= i < investments.take(at).len() implies (
    #[trigger] investments.take(at)[i]).amount > 0 by {
        assert(investments.take(at)[i] == investments[i]);
    }
    lemma_invested_prefix(investments.take(at), at, loan_id);
}

/// An investor without an entry has contributed nothing.
pub proof fn lemma_contribution_none(investments: Seq<Investment>, loan_id: u128, investor: Address)
    requires
        !has_stake(investments, loan_id, investor),
    ensures
        contribution_in(investments, loan_id, investor) == 0,
    decreases investments.len(),
{
    if investments.len() > 0 {
        let front = investments.drop_last();
        assert forall|i: int| 0 <= i < front.len() implies !is_stake(
            #[trigger] front[i],
            loan_id,
            investor,
        ) by {
            assert(front[i] == investments[i]);
            assert(!is_stake(investments[i], loan_id, investor));
        }
        lemma_contribution_none(front, loan_id, investor);
        assert(!is_stake(investments[investments.len() - 1], loan_id, investor));
    }
}

/// The contribution of an investor to a loan is the amount of its entry.
pub proof fn lemma_contribution_at(
    investments: Seq<Investment>,
    at: int,
    loan_id: u128,
    investor: Address,
)
    requires
        investments_wf(investments),
        0 <= at < investments.len(),
        is_stake(investments[at], loan_id, investor),
    ensures
        contribution_in(investments, loan_id, investor) == investments[at].amount,
        has_stake(investments, loan_id, investor),
        stake_index(investments, loan_id, investor) == at,
    decreases investments.len(),
{
    let front = investments.drop_last();
    let end = investments.len() - 1;
    let chosen = stake_index(investments, loan_id, investor);
    assert(is_stake(investments[chosen], loan_id, investor));
    if chosen < at {
        assert(!(investments[chosen].loan_id == investments[at].loan_id
            && investments[chosen].investor == investments[at].investor));
    }
    if at < chosen {
        assert(!(investments[at].loan_id == investments[chosen].loan_id
            && investments[at].investor == investments[chosen].investor));
    }
    if at == end {
        assert forall|i: int| 0 <= i < front.len() implies !is_stake(
            #[trigger] front[i],
            loan_id,
            investor,
        ) by {
            assert(front[i] == investments[i]);
            assert(!(investments[i].loan_id == investments[end].loan_id
                && investments[i].investor == investments[end].investor));
        }
        lemma_contribution_none(front, loan_id, investor);
    } else {
        assert(investments_wf(front)) by {
            assert forall|i: int| 0 <= i < front.len() implies (#[trigger] front[i]).amount
                > 0 by {
                assert(front[i] == investments[i]);
            }
            assert forall|i: int, j: int| 0 <= i < j < front.len() implies !((
            #[trigger] front[i]).loan_id == (#[trigger] front[j]).loan_id && front[i].investor
                == front[j].investor) by {
                assert(front[i] == investments[i]);
                assert(front[j] == investments[j]);
            }
        }
        assert(front[at] == investments[at]);
        lemma_contribution_at(front, at, loan_id, investor);
        assert(!(investments[at].loan_id == investments[end].loan_id && investments[at].investor
            == investments[end].investor));
    }
}

/// Replacing an entry by one of the same loan and investor changes that
/// investor's contribution by the difference of the two.
pub proof fn lemma_contribution_updated(
    investments: Seq<Investment>,
    at: int,
    entry: Investment,
    loan_id: u128,
    investor: Address,
)
    requires
        0 <= at < investments.len(),
        entry.loan_id == investments[at].loan_id,
        entry.investor == investments[at].investor,
    ensures
        contribution_in(investments.update(at, entry), loan_id, investor) == contribution_in(
            investments,
            loan_id,
            investor,
        ) + (if is_stake(entry, loan_id, investor) {
            entry.amount - investments[at].amount
        } else {
            0
        }),
    decreases investments.len(),
{
    let after = investments.update(at, entry);
    if at == investments.len() - 1 {
        assert(after.drop_last() =~= investments.drop_last());
    } else {
        lemma_contribution_updated(investments.drop_last(), at, entry, loan_id, investor);
        assert(after.drop_last() =~= investments.drop_last().update(at, entry));
    }
}

/// Recording an investment keeps the investments well formed, raises the
/// total of that loan and the contribution of that investor by the amount,
/// and leaves every other total alone.
pub proof fn lemma_recorded(
    investments: Seq<Investment>,
    loan_id: u128,
    investor: Address,
    amount: i128,
)
    requires
        investments_wf(investments),
        amount > 0,
        invested_in(investments, loan_id) + amount <= i128::MAX,
    ensures
        investments_wf(recorded(investments, loan_id, investor, amount)),
        forall|other: u128|
            #[trigger] invested_in(recorded(investments, loan_id, investor, amount), other)
                == invested_in(investments, other) + (if other == loan_id {
                amount as int
            } else {
                0
            }),
        contribution_in(recorded(investments, loan_id, investor, amount), loan_id, investor)
            == contribution_in(investments, loan_id, investor) + amount,
{
    let after = recorded(investments, loan_id, investor, amount);
    if has_stake(investments, loan_id, investor) {
        let at = stake_index(investments, loan_id, investor);
        lemma_entry_within_total(investments, at);
        let entry = Investment {
            loan_id,
            investor,
            amount: (investments[at].amount + amount) as i128,
        };
        assert forall|other: u128|
            #[trigger] invested_in(after, other) == invested_in(investments, other) + (if other
                == loan_id {
                amount as int
            } else {
                0
            }) by {
            lemma_invested_updated(investments, at, entry, other);
        }
        lemma_contribution_updated(investments, at, entry, loan_id, investor);
        assert forall|i: int, j: int| 0 <= i < j < after.len() implies !((
        #[trigger] after[i]).loan_id == (#[trigger] after[j]).loan_id && after[i].investor
            == after[j].investor) by {
            assert(after[i].loan_id == investments[i].loan_id);
            assert(after[i].investor == investments[i].investor);
            assert(after[j].loan_id == investments[j].loan_id);
            assert(after[j].investor == investments[j].investor);
        }
    } else {
        let entry = Investment { loan_id, investor, amount };
        assert forall|other: u128|
            #[trigger] invested_in(after, other) == invested_in(investments, other) + (if other
                == loan_id {
                amount as int
            } else {
                0
            }) by {
            lemma_invested_pushed(investments, entry, other);
        }
        assert(after.drop_last() =~= investments);
        assert forall|i: int, j: int| 0 <= i < j < after.len() implies !((
        #[trigger] after[i]).loan_id == (#[trigger] after[j]).loan_id && after[i].investor
            == after[j].investor) by {
            if j == investments.len() {
                assert(after[i] == investments[i]);
                assert(!is_stake(investments[i], loan_id, investor));
            } else {
                assert(after[i] == investments[i]);
                assert(after[j] == investments[j]);
            }
        }
    }
}

} // verus!

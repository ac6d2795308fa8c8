//! The balance ledger: who holds how many units of which property, and the
//! fee-deducting transfer that moves them.

use vstd::prelude::*;
use crate::address::Address;
use crate::arith::{fee_on, protocol_fee};
use crate::error::Error;

verus! {

/// The balances of a ledger: units by holder and property id. A holder
/// without units has no entry.
pub type Balances = Map<(Address, u128), int>;

/// One holding: `units` of property `property_id` owned by `holder`.
#[derive(Clone, Copy, Debug, PartialEq, Eq, Structural)]
pub struct BalanceEntry {
    pub holder: Address,
    pub property_id: u128,
    pub units: i128,
}

/// The units `holder` owns of property `property_id`; zero without an entry.
pub open spec fn units_in(balances: Balances, holder: Address, property_id: u128) -> int {
    if balances.contains_key((holder, property_id)) {
        balances[(holder, property_id)]
    } else {
        0
    }
}

/// What an entry adds to the supply of property `property_id`.
pub open spec fn weight_in(key: (Address, u128), units: int, property_id: u128) -> int {
    if key.1 == property_id {
        units
    } else {
        0
    }
}

/// The sum of all the holdings of property `property_id`.
pub open spec fn supply_in(balances: Balances, property_id: u128) -> int
    decreases balances.dom().len(),
    when balances.dom().finite()
{
    if balances.dom().len() == 0 {
        0
    } else {
        let key = balances.dom().choose();
        weight_in(key, balances[key], property_id) + supply_in(balances.remove(key), property_id)
    }
}

/// Balances are well formed when finitely many holders own units, each a
/// positive number of them.
pub open spec fn balances_wf(balances: Balances) -> bool {
    &&& balances.dom().finite()
    &&& forall|key: (Address, u128)| #[trigger]
        balances.contains_key(key) ==> balances[key] > 0
}

/// The balances in which `holder` owns exactly `units` of the property.
pub open spec fn with_units(
    balances: Balances,
    holder: Address,
    property_id: u128,
    units: int,
) -> Balances {
    if units == 0 {
        balances.remove((holder, property_id))
    } else {
        balances.insert((holder, property_id), units)
    }
}

/// The balances after `holder` gains `amount` units (loses, if negative).
pub open spec fn credited(
    balances: Balances,
    holder: Address,
    property_id: u128,
    amount: int,
) -> Balances {
    with_units(balances, holder, property_id, units_in(balances, holder, property_id) + amount)
}

/// The balances after a transfer: `from` gives up `amount`, the fee wallet
/// gains `fee` and `to` gains the rest.
pub open spec fn transferred(
    balances: Balances,
    from: Address,
    to: Address,
    property_id: u128,
    amount: int,
    fee: int,
    fee_wallet: Address,
) -> Balances {
    let debited = credited(balances, from, property_id, -amount);
    let fee_paid = credited(debited, fee_wallet, property_id, fee);
    credited(fee_paid, to, property_id, amount - fee)
}

/// The supply counts each holding once, whichever is taken first.
pub proof fn lemma_supply_remove(balances: Balances, key: (Address, u128), property_id: u128)
    requires
        balances.dom().finite(),
        balances.contains_key(key),
    ensures
        supply_in(balances, property_id) == weight_in(key, balances[key], property_id)
            + supply_in(balances.remove(key), property_id),
    decreases balances.dom().len(),
{
    let first = balances.dom().choose();
    if first != key {
        let rest = balances.remove(first);
        lemma_supply_remove(rest, key, property_id);
        let other = balances.remove(key);
        lemma_supply_remove(other, first, property_id);
        assert(rest.remove(key) =~= other.remove(first));
    }
}

/// No holder appears in empty balances, and their supply is zero.
pub proof fn lemma_supply_empty(property_id: u128)
    ensures
        supply_in(Map::<(Address, u128), int>::empty(), property_id) == 0,
        balances_wf(Map::<(Address, u128), int>::empty()),
{
}

/// Setting one holding changes the supply by the difference.
pub proof fn lemma_supply_with_units(
    balances: Balances,
    holder: Address,
    property_id: u128,
    units: int,
    of_property: u128,
)
    requires
        balances.dom().finite(),
    ensures
        supply_in(with_units(balances, holder, property_id, units), of_property) == supply_in(
            balances,
            of_property,
        ) + (if property_id == of_property {
            units - units_in(balances, holder, property_id)
        } else {
            0
        }),
{
    let key = (holder, property_id);
    let after = with_units(balances, holder, property_id, units);
    if balances.contains_key(key) {
        lemma_supply_remove(balances, key, of_property);
    } else {
        assert(balances.remove(key) =~= balances);
    }
    if units != 0 {
        lemma_supply_remove(after, key, of_property);
        assert(after.remove(key) =~= balances.remove(key));
    }
}

/// Crediting a holder raises the supply of that property by the amount and
/// leaves every other supply alone.
pub proof fn lemma_supply_credited(
    balances: Balances,
    holder: Address,
    property_id: u128,
    amount: int,
    of_property: u128,
)
    requires
        balances.dom().finite(),
    ensures
        supply_in(credited(balances, holder, property_id, amount), of_property) == supply_in(
            balances,
            of_property,
        ) + (if property_id == of_property {
            amount
        } else {
            0
        }),
        credited(balances, holder, property_id, amount).dom().finite(),
{
    lemma_supply_with_units(
        balances,
        holder,
        property_id,
        units_in(balances, holder, property_id) + amount,
        of_property,
    );
}

/// A transfer moves units between holders and creates or destroys none:
/// the supply of every property is what it was.
pub proof fn lemma_transfer_conserves(
    balances: Balances,
    from: Address,
    to: Address,
    property_id: u128,
    amount: int,
    fee: int,
    fee_wallet: Address,
    of_property: u128,
)
    requires
        balances.dom().finite(),
    ensures
        supply_in(
            transferred(balances, from, to, property_id, amount, fee, fee_wallet),
            of_property,
        ) == supply_in(balances, of_property),
        transferred(balances, from, to, property_id, amount, fee, fee_wallet).dom().finite(),
{
    let debited = credited(balances, from, property_id, -amount);
    let fee_paid = credited(debited, fee_wallet, property_id, fee);
    lemma_supply_credited(balances, from, property_id, -amount, of_property);
    lemma_supply_credited(debited, fee_wallet, property_id, fee, of_property);
    lemma_supply_credited(fee_paid, to, property_id, amount - fee, of_property);
}

/// What a transfer does to each holding: `from` loses the amount, the fee
/// wallet gains the fee, `to` gains the rest, and where two of them are
/// the same holder the changes add up. Nobody else is touched.
pub proof fn lemma_transfer_balances(
    balances: Balances,
    from: Address,
    to: Address,
    property_id: u128,
    amount: int,
    fee: int,
    fee_wallet: Address,
    holder: Address,
    of_property: u128,
)
    ensures
        units_in(
            transferred(balances, from, to, property_id, amount, fee, fee_wallet),
            holder,
            of_property,
        ) == units_in(balances, holder, of_property) + (if of_property == property_id {
            (if holder == to {
                amount - fee
            } else {
                0
            }) + (if holder == fee_wallet {
                fee
            } else {
                0
            }) - (if holder == from {
                amount
            } else {
                0
            })
        } else {
            0
        }),
{
}

/// A transfer that the balances cover leaves them well formed.
pub proof fn lemma_transfer_wf(
    balances: Balances,
    from: Address,
    to: Address,
    property_id: u128,
    amount: int,
    fee: int,
    fee_wallet: Address,
)
    requires
        balances_wf(balances),
        0 <= fee <= amount <= units_in(balances, from, property_id),
    ensures
        balances_wf(transferred(balances, from, to, property_id, amount, fee, fee_wallet)),
{
    let debited = credited(balances, from, property_id, -amount);
    let fee_paid = credited(debited, fee_wallet, property_id, fee);
    assert(balances_wf(debited));
    assert(balances_wf(fee_paid));
}

/// In well-formed balances the supply is not negative.
pub proof fn lemma_supply_nonnegative(balances: Balances, property_id: u128)
    requires
        balances_wf(balances),
    ensures
        supply_in(balances, property_id) >= 0,
    decreases balances.dom().len(),
{
    if balances.dom().len() != 0 {
        let key = balances.dom().choose();
        lemma_supply_nonnegative(balances.remove(key), property_id);
    }
}

/// In well-formed balances no holder owns more than the supply.
pub proof fn lemma_units_within_supply(balances: Balances, holder: Address, property_id: u128)
    requires
        balances_wf(balances),
    ensures
        0 <= units_in(balances, holder, property_id) <= supply_in(balances, property_id),
{
    let key = (holder, property_id);
    if balances.contains_key(key) {
        lemma_supply_remove(balances, key, property_id);
        lemma_supply_nonnegative(balances.remove(key), property_id);
    } else {
        lemma_supply_nonnegative(balances, property_id);
    }
}

/// The key under which an entry is kept.
pub open spec fn key_of(entry: BalanceEntry) -> (Address, u128) {
    (entry.holder, entry.property_id)
}

/// The balances that a list of entries stands for.
pub open spec fn balances_of(entries: Seq<BalanceEntry>) -> Balances
    decreases entries.len(),
{
    if entries.len() == 0 {
        Map::empty()
    } else {
        balances_of(entries.drop_last()).insert(
            key_of(entries.last()),
            entries.last().units as int,
        )
    }
}

/// No two entries share a key, and every entry holds a positive number of
/// units.
pub open spec fn entries_wf(entries: Seq<BalanceEntry>) -> bool {
    &&& forall|i: int, j: int|
        0 <= i < j < entries.len() ==> key_of(#[trigger] entries[i]) != key_of(
            #[trigger] entries[j],
        )
    &&& forall|i: int| 0 <= i < entries.len() ==> (#[trigger] entries[i]).units > 0
}

/// The balances of well-formed entries: each entry shows with its units,
/// and nothing else does.
proof fn lemma_balances_of(entries: Seq<BalanceEntry>)
    requires
        entries_wf(entries),
    ensures
        balances_wf(balances_of(entries)),
        forall|i: int|
            0 <= i < entries.len() ==> balances_of(entries).contains_key(
                key_of(#[trigger] entries[i]),
            ) && balances_of(entries)[key_of(entries[i])] == entries[i].units,
        forall|key: (Address, u128)| #[trigger]
            balances_of(entries).contains_key(key) ==> exists|i: int|
                0 <= i < entries.len() && key_of(#[trigger] entries[i]) == key,
    decreases entries.len(),
{
    if entries.len() > 0 {
        let front = entries.drop_last();
        lemma_balances_of(front);
        let all = balances_of(entries);
        assert forall|i: int| 0 <= i < entries.len() implies all.contains_key(
            key_of(#[trigger] entries[i]),
        ) && all[key_of(entries[i])] == entries[i].units by {
            if i < entries.len() - 1 {
                assert(front[i] == entries[i]);
            }
        }
        assert forall|key: (Address, u128)| #[trigger] all.contains_key(key) implies exists|i: int|
            0 <= i < entries.len() && key_of(#[trigger] entries[i]) == key by {
            if key == key_of(entries.last()) {
                assert(key_of(entries[entries.len() - 1]) == key);
            } else {
                assert(balances_of(front).contains_key(key));
                let i = choose|i: int| 0 <= i < front.len() && key_of(#[trigger] front[i]) == key;
                assert(key_of(entries[i]) == key);
            }
        }
        assert forall|key: (Address, u128)| #[trigger] all.contains_key(key) implies all[key]
            > 0 by {
            let i = choose|i: int| 0 <= i < entries.len() && key_of(#[trigger] entries[i]) == key;
            assert(all[key_of(entries[i])] == entries[i].units);
        }
    }
}

/// A key that no entry has is not in the balances.
proof fn lemma_entry_absent(entries: Seq<BalanceEntry>, key: (Address, u128))
    requires
        entries_wf(entries),
        forall|i: int| 0 <= i < entries.len() ==> key_of(#[trigger] entries[i]) != key,
    ensures
        !balances_of(entries).contains_key(key),
{
    lemma_balances_of(entries);
}

/// Replacing an entry by one with the same key sets that holding.
proof fn lemma_entry_updated(entries: Seq<BalanceEntry>, at: int, entry: BalanceEntry)
    requires
        entries_wf(entries),
        0 <= at < entries.len(),
        key_of(entry) == key_of(entries[at]),
        entry.units > 0,
    ensures
        entries_wf(entries.update(at, entry)),
        balances_of(entries.update(at, entry)) == balances_of(entries).insert(
            key_of(entry),
            entry.units as int,
        ),
{
    let after = entries.update(at, entry);
    assert(entries_wf(after)) by {
        assert forall|i: int, j: int| 0 <= i < j < after.len() implies key_of(
            #[trigger] after[i],
        ) != key_of(#[trigger] after[j]) by {
            assert(key_of(after[i]) == key_of(entries[i]));
            assert(key_of(after[j]) == key_of(entries[j]));
        }
    }
    lemma_balances_of(entries);
    lemma_balances_of(after);
    let expected = balances_of(entries).insert(key_of(entry), entry.units as int);
    assert forall|key: (Address, u128)| balances_of(after).contains_key(key)
        <==> expected.contains_key(key) by {
        if balances_of(after).contains_key(key) {
            let i = choose|i: int| 0 <= i < after.len() && key_of(#[trigger] after[i]) == key;
            assert(key_of(entries[i]) == key);
        }
        if expected.contains_key(key) && key != key_of(entry) {
            let i = choose|i: int| 0 <= i < entries.len() && key_of(#[trigger] entries[i]) == key;
            assert(key_of(after[i]) == key);
        }
        if key == key_of(entry) {
            assert(key_of(after[at]) == key);
        }
    }
    assert forall|key: (Address, u128)| balances_of(after).contains_key(key) implies balances_of(
        after,
    )[key] == expected[key] by {
        let i = choose|i: int| 0 <= i < after.len() && key_of(#[trigger] after[i]) == key;
        assert(balances_of(after)[key_of(after[i])] == after[i].units);
        if i != at {
            assert(after[i] == entries[i]);
            assert(balances_of(entries)[key_of(entries[i])] == entries[i].units);
        }
    }
    assert(balances_of(after) =~= expected);
}

/// Taking an entry out removes that holding.
proof fn lemma_entry_removed(entries: Seq<BalanceEntry>, at: int)
    requires
        entries_wf(entries),
        0 <= at < entries.len(),
    ensures
        entries_wf(entries.remove(at)),
        balances_of(entries.remove(at)) == balances_of(entries).remove(key_of(entries[at])),
{
    let after = entries.remove(at);
    let gone = key_of(entries[at]);
    assert(entries_wf(after)) by {
        assert forall|i: int, j: int| 0 <= i < j < after.len() implies key_of(
            #[trigger] after[i],
        ) != key_of(#[trigger] after[j]) by {
            let si = if i < at { i } else { i + 1 };
            let sj = if j < at { j } else { j + 1 };
            assert(after[i] == entries[si]);
            assert(after[j] == entries[sj]);
        }
        assert forall|i: int| 0 <= i < after.len() implies (#[trigger] after[i]).units > 0 by {
            let si = if i < at { i } else { i + 1 };
            assert(after[i] == entries[si]);
        }
    }
    lemma_balances_of(entries);
    lemma_balances_of(after);
    let expected = balances_of(entries).remove(gone);
    assert forall|key: (Address, u128)| balances_of(after).contains_key(key)
        <==> expected.contains_key(key) by {
        if balances_of(after).contains_key(key) {
            let i = choose|i: int| 0 <= i < after.len() && key_of(#[trigger] after[i]) == key;
            let si = if i < at { i } else { i + 1 };
            assert(after[i] == entries[si]);
            assert(key_of(entries[si]) == key);
        }
        if expected.contains_key(key) {
            let i = choose|i: int| 0 <= i < entries.len() && key_of(#[trigger] entries[i]) == key;
            let ti = if i < at { i } else { i - 1 };
            assert(after[ti] == entries[i]);
            assert(key_of(after[ti]) == key);
        }
    }
    assert forall|key: (Address, u128)| balances_of(after).contains_key(key) implies balances_of(
        after,
    )[key] == expected[key] by {
        let i = choose|i: int| 0 <= i < after.len() && key_of(#[trigger] after[i]) == key;
        let si = if i < at { i } else { i + 1 };
        assert(after[i] == entries[si]);
        assert(balances_of(after)[key_of(after[i])] == after[i].units);
        assert(balances_of(entries)[key_of(entries[si])] == entries[si].units);
    }
    assert(balances_of(after) =~= expected);
}

/// Adding an entry with a new key adds that holding.
proof fn lemma_entry_pushed(entries: Seq<BalanceEntry>, entry: BalanceEntry)
    requires
        entries_wf(entries),
        entry.units > 0,
        forall|i: int| 0 <= i < entries.len() ==> key_of(#[trigger] entries[i]) != key_of(entry),
    ensures
        entries_wf(entries.push(entry)),
        balances_of(entries.push(entry)) == balances_of(entries).insert(
            key_of(entry),
            entry.units as int,
        ),
{
    assert(entries.push(entry).drop_last() =~= entries);
}

/// The units of property `property_id` that the entries hold together.
pub open spec fn held_in(entries: Seq<BalanceEntry>, property_id: u128) -> int
    decreases entries.len(),
{
    if entries.len() == 0 {
        0
    } else {
        held_in(entries.drop_last(), property_id) + weight_in(
            key_of(entries.last()),
            entries.last().units as int,
            property_id,
        )
    }
}

/// The supply of a property is the sum over the entries that hold it.
pub proof fn lemma_supply_of_entries(entries: Seq<BalanceEntry>, property_id: u128)
    requires
        entries_wf(entries),
    ensures
        supply_in(balances_of(entries), property_id) == held_in(entries, property_id),
    decreases entries.len(),
{
    if entries.len() > 0 {
        let front = entries.drop_last();
        let last = entries.last();
        assert(entries_wf(front)) by {
            assert forall|i: int, j: int| 0 <= i < j < front.len() implies key_of(
                #[trigger] front[i],
            ) != key_of(#[trigger] front[j]) by {
                assert(front[i] == entries[i]);
                assert(front[j] == entries[j]);
            }
            assert forall|i: int| 0 <= i < front.len() implies (#[trigger] front[i]).units
                > 0 by {
                assert(front[i] == entries[i]);
            }
        }
        lemma_supply_of_entries(front, property_id);
        lemma_balances_of(front);
        assert forall|i: int| 0 <= i < front.len() implies key_of(#[trigger] front[i]) != key_of(
            last,
        ) by {
            assert(front[i] == entries[i]);
            assert(last == entries[entries.len() - 1]);
        }
        lemma_entry_absent(front, key_of(last));
        assert(last == entries[entries.len() - 1]);
        lemma_supply_with_units(
            balances_of(front),
            last.holder,
            last.property_id,
            last.units as int,
            property_id,
        );
    }
}

/// The first entries hold no more of a property than all of them.
pub proof fn lemma_held_prefix(entries: Seq<BalanceEntry>, count: int, property_id: u128)
    requires
        0 <= count <= entries.len(),
        forall|i: int| 0 <= i < entries.len() ==> (#[trigger] entries[i]).units > 0,
    ensures
        0 <= held_in(entries.take(count), property_id) <= held_in(entries, property_id),
    decreases entries.len(),
{
    if entries.len() == 0 {
        assert(entries.take(count) =~= entries);
    } else if count == entries.len() {
        assert(entries.take(count) =~= entries);
        lemma_held_prefix(entries.drop_last(), count - 1, property_id);
        assert(entries.drop_last().take(count - 1) =~= entries.take(count - 1));
    } else {
        lemma_held_prefix(entries.drop_last(), count, property_id);
        assert(entries.drop_last().take(count) =~= entries.take(count));
    }
}

/// Entries that hold nothing of a property add nothing to its supply.
pub proof fn lemma_held_none(entries: Seq<BalanceEntry>, property_id: u128)
    requires
        forall|i: int| 0 <= i < entries.len() ==> (#[trigger] entries[i]).property_id
            != property_id,
    ensures
        held_in(entries, property_id) == 0,
    decreases entries.len(),
{
    if entries.len() > 0 {
        let front = entries.drop_last();
        assert forall|i: int| 0 <= i < front.len() implies (#[trigger] front[i]).property_id
            != property_id by {
            assert(front[i] == entries[i]);
        }
        lemma_held_none(front, property_id);
        assert(entries.last() == entries[entries.len() - 1]);
    }
}

/// Every entry shows in the balances with its units.
pub proof fn lemma_entry_held(entries: Seq<BalanceEntry>, at: int)
    requires
        entries_wf(entries),
        0 <= at < entries.len(),
    ensures
        balances_wf(balances_of(entries)),
        units_in(balances_of(entries), entries[at].holder, entries[at].property_id)
            == entries[at].units,
{
    lemma_balances_of(entries);
    assert(balances_of(entries).contains_key(key_of(entries[at])));
}

/// The balance ledger.
pub struct Ledger {
    entries: Vec<BalanceEntry>,
}

impl View for Ledger {
    type V = Balances;

    /// The balances that the ledger holds.
    closed spec fn view(&self) -> Balances {
        balances_of(self.entries@)
    }
}

impl Ledger {
    /// The ledger keeps one entry per holder and property, each with a
    /// positive number of units.
    pub closed spec fn wf(&self) -> bool {
        entries_wf(self.entries@)
    }

    /// The balances of a well-formed ledger are well formed.
    pub proof fn lemma_wf_balances(&self)
        requires
            self.wf(),
        ensures
            balances_wf(self@),
    {
        lemma_balances_of(self.entries@);
    }

    /// A ledger in which nobody holds anything.
    pub fn new() -> (ledger: Ledger)
        ensures
            ledger.wf(),
            ledger@ == Map::<(Address, u128), int>::empty(),
    {
        Ledger { entries: Vec::new() }
    }

    /// The entries of the ledger, one per holder and property.
    pub fn entries(&self) -> (entries: &Vec<BalanceEntry>)
        ensures
            balances_of(entries@) == self@,
            entries_wf(entries@) == self.wf(),
    {
        &self.entries
    }

    /// Whether no two of the entries share a holder and property and each
    /// holds a positive number of units.
    pub fn entries_valid(entries: &Vec<BalanceEntry>) -> (valid: bool)
        ensures
            valid == entries_wf(entries@),
    {
        let mut i: usize = 0;
        while i < entries.len()
            invariant
                i <= entries.len(),
                forall|a: int| 0 <= a < i ==> (#[trigger] entries@[a]).units > 0,
                forall|a: int, b: int|
                    0 <= a < b < i ==> key_of(#[trigger] entries@[a]) != key_of(
                        #[trigger] entries@[b],
                    ),
            decreases entries.len() - i,
        {
            if entries[i].units <= 0 {
                return false;
            }
            let mut j: usize = 0;
            while j < i
                invariant
                    j <= i,
                    i < entries.len(),
                    forall|a: int|
                        0 <= a < j ==> key_of(#[trigger] entries@[a]) != key_of(entries@[i as int]),
                decreases i - j,
            {
                if entries[j].holder == entries[i].holder && entries[j].property_id
                    == entries[i].property_id {
                    return false;
                }
                j = j + 1;
            }
            i = i + 1;
        }
        true
    }

    /// The ledger that holds `entries`, unless two of them share a holder
    /// and property or one of them holds no units.
    pub fn from_entries(entries: Vec<BalanceEntry>) -> (ledger: Option<Ledger>)
        ensures
            match ledger {
                Some(ledger) => ledger.wf() && ledger@ == balances_of(entries@) && entries_wf(
                    entries@,
                ),
                None => !entries_wf(entries@),
            },
    {
        if Self::entries_valid(&entries) {
            Some(Ledger { entries })
        } else {
            None
        }
    }

    /// Whether the ledger is well formed.
    pub fn is_well_formed(&self) -> (valid: bool)
        ensures
            valid == self.wf(),
    {
        Self::entries_valid(&self.entries)
    }

    /// The units of property `property_id` that all holders own together,
    /// or `None` when they exceed what an amount can hold.
    pub fn supply(&self, property_id: u128) -> (total: Option<i128>)
        requires
            self.wf(),
        ensures
            match total {
                Some(total) => total == supply_in(self@, property_id),
                None => supply_in(self@, property_id) > i128::MAX,
            },
    {
        proof {
            lemma_supply_of_entries(self.entries@, property_id);
        }
        let mut total: i128 = 0;
        let mut i: usize = 0;
        while i < self.entries.len()
            invariant
                i <= self.entries.len(),
                self.wf(),
                supply_in(self@, property_id) == held_in(self.entries@, property_id),
                total == held_in(self.entries@.take(i as int), property_id),
            decreases self.entries.len() - i,
        {
            proof {
                let next = self.entries@.take(i + 1);
                assert(next.drop_last() =~= self.entries@.take(i as int));
                assert(next.last() == self.entries@[i as int]);
                lemma_held_prefix(self.entries@, i + 1, property_id);
                lemma_held_prefix(self.entries@, i as int, property_id);
            }
            if self.entries[i].property_id == property_id {
                total = match total.checked_add(self.entries[i].units) {
                    Some(sum) => sum,
                    None => {
                        return None;
                    },
                };
            }
            i = i + 1;
        }
        proof {
            assert(self.entries@.take(i as int) =~= self.entries@);
        }
        Some(total)
    }

    /// A second ledger with the same balances.
    pub fn duplicate(&self) -> (copy: Ledger)
        ensures
            copy@ == self@,
            copy.wf() == self.wf(),
    {
        let mut entries: Vec<BalanceEntry> = Vec::new();
        let mut i: usize = 0;
        while i < self.entries.len()
            invariant
                i <= self.entries.len(),
                entries@ == self.entries@.take(i as int),
            decreases self.entries.len() - i,
        {
            entries.push(self.entries[i]);
            proof {
                assert(self.entries@.take(i + 1) =~= self.entries@.take(i as int).push(
                    self.entries@[i as int],
                ));
            }
            i = i + 1;
        }
        proof {
            assert(self.entries@.take(i as int) =~= self.entries@);
        }
        Ledger { entries }
    }

    /// Where the entry of `holder` for the property stands, if there is one.
    fn position(&self, holder: Address, property_id: u128) -> (found: Option<usize>)
        requires
            self.wf(),
        ensures
            match found {
                Some(at) => at < self.entries@.len() && key_of(self.entries@[at as int]) == (
                    holder,
                    property_id,
                ) && self@.contains_key((holder, property_id)) && self@[(holder, property_id)]
                    == self.entries@[at as int].units,
                None => !self@.contains_key((holder, property_id)),
            },
    {
        let mut i: usize = 0;
        while i < self.entries.len()
            invariant
                self.wf(),
                i <= self.entries.len(),
                forall|j: int|
                    0 <= j < i ==> key_of(#[trigger] self.entries@[j]) != (holder, property_id),
            decreases self.entries.len() - i,
        {
            let entry = self.entries[i];
            if entry.holder == holder && entry.property_id == property_id {
                proof {
                    lemma_balances_of(self.entries@);
                }
                return Some(i);
            }
            i = i + 1;
        }
        proof {
            lemma_entry_absent(self.entries@, (holder, property_id));
        }
        None
    }

    /// The units `holder` owns of property `property_id`; zero if none.
    pub fn balance_of(&self, holder: Address, property_id: u128) -> (units: i128)
        requires
            self.wf(),
        ensures
            units == units_in(self@, holder, property_id),
    {
        match self.position(holder, property_id) {
            Some(at) => self.entries[at].units,
            None => 0,
        }
    }

    /// Makes `holder` own exactly `units` of the property; a holding of
    /// zero is dropped.
    fn set_units(&mut self, holder: Address, property_id: u128, units: i128)
        requires
            old(self).wf(),
            units >= 0,
        ensures
            final(self).wf(),
            final(self)@ == with_units(old(self)@, holder, property_id, units as int),
    {
        let entry = BalanceEntry { holder, property_id, units };
        match self.position(holder, property_id) {
            Some(at) => {
                if units == 0 {
                    proof {
                        lemma_entry_removed(self.entries@, at as int);
                    }
                    self.entries.remove(at);
                } else {
                    proof {
                        lemma_entry_updated(self.entries@, at as int, entry);
                    }
                    self.entries.set(at, entry);
                }
            },
            None => {
                if units != 0 {
                    proof {
                        lemma_balances_of(self.entries@);
                        assert forall|i: int| 0 <= i < self.entries@.len() implies key_of(
                            #[trigger] self.entries@[i],
                        ) != key_of(entry) by {
                            assert(self@.contains_key(key_of(self.entries@[i])));
                        }
                        lemma_entry_pushed(self.entries@, entry);
                    }
                    self.entries.push(entry);
                } else {
                    assert(self@.remove((holder, property_id)) =~= self@);
                }
            },
        }
    }

    /// Gives `holder` `amount` new units of property `property_id`.
    pub fn mint(&mut self, holder: Address, property_id: u128, amount: i128)
        requires
            old(self).wf(),
            amount >= 0,
            supply_in(old(self)@, property_id) + amount <= i128::MAX,
        ensures
            final(self).wf(),
            final(self)@ == credited(old(self)@, holder, property_id, amount as int),
            forall|of_property: u128|
                supply_in(final(self)@, of_property) == #[trigger] supply_in(
                    old(self)@,
                    of_property,
                ) + (if of_property == property_id {
                    amount as int
                } else {
                    0
                }),
    {
        proof {
            self.lemma_wf_balances();
            lemma_units_within_supply(self@, holder, property_id);
            assert forall|of_property: u128|
                supply_in(credited(self@, holder, property_id, amount as int), of_property)
                    == #[trigger] supply_in(self@, of_property) + (if of_property == property_id {
                    amount as int
                } else {
                    0
                }) by {
                lemma_supply_credited(self@, holder, property_id, amount as int, of_property);
            }
        }
        let held = self.balance_of(holder, property_id);
        self.set_units(holder, property_id, held + amount);
    }

    /// Moves `amount` units of property `property_id` from `from` to `to`,
    /// of which the fee wallet keeps the protocol fee.
    ///
    /// Either all three balances change or none does. Returns the fee.
    pub fn transfer(
        &mut self,
        from: Address,
        to: Address,
        property_id: u128,
        amount: i128,
        fee_bps: u32,
        fee_wallet: Address,
    ) -> (result: Result<i128, Error>)
        requires
            old(self).wf(),
            fee_bps <= 10000,
            supply_in(old(self)@, property_id) <= i128::MAX,
        ensures
            final(self).wf(),
            result == transfer_outcome(old(self)@, from, property_id, amount as int, fee_bps as int),
            result is Err ==> *final(self) == *old(self),
            result is Ok ==> final(self)@ == transferred(
                old(self)@,
                from,
                to,
                property_id,
                amount as int,
                protocol_fee(amount as int, fee_bps as int),
                fee_wallet,
            ),
            forall|of_property: u128|
                supply_in(final(self)@, of_property) == #[trigger] supply_in(
                    old(self)@,
                    of_property,
                ),
    {
        if amount <= 0 {
            return Err(Error::InvalidAmount);
        }
        let held = self.balance_of(from, property_id);
        if held < amount {
            return Err(Error::InsufficientBalance);
        }
        let fee = fee_on(amount, fee_bps);
        let net = amount - fee;
        let ghost start = self@;
        let ghost debited = credited(start, from, property_id, -(amount as int));
        proof {
            self.lemma_wf_balances();
            lemma_supply_credited(start, from, property_id, -(amount as int), property_id);
            lemma_supply_credited(debited, fee_wallet, property_id, fee as int, property_id);
            assert forall|of_property: u128|
                supply_in(
                    transferred(
                        start,
                        from,
                        to,
                        property_id,
                        amount as int,
                        fee as int,
                        fee_wallet,
                    ),
                    of_property,
                ) == #[trigger] supply_in(start, of_property) by {
                lemma_transfer_conserves(
                    start,
                    from,
                    to,
                    property_id,
                    amount as int,
                    fee as int,
                    fee_wallet,
                    of_property,
                );
            }
        }
        self.set_units(from, property_id, held - amount);
        proof {
            self.lemma_wf_balances();
            lemma_units_within_supply(self@, fee_wallet, property_id);
        }
        let kept = self.balance_of(fee_wallet, property_id);
        self.set_units(fee_wallet, property_id, kept + fee);
        proof {
            self.lemma_wf_balances();
            lemma_units_within_supply(self@, to, property_id);
        }
        let owned = self.balance_of(to, property_id);
        self.set_units(to, property_id, owned + net);
        Ok(fee)
    }
}

/// What a transfer answers: the fee it charges, or why it is refused.
pub open spec fn transfer_outcome(
    balances: Balances,
    from: Address,
    property_id: u128,
    amount: int,
    fee_bps: int,
) -> Result<i128, Error> {
    if amount <= 0 {
        Err(Error::InvalidAmount)
    } else if units_in(balances, from, property_id) < amount {
        Err(Error::InsufficientBalance)
    } else {
        Ok(protocol_fee(amount, fee_bps) as i128)
    }
}

} // verus!

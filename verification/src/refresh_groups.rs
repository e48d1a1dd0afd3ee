//! Refresh groups: the groups of shop offers that restock together.

use vstd::prelude::*;

verus! {

#[derive(Debug, Clone, Copy, PartialEq, Eq, Structural)]
pub enum GroupType {
    Standard,
    Class,
}

/// How many offers a group holds and every how many turns it restocks.
#[derive(Debug, Clone, Copy, PartialEq, Eq, Structural)]
pub struct RefreshProperties {
    pub max_offer_count: u8,
    pub duration: u8,
    pub group_type: GroupType,
}

impl Default for RefreshProperties {
    fn default() -> (r: RefreshProperties)
        ensures
            r == (RefreshProperties { max_offer_count: 3, duration: 1, group_type: GroupType::Standard }),
    {
        RefreshProperties { max_offer_count: 3, duration: 1, group_type: GroupType::Standard }
    }
}

/// A player's refresh groups, as entity ids.
#[derive(Debug, Clone)]
pub struct RefreshGroups(pub Vec<u64>);

impl RefreshGroups {
    pub fn groups(&self) -> (r: Vec<u64>)
        ensures
            r@ == self.0@,
    {
        let mut r: Vec<u64> = Vec::new();
        let mut i: usize = 0;
        while i < self.0.len()
            invariant
                i <= self.0@.len(),
                r@ == self.0@.take(i as int),
            decreases self.0@.len() - i,
        {
            r.push(self.0[i]);
            proof {
                assert(self.0@.take(i + 1) =~= self.0@.take(i as int).push(self.0@[i as int]));
            }
            i = i + 1;
        }
        proof {
            assert(self.0@.take(self.0@.len() as int) =~= self.0@);
        }
        r
    }
}

/// The groups every new player gets: three offers restocking every turn,
/// three every third turn, and one every fourth turn.
pub fn default_refresh_groups() -> (r: Vec<RefreshProperties>)
    ensures
        r@ == seq![
            RefreshProperties { max_offer_count: 3, duration: 1, group_type: GroupType::Standard },
            RefreshProperties { max_offer_count: 3, duration: 3, group_type: GroupType::Standard },
            RefreshProperties { max_offer_count: 1, duration: 4, group_type: GroupType::Standard },
        ],
{
    let mut r: Vec<RefreshProperties> = Vec::new();
    r.push(RefreshProperties { max_offer_count: 3, duration: 1, group_type: GroupType::Standard });
    r.push(RefreshProperties { max_offer_count: 3, duration: 3, group_type: GroupType::Standard });
    r.push(RefreshProperties { max_offer_count: 1, duration: 4, group_type: GroupType::Standard });
    proof {
        assert(r@ =~= seq![
            RefreshProperties { max_offer_count: 3, duration: 1, group_type: GroupType::Standard },
            RefreshProperties { max_offer_count: 3, duration: 3, group_type: GroupType::Standard },
            RefreshProperties { max_offer_count: 1, duration: 4, group_type: GroupType::Standard },
        ]);
    }
    r
}

} // verus!

//! Player-side progression: inventory slots, experience and gold, and the
//! application of a combat reward.

use vstd::prelude::*;

verus! {

pub type ItemId = u64;

/// A stack of identical items in one inventory slot.
#[derive(Clone, Copy, PartialEq, Eq, Structural, Debug)]
pub struct ItemStack {
    pub id: ItemId,
    pub qty: u16,
}

/// A fixed set of slots, each either empty or holding a stack.
pub struct Inventory {
    pub slots: Vec<Option<ItemStack>>,
}

/// The first slot already stacking `id`, if any.
pub open spec fn first_stack_idx(slots: Seq<Option<ItemStack>>, id: ItemId, i: int) -> Option<int>
    decreases slots.len() - i,
{
    if i < 0 || i >= slots.len() {
        None
    } else if slots[i] matches Some(stack) && stack.id == id {
        Some(i)
    } else {
        first_stack_idx(slots, id, i + 1)
    }
}

/// The first empty slot, if any.
pub open spec fn first_empty_idx(slots: Seq<Option<ItemStack>>, i: int) -> Option<int>
    decreases slots.len() - i,
{
    if i < 0 || i >= slots.len() {
        None
    } else if slots[i] is None {
        Some(i)
    } else {
        first_empty_idx(slots, i + 1)
    }
}

/// The outcome of adding one stack to slot sequence `pre`: it merges into
/// the first slot already holding the item (quantity saturating), else fills
/// the first empty slot, else is dropped.
pub open spec fn add_item_post(
    pre: Seq<Option<ItemStack>>,
    post: Seq<Option<ItemStack>>,
    item: ItemStack,
    added: bool,
) -> bool {
    &&& post.len() == pre.len()
    &&& match first_stack_idx(pre, item.id, 0) {
        Some(i) => {
            &&& added
            &&& post[i] matches Some(stack) && stack.id == item.id && stack.qty == if pre[
                i
            ]->Some_0.qty + item.qty <= u16::MAX {
                pre[i]->Some_0.qty + item.qty
            } else {
                u16::MAX as int
            }
            &&& forall|j: int| 0 <= j < pre.len() && j != i ==> post[j] == pre[j]
        },
        None => match first_empty_idx(pre, 0) {
            Some(i) => {
                &&& added
                &&& post[i] == Some(item)
                &&& forall|j: int| 0 <= j < pre.len() && j != i ==> post[j] == pre[j]
            },
            None => !added && post == pre,
        },
    }
}

/// The outcome of granting a list of stacks in order: each goes through
/// `add_item_post` in turn.
pub open spec fn reward_items_post(
    pre: Seq<Option<ItemStack>>,
    post: Seq<Option<ItemStack>>,
    items: Seq<ItemStack>,
) -> bool
    decreases items.len(),
{
    if items.len() == 0 {
        post == pre
    } else {
        exists|mid: Seq<Option<ItemStack>>, ok: bool|
            {
                &&& #[trigger] add_item_post(mid, post, items.last(), ok)
                &&& reward_items_post(pre, mid, items.drop_last())
            }
    }
}

impl Inventory {
    pub fn new(slot_count: usize) -> (r: Inventory)
        ensures
            r.slots@.len() == slot_count,
            forall|i: int| 0 <= i < slot_count ==> r.slots@[i] is None,
    {
        let mut slots: Vec<Option<ItemStack>> = Vec::new();
        let mut i: usize = 0;
        while i < slot_count
            invariant
                i <= slot_count,
                slots@.len() == i as int,
                forall|j: int| 0 <= j < i as int ==> slots@[j] is None,
            decreases slot_count - i,
        {
            slots.push(None);
            i = i + 1;
        }
        Inventory { slots }
    }

    /// Add a stack: it merges into the first slot already holding the same
    /// item (quantity saturating), else fills the first empty slot; with
    /// neither available the item is dropped and `added` is false.
    pub fn add_item(&mut self, item: ItemStack) -> (added: bool)
        ensures
            add_item_post(old(self).slots@, final(self).slots@, item, added),
    {
        let n = self.slots.len();
        let mut i: usize = 0;
        let mut empty_at: Option<usize> = None;
        while i < n
            invariant
                old(self) == self,
                n == self.slots@.len(),
                i <= n,
                first_stack_idx(self.slots@, item.id, 0) == first_stack_idx(
                    self.slots@,
                    item.id,
                    i as int,
                ),
                forall|j: int|
                    0 <= j < i as int ==> !((#[trigger] self.slots@[j]) matches Some(st)
                        && st.id == item.id),
                match empty_at {
                    Some(e) => first_empty_idx(self.slots@, 0) == Some(e as int) && (e as int)
                        < i as int,
                    None => first_empty_idx(self.slots@, 0) == first_empty_idx(
                        self.slots@,
                        i as int,
                    ),
                },
            decreases n - i,
        {
            let slot = self.slots[i];
            match slot {
                Some(stack) => {
                    if stack.id == item.id {
                        let merged = ItemStack {
                            id: item.id,
                            qty: stack.qty.saturating_add(item.qty),
                        };
                        self.slots.set(i, Some(merged));
                        proof {
                            assert(first_stack_idx(old(self).slots@, item.id, i as int) == Some(
                                i as int,
                            ));
                        }
                        return true;
                    }
                },
                None => {
                    if empty_at.is_none() {
                        empty_at = Some(i);
                    }
                },
            }
            i = i + 1;
        }
        proof {
            assert(first_stack_idx(self.slots@, item.id, n as int) is None);
        }
        match empty_at {
            Some(e) => {
                self.slots.set(e, Some(item));
                true
            },
            None => {
                proof {
                    assert(first_empty_idx(self.slots@, n as int) is None);
                }
                false
            },
        }
    }
}

/// Character experience: total points and the derived level.
#[derive(Clone, Copy, PartialEq, Eq, Structural, Debug)]
pub struct CharacterXp {
    pub value: u64,
    pub level: u64,
}

/// The player's gold purse.
#[derive(Clone, Copy, PartialEq, Eq, Structural, Debug)]
pub struct Gold {
    pub value: u128,
}

/// What defeating an objective grants.
pub struct RewardGrant {
    pub items: Vec<ItemStack>,
    pub xp: u64,
    pub gold: u64,
}

/// Apply a reward: experience and gold accrue (saturating at their widths)
/// and each granted stack is added to the inventory in order.
pub fn apply_reward(
    xp: &mut CharacterXp,
    gold: &mut Gold,
    inventory: &mut Inventory,
    reward: &RewardGrant,
)
    ensures
        final(xp).value == if old(xp).value + reward.xp <= u64::MAX {
            old(xp).value + reward.xp
        } else {
            u64::MAX as int
        },
        final(xp).level == old(xp).level,
        final(gold).value == if old(gold).value + reward.gold <= u128::MAX {
            old(gold).value + reward.gold
        } else {
            u128::MAX as int
        },
        final(inventory).slots@.len() == old(inventory).slots@.len(),
        reward_items_post(old(inventory).slots@, final(inventory).slots@, reward.items@),
{
    xp.value = xp.value.saturating_add(reward.xp);
    gold.value = gold.value.saturating_add(reward.gold as u128);
    let n = reward.items.len();
    let mut i: usize = 0;
    while i < n
        invariant
            n == reward.items@.len(),
            i <= n,
            inventory.slots@.len() == old(inventory).slots@.len(),
            reward_items_post(
                old(inventory).slots@,
                inventory.slots@,
                reward.items@.subrange(0, i as int),
            ),
        decreases n - i,
    {
        let item = reward.items[i];
        let ghost mid = inventory.slots@;
        let ok = inventory.add_item(item);
        proof {
            let sub1 = reward.items@.subrange(0, i as int + 1);
            assert(sub1.last() == reward.items@[i as int]);
            assert(sub1.drop_last() =~= reward.items@.subrange(0, i as int));
            assert(add_item_post(mid, inventory.slots@, item, ok));
            assert(reward_items_post(old(inventory).slots@, mid, sub1.drop_last()));
            assert(reward_items_post(old(inventory).slots@, inventory.slots@, sub1));
        }
        i = i + 1;
    }
    proof {
        assert(reward.items@.subrange(0, n as int) =~= reward.items@);
    }
}

} // verus!

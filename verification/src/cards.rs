//! Cards: their rarity, the shop's pools of loaded cards, and each player's
//! inventory of cards.

use vstd::prelude::*;
use crate::actions::{ActionSource, GameAction, ProxyAction};

verus! {

#[derive(Debug, Clone, Copy, PartialEq, Eq, Structural)]
pub enum CardRarity {
    Legendary,
    Epic,
    Rare,
    Common,
    /// Never offered in the shop.
    Never,
}

impl CardRarity {
    /// The name of the rarity as players see it.
    pub open spec fn spec_display_name(&self) -> Seq<char> {
        match self {
            CardRarity::Legendary => "Legendary"@,
            CardRarity::Epic => "Epic"@,
            CardRarity::Rare => "Rare"@,
            CardRarity::Common => "Common"@,
            CardRarity::Never => "Never"@,
        }
    }

    pub fn display_name(&self) -> (r: String)
        ensures
            r@ == self.spec_display_name(),
    {
        match self {
            CardRarity::Legendary => "Legendary".to_owned(),
            CardRarity::Epic => "Epic".to_owned(),
            CardRarity::Rare => "Rare".to_owned(),
            CardRarity::Common => "Common".to_owned(),
            CardRarity::Never => "Never".to_owned(),
        }
    }
}

/// A card, as loaded from its asset. Handles are asset ids.
#[derive(Debug, Clone)]
pub struct Card {
    pub name: String,
    pub price: u32,
    pub action: GameAction,
    pub image: u64,
    pub rarity: CardRarity,
    pub description: String,
}

/// A card as written in an asset file.
#[derive(Debug, Clone)]
pub struct ProxyCard {
    pub name: String,
    pub price: u32,
    pub action: ProxyAction,
    pub image_path: String,
    pub rarity: CardRarity,
    pub description: String,
}

/// Builds a card from its asset form; `image` is the handle that loading
/// the image path gave, and `piece` the one that loading the piece path named
/// by the action gave.
pub fn card_from_proxy(proxy: ProxyCard, image: u64, piece: u64) -> (r: Card)
    ensures
        r.name@ == proxy.name@,
        r.price == proxy.price,
        r.action.functionality == crate::actions::converted_functionality(
            proxy.action.functionality,
            piece,
        ),
        r.action.eligibility_method == crate::actions::converted_method(
            proxy.action.eligibility_method,
        ),
        r.action.selection_count_bounds == proxy.action.selection_count_bounds,
        r.image == image,
        r.rarity == proxy.rarity,
        r.description@ == proxy.description@,
{
    Card {
        name: proxy.name,
        price: proxy.price,
        action: GameAction::from_proxy(proxy.action, piece),
        image,
        rarity: proxy.rarity,
        description: proxy.description,
    }
}

/// The loaded cards, each kept by its handle.
#[derive(Debug, Clone)]
pub struct CardCatalog {
    pub entries: Vec<(u64, Card)>,
}

impl CardCatalog {
    /// The first card kept under `handle`.
    pub open spec fn spec_get(&self, handle: u64) -> Option<Card> {
        if exists|i: int| 0 <= i < self.entries@.len() && (#[trigger] self.entries@[i]).0 == handle {
            let i = choose|i: int|
                0 <= i < self.entries@.len() && (#[trigger] self.entries@[i]).0 == handle && forall|
                    j: int,
                | 0 <= j < i ==> (#[trigger] self.entries@[j]).0 != handle;
            Some(self.entries@[i].1)
        } else {
            None
        }
    }

    pub fn get(&self, handle: u64) -> (r: Option<&Card>)
        ensures
            match r {
                Some(c) => self.spec_get(handle) == Some(*c),
                None => self.spec_get(handle) is None,
            },
    {
        let mut i: usize = 0;
        while i < self.entries.len()
            invariant
                i <= self.entries@.len(),
                forall|j: int| 0 <= j < i ==> (#[trigger] self.entries@[j]).0 != handle,
            decreases self.entries@.len() - i,
        {
            if self.entries[i].0 == handle {
                proof {
                    let c = choose|c: int|
                        0 <= c < self.entries@.len() && (#[trigger] self.entries@[c]).0 == handle
                            && forall|j: int| 0 <= j < c ==> (#[trigger] self.entries@[j]).0 != handle;
                    if c < i {
                    } else if c > i {
                        assert(self.entries@[i as int].0 == handle);
                    }
                    assert(c == i);
                }
                return Some(&self.entries[i].1);
            }
            i = i + 1;
        }
        None
    }
}

/// The handles of the loaded cards that passed validation: all of them, and
/// one pool per rarity.
#[derive(Debug, Clone)]
pub struct SortedCardHandles {
    pub all_cards: Vec<u64>,
    pub legendary_cards: Vec<u64>,
    pub epic_cards: Vec<u64>,
    pub rare_cards: Vec<u64>,
    pub common_cards: Vec<u64>,
    pub never_shop_cards: Vec<u64>,
}

impl SortedCardHandles {
    /// The pool of cards of one rarity.
    pub open spec fn pool(&self, rarity: CardRarity) -> Seq<u64> {
        match rarity {
            CardRarity::Legendary => self.legendary_cards@,
            CardRarity::Epic => self.epic_cards@,
            CardRarity::Rare => self.rare_cards@,
            CardRarity::Common => self.common_cards@,
            CardRarity::Never => self.never_shop_cards@,
        }
    }

    /// Every card in a pool is among all cards, and all cards are exactly as
    /// many as the pools hold together.
    pub open spec fn wf(&self) -> bool {
        &&& forall|r: CardRarity, i: int|
            0 <= i < self.pool(r).len() ==> self.all_cards@.contains(#[trigger] self.pool(r)[i])
        &&& self.all_cards@.len() == self.legendary_cards@.len() + self.epic_cards@.len()
            + self.rare_cards@.len() + self.common_cards@.len() + self.never_shop_cards@.len()
    }

    pub fn new() -> (r: SortedCardHandles)
        ensures
            r.wf(),
            r.all_cards@.len() == 0,
            forall|rarity: CardRarity| r.pool(rarity).len() == 0,
    {
        SortedCardHandles {
            all_cards: Vec::new(),
            legendary_cards: Vec::new(),
            epic_cards: Vec::new(),
            rare_cards: Vec::new(),
            common_cards: Vec::new(),
            never_shop_cards: Vec::new(),
        }
    }

    /// Takes in a card that finished loading: a card whose action the game
    /// can carry out is added to all cards and to the pool of its rarity;
    /// any other card is refused. Returns whether the card was added.
    pub fn register_loaded_card(&mut self, handle: u64, card: &Card) -> (r: bool)
        ensures
            r == card.action.spec_is_valid_for_card(),
            !r ==> *final(self) == *old(self),
            r ==> final(self).all_cards@ == old(self).all_cards@.push(handle),
            r ==> forall|rarity: CardRarity|
                #[trigger] final(self).pool(rarity) == if rarity == card.rarity {
                    old(self).pool(rarity).push(handle)
                } else {
                    old(self).pool(rarity)
                },
            old(self).wf() ==> final(self).wf(),
    {
        if !card.action.is_valid_for_card() {
            return false;
        }
        self.all_cards.push(handle);
        match card.rarity {
            CardRarity::Legendary => self.legendary_cards.push(handle),
            CardRarity::Epic => self.epic_cards.push(handle),
            CardRarity::Rare => self.rare_cards.push(handle),
            CardRarity::Common => self.common_cards.push(handle),
            CardRarity::Never => self.never_shop_cards.push(handle),
        }
        proof {
            if old(self).wf() {
                assert forall|r: CardRarity, i: int|
                    0 <= i < self.pool(r).len() implies self.all_cards@.contains(#[trigger] self.pool(r)[i]) by {
                    if r == card.rarity && i == self.pool(r).len() - 1 {
                        assert(self.all_cards@.last() == handle);
                    } else {
                        assert(self.pool(r)[i] == old(self).pool(r)[i]);
                        assert(old(self).all_cards@.contains(old(self).pool(r)[i]));
                        let k = choose|k: int| 0 <= k < old(self).all_cards@.len() && old(self).all_cards@[k] == old(self).pool(r)[i];
                        assert(self.all_cards@[k] == old(self).all_cards@[k]);
                    }
                }
            }
        }
        true
    }
}

/// The cards a player holds, at most `max_size` of them.
#[derive(Debug, Clone)]
pub struct PlayerCardInventory {
    pub max_size: usize,
    pub cards: Vec<u64>,
}

impl PlayerCardInventory {
    /// Adds a card when there is room for it. Returns whether it was added.
    pub fn add_card_succeeds(&mut self, card: u64) -> (r: bool)
        ensures
            r == (old(self).cards@.len() < old(self).max_size),
            final(self).max_size == old(self).max_size,
            r ==> final(self).cards@ == old(self).cards@.push(card),
            !r ==> final(self).cards@ == old(self).cards@,
            old(self).cards@.len() <= old(self).max_size ==> final(self).cards@.len()
                <= final(self).max_size,
    {
        if self.cards.len() < self.max_size {
            self.cards.push(card);
            true
        } else {
            false
        }
    }
}

/// The inventory every player starts with: room for four cards, holding the
/// two given starter cards.
pub fn initial_inventory(first: u64, second: u64) -> (r: PlayerCardInventory)
    ensures
        r.max_size == 4,
        r.cards@ == seq![first, second],
{
    let mut cards: Vec<u64> = Vec::new();
    cards.push(first);
    cards.push(second);
    proof {
        assert(cards@ =~= seq![first, second]);
    }
    PlayerCardInventory { max_size: 4, cards }
}

/// What came of removing the card whose action was just executed.
#[derive(Debug, Clone, Copy, PartialEq, Eq, Structural)]
pub enum ConsumeOutcome {
    /// There was no current source; nothing was removed.
    NoSource,
    /// The action did not come from a card; nothing was removed.
    NotFromCard,
    /// The index lay outside the inventory; nothing was removed.
    IndexOutOfBounds,
    /// The card was removed from the inventory.
    Consumed,
}

/// After an action played from a card was executed, removes that card.
pub fn consume_card(inventory: &mut PlayerCardInventory, source: Option<ActionSource>) -> (r: ConsumeOutcome)
    ensures
        final(inventory).max_size == old(inventory).max_size,
        match source {
            None => r == ConsumeOutcome::NoSource && final(inventory).cards@ == old(inventory).cards@,
            Some(ActionSource::Card { inventory_index }) => if inventory_index >= old(inventory).cards@.len() {
                r == ConsumeOutcome::IndexOutOfBounds && final(inventory).cards@ == old(inventory).cards@
            } else {
                r == ConsumeOutcome::Consumed && final(inventory).cards@ == old(inventory).cards@.remove(
                    inventory_index as int,
                )
            },
            Some(_) => r == ConsumeOutcome::NotFromCard && final(inventory).cards@ == old(inventory).cards@,
        },
{
    let source = match source {
        None => {
            return ConsumeOutcome::NoSource;
        },
        Some(s) => s,
    };
    let inventory_index = match source {
        ActionSource::Card { inventory_index } => inventory_index,
        _ => {
            return ConsumeOutcome::NotFromCard;
        },
    };
    if inventory_index >= inventory.cards.len() {
        return ConsumeOutcome::IndexOutOfBounds;
    }
    inventory.cards.remove(inventory_index);
    ConsumeOutcome::Consumed
}

} // verus!

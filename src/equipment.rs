//! Equipment slots and the bonuses that equipped items give.
use vstd::prelude::*;
use vstd::string::*;
use crate::colour::{self, SerializableColour};
use crate::message::Messages;
use crate::object::{fits_i32, Object};
use crate::game::Game;
use crate::items::UseResult;

verus! {

/// An item that can be equipped, yielding bonuses.
#[derive(Clone, Copy, Debug, PartialEq, Eq, Structural)]
pub struct Equipment {
    pub slot: Slot,
    pub equipped: bool,
    pub max_hp_bonus: i32,
    pub power_bonus: i32,
    pub defense_bonus: i32,
}

/// Where an item is worn.
#[derive(Clone, Copy, Debug, PartialEq, Eq, Structural)]
pub enum Slot {
    LeftHand,
    RightHand,
    Head,
}

} // verus!

verus! {

/// An equipped item in `slot`.
pub open spec fn equipped_in(o: Object, slot: Slot) -> bool {
    o.equipment matches Some(e) && e.equipped && e.slot == slot
}

/// How many items of the inventory are equipped in `slot`.
pub open spec fn count_equipped(inv: Seq<Object>, slot: Slot) -> nat
    decreases inv.len(),
{
    if inv.len() == 0 {
        0
    } else {
        count_equipped(inv.drop_last(), slot) + if equipped_in(inv.last(), slot) {
            1nat
        } else {
            0nat
        }
    }
}

/// The first index of the inventory holding an item equipped in `slot`.
pub open spec fn first_equipped_in(inv: Seq<Object>, slot: Slot) -> Option<int>
    decreases inv.len(),
{
    if inv.len() == 0 {
        None
    } else {
        match first_equipped_in(inv.drop_last(), slot) {
            Some(i) => Some(i),
            None => if equipped_in(inv.last(), slot) {
                Some(inv.len() - 1)
            } else {
                None
            },
        }
    }
}

/// `first_equipped_in` finds the least index of an item equipped in `slot`.
pub proof fn lemma_first_equipped(inv: Seq<Object>, slot: Slot)
    ensures
        match first_equipped_in(inv, slot) {
            Some(i) => 0 <= i < inv.len() && equipped_in(inv[i], slot) && forall|j: int|
                0 <= j < i ==> !equipped_in(#[trigger] inv[j], slot),
            None => forall|j: int| 0 <= j < inv.len() ==> !equipped_in(#[trigger] inv[j], slot),
        },
    decreases inv.len(),
{
    if inv.len() > 0 {
        let d = inv.drop_last();
        lemma_first_equipped(d, slot);
        assert forall|j: int| 0 <= j < d.len() implies #[trigger] d[j] == inv[j] by {}
        match first_equipped_in(d, slot) {
            Some(i) => {
                assert(first_equipped_in(inv, slot) == Some(i));
                assert(d[i] == inv[i]);
                assert forall|j: int| 0 <= j < i implies !equipped_in(#[trigger] inv[j], slot) by {
                    assert(d[j] == inv[j]);
                }
            },
            None => {
                assert forall|j: int| 0 <= j < d.len() implies !equipped_in(#[trigger] inv[j], slot) by {
                    assert(d[j] == inv[j]);
                }
                assert(inv.last() == inv[inv.len() - 1]);
            },
        }
    }
}

/// The entity after its equipped flag is set to `on`; an entity that is not
/// an item, or not equipment, stays as it is.
pub open spec fn with_equipped(o: Object, on: bool) -> Object {
    match o.equipment {
        Some(e) => if o.item.is_some() {
            Object { equipment: Some(Equipment { equipped: on, ..e }), ..o }
        } else {
            o
        },
        None => o,
    }
}

/// Whether `equip` or `unequip` (for `on` false) logs a message: on a refusal,
/// or when the flag changes.
pub open spec fn equip_logs(o: Object, on: bool) -> bool {
    match o.equipment {
        Some(e) => o.item.is_none() || e.equipped != on,
        None => true,
    }
}

/// The name of a slot as shown to the player.
pub open spec fn slot_text(slot: Slot) -> Seq<char> {
    match slot {
        Slot::LeftHand => "left hand"@,
        Slot::RightHand => "right hand"@,
        Slot::Head => "head"@,
    }
}

/// The messages `equip` (for `on`) or `unequip` logs for `o`: a refusal for
/// an entity that is not an item or not equipment, a notice when the flag
/// changes, nothing otherwise.
pub open spec fn equip_messages(o: Object, on: bool) -> Seq<(Seq<char>, SerializableColour)> {
    let red = SerializableColour { r: 255, g: 0, b: 0 };
    if o.item is None {
        seq![(if on { "Cannot equip "@ } else { "Cannot unequip "@ } + o.name@ + " because it's not an Item."@, red)]
    } else {
        match o.equipment {
            Some(e) => if e.equipped == on {
                Seq::empty()
            } else if on {
                seq![("Equipped "@ + o.name@ + " on "@ + slot_text(e.slot) + "."@, SerializableColour { r: 63, g: 255, b: 63 })]
            } else {
                seq![("Unequiped "@ + o.name@ + " from "@ + slot_text(e.slot) + "."@, SerializableColour { r: 255, g: 255, b: 63 })]
            },
            None => if on {
                seq![("Cannot equip "@ + o.name@ + " because it's not Equipment."@, red)]
            } else {
                seq![("Cannot unequip "@ + o.name@ + " because it's not Equipment"@, red)]
            },
        }
    }
}

/// The name of a slot as shown to the player.
pub fn slot_name(slot: Slot) -> (s: &'static str)
    ensures
        s@ == slot_text(slot),
{
    match slot {
        Slot::LeftHand => "left hand",
        Slot::RightHand => "right hand",
        Slot::Head => "head",
    }
}

impl Object {
    /// Equips this item and logs it; an entity that is not an item, or not
    /// equipment, is left alone with a message.
    pub fn equip(&mut self, messages: &mut Messages)
        ensures
            *final(self) == with_equipped(*old(self), true),
            final(messages)@.len() == old(messages)@.len() + if equip_logs(*old(self), true) { 1int } else { 0 },
            final(messages)@.subrange(0, old(messages)@.len() as int) == old(messages)@,
            final(messages)@ == old(messages)@ + equip_messages(*old(self), true),
    {
        let ghost m0 = messages@;
        if self.item.is_none() {
            let text = String::from_str("Cannot equip ").concat(self.name.as_str()).concat(" because it's not an Item.");
            messages.add(text, colour::red());
            assert(messages@.subrange(0, m0.len() as int) =~= m0);
            assert(messages@ =~= m0 + equip_messages(*old(self), true));
            return;
        }
        match self.equipment {
            Some(e) => {
                if !e.equipped {
                    self.equipment = Some(Equipment { equipped: true, ..e });
                    let text = String::from_str("Equipped ").concat(self.name.as_str()).concat(" on ").concat(
                        slot_name(e.slot),
                    ).concat(".");
                    messages.add(text, colour::light_green());
                    assert(messages@.subrange(0, m0.len() as int) =~= m0);
                assert(messages@ =~= m0 + equip_messages(*old(self), true));
                    assert(messages@ =~= m0 + equip_messages(*old(self), true));
            assert(messages@ =~= m0 + equip_messages(*old(self), true));
                } else {
                    assert(messages@.subrange(0, m0.len() as int) =~= m0);
                assert(messages@ =~= m0 + equip_messages(*old(self), true));
                    assert(messages@ =~= m0 + equip_messages(*old(self), true));
            assert(messages@ =~= m0 + equip_messages(*old(self), true));
                }
            },
            None => {
                let text = String::from_str("Cannot equip ").concat(self.name.as_str()).concat(" because it's not Equipment.");
                messages.add(text, colour::red());
                assert(messages@.subrange(0, m0.len() as int) =~= m0);
                assert(messages@ =~= m0 + equip_messages(*old(self), true));
            assert(messages@ =~= m0 + equip_messages(*old(self), true));
            },
        }
    }

    /// Unequips this item and logs it; an entity that is not an item, or not
    /// equipment, is left alone with a message.
    pub fn unequip(&mut self, messages: &mut Messages)
        ensures
            *final(self) == with_equipped(*old(self), false),
            final(messages)@.len() == old(messages)@.len() + if equip_logs(*old(self), false) { 1int } else { 0 },
            final(messages)@.subrange(0, old(messages)@.len() as int) == old(messages)@,
            final(messages)@ == old(messages)@ + equip_messages(*old(self), false),
    {
        let ghost m0 = messages@;
        if self.item.is_none() {
            let text = String::from_str("Cannot unequip ").concat(self.name.as_str()).concat(" because it's not an Item.");
            messages.add(text, colour::red());
            assert(messages@.subrange(0, m0.len() as int) =~= m0);
            assert(messages@ =~= m0 + equip_messages(*old(self), false));
            return;
        }
        match self.equipment {
            Some(e) => {
                if e.equipped {
                    self.equipment = Some(Equipment { equipped: false, ..e });
                    let text = String::from_str("Unequiped ").concat(self.name.as_str()).concat(" from ").concat(
                        slot_name(e.slot),
                    ).concat(".");
                    messages.add(text, colour::light_yellow());
                    assert(messages@.subrange(0, m0.len() as int) =~= m0);
                assert(messages@ =~= m0 + equip_messages(*old(self), false));
                    assert(messages@ =~= m0 + equip_messages(*old(self), false));
            assert(messages@ =~= m0 + equip_messages(*old(self), false));
                } else {
                    assert(messages@.subrange(0, m0.len() as int) =~= m0);
                assert(messages@ =~= m0 + equip_messages(*old(self), false));
                    assert(messages@ =~= m0 + equip_messages(*old(self), false));
            assert(messages@ =~= m0 + equip_messages(*old(self), false));
                }
            },
            None => {
                let text = String::from_str("Cannot unequip ").concat(self.name.as_str()).concat(" because it's not Equipment");
                messages.add(text, colour::red());
                assert(messages@.subrange(0, m0.len() as int) =~= m0);
                assert(messages@ =~= m0 + equip_messages(*old(self), false));
            assert(messages@ =~= m0 + equip_messages(*old(self), false));
            },
        }
    }
}

/// The index of the first inventory item equipped in `slot`, if any.
pub fn get_equipped_in_slot(slot: Slot, inventory: &Vec<Object>) -> (r: Option<usize>)
    ensures
        r matches Some(i) ==> first_equipped_in(inventory@, slot) == Some(i as int),
        r is None ==> first_equipped_in(inventory@, slot) is None && count_equipped(inventory@, slot) == 0,
{
    proof {
        lemma_first_equipped(inventory@, slot);
    }
    let mut i: usize = 0;
    while i < inventory.len()
        invariant
            i <= inventory@.len(),
            forall|j: int| 0 <= j < i ==> !equipped_in(#[trigger] inventory@[j], slot),
        decreases inventory@.len() - i,
    {
        let found = match &inventory[i].equipment {
            Some(e) => e.equipped && e.slot == slot,
            None => false,
        };
        if found {
            proof {
                lemma_first_equipped(inventory@, slot);
                let k = i as int;
                assert(equipped_in(inventory@[k], slot));
                match first_equipped_in(inventory@, slot) {
                    Some(c) => {
                        if c < k {
                        } else if c > k {
                            assert(!equipped_in(inventory@[k], slot));
                        }
                    },
                    None => {
                        assert(!equipped_in(inventory@[k], slot));
                    },
                }
            }
            return Some(i);
        }
        i = i + 1;
    }
    proof {
        lemma_count_none(inventory@, slot);
    }
    None
}

proof fn lemma_count_none(inv: Seq<Object>, slot: Slot)
    requires
        forall|j: int| 0 <= j < inv.len() ==> !equipped_in(#[trigger] inv[j], slot),
    ensures
        count_equipped(inv, slot) == 0,
    decreases inv.len(),
{
    if inv.len() > 0 {
        assert forall|j: int| 0 <= j < inv.len() - 1 implies !equipped_in(#[trigger] inv.drop_last()[j], slot) by {
            assert(inv.drop_last()[j] == inv[j]);
        }
        lemma_count_none(inv.drop_last(), slot);
        assert(!equipped_in(inv[inv.len() - 1], slot));
    }
}

/// Replacing one entry changes the count by what leaves and what comes in.
pub proof fn lemma_count_update(inv: Seq<Object>, i: int, o: Object, slot: Slot)
    requires
        0 <= i < inv.len(),
    ensures
        count_equipped(inv.update(i, o), slot) + (if equipped_in(inv[i], slot) { 1int } else { 0 }) == count_equipped(inv, slot) + (if equipped_in(o, slot) { 1int } else { 0 }),
    decreases inv.len(),
{
    let u = inv.update(i, o);
    if i == inv.len() - 1 {
        assert(u.drop_last() =~= inv.drop_last());
    } else {
        assert(u.drop_last() =~= inv.drop_last().update(i, o));
        lemma_count_update(inv.drop_last(), i, o, slot);
    }
}

/// The inventory after toggling item `id`: the item equipped in its slot, if
/// any, is unequipped first; then the item's own flag, as it was before, is
/// flipped.
pub open spec fn toggled(inv: Seq<Object>, id: int) -> Seq<Object> {
    let e = inv[id].equipment.unwrap();
    let inv1 = match first_equipped_in(inv, e.slot) {
        Some(c) => inv.update(c, with_equipped(inv[c], false)),
        None => inv,
    };
    inv1.update(id, with_equipped(inv1[id], !e.equipped))
}

/// The messages of a toggle, in order: those of unequipping the item that held
/// the slot, then those of flipping the item's own flag.
pub open spec fn toggle_messages(inv: Seq<Object>, id: int) -> Seq<(Seq<char>, SerializableColour)> {
    let e = inv[id].equipment.unwrap();
    let (inv1, first) = match first_equipped_in(inv, e.slot) {
        Some(c) => (inv.update(c, with_equipped(inv[c], false)), equip_messages(inv[c], false)),
        None => (inv, Seq::empty()),
    };
    first + equip_messages(inv1[id], !e.equipped)
}

/// Equips inventory item `inventory_id` if it is unequipped, first
/// unequipping whatever holds its slot; unequips it if it is equipped. An
/// item that is not equipment is refused.
pub fn toggle_equipment(inventory_id: usize, game: &mut Game) -> (r: UseResult)
    requires
        inventory_id < old(game).inventory@.len(),
    ensures
        final(game).map == old(game).map,
        final(game).dungeon_level == old(game).dungeon_level,
        final(game).messages@.subrange(0, old(game).messages@.len() as int) == old(game).messages@,
        old(game).inventory@[inventory_id as int].equipment is None ==> r == UseResult::Cancelled
            && final(game).inventory@ == old(game).inventory@ && final(game).messages@ == old(game).messages@,
        old(game).inventory@[inventory_id as int].equipment is Some ==> r == UseResult::UsedAndKept
            && final(game).inventory@ == toggled(old(game).inventory@, inventory_id as int)
            && final(game).messages@ == old(game).messages@ + toggle_messages(old(game).inventory@, inventory_id as int),
{
    let equipment = match game.inventory[inventory_id].equipment {
        Some(equipment) => equipment,
        None => return UseResult::Cancelled,
    };
    let ghost m0 = game.messages@;
    proof {
        lemma_first_equipped(game.inventory@, equipment.slot);
    }
    let current = get_equipped_in_slot(equipment.slot, &game.inventory);
    if let Some(current) = current {
        game.inventory[current].unequip(&mut game.messages);
    }
    let ghost m1 = game.messages@;
    assert(m1 == m0 + match first_equipped_in(old(game).inventory@, equipment.slot) {
        Some(c) => equip_messages(old(game).inventory@[c], false),
        None => Seq::empty(),
    }) by {
        if current.is_none() {
            assert(m1 =~= m0 + Seq::<(Seq<char>, SerializableColour)>::empty());
        }
    }
    if equipment.equipped {
        game.inventory[inventory_id].unequip(&mut game.messages);
    } else {
        game.inventory[inventory_id].equip(&mut game.messages);
    }
    assert(game.messages@.subrange(0, m0.len() as int) =~= m1.subrange(0, m0.len() as int));
    assert(game.messages@ =~= m0 + toggle_messages(old(game).inventory@, inventory_id as int));
    UseResult::UsedAndKept
}

/// Any two items equipped in one slot are the same item.
pub open spec fn single_occupancy(inv: Seq<Object>, slot: Slot) -> bool {
    count_equipped(inv, slot) <= 1
}

/// Equipping an unequipped item into a slot that held at most one item leaves
/// exactly one item equipped there: the previous occupant is unequipped first.
pub proof fn lemma_toggle_single_occupancy(inv: Seq<Object>, id: int)
    requires
        0 <= id < inv.len(),
        inv[id].item is Some,
        inv[id].equipment matches Some(e) && !e.equipped,
        single_occupancy(inv, inv[id].equipment.unwrap().slot),
        forall|j: int| 0 <= j < inv.len() && (#[trigger] inv[j]).equipment is Some ==> inv[j].item is Some,
    ensures
        count_equipped(toggled(inv, id), inv[id].equipment.unwrap().slot) == 1,
        equipped_in(toggled(inv, id)[id], inv[id].equipment.unwrap().slot),
{
    let e = inv[id].equipment.unwrap();
    let slot = e.slot;
    let inv1 = match first_equipped_in(inv, slot) {
        Some(c) => inv.update(c, with_equipped(inv[c], false)),
        None => inv,
    };
    lemma_first_equipped(inv, slot);
    match first_equipped_in(inv, slot) {
        Some(c) => {
            lemma_count_update(inv, c, with_equipped(inv[c], false), slot);
            assert(inv[c].item is Some);
            assert(!equipped_in(with_equipped(inv[c], false), slot));
            assert(c != id);
        },
        None => {
            if count_equipped(inv, slot) > 0 {
                lemma_count_positive(inv, slot);
            }
        },
    }
    assert(count_equipped(inv1, slot) == 0);
    assert(inv1[id] == inv[id]);
    lemma_count_update(inv1, id, with_equipped(inv1[id], true), slot);
}

proof fn lemma_count_positive(inv: Seq<Object>, slot: Slot)
    requires
        count_equipped(inv, slot) > 0,
    ensures
        exists|i: int| 0 <= i < inv.len() && equipped_in(#[trigger] inv[i], slot),
    decreases inv.len(),
{
    if equipped_in(inv.last(), slot) {
        assert(equipped_in(inv[inv.len() - 1], slot));
    } else {
        lemma_count_positive(inv.drop_last(), slot);
        let i = choose|i: int| 0 <= i < inv.len() - 1 && equipped_in(#[trigger] inv.drop_last()[i], slot);
        assert(inv[i] == inv.drop_last()[i]);
    }
}

/// Which of an equipment's bonuses is meant.
#[derive(Clone, Copy, Debug, PartialEq, Eq, Structural)]
pub enum Bonus {
    MaxHp,
    Power,
    Defense,
}

/// One bonus of an equipment.
pub open spec fn bonus_of(e: Equipment, kind: Bonus) -> int {
    match kind {
        Bonus::MaxHp => e.max_hp_bonus as int,
        Bonus::Power => e.power_bonus as int,
        Bonus::Defense => e.defense_bonus as int,
    }
}

/// The equipment of every equipped item, in inventory order.
pub open spec fn equipped_items(inv: Seq<Object>) -> Seq<Equipment>
    decreases inv.len(),
{
    if inv.len() == 0 {
        Seq::empty()
    } else {
        let rest = equipped_items(inv.drop_last());
        match inv.last().equipment {
            Some(e) => if e.equipped {
                rest.push(e)
            } else {
                rest
            },
            None => rest,
        }
    }
}

/// Sum of one bonus over a list of equipment.
pub open spec fn bonus_total(es: Seq<Equipment>, kind: Bonus) -> int
    decreases es.len(),
{
    if es.len() == 0 {
        0
    } else {
        bonus_total(es.drop_last(), kind) + bonus_of(es.last(), kind)
    }
}

/// Only the player's inventory counts as worn equipment.
pub open spec fn is_player_name(o: Object) -> bool {
    o.name@ == "player"@
}

/// What an entity wears: the equipped inventory items for the player,
/// nothing for anyone else.
pub open spec fn worn(o: Object, inv: Seq<Object>) -> Seq<Equipment> {
    if is_player_name(o) {
        equipped_items(inv)
    } else {
        Seq::empty()
    }
}

/// The base statistic of the entity's fighter, 0 without one.
pub open spec fn base_stat(o: Object, kind: Bonus) -> int {
    match o.fighter {
        Some(f) => match kind {
            Bonus::MaxHp => f.base_max_hp as int,
            Bonus::Power => f.base_power as int,
            Bonus::Defense => f.base_defense as int,
        },
        None => 0,
    }
}

/// Base statistic plus the bonuses of everything worn.
pub open spec fn stat(o: Object, inv: Seq<Object>, kind: Bonus) -> int {
    base_stat(o, kind) + bonus_total(worn(o, inv), kind)
}

proof fn lemma_equipped_items_len(inv: Seq<Object>)
    ensures
        equipped_items(inv).len() <= inv.len(),
    decreases inv.len(),
{
    if inv.len() > 0 {
        lemma_equipped_items_len(inv.drop_last());
    }
}

/// Sum of one bonus over `es`.
fn sum_bonus(es: &Vec<Equipment>, kind: Bonus) -> (r: i64)
    requires
        es@.len() <= crate::INVENTORY_CAPACITY,
    ensures
        r == bonus_total(es@, kind),
{
    let mut acc: i64 = 0;
    let mut i: usize = 0;
    while i < es.len()
        invariant
            i <= es@.len() <= crate::INVENTORY_CAPACITY,
            acc == bonus_total(es@.subrange(0, i as int), kind),
            -(i as int) * 0x8000_0000 <= acc <= (i as int) * 0x8000_0000,
        decreases es@.len() - i,
    {
        let e = es[i];
        let b: i64 = match kind {
            Bonus::MaxHp => e.max_hp_bonus as i64,
            Bonus::Power => e.power_bonus as i64,
            Bonus::Defense => e.defense_bonus as i64,
        };
        proof {
            assert(es@.subrange(0, i + 1).drop_last() =~= es@.subrange(0, i as int));
            assert(es@.subrange(0, i + 1).last() == e);
            assert(-(i as int) * 0x8000_0000 - 0x8000_0000 == -((i + 1) as int) * 0x8000_0000) by (nonlinear_arith);
            assert((i as int) * 0x8000_0000 + 0x8000_0000 == ((i + 1) as int) * 0x8000_0000) by (nonlinear_arith);
        }
        acc = acc + b;
        i = i + 1;
    }
    assert(es@.subrange(0, es@.len() as int) =~= es@);
    acc
}

impl Object {
    /// Whether this is the player, by name.
    pub fn is_player(&self) -> (r: bool)
        ensures
            r == is_player_name(*self),
    {
        let p = String::from_str("player");
        proof {
            reveal_strlit("player");
        }
        self.name == p
    }

    /// The equipment of every equipped inventory item for the player; nothing
    /// for any other entity.
    pub fn get_all_equipped(&self, game: &Game) -> (r: Vec<Equipment>)
        ensures
            r@ == worn(*self, game.inventory@),
    {
        let mut r: Vec<Equipment> = Vec::new();
        if self.is_player() {
            let mut i: usize = 0;
            while i < game.inventory.len()
                invariant
                    i <= game.inventory@.len(),
                    r@ == equipped_items(game.inventory@.subrange(0, i as int)),
                decreases game.inventory@.len() - i,
            {
                proof {
                    let inv = game.inventory@;
                    assert(inv.subrange(0, i + 1).drop_last() =~= inv.subrange(0, i as int));
                    assert(inv.subrange(0, i + 1).last() == inv[i as int]);
                }
                match game.inventory[i].equipment {
                    Some(e) => {
                        if e.equipped {
                            r.push(e);
                        }
                    },
                    None => {},
                }
                i = i + 1;
            }
            assert(game.inventory@.subrange(0, game.inventory@.len() as int) =~= game.inventory@);
        }
        r
    }

    fn stat_value(&self, game: &Game, kind: Bonus) -> (r: i32)
        requires
            game.inventory@.len() <= crate::INVENTORY_CAPACITY,
            fits_i32(stat(*self, game.inventory@, kind)),
        ensures
            r == stat(*self, game.inventory@, kind),
    {
        let base: i64 = match self.fighter {
            Some(f) => match kind {
                Bonus::MaxHp => f.base_max_hp as i64,
                Bonus::Power => f.base_power as i64,
                Bonus::Defense => f.base_defense as i64,
            },
            None => 0,
        };
        let worn = self.get_all_equipped(game);
        proof {
            lemma_equipped_items_len(game.inventory@);
        }
        let bonus = sum_bonus(&worn, kind);
        (base + bonus) as i32
    }

    /// Maximum hit points: base plus the bonuses of worn equipment.
    pub fn max_hp(&self, game: &Game) -> (r: i32)
        requires
            game.inventory@.len() <= crate::INVENTORY_CAPACITY,
            fits_i32(stat(*self, game.inventory@, Bonus::MaxHp)),
        ensures
            r == stat(*self, game.inventory@, Bonus::MaxHp),
    {
        self.stat_value(game, Bonus::MaxHp)
    }

    /// Attack power: base plus the bonuses of worn equipment.
    pub fn power(&self, game: &Game) -> (r: i32)
        requires
            game.inventory@.len() <= crate::INVENTORY_CAPACITY,
            fits_i32(stat(*self, game.inventory@, Bonus::Power)),
        ensures
            r == stat(*self, game.inventory@, Bonus::Power),
    {
        self.stat_value(game, Bonus::Power)
    }

    /// Defense: base plus the bonuses of worn equipment.
    pub fn defense(&self, game: &Game) -> (r: i32)
        requires
            game.inventory@.len() <= crate::INVENTORY_CAPACITY,
            fits_i32(stat(*self, game.inventory@, Bonus::Defense)),
        ensures
            r == stat(*self, game.inventory@, Bonus::Defense),
    {
        self.stat_value(game, Bonus::Defense)
    }
}

} // verus!

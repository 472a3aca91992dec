//! Events of a frame that clients are told about, and the bytes that tell
//! each team of those it may see.
use crate::data::aliases::{client_message_code, ClientMessage};
use crate::data::uid_types::{OrderID, USizeWrapper, UnitID};
use crate::data::units::UnitTarget;
use crate::libs::big_endian::{be16_bytes, push_u16_be};
use vstd::prelude::*;

verus! {

/// A unit struck in melee.
#[derive(Clone, Copy)]
pub struct MeleeSmack {
    pub id: UnitID,
}

/// A unit that died, and the number of the kind of damage that killed it.
#[derive(Clone, Copy)]
pub struct UnitDeath {
    pub id: UnitID,
    pub damage_type: u8,
}

/// A unit that finished one of its orders.
#[derive(Clone, Copy)]
pub struct OrderCompleted {
    pub unit_target: UnitTarget,
    pub order_id: OrderID,
}


/// The deaths, melee strikes and completed orders of a frame, in the order
/// they happened.
pub struct Logger {
    pub unit_deaths: Vec<UnitDeath>,
    pub melee_smacks: Vec<MeleeSmack>,
    pub orders_completed: Vec<OrderCompleted>,
}

impl Logger {
    /// Nothing logged.
    pub fn new() -> (r: Logger)
        ensures
            r.unit_deaths@ == Seq::<UnitDeath>::empty(),
            r.melee_smacks@ == Seq::<MeleeSmack>::empty(),
            r.orders_completed@ == Seq::<OrderCompleted>::empty(),
    {
        Logger { unit_deaths: Vec::new(), melee_smacks: Vec::new(), orders_completed: Vec::new() }
    }

    /// Logs that the unit `unit` finished the order `order_id`.
    pub fn log_order_completed(&mut self, unit: UnitTarget, order_id: OrderID)
        ensures
            final(self).orders_completed@ == old(self).orders_completed@.push(
                OrderCompleted { unit_target: unit, order_id: order_id },
            ),
            final(self).unit_deaths@ == old(self).unit_deaths@,
            final(self).melee_smacks@ == old(self).melee_smacks@,
    {
        self.orders_completed.push(OrderCompleted { unit_target: unit, order_id: order_id });
    }

    /// Logs that the unit `id` died of damage of kind `damage_type`.
    pub fn log_unit_death(&mut self, id: UnitID, damage_type: u8)
        ensures
            final(self).unit_deaths@ == old(self).unit_deaths@.push(
                UnitDeath { id: id, damage_type: damage_type },
            ),
            final(self).orders_completed@ == old(self).orders_completed@,
            final(self).melee_smacks@ == old(self).melee_smacks@,
    {
        self.unit_deaths.push(UnitDeath { id: id, damage_type: damage_type });
    }

    /// Forgets everything logged.
    pub fn clear(&mut self)
        ensures
            final(self).unit_deaths@ == Seq::<UnitDeath>::empty(),
            final(self).melee_smacks@ == Seq::<MeleeSmack>::empty(),
            final(self).orders_completed@ == Seq::<OrderCompleted>::empty(),
    {
        self.unit_deaths.clear();
        self.melee_smacks.clear();
        self.orders_completed.clear();
    }
}

/// The message that tells of one death: its kind, the unit id in two bytes
/// (the low sixteen bits of the id) and the kind of damage.
pub open spec fn death_bytes(d: UnitDeath) -> Seq<u8> {
    seq![client_message_code(ClientMessage::UnitDeath) as u8] + be16_bytes(
        (d.id.id_value() as u16) as int,
    ) + seq![d.damage_type]
}

/// The messages that tell a team of the deaths it sees, in order.
pub open spec fn deaths_bytes(deaths: Seq<UnitDeath>, visible: Seq<bool>) -> Seq<u8>
    decreases deaths.len(),
{
    if deaths.len() == 0 {
        Seq::empty()
    } else {
        deaths_bytes(deaths.drop_last(), visible) + if visible[deaths.last().id.id_value() as int] {
            death_bytes(deaths.last())
        } else {
            Seq::empty()
        }
    }
}

/// Appends to `out` the messages that tell a team of the deaths it sees;
/// `visible` says, by unit id, which units the team sees.
pub fn encode_unit_deaths(deaths: &[UnitDeath], visible: &[bool], out: &mut Vec<u8>)
    requires
        forall|k: int| 0 <= k < deaths@.len() ==> deaths@[k].id.id_value() < visible@.len(),
    ensures
        final(out)@ == old(out)@ + deaths_bytes(deaths@, visible@),
{
    let mut i: usize = 0;
    assert(deaths@.take(0) =~= Seq::<UnitDeath>::empty());
    assert(old(out)@ + Seq::<u8>::empty() =~= old(out)@);
    while i < deaths.len()
        invariant
            i <= deaths@.len(),
            forall|k: int| 0 <= k < deaths@.len() ==> deaths@[k].id.id_value() < visible@.len(),
            out@ == old(out)@ + deaths_bytes(deaths@.take(i as int), visible@),
        decreases deaths@.len() - i,
    {
        let death = deaths[i];
        let ghost before = out@;
        assert(deaths@.take(i + 1).drop_last() =~= deaths@.take(i as int));
        assert(deaths@.take(i + 1).last() == death);
        let ix = death.id.usize_unwrap();
        if visible[ix] {
            out.push(ClientMessage::UnitDeath.code());
            push_u16_be(out, ix as u16);
            out.push(death.damage_type);
            assert(out@ =~= before + death_bytes(death));
        } else {
            assert(out@ =~= before + Seq::<u8>::empty());
        }
        assert(out@ =~= old(out)@ + deaths_bytes(deaths@.take(i + 1), visible@));
        i = i + 1;
    }
    assert(deaths@.take(i as int) =~= deaths@);
}

/// The unit a completed order speaks of, if it is still the unit the order
/// was given to: `souls` gives, by unit id, the soul each id now holds.
pub open spec fn completed_unit(c: OrderCompleted, souls: Seq<usize>) -> Option<UnitID> {
    if souls[c.unit_target.unit().id_value() as int] == c.unit_target.soul() {
        Some(c.unit_target.unit())
    } else {
        None
    }
}

/// The message that tells of one completed order: its kind, the unit id and
/// the order id, each in two bytes (their low sixteen bits).
pub open spec fn completed_bytes(c: OrderCompleted) -> Seq<u8> {
    seq![client_message_code(ClientMessage::OrderCompleted) as u8] + be16_bytes(
        (c.unit_target.unit().id_value() as u16) as int,
    ) + be16_bytes((c.order_id.id_value() as u16) as int)
}

/// The messages that tell team `team` of its units' completed orders, in
/// order; `unit_teams` gives, by unit id, the team of each unit.
pub open spec fn completions_bytes(
    completed: Seq<OrderCompleted>,
    souls: Seq<usize>,
    unit_teams: Seq<usize>,
    team: usize,
) -> Seq<u8>
    decreases completed.len(),
{
    if completed.len() == 0 {
        Seq::empty()
    } else {
        let c = completed.last();
        completions_bytes(completed.drop_last(), souls, unit_teams, team) + match completed_unit(
            c,
            souls,
        ) {
            Some(u) => if unit_teams[u.id_value() as int] == team {
                completed_bytes(c)
            } else {
                Seq::empty()
            },
            None => Seq::empty(),
        }
    }
}

/// Appends to `out` the messages that tell team `team` of its units'
/// completed orders. A completion whose unit has since died (its id holds
/// another soul) is left out.
pub fn encode_order_completed(
    completed: &[OrderCompleted],
    souls: &[usize],
    unit_teams: &[usize],
    team: usize,
    out: &mut Vec<u8>,
)
    requires
        forall|k: int|
            0 <= k < completed@.len() ==> completed@[k].unit_target.unit().id_value()
                < souls@.len() && completed@[k].unit_target.unit().id_value() < unit_teams@.len(),
    ensures
        final(out)@ == old(out)@ + completions_bytes(completed@, souls@, unit_teams@, team),
{
    let mut i: usize = 0;
    assert(completed@.take(0) =~= Seq::<OrderCompleted>::empty());
    assert(old(out)@ + Seq::<u8>::empty() =~= old(out)@);
    while i < completed.len()
        invariant
            i <= completed@.len(),
            forall|k: int|
                0 <= k < completed@.len() ==> completed@[k].unit_target.unit().id_value()
                    < souls@.len() && completed@[k].unit_target.unit().id_value()
                    < unit_teams@.len(),
            out@ == old(out)@ + completions_bytes(completed@.take(i as int), souls@, unit_teams@, team),
        decreases completed@.len() - i,
    {
        let c = completed[i];
        let ghost before = out@;
        assert(completed@.take(i + 1).drop_last() =~= completed@.take(i as int));
        assert(completed@.take(i + 1).last() == c);
        let ix = c.unit_target.unit_id().usize_unwrap();
        match c.unit_target.id_if_soul(souls[ix]) {
            Some(unit_id) => {
                if unit_teams[ix] == team {
                    out.push(ClientMessage::OrderCompleted.code());
                    push_u16_be(out, unit_id.usize_unwrap() as u16);
                    push_u16_be(out, c.order_id.usize_unwrap() as u16);
                    assert(out@ =~= before + completed_bytes(c));
                } else {
                    assert(out@ =~= before + Seq::<u8>::empty());
                }
            },
            None => {
                assert(out@ =~= before + Seq::<u8>::empty());
            },
        }
        assert(out@ =~= old(out)@ + completions_bytes(completed@.take(i + 1), souls@, unit_teams@, team));
        i = i + 1;
    }
    assert(completed@.take(i as int) =~= completed@);
}

} // verus!

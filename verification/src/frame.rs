//! The entity decoder: the recursive, length-prefixed token grammar that
//! turns one frame body into typed game-state records.
//!
//! ```text
//! Frame      := Units Actions Resources Bullets reward:int terminal:int
//! Units      := n_players:int (player_id:int n_units:int Unit{n_units})*
//! Unit       := id coords{2} health max_health shield max_shield energy
//!               max_cd ground_cd air_cd idle:int visible:int type armor
//!               shield_armor size pixel_coords{2} pixel_size{2}
//!               ground_atk air_atk ground_dmg_type air_dmg_type
//!               ground_range air_range n_orders:int Order{n_orders}
//!               velocity{2}:float player_id resources
//! Order      := first_frame type target_id target_coords{2}
//! Actions    := n_players:int (player_id:int n_actions:int Action{n_actions})*
//! Action     := uid aid size:int action{size}:int
//! Resources  := n_players:int (player_id:int Resources_rec)*
//! Resources_rec := ore gas used_psi total_psi
//! Bullets    := n_bullets:int Bullet{n_bullets}
//! Bullet     := type coords{2}
//! ```
//!
//! Every repeat count is read as a signed integer and validated before its
//! loop runs: a negative count is a hard failure, never clamped to zero.
//! Wire integers become booleans by the `> 0` rule, so negative sentinel
//! values read as false.  A player id declared twice within one section is
//! a hard failure: the per-player maps hold at most one entry per id.

use vstd::prelude::*;
use crate::error::DecodeError;
use crate::tokens::{TokenReader, dec_float, dec_int, read_float, read_int, tokens_of};
use crate::codec::inner;

verus! {

/// One order a unit is carrying out.
#[derive(Clone, Copy, Debug)]
pub struct Order {
    /// First frame number where the order appeared.
    pub first_frame: i32,
    pub type_: i32,
    pub target_id: i32,
    pub target_coords: (i32, i32),
}

/// Two orders are the same command: the frame they first appeared on does
/// not distinguish them.
impl PartialEq for Order {
    fn eq(&self, other: &Order) -> (r: bool) {
        self.type_ == other.type_ && self.target_id == other.target_id && self.target_coords.0
            == other.target_coords.0 && self.target_coords.1 == other.target_coords.1
    }
}

impl vstd::std_specs::cmp::PartialEqSpecImpl for Order {
    open spec fn obeys_eq_spec() -> bool {
        true
    }

    open spec fn eq_spec(&self, other: &Order) -> bool {
        self.type_ == other.type_ && self.target_id == other.target_id && self.target_coords
            == other.target_coords
    }
}

/// One unit of one player in one frame.  The `detected` and `lifted`
/// flags are declared in the record but absent from the wire grammar:
/// they always hold their default value, false.  The velocity pair keeps
/// the wire spelling of its two float tokens.
#[derive(Debug)]
pub struct Unit {
    pub id: i32,
    pub coords: (i32, i32),
    pub health: i32,
    pub max_health: i32,
    pub shield: i32,
    pub max_shield: i32,
    pub energy: i32,
    pub max_cd: i32,
    pub ground_cd: i32,
    pub air_cd: i32,
    pub idle: bool,
    pub detected: bool,
    pub lifted: bool,
    pub visible: bool,
    pub type_: i32,
    pub armor: i32,
    pub shield_armor: i32,
    pub size: i32,
    pub pixel_coords: (i32, i32),
    pub pixel_size: (i32, i32),
    pub ground_atk: i32,
    pub air_atk: i32,
    pub ground_dmg_type: i32,
    pub air_dmg_type: i32,
    pub ground_range: i32,
    pub air_range: i32,
    pub orders: Vec<Order>,
    pub velocity: (Vec<u8>, Vec<u8>),
    pub player_id: i32,
    pub resources: i32,
}

/// The mathematical value of a [`Unit`].
#[verifier::ext_equal]
pub ghost struct UnitV {
    pub id: i32,
    pub coords: (i32, i32),
    pub health: i32,
    pub max_health: i32,
    pub shield: i32,
    pub max_shield: i32,
    pub energy: i32,
    pub max_cd: i32,
    pub ground_cd: i32,
    pub air_cd: i32,
    pub idle: bool,
    pub detected: bool,
    pub lifted: bool,
    pub visible: bool,
    pub type_: i32,
    pub armor: i32,
    pub shield_armor: i32,
    pub size: i32,
    pub pixel_coords: (i32, i32),
    pub pixel_size: (i32, i32),
    pub ground_atk: i32,
    pub air_atk: i32,
    pub ground_dmg_type: i32,
    pub air_dmg_type: i32,
    pub ground_range: i32,
    pub air_range: i32,
    pub orders: Seq<Order>,
    pub velocity: (Seq<u8>, Seq<u8>),
    pub player_id: i32,
    pub resources: i32,
}

impl View for Unit {
    type V = UnitV;

    open spec fn view(&self) -> UnitV {
        UnitV {
            id: self.id,
            coords: self.coords,
            health: self.health,
            max_health: self.max_health,
            shield: self.shield,
            max_shield: self.max_shield,
            energy: self.energy,
            max_cd: self.max_cd,
            ground_cd: self.ground_cd,
            air_cd: self.air_cd,
            idle: self.idle,
            detected: self.detected,
            lifted: self.lifted,
            visible: self.visible,
            type_: self.type_,
            armor: self.armor,
            shield_armor: self.shield_armor,
            size: self.size,
            pixel_coords: self.pixel_coords,
            pixel_size: self.pixel_size,
            ground_atk: self.ground_atk,
            air_atk: self.air_atk,
            ground_dmg_type: self.ground_dmg_type,
            air_dmg_type: self.air_dmg_type,
            ground_range: self.ground_range,
            air_range: self.air_range,
            orders: self.orders@,
            velocity: (self.velocity.0@, self.velocity.1@),
            player_id: self.player_id,
            resources: self.resources,
        }
    }
}

/// One player's resource record in one frame.
#[derive(Clone, Copy, Debug, PartialEq, Eq, Structural)]
pub struct Resources {
    pub ore: i32,
    pub gas: i32,
    pub used_psi: i32,
    pub total_psi: i32,
}

/// One bullet in flight in one frame.
#[derive(Clone, Copy, Debug)]
pub struct Bullet {
    pub type_: i32,
    pub coords: (i32, i32),
}

/// One queued command of one player, with a server-declared payload
/// length.
#[derive(Debug)]
pub struct Action {
    pub action: Vec<i32>,
    pub uid: i32,
    pub aid: i32,
}

/// The mathematical value of an [`Action`].
#[verifier::ext_equal]
pub ghost struct ActionV {
    pub action: Seq<i32>,
    pub uid: i32,
    pub aid: i32,
}

impl View for Action {
    type V = ActionV;

    open spec fn view(&self) -> ActionV {
        ActionV { action: self.action@, uid: self.uid, aid: self.aid }
    }
}

/// One decoded server tick: per-player unit lists, per-player action
/// lists, per-player resources, a flat bullet list, a scalar reward and a
/// terminal flag.  Each per-player section holds at most one entry per
/// player id, in wire order.
#[derive(Debug)]
pub struct Frame {
    pub units: Vec<(i32, Vec<Unit>)>,
    pub actions: Vec<(i32, Vec<Action>)>,
    pub resources: Vec<(i32, Resources)>,
    pub bullets: Vec<Bullet>,
    pub reward: i32,
    pub is_terminal: bool,
}

/// The mathematical value of a [`Frame`].
#[verifier::ext_equal]
pub ghost struct FrameV {
    pub units: Seq<(i32, Seq<UnitV>)>,
    pub actions: Seq<(i32, Seq<ActionV>)>,
    pub resources: Seq<(i32, Resources)>,
    pub bullets: Seq<Bullet>,
    pub reward: i32,
    pub is_terminal: bool,
}

/// The mathematical value of a per-player unit section.
pub open spec fn units_view(v: Seq<(i32, Vec<Unit>)>) -> Seq<(i32, Seq<UnitV>)> {
    v.map_values(|g: (i32, Vec<Unit>)| (g.0, g.1@.map_values(|u: Unit| u@)))
}

/// The mathematical value of a per-player action section.
pub open spec fn actions_view(v: Seq<(i32, Vec<Action>)>) -> Seq<(i32, Seq<ActionV>)> {
    v.map_values(|g: (i32, Vec<Action>)| (g.0, g.1@.map_values(|a: Action| a@)))
}

impl View for Frame {
    type V = FrameV;

    open spec fn view(&self) -> FrameV {
        FrameV {
            units: units_view(self.units@),
            actions: actions_view(self.actions@),
            resources: self.resources@,
            bullets: self.bullets@,
            reward: self.reward,
            is_terminal: self.is_terminal,
        }
    }
}

impl Default for Frame {
    /// The frame a session starts from: no players, no bullets, reward
    /// zero, not terminal.
    fn default() -> (r: Frame)
        ensures
            r@.units.len() == 0,
            r@.actions.len() == 0,
            r@.resources.len() == 0,
            r@.bullets.len() == 0,
            r@.reward == 0,
            !r@.is_terminal,
    {
        let r = Frame {
            units: Vec::new(),
            actions: Vec::new(),
            resources: Vec::new(),
            bullets: Vec::new(),
            reward: 0,
            is_terminal: false,
        };
        proof {
            assert(r@.units =~= Seq::<(i32, Seq<UnitV>)>::empty());
            assert(r@.actions =~= Seq::<(i32, Seq<ActionV>)>::empty());
            assert(r@.resources =~= Seq::<(i32, Resources)>::empty());
        }
        r
    }
}

// ---------------------------------------------------------------------
// The grammar itself, as spec functions over token streams.  Each one
// states what a successful read returns and which tokens it leaves, or
// which error it reports; the executable decoders below are proved
// against them.
// ---------------------------------------------------------------------

/// Reads `n` integers.
pub open spec fn dec_ints(n: int, t: Seq<Seq<u8>>) -> Result<(Seq<i32>, Seq<Seq<u8>>), DecodeError>
    decreases n,
{
    if n <= 0 {
        Ok((Seq::empty(), t))
    } else {
        match dec_int(t) {
            Err(e) => Err(e),
            Ok((v, t1)) => match dec_ints(n - 1, t1) {
                Err(e) => Err(e),
                Ok((vs, t2)) => Ok((seq![v] + vs, t2)),
            },
        }
    }
}

/// Reads one order: first frame, type, target id, target coordinates.
pub open spec fn dec_order(t: Seq<Seq<u8>>) -> Result<(Order, Seq<Seq<u8>>), DecodeError> {
    match dec_ints(5, t) {
        Err(e) => Err(e),
        Ok((h, t1)) => Ok(
            (
                Order {
                    first_frame: h[0],
                    type_: h[1],
                    target_id: h[2],
                    target_coords: (h[3], h[4]),
                },
                t1,
            ),
        ),
    }
}

/// Reads `n` orders.
pub open spec fn dec_orders(n: int, t: Seq<Seq<u8>>) -> Result<
    (Seq<Order>, Seq<Seq<u8>>),
    DecodeError,
>
    decreases n,
{
    if n <= 0 {
        Ok((Seq::empty(), t))
    } else {
        match dec_order(t) {
            Err(e) => Err(e),
            Ok((o, t1)) => match dec_orders(n - 1, t1) {
                Err(e) => Err(e),
                Ok((os, t2)) => Ok((seq![o] + os, t2)),
            },
        }
    }
}

/// A unit record assembled from its 27 leading integer fields, its
/// orders, its velocity tokens and its two trailing integers.
pub open spec fn unit_from_fields(
    h: Seq<i32>,
    orders: Seq<Order>,
    vx: Seq<u8>,
    vy: Seq<u8>,
    player_id: i32,
    resources: i32,
) -> UnitV {
    UnitV {
        id: h[0],
        coords: (h[1], h[2]),
        health: h[3],
        max_health: h[4],
        shield: h[5],
        max_shield: h[6],
        energy: h[7],
        max_cd: h[8],
        ground_cd: h[9],
        air_cd: h[10],
        idle: h[11] > 0,
        visible: h[12] > 0,
        detected: false,
        lifted: false,
        type_: h[13],
        armor: h[14],
        shield_armor: h[15],
        size: h[16],
        pixel_coords: (h[17], h[18]),
        pixel_size: (h[19], h[20]),
        ground_atk: h[21],
        air_atk: h[22],
        ground_dmg_type: h[23],
        air_dmg_type: h[24],
        ground_range: h[25],
        air_range: h[26],
        orders: orders,
        velocity: (vx, vy),
        player_id: player_id,
        resources: resources,
    }
}

/// Reads one unit: 27 integer fields, a counted order list, two float
/// velocity tokens, the owning player and carried resources.
pub open spec fn dec_unit(t: Seq<Seq<u8>>) -> Result<(UnitV, Seq<Seq<u8>>), DecodeError> {
    match dec_ints(27, t) {
        Err(e) => Err(e),
        Ok((h, t1)) => match dec_int(t1) {
            Err(e) => Err(e),
            Ok((n_orders, t2)) => if n_orders < 0 {
                Err(DecodeError::NegativeLength)
            } else {
                match dec_orders(n_orders as int, t2) {
                    Err(e) => Err(e),
                    Ok((os, t3)) => match dec_float(t3) {
                        Err(e) => Err(e),
                        Ok((vx, t4)) => match dec_float(t4) {
                            Err(e) => Err(e),
                            Ok((vy, t5)) => match dec_int(t5) {
                                Err(e) => Err(e),
                                Ok((player_id, t6)) => match dec_int(t6) {
                                    Err(e) => Err(e),
                                    Ok((resources, t7)) => Ok(
                                        (
                                            unit_from_fields(h, os, vx, vy, player_id, resources),
                                            t7,
                                        ),
                                    ),
                                },
                            },
                        },
                    },
                }
            },
        },
    }
}

/// Reads `n` units.
pub open spec fn dec_units(n: int, t: Seq<Seq<u8>>) -> Result<
    (Seq<UnitV>, Seq<Seq<u8>>),
    DecodeError,
>
    decreases n,
{
    if n <= 0 {
        Ok((Seq::empty(), t))
    } else {
        match dec_unit(t) {
            Err(e) => Err(e),
            Ok((u, t1)) => match dec_units(n - 1, t1) {
                Err(e) => Err(e),
                Ok((us, t2)) => Ok((seq![u] + us, t2)),
            },
        }
    }
}

/// Reads one action: uid, aid, then a payload of declared length.
pub open spec fn dec_action(t: Seq<Seq<u8>>) -> Result<(ActionV, Seq<Seq<u8>>), DecodeError> {
    match dec_int(t) {
        Err(e) => Err(e),
        Ok((uid, t1)) => match dec_int(t1) {
            Err(e) => Err(e),
            Ok((aid, t2)) => match dec_int(t2) {
                Err(e) => Err(e),
                Ok((size, t3)) => if size < 0 {
                    Err(DecodeError::NegativeLength)
                } else {
                    match dec_ints(size as int, t3) {
                        Err(e) => Err(e),
                        Ok((vals, t4)) => Ok((ActionV { action: vals, uid: uid, aid: aid }, t4)),
                    }
                },
            },
        },
    }
}

/// Reads `n` actions.
pub open spec fn dec_actions(n: int, t: Seq<Seq<u8>>) -> Result<
    (Seq<ActionV>, Seq<Seq<u8>>),
    DecodeError,
>
    decreases n,
{
    if n <= 0 {
        Ok((Seq::empty(), t))
    } else {
        match dec_action(t) {
            Err(e) => Err(e),
            Ok((a, t1)) => match dec_actions(n - 1, t1) {
                Err(e) => Err(e),
                Ok((xs, t2)) => Ok((seq![a] + xs, t2)),
            },
        }
    }
}

/// Reads one resource record: ore, gas, used and total psi.
pub open spec fn dec_resources_rec(t: Seq<Seq<u8>>) -> Result<
    (Resources, Seq<Seq<u8>>),
    DecodeError,
> {
    match dec_ints(4, t) {
        Err(e) => Err(e),
        Ok((h, t1)) => Ok((Resources { ore: h[0], gas: h[1], used_psi: h[2], total_psi: h[3] }, t1)),
    }
}

/// Reads one bullet: type and coordinates.
pub open spec fn dec_bullet(t: Seq<Seq<u8>>) -> Result<(Bullet, Seq<Seq<u8>>), DecodeError> {
    match dec_ints(3, t) {
        Err(e) => Err(e),
        Ok((h, t1)) => Ok((Bullet { type_: h[0], coords: (h[1], h[2]) }, t1)),
    }
}

/// Reads `n` bullets.
pub open spec fn dec_bullets(n: int, t: Seq<Seq<u8>>) -> Result<
    (Seq<Bullet>, Seq<Seq<u8>>),
    DecodeError,
>
    decreases n,
{
    if n <= 0 {
        Ok((Seq::empty(), t))
    } else {
        match dec_bullet(t) {
            Err(e) => Err(e),
            Ok((b, t1)) => match dec_bullets(n - 1, t1) {
                Err(e) => Err(e),
                Ok((bs, t2)) => Ok((seq![b] + bs, t2)),
            },
        }
    }
}

/// The player ids already holding an entry in a per-player section.
pub open spec fn group_keys<T>(gs: Seq<(i32, T)>) -> Seq<i32> {
    gs.map_values(|g: (i32, T)| g.0)
}

/// Reads `n` per-player unit groups.  A player id among `seen`, or
/// repeated within the groups, is a hard failure; a negative unit count
/// is a hard failure.
pub open spec fn dec_unit_groups(n: int, seen: Seq<i32>, t: Seq<Seq<u8>>) -> Result<
    (Seq<(i32, Seq<UnitV>)>, Seq<Seq<u8>>),
    DecodeError,
>
    decreases n,
{
    if n <= 0 {
        Ok((Seq::empty(), t))
    } else {
        match dec_int(t) {
            Err(e) => Err(e),
            Ok((pid, t1)) => if seen.contains(pid) {
                Err(DecodeError::DuplicatePlayer)
            } else {
                match dec_int(t1) {
                    Err(e) => Err(e),
                    Ok((nu, t2)) => if nu < 0 {
                        Err(DecodeError::NegativeLength)
                    } else {
                        match dec_units(nu as int, t2) {
                            Err(e) => Err(e),
                            Ok((us, t3)) => match dec_unit_groups(n - 1, seen.push(pid), t3) {
                                Err(e) => Err(e),
                                Ok((gs, t4)) => Ok((seq![(pid, us)] + gs, t4)),
                            },
                        }
                    },
                }
            },
        }
    }
}

/// Reads `n` per-player action groups, under the same id and count rules
/// as the unit groups.
pub open spec fn dec_action_groups(n: int, seen: Seq<i32>, t: Seq<Seq<u8>>) -> Result<
    (Seq<(i32, Seq<ActionV>)>, Seq<Seq<u8>>),
    DecodeError,
>
    decreases n,
{
    if n <= 0 {
        Ok((Seq::empty(), t))
    } else {
        match dec_int(t) {
            Err(e) => Err(e),
            Ok((pid, t1)) => if seen.contains(pid) {
                Err(DecodeError::DuplicatePlayer)
            } else {
                match dec_int(t1) {
                    Err(e) => Err(e),
                    Ok((na, t2)) => if na < 0 {
                        Err(DecodeError::NegativeLength)
                    } else {
                        match dec_actions(na as int, t2) {
                            Err(e) => Err(e),
                            Ok((xs, t3)) => match dec_action_groups(n - 1, seen.push(pid), t3) {
                                Err(e) => Err(e),
                                Ok((gs, t4)) => Ok((seq![(pid, xs)] + gs, t4)),
                            },
                        }
                    },
                }
            },
        }
    }
}

/// Reads `n` per-player resource records, one record per player id.
pub open spec fn dec_resource_groups(n: int, seen: Seq<i32>, t: Seq<Seq<u8>>) -> Result<
    (Seq<(i32, Resources)>, Seq<Seq<u8>>),
    DecodeError,
>
    decreases n,
{
    if n <= 0 {
        Ok((Seq::empty(), t))
    } else {
        match dec_int(t) {
            Err(e) => Err(e),
            Ok((pid, t1)) => if seen.contains(pid) {
                Err(DecodeError::DuplicatePlayer)
            } else {
                match dec_resources_rec(t1) {
                    Err(e) => Err(e),
                    Ok((rec, t2)) => match dec_resource_groups(n - 1, seen.push(pid), t2) {
                        Err(e) => Err(e),
                        Ok((gs, t3)) => Ok((seq![(pid, rec)] + gs, t3)),
                    },
                }
            },
        }
    }
}

/// The units section: a player count, then that many unit groups.
pub open spec fn dec_units_section(t: Seq<Seq<u8>>) -> Result<
    (Seq<(i32, Seq<UnitV>)>, Seq<Seq<u8>>),
    DecodeError,
> {
    match dec_int(t) {
        Err(e) => Err(e),
        Ok((np, t1)) => if np < 0 {
            Err(DecodeError::NegativeLength)
        } else {
            dec_unit_groups(np as int, Seq::empty(), t1)
        },
    }
}

/// The actions section: a player count, then that many action groups.
pub open spec fn dec_actions_section(t: Seq<Seq<u8>>) -> Result<
    (Seq<(i32, Seq<ActionV>)>, Seq<Seq<u8>>),
    DecodeError,
> {
    match dec_int(t) {
        Err(e) => Err(e),
        Ok((np, t1)) => if np < 0 {
            Err(DecodeError::NegativeLength)
        } else {
            dec_action_groups(np as int, Seq::empty(), t1)
        },
    }
}

/// The resources section: a player count, then that many records.
pub open spec fn dec_resources_section(t: Seq<Seq<u8>>) -> Result<
    (Seq<(i32, Resources)>, Seq<Seq<u8>>),
    DecodeError,
> {
    match dec_int(t) {
        Err(e) => Err(e),
        Ok((np, t1)) => if np < 0 {
            Err(DecodeError::NegativeLength)
        } else {
            dec_resource_groups(np as int, Seq::empty(), t1)
        },
    }
}

/// The bullets section: a bullet count, then that many bullets.
pub open spec fn dec_bullets_section(t: Seq<Seq<u8>>) -> Result<
    (Seq<Bullet>, Seq<Seq<u8>>),
    DecodeError,
> {
    match dec_int(t) {
        Err(e) => Err(e),
        Ok((nb, t1)) => if nb < 0 {
            Err(DecodeError::NegativeLength)
        } else {
            dec_bullets(nb as int, t1)
        },
    }
}

/// Reads one whole frame body: the four sections, the reward, and the
/// terminal flag (by the `> 0` rule).  Tokens past the frame are left
/// unread.
pub open spec fn dec_frame(t: Seq<Seq<u8>>) -> Result<(FrameV, Seq<Seq<u8>>), DecodeError> {
    match dec_units_section(t) {
        Err(e) => Err(e),
        Ok((units, t1)) => match dec_actions_section(t1) {
            Err(e) => Err(e),
            Ok((actions, t2)) => match dec_resources_section(t2) {
                Err(e) => Err(e),
                Ok((resources, t3)) => match dec_bullets_section(t3) {
                    Err(e) => Err(e),
                    Ok((bullets, t4)) => match dec_int(t4) {
                        Err(e) => Err(e),
                        Ok((reward, t5)) => match dec_int(t5) {
                            Err(e) => Err(e),
                            Ok((term, t6)) => Ok(
                                (
                                    FrameV {
                                        units: units,
                                        actions: actions,
                                        resources: resources,
                                        bullets: bullets,
                                        reward: reward,
                                        is_terminal: term > 0,
                                    },
                                    t6,
                                ),
                            ),
                        },
                    },
                },
            },
        },
    }
}

// ---------------------------------------------------------------------
// Executable decoders, each proved against its grammar function.
// ---------------------------------------------------------------------

/// Reads `n` integers off the stream.
pub fn read_ints(r: &mut TokenReader, n: usize) -> (res: Result<Vec<i32>, DecodeError>)
    ensures
        match res {
            Ok(vs) => vs@.len() == n && dec_ints(n as int, old(r)@) == Ok::<
                (Seq<i32>, Seq<Seq<u8>>),
                DecodeError,
            >((vs@, final(r)@)),
            Err(e) => dec_ints(n as int, old(r)@) == Err::<(Seq<i32>, Seq<Seq<u8>>), DecodeError>(
                e,
            ),
        },
{
    let mut out: Vec<i32> = Vec::new();
    let mut i: usize = 0;
    proof {
        assert(out@ + dec_ints((n - i) as int, r@)->Ok_0.0 =~= dec_ints(
            (n - i) as int,
            r@,
        )->Ok_0.0);
    }
    while i < n
        invariant
            0 <= i <= n,
            out@.len() == i,
            match dec_ints((n - i) as int, r@) {
                Ok((vs, t)) => dec_ints(n as int, old(r)@) == Ok::<
                    (Seq<i32>, Seq<Seq<u8>>),
                    DecodeError,
                >((out@ + vs, t)),
                Err(e) => dec_ints(n as int, old(r)@) == Err::<(Seq<i32>, Seq<Seq<u8>>), DecodeError>(
                    e,
                ),
            },
        decreases n - i,
    {
        let ghost tb = r@;
        match read_int(r) {
            Err(e) => {
                proof {
                    assert(dec_ints((n - i) as int, tb) == Err::<
                        (Seq<i32>, Seq<Seq<u8>>),
                        DecodeError,
                    >(e));

                }
                return Err(e);
            },
            Ok(v) => {
                let ghost out_old = out@;
                out.push(v);
                proof {
                    let k = (n - i - 1) as int;
                    if dec_ints(k, r@) is Ok {
                        let vs = dec_ints(k, r@)->Ok_0.0;
                        assert(out@ + vs =~= out_old + (seq![v] + vs));
                    }
                }
                i += 1;
            },
        }
    }
    proof {
        assert(out@ + Seq::<i32>::empty() =~= out@);
    }
    Ok(out)
}

impl Order {
    /// Reads one order off the stream.
    pub fn parse_from(r: &mut TokenReader) -> (res: Result<Order, DecodeError>)
        ensures
            match res {
                Ok(o) => dec_order(old(r)@) == Ok::<(Order, Seq<Seq<u8>>), DecodeError>((
                    o,
                    final(r)@,
                )),
                Err(e) => dec_order(old(r)@) == Err::<(Order, Seq<Seq<u8>>), DecodeError>(e),
            },
    {
        let h = match read_ints(r, 5) {
            Ok(h) => h,
            Err(e) => {
                return Err(e);
            },
        };
        Ok(Order { first_frame: h[0], type_: h[1], target_id: h[2], target_coords: (h[3], h[4]) })
    }
}

/// Reads `n` orders off the stream.
fn read_orders(r: &mut TokenReader, n: usize) -> (res: Result<Vec<Order>, DecodeError>)
    ensures
        match res {
            Ok(os) => dec_orders(n as int, old(r)@) == Ok::<
                (Seq<Order>, Seq<Seq<u8>>),
                DecodeError,
            >((os@, final(r)@)),
            Err(e) => dec_orders(n as int, old(r)@) == Err::<
                (Seq<Order>, Seq<Seq<u8>>),
                DecodeError,
            >(e),
        },
{
    let mut out: Vec<Order> = Vec::new();
    let mut i: usize = 0;
    proof {
        assert(out@ + dec_orders((n - i) as int, r@)->Ok_0.0 =~= dec_orders(
            (n - i) as int,
            r@,
        )->Ok_0.0);
    }
    while i < n
        invariant
            0 <= i <= n,
            match dec_orders((n - i) as int, r@) {
                Ok((os, t)) => dec_orders(n as int, old(r)@) == Ok::<
                    (Seq<Order>, Seq<Seq<u8>>),
                    DecodeError,
                >((out@ + os, t)),
                Err(e) => dec_orders(n as int, old(r)@) == Err::<
                    (Seq<Order>, Seq<Seq<u8>>),
                    DecodeError,
                >(e),
            },
        decreases n - i,
    {
        let ghost tb = r@;
        match Order::parse_from(r) {
            Err(e) => {
                proof {
                    assert(dec_orders((n - i) as int, tb) == Err::<
                        (Seq<Order>, Seq<Seq<u8>>),
                        DecodeError,
                    >(e));
                }
                return Err(e);
            },
            Ok(o) => {
                let ghost out_old = out@;
                out.push(o);
                proof {
                    let k = (n - i - 1) as int;
                    if dec_orders(k, r@) is Ok {
                        let os = dec_orders(k, r@)->Ok_0.0;
                        assert(out@ + os =~= out_old + (seq![o] + os));
                    }
                }
                i += 1;
            },
        }
    }
    proof {
        assert(out@ + Seq::<Order>::empty() =~= out@);
    }
    Ok(out)
}

impl Unit {
    /// Reads one unit off the stream: 27 integer fields, the counted
    /// order list, the two velocity tokens, the owning player and its
    /// carried resources.
    pub fn parse_from(r: &mut TokenReader) -> (res: Result<Unit, DecodeError>)
        ensures
            match res {
                Ok(u) => dec_unit(old(r)@) == Ok::<(UnitV, Seq<Seq<u8>>), DecodeError>((
                    u@,
                    final(r)@,
                )),
                Err(e) => dec_unit(old(r)@) == Err::<(UnitV, Seq<Seq<u8>>), DecodeError>(e),
            },
    {
        let h = match read_ints(r, 27) {
            Ok(h) => h,
            Err(e) => {
                return Err(e);
            },
        };
        let n_orders = match read_int(r) {
            Ok(v) => v,
            Err(e) => {
                return Err(e);
            },
        };
        if n_orders < 0 {
            return Err(DecodeError::NegativeLength);
        }
        let orders = match read_orders(r, n_orders as usize) {
            Ok(os) => os,
            Err(e) => {
                return Err(e);
            },
        };
        let vx = match read_float(r) {
            Ok(v) => v,
            Err(e) => {
                return Err(e);
            },
        };
        let vy = match read_float(r) {
            Ok(v) => v,
            Err(e) => {
                return Err(e);
            },
        };
        let player_id = match read_int(r) {
            Ok(v) => v,
            Err(e) => {
                return Err(e);
            },
        };
        let resources = match read_int(r) {
            Ok(v) => v,
            Err(e) => {
                return Err(e);
            },
        };
        let ghost hv = h@;
        let ghost osv = orders@;
        let ghost vxv = vx@;
        let ghost vyv = vy@;
        let u = Unit {
            id: h[0],
            coords: (h[1], h[2]),
            health: h[3],
            max_health: h[4],
            shield: h[5],
            max_shield: h[6],
            energy: h[7],
            max_cd: h[8],
            ground_cd: h[9],
            air_cd: h[10],
            idle: h[11] > 0,
            detected: false,
            lifted: false,
            visible: h[12] > 0,
            type_: h[13],
            armor: h[14],
            shield_armor: h[15],
            size: h[16],
            pixel_coords: (h[17], h[18]),
            pixel_size: (h[19], h[20]),
            ground_atk: h[21],
            air_atk: h[22],
            ground_dmg_type: h[23],
            air_dmg_type: h[24],
            ground_range: h[25],
            air_range: h[26],
            orders,
            velocity: (vx, vy),
            player_id,
            resources,
        };
        proof {
            assert(u@ =~= unit_from_fields(hv, osv, vxv, vyv, player_id, resources));
        }
        Ok(u)
    }
}

/// Reads `n` units off the stream.
fn read_units_n(r: &mut TokenReader, n: usize) -> (res: Result<Vec<Unit>, DecodeError>)
    ensures
        match res {
            Ok(us) => dec_units(n as int, old(r)@) == Ok::<
                (Seq<UnitV>, Seq<Seq<u8>>),
                DecodeError,
            >((us@.map_values(|u: Unit| u@), final(r)@)),
            Err(e) => dec_units(n as int, old(r)@) == Err::<
                (Seq<UnitV>, Seq<Seq<u8>>),
                DecodeError,
            >(e),
        },
{
    let mut out: Vec<Unit> = Vec::new();
    let mut i: usize = 0;
    proof {
        assert(out@.map_values(|u: Unit| u@) + dec_units((n - i) as int, r@)->Ok_0.0 =~= dec_units(
            (n - i) as int,
            r@,
        )->Ok_0.0);
    }
    while i < n
        invariant
            0 <= i <= n,
            match dec_units((n - i) as int, r@) {
                Ok((us, t)) => dec_units(n as int, old(r)@) == Ok::<
                    (Seq<UnitV>, Seq<Seq<u8>>),
                    DecodeError,
                >((out@.map_values(|u: Unit| u@) + us, t)),
                Err(e) => dec_units(n as int, old(r)@) == Err::<
                    (Seq<UnitV>, Seq<Seq<u8>>),
                    DecodeError,
                >(e),
            },
        decreases n - i,
    {
        let ghost tb = r@;
        match Unit::parse_from(r) {
            Err(e) => {
                proof {
                    assert(dec_units((n - i) as int, tb) == Err::<
                        (Seq<UnitV>, Seq<Seq<u8>>),
                        DecodeError,
                    >(e));
                }
                return Err(e);
            },
            Ok(u) => {
                let ghost out_old = out@.map_values(|u: Unit| u@);
                let ghost uv = u@;
                out.push(u);
                proof {
                    assert(out@.map_values(|u: Unit| u@) =~= out_old.push(uv));
                    let k = (n - i - 1) as int;
                    if dec_units(k, r@) is Ok {
                        let us = dec_units(k, r@)->Ok_0.0;
                        assert(out_old.push(uv) + us =~= out_old + (seq![uv] + us));
                    }
                }
                i += 1;
            },
        }
    }
    proof {
        assert(out@.map_values(|u: Unit| u@) + Seq::<UnitV>::empty() =~= out@.map_values(
            |u: Unit| u@,
        ));
    }
    Ok(out)
}

impl Action {
    /// Reads one action off the stream: uid, aid, then a payload of
    /// declared length.
    pub fn parse_from(r: &mut TokenReader) -> (res: Result<Action, DecodeError>)
        ensures
            match res {
                Ok(a) => dec_action(old(r)@) == Ok::<(ActionV, Seq<Seq<u8>>), DecodeError>((
                    a@,
                    final(r)@,
                )),
                Err(e) => dec_action(old(r)@) == Err::<(ActionV, Seq<Seq<u8>>), DecodeError>(e),
            },
    {
        let uid = match read_int(r) {
            Ok(v) => v,
            Err(e) => {
                return Err(e);
            },
        };
        let aid = match read_int(r) {
            Ok(v) => v,
            Err(e) => {
                return Err(e);
            },
        };
        let size = match read_int(r) {
            Ok(v) => v,
            Err(e) => {
                return Err(e);
            },
        };
        if size < 0 {
            return Err(DecodeError::NegativeLength);
        }
        let vals = match read_ints(r, size as usize) {
            Ok(vs) => vs,
            Err(e) => {
                return Err(e);
            },
        };
        let ghost vv = vals@;
        let a = Action { action: vals, uid, aid };
        proof {
            assert(a@ =~= ActionV { action: vv, uid: uid, aid: aid });
        }
        Ok(a)
    }
}

/// Reads `n` actions off the stream.
fn read_actions_n(r: &mut TokenReader, n: usize) -> (res: Result<Vec<Action>, DecodeError>)
    ensures
        match res {
            Ok(xs) => dec_actions(n as int, old(r)@) == Ok::<
                (Seq<ActionV>, Seq<Seq<u8>>),
                DecodeError,
            >((xs@.map_values(|a: Action| a@), final(r)@)),
            Err(e) => dec_actions(n as int, old(r)@) == Err::<
                (Seq<ActionV>, Seq<Seq<u8>>),
                DecodeError,
            >(e),
        },
{
    let mut out: Vec<Action> = Vec::new();
    let mut i: usize = 0;
    proof {
        assert(out@.map_values(|a: Action| a@) + dec_actions((n - i) as int, r@)->Ok_0.0
            =~= dec_actions((n - i) as int, r@)->Ok_0.0);
    }
    while i < n
        invariant
            0 <= i <= n,
            match dec_actions((n - i) as int, r@) {
                Ok((xs, t)) => dec_actions(n as int, old(r)@) == Ok::<
                    (Seq<ActionV>, Seq<Seq<u8>>),
                    DecodeError,
                >((out@.map_values(|a: Action| a@) + xs, t)),
                Err(e) => dec_actions(n as int, old(r)@) == Err::<
                    (Seq<ActionV>, Seq<Seq<u8>>),
                    DecodeError,
                >(e),
            },
        decreases n - i,
    {
        let ghost tb = r@;
        match Action::parse_from(r) {
            Err(e) => {
                proof {
                    assert(dec_actions((n - i) as int, tb) == Err::<
                        (Seq<ActionV>, Seq<Seq<u8>>),
                        DecodeError,
                    >(e));
                }
                return Err(e);
            },
            Ok(a) => {
                let ghost out_old = out@.map_values(|a: Action| a@);
                let ghost av = a@;
                out.push(a);
                proof {
                    assert(out@.map_values(|a: Action| a@) =~= out_old.push(av));
                    let k = (n - i - 1) as int;
                    if dec_actions(k, r@) is Ok {
                        let xs = dec_actions(k, r@)->Ok_0.0;
                        assert(out_old.push(av) + xs =~= out_old + (seq![av] + xs));
                    }
                }
                i += 1;
            },
        }
    }
    proof {
        assert(out@.map_values(|a: Action| a@) + Seq::<ActionV>::empty() =~= out@.map_values(
            |a: Action| a@,
        ));
    }
    Ok(out)
}

impl Resources {
    /// Reads one resource record off the stream.
    pub fn parse_from(r: &mut TokenReader) -> (res: Result<Resources, DecodeError>)
        ensures
            match res {
                Ok(rec) => dec_resources_rec(old(r)@) == Ok::<
                    (Resources, Seq<Seq<u8>>),
                    DecodeError,
                >((rec, final(r)@)),
                Err(e) => dec_resources_rec(old(r)@) == Err::<
                    (Resources, Seq<Seq<u8>>),
                    DecodeError,
                >(e),
            },
    {
        let h = match read_ints(r, 4) {
            Ok(h) => h,
            Err(e) => {
                return Err(e);
            },
        };
        Ok(Resources { ore: h[0], gas: h[1], used_psi: h[2], total_psi: h[3] })
    }
}

impl Bullet {
    /// Reads one bullet off the stream.
    pub fn parse_from(r: &mut TokenReader) -> (res: Result<Bullet, DecodeError>)
        ensures
            match res {
                Ok(b) => dec_bullet(old(r)@) == Ok::<(Bullet, Seq<Seq<u8>>), DecodeError>((
                    b,
                    final(r)@,
                )),
                Err(e) => dec_bullet(old(r)@) == Err::<(Bullet, Seq<Seq<u8>>), DecodeError>(e),
            },
    {
        let h = match read_ints(r, 3) {
            Ok(h) => h,
            Err(e) => {
                return Err(e);
            },
        };
        Ok(Bullet { type_: h[0], coords: (h[1], h[2]) })
    }
}

/// Reads `n` bullets off the stream.
fn read_bullets_n(r: &mut TokenReader, n: usize) -> (res: Result<Vec<Bullet>, DecodeError>)
    ensures
        match res {
            Ok(bs) => dec_bullets(n as int, old(r)@) == Ok::<
                (Seq<Bullet>, Seq<Seq<u8>>),
                DecodeError,
            >((bs@, final(r)@)),
            Err(e) => dec_bullets(n as int, old(r)@) == Err::<
                (Seq<Bullet>, Seq<Seq<u8>>),
                DecodeError,
            >(e),
        },
{
    let mut out: Vec<Bullet> = Vec::new();
    let mut i: usize = 0;
    proof {
        assert(out@ + dec_bullets((n - i) as int, r@)->Ok_0.0 =~= dec_bullets(
            (n - i) as int,
            r@,
        )->Ok_0.0);
    }
    while i < n
        invariant
            0 <= i <= n,
            match dec_bullets((n - i) as int, r@) {
                Ok((bs, t)) => dec_bullets(n as int, old(r)@) == Ok::<
                    (Seq<Bullet>, Seq<Seq<u8>>),
                    DecodeError,
                >((out@ + bs, t)),
                Err(e) => dec_bullets(n as int, old(r)@) == Err::<
                    (Seq<Bullet>, Seq<Seq<u8>>),
                    DecodeError,
                >(e),
            },
        decreases n - i,
    {
        let ghost tb = r@;
        match Bullet::parse_from(r) {
            Err(e) => {
                proof {
                    assert(dec_bullets((n - i) as int, tb) == Err::<
                        (Seq<Bullet>, Seq<Seq<u8>>),
                        DecodeError,
                    >(e));
                }
                return Err(e);
            },
            Ok(b) => {
                let ghost out_old = out@;
                out.push(b);
                proof {
                    let k = (n - i - 1) as int;
                    if dec_bullets(k, r@) is Ok {
                        let bs = dec_bullets(k, r@)->Ok_0.0;
                        assert(out@ + bs =~= out_old + (seq![b] + bs));
                    }
                }
                i += 1;
            },
        }
    }
    proof {
        assert(out@ + Seq::<Bullet>::empty() =~= out@);
    }
    Ok(out)
}

/// Whether a per-player section already holds an entry for `pid`.
fn key_present<T>(v: &Vec<(i32, T)>, pid: i32) -> (r: bool)
    ensures
        r == (exists|k: int| 0 <= k < v@.len() && (#[trigger] v@[k]).0 == pid),
{
    let mut i: usize = 0;
    while i < v.len()
        invariant
            0 <= i <= v.len(),
            forall|k: int| 0 <= k < i ==> (#[trigger] v@[k]).0 != pid,
        decreases v.len() - i,
    {
        if v[i].0 == pid {
            return true;
        }
        i += 1;
    }
    false
}

/// What a whole bracket-delimited frame value decodes to: the outer
/// bracket pair is stripped, the body is tokenized at whitespace, and the
/// frame grammar is read off the tokens.
pub open spec fn frame_of_wire(s: Seq<u8>) -> Result<FrameV, DecodeError> {
    match dec_frame(tokens_of(inner(s))) {
        Err(e) => Err(e),
        Ok((f, _)) => Ok(f),
    }
}

/// Reads `np` per-player unit groups, rejecting a repeated player id.
fn read_unit_groups(r: &mut TokenReader, np: usize) -> (res: Result<
    Vec<(i32, Vec<Unit>)>,
    DecodeError,
>)
    ensures
        match res {
            Ok(gs) => dec_unit_groups(np as int, Seq::empty(), old(r)@) == Ok::<
                (Seq<(i32, Seq<UnitV>)>, Seq<Seq<u8>>),
                DecodeError,
            >((units_view(gs@), final(r)@)),
            Err(e) => dec_unit_groups(np as int, Seq::empty(), old(r)@) == Err::<
                (Seq<(i32, Seq<UnitV>)>, Seq<Seq<u8>>),
                DecodeError,
            >(e),
        },
{
    let mut out: Vec<(i32, Vec<Unit>)> = Vec::new();
    let mut i: usize = 0;
    proof {
        assert(units_view(out@) =~= Seq::<(i32, Seq<UnitV>)>::empty());
        assert(group_keys(units_view(out@)) =~= Seq::<i32>::empty());
        assert(units_view(out@) + dec_unit_groups(np as int, Seq::empty(), r@)->Ok_0.0
            =~= dec_unit_groups(np as int, Seq::empty(), r@)->Ok_0.0);
    }
    while i < np
        invariant
            0 <= i <= np,
            match dec_unit_groups((np - i) as int, group_keys(units_view(out@)), r@) {
                Ok((gs, t)) => dec_unit_groups(np as int, Seq::empty(), old(r)@) == Ok::<
                    (Seq<(i32, Seq<UnitV>)>, Seq<Seq<u8>>),
                    DecodeError,
                >((units_view(out@) + gs, t)),
                Err(e) => dec_unit_groups(np as int, Seq::empty(), old(r)@) == Err::<
                    (Seq<(i32, Seq<UnitV>)>, Seq<Seq<u8>>),
                    DecodeError,
                >(e),
            },
        decreases np - i,
    {
        let ghost tb = r@;
        let ghost seen = group_keys(units_view(out@));
        let pid = match read_int(r) {
            Ok(v) => v,
            Err(e) => {
                proof {
                    assert(dec_unit_groups((np - i) as int, seen, tb) == Err::<
                        (Seq<(i32, Seq<UnitV>)>, Seq<Seq<u8>>),
                        DecodeError,
                    >(e));
                }
                return Err(e);
            },
        };
        if key_present(&out, pid) {
            proof {
                let k = choose|k: int| 0 <= k < out@.len() && (#[trigger] out@[k]).0 == pid;
                assert(units_view(out@)[k].0 == pid);
                assert(seen[k] == pid);
                assert(seen.contains(pid));
            }
            return Err(DecodeError::DuplicatePlayer);
        }
        proof {
            assert(!seen.contains(pid)) by {
                if seen.contains(pid) {
                    let k = choose|k: int| 0 <= k < seen.len() && seen[k] == pid;
                    assert(units_view(out@)[k].0 == pid);
                    assert(out@[k].0 == pid);
                }
            }
        }
        let nu = match read_int(r) {
            Ok(v) => v,
            Err(e) => {
                proof {
                    assert(dec_unit_groups((np - i) as int, seen, tb) == Err::<
                        (Seq<(i32, Seq<UnitV>)>, Seq<Seq<u8>>),
                        DecodeError,
                    >(e));
                }
                return Err(e);
            },
        };
        if nu < 0 {
            proof {
                assert(dec_unit_groups((np - i) as int, seen, tb) == Err::<
                    (Seq<(i32, Seq<UnitV>)>, Seq<Seq<u8>>),
                    DecodeError,
                >(DecodeError::NegativeLength));
            }
            return Err(DecodeError::NegativeLength);
        }
        let us = match read_units_n(r, nu as usize) {
            Ok(us) => us,
            Err(e) => {
                proof {
                    assert(dec_unit_groups((np - i) as int, seen, tb) == Err::<
                        (Seq<(i32, Seq<UnitV>)>, Seq<Seq<u8>>),
                        DecodeError,
                    >(e));
                }
                return Err(e);
            },
        };
        let ghost usv = us@.map_values(|u: Unit| u@);
        let ghost out_old = units_view(out@);
        out.push((pid, us));
        proof {
            assert(units_view(out@) =~= out_old.push((pid, usv)));
            assert(group_keys(units_view(out@)) =~= seen.push(pid));
            let k = (np - i - 1) as int;
            if dec_unit_groups(k, seen.push(pid), r@) is Ok {
                let gs = dec_unit_groups(k, seen.push(pid), r@)->Ok_0.0;
                assert(units_view(out@) + gs =~= out_old + (seq![(pid, usv)] + gs));
            }
        }
        i += 1;
    }
    proof {
        assert(units_view(out@) + Seq::<(i32, Seq<UnitV>)>::empty() =~= units_view(out@));
    }
    Ok(out)
}

/// Reads `np` per-player action groups, rejecting a repeated player id.
fn read_action_groups(r: &mut TokenReader, np: usize) -> (res: Result<
    Vec<(i32, Vec<Action>)>,
    DecodeError,
>)
    ensures
        match res {
            Ok(gs) => dec_action_groups(np as int, Seq::empty(), old(r)@) == Ok::<
                (Seq<(i32, Seq<ActionV>)>, Seq<Seq<u8>>),
                DecodeError,
            >((actions_view(gs@), final(r)@)),
            Err(e) => dec_action_groups(np as int, Seq::empty(), old(r)@) == Err::<
                (Seq<(i32, Seq<ActionV>)>, Seq<Seq<u8>>),
                DecodeError,
            >(e),
        },
{
    let mut out: Vec<(i32, Vec<Action>)> = Vec::new();
    let mut i: usize = 0;
    proof {
        assert(actions_view(out@) =~= Seq::<(i32, Seq<ActionV>)>::empty());
        assert(group_keys(actions_view(out@)) =~= Seq::<i32>::empty());
        assert(actions_view(out@) + dec_action_groups(np as int, Seq::empty(), r@)->Ok_0.0
            =~= dec_action_groups(np as int, Seq::empty(), r@)->Ok_0.0);
    }
    while i < np
        invariant
            0 <= i <= np,
            match dec_action_groups((np - i) as int, group_keys(actions_view(out@)), r@) {
                Ok((gs, t)) => dec_action_groups(np as int, Seq::empty(), old(r)@) == Ok::<
                    (Seq<(i32, Seq<ActionV>)>, Seq<Seq<u8>>),
                    DecodeError,
                >((actions_view(out@) + gs, t)),
                Err(e) => dec_action_groups(np as int, Seq::empty(), old(r)@) == Err::<
                    (Seq<(i32, Seq<ActionV>)>, Seq<Seq<u8>>),
                    DecodeError,
                >(e),
            },
        decreases np - i,
    {
        let ghost tb = r@;
        let ghost seen = group_keys(actions_view(out@));
        let pid = match read_int(r) {
            Ok(v) => v,
            Err(e) => {
                proof {
                    assert(dec_action_groups((np - i) as int, seen, tb) == Err::<
                        (Seq<(i32, Seq<ActionV>)>, Seq<Seq<u8>>),
                        DecodeError,
                    >(e));
                }
                return Err(e);
            },
        };
        if key_present(&out, pid) {
            proof {
                let k = choose|k: int| 0 <= k < out@.len() && (#[trigger] out@[k]).0 == pid;
                assert(actions_view(out@)[k].0 == pid);
                assert(seen[k] == pid);
                assert(seen.contains(pid));
            }
            return Err(DecodeError::DuplicatePlayer);
        }
        proof {
            assert(!seen.contains(pid)) by {
                if seen.contains(pid) {
                    let k = choose|k: int| 0 <= k < seen.len() && seen[k] == pid;
                    assert(actions_view(out@)[k].0 == pid);
                    assert(out@[k].0 == pid);
                }
            }
        }
        let na = match read_int(r) {
            Ok(v) => v,
            Err(e) => {
                proof {
                    assert(dec_action_groups((np - i) as int, seen, tb) == Err::<
                        (Seq<(i32, Seq<ActionV>)>, Seq<Seq<u8>>),
                        DecodeError,
                    >(e));
                }
                return Err(e);
            },
        };
        if na < 0 {
            proof {
                assert(dec_action_groups((np - i) as int, seen, tb) == Err::<
                    (Seq<(i32, Seq<ActionV>)>, Seq<Seq<u8>>),
                    DecodeError,
                >(DecodeError::NegativeLength));
            }
            return Err(DecodeError::NegativeLength);
        }
        let xs = match read_actions_n(r, na as usize) {
            Ok(xs) => xs,
            Err(e) => {
                proof {
                    assert(dec_action_groups((np - i) as int, seen, tb) == Err::<
                        (Seq<(i32, Seq<ActionV>)>, Seq<Seq<u8>>),
                        DecodeError,
                    >(e));
                }
                return Err(e);
            },
        };
        let ghost xsv = xs@.map_values(|a: Action| a@);
        let ghost out_old = actions_view(out@);
        out.push((pid, xs));
        proof {
            assert(actions_view(out@) =~= out_old.push((pid, xsv)));
            assert(group_keys(actions_view(out@)) =~= seen.push(pid));
            let k = (np - i - 1) as int;
            if dec_action_groups(k, seen.push(pid), r@) is Ok {
                let gs = dec_action_groups(k, seen.push(pid), r@)->Ok_0.0;
                assert(actions_view(out@) + gs =~= out_old + (seq![(pid, xsv)] + gs));
            }
        }
        i += 1;
    }
    proof {
        assert(actions_view(out@) + Seq::<(i32, Seq<ActionV>)>::empty() =~= actions_view(out@));
    }
    Ok(out)
}

/// Reads `np` per-player resource records, rejecting a repeated player
/// id.
fn read_resource_groups(r: &mut TokenReader, np: usize) -> (res: Result<
    Vec<(i32, Resources)>,
    DecodeError,
>)
    ensures
        match res {
            Ok(gs) => dec_resource_groups(np as int, Seq::empty(), old(r)@) == Ok::<
                (Seq<(i32, Resources)>, Seq<Seq<u8>>),
                DecodeError,
            >((gs@, final(r)@)),
            Err(e) => dec_resource_groups(np as int, Seq::empty(), old(r)@) == Err::<
                (Seq<(i32, Resources)>, Seq<Seq<u8>>),
                DecodeError,
            >(e),
        },
{
    let mut out: Vec<(i32, Resources)> = Vec::new();
    let mut i: usize = 0;
    proof {
        assert(group_keys(out@) =~= Seq::<i32>::empty());
        assert(out@ + dec_resource_groups(np as int, Seq::empty(), r@)->Ok_0.0
            =~= dec_resource_groups(np as int, Seq::empty(), r@)->Ok_0.0);
    }
    while i < np
        invariant
            0 <= i <= np,
            match dec_resource_groups((np - i) as int, group_keys(out@), r@) {
                Ok((gs, t)) => dec_resource_groups(np as int, Seq::empty(), old(r)@) == Ok::<
                    (Seq<(i32, Resources)>, Seq<Seq<u8>>),
                    DecodeError,
                >((out@ + gs, t)),
                Err(e) => dec_resource_groups(np as int, Seq::empty(), old(r)@) == Err::<
                    (Seq<(i32, Resources)>, Seq<Seq<u8>>),
                    DecodeError,
                >(e),
            },
        decreases np - i,
    {
        let ghost tb = r@;
        let ghost seen = group_keys(out@);
        let pid = match read_int(r) {
            Ok(v) => v,
            Err(e) => {
                proof {
                    assert(dec_resource_groups((np - i) as int, seen, tb) == Err::<
                        (Seq<(i32, Resources)>, Seq<Seq<u8>>),
                        DecodeError,
                    >(e));
                }
                return Err(e);
            },
        };
        if key_present(&out, pid) {
            proof {
                let k = choose|k: int| 0 <= k < out@.len() && (#[trigger] out@[k]).0 == pid;
                assert(seen[k] == pid);
                assert(seen.contains(pid));
            }
            return Err(DecodeError::DuplicatePlayer);
        }
        proof {
            assert(!seen.contains(pid)) by {
                if seen.contains(pid) {
                    let k = choose|k: int| 0 <= k < seen.len() && seen[k] == pid;
                    assert(out@[k].0 == pid);
                }
            }
        }
        let rec = match Resources::parse_from(r) {
            Ok(rec) => rec,
            Err(e) => {
                proof {
                    assert(dec_resource_groups((np - i) as int, seen, tb) == Err::<
                        (Seq<(i32, Resources)>, Seq<Seq<u8>>),
                        DecodeError,
                    >(e));
                }
                return Err(e);
            },
        };
        let ghost out_old = out@;
        out.push((pid, rec));
        proof {
            assert(group_keys(out@) =~= seen.push(pid));
            let k = (np - i - 1) as int;
            if dec_resource_groups(k, seen.push(pid), r@) is Ok {
                let gs = dec_resource_groups(k, seen.push(pid), r@)->Ok_0.0;
                assert(out@ + gs =~= out_old + (seq![(pid, rec)] + gs));
            }
        }
        i += 1;
    }
    proof {
        assert(out@ + Seq::<(i32, Resources)>::empty() =~= out@);
    }
    Ok(out)
}

impl Frame {
    /// Decodes one whole bracket-delimited frame value.  A fresh frame is
    /// built from scratch; on any failure the error is reported and no
    /// partial frame is handed out.
    pub fn parse_from(input: &[u8]) -> (res: Result<Frame, DecodeError>)
        ensures
            match res {
                Ok(f) => frame_of_wire(input@) == Ok::<FrameV, DecodeError>(f@),
                Err(e) => frame_of_wire(input@) == Err::<FrameV, DecodeError>(e),
            },
    {
        let body = crate::codec::strip_outer(input);
        let mut r = TokenReader::over(body.as_slice());
        let np_u = match read_int(&mut r) {
            Ok(v) => v,
            Err(e) => {
                return Err(e);
            },
        };
        if np_u < 0 {
            return Err(DecodeError::NegativeLength);
        }
        let units = match read_unit_groups(&mut r, np_u as usize) {
            Ok(gs) => gs,
            Err(e) => {
                return Err(e);
            },
        };
        let np_a = match read_int(&mut r) {
            Ok(v) => v,
            Err(e) => {
                return Err(e);
            },
        };
        if np_a < 0 {
            return Err(DecodeError::NegativeLength);
        }
        let actions = match read_action_groups(&mut r, np_a as usize) {
            Ok(gs) => gs,
            Err(e) => {
                return Err(e);
            },
        };
        let np_r = match read_int(&mut r) {
            Ok(v) => v,
            Err(e) => {
                return Err(e);
            },
        };
        if np_r < 0 {
            return Err(DecodeError::NegativeLength);
        }
        let resources = match read_resource_groups(&mut r, np_r as usize) {
            Ok(gs) => gs,
            Err(e) => {
                return Err(e);
            },
        };
        let nb = match read_int(&mut r) {
            Ok(v) => v,
            Err(e) => {
                return Err(e);
            },
        };
        if nb < 0 {
            return Err(DecodeError::NegativeLength);
        }
        let bullets = match read_bullets_n(&mut r, nb as usize) {
            Ok(bs) => bs,
            Err(e) => {
                return Err(e);
            },
        };
        let reward = match read_int(&mut r) {
            Ok(v) => v,
            Err(e) => {
                return Err(e);
            },
        };
        let term = match read_int(&mut r) {
            Ok(v) => v,
            Err(e) => {
                return Err(e);
            },
        };
        let ghost uv = units_view(units@);
        let ghost av = actions_view(actions@);
        let ghost rv = resources@;
        let ghost bv = bullets@;
        let f = Frame { units, actions, resources, bullets, reward, is_terminal: term > 0 };
        proof {
            assert(f@ =~= FrameV {
                units: uv,
                actions: av,
                resources: rv,
                bullets: bv,
                reward: reward,
                is_terminal: term > 0,
            });
        }
        Ok(f)
    }
}

} // verus!

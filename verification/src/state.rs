//! The session-wide state: the current frame plus session-scoped fields,
//! folded forward by `parse` (decode one envelope wholesale) and `update`
//! (recompute the derived fields from the frame and the deaths list).

use vstd::prelude::*;
use crate::codec::{bytes_eq, list_of, parse_table, table_of};
use crate::error::DecodeError;
use crate::frame::{Frame, FrameV, UnitV, units_view, frame_of_wire};
use crate::tokens::{int_token_val, is_i32_token};

verus! {

/// The session state of one client.  Fields are either session-invariant
/// (map metadata, player identity, the replay flag: set once at setup) or
/// frame-varying (the current frame, the deaths list, the alive-unit
/// bookkeeping: rewritten by `parse` and `update`).
pub struct ServerState {
    /// Number of frames from order to execution.
    pub lag_frames: i32,
    /// 2D map data, 255 where not available.
    pub map_data: Vec<u8>,
    pub map_size: (i32, i32),
    /// 2D, build-tile resolution.
    pub buildable_data: Vec<bool>,
    pub buildable_size: (i32, i32),
    /// Name of the current map.
    pub map_name: Vec<u8>,
    pub player_id: i32,
    pub neutral_id: i32,
    pub is_replay: bool,
    /// The current frame: replaced wholesale by a successful `parse`,
    /// never mutated in place.
    pub frame: Frame,
    /// Unit ids reported dead since the last frame.
    pub deaths: Vec<i32>,
    pub frame_from_bwapi: i32,
    /// Micro-mode bookkeeping.
    pub battle_frame_count: i32,
    /// Did the game end?
    pub game_ended: bool,
    /// Did we win the game?
    pub game_won: bool,
    /// Micro-mode bookkeeping.
    pub battle_just_ended: bool,
    pub battle_won: bool,
    pub waiting_for_restart: bool,
    pub last_battle_ended: i32,
    /// Image mode, if images are streamed.
    pub image_mode: Vec<u8>,
    /// Position of the screen in pixels.
    pub screen_position: (i32, i32),
    pub visibility: Vec<u8>,
    pub visibility_size: (i32, i32),
    pub image: Vec<u8>,
    pub image_size: (i32, i32),
    /// Unit id to player id, for the units alive in this frame; used to
    /// detect end of battle in micro mode.  Ignores the unit-type filter.
    pub alive_units: Vec<(i32, i32)>,
    /// Like `alive_units`, restricted to the types in
    /// `only_consider_units`; meaningful only while that filter is
    /// non-empty.
    pub alive_units_considered: Vec<(i32, i32)>,
    /// The unit-type filter behind `alive_units_considered` and the
    /// battle-end rule.
    pub only_consider_units: Vec<i32>,
    /// The bot-facing per-player unit map.
    pub units: Vec<(i32, Vec<crate::frame::Unit>)>,
}

/// The mathematical value of a [`ServerState`].
#[verifier::ext_equal]
pub ghost struct ServerStateV {
    pub lag_frames: i32,
    pub map_data: Seq<u8>,
    pub map_size: (i32, i32),
    pub buildable_data: Seq<bool>,
    pub buildable_size: (i32, i32),
    pub map_name: Seq<u8>,
    pub player_id: i32,
    pub neutral_id: i32,
    pub is_replay: bool,
    pub frame: FrameV,
    pub deaths: Seq<i32>,
    pub frame_from_bwapi: i32,
    pub battle_frame_count: i32,
    pub game_ended: bool,
    pub game_won: bool,
    pub battle_just_ended: bool,
    pub battle_won: bool,
    pub waiting_for_restart: bool,
    pub last_battle_ended: i32,
    pub image_mode: Seq<u8>,
    pub screen_position: (i32, i32),
    pub visibility: Seq<u8>,
    pub visibility_size: (i32, i32),
    pub image: Seq<u8>,
    pub image_size: (i32, i32),
    pub alive_units: Seq<(i32, i32)>,
    pub alive_units_considered: Seq<(i32, i32)>,
    pub only_consider_units: Seq<i32>,
    pub units: Seq<(i32, Seq<UnitV>)>,
}

impl View for ServerState {
    type V = ServerStateV;

    open spec fn view(&self) -> ServerStateV {
        ServerStateV {
            lag_frames: self.lag_frames,
            map_data: self.map_data@,
            map_size: self.map_size,
            buildable_data: self.buildable_data@,
            buildable_size: self.buildable_size,
            map_name: self.map_name@,
            player_id: self.player_id,
            neutral_id: self.neutral_id,
            is_replay: self.is_replay,
            frame: self.frame@,
            deaths: self.deaths@,
            frame_from_bwapi: self.frame_from_bwapi,
            battle_frame_count: self.battle_frame_count,
            game_ended: self.game_ended,
            game_won: self.game_won,
            battle_just_ended: self.battle_just_ended,
            battle_won: self.battle_won,
            waiting_for_restart: self.waiting_for_restart,
            last_battle_ended: self.last_battle_ended,
            image_mode: self.image_mode@,
            screen_position: self.screen_position,
            visibility: self.visibility@,
            visibility_size: self.visibility_size,
            image: self.image@,
            image_size: self.image_size,
            alive_units: self.alive_units@,
            alive_units_considered: self.alive_units_considered@,
            only_consider_units: self.only_consider_units@,
            units: units_view(self.units@),
        }
    }
}

/// The envelope key naming the frame value.
pub open spec fn frame_key() -> Seq<u8> {
    seq![102u8, 114, 97, 109, 101]
}

/// The envelope key naming the deaths list.
pub open spec fn deaths_key() -> Seq<u8> {
    seq![100u8, 101, 97, 116, 104, 115]
}

/// The deaths sequence a deaths value decodes to: the bracket pair is
/// stripped, empty comma pieces are skipped, and each remaining piece
/// reads as an integer, or as 0 where it does not: a malformed death id
/// must not abort the whole frame.
pub open spec fn deaths_of(v: Seq<u8>) -> Seq<i32> {
    list_of(v).map_values(
        |p: Seq<u8>|
            if is_i32_token(p) {
                int_token_val(p) as i32
            } else {
                0i32
            },
    )
}

/// What folding one envelope over the empty outcome yields: the last
/// `frame` entry decoded, the last `deaths` entry decoded, any other key
/// ignored.  The first frame entry that fails to decode aborts the whole
/// fold.
pub open spec fn env_fold(ps: Seq<(Seq<u8>, Seq<u8>)>) -> Result<
    (Option<FrameV>, Option<Seq<i32>>),
    DecodeError,
>
    decreases ps.len(),
{
    if ps.len() == 0 {
        Ok((None::<FrameV>, None::<Seq<i32>>))
    } else {
        match env_fold(ps.drop_last()) {
            Err(e) => Err(e),
            Ok((f, d)) => {
                if ps.last().0 == frame_key() {
                    match frame_of_wire(ps.last().1) {
                        Err(e) => Err(e),
                        Ok(fr) => Ok((Some(fr), d)),
                    }
                } else if ps.last().0 == deaths_key() {
                    Ok((f, Some(deaths_of(ps.last().1))))
                } else {
                    Ok((f, d))
                }
            },
        }
    }
}

/// Once a prefix of the envelope fold has failed, the whole fold fails
/// the same way.
proof fn lemma_env_fold_err(ps: Seq<(Seq<u8>, Seq<u8>)>, k: int)
    requires
        0 <= k <= ps.len(),
        env_fold(ps.take(k)) is Err,
    ensures
        env_fold(ps) == env_fold(ps.take(k)),
    decreases ps.len() - k,
{
    if k < ps.len() {
        assert(ps.take(k + 1).drop_last() =~= ps.take(k));
        lemma_env_fold_err(ps, k + 1);
    } else {
        assert(ps.take(k) =~= ps);
    }
}

/// What one whole envelope decodes to.
pub open spec fn envelope_result(s: Seq<u8>) -> Result<
    (Option<FrameV>, Option<Seq<i32>>),
    DecodeError,
> {
    env_fold(table_of(s))
}

/// The state after a successful `parse` of `msg`: the frame and the
/// deaths list are replaced where the envelope carried them, everything
/// else is untouched.
pub open spec fn state_after_parse(s: ServerStateV, msg: Seq<u8>) -> ServerStateV {
    let r = envelope_result(msg)->Ok_0;
    ServerStateV {
        frame: if r.0 is Some {
            r.0->Some_0
        } else {
            s.frame
        },
        deaths: if r.1 is Some {
            r.1->Some_0
        } else {
            s.deaths
        },
        ..s
    }
}

/// Parses a bracket-delimited deaths value: empty pieces are skipped
/// and a piece that does not read as an integer stands in as 0.
pub fn parse_deaths(v: &[u8]) -> (r: Vec<i32>)
    ensures
        r@ == deaths_of(v@),
{
    let entries = crate::codec::parse_list(v);
    let ghost lv = entries@.map_values(|p: Vec<u8>| p@);
    let mut out: Vec<i32> = Vec::new();
    let mut i: usize = 0;
    while i < entries.len()
        invariant
            0 <= i <= entries.len(),
            lv == entries@.map_values(|p: Vec<u8>| p@),
            lv == list_of(v@),
            out@ =~= lv.take(i as int).map_values(
                |p: Seq<u8>|
                    if is_i32_token(p) {
                        int_token_val(p) as i32
                    } else {
                        0i32
                    },
            ),
        decreases entries.len() - i,
    {
        let piece = match crate::tokens::parse_i32_token(entries[i].as_slice()) {
            Some(n) => n,
            None => 0,
        };
        out.push(piece);
        proof {
            assert(entries@[i as int]@ == lv[i as int]);
            assert(out@ =~= lv.take(i + 1).map_values(
                |p: Seq<u8>|
                    if is_i32_token(p) {
                        int_token_val(p) as i32
                    } else {
                        0i32
                    },
            ));
        }
        i += 1;
    }
    proof {
        assert(lv.take(lv.len() as int) =~= lv);
    }
    out
}

/// The state a session starts from: everything empty, zero or false.
pub open spec fn initial_state() -> ServerStateV {
    ServerStateV {
        lag_frames: 0,
        map_data: Seq::empty(),
        map_size: (0, 0),
        buildable_data: Seq::empty(),
        buildable_size: (0, 0),
        map_name: Seq::empty(),
        player_id: 0,
        neutral_id: 0,
        is_replay: false,
        frame: FrameV {
            units: Seq::empty(),
            actions: Seq::empty(),
            resources: Seq::empty(),
            bullets: Seq::empty(),
            reward: 0,
            is_terminal: false,
        },
        deaths: Seq::empty(),
        frame_from_bwapi: 0,
        battle_frame_count: 0,
        game_ended: false,
        game_won: false,
        battle_just_ended: false,
        battle_won: false,
        waiting_for_restart: false,
        last_battle_ended: 0,
        image_mode: Seq::empty(),
        screen_position: (0, 0),
        visibility: Seq::empty(),
        visibility_size: (0, 0),
        image: Seq::empty(),
        image_size: (0, 0),
        alive_units: Seq::empty(),
        alive_units_considered: Seq::empty(),
        only_consider_units: Seq::empty(),
        units: Seq::empty(),
    }
}

impl ServerState {
    /// A pristine session state.
    pub fn new() -> (s: ServerState)
        ensures
            s@ == initial_state(),
    {
        let s = ServerState {
            lag_frames: 0,
            map_data: Vec::new(),
            map_size: (0, 0),
            buildable_data: Vec::new(),
            buildable_size: (0, 0),
            map_name: Vec::new(),
            player_id: 0,
            neutral_id: 0,
            is_replay: false,
            frame: Frame::default(),
            deaths: Vec::new(),
            frame_from_bwapi: 0,
            battle_frame_count: 0,
            game_ended: false,
            game_won: false,
            battle_just_ended: false,
            battle_won: false,
            waiting_for_restart: false,
            last_battle_ended: 0,
            image_mode: Vec::new(),
            screen_position: (0, 0),
            visibility: Vec::new(),
            visibility_size: (0, 0),
            image: Vec::new(),
            image_size: (0, 0),
            alive_units: Vec::new(),
            alive_units_considered: Vec::new(),
            only_consider_units: Vec::new(),
            units: Vec::new(),
        };
        proof {
            assert(s.frame@ =~= initial_state().frame);
            assert(s@ =~= initial_state());
        }
        s
    }
}

impl ServerState {
    /// Runs the envelope codec over one message and folds the result in:
    /// the `frame` entry replaces the current frame, the `deaths` entry
    /// replaces the deaths list, unknown keys are ignored.  On any decode
    /// failure the whole state, the previously published frame included,
    /// is left exactly as it was: a corrupt frame is rejected wholesale,
    /// never partially merged.
    pub fn parse(&mut self, message: &[u8]) -> (res: Result<(), DecodeError>)
        ensures
            match res {
                Ok(_) => envelope_result(message@) is Ok && final(self)@ == state_after_parse(
                    old(self)@,
                    message@,
                ),
                Err(e) => envelope_result(message@) == Err::<
                    (Option<FrameV>, Option<Seq<i32>>),
                    DecodeError,
                >(e) && *final(self) == *old(self),
            },
    {
        let pairs = parse_table(message);
        let ghost pv = pairs@.map_values(|pr: (Vec<u8>, Vec<u8>)| (pr.0@, pr.1@));
        let fk: [u8; 5] = [102, 114, 97, 109, 101];
        let dk: [u8; 6] = [100, 101, 97, 116, 104, 115];
        proof {
            assert(fk@ =~= frame_key());
            assert(dk@ =~= deaths_key());
        }
        let mut new_frame: Option<Frame> = None;
        let mut new_deaths: Option<Vec<i32>> = None;
        let mut i: usize = 0;
        while i < pairs.len()
            invariant
                0 <= i <= pairs.len(),
                pv == pairs@.map_values(|pr: (Vec<u8>, Vec<u8>)| (pr.0@, pr.1@)),
                pv == table_of(message@),
                fk@ == frame_key(),
                dk@ == deaths_key(),
                env_fold(pv.take(i as int)) == Ok::<(Option<FrameV>, Option<Seq<i32>>), DecodeError>(
                    (
                        match new_frame {
                            Some(f) => Some(f@),
                            None => None,
                        },
                        match new_deaths {
                            Some(d) => Some(d@),
                            None => None,
                        },
                    ),
                ),
            decreases pairs.len() - i,
        {
            proof {
                assert(pv.take(i + 1).drop_last() =~= pv.take(i as int));
                assert(pv.take(i + 1).last() == pv[i as int]);
                assert(pairs@[i as int].0@ == pv[i as int].0);
                assert(pairs@[i as int].1@ == pv[i as int].1);
            }
            let entry = &pairs[i];
            if bytes_eq(entry.0.as_slice(), fk.as_slice()) {
                match Frame::parse_from(entry.1.as_slice()) {
                    Ok(f) => {
                        new_frame = Some(f);
                    },
                    Err(e) => {
                        proof {
                            assert(env_fold(pv.take(i + 1)) == Err::<
                                (Option<FrameV>, Option<Seq<i32>>),
                                DecodeError,
                            >(e));
                            lemma_env_fold_err(pv, i + 1);
                        }
                        return Err(e);
                    },
                }
            } else if bytes_eq(entry.0.as_slice(), dk.as_slice()) {
                new_deaths = Some(parse_deaths(entry.1.as_slice()));
            }
            i += 1;
        }
        proof {
            assert(pv.take(pv.len() as int) =~= pv);
        }
        match new_frame {
            Some(f) => {
                self.frame = f;
            },
            None => {},
        }
        match new_deaths {
            Some(d) => {
                self.deaths = d;
            },
            None => {},
        }
        proof {
            assert(self@ =~= state_after_parse(old(self)@, message@));
        }
        Ok(())
    }
}

// ---------------------------------------------------------------------
// Derived state: what `update` recomputes from the frame and the deaths
// list.
// ---------------------------------------------------------------------

/// The (unit id, player id) pairs of one player's unit list.
pub open spec fn group_pairs(pid: i32, us: Seq<UnitV>) -> Seq<(i32, i32)> {
    us.map_values(|u: UnitV| (u.id, pid))
}

/// The (unit id, player id) pairs of a whole frame, in wire order.
pub open spec fn frame_unit_pairs(gs: Seq<(i32, Seq<UnitV>)>) -> Seq<(i32, i32)>
    decreases gs.len(),
{
    if gs.len() == 0 {
        Seq::empty()
    } else {
        frame_unit_pairs(gs.drop_last()) + group_pairs(gs.last().0, gs.last().1)
    }
}

/// The pairs of one player's unit list, restricted to the configured
/// unit types.
pub open spec fn considered_group_pairs(pid: i32, us: Seq<UnitV>, types: Seq<i32>) -> Seq<
    (i32, i32),
>
    decreases us.len(),
{
    if us.len() == 0 {
        Seq::empty()
    } else {
        let rest = considered_group_pairs(pid, us.drop_last(), types);
        if types.contains(us.last().type_) {
            rest.push((us.last().id, pid))
        } else {
            rest
        }
    }
}

/// The pairs of a whole frame, restricted to the configured unit types.
pub open spec fn frame_considered_pairs(gs: Seq<(i32, Seq<UnitV>)>, types: Seq<i32>) -> Seq<
    (i32, i32),
>
    decreases gs.len(),
{
    if gs.len() == 0 {
        Seq::empty()
    } else {
        frame_considered_pairs(gs.drop_last(), types) + considered_group_pairs(
            gs.last().0,
            gs.last().1,
            types,
        )
    }
}

/// Whether some pair in `s` carries the unit id `id`.
pub open spec fn pair_key_in(s: Seq<(i32, i32)>, id: i32) -> bool {
    exists|k: int| 0 <= k < s.len() && (#[trigger] s[k]).0 == id
}

/// The alive-unit derivation rule: the previous alive set minus the
/// reported deaths, unioned with the current frame's units; a unit the
/// frame reports anew takes its fresh entry.
pub open spec fn merge_alive(prev: Seq<(i32, i32)>, deaths: Seq<i32>, fresh: Seq<(i32, i32)>) -> Seq<
    (i32, i32),
> {
    prev.filter(|p: (i32, i32)| !deaths.contains(p.0) && !pair_key_in(fresh, p.0)) + fresh
}

/// The state after `update`: the alive-unit sets are rederived from the
/// frame and the deaths list, the game-over flag absorbs the frame's
/// terminal flag, and the battle is flagged ended exactly when a
/// unit-type filter is configured and no considered unit is left alive.
/// Every other field is untouched.
pub open spec fn state_after_update(s: ServerStateV) -> ServerStateV {
    let fresh = frame_unit_pairs(s.frame.units);
    let fresh_considered = frame_considered_pairs(s.frame.units, s.only_consider_units);
    let considered = merge_alive(s.alive_units_considered, s.deaths, fresh_considered);
    ServerStateV {
        alive_units: merge_alive(s.alive_units, s.deaths, fresh),
        alive_units_considered: considered,
        game_ended: s.game_ended || s.frame.is_terminal,
        battle_just_ended: s.only_consider_units.len() > 0 && considered.len() == 0,
        ..s
    }
}

/// Whether `x` is among the values of `v`.
fn contains_i32(v: &Vec<i32>, x: i32) -> (r: bool)
    ensures
        r == v@.contains(x),
{
    let mut i: usize = 0;
    while i < v.len()
        invariant
            0 <= i <= v.len(),
            forall|k: int| 0 <= k < i ==> v@[k] != x,
        decreases v.len() - i,
    {
        if v[i] == x {
            return true;
        }
        i += 1;
    }
    false
}

/// Whether some pair of `v` carries the unit id `id`.
fn pair_key_present(v: &Vec<(i32, i32)>, id: i32) -> (r: bool)
    ensures
        r == pair_key_in(v@, id),
{
    let mut i: usize = 0;
    while i < v.len()
        invariant
            0 <= i <= v.len(),
            forall|k: int| 0 <= k < i ==> (#[trigger] v@[k]).0 != id,
        decreases v.len() - i,
    {
        if v[i].0 == id {
            return true;
        }
        i += 1;
    }
    false
}

/// Walks the frame's unit groups and collects each unit's (id, player)
/// pair.
fn collect_unit_pairs(f: &Frame) -> (r: Vec<(i32, i32)>)
    ensures
        r@ == frame_unit_pairs(f@.units),
{
    let ghost uv = f@.units;
    let mut out: Vec<(i32, i32)> = Vec::new();
    let mut i: usize = 0;
    proof {
        assert(out@ =~= frame_unit_pairs(uv.take(0)));
    }
    while i < f.units.len()
        invariant
            0 <= i <= f.units.len(),
            uv == f@.units,
            uv.len() == f.units@.len(),
            out@ == frame_unit_pairs(uv.take(i as int)),
        decreases f.units.len() - i,
    {
        let group = &f.units[i];
        let pid = group.0;
        let ghost usv = uv[i as int].1;
        proof {
            assert(uv[i as int] == (group.0, group.1@.map_values(|u: crate::frame::Unit| u@)));
        }
        let mut j: usize = 0;
        while j < group.1.len()
            invariant
                0 <= j <= group.1.len(),
                pid == group.0,
                usv == group.1@.map_values(|u: crate::frame::Unit| u@),
                usv.len() == group.1@.len(),
                out@ == frame_unit_pairs(uv.take(i as int)) + group_pairs(pid, usv.take(j as int)),
            decreases group.1.len() - j,
        {
            let u = &group.1[j];
            out.push((u.id, pid));
            proof {
                assert(usv[j as int] == group.1@[j as int]@);
                assert(group_pairs(pid, usv.take(j + 1)) =~= group_pairs(pid, usv.take(j as int)).push(
                    (usv[j as int].id, pid),
                ));
                assert(out@ =~= frame_unit_pairs(uv.take(i as int)) + group_pairs(
                    pid,
                    usv.take(j + 1),
                ));
            }
            j += 1;
        }
        proof {
            assert(usv.take(usv.len() as int) =~= usv);
            assert(uv.take(i + 1).drop_last() =~= uv.take(i as int));
            assert(uv.take(i + 1).last() == uv[i as int]);
            assert(out@ =~= frame_unit_pairs(uv.take(i + 1)));
        }
        i += 1;
    }
    proof {
        assert(uv.take(uv.len() as int) =~= uv);
    }
    out
}

/// Walks the frame's unit groups and collects the pairs of units whose
/// type is in the configured filter.
fn collect_considered_pairs(f: &Frame, types: &Vec<i32>) -> (r: Vec<(i32, i32)>)
    ensures
        r@ == frame_considered_pairs(f@.units, types@),
{
    let ghost uv = f@.units;
    let mut out: Vec<(i32, i32)> = Vec::new();
    let mut i: usize = 0;
    proof {
        assert(out@ =~= frame_considered_pairs(uv.take(0), types@));
    }
    while i < f.units.len()
        invariant
            0 <= i <= f.units.len(),
            uv == f@.units,
            uv.len() == f.units@.len(),
            out@ == frame_considered_pairs(uv.take(i as int), types@),
        decreases f.units.len() - i,
    {
        let group = &f.units[i];
        let pid = group.0;
        let ghost usv = uv[i as int].1;
        proof {
            assert(uv[i as int] == (group.0, group.1@.map_values(|u: crate::frame::Unit| u@)));
        }
        let mut j: usize = 0;
        while j < group.1.len()
            invariant
                0 <= j <= group.1.len(),
                pid == group.0,
                usv == group.1@.map_values(|u: crate::frame::Unit| u@),
                usv.len() == group.1@.len(),
                out@ == frame_considered_pairs(uv.take(i as int), types@) + considered_group_pairs(
                    pid,
                    usv.take(j as int),
                    types@,
                ),
            decreases group.1.len() - j,
        {
            let u = &group.1[j];
            proof {
                assert(usv[j as int] == group.1@[j as int]@);
                assert(usv.take(j + 1).drop_last() =~= usv.take(j as int));
                assert(usv.take(j + 1).last() == usv[j as int]);
            }
            if contains_i32(types, u.type_) {
                out.push((u.id, pid));
            }
            proof {
                assert(out@ =~= frame_considered_pairs(uv.take(i as int), types@)
                    + considered_group_pairs(pid, usv.take(j + 1), types@));
            }
            j += 1;
        }
        proof {
            assert(usv.take(usv.len() as int) =~= usv);
            assert(uv.take(i + 1).drop_last() =~= uv.take(i as int));
            assert(uv.take(i + 1).last() == uv[i as int]);
            assert(out@ =~= frame_considered_pairs(uv.take(i + 1), types@));
        }
        i += 1;
    }
    proof {
        assert(uv.take(uv.len() as int) =~= uv);
    }
    out
}

/// Applies the alive-unit rule: keep the previous pairs that are neither
/// reported dead nor superseded by the frame, then append the frame's
/// pairs.
fn merge_survivors(prev: &Vec<(i32, i32)>, deaths: &Vec<i32>, fresh: Vec<(i32, i32)>) -> (r: Vec<
    (i32, i32),
>)
    ensures
        r@ == merge_alive(prev@, deaths@, fresh@),
{
    let mut out: Vec<(i32, i32)> = Vec::new();
    let mut i: usize = 0;
    while i < prev.len()
        invariant
            0 <= i <= prev.len(),
            out@ == prev@.take(i as int).filter(
                |p: (i32, i32)| !deaths@.contains(p.0) && !pair_key_in(fresh@, p.0),
            ),
        decreases prev.len() - i,
    {
        let p = prev[i];
        proof {
            assert(prev@.take(i + 1).drop_last() =~= prev@.take(i as int));
            assert(prev@.take(i + 1).last() == prev@[i as int]);
            reveal_with_fuel(Seq::filter, 2);
        }
        let dead = contains_i32(deaths, p.0);
        let superseded = pair_key_present(&fresh, p.0);
        if !dead && !superseded {
            out.push(p);
        }
        i += 1;
    }
    proof {
        assert(prev@.take(prev@.len() as int) =~= prev@);
    }
    let mut k: usize = 0;
    let ghost filtered = out@;
    while k < fresh.len()
        invariant
            0 <= k <= fresh.len(),
            out@ == filtered + fresh@.take(k as int),
        decreases fresh.len() - k,
    {
        out.push(fresh[k]);
        proof {
            assert(filtered + fresh@.take(k + 1) =~= (filtered + fresh@.take(k as int)).push(
                fresh@[k as int],
            ));
        }
        k += 1;
    }
    proof {
        assert(fresh@.take(fresh@.len() as int) =~= fresh@);
    }
    out
}

impl ServerState {
    /// Recomputes the derived session fields from the just-merged frame
    /// and deaths list.  The rules, stated once here and pinned by
    /// [`state_after_update`]: the alive-unit map becomes the previous
    /// alive set minus the reported deaths, unioned with the units of the
    /// current frame; the considered variant applies the unit-type filter
    /// to the frame's units; the game counts as ended once a frame is
    /// terminal; and a battle has just ended exactly when a filter is
    /// configured and no considered unit remains alive.  Given the same
    /// frame and deaths, running `update` twice changes nothing more:
    /// see [`lemma_update_idempotent`].
    pub fn update(&mut self) -> (res: Result<(), DecodeError>)
        ensures
            res is Ok,
            final(self)@ == state_after_update(old(self)@),
    {
        let fresh = collect_unit_pairs(&self.frame);
        let fresh_considered = collect_considered_pairs(&self.frame, &self.only_consider_units);
        let alive = merge_survivors(&self.alive_units, &self.deaths, fresh);
        let considered = merge_survivors(
            &self.alive_units_considered,
            &self.deaths,
            fresh_considered,
        );
        let battle_over = self.only_consider_units.len() > 0 && considered.len() == 0;
        self.alive_units = alive;
        self.alive_units_considered = considered;
        self.game_ended = self.game_ended || self.frame.is_terminal;
        self.battle_just_ended = battle_over;
        proof {
            assert(self@ =~= state_after_update(old(self)@));
        }
        Ok(())
    }
}

/// A sequence filtered once is filtered: filtering again with the same
/// predicate changes nothing.
proof fn lemma_filter_idempotent<A>(s: Seq<A>, pred: spec_fn(A) -> bool)
    ensures
        s.filter(pred).filter(pred) == s.filter(pred),
    decreases s.len(),
{
    reveal(Seq::filter);
    if s.len() > 0 {
        lemma_filter_idempotent(s.drop_last(), pred);
        if pred(s.last()) {
            assert(s.filter(pred) == s.drop_last().filter(pred).push(s.last()));
            assert(s.filter(pred).drop_last() =~= s.drop_last().filter(pred));
        }
    }
}

/// A sequence none of whose pairs passes the survivor filter is wiped
/// out by it.
proof fn lemma_superseded_filtered_empty(
    deaths: Seq<i32>,
    fresh: Seq<(i32, i32)>,
    s: Seq<(i32, i32)>,
)
    requires
        forall|k: int| 0 <= k < s.len() ==> pair_key_in(fresh, (#[trigger] s[k]).0),
    ensures
        s.filter(|p: (i32, i32)| !deaths.contains(p.0) && !pair_key_in(fresh, p.0)) == Seq::<
            (i32, i32),
        >::empty(),
    decreases s.len(),
{
    reveal(Seq::filter);
    if s.len() > 0 {
        assert(pair_key_in(fresh, s.last().0));
        lemma_superseded_filtered_empty(deaths, fresh, s.drop_last());
    }
}

/// Every pair of `fresh` carries a key of `fresh`, so the survivor
/// filter wipes `fresh` itself out.
proof fn lemma_fresh_filtered_empty(deaths: Seq<i32>, fresh: Seq<(i32, i32)>)
    ensures
        fresh.filter(|p: (i32, i32)| !deaths.contains(p.0) && !pair_key_in(fresh, p.0)) == Seq::<
            (i32, i32),
        >::empty(),
{
    assert forall|k: int| 0 <= k < fresh.len() implies pair_key_in(fresh, (#[trigger] fresh[k]).0) by {
        assert(0 <= k < fresh.len() && fresh[k].0 == fresh[k].0);
    }
    lemma_superseded_filtered_empty(deaths, fresh, fresh);
}

/// The law behind `update`: recomputing the derived fields from the same
/// frame and deaths list a second time changes nothing.
pub proof fn lemma_update_idempotent(s: ServerStateV)
    ensures
        state_after_update(state_after_update(s)) == state_after_update(s),
{
    let fresh = frame_unit_pairs(s.frame.units);
    let fresh_considered = frame_considered_pairs(s.frame.units, s.only_consider_units);
    lemma_merge_idempotent(s.alive_units, s.deaths, fresh);
    lemma_merge_idempotent(s.alive_units_considered, s.deaths, fresh_considered);
    assert(state_after_update(state_after_update(s)) =~= state_after_update(s));
}

/// Merging the frame's pairs into an already-merged alive set changes
/// nothing.
proof fn lemma_merge_idempotent(prev: Seq<(i32, i32)>, deaths: Seq<i32>, fresh: Seq<(i32, i32)>)
    ensures
        merge_alive(merge_alive(prev, deaths, fresh), deaths, fresh) == merge_alive(
            prev,
            deaths,
            fresh,
        ),
{
    let pred = |p: (i32, i32)| !deaths.contains(p.0) && !pair_key_in(fresh, p.0);
    let once = merge_alive(prev, deaths, fresh);
    Seq::filter_distributes_over_add(prev.filter(pred), fresh, pred);
    lemma_filter_idempotent(prev, pred);
    lemma_fresh_filtered_empty(deaths, fresh);
    assert(once.filter(pred) =~= prev.filter(pred));
    assert(merge_alive(once, deaths, fresh) =~= once);
}

} // verus!

//! The wire grammar written as a function: what a frame looks like as a
//! token sequence, and the proof that decoding that sequence reproduces
//! the frame.  This pins the grammar down from both sides: the decoder
//! accepts exactly what this serialization produces.

use vstd::prelude::*;
use vstd::arithmetic::div_mod::{lemma_fundamental_div_mod, lemma_mod_bound};
use crate::error::DecodeError;
use crate::frame::{
    ActionV, Bullet, FrameV, Order, Resources, UnitV, dec_action, dec_action_groups, dec_actions,
    dec_bullet, dec_bullets, dec_frame, dec_order, dec_orders, dec_ints, dec_resource_groups,
    dec_resources_rec, dec_unit, dec_unit_groups, dec_units, frame_of_wire, unit_from_fields,
};
use crate::tokens::{
    all_digits, dec_float, dec_int, digits_val, float_accepting, float_run, float_step, int_body,
    int_negative, int_token_val, is_digit, is_float_token, is_i32_token, is_inf_nan, lower_eq,
    split_on, to_lower, tokens_of,
};
use crate::codec::inner;

verus! {

// ---------------------------------------------------------------------
// Rendering integers.
// ---------------------------------------------------------------------

/// The decimal digits of a non-negative number, most significant first.
pub open spec fn digits_of(n: int) -> Seq<u8>
    decreases n,
{
    if n < 10 {
        seq![(48 + n) as u8]
    } else {
        digits_of(n / 10).push((48 + (n % 10)) as u8)
    }
}

/// The canonical token of an integer: a minus sign for a negative value,
/// then its decimal digits.
pub open spec fn int_token_of(v: int) -> Seq<u8> {
    if v < 0 {
        seq![45u8] + digits_of(-v)
    } else {
        digits_of(v)
    }
}

/// The wire form of a boolean field: `1` for true, `0` for false.
pub open spec fn bool_token(b: bool) -> Seq<u8> {
    if b {
        int_token_of(1)
    } else {
        int_token_of(0)
    }
}

proof fn lemma_digits_of(n: int)
    requires
        0 <= n,
    ensures
        all_digits(digits_of(n)),
        digits_of(n).len() >= 1,
        digits_val(digits_of(n)) == n,
    decreases n,
{
    if n < 10 {
        assert(digits_val(digits_of(n)) == n) by {
            assert(digits_of(n) == seq![(48 + n) as u8]);
            assert(digits_of(n).drop_last() =~= Seq::<u8>::empty());
            assert(digits_val(Seq::<u8>::empty()) == 0);
            assert(digits_of(n).last() == (48 + n) as u8);
        }
    } else {
        lemma_fundamental_div_mod(n, 10);
        lemma_mod_bound(n, 10);
        assert(1 <= n / 10 < n) by {
            assert(n == 10 * (n / 10) + n % 10);
        }
        lemma_digits_of(n / 10);
        let d = (48 + (n % 10)) as u8;
        assert(digits_of(n) == digits_of(n / 10).push(d));
        assert(digits_of(n).drop_last() =~= digits_of(n / 10));
        assert(digits_val(digits_of(n)) == digits_val(digits_of(n / 10)) * 10 + (d - 48));
        assert(all_digits(digits_of(n))) by {
            assert(forall|i: int|
                0 <= i < digits_of(n / 10).len() ==> digits_of(n)[i] == digits_of(n / 10)[i]);
            assert(digits_of(n).last() == d);
        }
    }
}

/// The canonical token of an in-range value reads back as that value.
proof fn lemma_int_token_of(v: int)
    requires
        -0x8000_0000 <= v <= 0x7fff_ffff,
    ensures
        is_i32_token(int_token_of(v)),
        int_token_val(int_token_of(v)) == v,
        good_token(int_token_of(v)),
{
    if v < 0 {
        lemma_digits_of(-v);
        let s = int_token_of(v);
        assert(s[0] == 45);
        assert(int_body(s) =~= digits_of(-v));
        assert(int_negative(s));
        assert(forall|i: int| 0 <= i < s.len() ==> s[i] != 32) by {
            assert(forall|i: int| 1 <= i < s.len() ==> s[i] == digits_of(-v)[i - 1]);
        }
    } else {
        lemma_digits_of(v);
        let s = int_token_of(v);
        assert(is_digit(s[0]));
        assert(int_body(s) == s);
        assert(!int_negative(s));
        assert(forall|i: int| 0 <= i < s.len() ==> s[i] != 32);
    }
}

// ---------------------------------------------------------------------
// Tokens fit for joining: non-empty and free of whitespace.
// ---------------------------------------------------------------------

/// A token that survives whitespace-joining: non-empty and without a
/// space byte.
pub open spec fn good_token(t: Seq<u8>) -> bool {
    t.len() > 0 && forall|i: int| 0 <= i < t.len() ==> t[i] != 32
}

pub open spec fn good_tokens(ts: Seq<Seq<u8>>) -> bool {
    forall|k: int| 0 <= k < ts.len() ==> good_token(#[trigger] ts[k])
}

proof fn lemma_good_append(a: Seq<Seq<u8>>, b: Seq<Seq<u8>>)
    requires
        good_tokens(a),
        good_tokens(b),
    ensures
        good_tokens(a + b),
{
    assert forall|k: int| 0 <= k < (a + b).len() implies good_token(#[trigger] (a + b)[k]) by {
        if k < a.len() {
            assert((a + b)[k] == a[k]);
        } else {
            assert((a + b)[k] == b[k - a.len()]);
        }
    }
}

/// From the rejecting state the float automaton never recovers.
proof fn lemma_float_reject_stays(s: Seq<u8>)
    ensures
        float_run(7, s) == 7,
    decreases s.len(),
{
    if s.len() > 0 {
        lemma_float_reject_stays(s.drop_first());
    }
}

/// A space anywhere sends the float automaton to the rejecting state.
proof fn lemma_float_space_rejects(st: u8, s: Seq<u8>, i: int)
    requires
        0 <= i < s.len(),
        s[i] == 32,
    ensures
        float_run(st, s) == 7,
    decreases i,
{
    if i == 0 {
        assert(float_step(st, 32) == 7);
        lemma_float_reject_stays(s.drop_first());
    } else {
        assert(s.drop_first()[i - 1] == 32);
        lemma_float_space_rejects(float_step(st, s[0]), s.drop_first(), i - 1);
    }
}

/// A float token is fit for joining: non-empty and space-free.
proof fn lemma_float_good(s: Seq<u8>)
    requires
        is_float_token(s),
    ensures
        good_token(s),
{
    let b = int_body(s);
    if is_inf_nan(b) {
        assert(b.len() >= 3);
        assert forall|i: int| 0 <= i < s.len() implies s[i] != 32 by {
            if s.len() > 0 && (s[0] == 43 || s[0] == 45) {
                if i > 0 {
                    assert(b[i - 1] == s[i]);
                    lemma_inf_nan_no_space(b, i - 1);
                }
            } else {
                assert(b[i] == s[i]);
                lemma_inf_nan_no_space(b, i);
            }
        }
    } else {
        assert(float_accepting(float_run(0, b)));
        assert(b.len() > 0);
        assert forall|i: int| 0 <= i < s.len() implies s[i] != 32 by {
            if s.len() > 0 && (s[0] == 43 || s[0] == 45) {
                if i > 0 {
                    assert(b[i - 1] == s[i]);
                    if s[i] == 32 {
                        lemma_float_space_rejects(0, b, i - 1);
                    }
                }
            } else {
                assert(b[i] == s[i]);
                if s[i] == 32 {
                    lemma_float_space_rejects(0, b, i);
                }
            }
        }
    }
}

proof fn lemma_inf_nan_no_space(b: Seq<u8>, i: int)
    requires
        is_inf_nan(b),
        0 <= i < b.len(),
    ensures
        b[i] != 32,
{
    assert(to_lower(32) == 32);
    if lower_eq(b, seq![105u8, 110, 102]) {
        assert(to_lower(b[i]) == seq![105u8, 110, 102][i]);
    } else if lower_eq(b, seq![105u8, 110, 102, 105, 110, 105, 116, 121]) {
        assert(to_lower(b[i]) == seq![105u8, 110, 102, 105, 110, 105, 116, 121][i]);
    } else {
        assert(to_lower(b[i]) == seq![110u8, 97, 110][i]);
    }
}

// ---------------------------------------------------------------------
// The frame as a token sequence.
// ---------------------------------------------------------------------

pub open spec fn int_tokens_of(vs: Seq<i32>) -> Seq<Seq<u8>>
    decreases vs.len(),
{
    if vs.len() == 0 {
        Seq::empty()
    } else {
        seq![int_token_of(vs[0] as int)] + int_tokens_of(vs.drop_first())
    }
}

pub open spec fn order_tokens(o: Order) -> Seq<Seq<u8>> {
    int_tokens_of(
        seq![o.first_frame, o.type_, o.target_id, o.target_coords.0, o.target_coords.1],
    )
}

pub open spec fn orders_tokens(os: Seq<Order>) -> Seq<Seq<u8>>
    decreases os.len(),
{
    if os.len() == 0 {
        Seq::empty()
    } else {
        order_tokens(os[0]) + orders_tokens(os.drop_first())
    }
}

/// The 27 leading integer fields of a unit, in wire order.
pub open spec fn unit_head(u: UnitV) -> Seq<i32> {
    seq![
        u.id,
        u.coords.0,
        u.coords.1,
        u.health,
        u.max_health,
        u.shield,
        u.max_shield,
        u.energy,
        u.max_cd,
        u.ground_cd,
        u.air_cd,
        if u.idle { 1 } else { 0 },
        if u.visible { 1 } else { 0 },
        u.type_,
        u.armor,
        u.shield_armor,
        u.size,
        u.pixel_coords.0,
        u.pixel_coords.1,
        u.pixel_size.0,
        u.pixel_size.1,
        u.ground_atk,
        u.air_atk,
        u.ground_dmg_type,
        u.air_dmg_type,
        u.ground_range,
        u.air_range,
    ]
}

pub open spec fn unit_tokens(u: UnitV) -> Seq<Seq<u8>> {
    int_tokens_of(unit_head(u)) + seq![int_token_of(u.orders.len() as int)] + orders_tokens(
        u.orders,
    ) + seq![u.velocity.0, u.velocity.1] + int_tokens_of(seq![u.player_id, u.resources])
}

pub open spec fn units_tokens(us: Seq<UnitV>) -> Seq<Seq<u8>>
    decreases us.len(),
{
    if us.len() == 0 {
        Seq::empty()
    } else {
        unit_tokens(us[0]) + units_tokens(us.drop_first())
    }
}

pub open spec fn unit_groups_tokens(gs: Seq<(i32, Seq<UnitV>)>) -> Seq<Seq<u8>>
    decreases gs.len(),
{
    if gs.len() == 0 {
        Seq::empty()
    } else {
        seq![int_token_of(gs[0].0 as int), int_token_of(gs[0].1.len() as int)] + units_tokens(
            gs[0].1,
        ) + unit_groups_tokens(gs.drop_first())
    }
}

pub open spec fn action_tokens(a: ActionV) -> Seq<Seq<u8>> {
    int_tokens_of(seq![a.uid, a.aid]) + seq![int_token_of(a.action.len() as int)] + int_tokens_of(
        a.action,
    )
}

pub open spec fn actions_tokens(xs: Seq<ActionV>) -> Seq<Seq<u8>>
    decreases xs.len(),
{
    if xs.len() == 0 {
        Seq::empty()
    } else {
        action_tokens(xs[0]) + actions_tokens(xs.drop_first())
    }
}

pub open spec fn action_groups_tokens(gs: Seq<(i32, Seq<ActionV>)>) -> Seq<Seq<u8>>
    decreases gs.len(),
{
    if gs.len() == 0 {
        Seq::empty()
    } else {
        seq![int_token_of(gs[0].0 as int), int_token_of(gs[0].1.len() as int)] + actions_tokens(
            gs[0].1,
        ) + action_groups_tokens(gs.drop_first())
    }
}

pub open spec fn resources_tokens(r: Resources) -> Seq<Seq<u8>> {
    int_tokens_of(seq![r.ore, r.gas, r.used_psi, r.total_psi])
}

pub open spec fn resource_groups_tokens(gs: Seq<(i32, Resources)>) -> Seq<Seq<u8>>
    decreases gs.len(),
{
    if gs.len() == 0 {
        Seq::empty()
    } else {
        seq![int_token_of(gs[0].0 as int)] + resources_tokens(gs[0].1) + resource_groups_tokens(
            gs.drop_first(),
        )
    }
}

pub open spec fn bullet_tokens(b: Bullet) -> Seq<Seq<u8>> {
    int_tokens_of(seq![b.type_, b.coords.0, b.coords.1])
}

pub open spec fn bullets_tokens(bs: Seq<Bullet>) -> Seq<Seq<u8>>
    decreases bs.len(),
{
    if bs.len() == 0 {
        Seq::empty()
    } else {
        bullet_tokens(bs[0]) + bullets_tokens(bs.drop_first())
    }
}

/// A whole frame as its wire token sequence.
pub open spec fn frame_tokens(f: FrameV) -> Seq<Seq<u8>> {
    seq![int_token_of(f.units.len() as int)] + unit_groups_tokens(f.units) + seq![
        int_token_of(f.actions.len() as int),
    ] + action_groups_tokens(f.actions) + seq![int_token_of(f.resources.len() as int)]
        + resource_groups_tokens(f.resources) + seq![int_token_of(f.bullets.len() as int)]
        + bullets_tokens(f.bullets) + seq![int_token_of(f.reward as int), bool_token(f.is_terminal)]
}

// ---------------------------------------------------------------------
// The valid field ranges: what a frame must satisfy for its wire form to
// read back.
// ---------------------------------------------------------------------

/// Valid ranges for one unit: the two wire-absent flags hold their
/// defaults, the velocity pair holds float tokens, and the order count
/// fits the wire's signed 32-bit counts.
pub open spec fn unit_wf(u: UnitV) -> bool {
    &&& !u.detected
    &&& !u.lifted
    &&& is_float_token(u.velocity.0)
    &&& is_float_token(u.velocity.1)
    &&& u.orders.len() <= 0x7fff_ffff
}

pub open spec fn distinct_keys<T>(gs: Seq<(i32, T)>) -> bool {
    forall|i: int, j: int| 0 <= i < j < gs.len() ==> (#[trigger] gs[i]).0 != (#[trigger] gs[j]).0
}

/// Valid ranges for a whole frame: counts fit the wire's signed 32-bit
/// integers, player ids are distinct within each section, and every unit
/// is well formed.
pub open spec fn frame_wf(f: FrameV) -> bool {
    &&& f.units.len() <= 0x7fff_ffff
    &&& distinct_keys(f.units)
    &&& forall|i: int|
        0 <= i < f.units.len() ==> (#[trigger] f.units[i]).1.len() <= 0x7fff_ffff && forall|j: int|
            0 <= j < f.units[i].1.len() ==> unit_wf(#[trigger] f.units[i].1[j])
    &&& f.actions.len() <= 0x7fff_ffff
    &&& distinct_keys(f.actions)
    &&& forall|i: int|
        0 <= i < f.actions.len() ==> (#[trigger] f.actions[i]).1.len() <= 0x7fff_ffff && forall|
            j: int,
        |
            0 <= j < f.actions[i].1.len() ==> (#[trigger] f.actions[i].1[j]).action.len()
                <= 0x7fff_ffff
    &&& f.resources.len() <= 0x7fff_ffff
    &&& distinct_keys(f.resources)
    &&& f.bullets.len() <= 0x7fff_ffff
}

// ---------------------------------------------------------------------
// Decoding reproduces the frame, level by level.
// ---------------------------------------------------------------------

proof fn lemma_dec_int_rt(v: i32, rest: Seq<Seq<u8>>)
    ensures
        dec_int(seq![int_token_of(v as int)] + rest) == Ok::<(i32, Seq<Seq<u8>>), DecodeError>(
            (v, rest),
        ),
        good_token(int_token_of(v as int)),
{
    lemma_int_token_of(v as int);
    let t = seq![int_token_of(v as int)] + rest;
    assert(t[0] == int_token_of(v as int));
    assert(t.drop_first() =~= rest);
}

proof fn lemma_dec_ints_rt(vs: Seq<i32>, rest: Seq<Seq<u8>>)
    ensures
        dec_ints(vs.len() as int, int_tokens_of(vs) + rest) == Ok::<
            (Seq<i32>, Seq<Seq<u8>>),
            DecodeError,
        >((vs, rest)),
        good_tokens(int_tokens_of(vs)),
    decreases vs.len(),
{
    if vs.len() == 0 {
        assert(vs =~= Seq::<i32>::empty());
        assert(int_tokens_of(vs) + rest =~= rest);
        assert(good_tokens(int_tokens_of(vs)));
    } else {
        let tail = vs.drop_first();
        lemma_dec_ints_rt(tail, rest);
        lemma_dec_int_rt(vs[0], int_tokens_of(tail) + rest);
        assert(int_tokens_of(vs) + rest =~= seq![int_token_of(vs[0] as int)] + (int_tokens_of(tail)
            + rest));
        assert(seq![vs[0]] + tail =~= vs);
        lemma_good_append(seq![int_token_of(vs[0] as int)], int_tokens_of(tail));
    }
}

proof fn lemma_dec_order_rt(o: Order, rest: Seq<Seq<u8>>)
    ensures
        dec_order(order_tokens(o) + rest) == Ok::<(Order, Seq<Seq<u8>>), DecodeError>((o, rest)),
        good_tokens(order_tokens(o)),
{
    let vs = seq![o.first_frame, o.type_, o.target_id, o.target_coords.0, o.target_coords.1];
    lemma_dec_ints_rt(vs, rest);
    assert(vs.len() == 5);
    assert((vs[3], vs[4]) == o.target_coords);
}

proof fn lemma_dec_orders_rt(os: Seq<Order>, rest: Seq<Seq<u8>>)
    ensures
        dec_orders(os.len() as int, orders_tokens(os) + rest) == Ok::<
            (Seq<Order>, Seq<Seq<u8>>),
            DecodeError,
        >((os, rest)),
        good_tokens(orders_tokens(os)),
    decreases os.len(),
{
    if os.len() == 0 {
        assert(os =~= Seq::<Order>::empty());
        assert(orders_tokens(os) + rest =~= rest);
    } else {
        let tail = os.drop_first();
        lemma_dec_orders_rt(tail, rest);
        lemma_dec_order_rt(os[0], orders_tokens(tail) + rest);
        assert(orders_tokens(os) + rest =~= order_tokens(os[0]) + (orders_tokens(tail) + rest));
        assert(seq![os[0]] + tail =~= os);
        lemma_good_append(order_tokens(os[0]), orders_tokens(tail));
    }
}

#[verifier::rlimit(60)]
proof fn lemma_dec_unit_rt(u: UnitV, rest: Seq<Seq<u8>>)
    requires
        unit_wf(u),
    ensures
        dec_unit(unit_tokens(u) + rest) == Ok::<(UnitV, Seq<Seq<u8>>), DecodeError>((u, rest)),
        good_tokens(unit_tokens(u)),
{
    let h = unit_head(u);
    let n: i32 = u.orders.len() as i32;
    let t_tail = int_tokens_of(seq![u.player_id, u.resources]) + rest;
    let t_vel = seq![u.velocity.0, u.velocity.1] + t_tail;
    let t_orders = orders_tokens(u.orders) + t_vel;
    let t_count = seq![int_token_of(n as int)] + t_orders;
    assert(unit_tokens(u) + rest =~= int_tokens_of(h) + t_count);
    lemma_dec_ints_rt(h, t_count);
    assert(h.len() == 27);
    lemma_dec_int_rt(n, t_orders);
    lemma_dec_orders_rt(u.orders, t_vel);
    assert(n as int == u.orders.len() as int);
    lemma_float_good(u.velocity.0);
    lemma_float_good(u.velocity.1);
    assert(t_vel[0] == u.velocity.0);
    assert(t_vel.drop_first() =~= seq![u.velocity.1] + t_tail);
    assert((seq![u.velocity.1] + t_tail)[0] == u.velocity.1);
    assert((seq![u.velocity.1] + t_tail).drop_first() =~= t_tail);
    let vs2 = seq![u.player_id, u.resources];
    lemma_dec_ints_rt(vs2, rest);
    assert(vs2.drop_first() =~= seq![u.resources]);
    assert(seq![u.resources].drop_first() =~= Seq::<i32>::empty());
    assert(int_tokens_of(vs2) == seq![int_token_of(u.player_id as int)] + int_tokens_of(
        seq![u.resources],
    ));
    assert(int_tokens_of(seq![u.resources]) == seq![int_token_of(u.resources as int)]
        + int_tokens_of(Seq::<i32>::empty()));
    assert(int_tokens_of(vs2) + rest =~= seq![int_token_of(u.player_id as int)] + (int_tokens_of(
        seq![u.resources],
    ) + rest));
    lemma_dec_int_rt(u.player_id, int_tokens_of(seq![u.resources]) + rest);
    assert(int_tokens_of(seq![u.resources]) + rest =~= seq![int_token_of(u.resources as int)]
        + (int_tokens_of(Seq::<i32>::empty()) + rest));
    assert(int_tokens_of(Seq::<i32>::empty()) + rest =~= rest);
    lemma_dec_int_rt(u.resources, rest);
    assert(unit_from_fields(h, u.orders, u.velocity.0, u.velocity.1, u.player_id, u.resources)
        =~= u);
    lemma_good_append(int_tokens_of(h), seq![int_token_of(n as int)]);
    lemma_good_append(int_tokens_of(h) + seq![int_token_of(n as int)], orders_tokens(u.orders));
    assert(good_tokens(seq![u.velocity.0, u.velocity.1]));
    lemma_good_append(
        int_tokens_of(h) + seq![int_token_of(n as int)] + orders_tokens(u.orders),
        seq![u.velocity.0, u.velocity.1],
    );
    lemma_good_append(
        int_tokens_of(h) + seq![int_token_of(n as int)] + orders_tokens(u.orders) + seq![
            u.velocity.0,
            u.velocity.1,
        ],
        int_tokens_of(vs2),
    );
    assert(unit_tokens(u) =~= int_tokens_of(h) + seq![int_token_of(n as int)] + orders_tokens(
        u.orders,
    ) + seq![u.velocity.0, u.velocity.1] + int_tokens_of(vs2));
}

proof fn lemma_dec_units_rt(us: Seq<UnitV>, rest: Seq<Seq<u8>>)
    requires
        forall|j: int| 0 <= j < us.len() ==> unit_wf(#[trigger] us[j]),
    ensures
        dec_units(us.len() as int, units_tokens(us) + rest) == Ok::<
            (Seq<UnitV>, Seq<Seq<u8>>),
            DecodeError,
        >((us, rest)),
        good_tokens(units_tokens(us)),
    decreases us.len(),
{
    if us.len() == 0 {
        assert(us =~= Seq::<UnitV>::empty());
        assert(units_tokens(us) + rest =~= rest);
    } else {
        let tail = us.drop_first();
        lemma_dec_units_rt(tail, rest);
        lemma_dec_unit_rt(us[0], units_tokens(tail) + rest);
        assert(units_tokens(us) + rest =~= unit_tokens(us[0]) + (units_tokens(tail) + rest));
        assert(seq![us[0]] + tail =~= us);
        lemma_good_append(unit_tokens(us[0]), units_tokens(tail));
    }
}

#[verifier::rlimit(60)]
proof fn lemma_dec_unit_groups_rt(gs: Seq<(i32, Seq<UnitV>)>, seen: Seq<i32>, rest: Seq<Seq<u8>>)
    requires
        gs.len() <= 0x7fff_ffff,
        distinct_keys(gs),
        forall|i: int| 0 <= i < gs.len() ==> !seen.contains((#[trigger] gs[i]).0),
        forall|i: int|
            0 <= i < gs.len() ==> (#[trigger] gs[i]).1.len() <= 0x7fff_ffff && forall|j: int|
                0 <= j < gs[i].1.len() ==> unit_wf(#[trigger] gs[i].1[j]),
    ensures
        dec_unit_groups(gs.len() as int, seen, unit_groups_tokens(gs) + rest) == Ok::<
            (Seq<(i32, Seq<UnitV>)>, Seq<Seq<u8>>),
            DecodeError,
        >((gs, rest)),
        good_tokens(unit_groups_tokens(gs)),
    decreases gs.len(),
{
    if gs.len() == 0 {
        assert(gs =~= Seq::<(i32, Seq<UnitV>)>::empty());
        assert(unit_groups_tokens(gs) + rest =~= rest);
    } else {
        let g = gs[0];
        let tail = gs.drop_first();
        let n: i32 = g.1.len() as i32;
        let t_rest = unit_groups_tokens(tail) + rest;
        let t_units = units_tokens(g.1) + t_rest;
        let t_count = seq![int_token_of(n as int)] + t_units;
        assert(unit_groups_tokens(gs) + rest =~= seq![int_token_of(g.0 as int)] + t_count);
        lemma_dec_int_rt(g.0, t_count);
        assert(!seen.contains(g.0));
        lemma_dec_int_rt(n, t_units);
        assert(forall|j: int| 0 <= j < g.1.len() ==> unit_wf(#[trigger] g.1[j]));
        lemma_dec_units_rt(g.1, t_rest);
        assert(forall|i: int|
            0 <= i < tail.len() ==> !seen.push(g.0).contains((#[trigger] tail[i]).0)) by {
            assert forall|i: int|
                0 <= i < tail.len() implies !seen.push(g.0).contains((#[trigger] tail[i]).0) by {
                assert(tail[i] == gs[i + 1]);
                assert(gs[i + 1].0 != g.0);
                if seen.push(g.0).contains(gs[i + 1].0) {
                    let k = choose|k: int|
                        0 <= k < seen.push(g.0).len() && seen.push(g.0)[k] == gs[i + 1].0;
                    if k < seen.len() {
                        assert(seen[k] == gs[i + 1].0);
                        assert(seen.contains(gs[i + 1].0));
                    }
                }
            }
        }
        assert(forall|i: int, j: int|
            0 <= i < j < tail.len() ==> (#[trigger] tail[i]).0 != (#[trigger] tail[j]).0) by {
            assert(forall|i: int| 0 <= i < tail.len() ==> tail[i] == gs[i + 1]);
        }
        lemma_dec_unit_groups_rt(tail, seen.push(g.0), rest);
        assert((g.0, g.1) == g);
        assert(seq![g] + tail =~= gs);
        lemma_good_append(seq![int_token_of(g.0 as int), int_token_of(n as int)], units_tokens(g.1));
        lemma_good_append(
            seq![int_token_of(g.0 as int), int_token_of(n as int)] + units_tokens(g.1),
            unit_groups_tokens(tail),
        );
        assert(good_tokens(seq![int_token_of(g.0 as int), int_token_of(n as int)])) by {
            lemma_int_token_of(g.0 as int);
            lemma_int_token_of(n as int);
        }
    }
}

#[verifier::rlimit(30)]
proof fn lemma_dec_action_rt(a: ActionV, rest: Seq<Seq<u8>>)
    requires
        a.action.len() <= 0x7fff_ffff,
    ensures
        dec_action(action_tokens(a) + rest) == Ok::<(ActionV, Seq<Seq<u8>>), DecodeError>(
            (a, rest),
        ),
        good_tokens(action_tokens(a)),
{
    let n: i32 = a.action.len() as i32;
    let t_vals = int_tokens_of(a.action) + rest;
    let t_count = seq![int_token_of(n as int)] + t_vals;
    let t_aid = seq![int_token_of(a.aid as int)] + t_count;
    assert(seq![a.uid, a.aid].drop_first() =~= seq![a.aid]);
    assert(seq![a.aid].drop_first() =~= Seq::<i32>::empty());
    assert(int_tokens_of(seq![a.uid, a.aid]) == seq![int_token_of(a.uid as int)] + int_tokens_of(
        seq![a.aid],
    ));
    assert(int_tokens_of(seq![a.aid]) == seq![int_token_of(a.aid as int)] + int_tokens_of(
        Seq::<i32>::empty(),
    ));
    assert(int_tokens_of(Seq::<i32>::empty()) =~= Seq::<Seq<u8>>::empty());
    assert(action_tokens(a) + rest =~= seq![int_token_of(a.uid as int)] + t_aid);
    lemma_dec_int_rt(a.uid, t_aid);
    lemma_dec_int_rt(a.aid, t_count);
    lemma_dec_int_rt(n, t_vals);
    lemma_dec_ints_rt(a.action, rest);
    assert(ActionV { action: a.action, uid: a.uid, aid: a.aid } =~= a);
    lemma_good_append(
        seq![int_token_of(a.uid as int), int_token_of(a.aid as int), int_token_of(n as int)],
        int_tokens_of(a.action),
    );
    assert(action_tokens(a) =~= seq![
        int_token_of(a.uid as int),
        int_token_of(a.aid as int),
        int_token_of(n as int),
    ] + int_tokens_of(a.action));
    assert(good_tokens(
        seq![int_token_of(a.uid as int), int_token_of(a.aid as int), int_token_of(n as int)],
    )) by {
        lemma_int_token_of(a.uid as int);
        lemma_int_token_of(a.aid as int);
        lemma_int_token_of(n as int);
    }
}

proof fn lemma_dec_actions_rt(xs: Seq<ActionV>, rest: Seq<Seq<u8>>)
    requires
        forall|j: int| 0 <= j < xs.len() ==> (#[trigger] xs[j]).action.len() <= 0x7fff_ffff,
    ensures
        dec_actions(xs.len() as int, actions_tokens(xs) + rest) == Ok::<
            (Seq<ActionV>, Seq<Seq<u8>>),
            DecodeError,
        >((xs, rest)),
        good_tokens(actions_tokens(xs)),
    decreases xs.len(),
{
    if xs.len() == 0 {
        assert(xs =~= Seq::<ActionV>::empty());
        assert(actions_tokens(xs) + rest =~= rest);
    } else {
        let tail = xs.drop_first();
        lemma_dec_actions_rt(tail, rest);
        lemma_dec_action_rt(xs[0], actions_tokens(tail) + rest);
        assert(actions_tokens(xs) + rest =~= action_tokens(xs[0]) + (actions_tokens(tail) + rest));
        assert(seq![xs[0]] + tail =~= xs);
        lemma_good_append(action_tokens(xs[0]), actions_tokens(tail));
    }
}

#[verifier::rlimit(60)]
proof fn lemma_dec_action_groups_rt(gs: Seq<(i32, Seq<ActionV>)>, seen: Seq<i32>, rest: Seq<Seq<u8>>)
    requires
        gs.len() <= 0x7fff_ffff,
        distinct_keys(gs),
        forall|i: int| 0 <= i < gs.len() ==> !seen.contains((#[trigger] gs[i]).0),
        forall|i: int|
            0 <= i < gs.len() ==> (#[trigger] gs[i]).1.len() <= 0x7fff_ffff && forall|j: int|
                0 <= j < gs[i].1.len() ==> (#[trigger] gs[i].1[j]).action.len() <= 0x7fff_ffff,
    ensures
        dec_action_groups(gs.len() as int, seen, action_groups_tokens(gs) + rest) == Ok::<
            (Seq<(i32, Seq<ActionV>)>, Seq<Seq<u8>>),
            DecodeError,
        >((gs, rest)),
        good_tokens(action_groups_tokens(gs)),
    decreases gs.len(),
{
    if gs.len() == 0 {
        assert(gs =~= Seq::<(i32, Seq<ActionV>)>::empty());
        assert(action_groups_tokens(gs) + rest =~= rest);
    } else {
        let g = gs[0];
        let tail = gs.drop_first();
        let n: i32 = g.1.len() as i32;
        let t_rest = action_groups_tokens(tail) + rest;
        let t_items = actions_tokens(g.1) + t_rest;
        let t_count = seq![int_token_of(n as int)] + t_items;
        assert(action_groups_tokens(gs) + rest =~= seq![int_token_of(g.0 as int)] + t_count);
        lemma_dec_int_rt(g.0, t_count);
        assert(!seen.contains(g.0));
        lemma_dec_int_rt(n, t_items);
        assert(forall|j: int|
            0 <= j < g.1.len() ==> (#[trigger] g.1[j]).action.len() <= 0x7fff_ffff);
        lemma_dec_actions_rt(g.1, t_rest);
        assert(forall|i: int|
            0 <= i < tail.len() ==> !seen.push(g.0).contains((#[trigger] tail[i]).0)) by {
            assert forall|i: int|
                0 <= i < tail.len() implies !seen.push(g.0).contains((#[trigger] tail[i]).0) by {
                assert(tail[i] == gs[i + 1]);
                assert(gs[i + 1].0 != g.0);
                if seen.push(g.0).contains(gs[i + 1].0) {
                    let k = choose|k: int|
                        0 <= k < seen.push(g.0).len() && seen.push(g.0)[k] == gs[i + 1].0;
                    if k < seen.len() {
                        assert(seen[k] == gs[i + 1].0);
                        assert(seen.contains(gs[i + 1].0));
                    }
                }
            }
        }
        assert(forall|i: int, j: int|
            0 <= i < j < tail.len() ==> (#[trigger] tail[i]).0 != (#[trigger] tail[j]).0) by {
            assert(forall|i: int| 0 <= i < tail.len() ==> tail[i] == gs[i + 1]);
        }
        lemma_dec_action_groups_rt(tail, seen.push(g.0), rest);
        assert((g.0, g.1) == g);
        assert(seq![g] + tail =~= gs);
        lemma_good_append(
            seq![int_token_of(g.0 as int), int_token_of(n as int)],
            actions_tokens(g.1),
        );
        lemma_good_append(
            seq![int_token_of(g.0 as int), int_token_of(n as int)] + actions_tokens(g.1),
            action_groups_tokens(tail),
        );
        assert(good_tokens(seq![int_token_of(g.0 as int), int_token_of(n as int)])) by {
            lemma_int_token_of(g.0 as int);
            lemma_int_token_of(n as int);
        }
    }
}

proof fn lemma_dec_resources_rt(r: Resources, rest: Seq<Seq<u8>>)
    ensures
        dec_resources_rec(resources_tokens(r) + rest) == Ok::<
            (Resources, Seq<Seq<u8>>),
            DecodeError,
        >((r, rest)),
        good_tokens(resources_tokens(r)),
{
    let vs = seq![r.ore, r.gas, r.used_psi, r.total_psi];
    lemma_dec_ints_rt(vs, rest);
    assert(vs.len() == 4);
}

#[verifier::rlimit(60)]
proof fn lemma_dec_resource_groups_rt(gs: Seq<(i32, Resources)>, seen: Seq<i32>, rest: Seq<Seq<u8>>)
    requires
        gs.len() <= 0x7fff_ffff,
        distinct_keys(gs),
        forall|i: int| 0 <= i < gs.len() ==> !seen.contains((#[trigger] gs[i]).0),
    ensures
        dec_resource_groups(gs.len() as int, seen, resource_groups_tokens(gs) + rest) == Ok::<
            (Seq<(i32, Resources)>, Seq<Seq<u8>>),
            DecodeError,
        >((gs, rest)),
        good_tokens(resource_groups_tokens(gs)),
    decreases gs.len(),
{
    if gs.len() == 0 {
        assert(gs =~= Seq::<(i32, Resources)>::empty());
        assert(resource_groups_tokens(gs) + rest =~= rest);
    } else {
        let g = gs[0];
        let tail = gs.drop_first();
        let t_rest = resource_groups_tokens(tail) + rest;
        let t_rec = resources_tokens(g.1) + t_rest;
        assert(resource_groups_tokens(gs) + rest =~= seq![int_token_of(g.0 as int)] + t_rec);
        lemma_dec_int_rt(g.0, t_rec);
        assert(!seen.contains(g.0));
        lemma_dec_resources_rt(g.1, t_rest);
        assert(forall|i: int|
            0 <= i < tail.len() ==> !seen.push(g.0).contains((#[trigger] tail[i]).0)) by {
            assert forall|i: int|
                0 <= i < tail.len() implies !seen.push(g.0).contains((#[trigger] tail[i]).0) by {
                assert(tail[i] == gs[i + 1]);
                assert(gs[i + 1].0 != g.0);
                if seen.push(g.0).contains(gs[i + 1].0) {
                    let k = choose|k: int|
                        0 <= k < seen.push(g.0).len() && seen.push(g.0)[k] == gs[i + 1].0;
                    if k < seen.len() {
                        assert(seen[k] == gs[i + 1].0);
                        assert(seen.contains(gs[i + 1].0));
                    }
                }
            }
        }
        assert(forall|i: int, j: int|
            0 <= i < j < tail.len() ==> (#[trigger] tail[i]).0 != (#[trigger] tail[j]).0) by {
            assert(forall|i: int| 0 <= i < tail.len() ==> tail[i] == gs[i + 1]);
        }
        lemma_dec_resource_groups_rt(tail, seen.push(g.0), rest);
        assert((g.0, g.1) == g);
        assert(seq![g] + tail =~= gs);
        lemma_good_append(seq![int_token_of(g.0 as int)], resources_tokens(g.1));
        lemma_good_append(
            seq![int_token_of(g.0 as int)] + resources_tokens(g.1),
            resource_groups_tokens(tail),
        );
        assert(good_tokens(seq![int_token_of(g.0 as int)])) by {
            lemma_int_token_of(g.0 as int);
        }
    }
}

proof fn lemma_dec_bullet_rt(b: Bullet, rest: Seq<Seq<u8>>)
    ensures
        dec_bullet(bullet_tokens(b) + rest) == Ok::<(Bullet, Seq<Seq<u8>>), DecodeError>((b, rest)),
        good_tokens(bullet_tokens(b)),
{
    let vs = seq![b.type_, b.coords.0, b.coords.1];
    lemma_dec_ints_rt(vs, rest);
    assert(vs.len() == 3);
    assert((vs[1], vs[2]) == b.coords);
}

proof fn lemma_dec_bullets_rt(bs: Seq<Bullet>, rest: Seq<Seq<u8>>)
    ensures
        dec_bullets(bs.len() as int, bullets_tokens(bs) + rest) == Ok::<
            (Seq<Bullet>, Seq<Seq<u8>>),
            DecodeError,
        >((bs, rest)),
        good_tokens(bullets_tokens(bs)),
    decreases bs.len(),
{
    if bs.len() == 0 {
        assert(bs =~= Seq::<Bullet>::empty());
        assert(bullets_tokens(bs) + rest =~= rest);
    } else {
        let tail = bs.drop_first();
        lemma_dec_bullets_rt(tail, rest);
        lemma_dec_bullet_rt(bs[0], bullets_tokens(tail) + rest);
        assert(bullets_tokens(bs) + rest =~= bullet_tokens(bs[0]) + (bullets_tokens(tail) + rest));
        assert(seq![bs[0]] + tail =~= bs);
        lemma_good_append(bullet_tokens(bs[0]), bullets_tokens(tail));
    }
}

/// Decoding the token serialization of a well-formed frame reproduces
/// the frame, whatever tokens follow it.
#[verifier::rlimit(100)]
pub proof fn lemma_frame_round_trip(f: FrameV, rest: Seq<Seq<u8>>)
    requires
        frame_wf(f),
    ensures
        dec_frame(frame_tokens(f) + rest) == Ok::<(FrameV, Seq<Seq<u8>>), DecodeError>((f, rest)),
        good_tokens(frame_tokens(f)),
{
    let nu: i32 = f.units.len() as i32;
    let na: i32 = f.actions.len() as i32;
    let nr: i32 = f.resources.len() as i32;
    let nb: i32 = f.bullets.len() as i32;
    let t9 = seq![bool_token(f.is_terminal)];
    let t8 = seq![int_token_of(f.reward as int)] + t9 + rest;
    let t7 = bullets_tokens(f.bullets) + t8;
    let t6 = seq![int_token_of(nb as int)] + t7;
    let t5 = resource_groups_tokens(f.resources) + t6;
    let t4 = seq![int_token_of(nr as int)] + t5;
    let t3 = action_groups_tokens(f.actions) + t4;
    let t2 = seq![int_token_of(na as int)] + t3;
    let t1 = unit_groups_tokens(f.units) + t2;
    assert(frame_tokens(f) + rest =~= seq![int_token_of(nu as int)] + t1);
    lemma_dec_int_rt(nu, t1);
    lemma_dec_unit_groups_rt(f.units, Seq::empty(), t2);
    lemma_dec_int_rt(na, t3);
    lemma_dec_action_groups_rt(f.actions, Seq::empty(), t4);
    lemma_dec_int_rt(nr, t5);
    lemma_dec_resource_groups_rt(f.resources, Seq::empty(), t6);
    lemma_dec_int_rt(nb, t7);
    lemma_dec_bullets_rt(f.bullets, t8);
    assert(t8 =~= seq![int_token_of(f.reward as int)] + (t9 + rest));
    lemma_dec_int_rt(f.reward, t9 + rest);
    let term: i32 = if f.is_terminal { 1 } else { 0 };
    assert(t9 + rest =~= seq![int_token_of(term as int)] + rest);
    lemma_dec_int_rt(term, rest);
    assert(FrameV {
        units: f.units,
        actions: f.actions,
        resources: f.resources,
        bullets: f.bullets,
        reward: f.reward,
        is_terminal: term > 0,
    } =~= f);
    lemma_good_append(seq![int_token_of(nu as int)], unit_groups_tokens(f.units));
    let g1 = seq![int_token_of(nu as int)] + unit_groups_tokens(f.units);
    lemma_good_append(g1, seq![int_token_of(na as int)]);
    let g2 = g1 + seq![int_token_of(na as int)];
    lemma_good_append(g2, action_groups_tokens(f.actions));
    let g3 = g2 + action_groups_tokens(f.actions);
    lemma_good_append(g3, seq![int_token_of(nr as int)]);
    let g4 = g3 + seq![int_token_of(nr as int)];
    lemma_good_append(g4, resource_groups_tokens(f.resources));
    let g5 = g4 + resource_groups_tokens(f.resources);
    lemma_good_append(g5, seq![int_token_of(nb as int)]);
    let g6 = g5 + seq![int_token_of(nb as int)];
    lemma_good_append(g6, bullets_tokens(f.bullets));
    let g7 = g6 + bullets_tokens(f.bullets);
    assert(good_tokens(seq![int_token_of(f.reward as int), bool_token(f.is_terminal)])) by {
        lemma_int_token_of(f.reward as int);
        lemma_int_token_of(term as int);
    }
    lemma_good_append(g7, seq![int_token_of(f.reward as int), bool_token(f.is_terminal)]);
    assert(good_tokens(seq![int_token_of(nu as int)])) by {
        lemma_int_token_of(nu as int);
    }
    assert(good_tokens(seq![int_token_of(na as int)])) by {
        lemma_int_token_of(na as int);
    }
    assert(good_tokens(seq![int_token_of(nr as int)])) by {
        lemma_int_token_of(nr as int);
    }
    assert(good_tokens(seq![int_token_of(nb as int)])) by {
        lemma_int_token_of(nb as int);
    }
    assert(frame_tokens(f) =~= g7 + seq![int_token_of(f.reward as int), bool_token(f.is_terminal)]);
}

// ---------------------------------------------------------------------
// From tokens to the wire: joining with spaces splits back.
// ---------------------------------------------------------------------

/// The tokens joined by single spaces.
pub open spec fn join_tokens(toks: Seq<Seq<u8>>) -> Seq<u8>
    decreases toks.len(),
{
    if toks.len() == 0 {
        Seq::empty()
    } else if toks.len() == 1 {
        toks[0]
    } else {
        toks[0] + seq![32u8] + join_tokens(toks.drop_first())
    }
}

/// A whole frame as one bracket-delimited wire value.
pub open spec fn frame_wire(f: FrameV) -> Seq<u8> {
    seq![123u8] + join_tokens(frame_tokens(f)) + seq![125u8]
}

proof fn lemma_split_single(t: Seq<u8>)
    requires
        good_token(t),
    ensures
        split_on(t, 32) == seq![t],
    decreases t.len(),
{
    if t.len() == 1 {
        assert(t.drop_last() =~= Seq::<u8>::empty());
        assert(split_on(t.drop_last(), 32) == seq![Seq::<u8>::empty()]);
        assert(t.last() != 32);
        assert(split_on(t, 32) =~= seq![t]) by {
            assert(Seq::<u8>::empty().push(t.last()) =~= t);
        }
    } else {
        assert(good_token(t.drop_last())) by {
            assert(forall|i: int| 0 <= i < t.len() - 1 ==> t.drop_last()[i] == t[i]);
        }
        lemma_split_single(t.drop_last());
        assert(t.last() != 32);
        assert(split_on(t, 32) =~= seq![t]) by {
            assert(t.drop_last().push(t.last()) =~= t);
        }
    }
}

proof fn lemma_split_append(a: Seq<u8>, b: Seq<u8>)
    ensures
        split_on(a + seq![32u8] + b, 32) == split_on(a, 32) + split_on(b, 32),
    decreases b.len(),
{
    crate::tokens::lemma_split_on_len(a, 32);
    if b.len() == 0 {
        let s = a + seq![32u8] + b;
        assert(s =~= a + seq![32u8]);
        assert(s.drop_last() =~= a);
        assert(s.last() == 32);
        assert(split_on(b, 32) == seq![Seq::<u8>::empty()]);
    } else {
        let s = a + seq![32u8] + b;
        let b2 = b.drop_last();
        assert(s.drop_last() =~= a + seq![32u8] + b2);
        assert(s.last() == b.last());
        lemma_split_append(a, b2);
        crate::tokens::lemma_split_on_len(b2, 32);
        assert(b.drop_last() =~= b2);
        if b.last() == 32 {
            assert(split_on(s, 32) =~= split_on(a, 32) + split_on(b, 32));
        } else {
            let x = split_on(a, 32) + split_on(b2, 32);
            assert(split_on(s, 32) == x.update(x.len() - 1, x.last().push(b.last())));
            assert(x.last() == split_on(b2, 32).last());
            assert(split_on(b, 32) == split_on(b2, 32).update(
                split_on(b2, 32).len() - 1,
                split_on(b2, 32).last().push(b.last()),
            ));
            assert(split_on(s, 32) =~= split_on(a, 32) + split_on(b, 32));
        }
    }
}

/// Splitting the space-joined tokens back at whitespace recovers exactly
/// the tokens, provided each is non-empty and space-free.
proof fn lemma_tokens_of_join(toks: Seq<Seq<u8>>)
    requires
        good_tokens(toks),
    ensures
        tokens_of(join_tokens(toks)) == toks,
    decreases toks.len(),
{
    let pred = |p: Seq<u8>| p.len() != 0;
    if toks.len() == 0 {
        assert(split_on(Seq::<u8>::empty(), 32) == seq![Seq::<u8>::empty()]);
        reveal_with_fuel(Seq::filter, 2);
        assert(seq![Seq::<u8>::empty()].drop_last() =~= Seq::<Seq<u8>>::empty());
        assert(tokens_of(join_tokens(toks)) =~= toks);
    } else if toks.len() == 1 {
        assert(good_token(toks[0]));
        lemma_split_single(toks[0]);
        reveal_with_fuel(Seq::filter, 2);
        assert(seq![toks[0]].drop_last() =~= Seq::<Seq<u8>>::empty());
        assert(seq![toks[0]].last() == toks[0]);
        assert(tokens_of(join_tokens(toks)) =~= toks);
    } else {
        let tail = toks.drop_first();
        assert(good_tokens(tail)) by {
            assert(forall|k: int| 0 <= k < tail.len() ==> tail[k] == toks[k + 1]);
        }
        lemma_tokens_of_join(tail);
        lemma_split_append(toks[0], join_tokens(tail));
        lemma_split_single(toks[0]);
        Seq::filter_distributes_over_add(
            split_on(toks[0], 32),
            split_on(join_tokens(tail), 32),
            pred,
        );
        reveal_with_fuel(Seq::filter, 2);
        assert(seq![toks[0]].drop_last() =~= Seq::<Seq<u8>>::empty());
        assert(seq![toks[0]].last() == toks[0]);
        assert(good_token(toks[0]));
        assert(split_on(toks[0], 32).filter(pred) =~= seq![toks[0]]);
        assert(tokens_of(join_tokens(toks)) =~= seq![toks[0]] + tail);
        assert(seq![toks[0]] + tail =~= toks);
    }
}

/// The round-trip grammar law: a well-formed frame, serialized to its
/// bracket-delimited wire value, decodes back to an equal frame.
pub proof fn lemma_frame_wire_round_trip(f: FrameV)
    requires
        frame_wf(f),
    ensures
        frame_of_wire(frame_wire(f)) == Ok::<FrameV, DecodeError>(f),
{
    lemma_frame_round_trip(f, Seq::empty());
    let w = frame_wire(f);
    assert(inner(w) =~= join_tokens(frame_tokens(f)));
    lemma_tokens_of_join(frame_tokens(f));
    assert(frame_tokens(f) + Seq::<Seq<u8>>::empty() =~= frame_tokens(f));
}

} // verus!

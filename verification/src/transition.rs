//! Tonal transitions between sonata sections.
//!
//! Key areas are points on the circle of fifths; a transition between two
//! sections is a path around that circle, one fifth at a time.
//!
//! Distances on the circle are whole numbers of fifths and are returned as
//! integers; the distance that includes the mode penalty of half a fifth is
//! returned in half-fifths.
use vstd::prelude::*;
use crate::form::{Section, SonataForm};

verus! {

/// Absolute value of an integer.
pub open spec fn abs(d: int) -> int {
    if d < 0 {
        -d
    } else {
        d
    }
}

/// Sign of an integer: -1, 0 or 1.
pub open spec fn sign(d: int) -> int {
    if d < 0 {
        -1
    } else if d > 0 {
        1
    } else {
        0
    }
}

/// Whether a difference of two `i32` values can be formed and negated in `i32`.
pub open spec fn negatable(d: int) -> bool {
    -i32::MAX <= d <= i32::MAX
}

/// Shortest distance around the circle of twelve fifths for a difference `d`.
pub open spec fn circle_steps(d: int) -> int {
    let r = abs(d) % 12;
    if r <= 12 - r {
        r
    } else {
        12 - r
    }
}

/// The signed number of fifths a transition moves: the key difference itself
/// when it is at most six fifths, otherwise shifted by one turn of twelve.
pub open spec fn transition_steps(from: int, to: int) -> int {
    let diff = to - from;
    if abs(diff) <= 6 {
        diff
    } else if diff > 0 {
        diff - 12
    } else {
        diff + 12
    }
}

/// Number of keys passed through strictly between the two ends of a transition.
pub open spec fn intermediate_count(from: int, to: int) -> int {
    let n = abs(transition_steps(from, to));
    if n > 1 {
        n - 1
    } else {
        0
    }
}

/// The keys (in major) passed through by the transition from `from` to `to`.
pub open spec fn intermediate_keys(from: int, to: int) -> Seq<TonalPoint> {
    Seq::new(
        intermediate_count(from, to) as nat,
        |k: int|
            TonalPoint { fifths: (from + sign(transition_steps(from, to)) * (k + 1)) as i32, mode: 0 },
    )
}

/// Inputs on which computing a transition stays within `i32`.
pub open spec fn transition_ok(from: int, to: int) -> bool {
    &&& negatable(to - from)
    &&& intermediate_count(from, to) > 0 ==> i32::MIN <= from + transition_steps(from, to) - sign(
        transition_steps(from, to),
    ) <= i32::MAX
}

/// Whether `compute_transition(from_key, to_key)` stays within `i32`; where
/// it does not, the arithmetic of the transition overflows.
pub fn transition_fits(from_key: i32, to_key: i32) -> (b: bool)
    ensures
        b == transition_ok(from_key as int, to_key as int),
{
    let diff = to_key as i64 - from_key as i64;
    if diff < -(i32::MAX as i64) || diff > i32::MAX as i64 {
        return false;
    }
    let abs_diff = if diff < 0 {
        -diff
    } else {
        diff
    };
    let steps = if abs_diff <= 6 {
        diff
    } else if diff > 0 {
        diff - 12
    } else {
        diff + 12
    };
    let n_steps = if steps < 0 {
        -steps
    } else {
        steps
    };
    if n_steps <= 1 {
        return true;
    }
    let direction: i64 = if steps < 0 {
        -1
    } else {
        1
    };
    let last = from_key as i64 + steps - direction;
    i32::MIN as i64 <= last && last <= i32::MAX as i64
}

/// A point in tonal space (circle of fifths + mode).
#[derive(Debug, Clone, Copy)]
pub struct TonalPoint {
    /// Position on circle of fifths (0=C, 1=G, -1=F, etc.)
    pub fifths: i32,
    /// Mode: 0 = major, 1 = minor.
    pub mode: u8,
}

impl TonalPoint {
    /// Create a new tonal point.
    pub fn new(fifths: i32, mode: u8) -> (p: Self)
        ensures
            p == (TonalPoint { fifths, mode }),
    {
        TonalPoint { fifths, mode }
    }

    /// Distance on the circle of fifths (wrapping at 12), in fifths.
    pub fn circle_distance(&self, other: &TonalPoint) -> (d: u32)
        requires
            negatable(self.fifths - other.fifths),
        ensures
            d == circle_steps(self.fifths - other.fifths),
    {
        let raw = self.fifths - other.fifths;
        let diff = (if raw < 0 {
            -raw
        } else {
            raw
        }) % 12;
        let wrapped = if diff <= 12 - diff {
            diff
        } else {
            12 - diff
        };
        wrapped as u32
    }

    /// Full distance including mode difference, in half-fifths: twice the
    /// circle distance, plus one (half a fifth) when the modes differ.
    pub fn distance(&self, other: &TonalPoint) -> (h: u32)
        requires
            negatable(self.fifths - other.fifths),
        ensures
            h == 2 * circle_steps(self.fifths - other.fifths) + (if self.mode != other.mode {
                1int
            } else {
                0int
            }),
    {
        let fifths_dist = self.circle_distance(other);
        let mode_penalty: u32 = if self.mode != other.mode {
            1
        } else {
            0
        };
        2 * fifths_dist + mode_penalty
    }
}

/// A transition between two tonal regions.
#[derive(Debug, Clone)]
pub struct TonalTransition {
    /// Source tonal region.
    pub from: TonalPoint,
    /// Target tonal region.
    pub to: TonalPoint,
    /// Length of transition path (in circle-of-fifths distance).
    pub path_length: u32,
    /// The intermediate keys the transition passes through.
    pub intermediates: Vec<TonalPoint>,
}

/// What `compute_transition(from, to)` returns.
pub open spec fn is_transition(t: TonalTransition, from: int, to: int) -> bool {
    &&& t.from == TonalPoint { fifths: from as i32, mode: 0 }
    &&& t.to == TonalPoint { fifths: to as i32, mode: 0 }
    &&& t.path_length == circle_steps(from - to)
    &&& t.intermediates@ == intermediate_keys(from, to)
}

/// Compute the tonal transition between two keys.
pub fn compute_transition(from_key: i32, to_key: i32) -> (t: TonalTransition)
    requires
        transition_ok(from_key as int, to_key as int),
    ensures
        is_transition(t, from_key as int, to_key as int),
{
    let from = TonalPoint::new(from_key, 0);
    let to = TonalPoint::new(to_key, 0);

    let direct_dist = from.circle_distance(&to);

    let mut intermediates: Vec<TonalPoint> = Vec::new();
    let diff = to.fifths - from.fifths;
    let abs_diff = if diff < 0 {
        -diff
    } else {
        diff
    };
    let steps = if abs_diff <= 6 {
        diff
    } else if diff > 0 {
        diff - 12
    } else {
        diff + 12
    };
    let n_steps = if steps < 0 {
        -steps
    } else {
        steps
    };
    let direction: i32 = if steps < 0 {
        -1
    } else if steps > 0 {
        1
    } else {
        0
    };
    assert(steps == transition_steps(from_key as int, to_key as int));
    if n_steps > 1 {
        let mut i: i32 = 1;
        while i < n_steps
            invariant
                1 <= i <= n_steps,
                n_steps == abs(transition_steps(from_key as int, to_key as int)),
                n_steps > 1,
                direction == sign(transition_steps(from_key as int, to_key as int)),
                transition_ok(from_key as int, to_key as int),
                intermediates@ == intermediate_keys(from_key as int, to_key as int).take(i - 1),
            decreases n_steps - i,
        {
            let ghost before = intermediates@;
            assert(from_key + direction * i == from_key + sign(
                transition_steps(from_key as int, to_key as int),
            ) * i) by (nonlinear_arith)
                requires
                    direction == sign(transition_steps(from_key as int, to_key as int)),
            ;
            assert(i32::MIN <= from_key + direction * i <= i32::MAX) by (nonlinear_arith)
                requires
                    1 <= i < n_steps,
                    direction == 1 || direction == -1,
                    direction == 1 ==> n_steps == transition_steps(from_key as int, to_key as int),
                    direction == -1 ==> n_steps == -transition_steps(from_key as int, to_key as int),
                    i32::MIN <= from_key + transition_steps(from_key as int, to_key as int) - direction
                        <= i32::MAX,
                    i32::MIN <= from_key <= i32::MAX,
            ;
            intermediates.push(TonalPoint::new(from_key + direction * i, 0));
            assert(intermediates@ =~= intermediate_keys(from_key as int, to_key as int).take(i as int));
            i = i + 1;
        }
    }
    assert(intermediates@ =~= intermediate_keys(from_key as int, to_key as int));

    TonalTransition { path_length: direct_dist, intermediates, from, to }
}

/// Whether every pair of neighbouring sections admits a transition in `i32`.
pub open spec fn transitions_ok(s: Seq<Section>) -> bool {
    forall|i: int| 0 <= i < s.len() - 1 ==> transition_ok(#[trigger] s[i].key as int, s[i + 1].key as int)
}

/// Build a transition map for all section boundaries in a sonata.
pub fn transition_map(sonata: &SonataForm) -> (r: Vec<TonalTransition>)
    requires
        transitions_ok(sonata.sections@),
    ensures
        r@.len() == (if sonata.sections@.len() > 0 {
            sonata.sections@.len() - 1
        } else {
            0
        }),
        forall|i: int|
            0 <= i < r@.len() ==> is_transition(
                #[trigger] r@[i],
                sonata.sections@[i].key as int,
                sonata.sections@[i + 1].key as int,
            ),
{
    let mut transitions: Vec<TonalTransition> = Vec::new();
    let n = sonata.sections.len();
    let bound = n.saturating_sub(1);
    for i in 0..bound
        invariant
            n == sonata.sections@.len(),
            bound == (if n > 0 {
                n - 1
            } else {
                0
            }),
            transitions_ok(sonata.sections@),
            transitions@.len() == i,
            forall|j: int|
                0 <= j < i ==> is_transition(
                    #[trigger] transitions@[j],
                    sonata.sections@[j].key as int,
                    sonata.sections@[j + 1].key as int,
                ),
    {
        let from = &sonata.sections[i];
        let to = &sonata.sections[i + 1];
        transitions.push(compute_transition(from.key, to.key));
    }
    transitions
}

/// Sum of the circle distances over the first `k` section boundaries.
pub open spec fn circle_sum(s: Seq<Section>, k: int) -> int
    decreases k,
{
    if k <= 0 {
        0
    } else {
        circle_sum(s, k - 1) + circle_steps(s[k - 1].key - s[k].key)
    }
}

/// Number of section boundaries of a sequence of sections.
pub open spec fn boundaries(s: Seq<Section>) -> int {
    if s.len() > 0 {
        s.len() - 1
    } else {
        0
    }
}

/// Compute the total tonal distance traveled in a sonata, in fifths.
pub fn total_tonal_distance(sonata: &SonataForm) -> (d: u128)
    requires
        transitions_ok(sonata.sections@),
    ensures
        d == circle_sum(sonata.sections@, boundaries(sonata.sections@)),
{
    let map = transition_map(sonata);
    let mut total: u128 = 0;
    let n = map.len();
    for i in 0..n
        invariant
            n == map@.len(),
            n == boundaries(sonata.sections@),
            forall|j: int|
                0 <= j < n ==> is_transition(
                    #[trigger] map@[j],
                    sonata.sections@[j].key as int,
                    sonata.sections@[j + 1].key as int,
                ),
            total == circle_sum(sonata.sections@, i as int),
    {
        proof {
            assert(is_transition(map@[i as int], sonata.sections@[i as int].key as int, sonata.sections@[i + 1].key as int));
            lemma_circle_sum_bound(sonata.sections@, i + 1);
        }
        total = total + map[i].path_length as u128;
    }
    total
}

/// Each boundary adds at most six fifths to the circle sum.
pub proof fn lemma_circle_sum_bound(s: Seq<Section>, k: int)
    requires
        0 <= k,
    ensures
        0 <= circle_sum(s, k) <= 6 * k,
    decreases k,
{
    if k > 0 {
        lemma_circle_sum_bound(s, k - 1);
        lemma_circle_steps_range(s[k - 1].key - s[k].key);
    }
}

/// The circle distance lies between 0 and 6.
pub proof fn lemma_circle_steps_range(d: int)
    ensures
        0 <= circle_steps(d) <= 6,
{
}

/// Classify the type of transition.
#[derive(Debug, Clone, Copy, PartialEq, Eq, Structural)]
pub enum TransitionType {
    /// No key change.
    Static,
    /// Move to dominant (up a fifth).
    ToDominant,
    /// Move to subdominant (down a fifth).
    ToSubdominant,
    /// Move to relative key.
    Relative,
    /// Distant modulation.
    Distant,
}

/// The class of a key change that moves the key by `r` fifths upwards,
/// counted modulo 12 (`0 <= r < 12`): one fifth up is a move to the dominant,
/// one fifth down (eleven up) a move to the subdominant.
pub open spec fn class_of(r: int) -> TransitionType {
    if r == 0 {
        TransitionType::Static
    } else if r == 1 {
        TransitionType::ToDominant
    } else if r == 11 || r == 5 || r == 7 {
        TransitionType::ToSubdominant
    } else if r == 3 || r == 9 {
        TransitionType::Relative
    } else {
        TransitionType::Distant
    }
}

/// Remainder of a key change modulo 12, as a number of fifths upwards in `0..12`.
proof fn lemma_upward_remainder(d: int, a: int, m: int)
    requires
        d < 0,
        a == -d,
        m == a % 12,
    ensures
        d % 12 == (if m == 0 {
            0
        } else {
            12 - m
        }),
{
    vstd::arithmetic::div_mod::lemma_fundamental_div_mod(a, 12);
    let q = a / 12;
    if m == 0 {
        vstd::arithmetic::div_mod::lemma_fundamental_div_mod_converse_mod(d, 12, -q, 0);
    } else {
        vstd::arithmetic::div_mod::lemma_fundamental_div_mod_converse_mod(d, 12, -q - 1, 12 - m);
    }
}

/// Classify a transition between two keys by the number of fifths it moves
/// upwards, modulo 12.
pub fn classify_transition(from_key: i32, to_key: i32) -> (c: TransitionType)
    requires
        negatable(to_key - from_key),
    ensures
        c == class_of((to_key - from_key) % 12),
{
    let raw = to_key - from_key;
    let up: i32 = if raw < 0 {
        let m = (-raw) % 12;
        proof {
            lemma_upward_remainder(raw as int, -raw as int, m as int);
        }
        if m == 0 {
            0
        } else {
            12 - m
        }
    } else {
        raw % 12
    };
    if up == 0 {
        TransitionType::Static
    } else if up == 1 {
        TransitionType::ToDominant
    } else if up == 11 || up == 5 || up == 7 {
        TransitionType::ToSubdominant
    } else if up == 3 || up == 9 {
        TransitionType::Relative
    } else {
        TransitionType::Distant
    }
}

/// A key difference brought into the range -6..=6 by one turn of twelve when
/// it lies outside.
pub open spec fn normalized_change(d: int) -> int {
    if d > 6 {
        d - 12
    } else if d < -6 {
        d + 12
    } else {
        d
    }
}

/// Sum of the normalized key changes over the first `k` section boundaries.
pub open spec fn change_sum(s: Seq<Section>, k: int) -> int
    decreases k,
{
    if k <= 0 {
        0
    } else {
        change_sum(s, k - 1) + abs(normalized_change(s[k].key - s[k - 1].key))
    }
}

/// Whether every key change between neighbouring sections fits in `i32`.
pub open spec fn keys_subtractable(s: Seq<Section>) -> bool {
    forall|i: int|
        0 <= i < s.len() - 1 ==> i32::MIN <= #[trigger] s[i + 1].key - s[i].key <= i32::MAX
}

/// Each boundary adds at most 2^31 fifths to the change sum.
pub proof fn lemma_change_sum_bound(s: Seq<Section>, k: int)
    requires
        0 <= k <= boundaries(s),
        keys_subtractable(s),
    ensures
        0 <= change_sum(s, k) <= 0x8000_0000 * k,
    decreases k,
{
    if k > 0 {
        lemma_change_sum_bound(s, k - 1);
        assert(i32::MIN <= s[(k - 1) + 1].key - s[k - 1].key <= i32::MAX);
    }
}

/// Topological complexity of the tonal path through a sonata: the sum of the
/// absolute key changes at the section boundaries, each taken the short way
/// when it exceeds six fifths.
pub fn tonal_complexity(sonata: &SonataForm) -> (c: u128)
    requires
        keys_subtractable(sonata.sections@),
    ensures
        c == change_sum(sonata.sections@, boundaries(sonata.sections@)),
{
    let mut total_change: u128 = 0;
    let n = sonata.sections.len();
    let bound = n.saturating_sub(1);
    for i in 0..bound
        invariant
            n == sonata.sections@.len(),
            bound == boundaries(sonata.sections@),
            keys_subtractable(sonata.sections@),
            total_change == change_sum(sonata.sections@, i as int),
    {
        let from = sonata.sections[i].key;
        let to = sonata.sections[i + 1].key;
        let diff = to - from;
        let normalized = if diff > 6 {
            diff - 12
        } else if diff < -6 {
            diff + 12
        } else {
            diff
        };
        let magnitude = if normalized < 0 {
            -normalized
        } else {
            normalized
        };
        proof {
            lemma_change_sum_bound(sonata.sections@, i + 1);
        }
        total_change = total_change + magnitude as u128;
    }
    total_change
}

/// Circle distance does not depend on the direction of the difference.
pub proof fn lemma_circle_steps_symmetric(d: int)
    ensures
        circle_steps(d) == circle_steps(-d),
{
}

/// Shifting a key difference by one whole turn of twelve fifths leaves the
/// circle distance unchanged.
pub proof fn lemma_circle_steps_turn(d: int)
    ensures
        circle_steps(d + 12) == circle_steps(d),
{
    let a = abs(d);
    let b = abs(d + 12);
    if d >= 0 {
        vstd::arithmetic::div_mod::lemma_fundamental_div_mod(d, 12);
        vstd::arithmetic::div_mod::lemma_fundamental_div_mod_converse_mod(d + 12, 12, d / 12 + 1, d % 12);
    } else if d <= -12 {
        vstd::arithmetic::div_mod::lemma_fundamental_div_mod(-d - 12, 12);
        vstd::arithmetic::div_mod::lemma_fundamental_div_mod_converse_mod(
            -d,
            12,
            (-d - 12) / 12 + 1,
            (-d - 12) % 12,
        );
    } else {
        vstd::arithmetic::div_mod::lemma_fundamental_div_mod_converse_mod(-d, 12, 0, -d);
        vstd::arithmetic::div_mod::lemma_fundamental_div_mod_converse_mod(d + 12, 12, 0, d + 12);
    }
}

/// Shifting a key difference by any number of whole turns leaves the circle
/// distance unchanged.
pub proof fn lemma_circle_steps_turns(d: int, k: int)
    ensures
        circle_steps(d + 12 * k) == circle_steps(d),
    decreases abs(k),
{
    if k > 0 {
        lemma_circle_steps_turns(d, k - 1);
        lemma_circle_steps_turn(d + 12 * (k - 1));
    } else if k < 0 {
        lemma_circle_steps_turns(d, k + 1);
        lemma_circle_steps_turn(d + 12 * k);
    }
}

/// The circle distance is at most the size of any representative of the
/// difference modulo twelve.
pub proof fn lemma_circle_steps_le_representative(d: int, k: int)
    ensures
        circle_steps(d) <= abs(d - 12 * k),
{
    lemma_circle_steps_turns(d - 12 * k, k);
    let m = d - 12 * k;
    vstd::arithmetic::div_mod::lemma_fundamental_div_mod(abs(m), 12);
    assert(abs(m) % 12 <= abs(m)) by {
        vstd::arithmetic::div_mod::lemma_mod_decreases(abs(m) as nat, 12);
    }
}

/// Some representative of the difference modulo twelve has exactly the
/// circle distance as its size.
pub proof fn lemma_circle_steps_attained(d: int) -> (k: int)
    ensures
        circle_steps(d) == abs(d - 12 * k),
{
    vstd::arithmetic::div_mod::lemma_fundamental_div_mod(d, 12);
    let q = d / 12;
    let r = d % 12;
    lemma_circle_steps_turns(r, q);
    assert(d == r + 12 * q);
    vstd::arithmetic::div_mod::lemma_fundamental_div_mod_converse_mod(r, 12, 0, r);
    if r <= 6 {
        q
    } else {
        q + 1
    }
}

/// Triangle inequality: going from `a` to `c` around the circle of fifths is
/// never longer than going through `b`.
pub proof fn lemma_circle_distance_triangle(a: int, b: int, c: int)
    ensures
        circle_steps(a - c) <= circle_steps(a - b) + circle_steps(b - c),
{
    let k1 = lemma_circle_steps_attained(a - b);
    let k2 = lemma_circle_steps_attained(b - c);
    lemma_circle_steps_le_representative(a - c, k1 + k2);
    assert(a - c - 12 * (k1 + k2) == (a - b - 12 * k1) + (b - c - 12 * k2));
}

/// `TonalPoint::circle_distance` is a symmetric function of the two keys,
/// zero from a key to itself, and at most six fifths.
pub proof fn lemma_circle_distance_metric(a: int, b: int)
    ensures
        circle_steps(a - b) == circle_steps(b - a),
        circle_steps(a - a) == 0,
        0 <= circle_steps(a - b) <= 6,
{
    lemma_circle_steps_symmetric(a - b);
}

/// The steps a transition walks are its key difference normalized as in
/// `tonal_complexity`.
pub proof fn lemma_steps_are_normalized_change(from: int, to: int)
    ensures
        transition_steps(from, to) == normalized_change(to - from),
{
}

/// When the key difference is at most eighteen fifths, the normalized change
/// is as short as the circle distance.
pub proof fn lemma_normalized_change_is_shortest(d: int)
    requires
        -18 <= d <= 18,
    ensures
        abs(normalized_change(d)) == circle_steps(d),
{
    if d > 6 {
        lemma_circle_steps_turn(d - 12);
    } else if d < -6 {
        lemma_circle_steps_turn(d);
    }
}

/// A transition walks one fifth at a time from its source to a key that is
/// the same as its target modulo twelve; when the keys are at most eighteen
/// fifths apart, the walk is as long as the path length, so a transition of
/// length `n > 0` passes through exactly `n - 1` intermediate keys.
pub proof fn lemma_transition_walk(from: int, to: int)
    requires
        i32::MIN <= from <= i32::MAX,
        transition_ok(from, to),
    ensures
        (from + transition_steps(from, to) - to) % 12 == 0,
        intermediate_count(from, to) > 0 ==> abs(sign(transition_steps(from, to))) == 1,
        intermediate_count(from, to) > 0 ==> intermediate_keys(from, to)[0].fifths - from == sign(
            transition_steps(from, to),
        ),
        forall|k: int|
            0 < k < intermediate_count(from, to) ==> (#[trigger] intermediate_keys(from, to)[k]).fifths
                - intermediate_keys(from, to)[k - 1].fifths == sign(transition_steps(from, to)),
        intermediate_count(from, to) > 0 ==> from + transition_steps(from, to) - intermediate_keys(
            from,
            to,
        )[intermediate_count(from, to) - 1].fifths == sign(transition_steps(from, to)),
        -18 <= to - from <= 18 ==> abs(transition_steps(from, to)) == circle_steps(from - to),
        -18 <= to - from <= 18 ==> intermediate_count(from, to) == (if circle_steps(from - to) > 0 {
            circle_steps(from - to) - 1
        } else {
            0
        }),
{
    lemma_circle_steps_symmetric(to - from);
    if -18 <= to - from <= 18 {
        lemma_normalized_change_is_shortest(to - from);
    }
    let steps = transition_steps(from, to);
    let n = intermediate_count(from, to);
    let keys = intermediate_keys(from, to);
    if to - from > 6 {
        vstd::arithmetic::div_mod::lemma_fundamental_div_mod_converse_mod(from + steps - to, 12, -1, 0);
    } else if to - from < -6 {
        vstd::arithmetic::div_mod::lemma_fundamental_div_mod_converse_mod(from + steps - to, 12, 1, 0);
    } else {
        vstd::arithmetic::div_mod::lemma_fundamental_div_mod_converse_mod(from + steps - to, 12, 0, 0);
    }
    if n > 0 {
        let sg = sign(steps);
        assert(sg == 1 || sg == -1);
        assert(n == sg * steps - 1) by {
            lemma_unit_times(sg, steps);
        }
        assert forall|k: int| 0 <= k < n implies (#[trigger] keys[k]).fifths == from + sg * (k + 1) by {
            lemma_unit_times(sg, k + 1);
            lemma_unit_times(sg, steps);
            assert(i32::MIN <= from + sg * (k + 1) <= i32::MAX);
        }
        assert(from + steps - keys[n - 1].fifths == sg) by {
            lemma_unit_times(sg, n);
            lemma_unit_times(sg, steps);
        }
        assert forall|k: int| 0 < k < n implies (#[trigger] keys[k]).fifths - keys[k - 1].fifths == sg by {
            assert(keys[k - 1].fifths == from + sg * k);
            lemma_unit_times(sg, k);
        }
    }
}

/// Multiplying by a sign of one: `sg * k` is `k` or `-k`.
proof fn lemma_unit_times(sg: int, k: int)
    requires
        sg == 1 || sg == -1,
    ensures
        sg * k == (if sg == 1 {
            k
        } else {
            -k
        }),
        sg * (k + 1) == sg * k + sg,
        sg * sg == 1,
{
    if sg == 1 {
        assert(sg * k == k) by (nonlinear_arith)
            requires
                sg == 1,
        ;
        assert(sg * (k + 1) == k + 1) by (nonlinear_arith)
            requires
                sg == 1,
        ;
    } else {
        assert(sg * k == -k) by (nonlinear_arith)
            requires
                sg == -1,
        ;
        assert(sg * (k + 1) == -k - 1) by (nonlinear_arith)
            requires
                sg == -1,
        ;
    }
}

/// How a classification relates to the circle distance of the key change:
/// no distance is static; one fifth is a move to the dominant when it goes
/// up and to the subdominant when it goes down; five fifths is a move to the
/// subdominant; three fifths a move to the relative key; any other distance
/// is distant. Reversing a transition swaps the dominant and the subdominant
/// for a move of one fifth and keeps every other class.
pub proof fn lemma_classification_by_circle_distance(from: int, to: int)
    ensures
        class_of((to - from) % 12) == (if circle_steps(to - from) == 0 {
            TransitionType::Static
        } else if circle_steps(to - from) == 1 {
            if (to - from) % 12 == 1 {
                TransitionType::ToDominant
            } else {
                TransitionType::ToSubdominant
            }
        } else if circle_steps(to - from) == 5 {
            TransitionType::ToSubdominant
        } else if circle_steps(to - from) == 3 {
            TransitionType::Relative
        } else {
            TransitionType::Distant
        }),
        circle_steps(to - from) == 1 ==> ((to - from) % 12 == 1 <==> (from - to) % 12 == 11),
        circle_steps(to - from) != 1 ==> class_of((to - from) % 12) == class_of((from - to) % 12),
{
    let d = to - from;
    lemma_circle_steps_symmetric(d);
    vstd::arithmetic::div_mod::lemma_fundamental_div_mod(d, 12);
    vstd::arithmetic::div_mod::lemma_fundamental_div_mod(-d, 12);
    vstd::arithmetic::div_mod::lemma_fundamental_div_mod(abs(d), 12);
    if d < 0 {
        lemma_upward_remainder(d, -d, (-d) % 12);
    } else if d > 0 {
        lemma_upward_remainder(-d, d, d % 12);
    }
}

/// The total tonal distance never exceeds the tonal complexity, and the two
/// agree when no key change between neighbouring sections exceeds eighteen
/// fifths.
pub proof fn lemma_tonal_distance_within_complexity(s: Seq<Section>, k: int)
    requires
        0 <= k <= boundaries(s),
    ensures
        circle_sum(s, k) <= change_sum(s, k),
        (forall|i: int| 0 <= i < k ==> -18 <= #[trigger] s[i + 1].key - s[i].key <= 18) ==> circle_sum(s, k)
            == change_sum(s, k),
    decreases k,
{
    if k > 0 {
        lemma_tonal_distance_within_complexity(s, k - 1);
        let d = s[k].key - s[k - 1].key;
        lemma_circle_steps_symmetric(d);
        assert(s[k - 1].key - s[k].key == -d);
        if d > 6 {
            lemma_circle_steps_le_representative(d, 1);
        } else if d < -6 {
            lemma_circle_steps_le_representative(d, -1);
        } else {
            lemma_circle_steps_le_representative(d, 0);
        }
        if forall|i: int| 0 <= i < k ==> -18 <= #[trigger] s[i + 1].key - s[i].key <= 18 {
            assert(-18 <= s[(k - 1) + 1].key - s[k - 1].key <= 18);
            lemma_normalized_change_is_shortest(d);
        }
    }
}

/// The transitions of a transition map form one path through the piece:
/// each transition starts where the previous one ended.
pub proof fn lemma_transition_map_is_a_path(s: Seq<Section>, r: Seq<TonalTransition>)
    requires
        r.len() == boundaries(s),
        forall|i: int| 0 <= i < r.len() ==> is_transition(#[trigger] r[i], s[i].key as int, s[i + 1].key as int),
    ensures
        forall|i: int| 0 <= i < r.len() - 1 ==> (#[trigger] r[i]).to == r[i + 1].from,
{
    assert forall|i: int| 0 <= i < r.len() - 1 implies (#[trigger] r[i]).to == r[i + 1].from by {
        assert(is_transition(r[i], s[i].key as int, s[i + 1].key as int));
        assert(is_transition(r[i + 1], s[i + 1].key as int, s[i + 2].key as int));
    }
}

} // verus!

//! Harmonic tension landscape.
//!
//! Tension is modelled as a function of position in the sonata. This module
//! holds the integer side of the landscape: the tension model of each section
//! type, in tenths, and the detection of peaks and valleys.
//!
//! For peak and valley detection a tension value is carried as an order key:
//! `Some(k)` for a value that compares like the integer `k`, and `None` for a
//! value that compares with nothing (not a number), which is never above or
//! below any other value.
use vstd::prelude::*;
use crate::form::{Section, SectionType, SonataForm, total_duration};

verus! {

/// The synthetic tension model of a section type, in tenths: the tension at
/// the start of the section and its rise over the whole section.
pub open spec fn model_of(t: SectionType) -> (int, int) {
    match t {
        SectionType::ExpositionTheme1 => (3, 0),
        SectionType::ExpositionTransition => (3, 4),
        SectionType::ExpositionTheme2 => (5, 0),
        SectionType::ExpositionClosing => (4, -1),
        SectionType::Development => (6, 3),
        SectionType::RecapitulationTheme1 => (3, 0),
        SectionType::RecapitulationTransition => (3, 3),
        SectionType::RecapitulationTheme2 => (4, 0),
        SectionType::Coda => (3, -2),
        SectionType::Introduction => (2, 1),
    }
}

/// The synthetic tension model of a section type, in tenths: `(base, slope)`,
/// where measure `i` of a section of `d` measures has tension
/// `base + slope * i / d` (floored at zero).
pub fn tension_model(section_type: &SectionType) -> (m: (i32, i32))
    ensures
        m.0 == model_of(*section_type).0,
        m.1 == model_of(*section_type).1,
{
    match section_type {
        SectionType::ExpositionTheme1 => (3, 0),
        SectionType::ExpositionTransition => (3, 4),
        SectionType::ExpositionTheme2 => (5, 0),
        SectionType::ExpositionClosing => (4, -1),
        SectionType::Development => (6, 3),
        SectionType::RecapitulationTheme1 => (3, 0),
        SectionType::RecapitulationTransition => (3, 3),
        SectionType::RecapitulationTheme2 => (4, 0),
        SectionType::Coda => (3, -2),
        SectionType::Introduction => (2, 1),
    }
}

/// One measure of the synthetic tension profile of a sonata: the measure,
/// the tension model of its section (in tenths), and its position `step`
/// among the `steps` measures of that section. Its tension is
/// `max(0, base/10 + slope/10 * step / max(steps, 1))`.
#[derive(Debug, Clone, Copy)]
pub struct ProfileStep {
    /// Measure number.
    pub measure: usize,
    /// Tension at the start of the section, in tenths.
    pub base_tenths: i32,
    /// Rise of tension over the whole section, in tenths.
    pub slope_tenths: i32,
    /// Position of the measure within its section, from 0.
    pub step: usize,
    /// Number of measures of the section.
    pub steps: usize,
}

/// The profile steps of one section: one per measure, from its start.
pub open spec fn section_steps(sec: Section) -> Seq<ProfileStep> {
    Seq::new(
        sec.measure_count(),
        |i: int|
            ProfileStep {
                measure: (sec.start_measure + i) as usize,
                base_tenths: model_of(sec.section_type).0 as i32,
                slope_tenths: model_of(sec.section_type).1 as i32,
                step: i as usize,
                steps: sec.measure_count() as usize,
            },
    )
}

/// The profile steps of a sequence of sections, section after section.
pub open spec fn profile_of(s: Seq<Section>) -> Seq<ProfileStep>
    decreases s.len(),
{
    if s.len() == 0 {
        Seq::empty()
    } else {
        profile_of(s.drop_last()) + section_steps(s.last())
    }
}

/// Every section's duration fits in `usize`.
pub open spec fn durations_fit(s: Seq<Section>) -> bool {
    forall|i: int| 0 <= i < s.len() ==> (#[trigger] s[i]).measure_count() <= usize::MAX
}

/// A profile has one step per measure of the piece.
pub proof fn lemma_profile_length(s: Seq<Section>)
    ensures
        profile_of(s).len() == total_duration(s),
    decreases s.len(),
{
    if s.len() > 0 {
        lemma_profile_length(s.drop_last());
    }
}

/// The synthetic tension profile of a sonata: for each section in order,
/// one step per measure, from its start measure on, with the tension model
/// of its section type.
pub fn tension_profile(sonata: &SonataForm) -> (p: Vec<ProfileStep>)
    requires
        durations_fit(sonata.sections@),
    ensures
        p@ == profile_of(sonata.sections@),
        p@.len() == total_duration(sonata.sections@),
{
    let ghost s = sonata.sections@;
    let n = sonata.sections.len();
    let mut p: Vec<ProfileStep> = Vec::new();
    for k in 0..n
        invariant
            n == s.len(),
            s == sonata.sections@,
            durations_fit(s),
            p@ == profile_of(s.take(k as int)),
    {
        let sec = sonata.sections[k];
        assert(sec.measure_count() <= usize::MAX);
        let d = sec.duration();
        let (base, slope) = tension_model(&sec.section_type);
        let ghost before = p@;
        for i in 0..d
            invariant
                d == sec.measure_count(),
                sec == s[k as int],
                base == model_of(sec.section_type).0,
                slope == model_of(sec.section_type).1,
                p@ == before + section_steps(sec).take(i as int),
        {
            let step = ProfileStep {
                measure: sec.start_measure + i,
                base_tenths: base,
                slope_tenths: slope,
                step: i,
                steps: d,
            };
            p.push(step);
            assert(section_steps(sec).take(i + 1) =~= section_steps(sec).take(i as int).push(step));
            assert(p@ =~= before + section_steps(sec).take(i + 1));
        }
        assert(section_steps(sec).take(d as int) =~= section_steps(sec));
        assert(s.take(k + 1).drop_last() =~= s.take(k as int));
    }
    assert(s.take(n as int) =~= s);
    proof {
        lemma_profile_length(s);
    }
    p
}

/// Tension `x` is strictly above tension `y`.
pub open spec fn above(x: Option<i64>, y: Option<i64>) -> bool {
    x is Some && y is Some && x->0 > y->0
}

/// A tension value at a specific measure.
#[derive(Debug, Clone, Copy)]
pub struct TensionPoint {
    /// Measure number.
    pub measure: usize,
    /// Tension value as an order key (higher = more tense).
    pub tension: Option<i64>,
}

/// A harmonic tension profile for a piece.
#[derive(Debug, Clone)]
pub struct TensionLandscape {
    /// Tension values by measure.
    pub profile: Vec<TensionPoint>,
}

/// The tensions of a profile, in order.
pub open spec fn levels(profile: Seq<TensionPoint>) -> Seq<Option<i64>> {
    profile.map_values(|p: TensionPoint| p.tension)
}

/// Position `i` is strictly above both neighbours.
pub open spec fn is_peak(t: Seq<Option<i64>>) -> spec_fn(usize) -> bool {
    |i: usize| 0 < i < t.len() - 1 && above(t[i as int], t[i - 1]) && above(t[i as int], t[i + 1])
}

/// Position `i` is strictly below both neighbours.
pub open spec fn is_valley(t: Seq<Option<i64>>) -> spec_fn(usize) -> bool {
    |i: usize| 0 < i < t.len() - 1 && above(t[i - 1], t[i as int]) && above(t[i + 1], t[i as int])
}

/// The positions `0..n` in increasing order.
pub open spec fn positions(n: nat) -> Seq<usize> {
    Seq::new(n, |i: int| i as usize)
}

/// Where the tension at a measure is read from a profile.
#[derive(Debug, Clone, Copy, PartialEq, Eq, Structural)]
pub enum TensionLookup {
    /// The tension of the point at this position.
    Point(usize),
    /// Interpolated between the points at positions `before` and `after`:
    /// the measure lies `offset` measures past the first of `span` measures
    /// separating the two points.
    Between { before: usize, after: usize, offset: usize, span: usize },
}

/// Position of the first point at or after measure `m`, if any.
pub open spec fn first_at_or_after(profile: Seq<TensionPoint>, m: int) -> Option<int>
    decreases profile.len(),
{
    if profile.len() == 0 {
        None
    } else if profile[0].measure >= m {
        Some(0)
    } else {
        match first_at_or_after(profile.drop_first(), m) {
            Some(i) => Some(i + 1),
            None => None,
        }
    }
}

/// How the tension at measure `m` is read from `profile`: from the first
/// point at or after `m` when it is at `m` or is the first point, otherwise
/// by interpolation between that point and the one before it.
pub open spec fn lookup_of(profile: Seq<TensionPoint>, m: int) -> Option<TensionLookup> {
    match first_at_or_after(profile, m) {
        None => None,
        Some(i) => if profile[i].measure == m || i == 0 {
            Some(TensionLookup::Point(i as usize))
        } else {
            Some(
                TensionLookup::Between {
                    before: (i - 1) as usize,
                    after: i as usize,
                    offset: (m - profile[i - 1].measure) as usize,
                    span: (profile[i].measure - profile[i - 1].measure) as usize,
                },
            )
        },
    }
}

proof fn lemma_first_at_or_after(profile: Seq<TensionPoint>, m: int)
    ensures
        match first_at_or_after(profile, m) {
            Some(i) => 0 <= i < profile.len() && profile[i].measure >= m && forall|j: int|
                0 <= j < i ==> (#[trigger] profile[j]).measure < m,
            None => forall|j: int| 0 <= j < profile.len() ==> (#[trigger] profile[j]).measure < m,
        },
    decreases profile.len(),
{
    if profile.len() > 0 && profile[0].measure < m {
        let rest = profile.drop_first();
        lemma_first_at_or_after(rest, m);
        match first_at_or_after(rest, m) {
            Some(i) => {
                assert forall|j: int| 0 <= j < i + 1 implies (#[trigger] profile[j]).measure < m by {
                    if j > 0 {
                        assert(profile[j] == rest[j - 1]);
                    }
                }
                assert(profile[i + 1] == rest[i]);
            },
            None => {
                assert forall|j: int| 0 <= j < profile.len() implies (#[trigger] profile[j]).measure < m by {
                    if j > 0 {
                        assert(profile[j] == rest[j - 1]);
                    }
                }
            },
        }
    }
}

impl TensionLandscape {
    /// Get tension at a specific measure: where in the profile it is read,
    /// for linear interpolation; `None` when no point lies at or after it.
    pub fn tension_at(&self, measure: usize) -> (r: Option<TensionLookup>)
        ensures
            r == lookup_of(self.profile@, measure as int),
    {
        proof {
            lemma_first_at_or_after(self.profile@, measure as int);
        }
        let n = self.profile.len();
        let mut idx: usize = 0;
        while idx < n && self.profile[idx].measure < measure
            invariant
                0 <= idx <= n,
                n == self.profile@.len(),
                forall|j: int| 0 <= j < idx ==> (#[trigger] self.profile@[j]).measure < measure,
                match first_at_or_after(self.profile@, measure as int) {
                    Some(i) => 0 <= i < n && self.profile@[i].measure >= measure && forall|j: int|
                        0 <= j < i ==> (#[trigger] self.profile@[j]).measure < measure,
                    None => forall|j: int|
                        0 <= j < n ==> (#[trigger] self.profile@[j]).measure < measure,
                },
            decreases n - idx,
        {
            idx = idx + 1;
        }
        if idx == n {
            return None;
        }
        assert(first_at_or_after(self.profile@, measure as int) == Some(idx as int));
        if self.profile[idx].measure == measure || idx == 0 {
            return Some(TensionLookup::Point(idx));
        }
        let prev = self.profile[idx - 1].measure;
        let next = self.profile[idx].measure;
        Some(TensionLookup::Between { before: idx - 1, after: idx, offset: measure - prev, span: next - prev })
    }

    /// Create a tension landscape from raw values.
    pub fn new(values: &[(usize, Option<i64>)]) -> (l: Self)
        ensures
            l.profile@.len() == values@.len(),
            forall|i: int|
                0 <= i < values@.len() ==> (#[trigger] l.profile@[i]).measure == values@[i].0
                    && l.profile@[i].tension == values@[i].1,
    {
        let mut profile: Vec<TensionPoint> = Vec::new();
        let n = values.len();
        for i in 0..n
            invariant
                n == values@.len(),
                profile@.len() == i,
                forall|j: int|
                    0 <= j < i ==> (#[trigger] profile@[j]).measure == values@[j].0 && profile@[j].tension
                        == values@[j].1,
        {
            let (m, t) = values[i];
            profile.push(TensionPoint { measure: m, tension: t });
        }
        TensionLandscape { profile }
    }

    /// Find local maxima (tension peaks): the positions strictly above both
    /// neighbours, in increasing order.
    pub fn peaks(&self) -> (peaks: Vec<usize>)
        ensures
            peaks@ == positions(self.profile@.len()).filter(is_peak(levels(self.profile@))),
    {
        let ghost t = levels(self.profile@);
        let n = self.profile.len();
        let mut peaks: Vec<usize> = Vec::new();
        let bound = n.saturating_sub(1);
        proof {
            reveal_with_fuel(Seq::<_>::filter, 1);
        }
        if n <= 1 {
            proof {
                let s = positions(n as nat);
                if n == 1 {
                    assert(!is_peak(t)(s.last()));
                    assert(s.drop_last() =~= Seq::<usize>::empty());
                    assert(s.drop_last().filter(is_peak(t)) =~= Seq::<usize>::empty());
                } else {
                    assert(s =~= Seq::<usize>::empty());
                    assert(s.filter(is_peak(t)) =~= Seq::<usize>::empty());
                }
            }
            return peaks;
        }
        proof {
            reveal_with_fuel(Seq::<_>::filter, 1);
            assert(!is_peak(t)(0));
            assert(positions(n as nat).take(0) =~= Seq::<usize>::empty());
            assert(positions(n as nat).take(1).drop_last() =~= positions(n as nat).take(0));
            assert(positions(n as nat).take(1).last() == 0);
            assert(positions(n as nat).take(0).filter(is_peak(t)) =~= Seq::<usize>::empty());
        }
        for i in 1..bound
            invariant
                n == self.profile@.len(),
                n >= 2,
                bound == n - 1,
                t == levels(self.profile@),
                peaks@ == positions(n as nat).take(i as int).filter(is_peak(t)),
        {
            proof {
                reveal_with_fuel(Seq::<_>::filter, 1);
                assert(positions(n as nat).take(i + 1).drop_last() =~= positions(n as nat).take(i as int));
                assert(positions(n as nat).take(i + 1).last() == i);
            }
            let here = self.profile[i].tension;
            let prev = self.profile[i - 1].tension;
            let next = self.profile[i + 1].tension;
            let is_high = match (here, prev, next) {
                (Some(h), Some(p), Some(q)) => h > p && h > q,
                _ => false,
            };
            if is_high {
                peaks.push(i);
            }
        }
        proof {
            reveal_with_fuel(Seq::<_>::filter, 1);
            assert(positions(n as nat).take(n as int).drop_last() =~= positions(n as nat).take(n - 1));
            assert(!is_peak(t)((n - 1) as usize));
            assert(positions(n as nat).take(n as int) =~= positions(n as nat));
        }
        peaks
    }

    /// Find local minima (tension valleys): the positions strictly below both
    /// neighbours, in increasing order.
    pub fn valleys(&self) -> (valleys: Vec<usize>)
        ensures
            valleys@ == positions(self.profile@.len()).filter(is_valley(levels(self.profile@))),
    {
        let ghost t = levels(self.profile@);
        let n = self.profile.len();
        let mut valleys: Vec<usize> = Vec::new();
        let bound = n.saturating_sub(1);
        proof {
            reveal_with_fuel(Seq::<_>::filter, 1);
        }
        if n <= 1 {
            proof {
                let s = positions(n as nat);
                if n == 1 {
                    assert(!is_valley(t)(s.last()));
                    assert(s.drop_last() =~= Seq::<usize>::empty());
                    assert(s.drop_last().filter(is_valley(t)) =~= Seq::<usize>::empty());
                } else {
                    assert(s =~= Seq::<usize>::empty());
                    assert(s.filter(is_valley(t)) =~= Seq::<usize>::empty());
                }
            }
            return valleys;
        }
        proof {
            reveal_with_fuel(Seq::<_>::filter, 1);
            assert(!is_valley(t)(0));
            assert(positions(n as nat).take(0) =~= Seq::<usize>::empty());
            assert(positions(n as nat).take(1).drop_last() =~= positions(n as nat).take(0));
            assert(positions(n as nat).take(1).last() == 0);
            assert(positions(n as nat).take(0).filter(is_valley(t)) =~= Seq::<usize>::empty());
        }
        for i in 1..bound
            invariant
                n == self.profile@.len(),
                n >= 2,
                bound == n - 1,
                t == levels(self.profile@),
                valleys@ == positions(n as nat).take(i as int).filter(is_valley(t)),
        {
            proof {
                reveal_with_fuel(Seq::<_>::filter, 1);
                assert(positions(n as nat).take(i + 1).drop_last() =~= positions(n as nat).take(i as int));
                assert(positions(n as nat).take(i + 1).last() == i);
            }
            let here = self.profile[i].tension;
            let prev = self.profile[i - 1].tension;
            let next = self.profile[i + 1].tension;
            let is_low = match (here, prev, next) {
                (Some(h), Some(p), Some(q)) => h < p && h < q,
                _ => false,
            };
            if is_low {
                valleys.push(i);
            }
        }
        proof {
            reveal_with_fuel(Seq::<_>::filter, 1);
            assert(positions(n as nat).take(n as int).drop_last() =~= positions(n as nat).take(n - 1));
            assert(!is_valley(t)((n - 1) as usize));
            assert(positions(n as nat).take(n as int) =~= positions(n as nat));
        }
        valleys
    }

    /// Number of measures in the landscape.
    pub fn len(&self) -> (n: usize)
        ensures
            n == self.profile@.len(),
    {
        self.profile.len()
    }

    /// Check if landscape is empty.
    pub fn is_empty(&self) -> (b: bool)
        ensures
            b == (self.profile@.len() == 0),
    {
        self.profile.len() == 0
    }
}

/// No position is both a peak and a valley, and two neighbouring positions
/// are never both peaks or both valleys.
pub proof fn lemma_peaks_and_valleys_separate(t: Seq<Option<i64>>, i: usize)
    ensures
        !(is_peak(t)(i) && is_valley(t)(i)),
        i + 1 <= usize::MAX ==> !(is_peak(t)(i) && is_peak(t)((i + 1) as usize)),
        i + 1 <= usize::MAX ==> !(is_valley(t)(i) && is_valley(t)((i + 1) as usize)),
{
}

/// The shape of the tension model: transitions, the development and the
/// introduction build tension, the themes hold it, the closing and the coda
/// release it. The development opens at the highest tension and the
/// introduction at the lowest. The recapitulation restates the first theme at
/// the exposition's level, brings the second theme back below its exposition
/// level, and its transition rises less than the exposition's. Every section
/// starts above zero and never falls below zero.
pub proof fn lemma_tension_model_shape(t: SectionType)
    ensures
        (model_of(t).1 > 0) == (t is ExpositionTransition || t is RecapitulationTransition || t is Development
            || t is Introduction),
        (model_of(t).1 < 0) == (t is ExpositionClosing || t is Coda),
        t !is Development ==> model_of(t).0 < model_of(SectionType::Development).0,
        t !is Introduction ==> model_of(SectionType::Introduction).0 < model_of(t).0,
        model_of(t).0 > 0,
        model_of(t).0 + model_of(t).1 >= 0,
        model_of(SectionType::RecapitulationTheme1) == model_of(SectionType::ExpositionTheme1),
        model_of(SectionType::RecapitulationTheme2).0 < model_of(SectionType::ExpositionTheme2).0,
        0 < model_of(SectionType::RecapitulationTransition).1 < model_of(SectionType::ExpositionTransition).1,
{
}

/// The tension, in tenths, at the start and at the end of each kind of
/// section: the model's base, and its base plus its rise.
pub proof fn lemma_tension_model_levels(t: SectionType)
    ensures
        (model_of(t).0, model_of(t).0 + model_of(t).1) == match t {
            SectionType::Introduction => (2int, 3int),
            SectionType::ExpositionTheme1 => (3, 3),
            SectionType::ExpositionTransition => (3, 7),
            SectionType::ExpositionTheme2 => (5, 5),
            SectionType::ExpositionClosing => (4, 3),
            SectionType::Development => (6, 9),
            SectionType::RecapitulationTheme1 => (3, 3),
            SectionType::RecapitulationTransition => (3, 6),
            SectionType::RecapitulationTheme2 => (4, 4),
            SectionType::Coda => (3, 1),
        },
{
}

/// Where a lookup reads the tension at measure `m`. Without a point at or
/// after `m` there is nothing to read. A point read directly lies at `m`, or
/// is the first point and lies after `m`, with every earlier point before
/// `m`. An interpolation runs between two neighbouring points that bracket
/// `m` strictly: `offset` is the distance from the earlier point to `m`,
/// `span` the distance between the two points, so `0 < offset < span`, and
/// every point before the later one lies before `m`.
pub proof fn lemma_lookup_brackets(profile: Seq<TensionPoint>, m: int)
    requires
        0 <= m <= usize::MAX,
        profile.len() <= usize::MAX,
    ensures
        match lookup_of(profile, m) {
            None => forall|j: int| 0 <= j < profile.len() ==> (#[trigger] profile[j]).measure < m,
            Some(TensionLookup::Point(i)) => {
                &&& i < profile.len()
                &&& profile[i as int].measure >= m
                &&& (profile[i as int].measure == m || i == 0)
                &&& forall|j: int| 0 <= j < i ==> (#[trigger] profile[j]).measure < m
            },
            Some(TensionLookup::Between { before, after, offset, span }) => {
                &&& after == before + 1
                &&& after < profile.len()
                &&& profile[before as int].measure < m < profile[after as int].measure
                &&& profile[before as int].measure + offset == m
                &&& span == profile[after as int].measure - profile[before as int].measure
                &&& 0 < offset < span
                &&& forall|j: int| 0 <= j < after ==> (#[trigger] profile[j]).measure < m
            },
        },
{
    lemma_first_at_or_after(profile, m);
    match first_at_or_after(profile, m) {
        None => {},
        Some(i) => {
            if !(profile[i].measure == m || i == 0) {
                let b = i - 1;
                assert(profile[b].measure < m);
                assert(((i - 1) as usize) as int == b);
                assert((i as usize) as int == i);
                assert(((m - profile[b].measure) as usize) as int == m - profile[b].measure);
                assert(((profile[i].measure - profile[b].measure) as usize) as int == profile[i].measure
                    - profile[b].measure);
            } else {
                assert((i as usize) as int == i);
            }
        },
    }
}

/// The tensions with their order reversed: a value that compares like `k`
/// becomes one that compares like `-1 - k`; a value that compares with
/// nothing stays so.
pub open spec fn reversed(t: Seq<Option<i64>>) -> Seq<Option<i64>> {
    t.map_values(
        |x: Option<i64>|
            match x {
                Some(k) => Some((-1 - k) as i64),
                None => None,
            },
    )
}

/// A valley is a position strictly below both of its neighbours, and a peak
/// one strictly above both; a position next to an equal value is neither.
/// The valleys of a profile are the peaks of the profile with its order
/// reversed, and its peaks are the valleys of the reversed profile.
pub proof fn lemma_valley_and_peak_shape(t: Seq<Option<i64>>, i: usize)
    ensures
        is_valley(t)(i) == (1 <= i && i + 1 < t.len() && t[i as int] is Some && t[i - 1] is Some && t[i + 1] is Some
            && t[i as int]->0 < t[i - 1]->0 && t[i as int]->0 < t[i + 1]->0),
        is_peak(t)(i) == (1 <= i && i + 1 < t.len() && t[i as int] is Some && t[i - 1] is Some && t[i + 1] is Some
            && t[i as int]->0 > t[i - 1]->0 && t[i as int]->0 > t[i + 1]->0),
        i + 1 < t.len() && t[i as int] == t[i + 1] ==> !is_valley(t)(i) && !is_peak(t)(i),
        i >= 1 && i < t.len() && t[i as int] == t[i - 1] ==> !is_valley(t)(i) && !is_peak(t)(i),
        is_valley(t)(i) == is_peak(reversed(t))(i),
        is_peak(t)(i) == is_valley(reversed(t))(i),
{
    let r = reversed(t);
    if 1 <= i && i + 1 < t.len() {
        assert(r[i as int] == (match t[i as int] { Some(k) => Some((-1 - k) as i64), None => None::<i64> }));
        assert(r[i - 1] == (match t[i - 1] { Some(k) => Some((-1 - k) as i64), None => None::<i64> }));
        assert(r[i + 1] == (match t[i + 1] { Some(k) => Some((-1 - k) as i64), None => None::<i64> }));
    }
}

/// The positions reported as valleys are exactly those strictly below both
/// neighbours, and those reported as peaks exactly those strictly above both,
/// in increasing order; a flat stretch is never reported.
pub proof fn lemma_reported_valleys_and_peaks(t: Seq<Option<i64>>)
    requires
        t.len() <= usize::MAX,
    ensures
        forall|i: usize|
            #[trigger] positions(t.len()).filter(is_valley(t)).contains(i) == (1 <= i && i + 1 < t.len()
                && t[i as int] is Some && t[i - 1] is Some && t[i + 1] is Some && t[i as int]->0 < t[i - 1]->0
                && t[i as int]->0 < t[i + 1]->0),
        forall|i: usize|
            #[trigger] positions(t.len()).filter(is_peak(t)).contains(i) == (1 <= i && i + 1 < t.len()
                && t[i as int] is Some && t[i - 1] is Some && t[i + 1] is Some && t[i as int]->0 > t[i - 1]->0
                && t[i as int]->0 > t[i + 1]->0),
        forall|x: int, y: int|
            0 <= x < y < positions(t.len()).filter(is_valley(t)).len() ==> #[trigger] positions(t.len()).filter(
                is_valley(t),
            )[x] < #[trigger] positions(t.len()).filter(is_valley(t))[y],
        forall|x: int, y: int|
            0 <= x < y < positions(t.len()).filter(is_peak(t)).len() ==> #[trigger] positions(t.len()).filter(
                is_peak(t),
            )[x] < #[trigger] positions(t.len()).filter(is_peak(t))[y],
{
    assert(positions(t.len()) =~= crate::graph::vertices(t.len()));
    crate::motif::lemma_vertices_filter(t.len(), is_valley(t));
    crate::motif::lemma_vertices_filter(t.len(), is_peak(t));
    assert forall|i: usize| #[trigger] positions(t.len()).filter(is_valley(t)).contains(i) == (1 <= i && i + 1
        < t.len() && t[i as int] is Some && t[i - 1] is Some && t[i + 1] is Some && t[i as int]->0 < t[i - 1]->0
        && t[i as int]->0 < t[i + 1]->0) by {
        lemma_valley_and_peak_shape(t, i);
    }
    assert forall|i: usize| #[trigger] positions(t.len()).filter(is_peak(t)).contains(i) == (1 <= i && i + 1
        < t.len() && t[i as int] is Some && t[i - 1] is Some && t[i + 1] is Some && t[i as int]->0 > t[i - 1]->0
        && t[i as int]->0 > t[i + 1]->0) by {
        lemma_valley_and_peak_shape(t, i);
    }
}

/// Measure `i` of section `k` sits in the profile after the measures of the
/// sections before it: at position `total_duration(s.take(k)) + i`, where
/// its step records that measure, its position `i` among the section's
/// measures, the section's length, and the tension model of the section's
/// type.
pub proof fn lemma_profile_steps(s: Seq<Section>, k: int, i: int)
    requires
        0 <= k < s.len(),
        0 <= i < s[k].measure_count(),
        durations_fit(s),
    ensures
        total_duration(s.take(k)) + i < profile_of(s).len(),
        profile_of(s)[total_duration(s.take(k)) + i].measure == s[k].start_measure + i,
        profile_of(s)[total_duration(s.take(k)) + i].step == i,
        profile_of(s)[total_duration(s.take(k)) + i].steps == s[k].measure_count(),
        profile_of(s)[total_duration(s.take(k)) + i].base_tenths == model_of(s[k].section_type).0,
        profile_of(s)[total_duration(s.take(k)) + i].slope_tenths == model_of(s[k].section_type).1,
    decreases s.len(),
{
    let t = s.drop_last();
    lemma_profile_length(t);
    assert(s.take(k + 1).drop_last() =~= s.take(k));
    assert(s.take(k + 1).last() == s[k]);
    if k == s.len() - 1 {
        assert(s.take(k) =~= t);
        let sec = s.last();
        assert(section_steps(sec)[i].measure == (sec.start_measure + i) as usize);
    } else {
        assert forall|j: int| 0 <= j < t.len() implies (#[trigger] t[j]).measure_count() <= usize::MAX by {
            assert(t[j] == s[j]);
        }
        assert(t[k] == s[k]);
        lemma_profile_steps(t, k, i);
        assert(t.take(k) =~= s.take(k));
    }
    lemma_profile_length(s);
}

} // verus!

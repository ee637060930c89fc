//! Recapitulation bookkeeping: how the recapitulation mirrors the exposition.
//!
//! The section encoding used to match exposition sections with their
//! recapitulation counterparts, and the measure and key counts from which the
//! duration ratio and the key fidelity of a recapitulation are formed.
use vstd::prelude::*;
use crate::graph::vertices;
use crate::form::{
    in_exposition, in_recapitulation, total_duration, targets, Section, SectionType, SonataForm,
};

verus! {

/// The encoding of a section type for matching: corresponding themes and
/// transitions of exposition and recapitulation share a number.
pub open spec fn section_id_of(t: SectionType) -> int {
    match t {
        SectionType::ExpositionTheme1 | SectionType::RecapitulationTheme1 => 1,
        SectionType::ExpositionTransition | SectionType::RecapitulationTransition => 2,
        SectionType::ExpositionTheme2 | SectionType::RecapitulationTheme2 => 3,
        SectionType::ExpositionClosing => 4,
        _ => 0,
    }
}

/// Section type encoding used to match corresponding sections.
pub fn section_id(section_type: &SectionType) -> (id: u32)
    ensures
        id == section_id_of(*section_type),
{
    match section_type {
        SectionType::ExpositionTheme1 | SectionType::RecapitulationTheme1 => 1,
        SectionType::ExpositionTransition | SectionType::RecapitulationTransition => 2,
        SectionType::ExpositionTheme2 | SectionType::RecapitulationTheme2 => 3,
        SectionType::ExpositionClosing => 4,
        _ => 0,
    }
}

/// Positions whose section has the same encoding as the section type `t`.
pub open spec fn shares_id(s: Seq<Section>, t: SectionType) -> spec_fn(usize) -> bool {
    |i: usize| section_id_of(s[i as int].section_type) == section_id_of(t)
}

/// The positions, in increasing order, of the candidate sections that
/// correspond to a section of type `section_type`: those with the same
/// encoding, against which it is matched.
pub fn counterparts(section_type: &SectionType, candidates: &Vec<&Section>) -> (idx: Vec<usize>)
    ensures
        idx@ == vertices(candidates@.len()).filter(shares_id(targets(candidates@), *section_type)),
{
    let ghost s = targets(candidates@);
    let n = candidates.len();
    let id = section_id(section_type);
    let mut idx: Vec<usize> = Vec::new();
    for i in 0..n
        invariant
            n == candidates@.len(),
            s == targets(candidates@),
            id == section_id_of(*section_type),
            idx@ == vertices(n as nat).take(i as int).filter(shares_id(s, *section_type)),
    {
        proof {
            reveal_with_fuel(Seq::<_>::filter, 1);
            assert(vertices(n as nat).take(i + 1).drop_last() =~= vertices(n as nat).take(i as int));
            assert(vertices(n as nat).take(i + 1).last() == i);
            assert(s[i as int] == *candidates@[i as int]);
        }
        if section_id(&candidates[i].section_type) == id {
            idx.push(i);
        }
    }
    assert(vertices(n as nat).take(n as int) =~= vertices(n as nat));
    idx
}

/// Sections in the given key.
pub open spec fn in_key(key: i32) -> spec_fn(Section) -> bool {
    |s: Section| s.key == key
}

/// The tonic of a sonata: the key of its first section, or 0 without sections.
pub open spec fn tonic_of(s: Seq<Section>) -> i32 {
    if s.len() > 0 {
        s[0].key
    } else {
        0
    }
}

/// The measure and key counts of a recapitulation analysis.
#[derive(Debug, Clone, Copy)]
pub struct RecapitulationCounts {
    /// Measures in the exposition.
    pub exposition_measures: usize,
    /// Measures in the recapitulation.
    pub recapitulation_measures: usize,
    /// Number of recapitulation sections.
    pub recapitulation_sections: usize,
    /// Number of recapitulation sections in the tonic key.
    pub recapitulation_in_tonic: usize,
}

/// Sum of the durations of the sections a sequence of references points at.
fn duration_sum(sections: &Vec<&Section>) -> (total: usize)
    requires
        total_duration(targets(sections@)) <= usize::MAX,
    ensures
        total == total_duration(targets(sections@)),
{
    let n = sections.len();
    let ghost s = targets(sections@);
    let mut total: usize = 0;
    for i in 0..n
        invariant
            n == sections@.len(),
            s == targets(sections@),
            total_duration(s) <= usize::MAX,
            total == total_duration(s.take(i as int)),
    {
        proof {
            assert(s.take(i + 1).drop_last() =~= s.take(i as int));
            crate::form::lemma_total_duration_prefix(s, i + 1);
            assert(s[i as int] == *sections@[i as int]);
        }
        total = total + sections[i].duration();
    }
    assert(s.take(n as int) =~= s);
    total
}

/// The counts behind a recapitulation analysis: the measures of exposition
/// and recapitulation (for the duration ratio), and how many recapitulation
/// sections there are and how many of them stand in the tonic, the key of the
/// first section (for the key fidelity).
pub fn recapitulation_counts(sonata: &SonataForm) -> (c: RecapitulationCounts)
    requires
        total_duration(sonata.sections@.filter(in_exposition())) <= usize::MAX,
        total_duration(sonata.sections@.filter(in_recapitulation())) <= usize::MAX,
    ensures
        c.exposition_measures == total_duration(sonata.sections@.filter(in_exposition())),
        c.recapitulation_measures == total_duration(sonata.sections@.filter(in_recapitulation())),
        c.recapitulation_sections == sonata.sections@.filter(in_recapitulation()).len(),
        c.recapitulation_in_tonic == sonata.sections@.filter(in_recapitulation()).filter(
            in_key(tonic_of(sonata.sections@)),
        ).len(),
        c.recapitulation_in_tonic <= c.recapitulation_sections,
        sonata.sections@.len() > 0 ==> c.recapitulation_in_tonic == sonata.sections@.filter(
            in_recapitulation(),
        ).filter(in_key(sonata.sections@[0].key)).len(),
        sonata.sections@.len() == 0 ==> c.recapitulation_in_tonic == 0,
{
    let exp_sections = sonata.exposition();
    let rec_sections = sonata.recapitulation();
    let exposition_measures = duration_sum(&exp_sections);
    let recapitulation_measures = duration_sum(&rec_sections);
    let tonic_key = if sonata.sections.len() > 0 {
        sonata.sections[0].key
    } else {
        0
    };
    let ghost r = targets(rec_sections@);
    let n = rec_sections.len();
    let mut in_tonic: usize = 0;
    for i in 0..n
        invariant
            n == rec_sections@.len(),
            r == targets(rec_sections@),
            tonic_key == tonic_of(sonata.sections@),
            in_tonic <= i,
            in_tonic == r.take(i as int).filter(in_key(tonic_key)).len(),
    {
        proof {
            reveal_with_fuel(Seq::<_>::filter, 1);
            assert(r.take(i + 1).drop_last() =~= r.take(i as int));
            assert(r.take(i + 1).last() == *rec_sections@[i as int]);
        }
        if rec_sections[i].key == tonic_key {
            in_tonic = in_tonic + 1;
        }
    }
    assert(r.take(n as int) =~= r);
    proof {
        if sonata.sections@.len() == 0 {
            assert(sonata.sections@.filter(in_recapitulation()) =~= Seq::<Section>::empty()) by {
                reveal_with_fuel(Seq::<_>::filter, 1);
            }
            assert(Seq::<Section>::empty().filter(in_key(tonic_key)) =~= Seq::<Section>::empty()) by {
                reveal_with_fuel(Seq::<_>::filter, 1);
            }
        }
    }
    RecapitulationCounts {
        exposition_measures,
        recapitulation_measures,
        recapitulation_sections: n,
        recapitulation_in_tonic: in_tonic,
    }
}

/// An exposition section and a recapitulation section share an encoding
/// exactly when they are corresponding parts (first themes, transitions or
/// second themes); development, introduction and coda share the encoding 0,
/// which no exposition or recapitulation section carries.
pub proof fn lemma_counterparts_share_id(e: SectionType, r: SectionType)
    requires
        e.is_exposition(),
        r.is_recapitulation(),
    ensures
        (section_id_of(e) == section_id_of(r)) == (e is ExpositionTheme1 && r is RecapitulationTheme1
            || e is ExpositionTransition && r is RecapitulationTransition || e is ExpositionTheme2
            && r is RecapitulationTheme2),
        section_id_of(e) != 0,
        section_id_of(r) != 0,
        section_id_of(SectionType::Development) == 0,
{
}

/// The tonic is set by the opening: it is the key of the first section, a
/// sonata without sections is in key 0, and adding sections after the
/// opening never changes it.
pub proof fn lemma_tonic_is_opening_key(first: Section, rest: Seq<Section>, more: Section)
    ensures
        tonic_of(seq![first] + rest) == first.key,
        tonic_of(Seq::<Section>::empty()) == 0,
        tonic_of((seq![first] + rest).push(more)) == tonic_of(seq![first] + rest),
{
    assert((seq![first] + rest)[0] == first);
    assert((seq![first] + rest).push(more)[0] == first);
}

/// A recapitulation section counts as being in the tonic exactly when its
/// key is that of the first section: when every recapitulation section keeps
/// the opening key all of them count, and when none does none counts.
pub proof fn lemma_tonic_count_follows_opening(s: Seq<Section>)
    requires
        s.len() > 0,
    ensures
        (forall|i: int| 0 <= i < s.len() && #[trigger] s[i].section_type.is_recapitulation() ==> s[i].key == s[0].key)
            ==> s.filter(in_recapitulation()).filter(in_key(tonic_of(s))).len() == s.filter(in_recapitulation()).len(),
        (forall|i: int| 0 <= i < s.len() && #[trigger] s[i].section_type.is_recapitulation() ==> s[i].key != s[0].key)
            ==> s.filter(in_recapitulation()).filter(in_key(tonic_of(s))).len() == 0,
{
    if forall|i: int| 0 <= i < s.len() && #[trigger] s[i].section_type.is_recapitulation() ==> s[i].key == s[0].key {
        lemma_filter_keeps_all(s, in_recapitulation(), in_key(tonic_of(s)));
    }
    if forall|i: int| 0 <= i < s.len() && #[trigger] s[i].section_type.is_recapitulation() ==> s[i].key != s[0].key {
        lemma_filter_keeps_none(s, in_recapitulation(), in_key(tonic_of(s)));
    }
}

/// Filtering again by `q` keeps everything when every element kept by `p`
/// satisfies `q`.
proof fn lemma_filter_keeps_all(s: Seq<Section>, p: spec_fn(Section) -> bool, q: spec_fn(Section) -> bool)
    requires
        forall|i: int| 0 <= i < s.len() && p(#[trigger] s[i]) ==> q(s[i]),
    ensures
        s.filter(p).filter(q) == s.filter(p),
    decreases s.len(),
{
    reveal_with_fuel(Seq::<_>::filter, 1);
    if s.len() > 0 {
        let t = s.drop_last();
        assert forall|i: int| 0 <= i < t.len() && p(#[trigger] t[i]) implies q(t[i]) by {
            assert(t[i] == s[i]);
        }
        lemma_filter_keeps_all(t, p, q);
        if p(s.last()) {
            assert(s.filter(p) == t.filter(p).push(s.last()));
            assert(q(s[s.len() - 1]));
            assert(s.filter(p).drop_last() =~= t.filter(p));
        }
    }
}

/// Filtering again by `q` keeps nothing when no element kept by `p`
/// satisfies `q`.
proof fn lemma_filter_keeps_none(s: Seq<Section>, p: spec_fn(Section) -> bool, q: spec_fn(Section) -> bool)
    requires
        forall|i: int| 0 <= i < s.len() && p(#[trigger] s[i]) ==> !q(s[i]),
    ensures
        s.filter(p).filter(q).len() == 0,
    decreases s.len(),
{
    reveal_with_fuel(Seq::<_>::filter, 1);
    if s.len() > 0 {
        let t = s.drop_last();
        assert forall|i: int| 0 <= i < t.len() && p(#[trigger] t[i]) implies !q(t[i]) by {
            assert(t[i] == s[i]);
        }
        lemma_filter_keeps_none(t, p, q);
        if p(s.last()) {
            assert(s.filter(p) == t.filter(p).push(s.last()));
            assert(!q(s[s.len() - 1]));
            assert(s.filter(p).drop_last() =~= t.filter(p));
        }
    }
}

/// The encoding of section types. Exactly the sections outside exposition
/// and recapitulation (introduction, development, coda) are encoded 0. An
/// exposition section is encoded by its place in the exposition, counted
/// from 1 (first theme, transition, second theme, closing), so no two
/// exposition types share a code, and a recapitulation section carries the
/// code of the exposition section it restates.
pub proof fn lemma_section_encoding(t: SectionType, u: SectionType)
    ensures
        (section_id_of(t) == 0) == !(t.is_exposition() || t.is_recapitulation()),
        0 <= section_id_of(t) <= 4,
        t.is_exposition() && u.is_exposition() && section_id_of(t) == section_id_of(u) ==> t == u,
        t.is_recapitulation() && u.is_recapitulation() && section_id_of(t) == section_id_of(u) ==> t == u,
        section_id_of(SectionType::ExpositionTheme1) == 1,
        section_id_of(SectionType::ExpositionTransition) == 2,
        section_id_of(SectionType::ExpositionTheme2) == 3,
        section_id_of(SectionType::ExpositionClosing) == 4,
        section_id_of(SectionType::RecapitulationTheme1) == section_id_of(SectionType::ExpositionTheme1),
        section_id_of(SectionType::RecapitulationTransition) == section_id_of(SectionType::ExpositionTransition),
        section_id_of(SectionType::RecapitulationTheme2) == section_id_of(SectionType::ExpositionTheme2),
{
}

} // verus!

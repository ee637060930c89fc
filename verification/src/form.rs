//! Sonata form structure: exposition, development, recapitulation.
use vstd::prelude::*;

verus! {

/// A section of sonata form.
#[derive(Debug, Clone, Copy, PartialEq, Eq, Structural)]
pub enum SectionType {
    /// Introduction (optional).
    Introduction,
    /// First theme group in exposition.
    ExpositionTheme1,
    /// Transition in exposition.
    ExpositionTransition,
    /// Second theme group in exposition.
    ExpositionTheme2,
    /// Closing section of exposition.
    ExpositionClosing,
    /// Development section.
    Development,
    /// First theme group in recapitulation.
    RecapitulationTheme1,
    /// Transition in recapitulation.
    RecapitulationTransition,
    /// Second theme group in recapitulation.
    RecapitulationTheme2,
    /// Coda.
    Coda,
}

impl SectionType {
    /// The four section types that make up an exposition.
    pub open spec fn is_exposition(self) -> bool {
        ||| self is ExpositionTheme1
        ||| self is ExpositionTransition
        ||| self is ExpositionTheme2
        ||| self is ExpositionClosing
    }

    /// The three section types that make up a recapitulation.
    pub open spec fn is_recapitulation(self) -> bool {
        ||| self is RecapitulationTheme1
        ||| self is RecapitulationTransition
        ||| self is RecapitulationTheme2
    }
}

/// A musical section with timing information.
#[derive(Debug, Clone, Copy)]
pub struct Section {
    /// Type of section.
    pub section_type: SectionType,
    /// Start measure.
    pub start_measure: usize,
    /// End measure (inclusive).
    pub end_measure: usize,
    /// Key (as number of sharps, negative for flats).
    pub key: i32,
}

impl Section {
    /// Number of measures from start to end inclusive; an inverted range holds none.
    pub open spec fn measure_count(self) -> nat {
        if self.end_measure >= self.start_measure {
            (self.end_measure - self.start_measure + 1) as nat
        } else {
            0
        }
    }

    /// Whether measure `m` lies in the inclusive range of the section.
    pub open spec fn holds(self, m: int) -> bool {
        self.start_measure <= m <= self.end_measure
    }

    /// Create a new section.
    pub fn new(section_type: SectionType, start: usize, end: usize, key: i32) -> (s: Self)
        ensures
            s == (Section { section_type, start_measure: start, end_measure: end, key }),
    {
        Section { section_type, start_measure: start, end_measure: end, key }
    }

    /// Duration in measures.
    pub fn duration(&self) -> (d: usize)
        requires
            self.measure_count() <= usize::MAX,
        ensures
            d == self.measure_count(),
    {
        if self.end_measure >= self.start_measure {
            self.end_measure - self.start_measure + 1
        } else {
            0
        }
    }

    /// Check if a measure is within this section.
    pub fn contains_measure(&self, measure: usize) -> (b: bool)
        ensures
            b == self.holds(measure as int),
    {
        measure >= self.start_measure && measure <= self.end_measure
    }
}

/// The sections that a sequence of references points at.
pub open spec fn targets(v: Seq<&Section>) -> Seq<Section> {
    v.map_values(|p: &Section| *p)
}

/// Sum of the durations of a sequence of sections.
pub open spec fn total_duration(s: Seq<Section>) -> nat
    decreases s.len(),
{
    if s.len() == 0 {
        0
    } else {
        total_duration(s.drop_last()) + s.last().measure_count()
    }
}

/// Sections of the given type.
pub open spec fn of_type(t: SectionType) -> spec_fn(Section) -> bool {
    |s: Section| s.section_type == t
}

/// Sections that belong to the exposition.
pub open spec fn in_exposition() -> spec_fn(Section) -> bool {
    |s: Section| s.section_type.is_exposition()
}

/// Sections that belong to the recapitulation.
pub open spec fn in_recapitulation() -> spec_fn(Section) -> bool {
    |s: Section| s.section_type.is_recapitulation()
}

/// Index of the first section satisfying `p`, if any.
pub open spec fn first_index(s: Seq<Section>, p: spec_fn(Section) -> bool) -> Option<int>
    decreases s.len(),
{
    if s.len() == 0 {
        None
    } else if p(s[0]) {
        Some(0)
    } else {
        match first_index(s.drop_first(), p) {
            Some(i) => Some(i + 1),
            None => None,
        }
    }
}

/// The first section satisfying `p`, if any.
pub open spec fn first_match(s: Seq<Section>, p: spec_fn(Section) -> bool) -> Option<Section> {
    match first_index(s, p) {
        Some(i) => Some(s[i]),
        None => None,
    }
}

/// Sections containing the given measure.
pub open spec fn holding(m: int) -> spec_fn(Section) -> bool {
    |s: Section| s.holds(m)
}

/// Sections of type `Development`.
pub open spec fn is_development() -> spec_fn(Section) -> bool {
    of_type(SectionType::Development)
}

/// The total duration of a prefix never exceeds that of the whole sequence.
pub proof fn lemma_total_duration_prefix(s: Seq<Section>, i: int)
    requires
        0 <= i <= s.len(),
    ensures
        total_duration(s.take(i)) <= total_duration(s),
    decreases s.len() - i,
{
    if i < s.len() {
        lemma_total_duration_prefix(s, i + 1);
        assert(s.take(i + 1).drop_last() =~= s.take(i));
    } else {
        assert(s.take(i) =~= s);
    }
}

/// `first_index` finds the first position whose section satisfies `p`.
pub proof fn lemma_first_index(s: Seq<Section>, p: spec_fn(Section) -> bool)
    ensures
        match first_index(s, p) {
            Some(i) => 0 <= i < s.len() && p(s[i]) && forall|j: int| 0 <= j < i ==> !p(#[trigger] s[j]),
            None => forall|j: int| 0 <= j < s.len() ==> !p(#[trigger] s[j]),
        },
    decreases s.len(),
{
    if s.len() > 0 {
        lemma_first_index(s.drop_first(), p);
        if !p(s[0]) {
            assert forall|j: int| 1 <= j < s.len() implies s[j] == #[trigger] s.drop_first()[j - 1] by {}
            match first_index(s.drop_first(), p) {
                Some(i) => {
                    assert forall|j: int| 0 <= j < i + 1 implies !p(#[trigger] s[j]) by {
                        if j > 0 {
                            assert(s[j] == s.drop_first()[j - 1]);
                        }
                    }
                },
                None => {
                    assert forall|j: int| 0 <= j < s.len() implies !p(#[trigger] s[j]) by {
                        if j > 0 {
                            assert(s[j] == s.drop_first()[j - 1]);
                        }
                    }
                },
            }
        }
    }
}

/// A complete sonata form structure.
#[derive(Debug, Clone)]
pub struct SonataForm {
    /// All sections in order.
    pub sections: Vec<Section>,
}

impl SonataForm {
    /// Create a new sonata form from sections.
    pub fn new(sections: Vec<Section>) -> (f: Self)
        ensures
            f.sections@ == sections@,
    {
        SonataForm { sections }
    }

    /// Create a standard sonata form template.
    ///
    /// The two transitions fill the gaps between the theme groups; the second
    /// exposition theme stands five fifths above the home key (`key + 5`).
    #[allow(clippy::too_many_arguments)]
    pub fn standard(
        exp1_start: usize,
        exp1_end: usize,
        exp2_start: usize,
        exp2_end: usize,
        dev_start: usize,
        dev_end: usize,
        rec1_start: usize,
        rec1_end: usize,
        rec2_start: usize,
        rec2_end: usize,
        key: i32,
    ) -> (f: Self)
        requires
            exp1_end < usize::MAX,
            exp2_start >= 1,
            rec1_end < usize::MAX,
            rec2_start >= 1,
            key + 5 <= i32::MAX,
        ensures
            f.sections@ == seq![
                Section { section_type: SectionType::ExpositionTheme1, start_measure: exp1_start, end_measure: exp1_end, key },
                Section { section_type: SectionType::ExpositionTransition, start_measure: (exp1_end + 1) as usize, end_measure: (exp2_start - 1) as usize, key },
                Section { section_type: SectionType::ExpositionTheme2, start_measure: exp2_start, end_measure: exp2_end, key: (key + 5) as i32 },
                Section { section_type: SectionType::Development, start_measure: dev_start, end_measure: dev_end, key },
                Section { section_type: SectionType::RecapitulationTheme1, start_measure: rec1_start, end_measure: rec1_end, key },
                Section { section_type: SectionType::RecapitulationTransition, start_measure: (rec1_end + 1) as usize, end_measure: (rec2_start - 1) as usize, key },
                Section { section_type: SectionType::RecapitulationTheme2, start_measure: rec2_start, end_measure: rec2_end, key },
            ],
    {
        let mut sections: Vec<Section> = Vec::new();
        sections.push(Section::new(SectionType::ExpositionTheme1, exp1_start, exp1_end, key));
        sections.push(Section::new(SectionType::ExpositionTransition, exp1_end + 1, exp2_start - 1, key));
        sections.push(Section::new(SectionType::ExpositionTheme2, exp2_start, exp2_end, key + 5));
        sections.push(Section::new(SectionType::Development, dev_start, dev_end, key));
        sections.push(Section::new(SectionType::RecapitulationTheme1, rec1_start, rec1_end, key));
        sections.push(Section::new(SectionType::RecapitulationTransition, rec1_end + 1, rec2_start - 1, key));
        sections.push(Section::new(SectionType::RecapitulationTheme2, rec2_start, rec2_end, key));
        SonataForm { sections }
    }

    /// Total number of measures.
    pub fn total_measures(&self) -> (t: usize)
        requires
            total_duration(self.sections@) <= usize::MAX,
        ensures
            t == total_duration(self.sections@),
    {
        let n = self.sections.len();
        let mut total: usize = 0;
        for i in 0..n
            invariant
                n == self.sections@.len(),
                total_duration(self.sections@) <= usize::MAX,
                total == total_duration(self.sections@.take(i as int)),
        {
            proof {
                assert(self.sections@.take(i + 1).drop_last() =~= self.sections@.take(i as int));
                lemma_total_duration_prefix(self.sections@, i + 1);
            }
            total = total + self.sections[i].duration();
        }
        assert(self.sections@.take(n as int) =~= self.sections@);
        total
    }

    /// Whether the total number of measures fits in `usize`, so that
    /// `total_measures` can be computed.
    pub fn measures_fit(&self) -> (b: bool)
        ensures
            b == (total_duration(self.sections@) <= usize::MAX),
    {
        let n = self.sections.len();
        let mut total: usize = 0;
        for i in 0..n
            invariant
                n == self.sections@.len(),
                total == total_duration(self.sections@.take(i as int)),
        {
            proof {
                assert(self.sections@.take(i + 1).drop_last() =~= self.sections@.take(i as int));
                lemma_total_duration_prefix(self.sections@, i + 1);
            }
            let s = &self.sections[i];
            if s.start_measure == 0 && s.end_measure == usize::MAX {
                return false;
            }
            let d = s.duration();
            if d > usize::MAX - total {
                return false;
            }
            total = total + d;
        }
        assert(self.sections@.take(n as int) =~= self.sections@);
        true
    }

    /// Get sections of a specific type.
    pub fn sections_of_type(&self, section_type: &SectionType) -> (r: Vec<&Section>)
        ensures
            targets(r@) == self.sections@.filter(of_type(*section_type)),
    {
        let mut r: Vec<&Section> = Vec::new();
        let n = self.sections.len();
        for i in 0..n
            invariant
                n == self.sections@.len(),
                targets(r@) == self.sections@.take(i as int).filter(of_type(*section_type)),
        {
            let ghost before = r@;
            let s = &self.sections[i];
            if s.section_type == *section_type {
                r.push(s);
                assert(targets(r@) =~= targets(before).push(*s));
            }
            proof {
                reveal_with_fuel(Seq::<_>::filter, 1);
                assert(self.sections@.take(i + 1).drop_last() =~= self.sections@.take(i as int));
            }
        }
        assert(self.sections@.take(n as int) =~= self.sections@);
        r
    }

    /// Get exposition sections.
    pub fn exposition(&self) -> (r: Vec<&Section>)
        ensures
            targets(r@) == self.sections@.filter(in_exposition()),
    {
        let mut r: Vec<&Section> = Vec::new();
        let n = self.sections.len();
        for i in 0..n
            invariant
                n == self.sections@.len(),
                targets(r@) == self.sections@.take(i as int).filter(in_exposition()),
        {
            let ghost before = r@;
            let s = &self.sections[i];
            let keep = match s.section_type {
                SectionType::ExpositionTheme1
                | SectionType::ExpositionTransition
                | SectionType::ExpositionTheme2
                | SectionType::ExpositionClosing => true,
                _ => false,
            };
            if keep {
                r.push(s);
                assert(targets(r@) =~= targets(before).push(*s));
            }
            proof {
                reveal_with_fuel(Seq::<_>::filter, 1);
                assert(self.sections@.take(i + 1).drop_last() =~= self.sections@.take(i as int));
            }
        }
        assert(self.sections@.take(n as int) =~= self.sections@);
        r
    }

    /// Get development section: the first section of type `Development`.
    pub fn development(&self) -> (r: Option<&Section>)
        ensures
            match r {
                Some(s) => first_match(self.sections@, is_development()) == Some(*s),
                None => first_match(self.sections@, is_development()) is None,
            },
    {
        let n = self.sections.len();
        proof {
            lemma_first_index(self.sections@, is_development());
        }
        for i in 0..n
            invariant
                n == self.sections@.len(),
                forall|j: int| 0 <= j < i ==> !is_development()(#[trigger] self.sections@[j]),
                match first_index(self.sections@, is_development()) {
                    Some(k) => 0 <= k < n && is_development()(self.sections@[k]) && forall|j: int|
                        0 <= j < k ==> !is_development()(#[trigger] self.sections@[j]),
                    None => forall|j: int| 0 <= j < n ==> !is_development()(#[trigger] self.sections@[j]),
                },
        {
            if self.sections[i].section_type == SectionType::Development {
                return Some(&self.sections[i]);
            }
        }
        None
    }

    /// Get recapitulation sections.
    pub fn recapitulation(&self) -> (r: Vec<&Section>)
        ensures
            targets(r@) == self.sections@.filter(in_recapitulation()),
    {
        let mut r: Vec<&Section> = Vec::new();
        let n = self.sections.len();
        for i in 0..n
            invariant
                n == self.sections@.len(),
                targets(r@) == self.sections@.take(i as int).filter(in_recapitulation()),
        {
            let ghost before = r@;
            let s = &self.sections[i];
            let keep = match s.section_type {
                SectionType::RecapitulationTheme1
                | SectionType::RecapitulationTransition
                | SectionType::RecapitulationTheme2 => true,
                _ => false,
            };
            if keep {
                r.push(s);
                assert(targets(r@) =~= targets(before).push(*s));
            }
            proof {
                reveal_with_fuel(Seq::<_>::filter, 1);
                assert(self.sections@.take(i + 1).drop_last() =~= self.sections@.take(i as int));
            }
        }
        assert(self.sections@.take(n as int) =~= self.sections@);
        r
    }

    /// Find which section contains a given measure: the first one that does.
    pub fn section_at_measure(&self, measure: usize) -> (r: Option<&Section>)
        ensures
            match r {
                Some(s) => first_match(self.sections@, holding(measure as int)) == Some(*s),
                None => first_match(self.sections@, holding(measure as int)) is None,
            },
    {
        let n = self.sections.len();
        proof {
            lemma_first_index(self.sections@, holding(measure as int));
        }
        for i in 0..n
            invariant
                n == self.sections@.len(),
                forall|j: int| 0 <= j < i ==> !holding(measure as int)(#[trigger] self.sections@[j]),
                match first_index(self.sections@, holding(measure as int)) {
                    Some(k) => 0 <= k < n && holding(measure as int)(self.sections@[k]) && forall|j: int|
                        0 <= j < k ==> !holding(measure as int)(#[trigger] self.sections@[j]),
                    None => forall|j: int| 0 <= j < n ==> !holding(measure as int)(#[trigger] self.sections@[j]),
                },
        {
            if self.sections[i].contains_measure(measure) {
                return Some(&self.sections[i]);
            }
        }
        None
    }
}

/// A section's duration counts exactly the measures it contains: those from
/// its start measure on, fewer than `duration` measures later; a section
/// contains no measure exactly when its duration is zero.
pub proof fn lemma_duration_counts_contained_measures(s: Section, m: int)
    ensures
        s.holds(m) == (s.start_measure <= m < s.start_measure + s.measure_count()),
        (s.measure_count() == 0) == !s.holds(s.start_measure as int),
{
}

/// `section_at_measure` answers with a section that contains the measure, and
/// answers nothing exactly when no section contains it.
pub proof fn lemma_section_at_measure_contains(s: Seq<Section>, m: int)
    ensures
        first_match(s, holding(m)) matches Some(x) ==> x.holds(m) && s.contains(x),
        first_match(s, holding(m)) is None <==> forall|i: int| 0 <= i < s.len() ==> !(#[trigger] s[i]).holds(m),
{
    lemma_first_index(s, holding(m));
    if first_match(s, holding(m)) is None {
        assert forall|i: int| 0 <= i < s.len() implies !(#[trigger] s[i]).holds(m) by {
            assert(!holding(m)(s[i]));
        }
    } else {
        let i = first_index(s, holding(m))->0;
        assert(holding(m)(s[i]));
    }
}

proof fn lemma_first_index_push(s: Seq<Section>, x: Section, p: spec_fn(Section) -> bool)
    ensures
        first_index(s.push(x), p) == (match first_index(s, p) {
            Some(i) => Some(i),
            None => if p(x) {
                Some(s.len() as int)
            } else {
                None
            },
        }),
    decreases s.len(),
{
    if s.len() > 0 {
        assert(s.push(x).drop_first() =~= s.drop_first().push(x));
        assert(s.push(x)[0] == s[0]);
        lemma_first_index_push(s.drop_first(), x, p);
    } else {
        assert(s.push(x).drop_first() =~= Seq::<Section>::empty());
        assert(first_index(s.push(x).drop_first(), p) is None);
        assert(s.push(x)[0] == x);
    }
}

/// The first section satisfying `p` is the head of the sections filtered by `p`.
pub proof fn lemma_first_match_is_filter_head(s: Seq<Section>, p: spec_fn(Section) -> bool)
    ensures
        first_match(s, p) == (if s.filter(p).len() > 0 {
            Some(s.filter(p)[0])
        } else {
            None
        }),
    decreases s.len(),
{
    reveal_with_fuel(Seq::<_>::filter, 1);
    if s.len() > 0 {
        let t = s.drop_last();
        lemma_first_match_is_filter_head(t, p);
        assert(t.push(s.last()) =~= s);
        lemma_first_index_push(t, s.last(), p);
        lemma_first_index(t, p);
    }
}

/// `development()` answers with the first of the sections that
/// `sections_of_type(&SectionType::Development)` lists, and with nothing
/// exactly when that list is empty.
pub proof fn lemma_development_is_first_of_type(s: Seq<Section>)
    ensures
        first_match(s, is_development()) == (if s.filter(of_type(SectionType::Development)).len() > 0 {
            Some(s.filter(of_type(SectionType::Development))[0])
        } else {
            None
        }),
{
    lemma_first_match_is_filter_head(s, is_development());
}

/// Exposition and recapitulation never share a section, and neither holds
/// the development.
pub proof fn lemma_parts_disjoint(t: SectionType)
    ensures
        !(t.is_exposition() && t.is_recapitulation()),
        t == SectionType::Development ==> !t.is_exposition() && !t.is_recapitulation(),
{
}

/// The sections picked out by any filter hold no more measures than all of them.
pub proof fn lemma_filter_total_duration(s: Seq<Section>, p: spec_fn(Section) -> bool)
    ensures
        total_duration(s.filter(p)) <= total_duration(s),
    decreases s.len(),
{
    reveal_with_fuel(Seq::<_>::filter, 1);
    if s.len() > 0 {
        lemma_filter_total_duration(s.drop_last(), p);
        if p(s.last()) {
            assert(s.filter(p).drop_last() =~= s.drop_last().filter(p));
        }
    }
}

} // verus!

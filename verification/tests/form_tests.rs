use topo_sonata_rs::form::{Section, SectionType, SonataForm};

fn standard() -> SonataForm {
    SonataForm::standard(1, 16, 20, 40, 41, 70, 71, 86, 90, 120, 0)
}

#[test]
fn test_section_duration() {
    let s = Section::new(SectionType::ExpositionTheme1, 1, 16, 0);
    assert_eq!(s.duration(), 16);
}

#[test]
fn test_section_contains_measure() {
    let s = Section::new(SectionType::ExpositionTheme1, 5, 20, 0);
    assert!(s.contains_measure(5));
    assert!(s.contains_measure(20));
    assert!(s.contains_measure(10));
    assert!(!s.contains_measure(4));
    assert!(!s.contains_measure(21));
}

#[test]
fn test_standard_sonata_form() {
    let sf = SonataForm::standard(1, 16, 20, 40, 41, 70, 71, 86, 90, 120, 0);
    assert_eq!(sf.sections.len(), 7);
    assert_eq!(sf.total_measures(), 120);
}

#[test]
fn test_exposition() {
    let sf = SonataForm::standard(1, 16, 20, 40, 41, 70, 71, 86, 90, 120, 0);
    let exp = sf.exposition();
    assert_eq!(exp.len(), 3);
}

#[test]
fn test_development() {
    let sf = SonataForm::standard(1, 16, 20, 40, 41, 70, 71, 86, 90, 120, 0);
    let dev = sf.development().unwrap();
    assert_eq!(dev.start_measure, 41);
    assert_eq!(dev.end_measure, 70);
}

#[test]
fn test_recapitulation() {
    let sf = SonataForm::standard(1, 16, 20, 40, 41, 70, 71, 86, 90, 120, 0);
    let rec = sf.recapitulation();
    assert_eq!(rec.len(), 3);
}

#[test]
fn test_section_at_measure() {
    let sf = SonataForm::standard(1, 16, 20, 40, 41, 70, 71, 86, 90, 120, 0);
    let s = sf.section_at_measure(50).unwrap();
    assert_eq!(s.section_type, SectionType::Development);
}

#[test]
fn test_sections_of_type() {
    let sf = SonataForm::standard(1, 16, 20, 40, 41, 70, 71, 86, 90, 120, 0);
    let dev = sf.sections_of_type(&SectionType::Development);
    assert_eq!(dev.len(), 1);
}

#[test]
fn inverted_section_has_no_measures() {
    let s = Section::new(SectionType::Coda, 10, 9, 0);
    assert_eq!(s.duration(), 0);
    assert!(!s.contains_measure(9));
    assert!(!s.contains_measure(10));
}

#[test]
fn one_measure_section() {
    let s = Section::new(SectionType::Coda, 7, 7, 0);
    assert_eq!(s.duration(), 1);
    assert!(s.contains_measure(7));
    assert!(!s.contains_measure(6));
    assert!(!s.contains_measure(8));
}

#[test]
fn standard_layout_fills_the_gaps() {
    let sf = standard();
    let s = &sf.sections;
    assert_eq!(s[0].section_type, SectionType::ExpositionTheme1);
    assert_eq!((s[1].start_measure, s[1].end_measure), (17, 19));
    assert_eq!(s[1].section_type, SectionType::ExpositionTransition);
    assert_eq!(s[2].key, 5);
    assert_eq!(s[2].section_type, SectionType::ExpositionTheme2);
    assert_eq!(s[3].section_type, SectionType::Development);
    assert_eq!((s[5].start_measure, s[5].end_measure), (87, 89));
    assert_eq!(s[5].section_type, SectionType::RecapitulationTransition);
    assert_eq!(s[6].key, 0);
}

#[test]
fn standard_in_other_key() {
    let sf = SonataForm::standard(1, 8, 9, 16, 17, 24, 25, 32, 33, 40, -3);
    assert_eq!(sf.sections[2].key, 2);
    assert_eq!(sf.sections[0].key, -3);
    // Transitions with no room are empty.
    assert_eq!(sf.sections[1].duration(), 0);
    assert_eq!(sf.total_measures(), 40);
}

#[test]
fn lookups_on_empty_form() {
    let sf = SonataForm::new(vec![]);
    assert_eq!(sf.total_measures(), 0);
    assert!(sf.development().is_none());
    assert!(sf.section_at_measure(1).is_none());
    assert!(sf.exposition().is_empty());
    assert!(sf.recapitulation().is_empty());
}

#[test]
fn section_at_measure_takes_first_match_and_misses() {
    let sf = SonataForm::new(vec![
        Section::new(SectionType::ExpositionTheme1, 1, 10, 0),
        Section::new(SectionType::Development, 5, 20, 0),
    ]);
    assert_eq!(sf.section_at_measure(7).unwrap().section_type, SectionType::ExpositionTheme1);
    assert_eq!(sf.section_at_measure(15).unwrap().section_type, SectionType::Development);
    assert!(sf.section_at_measure(21).is_none());
    assert!(sf.section_at_measure(0).is_none());
}

#[test]
fn development_is_first_of_its_type() {
    let sf = SonataForm::new(vec![
        Section::new(SectionType::ExpositionTheme1, 1, 10, 0),
        Section::new(SectionType::Development, 11, 20, 0),
        Section::new(SectionType::Development, 21, 30, 0),
    ]);
    let dev = sf.development().unwrap();
    assert_eq!(dev.start_measure, 11);
    let all = sf.sections_of_type(&SectionType::Development);
    assert_eq!(all.len(), 2);
    assert_eq!(all[0].start_measure, dev.start_measure);
}

#[test]
fn exposition_keeps_closing_and_order() {
    let sf = SonataForm::new(vec![
        Section::new(SectionType::Introduction, 1, 4, 0),
        Section::new(SectionType::ExpositionClosing, 5, 8, 0),
        Section::new(SectionType::Coda, 9, 12, 0),
        Section::new(SectionType::ExpositionTheme1, 13, 14, 0),
    ]);
    let exp = sf.exposition();
    assert_eq!(exp.len(), 2);
    assert_eq!(exp[0].section_type, SectionType::ExpositionClosing);
    assert_eq!(exp[1].section_type, SectionType::ExpositionTheme1);
    assert!(sf.recapitulation().is_empty());
    assert_eq!(sf.total_measures(), 14);
}

use topo_sonata_rs::form::{Section, SectionType, SonataForm};
use topo_sonata_rs::recapitulation::{counterparts, recapitulation_counts, section_id};

fn standard_sonata() -> SonataForm {
    SonataForm::standard(1, 16, 20, 40, 41, 70, 71, 86, 90, 120, 0)
}

#[test]
fn test_key_fidelity() {
    let sonata = standard_sonata();
    let counts = recapitulation_counts(&sonata);
    let key_fidelity = if counts.recapitulation_sections > 0 {
        counts.recapitulation_in_tonic as f64 / counts.recapitulation_sections as f64
    } else {
        0.0
    };
    // In our standard sonata, recapitulation theme2 is in the tonic key
    assert!(key_fidelity > 0.0);
}

#[test]
fn test_duration_ratio() {
    let sonata = standard_sonata();
    let counts = recapitulation_counts(&sonata);
    let duration_ratio = if counts.exposition_measures > 0 {
        counts.recapitulation_measures as f64 / counts.exposition_measures as f64
    } else {
        0.0
    };
    // Should be close to 1.0 for a standard sonata
    assert!(duration_ratio > 0.5 && duration_ratio < 2.0);
}

#[test]
fn counts_of_standard_sonata() {
    let counts = recapitulation_counts(&standard_sonata());
    assert_eq!(counts.exposition_measures, 40);
    assert_eq!(counts.recapitulation_measures, 50);
    assert_eq!(counts.recapitulation_sections, 3);
    assert_eq!(counts.recapitulation_in_tonic, 3);
}

#[test]
fn counts_with_foreign_recapitulation_key() {
    let sonata = SonataForm::new(vec![
        Section::new(SectionType::ExpositionTheme1, 1, 10, 2),
        Section::new(SectionType::RecapitulationTheme1, 11, 20, 2),
        Section::new(SectionType::RecapitulationTheme2, 21, 25, 7),
    ]);
    let counts = recapitulation_counts(&sonata);
    assert_eq!(counts.recapitulation_sections, 2);
    assert_eq!(counts.recapitulation_in_tonic, 1);
    let empty = recapitulation_counts(&SonataForm::new(vec![]));
    assert_eq!(empty.exposition_measures, 0);
    assert_eq!(empty.recapitulation_sections, 0);
}

#[test]
fn section_ids() {
    assert_eq!(section_id(&SectionType::ExpositionTheme1), 1);
    assert_eq!(section_id(&SectionType::RecapitulationTheme1), 1);
    assert_eq!(section_id(&SectionType::ExpositionTransition), 2);
    assert_eq!(section_id(&SectionType::RecapitulationTheme2), 3);
    assert_eq!(section_id(&SectionType::ExpositionClosing), 4);
    assert_eq!(section_id(&SectionType::Development), 0);
    assert_eq!(section_id(&SectionType::Coda), 0);
}

#[test]
fn counterparts_share_the_encoding() {
    let sonata = standard_sonata();
    let rec = sonata.recapitulation();
    assert_eq!(counterparts(&SectionType::ExpositionTheme1, &rec), vec![0]);
    assert_eq!(counterparts(&SectionType::RecapitulationTheme2, &rec), vec![2]);
    assert_eq!(counterparts(&SectionType::ExpositionTransition, &rec), vec![1]);
    assert_eq!(counterparts(&SectionType::Development, &rec), Vec::<usize>::new());
    assert_eq!(counterparts(&SectionType::ExpositionTheme1, &vec![]), Vec::<usize>::new());
}

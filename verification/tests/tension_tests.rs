use topo_sonata_rs::form::{Section, SectionType, SonataForm};
use topo_sonata_rs::tension::{tension_model, tension_profile, TensionLandscape, TensionLookup};

/// Order key of a tension value: compares like the value, `None` for NaN.
fn key(x: f64) -> Option<i64> {
    if x.is_nan() {
        return None;
    }
    let x = if x == 0.0 { 0.0 } else { x };
    let b = x.to_bits() as i64;
    Some(if b < 0 { b ^ i64::MAX } else { b })
}

fn landscape(values: &[(usize, f64)]) -> TensionLandscape {
    let keyed: Vec<(usize, Option<i64>)> = values.iter().map(|(m, t)| (*m, key(*t))).collect();
    TensionLandscape::new(&keyed)
}

#[test]
fn test_peaks() {
    let landscape = landscape(&[(1, 0.5), (2, 1.0), (3, 0.5)]);
    let peaks = landscape.peaks();
    assert_eq!(peaks, vec![1]);
}

#[test]
fn test_valleys() {
    let landscape = landscape(&[(1, 1.0), (2, 0.5), (3, 1.0)]);
    let valleys = landscape.valleys();
    assert_eq!(valleys, vec![1]);
}

#[test]
fn empty_and_short_landscapes() {
    let empty = landscape(&[]);
    assert!(empty.is_empty());
    assert_eq!(empty.len(), 0);
    assert!(empty.peaks().is_empty());
    assert!(empty.valleys().is_empty());
    let two = landscape(&[(1, 0.0), (2, 1.0)]);
    assert!(!two.is_empty());
    assert_eq!(two.len(), 2);
    assert!(two.peaks().is_empty());
    assert!(two.valleys().is_empty());
}

#[test]
fn plateaus_and_nan_are_neither() {
    let l = landscape(&[(1, 0.2), (2, 0.7), (3, 0.7), (4, 0.1), (5, 0.9), (6, -0.3), (7, 0.4)]);
    assert_eq!(l.peaks(), vec![4]);
    assert_eq!(l.valleys(), vec![3, 5]);
    let n = landscape(&[(1, 0.0), (2, f64::NAN), (3, 0.0), (4, 1.0), (5, 0.0)]);
    assert_eq!(n.peaks(), vec![3]);
    assert!(n.valleys().is_empty());
}

#[test]
fn negative_zero_equals_zero() {
    let l = landscape(&[(1, -0.0), (2, 0.0), (3, -0.0)]);
    assert!(l.peaks().is_empty());
    assert!(l.valleys().is_empty());
}

#[test]
fn new_keeps_measures_in_order() {
    let l = landscape(&[(4, 0.1), (9, 0.2)]);
    assert_eq!(l.profile[0].measure, 4);
    assert_eq!(l.profile[1].measure, 9);
    assert!(l.profile[0].tension < l.profile[1].tension);
}

#[test]
fn tension_model_table() {
    assert_eq!(tension_model(&SectionType::ExpositionTheme1), (3, 0));
    assert_eq!(tension_model(&SectionType::ExpositionTransition), (3, 4));
    assert_eq!(tension_model(&SectionType::Development), (6, 3));
    assert_eq!(tension_model(&SectionType::Coda), (3, -2));
    assert_eq!(tension_model(&SectionType::Introduction), (2, 1));
    assert_eq!(tension_model(&SectionType::ExpositionClosing), (4, -1));
}

#[test]
fn lookup_of_tension_at_measures() {
    let l = landscape(&[(2, 0.1), (5, 0.4), (9, 0.2)]);
    assert_eq!(l.tension_at(5), Some(TensionLookup::Point(1)));
    assert_eq!(l.tension_at(1), Some(TensionLookup::Point(0)));
    assert_eq!(l.tension_at(2), Some(TensionLookup::Point(0)));
    assert_eq!(
        l.tension_at(7),
        Some(TensionLookup::Between { before: 1, after: 2, offset: 2, span: 4 })
    );
    assert_eq!(l.tension_at(10), None);
    assert_eq!(landscape(&[]).tension_at(0), None);
}

fn simple_sonata() -> SonataForm {
    SonataForm::new(vec![
        Section::new(SectionType::ExpositionTheme1, 1, 10, 0),
        Section::new(SectionType::Development, 11, 30, 0),
        Section::new(SectionType::RecapitulationTheme1, 31, 40, 0),
    ])
}

#[test]
fn test_tension_landscape_from_sonata() {
    let sonata = simple_sonata();
    let landscape = tension_profile(&sonata);
    assert_eq!(landscape.len(), 40);
}

#[test]
fn profile_steps_follow_sections() {
    let p = tension_profile(&simple_sonata());
    assert_eq!(p[0].measure, 1);
    assert_eq!((p[0].base_tenths, p[0].slope_tenths, p[0].step, p[0].steps), (3, 0, 0, 10));
    assert_eq!(p[10].measure, 11);
    assert_eq!((p[10].base_tenths, p[10].slope_tenths, p[10].step, p[10].steps), (6, 3, 0, 20));
    assert_eq!((p[29].measure, p[29].step), (30, 19));
    assert_eq!((p[39].measure, p[39].step, p[39].steps), (40, 9, 10));
    let empty = SonataForm::new(vec![Section::new(SectionType::Coda, 5, 4, 0)]);
    assert!(tension_profile(&empty).is_empty());
}

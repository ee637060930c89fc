use topo_sonata_rs::form::{Section, SectionType, SonataForm};
use topo_sonata_rs::transition::{
    classify_transition, compute_transition, tonal_complexity, total_tonal_distance,
    transition_map, TonalPoint, TransitionType,
};

#[test]
fn test_tonal_point_distance() {
    let c = TonalPoint::new(0, 0);
    let g = TonalPoint::new(1, 0);
    assert!((c.circle_distance(&g) as f64 - 1.0).abs() < 1e-10);
}

#[test]
fn test_tonal_point_wrapping() {
    let f_sharp = TonalPoint::new(6, 0);
    let g_flat = TonalPoint::new(-6, 0);
    let dist = f_sharp.circle_distance(&g_flat) as f64;
    assert!(dist.abs() < 1e-10);
}

#[test]
fn test_mode_distance() {
    let c_maj = TonalPoint::new(0, 0);
    let c_min = TonalPoint::new(0, 1);
    // `distance` counts half-fifths.
    assert!((c_maj.distance(&c_min) as f64 / 2.0 - 0.5).abs() < 1e-10);
}

#[test]
fn test_compute_transition() {
    let t = compute_transition(0, 2);
    assert!((t.path_length as f64 - 2.0).abs() < 1e-10);
    assert_eq!(t.intermediates.len(), 1);
}

#[test]
fn test_transition_no_intermediate() {
    let t = compute_transition(0, 1);
    assert!(t.intermediates.is_empty());
}

#[test]
fn test_classify_static() {
    assert_eq!(classify_transition(0, 0), TransitionType::Static);
}

#[test]
fn test_classify_dominant() {
    assert_eq!(classify_transition(0, 1), TransitionType::ToDominant);
}

#[test]
fn test_classify_distant() {
    assert_eq!(classify_transition(0, 4), TransitionType::Distant);
}

#[test]
fn test_transition_map() {
    let sonata = SonataForm::new(vec![
        Section::new(SectionType::ExpositionTheme1, 1, 10, 0),
        Section::new(SectionType::ExpositionTheme2, 11, 20, 1),
        Section::new(SectionType::Development, 21, 40, 0),
    ]);
    let map = transition_map(&sonata);
    assert_eq!(map.len(), 2);
}

#[test]
fn test_tonal_complexity() {
    let sonata = SonataForm::new(vec![
        Section::new(SectionType::ExpositionTheme1, 1, 10, 0),
        Section::new(SectionType::ExpositionTheme2, 11, 20, 5),
    ]);
    let complexity = tonal_complexity(&sonata);
    assert!(complexity > 0);
}

#[test]
fn circle_distance_values() {
    let p = |f| TonalPoint::new(f, 0);
    assert_eq!(p(0).circle_distance(&p(7)), 5);
    assert_eq!(p(0).circle_distance(&p(12)), 0);
    assert_eq!(p(3).circle_distance(&p(-4)), 5);
    assert_eq!(p(-4).circle_distance(&p(3)), 5);
    assert_eq!(p(0).circle_distance(&p(6)), 6);
    assert_eq!(p(0).circle_distance(&p(25)), 1);
}

#[test]
fn distance_counts_half_fifths() {
    let a = TonalPoint::new(0, 0);
    let b = TonalPoint::new(3, 1);
    assert_eq!(a.distance(&b), 7);
    assert_eq!(a.distance(&TonalPoint::new(3, 0)), 6);
}

#[test]
fn transition_wraps_the_short_way() {
    let t = compute_transition(0, 10);
    assert_eq!(t.path_length, 2);
    let keys: Vec<i32> = t.intermediates.iter().map(|p| p.fifths).collect();
    assert_eq!(keys, vec![-1]);
    let t = compute_transition(2, -3);
    assert_eq!(t.path_length, 5);
    let keys: Vec<i32> = t.intermediates.iter().map(|p| p.fifths).collect();
    assert_eq!(keys, vec![1, 0, -1, -2]);
    assert_eq!(t.from.fifths, 2);
    assert_eq!(t.to.fifths, -3);
    assert!(t.intermediates.iter().all(|p| p.mode == 0));
}

#[test]
fn transition_far_apart_shifts_one_turn() {
    // More than eighteen fifths apart: the walk shifts by only one turn.
    let t = compute_transition(0, 24);
    assert_eq!(t.path_length, 0);
    assert_eq!(t.intermediates.len(), 11);
}

#[test]
fn classification_table() {
    assert_eq!(classify_transition(0, -1), TransitionType::ToSubdominant);
    assert_eq!(classify_transition(0, 11), TransitionType::ToSubdominant);
    assert_eq!(classify_transition(3, 2), TransitionType::ToSubdominant);
    assert_eq!(classify_transition(0, 13), TransitionType::ToDominant);
    assert_eq!(classify_transition(-1, 0), TransitionType::ToDominant);
    assert_eq!(classify_transition(0, 5), TransitionType::ToSubdominant);
    assert_eq!(classify_transition(2, 9), TransitionType::ToSubdominant);
    assert_eq!(classify_transition(0, 3), TransitionType::Relative);
    assert_eq!(classify_transition(0, -9), TransitionType::Relative);
    assert_eq!(classify_transition(0, 12), TransitionType::Static);
    assert_eq!(classify_transition(0, 6), TransitionType::Distant);
    assert_eq!(classify_transition(0, 2), TransitionType::Distant);
}

#[test]
fn distance_and_complexity_of_a_sonata() {
    let sonata = SonataForm::standard(1, 16, 20, 40, 41, 70, 71, 86, 90, 120, 0);
    let map = transition_map(&sonata);
    assert_eq!(map.len(), 6);
    assert_eq!(map[1].path_length, 5);
    assert_eq!(map[2].path_length, 5);
    assert_eq!(total_tonal_distance(&sonata), 10);
    assert_eq!(tonal_complexity(&sonata), 10);

    let far = SonataForm::new(vec![
        Section::new(SectionType::ExpositionTheme1, 1, 10, 0),
        Section::new(SectionType::Development, 11, 20, 20),
    ]);
    assert_eq!(total_tonal_distance(&far), 4);
    assert_eq!(tonal_complexity(&far), 8);
}

#[test]
fn empty_and_single_section_maps() {
    let empty = SonataForm::new(vec![]);
    assert!(transition_map(&empty).is_empty());
    assert_eq!(total_tonal_distance(&empty), 0);
    assert_eq!(tonal_complexity(&empty), 0);
    let one = SonataForm::new(vec![Section::new(SectionType::Coda, 1, 2, 4)]);
    assert!(transition_map(&one).is_empty());
}

#[test]
fn circle_distance_triangle_inequality_samples() {
    let keys = [-13, -7, -6, -1, 0, 1, 5, 6, 7, 11, 12, 19];
    for &a in &keys {
        for &b in &keys {
            for &c in &keys {
                let (pa, pb, pc) = (TonalPoint::new(a, 0), TonalPoint::new(b, 0), TonalPoint::new(c, 0));
                assert!(pa.circle_distance(&pc) <= pa.circle_distance(&pb) + pb.circle_distance(&pc));
                assert_eq!(pa.circle_distance(&pb), pb.circle_distance(&pa));
                assert!(pa.circle_distance(&pb) <= 6);
            }
        }
    }
}

#[test]
fn classification_follows_circle_distance() {
    for to in -30..30 {
        let d = TonalPoint::new(0, 0).circle_distance(&TonalPoint::new(to, 0));
        let up_one = to.rem_euclid(12) == 1;
        let expected = match d {
            0 => TransitionType::Static,
            1 if up_one => TransitionType::ToDominant,
            1 => TransitionType::ToSubdominant,
            5 => TransitionType::ToSubdominant,
            3 => TransitionType::Relative,
            _ => TransitionType::Distant,
        };
        assert_eq!(classify_transition(0, to), expected);
        let reversed = match expected {
            TransitionType::ToDominant => TransitionType::ToSubdominant,
            TransitionType::ToSubdominant if d == 1 => TransitionType::ToDominant,
            other => other,
        };
        assert_eq!(classify_transition(to, 0), reversed);
    }
}

#[test]
fn transition_walk_steps_by_one_fifth() {
    for to in -18..=18 {
        let t = compute_transition(3, 3 + to);
        let mut walk = vec![3];
        walk.extend(t.intermediates.iter().map(|p| p.fifths));
        for w in walk.windows(2) {
            assert_eq!((w[1] - w[0]).abs(), 1);
        }
        let expected = if t.path_length > 0 { t.path_length as usize - 1 } else { 0 };
        assert_eq!(t.intermediates.len(), expected);
    }
}

#[test]
fn transition_map_chains() {
    let sonata = SonataForm::new(vec![
        Section::new(SectionType::ExpositionTheme1, 1, 10, 0),
        Section::new(SectionType::ExpositionTheme2, 11, 20, 3),
        Section::new(SectionType::Development, 21, 40, -2),
        Section::new(SectionType::Coda, 41, 50, 9),
    ]);
    let map = transition_map(&sonata);
    assert_eq!(map.len(), 3);
    for w in map.windows(2) {
        assert_eq!(w[0].to.fifths, w[1].from.fifths);
    }
    assert_eq!(map[2].path_length, 1);
    assert_eq!(total_tonal_distance(&sonata), 3 + 5 + 1);
    assert_eq!(tonal_complexity(&sonata), 3 + 5 + 1);
}

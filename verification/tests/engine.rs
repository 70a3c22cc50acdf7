use xaffinity::{get_monitors_for_affinities, Affinity, AffinityPair, Monitor};

fn primary() -> Monitor {
    Monitor {
        x: 0,
        y: 0,
        width: 1920,
        height: 1080,
        primary: true,
        name: "PRIMARY".into(),
    }
}

fn large() -> Monitor {
    Monitor {
        x: 1920,
        y: 0,
        width: 3440,
        height: 1440,
        primary: false,
        name: "LARGE".into(),
    }
}
fn top() -> Monitor {
    Monitor {
        x: 0,
        y: 1440,
        width: 1024,
        height: 768,
        primary: false,
        name: "TOP".into(),
    }
}

fn portrait() -> Monitor {
    Monitor {
        x: 0,
        y: 1080,
        width: 768,
        height: 1024,
        primary: false,
        name: "PORTRAIT".into(),
    }
}

#[test]
fn test_affinities_largest() {
    let monitors = vec![primary(), large()];
    let affinities = vec![AffinityPair(Affinity::Largest, true)];
    let selected_monitors = get_monitors_for_affinities(&affinities, &monitors);
    assert_eq!(1, selected_monitors.len());
    assert_eq!("LARGE", selected_monitors[0].name);
}

#[test]
fn test_affinities_smallest() {
    let monitors = vec![large(), primary()];
    let affinities = vec![AffinityPair(Affinity::Smallest, true)];
    let selected_monitors = get_monitors_for_affinities(&affinities, &monitors);
    assert_eq!(1, selected_monitors.len());
    assert_eq!("PRIMARY", selected_monitors[0].name);
}

#[test]
fn test_affinities_primary() {
    let monitors = vec![large(), primary()];
    let affinities = vec![AffinityPair(Affinity::Primary, true)];
    let selected_monitors = get_monitors_for_affinities(&affinities, &monitors);
    assert_eq!(1, selected_monitors.len());
    assert_eq!("PRIMARY", selected_monitors[0].name);
}

#[test]
fn test_affinities_nonprimary() {
    let monitors = vec![primary(), large()];
    let affinities = vec![AffinityPair(Affinity::Nonprimary, true)];
    let selected_monitors = get_monitors_for_affinities(&affinities, &monitors);
    assert_eq!(1, selected_monitors.len());
    assert_eq!("LARGE", selected_monitors[0].name);
}

#[test]
fn test_affinities_leftmost() {
    let monitors = vec![primary(), large()];
    let affinities = vec![AffinityPair(Affinity::Leftmost, true)];
    let selected_monitors = get_monitors_for_affinities(&affinities, &monitors);
    assert_eq!(1, selected_monitors.len());
    assert_eq!("PRIMARY", selected_monitors[0].name);
}

#[test]
fn test_affinities_rightmost() {
    let monitors = vec![primary(), large()];
    let affinities = vec![AffinityPair(Affinity::Rightmost, true)];
    let selected_monitors = get_monitors_for_affinities(&affinities, &monitors);
    assert_eq!(1, selected_monitors.len());
    assert_eq!("LARGE", selected_monitors[0].name);
}

#[test]
fn test_affinities_topmost() {
    let monitors = vec![primary(), top()];
    let affinities = vec![AffinityPair(Affinity::Topmost, true)];
    let selected_monitors = get_monitors_for_affinities(&affinities, &monitors);
    assert_eq!(1, selected_monitors.len());
    assert_eq!("TOP", selected_monitors[0].name);
}

#[test]
fn test_affinities_bottommost() {
    let monitors = vec![top(), primary()];
    let affinities = vec![AffinityPair(Affinity::Bottommost, true)];
    let selected_monitors = get_monitors_for_affinities(&affinities, &monitors);
    assert_eq!(1, selected_monitors.len());
    assert_eq!("PRIMARY", selected_monitors[0].name);
}

#[test]
fn test_negative_affinities() {
    let monitors = vec![top(), primary()];
    let affinities = vec![AffinityPair(Affinity::Bottommost, false)];
    let selected_monitors = get_monitors_for_affinities(&affinities, &monitors);
    assert_eq!(1, selected_monitors.len());
    assert_eq!("TOP", selected_monitors[0].name);
}

#[test]
fn test_negative_affinities_xmost_single() {
    let monitors = vec![top()];
    let affinities = vec![AffinityPair(Affinity::Bottommost, false)];
    let selected_monitors = get_monitors_for_affinities(&affinities, &monitors);
    assert_eq!(0, selected_monitors.len());
}

#[test]
fn test_affinities_landscape() {
    let monitors = vec![portrait(), primary()];
    let affinities = vec![AffinityPair(Affinity::Landscape, true)];
    let selected_monitors = get_monitors_for_affinities(&affinities, &monitors);
    assert_eq!(1, selected_monitors.len());
    assert_eq!("PRIMARY", selected_monitors[0].name);
}

#[test]
fn test_affinities_portrait() {
    let monitors = vec![primary(), portrait()];
    let affinities = vec![AffinityPair(Affinity::Portrait, true)];
    let selected_monitors = get_monitors_for_affinities(&affinities, &monitors);
    assert_eq!(1, selected_monitors.len());
    assert_eq!("PORTRAIT", selected_monitors[0].name);
}

#[test]
fn test_affinities_matches_all() {
    let monitors = vec![primary(), top(), large()];
    let affinities = vec![AffinityPair(Affinity::Landscape, true)];
    let selected_monitors = get_monitors_for_affinities(&affinities, &monitors);
    assert_eq!(3, selected_monitors.len());
}

#[test]
fn test_affinities_matches_none() {
    let monitors = vec![primary(), top(), large()];
    let affinities = vec![AffinityPair(Affinity::Portrait, true)];
    let selected_monitors = get_monitors_for_affinities(&affinities, &monitors);
    assert_eq!(0, selected_monitors.len());
}

#[test]
fn test_affinities_matches_multiple_but_not_all() {
    let monitors = vec![primary(), top(), large(), portrait()];
    let affinities = vec![AffinityPair(Affinity::Landscape, true)];
    let selected_monitors = get_monitors_for_affinities(&affinities, &monitors);
    assert_eq!(3, selected_monitors.len());
    assert!(selected_monitors.iter().is_sorted_by_key(|m| &m.name));
}

#[test]
fn test_affinities_matches_exclusive_sort_based() {
    let monitors = vec![primary(), top(), large(), portrait()];
    let affinities = vec![AffinityPair(Affinity::Largest, false)];
    let selected_monitors = get_monitors_for_affinities(&affinities, &monitors);
    assert_eq!(3, selected_monitors.len());
    assert_eq!("PORTRAIT", selected_monitors[0].name);
    assert_eq!("PRIMARY", selected_monitors[1].name);
    assert_eq!("TOP", selected_monitors[2].name);
}

#[test]
fn test_affinities_matches_exclusive_binary() {
    let monitors = vec![primary(), top(), large(), portrait()];
    let affinities = vec![
        AffinityPair(Affinity::Landscape, false),
        AffinityPair(Affinity::Leftmost, true),
    ];
    let selected_monitors = get_monitors_for_affinities(&affinities, &monitors);
    assert_eq!(1, selected_monitors.len());
    assert_eq!("PORTRAIT", selected_monitors[0].name);
}

#[test]
fn test_affinities_matches_multiple_criteria() {
    let monitors = vec![primary(), top(), large(), portrait()];
    let affinities = vec![
        AffinityPair(Affinity::Landscape, true),
        AffinityPair(Affinity::Leftmost, true),
        AffinityPair(Affinity::Bottommost, true),
    ];
    let selected_monitors = get_monitors_for_affinities(&affinities, &monitors);
    assert_eq!(1, selected_monitors.len());
    assert_eq!("PRIMARY", selected_monitors[0].name);
}

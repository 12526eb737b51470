use dv2_dnt_fix::count::{count_nearby_dnt, count_target_dnt, looks_already_patched};
use dv2_dnt_fix::error::PatchError;
use dv2_dnt_fix::patch::{patch_near, patch_sets, PLACEHOLDER};
use std::collections::HashSet;

/// `DO NOT TRANSLATE`, `gap` filler bytes, then `name`.
fn entry_bytes(gap: usize, name: &str) -> Vec<u8> {
    let mut v = PLACEHOLDER.as_bytes().to_vec();
    v.extend(std::iter::repeat(b'.').take(gap));
    v.extend_from_slice(name.as_bytes());
    v
}

#[test]
fn patch_near_replaces_the_placeholder_before_the_name() {
    let mut data = b"xx".to_vec();
    data.extend(entry_bytes(4, "Gold Ore"));
    let mut taken = HashSet::new();
    let mut log = String::new();
    let n = patch_near(&mut data, "Gold Ore", "Ruda zlota      ", &mut taken, &mut log).ok().unwrap();
    assert_eq!(n, 1);
    assert_eq!(&data[2..18], b"Ruda zlota      ");
    assert_eq!(&data[18..22], b"....");
    assert_eq!(&data[22..30], b"Gold Ore");
    assert!(taken.contains(&2));
    assert_eq!(taken.len(), 1);
    assert!(log.contains("] English: Gold Ore | occurrences: 1\n"));
    assert!(log.contains("]   PATCH at 0x2 before 'Gold Ore' distance=20\n"));
    assert!(log.contains("]   patched count for Gold Ore: 1\n"));
    assert_eq!(log.lines().count(), 5);
}

#[test]
fn patch_near_ignores_placeholders_outside_the_window() {
    // Too close (distance 15 is impossible: the placeholder itself is 16 long), too far (81).
    let mut data = entry_bytes(65, "Spinel");
    let mut taken = HashSet::new();
    let mut log = String::new();
    let n = patch_near(&mut data, "Spinel", "Spinel          ", &mut taken, &mut log).ok().unwrap();
    assert_eq!(n, 0);
    assert_eq!(&data[0..16], PLACEHOLDER.as_bytes());
    assert!(log.contains("]   no nearby placeholder before occurrence at 0x51\n"));
    let mut near = entry_bytes(64, "Spinel");
    let n2 = patch_near(&mut near, "Spinel", "Spinel          ", &mut taken, &mut log).ok().unwrap();
    assert_eq!(n2, 1);
}

#[test]
fn patch_near_takes_the_nearest_free_placeholder() {
    // Two placeholders before one name: the nearer one is replaced; an already
    // taken placeholder is skipped.
    let mut data = PLACEHOLDER.as_bytes().to_vec();
    data.extend(entry_bytes(2, "Sapphire"));
    let mut taken = HashSet::new();
    let mut log = String::new();
    patch_near(&mut data.clone(), "Sapphire", "Szafir          ", &mut taken, &mut log).ok().unwrap();
    assert!(taken.contains(&16));
    let mut taken2: HashSet<usize> = HashSet::new();
    taken2.insert(16);
    let n = patch_near(&mut data, "Sapphire", "Szafir          ", &mut taken2, &mut log).ok().unwrap();
    assert_eq!(n, 1);
    assert_eq!(&data[0..16], b"Szafir          ");
    assert_eq!(&data[16..32], PLACEHOLDER.as_bytes());
}

#[test]
fn patch_near_rejects_a_bad_replacement() {
    let mut data = entry_bytes(4, "Gold Ore");
    let before = data.clone();
    let mut taken = HashSet::new();
    let mut log = String::new();
    match patch_near(&mut data, "Gold Ore", "too short", &mut taken, &mut log) {
        Err(e) => {
            assert!(matches!(e, PatchError::BadReplacement { len: 9, .. }));
            assert_eq!(e.message(), "Replacement must be exactly 16 ASCII chars: 'too short', len=9");
        }
        Ok(_) => panic!("accepted a short replacement"),
    }
    assert_eq!(data, before);
    assert!(log.is_empty());
    assert!(patch_near(&mut data, "Gold Ore", "Złoto           ", &mut taken, &mut log).is_err());
}

#[test]
fn counts_placeholders_before_target_names() {
    let mut data = entry_bytes(10, "Malachite Ore");
    data.extend(entry_bytes(0, "Gold Ore"));
    data.extend(entry_bytes(3, "Spinel"));
    let mut log = String::new();
    // `Gold Ore` at 55 has placeholders 55 and 16 bytes before it.
    assert_eq!(count_nearby_dnt(&data, "Gold Ore", &mut log), 2);
    assert_eq!(log.lines().count(), 4);
    assert!(log.contains("]   remaining DNT near 'Gold Ore' at placeholder 0x0, english 0x37, distance=55\n"));
    assert!(log.contains("]   remaining DNT near 'Gold Ore' at placeholder 0x27, english 0x37, distance=16\n"));
    let mut log2 = String::new();
    assert_eq!(count_target_dnt(&data, &mut log2), 3);
    assert_eq!(count_nearby_dnt(&data, "Sapphire", &mut log2), 0);
}

#[test]
fn patched_labels_are_recognized() {
    assert!(looks_already_patched(b"..Ruda malachitu  .."));
    assert!(looks_already_patched(b"Malachit ruda   "));
    assert!(!looks_already_patched(b"Ruda malachitu"));
    assert!(!looks_already_patched(b""));
}

#[test]
fn patch_sets_in_order() {
    let sets = patch_sets(true);
    let names: Vec<&str> = sets.iter().map(|s| s.name).collect();
    assert_eq!(
        names,
        vec![
            "standard-polish-labels",
            "fallback-compression-friendly-polish-labels",
            "fallback-ultra-compact-polish-labels"
        ]
    );
    assert_eq!(sets[0].entries[0].english, "Malachite Ore");
    assert_eq!(sets[0].entries[0].replacement16, "Ruda malachitu  ");
    assert_eq!(sets[2].entries[1].replacement16, "Zloto           ");
    for s in &sets {
        assert_eq!(s.entries.len(), 5);
        for e in &s.entries {
            assert_eq!(e.replacement16.len(), 16);
            assert!(e.replacement16.is_ascii());
        }
    }
    let only = patch_sets(false);
    assert_eq!(only.len(), 1);
    assert_eq!(only[0].name, "standard-polish-labels");
}

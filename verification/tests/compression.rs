use dv2_dnt_fix::codec::{
    compression_candidates, compress_zopfli_zlib, decompress_zlib, verify_compressed_candidate,
    CompressionCandidate,
};
use dv2_dnt_fix::error::{PatchError, PACKED_SIZE};
use dv2_dnt_fix::patch::{patch_sets, PatchEntry, PatchSet, PLACEHOLDER};
use dv2_dnt_fix::select::find_best_patch_and_compression;

fn entry_bytes(gap: usize, name: &str) -> Vec<u8> {
    let mut v = PLACEHOLDER.as_bytes().to_vec();
    v.extend(std::iter::repeat(b'.').take(gap));
    v.extend_from_slice(name.as_bytes());
    v
}

fn sample_data() -> Vec<u8> {
    let mut data = b"header ".to_vec();
    data.extend(entry_bytes(8, "Malachite Ore"));
    data.extend(b" some text ".iter());
    data.extend(entry_bytes(12, "Gold Ore"));
    data.extend(b" more ".iter());
    data.extend(entry_bytes(20, "Malachite Gem"));
    data.extend(b" end".iter());
    data
}

#[test]
fn candidates_are_all_methods_sorted_by_size() {
    let data = sample_data();
    let mut log = String::new();
    let cands = compression_candidates(&data, &mut log).ok().unwrap();
    assert_eq!(cands.len(), 17);
    for w in cands.windows(2) {
        assert!(w[0].bytes.len() <= w[1].bytes.len());
    }
    for c in &cands {
        assert_eq!(decompress_zlib(&c.bytes).ok().unwrap(), data);
    }
    let mut names: Vec<String> = cands.iter().map(|c| c.name.clone()).collect();
    names.sort();
    assert!(names.contains(&"flate2-zlib-level-9".to_string()));
    assert!(names.contains(&"flate2-zlib-level-1".to_string()));
    assert!(names.contains(&"zopfli-iter15-splits15-defaultish".to_string()));
    assert!(names.contains(&"zopfli-iter50-splits-unlimited".to_string()));
    assert!(log.contains("] \n"));
    assert!(log.contains("] ===== COMPRESSION CANDIDATES =====\n"));
    assert_eq!(log.lines().count(), 2);
}

#[test]
fn zopfli_needs_iterations() {
    match compress_zopfli_zlib(b"abc", 0, 15) {
        Err(e) => assert_eq!(e, "iterations must be non-zero"),
        Ok(_) => panic!("zero iterations accepted"),
    }
    let out = compress_zopfli_zlib(b"abcabcabc", 5, 15).ok().unwrap();
    assert_eq!(decompress_zlib(&out).ok().unwrap(), b"abcabcabc".to_vec());
}

#[test]
fn decompress_rejects_garbage() {
    assert!(decompress_zlib(b"not zlib at all").is_err());
}

#[test]
fn verify_candidate_outcomes() {
    let data = b"hello hello hello".to_vec();
    let good = CompressionCandidate {
        name: "x".to_string(),
        bytes: compress_zopfli_zlib(&data, 5, 15).ok().unwrap(),
    };
    let mut log = String::new();
    assert!(verify_compressed_candidate(&good, &data, &mut log).is_ok());
    assert!(log.ends_with("] Candidate verified: x\n"));

    let mut log2 = String::new();
    match verify_compressed_candidate(&good, b"other", &mut log2) {
        Err(e) => {
            assert!(matches!(e, PatchError::RoundtripMismatch { .. }));
            assert_eq!(e.message(), "Candidate 'x' roundtrip mismatch");
        }
        Ok(()) => panic!("mismatch accepted"),
    }
    assert!(log2.is_empty());

    let bad = CompressionCandidate { name: "y".to_string(), bytes: b"junk".to_vec() };
    match verify_compressed_candidate(&bad, &data, &mut log2) {
        Err(e) => {
            assert!(matches!(e, PatchError::NotZlib { .. }));
            assert!(e.message().starts_with("Candidate 'y' does not decompress as zlib: "));
        }
        Ok(()) => panic!("junk accepted"),
    }
}

#[test]
fn best_patch_uses_standard_labels_and_fits() {
    let dec = sample_data();
    let sets = patch_sets(true);
    let mut log = String::new();
    let best = find_best_patch_and_compression(&dec, &sets, &mut log).ok().unwrap();
    assert_eq!(best.patch_set_name, "standard-polish-labels");
    assert_eq!(best.total_patched, 3);
    assert!(best.bytes.len() <= PACKED_SIZE);
    assert_eq!(decompress_zlib(&best.bytes).ok().unwrap(), best.patched_dec);
    assert_eq!(best.patched_dec.len(), dec.len());
    let text = String::from_utf8(best.patched_dec.clone()).unwrap();
    assert!(text.contains("Ruda malachitu  ........Malachite Ore"));
    assert!(text.contains("Ruda zlota      ............Gold Ore"));
    assert!(text.contains("Malachit        ....................Malachite Gem"));
    assert!(!text.contains("DO NOT TRANSLATE"));
    // The smallest candidate is the one taken.
    let mut l2 = String::new();
    let cands = compression_candidates(&best.patched_dec, &mut l2).ok().unwrap();
    assert_eq!(best.bytes.len(), cands[0].bytes.len());
    assert_eq!(best.compression_name, cands[0].name);
    assert!(log.contains("] ===== TRY PATCH SET: standard-polish-labels =====\n"));
    assert!(log.contains("] Total patched for set 'standard-polish-labels': 3\n"));
    assert!(log.contains("] Remaining nearby DNT for target names: 0\n"));
    assert!(log.ends_with(&format!(
        "] Candidate fits in slot: {} <= {}\n",
        best.bytes.len(),
        PACKED_SIZE
    )));
    assert!(!log.contains("fallback"));
}

#[test]
fn too_few_patches_reject_every_set() {
    let mut dec = entry_bytes(8, "Malachite Ore");
    dec.extend(entry_bytes(8, "Gold Ore"));
    let sets = patch_sets(true);
    let mut log = String::new();
    match find_best_patch_and_compression(&dec, &sets, &mut log) {
        Err(e) => {
            assert!(matches!(e, PatchError::NothingPrepared));
            assert_eq!(e.message(), "Nie udało się przygotować poprawnego patcha.");
        }
        Ok(_) => panic!("two patches accepted"),
    }
    assert_eq!(log.matches("Patch set rejected: expected at least 3 patches.").count(), 3);
}

#[test]
fn bad_replacement_ends_the_search() {
    let dec = sample_data();
    let sets = vec![PatchSet {
        name: "broken",
        entries: vec![
            PatchEntry { english: "Gold Ore", replacement16: "Ruda zlota      " },
            PatchEntry { english: "Spinel", replacement16: "short" },
        ],
    }];
    let mut log = String::new();
    match find_best_patch_and_compression(&dec, &sets, &mut log) {
        Err(e) => assert!(matches!(e, PatchError::BadReplacement { len: 5, .. })),
        Ok(_) => panic!("bad set accepted"),
    }
}

#[test]
fn no_fit_message_names_the_closest_candidate() {
    let e = PatchError::NoFit {
        patch_set: "s".to_string(),
        compression: "c".to_string(),
        size: PACKED_SIZE + 7,
    };
    assert_eq!(
        e.message(),
        "Żadna metoda nie zmieściła się w slocie. Najbliżej było: patch set 's', kompresja 'c', 24506 bajtów, czyli o 7 bajtów za dużo."
    );
}

#[test]
fn patched_data_differs_only_at_replaced_placeholders() {
    let dec = sample_data();
    let sets = patch_sets(true);
    let mut log = String::new();
    let best = find_best_patch_and_compression(&dec, &sets, &mut log).ok().unwrap();
    let ph = PLACEHOLDER.as_bytes();
    let windows: Vec<usize> = (0..=dec.len() - ph.len()).filter(|&i| &dec[i..i + ph.len()] == ph).collect();
    assert_eq!(windows.len(), 3);
    let mut changed = 0;
    for i in 0..dec.len() {
        if best.patched_dec[i] != dec[i] {
            changed += 1;
            assert!(windows.iter().any(|&p| p <= i && i < p + 16), "byte {} changed outside a placeholder", i);
        }
    }
    assert!(changed > 0);
}

#[test]
fn chosen_set_is_applied_to_a_fresh_copy() {
    let dec = sample_data();
    let sets = patch_sets(true);
    let mut log = String::new();
    let best = find_best_patch_and_compression(&dec, &sets, &mut log).ok().unwrap();
    let mut d = dec.clone();
    let mut taken = std::collections::HashSet::new();
    let mut n = 0;
    let mut l = String::new();
    for e in &sets[0].entries {
        n += dv2_dnt_fix::patch::patch_near(&mut d, e.english, e.replacement16, &mut taken, &mut l).ok().unwrap();
    }
    assert_eq!(best.patched_dec, d);
    assert_eq!(best.total_patched, n);
}

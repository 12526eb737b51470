use dv2_dnt_fix::codec::compress_flate2_zlib;
use dv2_dnt_fix::error::{PatchError, EXPECTED_UNPACKED_SIZE, PACKED_SIZE};
use dv2_dnt_fix::files::{
    backup_file_name, fixed_steam_roots, is_backup_name, log_file_name, manifest_file_name,
    newest_backup,
};
use dv2_dnt_fix::gui::{trimmed, GuiApp};
use dv2_dnt_fix::pipeline::{
    already_patched_message, check_restored, check_written, data_file_path, dry_run_message,
    finish_run, log_slot_info, log_verify_heading, patch_ok_message, prepare_patch, splice_slot, Prepared, RunMode,
    RunReport, OFFSET,
};
use dv2_dnt_fix::select::BestCandidate;
use dv2_dnt_fix::steam::{detect_game_root, game_dir_candidates, library_paths, parse_acf_installdir};

fn whole_with_slot(slot_contents: &[u8]) -> Vec<u8> {
    let mut whole = vec![7u8; OFFSET];
    whole.extend_from_slice(slot_contents);
    whole.resize(OFFSET + PACKED_SIZE + 10, 0);
    whole
}

fn best_for(patched: Vec<u8>) -> BestCandidate {
    let bytes = compress_flate2_zlib(&patched, 9).ok().unwrap();
    BestCandidate {
        patch_set_name: "standard-polish-labels".to_string(),
        compression_name: "flate2-zlib-level-9".to_string(),
        bytes,
        patched_dec: patched,
        total_patched: 3,
    }
}

#[test]
fn prepare_rejects_short_file() {
    let mut log = String::new();
    let r = prepare_patch(&vec![0u8; 100], RunMode::DryRun, true, &mut log);
    assert!(matches!(r, Err(PatchError::FileTooSmall)));
    assert!(log.is_empty());
}

#[test]
fn prepare_rejects_non_zlib_slot() {
    let whole = whole_with_slot(b"garbage");
    let mut log = String::new();
    let r = prepare_patch(&whole, RunMode::DryRun, true, &mut log);
    assert!(matches!(r, Err(PatchError::SlotNotZlib { .. })));
}

#[test]
fn prepare_rejects_unexpected_size() {
    let packed = compress_flate2_zlib(&vec![0u8; 1000], 9).ok().unwrap();
    let whole = whole_with_slot(&packed);
    let mut log = String::new();
    match prepare_patch(&whole, RunMode::DryRun, true, &mut log) {
        Err(e) => {
            assert!(matches!(e, PatchError::UnexpectedSize { size: 1000 }));
            assert_eq!(
                e.message(),
                "Nieoczekiwany rozmiar po dekompresji: 1000, oczekiwano 181669. To może być inna wersja pliku."
            );
        }
        Ok(_) => panic!("wrong size accepted"),
    }
    assert!(log.ends_with("] Decompressed size: 1000\n"));
}

#[test]
fn prepare_detects_already_patched_and_missing_placeholders() {
    let mut dec = vec![0u8; EXPECTED_UNPACKED_SIZE];
    dec[500..516].copy_from_slice(b"Ruda malachitu  ");
    let whole = whole_with_slot(&compress_flate2_zlib(&dec, 9).ok().unwrap());
    let mut log = String::new();
    assert!(matches!(
        prepare_patch(&whole, RunMode::PatchWrite, true, &mut log),
        Ok(Prepared::AlreadyPatched)
    ));
    assert!(log.contains("] ===== BEFORE CHECK =====\n"));
    assert!(log.ends_with("] Target nearby DNT count before patch: 0\n"));

    let plain = vec![0u8; EXPECTED_UNPACKED_SIZE];
    let whole2 = whole_with_slot(&compress_flate2_zlib(&plain, 9).ok().unwrap());
    let mut log2 = String::new();
    assert!(matches!(
        prepare_patch(&whole2, RunMode::DryRun, true, &mut log2),
        Err(PatchError::NoPlaceholders)
    ));
}

#[test]
fn splice_clears_slot_and_writes_bytes() {
    let whole = vec![9u8; OFFSET + PACKED_SIZE + 3];
    let out = splice_slot(&whole, b"abc");
    assert_eq!(out.len(), whole.len());
    assert_eq!(&out[OFFSET..OFFSET + 3], b"abc");
    assert!(out[OFFSET + 3..OFFSET + PACKED_SIZE].iter().all(|&b| b == 0));
    assert_eq!(out[OFFSET - 1], 9);
    assert_eq!(out[OFFSET + PACKED_SIZE], 9);
}

#[test]
fn written_file_is_checked() {
    let patched = b"Ruda zlota      ..Gold Ore".to_vec();
    let best = best_for(patched);
    let whole = splice_slot(&vec![1u8; OFFSET + PACKED_SIZE], &best.bytes);
    let mut log = String::new();
    log_verify_heading(&mut log);
    assert_eq!(log.lines().count(), 2);
    assert!(log.ends_with("] ===== VERIFY FROM DISK =====\n"));
    assert!(check_written(&whole, &best, &mut log).is_ok());
    assert!(log.contains("] Verify decompressed size: 26\n"));
    assert!(log.ends_with("] Remaining nearby DNT after disk write: 0\n"));

    let other = best_for(b"something else".to_vec());
    let mut log2 = String::new();
    assert!(matches!(check_written(&whole, &other, &mut log2), Err(PatchError::VerifyMismatch)));
    let junk = vec![1u8; OFFSET + PACKED_SIZE];
    assert!(matches!(check_written(&junk, &best, &mut log2), Err(PatchError::VerifyNotZlib { .. })));
}

#[test]
fn run_messages() {
    let best = best_for(b"x".to_vec());
    assert_eq!(
        dry_run_message(&best),
        format!(
            "Test OK. Wybrano: standard-polish-labels + flate2-zlib-level-9, rozmiar {} / 24499. Zapis nie został wykonany.",
            best.bytes.len()
        )
    );
    assert_eq!(
        patch_ok_message(&best, "C:\\b.bak"),
        "Patch OK. Metoda: standard-polish-labels + flate2-zlib-level-9. Backup: C:\\b.bak"
    );
    assert_eq!(already_patched_message(), "Wygląda na to, że plik jest już spatchowany — nie wykonano zapisu.");
    let mut log = String::new();
    log_slot_info(&mut log);
    assert!(log.contains("] Offset: 0x53963\n"));
    assert!(log.ends_with("] Packed size: 24499\n"));
}

#[test]
fn finish_run_reports_success_or_error() {
    let mut log = String::new();
    let (ok, msg) = finish_run(Ok("fine".to_string()), &mut log);
    assert!(ok);
    assert_eq!(msg, "fine");
    assert!(log.ends_with("] DONE\n"));
    let (ok2, msg2) = finish_run(Err("zły".to_string()), &mut log);
    assert!(!ok2);
    assert_eq!(msg2, "Błąd: zły");
    assert!(log.ends_with("] Błąd: zły\n"));
}

#[test]
fn restore_check_logs_slot_size() {
    let mut log = String::new();
    assert!(check_restored(&[1, 2, 3], &mut log).is_ok());
    assert!(log.is_empty());
    let whole = whole_with_slot(&compress_flate2_zlib(&vec![5u8; 42], 9).ok().unwrap());
    assert!(check_restored(&whole, &mut log).is_ok());
    assert!(log.ends_with("] Restored slot decompressed size: 42\n"));
    assert!(check_restored(&whole_with_slot(b"bad"), &mut log).is_err());
}

#[test]
fn data_file_components() {
    assert_eq!(
        data_file_path("G"),
        vec!["G", "Data", "Win32", "Packed", "MainDataStreaming.dv2"]
    );
}

#[test]
fn file_names() {
    let b = backup_file_name("before-patch-rust-zopfli", "20240101-120000-000");
    assert_eq!(b, "MainDataStreaming.dv2.before-patch-rust-zopfli.20240101-120000-000.bak");
    assert!(is_backup_name(&b));
    assert!(!is_backup_name("MainDataStreaming.dv2"));
    assert!(!is_backup_name("other.bak"));
    assert_eq!(log_file_name("X"), "rust-zopfli-patcher-X.txt");
    assert_eq!(manifest_file_name(), "appmanifest_219780.acf");
    assert_eq!(fixed_steam_roots().len(), 4);
    assert_eq!(fixed_steam_roots()[0], "C:\\Program Files (x86)\\Steam");
}

#[test]
fn manifest_and_library_parsing() {
    let acf = "\"AppState\"\n{\n\t\"appid\"\t\t\"219780\"\n\t\"installdir\"\t\t\"divinity2_dev_cut\"\r\n}\n";
    assert_eq!(parse_acf_installdir(acf), Some("divinity2_dev_cut".to_string()));
    assert_eq!(parse_acf_installdir("\"installdir\" broken\n"), None);
    assert_eq!(parse_acf_installdir(""), None);
    let vdf = "\"libraryfolders\"\n{\n\t\"0\"\n\t{\n\t\t\"path\"\t\t\"C:\\\\Program Files (x86)\\\\Steam\"\n\t}\n\t\"1\"\n\t{\n\t\t\"path\"\t\t\"D:\\\\SteamLibrary\"\n\t}\n}\n";
    assert_eq!(
        library_paths(vdf),
        vec!["C:\\Program Files (x86)\\Steam".to_string(), "D:\\SteamLibrary".to_string()]
    );
}

#[test]
fn game_detection_order() {
    let probes = vec![None, Some("B".to_string()), Some("C".to_string())];
    assert_eq!(detect_game_root(&probes), Some("B".to_string()));
    assert_eq!(detect_game_root(&[None, None]), None);
    let names = game_dir_candidates(Some("custom".to_string()));
    assert_eq!(names.len(), 8);
    assert_eq!(names[0], "custom");
    assert_eq!(names[1], "divinity2_dev_cut");
    assert_eq!(game_dir_candidates(None).len(), 7);
}

#[test]
fn window_state() {
    let mut app = GuiApp::new(Some("C:\\Games\\dv2".to_string()));
    assert!(app.allow_compact_names);
    assert_eq!(app.game_root, "C:\\Games\\dv2");
    assert_eq!(app.status, "Gra wykryta automatycznie.");
    assert_eq!(app.status_ok, Some(true));
    assert_eq!(app.log.lines().count(), 2);

    let none = GuiApp::new(None);
    assert_eq!(none.game_root, "");
    assert_eq!(none.status_ok, None);
    assert!(none.log.contains("Nie udało się automatycznie wykryć lokalizacji gry."));

    app.game_root = "  D:\\x \n".to_string();
    let req = app.run_checked(RunMode::DryRun);
    assert_eq!(req.game_root, "D:\\x");
    assert!(req.allow_compact_names);
    assert_eq!(app.run_restore(), "D:\\x");
    assert_eq!(trimmed("\u{3000}a b\t"), "a b");

    assert_eq!(app.open_log_clicked(), None);
    assert!(app.log.ends_with("] Brak logu do otwarcia.\n"));
    app.apply_report(RunReport {
        ok: false,
        message: "Błąd: x".to_string(),
        log: "L\n".to_string(),
        log_path: Some("log.txt".to_string()),
        backup_path: None,
    });
    assert_eq!(app.status, "Błąd: x");
    assert_eq!(app.status_ok, Some(false));
    assert!(app.log.ends_with("L\n"));
    assert_eq!(app.open_log_clicked(), Some("log.txt".to_string()));

    app.detect_clicked(None);
    assert_eq!(app.status_ok, Some(false));
    assert!(app.log.ends_with("] Automatyczne wykrywanie nie znalazło gry.\n"));
    app.folder_picked("E:\\g".to_string());
    assert_eq!(app.game_root, "E:\\g");
    assert_eq!(app.status, "Folder ustawiony ręcznie.");
    assert!(app.log.ends_with("] Wybrano folder ręcznie: E:\\g\n"));
}

#[test]
fn every_error_has_its_message() {
    let d = || "boom".to_string();
    assert_eq!(PatchError::Flate2 { detail: d() }.message(), "boom");
    assert_eq!(
        PatchError::Zopfli { name: "zopfli-iter5-splits15".to_string(), detail: "Zopfli error: X".to_string() }
            .message(),
        "Zopfli candidate 'zopfli-iter5-splits15' failed: Zopfli error: X"
    );
    assert_eq!(
        PatchError::FileTooSmall.message(),
        "Plik jest zbyt mały dla oczekiwanego offsetu i rozmiaru slotu."
    );
    assert_eq!(
        PatchError::SlotNotZlib { detail: d() }.message(),
        "Nie udało się zdekompresować bloku zlib z DV2: boom"
    );
    assert_eq!(
        PatchError::UnexpectedSize { size: 5 }.message(),
        "Nieoczekiwany rozmiar po dekompresji: 5, oczekiwano 181669. To może być inna wersja pliku."
    );
    assert_eq!(
        PatchError::NoPlaceholders.message(),
        "Nie znaleziono docelowych placeholderów DO NOT TRANSLATE. Plik może być już zmieniony albo pochodzić z innej wersji gry."
    );
    assert_eq!(
        PatchError::VerifyNotZlib { detail: d() }.message(),
        "Weryfikacja z dysku: nie udało się zdekompresować zapisanego strumienia: boom"
    );
    assert_eq!(
        PatchError::VerifyMismatch.message(),
        "Weryfikacja z dysku nie zgadza się z danymi patchowanymi w pamięci."
    );
    assert_eq!(
        PatchError::StillPresent.message(),
        "Po zapisie dalej istnieją docelowe DO NOT TRANSLATE. Przerywam."
    );
    // A size below the slot's gives no negative excess.
    assert_eq!(
        PatchError::NoFit { patch_set: "s".to_string(), compression: "c".to_string(), size: 10 }.message(),
        "Żadna metoda nie zmieściła się w slocie. Najbliżej było: patch set 's', kompresja 'c', 10 bajtów, czyli o 0 bajtów za dużo."
    );
}

#[test]
fn newest_backup_is_the_one_made_last() {
    let n = |tag: &str, stamp: &str| backup_file_name(tag, stamp);
    assert_eq!(newest_backup(&[]), None);
    let names = vec![
        n("before-patch-rust-zopfli", "20240101-120000-000"),
        n("before-restore-current", "20240102-080000-500"),
        n("before-patch-rust-zopfli", "20240102-080000-499"),
    ];
    assert_eq!(newest_backup(&names), Some(1));
    // Equal stamps: the last one listed wins.
    let same = vec![
        n("a", "20240101-120000-000"),
        n("b", "20240101-120000-000"),
        n("c", "20231231-235959-999"),
    ];
    assert_eq!(newest_backup(&same), Some(1));
    // A name without a stamp comes before every stamped one.
    let odd = vec!["MainDataStreaming.dv2.zzz.bak".to_string(), n("x", "19990101-000000-000")];
    assert_eq!(newest_backup(&odd), Some(1));
    assert_eq!(newest_backup(&["MainDataStreaming.dv2.bak".to_string()]), Some(0));
}

use sigil::catalog::SignatureEntry;
use sigil::file_manager::FileSignature;
use sigil::outcome::{classify, process_file, report, FileResult, NOT_A_FILE, UNKNOWN};
use sigil::trie::MagicNumberTrie;
use std::path::PathBuf;

fn info(declared_type: &str) -> FileSignature {
    FileSignature::new(declared_type.to_string(), Vec::new(), 0)
}

fn catalog() -> MagicNumberTrie {
    let entries = vec![
        SignatureEntry { file_type: "PNG".to_string(), offset: 0, signature: vec![0x89, 0x50, 0x4E, 0x47] },
        SignatureEntry { file_type: "ZIP-BASED OOXML".to_string(), offset: 0, signature: vec![0x50, 0x4B] },
        SignatureEntry { file_type: "TAR".to_string(), offset: 4, signature: vec![0x75, 0x73] },
    ];
    MagicNumberTrie::from_entries(&entries).unwrap()
}

#[test]
fn mismatched_extension() {
    let verdict = classify(PathBuf::from("notes.txt"), info("TXT"), Some("PNG".to_string()));
    match verdict {
        FileResult::Incorrect { path, declared_type, actual_type } => {
            assert_eq!(path, PathBuf::from("notes.txt"));
            assert_eq!(declared_type, "TXT");
            assert_eq!(actual_type, "PNG");
        },
        _ => panic!("TXT declared, PNG found: expected Incorrect"),
    }
}

#[test]
fn matching_extension() {
    let verdict = classify(PathBuf::from("a.png"), info("PNG"), Some("PNG".to_string()));
    match verdict {
        FileResult::Correct(path) => assert_eq!(path, PathBuf::from("a.png")),
        _ => panic!("PNG declared, PNG found: expected Correct"),
    }
}

#[test]
fn declared_type_inside_a_longer_label() {
    let verdict = classify(PathBuf::from("a.zip"), info("ZIP"), Some("ZIP-BASED OOXML".to_string()));
    assert!(matches!(verdict, FileResult::Correct(_)));
    let verdict = classify(PathBuf::from("a.ooxml"), info("OOXML"), Some("ZIP-BASED OOXML".to_string()));
    assert!(matches!(verdict, FileResult::Correct(_)));
    let verdict = classify(PathBuf::from("a.sed"), info("SED"), Some("ZIP-BASED OOXML".to_string()));
    assert!(matches!(verdict, FileResult::Correct(_)));
}

#[test]
fn label_inside_a_longer_declared_type_is_incorrect() {
    let verdict = classify(PathBuf::from("a.jpeg"), info("JPEG"), Some("JPG".to_string()));
    assert!(matches!(verdict, FileResult::Incorrect { .. }));
    let verdict = classify(PathBuf::from("a.pngx"), info("PNGX"), Some("PNG".to_string()));
    assert!(matches!(verdict, FileResult::Incorrect { .. }));
}

#[test]
fn comparison_is_case_sensitive() {
    let verdict = classify(PathBuf::from("a.png"), info("PNG"), Some("png".to_string()));
    assert!(matches!(verdict, FileResult::Incorrect { .. }));
}

#[test]
fn characters_must_be_consecutive() {
    let verdict = classify(PathBuf::from("a.pg"), info("PG"), Some("PNG".to_string()));
    assert!(matches!(verdict, FileResult::Incorrect { .. }));
}

#[test]
fn empty_declared_type_is_in_every_label() {
    let verdict = classify(PathBuf::from("a."), info(""), Some("PNG".to_string()));
    assert!(matches!(verdict, FileResult::Correct(_)));
}

#[test]
fn unrecognized_bytes_are_incorrect_with_unknown() {
    let verdict = classify(PathBuf::from("a.png"), info("PNG"), None);
    match verdict {
        FileResult::Incorrect { path, declared_type, actual_type } => {
            assert_eq!(path, PathBuf::from("a.png"));
            assert_eq!(declared_type, "PNG");
            assert_eq!(actual_type, "Unknown");
            assert_eq!(UNKNOWN, "Unknown");
        },
        _ => panic!("unrecognized bytes: expected Incorrect"),
    }
}

#[test]
fn unknown_is_not_a_label() {
    let verdict = classify(PathBuf::from("a.unknown"), info("UNKNOWN"), None);
    assert!(matches!(verdict, FileResult::Incorrect { .. }));
}

#[test]
fn directory_is_an_error() {
    let trie = catalog();
    let verdict = process_file(PathBuf::from("some/dir"), false, None, Ok(Vec::new()), &trie);
    match verdict {
        FileResult::Error { path, error_message } => {
            assert_eq!(path, PathBuf::from("some/dir"));
            assert_eq!(error_message, "The provided path is not a file.");
            assert_eq!(NOT_A_FILE, "The provided path is not a file.");
        },
        _ => panic!("a directory was judged"),
    }
}

#[test]
fn not_a_file_comes_before_everything_else() {
    let trie = catalog();
    let verdict =
        process_file(PathBuf::from("dir.png"), false, Some("png"), Ok(vec![0x89, 0x50, 0x4E, 0x47]), &trie);
    match verdict {
        FileResult::Error { error_message, .. } => assert_eq!(error_message, "The provided path is not a file."),
        _ => panic!("a directory was judged"),
    }
    let verdict = process_file(PathBuf::from("dir"), false, None, Err("is a directory".to_string()), &trie);
    match verdict {
        FileResult::Error { error_message, .. } => assert_eq!(error_message, "The provided path is not a file."),
        _ => panic!("a directory was judged"),
    }
}

#[test]
fn file_without_extension_is_an_error() {
    let trie = catalog();
    let verdict = process_file(PathBuf::from("README"), true, None, Ok(vec![0x89, 0x50, 0x4E, 0x47]), &trie);
    match verdict {
        FileResult::Error { path, error_message } => {
            assert_eq!(path, PathBuf::from("README"));
            assert_eq!(error_message, "File has no extension");
        },
        _ => panic!("a file without an extension was judged"),
    }
}

#[test]
fn unreadable_file_is_an_error() {
    let trie = catalog();
    let verdict =
        process_file(PathBuf::from("locked.png"), true, Some("png"), Err("permission denied".to_string()), &trie);
    match verdict {
        FileResult::Error { path, error_message } => {
            assert_eq!(path, PathBuf::from("locked.png"));
            assert_eq!(error_message, "permission denied");
        },
        _ => panic!("a file that could not be read was judged"),
    }
}

#[test]
fn correct_file() {
    let trie = catalog();
    let head = vec![0x89, 0x50, 0x4E, 0x47, 0x0D, 0x0A];
    let verdict = process_file(PathBuf::from("image.png"), true, Some("png"), Ok(head), &trie);
    match verdict {
        FileResult::Correct(path) => assert_eq!(path, PathBuf::from("image.png")),
        _ => panic!("a PNG file named .png: expected Correct"),
    }
}

#[test]
fn renamed_file_is_incorrect() {
    let trie = catalog();
    let head = vec![0x89, 0x50, 0x4E, 0x47, 0x0D, 0x0A];
    let verdict = process_file(PathBuf::from("image.txt"), true, Some("txt"), Ok(head), &trie);
    match verdict {
        FileResult::Incorrect { path, declared_type, actual_type } => {
            assert_eq!(path, PathBuf::from("image.txt"));
            assert_eq!(declared_type, "TXT");
            assert_eq!(actual_type, "PNG");
        },
        _ => panic!("a PNG file named .txt: expected Incorrect"),
    }
}

#[test]
fn unrecognized_file_is_incorrect() {
    let trie = catalog();
    let verdict = process_file(PathBuf::from("a.txt"), true, Some("txt"), Ok(vec![0x68, 0x69]), &trie);
    match verdict {
        FileResult::Incorrect { declared_type, actual_type, .. } => {
            assert_eq!(declared_type, "TXT");
            assert_eq!(actual_type, "Unknown");
        },
        _ => panic!("unrecognized bytes: expected Incorrect"),
    }
}

#[test]
fn only_the_leading_bytes_are_searched() {
    let trie = catalog();
    assert_eq!(trie.max_buffer_size(), 8);
    // The TAR signature lies at offset 8, beyond what is searched at offset 4.
    let head = vec![0, 0, 0, 0, 0, 0, 0, 0x75, 0x73];
    let verdict = process_file(PathBuf::from("a.tar"), true, Some("tar"), Ok(head), &trie);
    assert!(matches!(verdict, FileResult::Incorrect { .. }));
    let head = vec![0, 0, 0, 0, 0x75, 0x73, 0, 0, 0, 0, 0, 0];
    let verdict = process_file(PathBuf::from("a.tar"), true, Some("tar"), Ok(head), &trie);
    assert!(matches!(verdict, FileResult::Correct(_)));
}

#[test]
fn lower_case_extension_matches_upper_case_label() {
    let trie = catalog();
    let verdict = process_file(PathBuf::from("a.Zip"), true, Some("Zip"), Ok(vec![0x50, 0x4B, 3, 4]), &trie);
    assert!(matches!(verdict, FileResult::Correct(_)));
}

#[test]
fn report_counts_and_keeps_order() {
    let results = vec![
        FileResult::Correct(PathBuf::from("a.png")),
        FileResult::Incorrect {
            path: PathBuf::from("b.txt"),
            declared_type: "TXT".to_string(),
            actual_type: "PNG".to_string(),
        },
        FileResult::Error { path: PathBuf::from("c"), error_message: "File has no extension".to_string() },
        FileResult::Correct(PathBuf::from("d.zip")),
        FileResult::Incorrect {
            path: PathBuf::from("e.doc"),
            declared_type: "DOC".to_string(),
            actual_type: "Unknown".to_string(),
        },
        FileResult::Correct(PathBuf::from("f.png")),
    ];
    let summary = report(results);
    assert_eq!(summary.total, 6);
    assert_eq!(summary.correct, 3);
    assert_eq!(summary.incorrect.len(), 2);
    assert_eq!(summary.errors.len(), 1);
    match &summary.incorrect[0] {
        FileResult::Incorrect { path, .. } => assert_eq!(path, &PathBuf::from("b.txt")),
        _ => panic!("a verdict of another kind among the incorrect ones"),
    }
    match &summary.incorrect[1] {
        FileResult::Incorrect { path, actual_type, .. } => {
            assert_eq!(path, &PathBuf::from("e.doc"));
            assert_eq!(actual_type, "Unknown");
        },
        _ => panic!("a verdict of another kind among the incorrect ones"),
    }
    match &summary.errors[0] {
        FileResult::Error { path, error_message } => {
            assert_eq!(path, &PathBuf::from("c"));
            assert_eq!(error_message, "File has no extension");
        },
        _ => panic!("a verdict of another kind among the errors"),
    }
}

#[test]
fn report_of_nothing() {
    let summary = report(Vec::new());
    assert_eq!(summary.total, 0);
    assert_eq!(summary.correct, 0);
    assert!(summary.incorrect.is_empty());
    assert!(summary.errors.is_empty());
}

#[test]
fn report_counts_do_not_depend_on_the_order() {
    let forward = report(vec![
        FileResult::Correct(PathBuf::from("a")),
        FileResult::Error { path: PathBuf::from("b"), error_message: "x".to_string() },
        FileResult::Correct(PathBuf::from("c")),
    ]);
    let backward = report(vec![
        FileResult::Correct(PathBuf::from("c")),
        FileResult::Error { path: PathBuf::from("b"), error_message: "x".to_string() },
        FileResult::Correct(PathBuf::from("a")),
    ]);
    assert_eq!(forward.total, backward.total);
    assert_eq!(forward.correct, backward.correct);
    assert_eq!(forward.incorrect.len(), backward.incorrect.len());
    assert_eq!(forward.errors.len(), backward.errors.len());
}

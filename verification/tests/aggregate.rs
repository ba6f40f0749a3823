use loc::FileInfo;
use loc::Files;

fn stat(comments: u64, blanks: u64, code: u64) -> FileInfo {
    FileInfo {
        comments_count: comments,
        blank_spaces_count: blanks,
        lines_of_code: code,
        nums_of_files: 1,
    }
}

#[test]
fn file_info_new_counts_one_file() {
    let info = FileInfo::new();
    assert_eq!(info.comments_count, 0);
    assert_eq!(info.blank_spaces_count, 0);
    assert_eq!(info.lines_of_code, 0);
    assert_eq!(info.nums_of_files, 1);
}

#[test]
fn update_adds_all_four_fields() {
    let mut a = stat(1, 2, 3);
    a.update(stat(10, 20, 30));
    assert_eq!(a.comments_count, 11);
    assert_eq!(a.blank_spaces_count, 22);
    assert_eq!(a.lines_of_code, 33);
    assert_eq!(a.nums_of_files, 2);
}

#[test]
fn files_new_is_empty() {
    let files = Files::new();
    assert_eq!(files.len(), 0);
    assert!(files.get("rs").is_none());
}

#[test]
fn update_file_info_inserts_then_merges() {
    let mut files = Files::new();
    files.update_file_info("rs", stat(1, 2, 3));
    assert_eq!(files.len(), 1);
    let first = files.get("rs").unwrap();
    assert_eq!(first.comments_count, 1);
    assert_eq!(first.nums_of_files, 1);
    files.update_file_info("rs", stat(4, 5, 6));
    assert_eq!(files.len(), 1);
    let merged = files.get("rs").unwrap();
    assert_eq!(merged.comments_count, 5);
    assert_eq!(merged.blank_spaces_count, 7);
    assert_eq!(merged.lines_of_code, 9);
    assert_eq!(merged.nums_of_files, 2);
}

#[test]
fn update_file_info_keeps_other_keys() {
    let mut files = Files::new();
    files.update_file_info("rs", stat(1, 0, 0));
    files.update_file_info("py", stat(0, 1, 0));
    assert_eq!(files.len(), 2);
    assert_eq!(files.get("rs").unwrap().comments_count, 1);
    assert_eq!(files.get("py").unwrap().blank_spaces_count, 1);
}

#[test]
fn folding_order_does_not_matter() {
    let parts = [stat(1, 2, 3), stat(4, 5, 6), stat(7, 8, 9)];
    let mut forward = Files::new();
    for p in parts.iter() {
        forward.update_file_info("rs", *p);
    }
    let mut backward = Files::new();
    for p in parts.iter().rev() {
        backward.update_file_info("rs", *p);
    }
    let a = forward.get("rs").unwrap();
    let b = backward.get("rs").unwrap();
    assert_eq!(a.comments_count, b.comments_count);
    assert_eq!(a.blank_spaces_count, b.blank_spaces_count);
    assert_eq!(a.lines_of_code, b.lines_of_code);
    assert_eq!(a.nums_of_files, b.nums_of_files);
    assert_eq!(a.comments_count, 12);
    assert_eq!(a.nums_of_files, 3);
}

#[test]
fn fits_reports_overflow() {
    let mut files = Files::new();
    let huge = FileInfo {
        comments_count: u64::MAX,
        blank_spaces_count: 0,
        lines_of_code: 0,
        nums_of_files: 1,
    };
    files.update_file_info("rs", huge);
    assert!(!files.fits("rs", &stat(1, 0, 0)));
    assert!(files.fits("rs", &stat(0, 1, 1)));
    assert!(files.fits("py", &stat(1, 0, 0)));
}

#[test]
fn entry_at_reads_the_table_out() {
    let mut files = Files::new();
    files.update_file_info("rs", stat(1, 0, 0));
    files.update_file_info("py", stat(0, 0, 2));
    let mut seen_rs = false;
    let mut seen_py = false;
    for i in 0..files.len() {
        let (ext, info) = files.entry_at(i);
        if ext == "rs" {
            assert_eq!(info.comments_count, 1);
            seen_rs = true;
        }
        if ext == "py" {
            assert_eq!(info.lines_of_code, 2);
            seen_py = true;
        }
    }
    assert!(seen_rs && seen_py);
}

#[test]
fn record_file_counts_a_recognized_file() {
    let mut files = Files::new();
    let counted = files.record_file("src/main.rs", &b"// c\nfn main() {}\n".to_vec());
    assert!(counted);
    let info = files.get("rs").unwrap();
    assert_eq!(info.comments_count, 1);
    assert_eq!(info.lines_of_code, 1);
    assert_eq!(info.blank_spaces_count, 0);
    assert_eq!(info.nums_of_files, 1);
}

#[test]
fn record_file_aggregates_per_extension() {
    let mut files = Files::new();
    assert!(files.record_file("a.rs", &b"fn a() {}\n".to_vec()));
    assert!(files.record_file("lib/b.rs", &b"// doc\n\nfn b() {}\n".to_vec()));
    assert!(files.record_file("script.py", &b"# py\n".to_vec()));
    assert_eq!(files.len(), 2);
    let rs = files.get("rs").unwrap();
    assert_eq!(rs.nums_of_files, 2);
    assert_eq!(rs.comments_count, 1);
    assert_eq!(rs.blank_spaces_count, 1);
    assert_eq!(rs.lines_of_code, 2);
    let py = files.get("py").unwrap();
    assert_eq!(py.nums_of_files, 1);
    assert_eq!(py.comments_count, 1);
}

#[test]
fn unknown_extension_leaves_no_entry() {
    let mut files = Files::new();
    let counted = files.record_file("notes.xyz", &b"text\n".to_vec());
    assert!(!counted);
    assert_eq!(files.len(), 0);
    assert!(files.get("xyz").is_none());
}

#[test]
fn file_without_extension_is_skipped() {
    let mut files = Files::new();
    assert!(!files.record_file("Makefile", &b"all:\n".to_vec()));
    assert!(!files.record_file("bin/README", &b"hi\n".to_vec()));
    assert_eq!(files.len(), 0);
}

#[test]
fn hidden_entries_alone_yield_an_empty_result() {
    // what the walker does with a directory of hidden entries only:
    // every name fails the hidden check, so nothing is ever recorded
    let mut files = Files::new();
    for name in [".git", ".config.rs", ".local"] {
        if !loc::is_hidden(name) {
            files.record_file(name, &b"code\n".to_vec());
        }
    }
    assert_eq!(files.len(), 0);
}

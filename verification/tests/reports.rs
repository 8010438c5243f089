use file_copy_checker::groups::GroupModel;
use file_copy_checker::ignore::{Entry, EntryKind};
use file_copy_checker::index::DuplicateIndex;
use file_copy_checker::report::{
    check_destination, csv_headers, csv_row, generate_options, listing_line, option_line, pdf_row,
    report_file_name, size_text, DestinationError, ReportKind, MAX_OPTIONS,
};

const EXE: &str = "/opt/tool/file_copy_checker";

fn model_of(groups: usize, copies: usize) -> GroupModel {
    let mut index = DuplicateIndex::new(EXE);
    for group in 0..groups {
        for copy in 0..copies {
            let entry = Entry {
                path: format!("/t/{}/{}.bin", group, copy),
                kind: EntryKind::File,
                symlink: false,
            };
            index.record(&entry, format!("fp{}", group));
        }
    }
    index.groups()
}

#[test]
fn option_line_of_a_group() {
    let model = model_of(1, 3);
    assert_eq!(option_line(model.group(0).unwrap()), "/t/0/0.bin, 2 mal, HASH: [fp0]");
}

#[test]
fn options_follow_the_groups() {
    let model = model_of(3, 2);
    assert_eq!(
        generate_options(&model),
        vec![
            "/t/0/0.bin, 1 mal, HASH: [fp0]".to_string(),
            "/t/1/0.bin, 1 mal, HASH: [fp1]".to_string(),
            "/t/2/0.bin, 1 mal, HASH: [fp2]".to_string(),
        ]
    );
}

#[test]
fn options_stop_at_the_maximum() {
    assert_eq!(MAX_OPTIONS, 10);
    let model = model_of(13, 2);
    let options = generate_options(&model);
    assert_eq!(options.len(), 10);
    assert_eq!(options[9], "/t/9/0.bin, 1 mal, HASH: [fp9]");
    assert_eq!(generate_options(&model_of(10, 2)).len(), 10);
    assert_eq!(generate_options(&model_of(9, 2)).len(), 9);
}

#[test]
fn options_of_empty_model() {
    assert!(generate_options(&model_of(0, 0)).is_empty());
    assert!(generate_options(&model_of(5, 1)).is_empty());
}

#[test]
fn headers_with_and_without_sizes() {
    assert_eq!(csv_headers(false), vec!["Filename", "Duplicates", "Hash"]);
    assert_eq!(csv_headers(true), vec!["Filename", "Duplicates", "Hash", "Size"]);
}

#[test]
fn csv_rows() {
    let model = model_of(1, 12);
    let group = model.group(0).unwrap();
    assert_eq!(csv_row(group, None), vec!["/t/0/0.bin", "11", "fp0"]);
    assert_eq!(
        csv_row(group, Some("1 MB".to_string())),
        vec!["/t/0/0.bin", "11", "fp0", "1 MB"]
    );
}

#[test]
fn pdf_rows() {
    let model = model_of(1, 4);
    let group = model.group(0).unwrap();
    assert_eq!(pdf_row(group, None), vec!["0.bin", "3 weitere", "fp0"]);
    assert_eq!(
        pdf_row(group, Some(size_text(Some(2_500)))),
        vec!["0.bin", "3 weitere", "fp0", "2.50 kB"]
    );
}

#[test]
fn size_texts() {
    assert_eq!(size_text(None), "");
    assert_eq!(size_text(Some(0)), "0 B");
    assert_eq!(size_text(Some(999)), "999 B");
    assert_eq!(size_text(Some(1_000)), "1 kB");
    assert_eq!(size_text(Some(1_000_000)), "1 MB");
    assert_eq!(size_text(Some(1_500_000_000)), "1.50 GB");
    assert_eq!(size_text(Some(u64::MAX)), "18.45 EB");
}

#[test]
fn listing_lines() {
    assert_eq!(listing_line("/t/a.txt", None), "/t/a.txt");
    assert_eq!(listing_line("/t/a.txt", Some("5 B")), "/t/a.txt 5 B");
    assert_eq!(listing_line("/t/a.txt", Some("")), "/t/a.txt ");
}

#[test]
fn report_file_names() {
    assert_eq!(
        report_file_name(ReportKind::Pdf, "2024-02-29_23-59-58"),
        "file_copy_checker_report_2024-02-29_23-59-58.pdf"
    );
    assert_eq!(
        report_file_name(ReportKind::Csv, "2024-02-29_23-59-58"),
        "file_copy_checker_report_2024-02-29_23-59-58.csv"
    );
    assert_eq!(report_file_name(ReportKind::Csv, ""), "file_copy_checker_report_.csv");
}

#[test]
fn destination_must_be_a_directory() {
    assert_eq!(check_destination(EntryKind::Directory), Ok(()));
    assert_eq!(check_destination(EntryKind::Missing), Err(DestinationError::DoesNotExist));
    assert_eq!(check_destination(EntryKind::File), Err(DestinationError::NotADirectory));
    assert_eq!(check_destination(EntryKind::Other), Err(DestinationError::NotADirectory));
}

use scan_archiver::batch::plan_batch;
use scan_archiver::error::ProcessError;

#[test]
fn empty_listing_is_a_no_op() {
    let plan = plan_batch(&Vec::new(), "target");
    assert!(plan.relocations.is_empty());
    assert!(plan.failures.is_empty());
}

#[test]
fn valid_entries_are_planned_in_listing_order() {
    let listing = vec![
        String::from("letter_05082024.pdf"),
        String::from("invoice_31012023.txt"),
    ];
    let plan = plan_batch(&listing, "archive");
    assert!(plan.failures.is_empty());
    assert_eq!(plan.relocations.len(), 2);
    assert_eq!(plan.relocations[0].source, "letter_05082024.pdf");
    assert_eq!(plan.relocations[0].destination, "archive/2024/08/05/letter.pdf");
    assert_eq!(plan.relocations[1].source, "invoice_31012023.txt");
    assert_eq!(plan.relocations[1].destination, "archive/2023/01/31/invoice.txt");
}

#[test]
fn one_bad_file_does_not_block_its_siblings() {
    // A malformed name is reported, and the valid sibling is still relocated,
    // whichever order the listing presents them in.
    let listing = vec![
        String::from("letter_05082024.pdf"),
        String::from("malformed.pdf"),
    ];
    let plan = plan_batch(&listing, "archive");
    assert_eq!(plan.relocations.len(), 1);
    assert_eq!(plan.relocations[0].destination, "archive/2024/08/05/letter.pdf");
    assert_eq!(plan.failures.len(), 1);
    assert_eq!(plan.failures[0].source, "malformed.pdf");
    assert_eq!(plan.failures[0].error, ProcessError::Separator);

    let reversed = vec![
        String::from("malformed.pdf"),
        String::from("letter_05082024.pdf"),
    ];
    let plan = plan_batch(&reversed, "archive");
    assert_eq!(plan.relocations.len(), 1);
    assert_eq!(plan.relocations[0].destination, "archive/2024/08/05/letter.pdf");
    assert_eq!(plan.failures.len(), 1);
    assert_eq!(plan.failures[0].error, ProcessError::Separator);
}

#[test]
fn second_pass_derives_the_same_destination() {
    // After a failed delete the file is listed again on the next pass; the
    // plan derives the same destination, so the relocation overwrites the
    // earlier archive copy instead of erring.
    let listing = vec![String::from("letter_05082024.pdf")];
    let first = plan_batch(&listing, "archive");
    let second = plan_batch(&listing, "archive");
    assert_eq!(first.relocations.len(), 1);
    assert_eq!(second.relocations.len(), 1);
    assert_eq!(
        first.relocations[0].destination,
        second.relocations[0].destination
    );
}

#[test]
fn duplicate_entries_share_one_destination() {
    let listing = vec![
        String::from("old/letter_05082024.pdf"),
        String::from("new/letter_05082024.pdf"),
    ];
    let plan = plan_batch(&listing, "archive");
    assert_eq!(plan.relocations.len(), 2);
    assert_eq!(plan.relocations[0].destination, plan.relocations[1].destination);
}

#[test]
fn each_error_kind_is_reported() {
    let listing = vec![
        String::from("no-extension"),
        String::from("no-separator.txt"),
        String::from("bad_date.txt"),
        String::from("late_99999999.txt"),
    ];
    let plan = plan_batch(&listing, "archive");
    assert!(plan.relocations.is_empty());
    assert_eq!(plan.failures.len(), 4);
    assert_eq!(plan.failures[0].error, ProcessError::Extension);
    assert_eq!(plan.failures[1].error, ProcessError::Separator);
    assert_eq!(plan.failures[2].error, ProcessError::Date);
    assert_eq!(plan.failures[3].error, ProcessError::Date);
}

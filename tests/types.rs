use rookiedb::constant::{DATA_PAGES_PER_HEADER, INVALID_PAGE_NUM, MAX_HEADER_PAGE, PAGE_SIZE};
use rookiedb::databox::DataType;
use rookiedb::table::{Page, PageDirectory};

#[test]
fn test_bool_type() {
    assert_eq!(DataType::Boolean.name(), "BOOLEAN");
}

#[test]
fn data_type_names() {
    assert_eq!(DataType::Integer.name(), "INTEGER");
    assert_eq!(DataType::Float.name(), "FLOAT");
    assert_eq!(DataType::String(5).name(), "STRING");
    assert_eq!(DataType::Long.name(), "LONG");
    assert_eq!(DataType::ByteArray(3).name(), "BYTEARRAY");
    assert_ne!(DataType::String(1), DataType::String(2));
}

#[test]
fn layout_constants() {
    assert_eq!(PAGE_SIZE, 4096);
    assert_eq!(MAX_HEADER_PAGE, 2048);
    assert_eq!(DATA_PAGES_PER_HEADER, 32768);
    assert_eq!(INVALID_PAGE_NUM, -1);
}

#[test]
fn table_handles_hold_their_fields() {
    let page = Page { lock_context: 1, frame: 2 };
    assert_eq!(page.lock_context + page.frame, 3);
    let dir = PageDirectory {
        buffer_manager: 0,
        part_num: 4,
        first_header: 5,
        empty_page_metadata_size: 6,
        lock_context: 7,
        page_directory_id: 8,
    };
    assert_eq!(dir.part_num, 4);
    assert_eq!(dir.page_directory_id, 8);
}

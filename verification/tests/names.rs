use cask::errors::Error;
use cask::file::{
    find_data_files, get_data_file_path, get_hint_file_path, parse_u32, DATA_FILE_EXTENSION,
    HINT_FILE_EXTENSION, LOCK_FILE_NAME,
};
use cask::log::Log;

#[test]
fn segment_file_names_are_padded_to_ten_digits() {
    assert_eq!(get_data_file_path(0), "0000000000.cask.data");
    assert_eq!(get_data_file_path(7), "0000000007.cask.data");
    assert_eq!(get_data_file_path(1234567890), "1234567890.cask.data");
    assert_eq!(get_data_file_path(u32::MAX), "4294967295.cask.data");
    assert_eq!(get_hint_file_path(42), "0000000042.cask.hint");
    assert_eq!(DATA_FILE_EXTENSION, "cask.data");
    assert_eq!(HINT_FILE_EXTENSION, "cask.hint");
    assert_eq!(LOCK_FILE_NAME, "cask.lock");
}

#[test]
fn decimal_numbers_are_parsed() {
    assert_eq!(parse_u32(b"0"), Some(0));
    assert_eq!(parse_u32(b"0000000042"), Some(42));
    assert_eq!(parse_u32(b"4294967295"), Some(u32::MAX));
    assert_eq!(parse_u32(b"4294967296"), None);
    assert_eq!(parse_u32(b"00000000004294967295"), Some(u32::MAX));
    assert_eq!(parse_u32(b"99999999999999999999999999"), None);
    assert_eq!(parse_u32(b""), None);
    assert_eq!(parse_u32(b"12a"), None);
    assert_eq!(parse_u32(b"+12"), None);
    assert_eq!(parse_u32(b"99999999999999999999999999x"), None);
}

fn names(list: &[&str]) -> Vec<String> {
    list.iter().map(|name| name.to_string()).collect()
}

#[test]
fn data_files_are_found_in_ascending_order() {
    let listing = names(&[
        "0000000010.cask.data",
        "0000000010.cask.hint",
        "cask.lock",
        "0000000002.cask.data",
        "0000000002.cask.hint",
        "0000000007.cask.data",
        "notes.txt",
    ]);
    assert_eq!(find_data_files(&listing), vec![2, 7, 10]);
    assert_eq!(find_data_files(&names(&[])), Vec::<u32>::new());
}

#[test]
fn only_names_that_end_as_data_files_count() {
    // The number is what stands before the extension, however the name begins.
    assert_eq!(find_data_files(&names(&["x12.cask.data"])), vec![12]);
    assert_eq!(find_data_files(&names(&["3.cask.data", "0000000003.cask.data"])), vec![3, 3]);
    // The dots are dots, and the name ends with the extension.
    assert_eq!(find_data_files(&names(&["12xcask.data"])), Vec::<u32>::new());
    assert_eq!(find_data_files(&names(&["12.caskxdata"])), Vec::<u32>::new());
    assert_eq!(find_data_files(&names(&["12.cask.datax"])), Vec::<u32>::new());
    assert_eq!(find_data_files(&names(&[".cask.data"])), Vec::<u32>::new());
    // A number that is no segment id names no segment.
    assert_eq!(find_data_files(&names(&["4294967296.cask.data"])), Vec::<u32>::new());
    assert_eq!(find_data_files(&names(&["4294967295.cask.data"])), vec![u32::MAX]);
    // Digits of other scripts are digits to the pattern, but spell no number.
    assert_eq!(find_data_files(&names(&["\u{0663}1.cask.data"])), Vec::<u32>::new());
}

#[test]
fn path_is_checked_before_opening() {
    assert!(matches!(Log::check_path("db", true, false, false), Ok(true)));
    assert!(matches!(Log::check_path("db", true, true, true), Ok(false)));
    assert!(matches!(Log::check_path("db", false, true, true), Ok(false)));
    match Log::check_path("some/db", true, true, false) {
        Err(Error::InvalidPath(path)) => assert_eq!(path, "some/db"),
        other => panic!("{:?}", other),
    }
    match Log::check_path("some/db", false, false, false) {
        Err(Error::InvalidPath(path)) => assert_eq!(path, "some/db"),
        other => panic!("{:?}", other),
    }
    assert!(matches!(Log::check_path("db", false, true, false), Err(Error::InvalidPath(_))));
}

#[test]
fn errors_describe_themselves() {
    assert_eq!(Error::InvalidFileId(3).description(), "Invalid file id");
    assert_eq!(Error::InvalidKeySize(3).description(), "Invalid key size");
    assert_eq!(Error::InvalidValueSize(3).description(), "Invalid value size");
    assert_eq!(
        Error::InvalidChecksum { expected: 1, found: 2 }.description(),
        "Invalid checksum"
    );
    assert_eq!(Error::InvalidPath("x".to_string()).description(), "Invalid path");
    let io = std::io::Error::from(std::io::ErrorKind::UnexpectedEof);
    assert_eq!(Error::Io(io).description(), "IO error");
}

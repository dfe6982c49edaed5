use byteserver::errors::POSError;
use byteserver::util::{read8, read_sized};

#[test]
fn checked_reads_report_short_input() {
    let b = vec![1u8, 2, 3, 4, 5, 6, 7, 8, 9];
    assert_eq!(read8(&b, 1), Ok([2, 3, 4, 5, 6, 7, 8, 9]));
    assert_eq!(read8(&b, 2), Err(POSError::Format));
    assert_eq!(read_sized(&b, 7, 2), Ok(vec![8, 9]));
    assert_eq!(read_sized(&b, 7, 3), Err(POSError::Format));
    assert_eq!(read_sized(&b, 20, 0), Err(POSError::Format));
}

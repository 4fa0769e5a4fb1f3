use malevich::error::Error;
use malevich::limits::{MAX_CELLS, MAX_OUTPUT_BYTES, area, dimension, frame_cells, reserve, reserve_string};

#[test]
fn dimensions_over_their_limit_are_refused() {
    assert_eq!(dimension("width", 10, 10), Ok(()));
    assert_eq!(
        dimension("width", 11, 10),
        Err(Error::DimensionTooLarge {
            what: "width",
            requested: 11,
            limit: 10
        })
    );
}

#[test]
fn areas_refuse_overflow_and_excess() {
    assert_eq!(area("grid", 3, 4, 12), Ok(12));
    assert_eq!(
        area("grid", 3, 5, 12),
        Err(Error::DimensionTooLarge {
            what: "grid",
            requested: 15,
            limit: 12
        })
    );
    assert_eq!(
        area("grid", usize::MAX, 2, 12),
        Err(Error::DimensionTooLarge {
            what: "grid",
            requested: usize::MAX,
            limit: 12
        })
    );
}

#[test]
fn frames_stay_within_terminal_sizes() {
    assert_eq!(frame_cells(80, 24), Ok(1920));
    assert_eq!(frame_cells(0, 65535), Ok(0));
    assert!(matches!(
        frame_cells(65536, 1),
        Err(Error::DimensionTooLarge { what: "frame width", .. })
    ));
    assert!(matches!(
        frame_cells(1, 65536),
        Err(Error::DimensionTooLarge { what: "frame height", .. })
    ));
    assert_eq!(
        frame_cells(65535, 65535),
        Err(Error::DimensionTooLarge {
            what: "frame cell count",
            requested: 65535 * 65535,
            limit: MAX_CELLS
        })
    );
}

#[test]
fn reservations_keep_the_contents() {
    let mut values = vec![1u8, 2, 3];
    assert_eq!(reserve(&mut values, 100, "values"), Ok(()));
    assert_eq!(values, [1, 2, 3]);
    assert!(values.capacity() >= 103);
    let mut text = String::from("abc");
    assert_eq!(reserve_string(&mut text, 10, "text"), Ok(()));
    assert_eq!(text, "abc");
    assert!(text.capacity() >= 13);
    assert_eq!(
        reserve_string(&mut text, MAX_OUTPUT_BYTES + 1, "text"),
        Err(Error::DimensionTooLarge {
            what: "text",
            requested: MAX_OUTPUT_BYTES + 1,
            limit: MAX_OUTPUT_BYTES
        })
    );
    assert_eq!(
        reserve(&mut values, usize::MAX, "values"),
        Err(Error::AllocationFailed { what: "values" })
    );
}

#[test]
fn reserving_past_the_address_space_fails_as_an_allocation_failure() {
    let mut values = vec![1u8, 2, 3];
    assert_eq!(
        reserve(&mut values, usize::MAX, "points"),
        Err(Error::AllocationFailed { what: "points" })
    );
    assert_eq!(values, [1, 2, 3]);
    let mut empty: Vec<u8> = Vec::new();
    assert_eq!(reserve(&mut empty, 16, "points"), Ok(()));
}

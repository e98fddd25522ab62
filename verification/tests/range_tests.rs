use did_you_go_hot::hole_info::{mr, HoleInfo};
use did_you_go_hot::roll_calc::{
    crit_range, full_range, overlap, shrink_range, update_max_range_from_crit,
    update_max_range_from_full, update_max_range_from_shrink,
};

#[test]
fn test_full_range() {
    let hole = HoleInfo::from_kg(2_000_000_000);
    assert_eq!(full_range(&hole.max_range), mr(900_000_000, 2_200_000_000));
    let hole = HoleInfo::from_kg(1_000_000_000);
    assert_eq!(full_range(&hole.max_range), mr(450_000_000, 1_100_000_000));
}

#[test]
fn test_shrink_range() {
    let hole = HoleInfo::from_kg(2_000_000_000);
    assert_eq!(
        shrink_range(&hole.max_range),
        mr(180_000_000, 1_100_000_000 - 1)
    );
    let hole = HoleInfo::from_kg(1_000_000_000);
    assert_eq!(
        shrink_range(&hole.max_range),
        mr(90_000_000, 550_000_000 - 1)
    )
}

#[test]
fn test_crit_range() {
    let hole = HoleInfo::from_kg(2_000_000_000);
    assert_eq!(crit_range(&hole.max_range), mr(1, 220_000_000 - 1));
    let hole = HoleInfo::from_kg(1_000_000_000);
    assert_eq!(crit_range(&hole.max_range), mr(1, 110_000_000 - 1));
}

#[test]
fn test_overlap() {
    assert_eq!(overlap(&mr(0, 10), &mr(3, 14)), mr(3, 10));
    assert_eq!(overlap(&mr(0, 10), &mr(3, 6)), mr(3, 6));
    assert_eq!(overlap(&mr(0, 10), &mr(-3, 7)), mr(0, 7));
    assert_eq!(overlap(&mr(4, 4), &mr(0, 10)), mr(4, 4));
}

#[test]
fn test_max_from_crit() {
    let hole = HoleInfo::from_kg(2_000_000_000);
    assert_eq!(
        update_max_range_from_crit(&mr(200_000_000, 220_000_000), &hole.max_range),
        mr(2_000_000_010, 2_200_000_000)
    );
    assert_eq!(
        update_max_range_from_crit(&mr(190_000_000, 220_000_000), &hole.max_range),
        mr(1_900_000_010, 2_200_000_000)
    );
    let hole = HoleInfo::from_kg(1_000_000_000);
    assert_eq!(
        update_max_range_from_crit(&mr(100_000_000, 110_000_000), &hole.max_range),
        mr(1_000_000_010, 1_100_000_000)
    )
}

#[test]
fn test_max_from_shrink() {
    let hole = HoleInfo::from_kg(2_000_000_000);
    assert_eq!(
        update_max_range_from_shrink(&mr(200_000_000, 700_000_000), &hole.max_range),
        mr(1_800_000_000, 2_000_000_000)
    );
    assert_eq!(
        update_max_range_from_shrink(&mr(300_000_000, 1_000_000_000), &hole.max_range),
        mr(2_000_000_002, 2_200_000_000)
    );
}

#[test]
fn test_max_from_full() {
    let hole = HoleInfo::from_kg(2_000_000_000);
    assert_eq!(
        update_max_range_from_full(&mr(1_000_000_000, 1_200_000_000), &hole.max_range),
        mr(1_800_000_000, 2_000_000_000)
    );
}

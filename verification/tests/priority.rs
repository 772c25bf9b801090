use fusion_blossom::dual_module::{DualNodePtr, MaxUpdateLength};
use std::cmp::Ordering;

fn ptr(index: usize) -> DualNodePtr {
    DualNodePtr { index }
}

#[test]
fn priority_by_kind() {
    let shrink_stop = MaxUpdateLength::VertexShrinkStop((ptr(3), None));
    let expand = MaxUpdateLength::BlossomNeedExpand(ptr(2));
    let touching = MaxUpdateLength::TouchingVirtual((ptr(1), ptr(1)), (7, false));
    let conflicting = MaxUpdateLength::Conflicting((ptr(0), ptr(0)), (ptr(1), ptr(1)));
    assert_eq!(shrink_stop.cmp(&expand), Ordering::Less);
    assert_eq!(expand.cmp(&touching), Ordering::Less);
    assert_eq!(touching.cmp(&conflicting), Ordering::Less);
    assert_eq!(conflicting.cmp(&shrink_stop), Ordering::Greater);
    assert_eq!(touching.cmp(&touching), Ordering::Equal);
}

#[test]
fn priority_within_a_kind() {
    // lower node indices come first among conflicts and boundary touches
    let a = MaxUpdateLength::Conflicting((ptr(0), ptr(0)), (ptr(5), ptr(5)));
    let b = MaxUpdateLength::Conflicting((ptr(1), ptr(1)), (ptr(2), ptr(2)));
    assert_eq!(a.cmp(&b), Ordering::Greater);
    assert_eq!(b.cmp(&a), Ordering::Less);
    let c = MaxUpdateLength::TouchingVirtual((ptr(4), ptr(4)), (9, false));
    let d = MaxUpdateLength::TouchingVirtual((ptr(4), ptr(4)), (3, false));
    assert_eq!(c.cmp(&d), Ordering::Less);
    // blossoms and stopping vertices by their node
    assert_eq!(MaxUpdateLength::BlossomNeedExpand(ptr(1)).cmp(&MaxUpdateLength::BlossomNeedExpand(ptr(2))), Ordering::Less);
    assert_eq!(ptr(3).cmp(&ptr(3)), Ordering::Equal);
}

use sparse_life::cell::Cell;

#[test]
fn new_holds_the_coordinates() {
    let c = Cell::new(3, -7);
    assert_eq!(c.x, 3);
    assert_eq!(c.y, -7);
}

#[test]
fn add_is_component_wise() {
    let a = Cell::new(2, -3);
    let b = Cell::new(10, 4);
    let r = a.add(&b);
    assert_eq!(r.x, 12);
    assert_eq!(r.y, 1);
}

#[test]
fn mul_is_component_wise_not_dot() {
    let a = Cell::new(2, -3);
    let b = Cell::new(5, 4);
    let r = a.mul(&b);
    assert_eq!(r.x, 10);
    assert_eq!(r.y, -12);
}

#[test]
fn scale_scales_both_components() {
    let c = Cell::new(4, -5);
    let r = c.scale(-3);
    assert_eq!(r.x, -12);
    assert_eq!(r.y, 15);
}

#[test]
fn equality_is_structural() {
    assert_eq!(Cell::new(1, 2), Cell::new(1, 2));
    assert_ne!(Cell::new(1, 2), Cell::new(2, 1));
}

#[test]
fn arithmetic_leaves_the_operands_unchanged() {
    let a = Cell::new(1, 1);
    let b = Cell::new(2, 2);
    let _ = a.add(&b);
    let _ = a.mul(&b);
    assert_eq!(a, Cell::new(1, 1));
    assert_eq!(b, Cell::new(2, 2));
}

use engine::cull::Visibility;

#[test]
fn drawn_counts_the_visible_patches() {
    let v = Visibility { visible: vec![true, false, true, true, false], past_limb: 2, outside_frustum: 0 };
    assert_eq!(v.drawn(), 3);
    let none = Visibility { visible: vec![], past_limb: 0, outside_frustum: 0 };
    assert_eq!(none.drawn(), 0);
}

use raytracer::refraction::{refraction_boundary, Boundary};

fn index_of(indices: &[f64], side: Option<usize>) -> f64 {
    match side {
        Some(o) => indices[o],
        None => 1.0,
    }
}

#[test]
fn finding_n1_and_n2_at_various_intersections() {
    // Three glass spheres: a (index 1.5) holds b (2.0) and c (2.5), which overlap.
    let indices = [1.5, 2.0, 2.5];
    let (a, b, c) = (0, 1, 2);
    let xs = vec![a, b, c, b, c, a];
    let expected = [(1.0, 1.5), (1.5, 2.0), (2.0, 2.5), (2.5, 2.5), (2.5, 1.5), (1.5, 1.0)];
    for (hit, (n1, n2)) in expected.iter().enumerate() {
        let boundary = refraction_boundary(&xs, hit);
        assert_eq!(index_of(&indices, boundary.exited), *n1);
        assert_eq!(index_of(&indices, boundary.entered), *n2);
    }
}

#[test]
fn a_hit_outside_the_list_lies_in_empty_space() {
    assert_eq!(refraction_boundary(&vec![], 0), Boundary { exited: None, entered: None });
    assert_eq!(refraction_boundary(&vec![3, 3], 2), Boundary { exited: None, entered: None });
}

#[test]
fn entering_and_leaving_one_object() {
    let xs = vec![4, 4];
    assert_eq!(refraction_boundary(&xs, 0), Boundary { exited: None, entered: Some(4) });
    assert_eq!(refraction_boundary(&xs, 1), Boundary { exited: Some(4), entered: None });
}

#[test]
fn leaving_an_outer_object_keeps_the_inner_one() {
    // enter 0, enter 1, leave 0, leave 1
    let xs = vec![0, 1, 0, 1];
    assert_eq!(refraction_boundary(&xs, 2), Boundary { exited: Some(1), entered: Some(1) });
    assert_eq!(refraction_boundary(&xs, 3), Boundary { exited: Some(1), entered: None });
}

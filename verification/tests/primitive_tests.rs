use raytracer::primitive::{CrossCap, Steiner, Steiner2};

#[test]
fn parameterless_surfaces() {
    assert_eq!(CrossCap::new(), CrossCap {});
    assert_eq!(Steiner::new(), Steiner {});
    assert_eq!(Steiner2::new(), Steiner2 {});
}

use syntxt::wave::Stereo;

#[test]
fn stereo_pairs() {
    let s = Stereo::new(0.25, 0.5);
    assert_eq!(s.left, 0.25);
    assert_eq!(s.right, 0.5);
    assert_eq!(Stereo::mono(-3), Stereo::new(-3, -3));
}

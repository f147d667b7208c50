use planet::scalar::Scalar;
use planet::terrain::{terrain, Terrain, LAND_HEIGHT, MOUNTAIN_HEIGHT, SHALLOW_HEIGHT};

fn s(x: f32) -> Scalar {
    Scalar::from_bits(x.to_bits())
}

fn elevation(t: Terrain) -> u8 {
    match t {
        Terrain::Mountain => 3,
        Terrain::Land => 2,
        Terrain::Shallow => 1,
        Terrain::Ocean => 0,
    }
}

#[test]
fn thresholds_are_the_documented_numbers() {
    assert_eq!(MOUNTAIN_HEIGHT, 0.03f32.to_bits());
    assert_eq!(LAND_HEIGHT, (-0.01f32).to_bits());
    assert_eq!(SHALLOW_HEIGHT, (-0.02f32).to_bits());
}

#[test]
fn heights_are_classified_by_threshold() {
    assert_eq!(Terrain::at_height(s(0.05)), Terrain::Mountain);
    assert_eq!(Terrain::at_height(s(0.09)), Terrain::Mountain);
    assert_eq!(Terrain::at_height(s(0.02)), Terrain::Land);
    assert_eq!(Terrain::at_height(s(0.0)), Terrain::Land);
    assert_eq!(Terrain::at_height(s(-0.005)), Terrain::Land);
    assert_eq!(Terrain::at_height(s(-0.015)), Terrain::Shallow);
    assert_eq!(Terrain::at_height(s(-0.03)), Terrain::Ocean);
    assert_eq!(Terrain::at_height(s(-1.0)), Terrain::Ocean);
}

#[test]
fn a_height_at_a_threshold_falls_below_it() {
    assert_eq!(Terrain::at_height(s(0.03)), Terrain::Land);
    assert_eq!(Terrain::at_height(s(-0.01)), Terrain::Shallow);
    assert_eq!(Terrain::at_height(s(-0.02)), Terrain::Ocean);
    assert_eq!(
        Terrain::at_height(Scalar::from_bits(0.03f32.to_bits() + 1)),
        Terrain::Mountain
    );
}

#[test]
fn a_height_that_is_no_number_is_ocean() {
    assert_eq!(Terrain::at_height(s(f32::NAN)), Terrain::Ocean);
    assert_eq!(Terrain::at_height(s(f32::INFINITY)), Terrain::Mountain);
    assert_eq!(Terrain::at_height(s(f32::NEG_INFINITY)), Terrain::Ocean);
}

#[test]
fn terrain_never_falls_as_height_rises() {
    let heights = [
        -1.0f32, -0.03, -0.0200001, -0.02, -0.015, -0.01, -0.0099, -0.0, 0.0, 0.01, 0.03,
        0.0300001, 0.05, 0.09, 1.0,
    ];
    for low in heights {
        for high in heights {
            if low < high {
                let a = elevation(Terrain::at_height(s(low)));
                let b = elevation(Terrain::at_height(s(high)));
                assert!(a <= b, "{low} {high}");
            }
        }
    }
}

#[test]
fn land_is_raised_to_sea_level_and_shallows_are_levelled() {
    let mut heights = vec![s(0.05), s(0.02), s(-0.005), s(-0.015), s(-0.03), s(0.0)];
    let found = terrain(&mut heights);
    assert_eq!(
        found,
        vec![
            Terrain::Mountain,
            Terrain::Land,
            Terrain::Land,
            Terrain::Shallow,
            Terrain::Ocean,
            Terrain::Land
        ]
    );
    let levelled: Vec<f32> = heights.iter().map(|h| f32::from_bits(h.to_bits())).collect();
    assert_eq!(levelled, vec![0.05, 0.02, 0.0, -0.02, -0.03, 0.0]);
    assert_eq!(heights[2].to_bits(), 0);
}

#[test]
fn no_heights_give_no_terrain() {
    let mut heights: Vec<Scalar> = Vec::new();
    assert_eq!(terrain(&mut heights), Vec::<Terrain>::new());
    assert!(heights.is_empty());
}

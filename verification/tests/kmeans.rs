use fluorescence::color::kmeans::{calc_dist_sq, nearest_index, Kmeans};
use fluorescence::color::{PaletteError, PrimanyColor};
use fluorescence::{Image, RgbaColor};

fn rgba(r: u8, g: u8, b: u8, a: u8) -> RgbaColor {
    RgbaColor { r, g, b, a }
}

fn image(pixels: Vec<RgbaColor>) -> Image {
    let width = pixels.len() as u32;
    Image { pixels, width, heigth: 1 }
}

#[test]
fn get_primany_colors_with_kmeans() {
    let mut pixels: Vec<RgbaColor> = Vec::new();
    for y in 0..16u32 {
        for x in 0..16u32 {
            pixels.push(rgba((x * 16) as u8, (y * 16) as u8, ((x + y) * 8) as u8, 255));
        }
    }
    let width = 16;
    let heigth = 16;

    let kmeans = Kmeans::new(Image { pixels, width, heigth }, 1, 100, Some(1));

    let colors = kmeans.get_primary_colors().unwrap();

    println!("{:?}", colors);
    assert_eq!(colors.len(), 1);
    assert_eq!(colors[0], rgba(120, 120, 120, 255));
}

#[test]
fn kmeans_returns_as_many_colours_as_clusters() {
    let pixels = vec![rgba(1, 2, 3, 4), rgba(50, 60, 70, 80), rgba(200, 210, 220, 230)];
    for k in [1u64, 2, 5, 17] {
        let colors = Kmeans::new(image(pixels.clone()), k, 10, Some(4)).get_primary_colors().unwrap();
        assert_eq!(colors.len() as u64, k);
    }
}

#[test]
fn kmeans_refine_moves_centroids_to_the_means() {
    let pixels = vec![rgba(0, 0, 0, 255), rgba(255, 255, 255, 255), rgba(4, 0, 0, 255), rgba(255, 251, 255, 255)];
    let kmeans = Kmeans::new(image(pixels), 2, 10, Some(0));
    let start = vec![rgba(10, 10, 10, 255), rgba(200, 200, 200, 255)];
    assert_eq!(kmeans.refine(start), Ok(vec![rgba(2, 0, 0, 255), rgba(255, 253, 255, 255)]));
}

#[test]
fn kmeans_means_are_rounded_down() {
    let pixels = vec![rgba(0, 9, 0, 0), rgba(1, 9, 1, 0), rgba(1, 10, 0, 255)];
    let kmeans = Kmeans::new(image(pixels), 1, 3, None);
    assert_eq!(kmeans.refine(vec![rgba(7, 7, 7, 7)]), Ok(vec![rgba(0, 9, 0, 85)]));
}

#[test]
fn kmeans_cluster_without_pixels_falls_back() {
    let pixels = vec![rgba(10, 10, 10, 10), rgba(12, 12, 12, 12)];
    let kmeans = Kmeans::new(image(pixels), 3, 1, None);
    let start = vec![rgba(250, 250, 250, 250), rgba(11, 11, 11, 11), rgba(100, 100, 100, 100)];
    assert_eq!(
        kmeans.refine(start),
        Ok(vec![rgba(0, 0, 0, 255), rgba(11, 11, 11, 11), rgba(0, 0, 0, 255)])
    );
}

#[test]
fn kmeans_more_clusters_than_pixels() {
    let pixels = vec![rgba(10, 10, 10, 10)];
    let colors = Kmeans::new(image(pixels), 6, 4, Some(0)).get_primary_colors().unwrap();
    assert_eq!(colors.len(), 6);
    let hits = colors.iter().filter(|c| **c == rgba(10, 10, 10, 10)).count();
    let fallbacks = colors.iter().filter(|c| **c == rgba(0, 0, 0, 255)).count();
    assert!(hits >= 1);
    assert_eq!(hits + fallbacks, 6);
}

#[test]
fn kmeans_equal_centroids_lowest_index_wins() {
    let pixels = vec![rgba(40, 40, 40, 40), rgba(60, 60, 60, 60)];
    let kmeans = Kmeans::new(image(pixels), 2, 1, None);
    let start = vec![rgba(50, 50, 50, 50), rgba(50, 50, 50, 50)];
    assert_eq!(kmeans.refine(start), Ok(vec![rgba(50, 50, 50, 50), rgba(0, 0, 0, 255)]));
}

#[test]
fn kmeans_no_rounds_returns_the_start() {
    let pixels = vec![rgba(40, 40, 40, 40)];
    let kmeans = Kmeans::new(image(pixels), 2, 0, Some(0));
    let start = vec![rgba(1, 2, 3, 4), rgba(5, 6, 7, 8)];
    assert_eq!(kmeans.refine(start.clone()), Ok(start));
}

#[test]
fn kmeans_settled_round_returns_the_recomputed_centroids() {
    let pixels = vec![rgba(40, 40, 40, 40), rgba(44, 40, 40, 40)];
    // the mean is (42, 40, 40, 40): 3 away from the start, squared 9
    let start = vec![rgba(45, 40, 40, 40)];
    let at_bound = Kmeans::new(image(pixels.clone()), 1, 50, Some(9));
    assert_eq!(at_bound.refine(start.clone()), Ok(vec![rgba(42, 40, 40, 40)]));
    let below_bound = Kmeans::new(image(pixels.clone()), 1, 50, Some(8));
    assert_eq!(below_bound.refine(start.clone()), Ok(vec![rgba(42, 40, 40, 40)]));
    let no_bound = Kmeans::new(image(pixels), 1, 50, None);
    assert_eq!(no_bound.refine(start), Ok(vec![rgba(42, 40, 40, 40)]));
}

#[test]
fn kmeans_stops_with_the_first_settled_round() {
    let pixels = vec![rgba(0, 0, 0, 0), rgba(10, 0, 0, 0), rgba(100, 0, 0, 0)];
    let start = vec![rgba(0, 0, 0, 0), rgba(10, 0, 0, 0)];
    // round 1 gives (0, 55): the second centroid moves by 45, squared 2025
    let stops = Kmeans::new(image(pixels.clone()), 2, 10, Some(2025));
    assert_eq!(stops.refine(start.clone()), Ok(vec![rgba(0, 0, 0, 0), rgba(55, 0, 0, 0)]));
    let many = Kmeans::new(image(pixels.clone()), 2, 1000, Some(2025));
    assert_eq!(many.refine(start.clone()), Ok(vec![rgba(0, 0, 0, 0), rgba(55, 0, 0, 0)]));
    // a tighter threshold lets the rounds go on to (5, 100)
    let goes_on = Kmeans::new(image(pixels.clone()), 2, 10, Some(2024));
    assert_eq!(goes_on.refine(start.clone()), Ok(vec![rgba(5, 0, 0, 0), rgba(100, 0, 0, 0)]));
    let one_round = Kmeans::new(image(pixels), 2, 1, Some(0));
    assert_eq!(one_round.refine(start), Ok(vec![rgba(0, 0, 0, 0), rgba(55, 0, 0, 0)]));
}

#[test]
fn kmeans_one_pixel_one_round_wide_threshold() {
    let pixel = rgba(10, 20, 30, 40);
    let one = Kmeans::new(image(vec![pixel]), 1, 1, Some(1_000_000));
    assert_eq!(one.get_primary_colors(), Ok(vec![pixel]));
    assert_eq!(one.refine(vec![rgba(0, 0, 0, 0)]), Ok(vec![pixel]));
    let two_rounds = Kmeans::new(image(vec![pixel]), 1, 2, Some(1_000_000));
    assert_eq!(two_rounds.refine(vec![rgba(0, 0, 0, 0)]), Ok(vec![pixel]));
    let two = Kmeans::new(image(vec![pixel]), 2, 1, Some(1_000_000));
    assert_eq!(
        two.refine(vec![rgba(0, 0, 0, 0), rgba(1, 1, 1, 1)]),
        Ok(vec![rgba(0, 0, 0, 255), pixel])
    );
}

#[test]
fn random_centroids_are_not_all_the_lower_bound() {
    let drawn = Kmeans::random_centroids(64);
    assert!(drawn.iter().any(|c| *c != rgba(0, 0, 0, 0)));
    assert!(drawn.iter().any(|c| *c != rgba(255, 255, 255, 255)));
    assert!(drawn.iter().any(|c| *c != drawn[0]));
}

#[test]
fn kmeans_step_and_is_settled() {
    let pixels = vec![rgba(0, 0, 0, 0), rgba(10, 0, 0, 0), rgba(100, 100, 100, 100)];
    let kmeans = Kmeans::new(image(pixels), 2, 1, Some(25));
    let start = vec![rgba(5, 3, 0, 0), rgba(90, 90, 90, 90)];
    let next = kmeans.step(&start);
    assert_eq!(next, vec![rgba(5, 0, 0, 0), rgba(100, 100, 100, 100)]);
    // the second centroid moved by 20: squared 400
    assert!(!kmeans.is_settled(&next, &start));
    assert!(kmeans.is_settled(&next, &next));
    let wide = Kmeans::new(image(vec![rgba(0, 0, 0, 0)]), 2, 1, Some(400));
    assert!(wide.is_settled(&next, &start));
}

#[test]
fn kmeans_solid_image_gives_its_colour() {
    let c = rgba(33, 66, 99, 132);
    let colors = Kmeans::new(image(vec![c; 20]), 1, 5, Some(0)).get_primary_colors().unwrap();
    assert_eq!(colors, vec![c]);
    let several = Kmeans::new(image(vec![c; 20]), 4, 5, Some(0)).get_primary_colors().unwrap();
    assert_eq!(several.len(), 4);
    assert_eq!(several.iter().filter(|x| **x == c).count(), 1);
    assert_eq!(several.iter().filter(|x| **x == rgba(0, 0, 0, 255)).count(), 3);
}

#[test]
fn kmeans_zero_clusters_is_refused() {
    let result = Kmeans::new(image(vec![rgba(1, 1, 1, 1)]), 0, 3, Some(1)).get_primary_colors();
    assert_eq!(result, Err(PaletteError::InvalidParameters));
}

#[test]
fn kmeans_empty_image_is_refused() {
    let result = Kmeans::new(image(Vec::new()), 2, 3, Some(1)).get_primary_colors();
    assert_eq!(result, Err(PaletteError::EmptyImage));
    let both = Kmeans::new(image(Vec::new()), 0, 3, Some(1)).get_primary_colors();
    assert_eq!(both, Err(PaletteError::InvalidParameters));
}

#[test]
fn kmeans_refine_checks_the_number_of_centroids() {
    let kmeans = Kmeans::new(image(vec![rgba(1, 1, 1, 1)]), 2, 3, Some(1));
    assert_eq!(kmeans.refine(Vec::new()), Err(PaletteError::InvalidParameters));
    assert_eq!(kmeans.refine(vec![rgba(0, 0, 0, 0)]), Err(PaletteError::InvalidParameters));
    let empty = Kmeans::new(image(Vec::new()), 1, 3, Some(1));
    assert_eq!(empty.refine(vec![rgba(0, 0, 0, 0)]), Err(PaletteError::EmptyImage));
}

#[test]
fn random_centroids_has_the_length_asked_for() {
    assert_eq!(Kmeans::random_centroids(9).len(), 9);
    assert!(Kmeans::random_centroids(0).is_empty());
}

#[test]
fn calc_dist_sq_sums_the_squares() {
    assert_eq!(calc_dist_sq(&rgba(0, 0, 0, 0), &rgba(255, 255, 255, 255)), 260100);
    assert_eq!(calc_dist_sq(&rgba(1, 2, 3, 4), &rgba(4, 6, 3, 4)), 25);
    assert_eq!(calc_dist_sq(&rgba(4, 6, 3, 4), &rgba(1, 2, 3, 4)), 25);
    assert_eq!(calc_dist_sq(&rgba(9, 9, 9, 9), &rgba(9, 9, 9, 9)), 0);
}

#[test]
fn nearest_index_takes_the_first_of_the_nearest() {
    let centroids = vec![rgba(100, 0, 0, 0), rgba(10, 0, 0, 0), rgba(0, 10, 0, 0), rgba(0, 0, 0, 0)];
    assert_eq!(nearest_index(&rgba(5, 5, 0, 0), &centroids), 1);
    assert_eq!(nearest_index(&rgba(0, 0, 0, 0), &centroids), 3);
    assert_eq!(nearest_index(&rgba(255, 0, 0, 0), &centroids), 0);
}

fn total_cost(pixels: &[RgbaColor], centroids: &Vec<RgbaColor>) -> u64 {
    pixels.iter().map(|p| calc_dist_sq(&centroids[nearest_index(p, centroids)], p) as u64).sum()
}

#[test]
fn kmeans_round_does_not_raise_the_cost() {
    let pixels = vec![
        rgba(0, 0, 0, 0),
        rgba(4, 8, 0, 0),
        rgba(100, 100, 100, 100),
        rgba(104, 100, 96, 100),
        rgba(250, 0, 250, 0),
    ];
    let kmeans = Kmeans::new(image(pixels.clone()), 3, 1, None);
    let mut centroids = vec![rgba(10, 10, 10, 10), rgba(90, 90, 90, 90), rgba(200, 50, 200, 50)];
    assert_eq!(total_cost(&pixels, &centroids), 400 + 240 + 400 + 432 + 10000);
    for _ in 0..4 {
        let next = kmeans.step(&centroids);
        assert!(total_cost(&pixels, &next) <= total_cost(&pixels, &centroids));
        centroids = next;
    }
    assert_eq!(centroids, vec![rgba(2, 4, 0, 0), rgba(102, 100, 98, 100), rgba(250, 0, 250, 0)]);
    assert_eq!(total_cost(&pixels, &centroids), 20 + 20 + 8 + 8);
}

#[test]
fn kmeans_rounding_down_can_raise_the_cost() {
    let pixels = vec![rgba(0, 0, 0, 0), rgba(1, 0, 0, 0), rgba(1, 0, 0, 0)];
    let kmeans = Kmeans::new(image(pixels.clone()), 1, 1, None);
    let start = vec![rgba(1, 0, 0, 0)];
    let next = kmeans.step(&start);
    assert_eq!(next, vec![rgba(0, 0, 0, 0)]);
    assert_eq!(total_cost(&pixels, &start), 1);
    assert_eq!(total_cost(&pixels, &next), 2);
}

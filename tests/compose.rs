use strata::error::ErrorKind;
use strata::join::{composite, Join};
use strata::raster::{Layer, RasterImage, Rgb, Vector, View};

fn image(width: u32, height: u32, f: impl Fn(u32, u32) -> Rgb) -> RasterImage {
    let mut pixels = Vec::new();
    for y in 0..height {
        for x in 0..width {
            pixels.push(f(x, y));
        }
    }
    RasterImage::from_pixels(width, height, pixels).unwrap()
}

fn red(r: u8) -> Rgb {
    Rgb { r, g: 0, b: 0 }
}

fn placed(x: i64, y: i64, image: RasterImage) -> Layer {
    Layer { position: Vector::new(x, y), image }
}

#[test]
fn single_layer_composite_is_the_layer() {
    let img = image(5, 4, |x, y| Rgb { r: (x * 50) as u8, g: (y * 60) as u8, b: ((x + y) * 7) as u8 });
    let out = composite(&vec![Layer::new(image(5, 4, |x, y| img.get_pixel(x, y)))]).unwrap();
    assert_eq!(out.width(), 5);
    assert_eq!(out.height(), 4);
    assert_eq!(out.pixels, img.pixels);
}

#[test]
fn output_spans_the_union_bounding_box() {
    let layers = vec![
        placed(-5, 3, RasterImage::filled(10, 4, red(10))),
        placed(7, -2, RasterImage::filled(3, 3, red(20))),
    ];
    let out = composite(&layers).unwrap();
    assert_eq!(out.width(), 15);
    assert_eq!(out.height(), 9);
    // world (0, -2) is covered by no layer
    assert_eq!(out.get_pixel(5, 0), red(0));
    // world (-5, 3) is covered by the first layer only
    assert_eq!(out.get_pixel(0, 5), red(10));
    // world (8, -1) is covered by the second layer only
    assert_eq!(out.get_pixel(13, 1), red(20));
}

#[test]
fn equal_distances_give_the_plain_mean() {
    let layers = vec![
        placed(0, 0, RasterImage::filled(2, 1, red(100))),
        placed(0, 0, RasterImage::filled(2, 1, red(201))),
    ];
    let out = composite(&layers).unwrap();
    assert_eq!(out.get_pixel(0, 0), red(150));
    assert_eq!(out.get_pixel(1, 0), red(150));
}

#[test]
fn nearer_centre_weighs_more() {
    // centres at world x = 2 and x = 4
    let layers = vec![
        placed(0, 0, RasterImage::filled(4, 1, red(160))),
        placed(2, 0, RasterImage::filled(4, 1, red(0))),
    ];
    let out = composite(&layers).unwrap();
    let row: Vec<u8> = (0..6).map(|x| out.get_pixel(x, 0).r).collect();
    // at x = 2: weights 1 and 1/16 of each other, 160 * 16 / 17 = 150.6
    assert_eq!(row, vec![160, 160, 150, 80, 0, 0]);
    for k in 1..row.len() {
        assert!(row[k] <= row[k - 1]);
    }
}

#[test]
fn no_layers_is_empty_input() {
    let e = composite(&vec![]).unwrap_err();
    assert_eq!(e.kind, ErrorKind::EmptyInput);
    assert!(!e.to_string().is_empty());
}

#[test]
fn area_free_layers_are_degenerate() {
    let e = composite(&vec![Layer::new(RasterImage::filled(0, 7, red(1)))]).unwrap_err();
    assert_eq!(e.kind, ErrorKind::DegenerateGeometry);
}

#[test]
fn far_apart_layers_are_oversized() {
    let layers = vec![
        placed(0, 0, RasterImage::filled(1, 1, red(1))),
        placed(1 << 40, 0, RasterImage::filled(1, 1, red(1))),
    ];
    let e = composite(&layers).unwrap_err();
    assert_eq!(e.kind, ErrorKind::Oversized);
}

#[test]
fn join_leaves_one_layer_at_the_origin() {
    let view = View {
        layers: vec![
            placed(-3, -4, RasterImage::filled(2, 2, red(9))),
            placed(5, 6, RasterImage::filled(1, 1, red(9))),
        ],
    };
    let out = Join::new().apply(view).unwrap();
    assert_eq!(out.layers.len(), 1);
    assert_eq!(out.layers[0].position, Vector::new(0, 0));
    assert_eq!(out.layers[0].image.width(), 9);
    assert_eq!(out.layers[0].image.height(), 11);
}

#[test]
fn compositing_is_repeatable() {
    let make = || vec![
        placed(0, 0, RasterImage::filled(7, 5, red(33))),
        placed(3, 2, RasterImage::filled(6, 6, red(250))),
    ];
    assert_eq!(composite(&make()).unwrap().pixels, composite(&make()).unwrap().pixels);
}

#[test]
fn layer_sample_lookup() {
    let l = placed(2, 3, image(2, 2, |x, y| red((10 * x + y) as u8)));
    assert_eq!(l.get_pixel(&Vector::new(3, 4)), Some(red(11)));
    assert_eq!(l.get_pixel(&Vector::new(4, 4)), None);
    assert_eq!(l.get_pixel(&Vector::new(1, 3)), None);
}

#[test]
fn raster_needs_one_sample_per_cell() {
    assert!(RasterImage::from_pixels(2, 2, vec![red(0); 3]).is_none());
    assert!(RasterImage::from_pixels(2, 2, vec![red(0); 4]).is_some());
}

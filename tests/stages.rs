use strata::join::Join;
use strata::position::Position;
use strata::raster::{Layer, RasterImage, Rgb, Vector, View};
use strata::save::Save;

fn image(width: u32, height: u32, f: impl Fn(u32, u32) -> Rgb) -> RasterImage {
    let mut pixels = Vec::new();
    for y in 0..height {
        for x in 0..width {
            pixels.push(f(x, y));
        }
    }
    RasterImage::from_pixels(width, height, pixels).unwrap()
}

fn smooth(x: u32, y: u32) -> Rgb {
    Rgb { r: (x * 4) as u8, g: (y * 4) as u8, b: ((x * y) / 16) as u8 }
}

#[test]
fn position_places_a_crop_where_it_was_taken() {
    let view = View {
        layers: vec![
            Layer::new(image(64, 64, smooth)),
            Layer::new(image(40, 40, |x, y| smooth(x + 11, y + 7))),
        ],
    };
    let placed = Position::new().apply(view).unwrap();
    assert_eq!(placed.layers.len(), 2);
    assert_eq!(placed.layers[0].position, Vector::new(0, 0));
    assert_eq!(placed.layers[1].position, Vector::new(11, 7));
    assert_eq!(placed.layers[1].image.width(), 40);
}

#[test]
fn three_crops_are_stitched_back() {
    let view = View {
        layers: vec![
            Layer::new(image(40, 40, |x, y| smooth(x + 20, y + 3))),
            Layer::new(image(40, 40, |x, y| smooth(x, y))),
            Layer::new(image(40, 40, |x, y| smooth(x + 9, y + 21))),
        ],
    };
    let placed = Position::new().apply(view).unwrap();
    let p: Vec<Vector> = placed.layers.iter().map(|l| l.position).collect();
    assert_eq!(p[0].x - p[1].x, 20);
    assert_eq!(p[0].y - p[1].y, 3);
    assert_eq!(p[2].x - p[1].x, 9);
    assert_eq!(p[2].y - p[1].y, 21);
    let joined = Join::new().apply(placed).unwrap();
    let out = &joined.layers[0].image;
    assert_eq!(out.width(), 60);
    assert_eq!(out.height(), 61);
    assert_eq!(out.get_pixel(25, 30), smooth(25, 30));
    assert_eq!(out.get_pixel(59, 10), smooth(59, 10));
}

#[test]
fn position_of_nothing_is_nothing() {
    let placed = Position::new().apply(View { layers: vec![] }).unwrap();
    assert!(placed.layers.is_empty());
}

#[test]
fn save_takes_the_single_layer() {
    let save = Save::new("out.jpg".to_string());
    assert_eq!(save.path, "out.jpg");
    let one = View { layers: vec![Layer::new(RasterImage::filled(2, 3, Rgb { r: 1, g: 2, b: 3 }))] };
    assert_eq!(save.output(&one).unwrap().height(), 3);
    let two = View {
        layers: vec![
            Layer::new(RasterImage::filled(1, 1, Rgb { r: 0, g: 0, b: 0 })),
            Layer::new(RasterImage::filled(1, 1, Rgb { r: 0, g: 0, b: 0 })),
        ],
    };
    assert!(save.output(&two).is_none());
    assert!(save.output(&View { layers: vec![] }).is_none());
}

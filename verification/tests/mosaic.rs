use image_of_images_creator::color::{to_linear, LinColor, Rgb8};
use image_of_images_creator::compose::image_of_image;
use image_of_images_creator::dictionary::{ImageDictionaryReader, Tile};
use image_of_images_creator::errors::MosaicError;
use image_of_images_creator::grid::PixelGrid;

fn solid(w: u32, h: u32, r: u8, g: u8, b: u8) -> PixelGrid {
    let mut grid = PixelGrid::new(w, h);
    for y in 0..h {
        for x in 0..w {
            grid.set_pixel(x, y, Rgb8 { r, g, b });
        }
    }
    grid
}

fn tile(name: &str, color: LinColor, buffer: PixelGrid) -> Tile {
    Tile { identity: name.as_bytes().to_vec(), color, pixels: Some(buffer) }
}

#[test]
fn grid_new_is_black_and_sized() {
    let g = PixelGrid::new(3, 2);
    assert_eq!(g.img_size(), (3, 2));
    for y in 0..2 {
        for x in 0..3 {
            assert_eq!(g.get_pixel(x, y), Rgb8 { r: 0, g: 0, b: 0 });
        }
    }
}

#[test]
fn set_pixel_changes_only_that_pixel() {
    let mut g = PixelGrid::new(2, 2);
    g.set_pixel(1, 0, Rgb8 { r: 9, g: 8, b: 7 });
    assert_eq!(g.get_pixel(1, 0), Rgb8 { r: 9, g: 8, b: 7 });
    assert_eq!(g.get_pixel(0, 0), Rgb8 { r: 0, g: 0, b: 0 });
    assert_eq!(g.get_pixel(0, 1), Rgb8 { r: 0, g: 0, b: 0 });
    assert_eq!(g.get_pixel(1, 1), Rgb8 { r: 0, g: 0, b: 0 });
}

#[test]
fn absorbe_copies_a_block_and_keeps_the_rest() {
    let mut g = solid(4, 4, 1, 1, 1);
    let block = solid(2, 2, 200, 100, 50);
    g.absorbe(&block, 2, 1);
    for y in 0..4 {
        for x in 0..4 {
            let expect = if (2..4).contains(&x) && (1..3).contains(&y) {
                Rgb8 { r: 200, g: 100, b: 50 }
            } else {
                Rgb8 { r: 1, g: 1, b: 1 }
            };
            assert_eq!(g.get_pixel(x, y), expect);
        }
    }
}

#[test]
fn raw_round_trip_preserves_pixels() {
    let mut g = PixelGrid::new(2, 2);
    g.set_pixel(0, 0, Rgb8 { r: 1, g: 2, b: 3 });
    g.set_pixel(1, 1, Rgb8 { r: 4, g: 5, b: 6 });
    let raw = g.to_raw();
    assert_eq!(raw, vec![1, 2, 3, 0, 0, 0, 0, 0, 0, 4, 5, 6]);
    let back = PixelGrid::from_raw(2, 2, &raw).unwrap();
    assert_eq!(back.to_raw(), raw);
}

#[test]
fn from_raw_rejects_wrong_length() {
    assert!(PixelGrid::from_raw(2, 2, &vec![0; 11]).is_none());
    assert!(PixelGrid::from_raw(2, 2, &vec![0; 13]).is_none());
}

#[test]
fn resize_changes_the_dimensions() {
    let g = solid(4, 4, 50, 60, 70);
    let small = g.resize(1, 1);
    assert_eq!(small.img_size(), (1, 1));
    assert_eq!(small.to_raw().len(), 3);
}

#[test]
fn resize_to_same_size_copies_exactly() {
    let mut g = PixelGrid::new(2, 2);
    g.set_pixel(0, 1, Rgb8 { r: 11, g: 22, b: 33 });
    let same = g.resize(2, 2);
    assert_eq!(same.img_size(), (2, 2));
    assert_eq!(same.to_raw(), g.to_raw());
}

#[test]
fn get_closest_returns_the_exact_match() {
    let dict = image_of_images_creator::dictionary::ImageDictionary {
        images_size: (1, 1),
        tiles: vec![
            tile("a", LinColor { r: 100, g: 0, b: 0 }, solid(1, 1, 10, 0, 0)),
            tile("b", LinColor { r: 0, g: 400, b: 0 }, solid(1, 1, 0, 20, 0)),
            tile("c", LinColor { r: 0, g: 0, b: 900 }, solid(1, 1, 0, 0, 30)),
        ],
    };
    assert_eq!(dict.get_closest(&LinColor { r: 0, g: 400, b: 0 }), 1);
    assert_eq!(dict.get_closest(&LinColor { r: 100, g: 0, b: 0 }), 0);
    assert_eq!(dict.get_closest(&LinColor { r: 0, g: 0, b: 900 }), 2);
}

#[test]
fn get_closest_breaks_ties_by_scan_order() {
    let dict = image_of_images_creator::dictionary::ImageDictionary {
        images_size: (1, 1),
        tiles: vec![
            tile("far", LinColor { r: 1000, g: 0, b: 0 }, solid(1, 1, 0, 0, 0)),
            tile("first", LinColor { r: 5, g: 5, b: 5 }, solid(1, 1, 0, 0, 0)),
            tile("second", LinColor { r: 5, g: 5, b: 5 }, solid(1, 1, 0, 0, 0)),
        ],
    };
    assert_eq!(dict.get_closest(&LinColor { r: 5, g: 5, b: 5 }), 1);
}

#[test]
fn mosaic_of_four_solid_colors_fills_each_quadrant() {
    // a 2x2 target of four distinct solid colors, four matching solid tiles
    // at 8x8: the 16x16 canvas holds each tile in its quadrant, uniformly
    let colors: [(u8, u8, u8); 4] = [(255, 0, 0), (0, 255, 0), (0, 0, 255), (255, 255, 255)];
    let listing: Vec<Vec<u8>> = (0..4).map(|i| format!("t{}.png", i).into_bytes()).collect();
    let reader = ImageDictionaryReader::open(listing, Vec::new(), (8, 8));
    let mut chunks = reader.split(2);
    let mut next = colors.iter();
    for chunk in chunks.iter_mut() {
        while chunk.len() > 0 {
            let (r, g, b) = *next.next().unwrap();
            assert!(chunk.process_image(Some(solid(8, 8, r, g, b))));
        }
    }
    let dict = reader.build_split(chunks).unwrap();
    assert_eq!(dict.len(), 4);

    let mut target = PixelGrid::new(2, 2);
    target.set_pixel(0, 0, Rgb8 { r: 255, g: 0, b: 0 });
    target.set_pixel(1, 0, Rgb8 { r: 0, g: 255, b: 0 });
    target.set_pixel(0, 1, Rgb8 { r: 0, g: 0, b: 255 });
    target.set_pixel(1, 1, Rgb8 { r: 255, g: 255, b: 255 });

    let canvas = image_of_image(&dict, &target).unwrap();
    assert_eq!(canvas.img_size(), (16, 16));
    for cy in 0..2 {
        for cx in 0..2 {
            let (r, g, b) = colors[(cy * 2 + cx) as usize];
            for dy in 0..8 {
                for dx in 0..8 {
                    assert_eq!(
                        canvas.get_pixel(cx * 8 + dx, cy * 8 + dy),
                        Rgb8 { r, g, b },
                        "quadrant ({}, {}) pixel ({}, {})",
                        cx,
                        cy,
                        dx,
                        dy
                    );
                }
            }
        }
    }
}

#[test]
fn renderable_requires_a_buffer_on_every_tile() {
    let mut dict = image_of_images_creator::dictionary::ImageDictionary {
        images_size: (2, 2),
        tiles: vec![tile("a", LinColor { r: 1, g: 2, b: 3 }, solid(2, 2, 1, 1, 1))],
    };
    assert!(dict.is_renderable());
    dict.tiles.push(image_of_images_creator::dictionary::Tile {
        identity: b"colors_only".to_vec(),
        color: LinColor { r: 4, g: 5, b: 6 },
        pixels: None,
    });
    assert!(!dict.is_renderable());
}

#[test]
fn renderable_requires_the_shared_tile_size() {
    let dict = image_of_images_creator::dictionary::ImageDictionary {
        images_size: (2, 2),
        tiles: vec![tile("a", LinColor { r: 1, g: 2, b: 3 }, solid(3, 2, 1, 1, 1))],
    };
    assert!(!dict.is_renderable());
}

#[test]
fn empty_dictionary_is_rejected_at_composition() {
    let reader = ImageDictionaryReader::open(Vec::new(), Vec::new(), (8, 8));
    let dict = reader.build_split(Vec::new()).unwrap();
    assert_eq!(dict.len(), 0);
    let target = solid(2, 2, 1, 2, 3);
    assert_eq!(image_of_image(&dict, &target).unwrap_err(), MosaicError::EmptyDictionary);
}

#[test]
fn empty_target_composes_to_an_empty_canvas() {
    let dict = image_of_images_creator::dictionary::ImageDictionary {
        images_size: (8, 8),
        tiles: vec![tile("a", to_linear(Rgb8 { r: 1, g: 2, b: 3 }), solid(8, 8, 1, 2, 3))],
    };
    let canvas = image_of_image(&dict, &PixelGrid::new(0, 0)).unwrap();
    assert_eq!(canvas.img_size(), (0, 0));
}

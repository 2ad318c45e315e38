use image_of_images_creator::cache::{decode, CacheEntry};
use image_of_images_creator::color::{LinColor, Rgb8};
use image_of_images_creator::dictionary::{cache_file_name, ImageDictionaryReader};
use image_of_images_creator::errors::MosaicError;
use image_of_images_creator::grid::PixelGrid;

fn ids(names: &[&str]) -> Vec<Vec<u8>> {
    names.iter().map(|n| n.as_bytes().to_vec()).collect()
}

fn solid(w: u32, h: u32, r: u8, g: u8, b: u8) -> PixelGrid {
    let mut grid = PixelGrid::new(w, h);
    for y in 0..h {
        for x in 0..w {
            grid.set_pixel(x, y, Rgb8 { r, g, b });
        }
    }
    grid
}

#[test]
fn sidecar_name_is_stable() {
    assert_eq!(cache_file_name(), b"dictionary_cache.bin".to_vec());
}

#[test]
fn open_partitions_listing_into_cached_and_pending() {
    let listing = ids(&["a.png", "b.png", "dictionary_cache.bin", "c.png"]);
    let cache = vec![CacheEntry {
        identity: b"b.png".to_vec(),
        color: LinColor { r: 7, g: 8, b: 9 },
    }];
    let reader = ImageDictionaryReader::open(listing, cache, (8, 8));
    assert_eq!(reader.pending, ids(&["a.png", "c.png"]));
    assert_eq!(reader.cached.len(), 1);
    assert_eq!(reader.cached[0].identity, b"b.png".to_vec());
    assert_eq!(reader.unprocessed_len(), 2);
    assert_eq!(reader.len(), 3);
}

#[test]
fn open_prunes_cache_entries_for_deleted_files() {
    let listing = ids(&["a.png"]);
    let cache = vec![
        CacheEntry { identity: b"a.png".to_vec(), color: LinColor { r: 1, g: 1, b: 1 } },
        CacheEntry { identity: b"gone.png".to_vec(), color: LinColor { r: 2, g: 2, b: 2 } },
    ];
    let reader = ImageDictionaryReader::open(listing, cache, (8, 8));
    assert_eq!(reader.cached.len(), 1);
    assert_eq!(reader.cached[0].identity, b"a.png".to_vec());
    assert_eq!(reader.pending.len(), 0);
}

#[test]
fn split_makes_contiguous_chunks_with_short_tail() {
    let listing = ids(&["a", "b", "c", "d", "e"]);
    let reader = ImageDictionaryReader::open(listing, Vec::new(), (4, 4));
    let chunks = reader.split(2);
    assert_eq!(chunks.len(), 3);
    assert_eq!(chunks[0].remaining, ids(&["a", "b"]));
    assert_eq!(chunks[1].remaining, ids(&["c", "d"]));
    assert_eq!(chunks[2].remaining, ids(&["e"]));
    for c in &chunks {
        assert_eq!(c.tiles.len(), 0);
        assert_eq!(c.failures.len(), 0);
    }
}

#[test]
fn split_of_empty_pending_has_no_chunks() {
    let reader = ImageDictionaryReader::open(Vec::new(), Vec::new(), (4, 4));
    assert_eq!(reader.split(3).len(), 0);
}

#[test]
fn process_image_computes_mean_and_resizes() {
    let listing = ids(&["red.png"]);
    let reader = ImageDictionaryReader::open(listing, Vec::new(), (2, 2));
    let mut chunks = reader.split(1);
    assert_eq!(chunks[0].len(), 1);
    assert_eq!(chunks[0].next_identity().unwrap(), &b"red.png".to_vec());
    let more = chunks[0].process_image(Some(solid(4, 4, 255, 0, 0)));
    assert!(more);
    assert_eq!(chunks[0].len(), 0);
    assert!(!chunks[0].process_image(None));
    let tile = &chunks[0].tiles[0];
    assert_eq!(tile.identity, b"red.png".to_vec());
    assert_eq!(tile.color, LinColor { r: 65025, g: 0, b: 0 });
    let buffer = tile.pixels.as_ref().unwrap();
    assert_eq!(buffer.img_size(), (2, 2));
}

#[test]
fn process_image_records_and_skips_failures() {
    let listing = ids(&["bad.png", "good.png"]);
    let reader = ImageDictionaryReader::open(listing, Vec::new(), (2, 2));
    let mut chunks = reader.split(2);
    assert!(chunks[0].process_image(None));
    assert!(chunks[0].process_image(Some(solid(2, 2, 0, 255, 0))));
    assert_eq!(chunks[0].failures, ids(&["bad.png"]));
    assert_eq!(chunks[0].tiles.len(), 1);
    assert_eq!(chunks[0].tiles[0].identity, b"good.png".to_vec());
}

#[test]
fn empty_decoded_image_counts_as_failure() {
    let listing = ids(&["zero.png"]);
    let reader = ImageDictionaryReader::open(listing, Vec::new(), (2, 2));
    let mut chunks = reader.split(1);
    assert!(chunks[0].process_image(Some(PixelGrid::new(0, 5))));
    assert_eq!(chunks[0].failures, ids(&["zero.png"]));
    assert_eq!(chunks[0].tiles.len(), 0);
}

#[test]
fn valid_source_yields_one_tile_per_file_with_colors_in_range() {
    let listing = ids(&["r.png", "g.png", "b.png"]);
    let reader = ImageDictionaryReader::open(listing, Vec::new(), (4, 4));
    let mut chunks = reader.split(2);
    let images = [
        solid(6, 6, 255, 0, 0),
        solid(3, 5, 0, 255, 0),
        solid(8, 2, 0, 0, 255),
    ];
    let mut next = images.into_iter();
    for chunk in chunks.iter_mut() {
        while chunk.len() > 0 {
            assert!(chunk.process_image(Some(next.next().unwrap())));
        }
        assert!(!chunk.process_image(None));
    }
    let dict = reader.build_split(chunks).unwrap();
    assert_eq!(dict.len(), 3);
    for tile in &dict.tiles {
        assert!(tile.color.r <= 65025 && tile.color.g <= 65025 && tile.color.b <= 65025);
        assert_eq!(tile.pixels.as_ref().unwrap().img_size(), (4, 4));
    }
    assert_eq!(dict.tiles[0].identity, b"r.png".to_vec());
    assert_eq!(dict.tiles[0].color, LinColor { r: 65025, g: 0, b: 0 });
    assert_eq!(dict.tiles[1].color, LinColor { r: 0, g: 65025, b: 0 });
    assert_eq!(dict.tiles[2].color, LinColor { r: 0, g: 0, b: 65025 });
}

#[test]
fn build_split_rejects_a_chunk_from_another_run() {
    let reader_a = ImageDictionaryReader::open(ids(&["x.png"]), Vec::new(), (8, 8));
    let reader_b = ImageDictionaryReader::open(ids(&["x.png"]), Vec::new(), (4, 4));
    let mut chunks = reader_b.split(1);
    assert!(chunks[0].process_image(Some(solid(2, 2, 9, 9, 9))));
    let err = reader_a.build_split(chunks).unwrap_err();
    assert_eq!(err, MosaicError::InconsistentTileSize);
}

#[test]
fn second_run_is_served_entirely_from_cache() {
    let names = ["one.png", "two.png"];
    let listing = ids(&names);
    let reader = ImageDictionaryReader::open(listing.clone(), Vec::new(), (2, 2));
    let mut chunks = reader.split(1);
    let images = [solid(4, 4, 10, 20, 30), solid(4, 4, 200, 100, 50)];
    let mut next = images.into_iter();
    for chunk in chunks.iter_mut() {
        while chunk.len() > 0 {
            assert!(chunk.process_image(Some(next.next().unwrap())));
        }
    }
    let dict = reader.build_split(chunks).unwrap();
    let first_pairs: Vec<(Vec<u8>, LinColor)> =
        dict.tiles.iter().map(|t| (t.identity.clone(), t.color)).collect();
    let bytes = dict.save().unwrap();

    // second run over the unchanged source, with the saved cache loaded
    let cache = decode(&bytes).unwrap();
    let reader2 = ImageDictionaryReader::open(listing, cache, (2, 2));
    assert_eq!(reader2.unprocessed_len(), 0, "second run must decode nothing");
    let chunks2 = reader2.split(1);
    assert_eq!(chunks2.len(), 0);
    let dict2 = reader2.build_split(chunks2).unwrap();
    let second_pairs: Vec<(Vec<u8>, LinColor)> =
        dict2.tiles.iter().map(|t| (t.identity.clone(), t.color)).collect();
    assert_eq!(first_pairs, second_pairs);
}

#[test]
fn save_rejects_duplicate_identities() {
    let reader = ImageDictionaryReader::open(ids(&["a", "a2"]), Vec::new(), (2, 2));
    let mut chunks = reader.split(2);
    assert!(chunks[0].process_image(Some(solid(2, 2, 1, 1, 1))));
    assert!(chunks[0].process_image(Some(solid(2, 2, 2, 2, 2))));
    let mut dict = reader.build_split(chunks).unwrap();
    dict.tiles[1].identity = b"a".to_vec();
    assert_eq!(dict.save().unwrap_err(), MosaicError::EncodeFailure);
}

#[test]
fn rebuild_after_tile_deletion_excludes_the_tile() {
    // build and save over two tiles, then relist with one deleted
    let reader = ImageDictionaryReader::open(ids(&["keep.png", "gone.png"]), Vec::new(), (2, 2));
    let mut chunks = reader.split(2);
    assert!(chunks[0].process_image(Some(solid(2, 2, 5, 5, 5))));
    assert!(chunks[0].process_image(Some(solid(2, 2, 6, 6, 6))));
    let dict = reader.build_split(chunks).unwrap();
    let bytes = dict.save().unwrap();

    let cache = decode(&bytes).unwrap();
    let reader2 = ImageDictionaryReader::open(ids(&["keep.png"]), cache, (2, 2));
    assert_eq!(reader2.unprocessed_len(), 0);
    let dict2 = reader2.build_split(Vec::new()).unwrap();
    assert_eq!(dict2.len(), 1);
    assert_eq!(dict2.tiles[0].identity, b"keep.png".to_vec());
}

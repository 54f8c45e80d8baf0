use tile_mosaic::codec::{decode, encode};
use tile_mosaic::raster::Raster;

#[test]
fn decoding_does_not_ask_the_hooks_of_the_process() {
    let raster = Raster::from_samples(2, 1, vec![1, 2, 3, 4, 5, 6, 7, 8]).unwrap();
    let png = encode(&raster).unwrap();
    assert!(image::load_from_memory(&png).is_ok());

    image::hooks::register_format_detection_hook(
        "no-such-format".into(),
        &[0x89, b'P', b'N', b'G', 0x0d, 0x0a, 0x1a, 0x0a],
        None,
    );

    // With the hook in place, guessing the format no longer finds PNG.
    assert!(image::load_from_memory(&png).is_err());

    let back = decode(&png).unwrap();
    assert_eq!((back.width(), back.height()), (2, 1));
    assert_eq!(back.as_bytes(), raster.as_bytes());
}

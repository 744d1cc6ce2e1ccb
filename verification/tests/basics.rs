use giflib::colormap::{ColorMapObject, GifColorType};
use giflib::err::GifError;
use giflib::gcb::{dgif_extension_to_gcb, egif_gcb_to_extension, GraphicsControlBlock};
use giflib::hash::GifHashTableType;
use giflib::types::{ExtensionBlock, GifImageDesc, SavedImage};

fn rgb(r: u8, g: u8, b: u8) -> GifColorType {
    GifColorType { Red: r, Green: g, Blue: b }
}

#[test]
fn bit_size_values() {
    assert_eq!(ColorMapObject::bit_size(0), 1);
    assert_eq!(ColorMapObject::bit_size(2), 1);
    assert_eq!(ColorMapObject::bit_size(3), 2);
    assert_eq!(ColorMapObject::bit_size(16), 4);
    assert_eq!(ColorMapObject::bit_size(17), 5);
    assert_eq!(ColorMapObject::bit_size(256), 8);
    assert_eq!(ColorMapObject::bit_size(257), 9);
}

#[test]
fn new_color_map_checks_count() {
    assert!(ColorMapObject::new(3).is_err());
    assert!(ColorMapObject::new(512).is_err());
    assert!(ColorMapObject::new(0).is_err());
    let m = ColorMapObject::new(16).unwrap();
    assert_eq!(m.ColorCount, 16);
    assert_eq!(m.BitsPerPixel, 4);
    assert!(!m.SortFlag);
    assert!(m.colors().iter().all(|c| *c == rgb(0, 0, 0)));
}

#[test]
fn color_map_from_slice() {
    let cols = [rgb(1, 2, 3), rgb(4, 5, 6)];
    let m = ColorMapObject::from_slice(&cols).unwrap();
    assert_eq!(m.ColorCount, 2);
    assert_eq!(m.BitsPerPixel, 1);
    assert_eq!(m.colors(), &cols);
    assert!(ColorMapObject::from_slice(&[rgb(0, 0, 0); 3]).is_err());
    let big = vec![rgb(9, 9, 9); 512];
    assert_eq!(ColorMapObject::from_slice(&big).unwrap().BitsPerPixel, 9);
}

#[test]
fn union_of_color_maps() {
    let a = ColorMapObject::from_slice(&[rgb(10, 0, 0), rgb(0, 10, 0)]).unwrap();
    let b = ColorMapObject::from_slice(&[rgb(0, 10, 0), rgb(0, 0, 10)]).unwrap();
    let mut trans = [0u8; 2];
    let u = a.union_with(&b, &mut trans).unwrap();
    assert_eq!(u.ColorCount, 4);
    assert_eq!(u.BitsPerPixel, 2);
    assert_eq!(u.colors(), &[rgb(10, 0, 0), rgb(0, 10, 0), rgb(0, 0, 10), rgb(0, 0, 0)]);
    assert_eq!(trans, [1, 2]);
}

#[test]
fn union_too_large_is_refused() {
    let a = ColorMapObject::new(256).unwrap();
    let b = ColorMapObject::new(2).unwrap();
    let mut trans = [0u8; 2];
    assert!(a.union_with(&b, &mut trans).is_none());
}

#[test]
fn apply_translation_maps_every_pixel() {
    let mut im = SavedImage::new(GifImageDesc::empty());
    im.RasterBits = vec![0, 1, 2, 1];
    let mut t = [0u8; 256];
    t[0] = 5;
    t[1] = 6;
    t[2] = 7;
    im.apply_translation(&t);
    assert_eq!(im.RasterBits, vec![5, 6, 7, 6]);
}

#[test]
fn saved_image_size() {
    let mut d = GifImageDesc::empty();
    d.Width = 3;
    d.Height = 4;
    assert_eq!(SavedImage::new(d).size(), Some(12));
    let mut d = GifImageDesc::empty();
    d.Width = 0;
    d.Height = 4;
    assert_eq!(SavedImage::new(d).size(), None);
    let mut d = GifImageDesc::empty();
    d.Width = 65536;
    d.Height = 1;
    assert_eq!(SavedImage::new(d).size(), None);
}

#[test]
fn raster_row_bounds() {
    let mut d = GifImageDesc::empty();
    d.Width = 3;
    d.Height = 2;
    let mut im = SavedImage::new(d);
    im.RasterBits = vec![0; 6];
    assert_eq!(im.raster_bits_row_mut(1), Some((3, 6)));
    assert_eq!(im.raster_bits_row_mut(2), None);
}

#[test]
fn extension_block_copies_data() {
    let b = ExtensionBlock::new(0xfe, b"hi");
    assert_eq!(b.Function, 0xfe);
    assert_eq!(b.ByteCount, 2);
    assert_eq!(b.bytes(), b"hi");
    let c = b.duplicate();
    assert_eq!(c.bytes(), b"hi");
    let mut v = Vec::new();
    giflib::types::add_extension_block(&mut v, 0xf9, &[1, 2, 3, 4]);
    assert_eq!(v.len(), 1);
    assert_eq!(v[0].Function, 0xf9);
    assert_eq!(v[0].bytes(), &[1, 2, 3, 4]);
}

#[test]
fn error_codes_and_messages() {
    assert_eq!(GifError::DReadFailed.code(), 102);
    assert_eq!(GifError::DEofTooSoon.code(), 113);
    assert_eq!(GifError::EWriteFailed.code(), 2);
    assert_eq!(GifError::ENotWriteable.code(), 10);
    assert_eq!(GifError::from_error_code(104), Some(GifError::DNoScreenDesc));
    assert_eq!(GifError::from_error_code(5), Some(GifError::ENoColorMap));
    assert_eq!(GifError::from_error_code(0), None);
    assert_eq!(GifError::from_error_code(999), None);
    assert_eq!(GifError::DNotGifFile.to_error_string(), "Data is not in GIF format");
    assert_eq!(GifError::EDiskIsFull.to_error_string(), "Write failed (disk full?)");
}

#[test]
fn error_code_round_trip_all() {
    let all = [
        GifError::DOpenFailed, GifError::DReadFailed, GifError::DNotGifFile, GifError::DNoScreenDesc,
        GifError::DNoImageDesc, GifError::DNoColorMap, GifError::DWrongRecord, GifError::DDataTooBig,
        GifError::DNotEnoughMem, GifError::DCloseFailed, GifError::DNotReadable, GifError::DImageDefect,
        GifError::DEofTooSoon, GifError::EOpenFailed, GifError::EWriteFailed, GifError::EHasScreenDesc,
        GifError::EHasImageDesc, GifError::ENoColorMap, GifError::EDataTooBig, GifError::ENotEnoughMem,
        GifError::EDiskIsFull, GifError::ECloseFailed, GifError::ENotWriteable,
    ];
    for e in all {
        assert_eq!(GifError::from_error_code(e.code()), Some(e));
    }
}

#[test]
fn hash_table_insert_and_lookup() {
    let mut ht = GifHashTableType::new();
    assert_eq!(ht.exists_key(0x12345), None);
    ht.insert(0x12345, 300);
    ht.insert(0x00042, 4095);
    assert_eq!(ht.exists_key(0x12345), Some(300));
    assert_eq!(ht.exists_key(0x00042), Some(4095));
    assert_eq!(ht.exists_key(0x00043), None);
    ht.insert(0x00001, 0x1234);
    assert_eq!(ht.exists_key(0x00001), Some(0x234));
    ht.clear();
    assert_eq!(ht.exists_key(0x12345), None);
}

#[test]
fn hash_table_colliding_keys() {
    let mut ht = GifHashTableType::new();
    // keys whose hashes collide: ((k >> 12) ^ k) & 0x1fff
    let k1: u32 = 0x00000;
    let k2: u32 = 0x02002;
    ht.insert(k1, 7);
    ht.insert(k2, 8);
    assert_eq!(ht.exists_key(k1), Some(7));
    assert_eq!(ht.exists_key(k2), Some(8));
}

#[test]
fn gcb_to_extension_bytes() {
    let gcb = GraphicsControlBlock { DisposalMode: 2, UserInputFlag: true, DelayTime: 0x1234, TransparentColor: 5 };
    let mut ext = [0u8; 4];
    egif_gcb_to_extension(&gcb, &mut ext);
    assert_eq!(ext, [0x01 | 0x02 | (2 << 2), 0x34, 0x12, 5]);
    let none = GraphicsControlBlock { DisposalMode: 0, UserInputFlag: false, DelayTime: 10, TransparentColor: -1 };
    egif_gcb_to_extension(&none, &mut ext);
    assert_eq!(ext, [0, 10, 0, 0xff]);
}

#[test]
fn gcb_round_trip() {
    let gcb = GraphicsControlBlock { DisposalMode: 3, UserInputFlag: false, DelayTime: 500, TransparentColor: 200 };
    let mut ext = [0u8; 4];
    egif_gcb_to_extension(&gcb, &mut ext);
    let mut back = GraphicsControlBlock { DisposalMode: 0, UserInputFlag: false, DelayTime: 0, TransparentColor: 0 };
    dgif_extension_to_gcb(&ext, &mut back).unwrap();
    assert_eq!(back, gcb);
}

#[test]
fn gcb_of_wrong_length_is_defect() {
    let mut back = GraphicsControlBlock { DisposalMode: 0, UserInputFlag: false, DelayTime: 0, TransparentColor: 0 };
    assert_eq!(dgif_extension_to_gcb(&[1, 2, 3], &mut back), Err(GifError::DImageDefect));
}

#[test]
fn accessors_change_in_place() {
    let mut m = ColorMapObject::from_slice(&[rgb(1, 2, 3), rgb(4, 5, 6)]).unwrap();
    m.colors_mut()[1] = rgb(7, 8, 9);
    assert_eq!(m.colors(), &[rgb(1, 2, 3), rgb(7, 8, 9)]);
    assert_eq!(m.ColorCount, 2);

    let mut b = ExtensionBlock::new(0xfe, b"abc");
    b.bytes_mut()[0] = b'x';
    assert_eq!(b.bytes(), b"xbc");
    assert_eq!(b.ByteCount, 3);

    let mut d = GifImageDesc::empty();
    d.Width = 2;
    d.Height = 1;
    let mut im = SavedImage::new(d);
    im.RasterBits = vec![0, 0];
    im.raster_bits_mut()[1] = 5;
    assert_eq!(im.raster_bits(), &[0, 5]);
    im.extension_blocks_mut().push(ExtensionBlock::new(1, b"z"));
    assert_eq!(im.extension_blocks().len(), 1);

    let mut g = giflib::encoder::egif_open();
    g.saved_images_mut().push(im);
    g.extension_blocks_mut().push(ExtensionBlock::new(2, b"q"));
    assert_eq!(g.saved_images().len(), 1);
    assert_eq!(g.saved_images()[0].raster_bits(), &[0, 5]);
    assert_eq!(g.extension_blocks()[0].bytes(), b"q");
}

#[test]
fn hash_table_clear_empties_every_slot() {
    let mut ht = GifHashTableType::new();
    assert!(ht.h_table.iter().all(|&s| s == 0xFFFF_FFFF));
    ht.insert(0x12345, 7);
    ht.insert(0x00042, 9);
    assert!(ht.h_table.iter().any(|&s| s != 0xFFFF_FFFF));
    ht.clear();
    assert_eq!(ht.h_table.len(), 8192);
    assert!(ht.h_table.iter().all(|&s| s == 0xFFFF_FFFF));
    assert_eq!(ht.exists_key(0x12345), None);
}

#[test]
fn one_color_map_is_a_power_of_two() {
    let m = ColorMapObject::new(1).unwrap();
    assert_eq!(m.ColorCount, 1);
    assert_eq!(m.BitsPerPixel, 0);
    assert_eq!(1 << m.BitsPerPixel, m.ColorCount);
    assert_eq!(m.colors(), &[rgb(0, 0, 0)]);
    let s = ColorMapObject::from_slice(&[rgb(7, 8, 9)]).unwrap();
    assert_eq!(s.ColorCount, 1);
    assert_eq!(s.BitsPerPixel, 0);
    assert_eq!(s.colors(), &[rgb(7, 8, 9)]);
    assert!(ColorMapObject::from_slice(&[]).is_err());
}

#[test]
fn hash_table_insert_writes_one_slot() {
    let mut ht = GifHashTableType::new();
    ht.insert(0x00000, 7);
    let before = ht.h_table.clone();
    // 0x02002 hashes to the same slot as 0x00000, so it goes to the next one
    ht.insert(0x02002, 8);
    let changed: Vec<usize> = (0..before.len()).filter(|&i| before[i] != ht.h_table[i]).collect();
    assert_eq!(changed.len(), 1);
    assert_eq!(ht.h_table[changed[0]], (0x02002u32 << 12) | 8);
    assert_eq!(before[changed[0]], 0xFFFF_FFFF);
}

#[test]
fn error_messages_differ_but_for_shared_kinds() {
    let all = [
        GifError::DOpenFailed, GifError::DReadFailed, GifError::DNotGifFile, GifError::DNoScreenDesc,
        GifError::DNoImageDesc, GifError::DNoColorMap, GifError::DWrongRecord, GifError::DDataTooBig,
        GifError::DNotEnoughMem, GifError::DCloseFailed, GifError::DNotReadable, GifError::DImageDefect,
        GifError::DEofTooSoon, GifError::EOpenFailed, GifError::EWriteFailed, GifError::EHasScreenDesc,
        GifError::EHasImageDesc, GifError::ENoColorMap, GifError::EDataTooBig, GifError::ENotEnoughMem,
        GifError::EDiskIsFull, GifError::ECloseFailed, GifError::ENotWriteable,
    ];
    let shared = [
        (GifError::DOpenFailed, GifError::EOpenFailed),
        (GifError::DNoColorMap, GifError::ENoColorMap),
        (GifError::DDataTooBig, GifError::EDataTooBig),
        (GifError::DNotEnoughMem, GifError::ENotEnoughMem),
        (GifError::DCloseFailed, GifError::ECloseFailed),
    ];
    for a in all {
        assert!(!a.to_error_string().is_empty());
        for b in all {
            let same = a == b || shared.contains(&(a, b)) || shared.contains(&(b, a));
            assert_eq!(a.to_error_string() == b.to_error_string(), same);
        }
    }
}

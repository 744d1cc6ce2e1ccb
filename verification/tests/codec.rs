use giflib::colormap::{ColorMapObject, GifColorType};
use giflib::decoder::{
    dgif_get_code, dgif_get_extension, dgif_get_extension_next, dgif_get_gif_version, dgif_get_image_desc,
    dgif_get_line, dgif_get_lz_codes, dgif_get_record_type, dgif_open, dgif_saved_extension_to_gcb, dgif_slurp,
};
use giflib::encoder::{
    egif_close_file, egif_gcb_to_saved_extension, egif_get_gif_version, egif_open, egif_put_code,
    egif_put_code_next_bytes, egif_put_comment, egif_put_extension, egif_put_extension_block,
    egif_put_extension_leader, egif_put_extension_trailer, egif_put_image_desc, egif_put_line, egif_put_pixel,
    egif_put_screen_desc, egif_set_gif_version, egif_spew,
};
use giflib::err::GifError;
use giflib::file::GifFileType;
use giflib::gcb::GraphicsControlBlock;
use giflib::types::{GifImageDesc, GifRecordType};

fn rgb(r: u8, g: u8, b: u8) -> GifColorType {
    GifColorType { Red: r, Green: g, Blue: b }
}

fn palette4() -> ColorMapObject {
    ColorMapObject::from_slice(&[rgb(0, 0, 0), rgb(255, 255, 255), rgb(255, 0, 0), rgb(0, 0, 255)]).unwrap()
}

fn encode(width: i32, height: i32, interlace: bool, rows: &[Vec<u8>]) -> Vec<u8> {
    let mut g = egif_open();
    let map = palette4();
    egif_put_screen_desc(&mut g, width, height, 2, 0, Some(&map)).unwrap();
    egif_put_image_desc(&mut g, 0, 0, width, height, interlace, None).unwrap();
    for r in rows {
        let mut line = r.clone();
        egif_put_line(&mut g, &mut line).unwrap();
    }
    egif_close_file(&mut g).unwrap();
    g.take_output()
}

fn decode(bytes: Vec<u8>) -> GifFileType {
    let mut d = dgif_open(bytes).unwrap();
    dgif_slurp(&mut d).unwrap();
    d
}

#[test]
fn header_and_descriptors_are_written_exactly() {
    let bytes = encode(4, 2, false, &[vec![0, 1, 2, 3], vec![3, 2, 1, 0]]);
    assert_eq!(&bytes[0..6], b"GIF87a");
    // screen descriptor: width, height, packed (global map, resolution 2, 4 colors), background, aspect
    assert_eq!(&bytes[6..13], &[4, 0, 2, 0, 0x80 | (1 << 4) | 1, 0, 0]);
    assert_eq!(&bytes[13..25], &[0, 0, 0, 255, 255, 255, 255, 0, 0, 0, 0, 255]);
    // image descriptor without a local map, then the code size
    assert_eq!(&bytes[25..36], &[0x2c, 0, 0, 0, 0, 4, 0, 2, 0, 0, 2]);
    assert_eq!(*bytes.last().unwrap(), 0x3b);
    assert_eq!(bytes[bytes.len() - 2], 0);
}

#[test]
fn lzw_round_trip_small_image() {
    let rows = vec![vec![0, 1, 2, 3], vec![3, 2, 1, 0], vec![1, 1, 1, 1], vec![0, 0, 2, 2]];
    let d = decode(encode(4, 4, false, &rows));
    assert_eq!(d.SWidth, 4);
    assert_eq!(d.SHeight, 4);
    assert_eq!(d.SColorResolution, 2);
    assert_eq!(d.SColorMap.as_ref().unwrap().colors(), palette4().colors());
    assert_eq!(d.SavedImages.len(), 1);
    let expect: Vec<u8> = rows.concat();
    assert_eq!(d.SavedImages[0].RasterBits, expect);
    assert_eq!(d.SavedImages[0].ImageDesc.Width, 4);
    assert_eq!(d.SavedImages[0].ImageDesc.Height, 4);
}

#[test]
fn lzw_round_trip_with_dictionary_resets() {
    // enough varied pixels to fill the 4096-entry dictionary and force clear codes
    let w = 64;
    let h = 200;
    let mut rows = Vec::new();
    let mut x: u32 = 12345;
    for _ in 0..h {
        let mut r = Vec::new();
        for _ in 0..w {
            x = x.wrapping_mul(1103515245).wrapping_add(12345);
            r.push(((x >> 16) & 3) as u8);
        }
        rows.push(r);
    }
    let d = decode(encode(w, h, false, &rows));
    assert_eq!(d.SavedImages[0].RasterBits, rows.concat());
}

#[test]
fn pixels_are_masked_to_the_map_size() {
    let d = decode(encode(2, 1, false, &[vec![5, 255]]));
    assert_eq!(d.SavedImages[0].RasterBits, vec![1, 3]);
}

#[test]
fn pixel_by_pixel_equals_line() {
    let mut g = egif_open();
    let map = palette4();
    egif_put_screen_desc(&mut g, 3, 1, 2, 0, Some(&map)).unwrap();
    egif_put_image_desc(&mut g, 0, 0, 3, 1, false, None).unwrap();
    for p in [2u8, 2, 1] {
        egif_put_pixel(&mut g, p).unwrap();
    }
    assert_eq!(egif_put_pixel(&mut g, 0), Err(GifError::EDataTooBig));
    egif_close_file(&mut g).unwrap();
    let a = g.take_output();
    let b = encode(3, 1, false, &[vec![2, 2, 1]]);
    assert_eq!(a, b);
}

#[test]
fn screen_desc_twice_is_refused() {
    let mut g = egif_open();
    let map = palette4();
    egif_put_screen_desc(&mut g, 1, 1, 1, 0, Some(&map)).unwrap();
    assert_eq!(egif_put_screen_desc(&mut g, 1, 1, 1, 0, Some(&map)), Err(GifError::EHasScreenDesc));
}

#[test]
fn image_without_any_map_is_refused() {
    let mut g = egif_open();
    egif_put_screen_desc(&mut g, 1, 1, 1, 0, None).unwrap();
    assert_eq!(egif_put_image_desc(&mut g, 0, 0, 1, 1, false, None), Err(GifError::ENoColorMap));
}

#[test]
fn line_longer_than_image_is_refused() {
    let mut g = egif_open();
    let map = palette4();
    egif_put_screen_desc(&mut g, 2, 1, 2, 0, Some(&map)).unwrap();
    egif_put_image_desc(&mut g, 0, 0, 2, 1, false, None).unwrap();
    let mut line = vec![0u8, 1, 2];
    assert_eq!(egif_put_line(&mut g, &mut line), Err(GifError::EDataTooBig));
}

#[test]
fn image_still_owing_many_pixels_is_refused() {
    let mut g = egif_open();
    let map = palette4();
    egif_put_screen_desc(&mut g, 1, 1, 2, 0, Some(&map)).unwrap();
    egif_put_image_desc(&mut g, 0, 0, 65536, 65536, false, None).unwrap();
    assert_eq!(egif_put_image_desc(&mut g, 0, 0, 1, 1, false, None), Err(GifError::EHasImageDesc));
}

#[test]
fn writing_to_a_reader_is_refused() {
    let bytes = encode(1, 1, false, &[vec![0]]);
    let mut d = dgif_open(bytes).unwrap();
    let map = palette4();
    assert_eq!(egif_put_screen_desc(&mut d, 1, 1, 1, 0, Some(&map)), Err(GifError::ENotWriteable));
    assert_eq!(egif_put_image_desc(&mut d, 0, 0, 1, 1, false, None), Err(GifError::ENotWriteable));
    assert_eq!(egif_put_comment(&mut d, b"x"), Err(GifError::ENotWriteable));
    assert_eq!(egif_close_file(&mut d), Err(GifError::ENotWriteable));
    assert_eq!(egif_put_code_next_bytes(&mut d, None), Err(GifError::EWriteFailed));
}

#[test]
fn reading_from_a_writer_is_refused() {
    let mut g = egif_open();
    let mut line = [0u8; 1];
    assert_eq!(dgif_get_line(&mut g, &mut line), Err(GifError::DNotReadable));
    assert_eq!(dgif_get_record_type(&mut g), Err(GifError::DNotReadable));
}

#[test]
fn decoder_rejects_bad_streams() {
    assert!(matches!(dgif_open(vec![0x47, 0x49]), Err(GifError::DReadFailed)));
    assert!(matches!(dgif_open(b"PNG89a0000000".to_vec()), Err(GifError::DNotGifFile)));
    assert!(matches!(dgif_open(b"GIF89a\x01\x00".to_vec()), Err(GifError::DNoScreenDesc)));
}

#[test]
fn decoded_line_longer_than_image_is_refused() {
    let bytes = encode(2, 1, false, &[vec![1, 2]]);
    let mut d = dgif_open(bytes).unwrap();
    assert_eq!(dgif_get_record_type(&mut d), Ok(GifRecordType::IMAGE_DESC_RECORD_TYPE));
    dgif_get_image_desc(&mut d).unwrap();
    let mut line = [0u8; 3];
    assert_eq!(dgif_get_line(&mut d, &mut line), Err(GifError::DDataTooBig));
    let mut line = [0u8; 2];
    dgif_get_line(&mut d, &mut line).unwrap();
    assert_eq!(line, [1, 2]);
}

#[test]
fn interlaced_round_trip() {
    let h = 10;
    let w = 3;
    let rows: Vec<Vec<u8>> = (0..h).map(|j| vec![(j % 4) as u8; w]).collect();
    // rows are handed in interlaced order: 0,8 / 4 / 2,6 / 1,3,5,7,9
    let order = [0usize, 8, 4, 2, 6, 1, 3, 5, 7, 9];
    let handed: Vec<Vec<u8>> = order.iter().map(|&j| rows[j].clone()).collect();
    let d = decode(encode(w as i32, h as i32, true, &handed));
    assert!(d.SavedImages[0].ImageDesc.Interlace);
    assert_eq!(d.SavedImages[0].RasterBits, rows.concat());
}

#[test]
fn version_follows_extensions() {
    let mut g = egif_open();
    assert_eq!(egif_get_gif_version(&mut g), "GIF87a");
    egif_set_gif_version(&mut g, true);
    assert_eq!(egif_get_gif_version(&mut g), "GIF89a");
    let mut g = egif_open();
    let i = g.make_saved_image(None);
    giflib::types::add_extension_block(&mut g.SavedImages[i].ExtensionBlocks, 0xfe, b"c");
    assert_eq!(egif_get_gif_version(&mut g), "GIF89a");
    let map = palette4();
    egif_put_screen_desc(&mut g, 1, 1, 1, 0, Some(&map)).unwrap();
    let out = g.take_output();
    assert_eq!(&out[0..6], b"GIF89a");
}

#[test]
fn extension_writers_emit_exact_bytes() {
    let mut g = egif_open();
    egif_put_extension_leader(&mut g, 0xff).unwrap();
    egif_put_extension_block(&mut g, b"NETSCAPE2.0").unwrap();
    egif_put_extension_block(&mut g, &[1, 0, 0]).unwrap();
    egif_put_extension_trailer(&mut g).unwrap();
    egif_put_extension(&mut g, 0xf9, &[0, 10, 0, 0]).unwrap();
    egif_put_extension(&mut g, 0, &[7]).unwrap();
    let mut expect = vec![0x21, 0xff, 11];
    expect.extend_from_slice(b"NETSCAPE2.0");
    expect.extend_from_slice(&[3, 1, 0, 0, 0]);
    expect.extend_from_slice(&[0x21, 0xf9, 4, 0, 10, 0, 0, 0]);
    expect.extend_from_slice(&[1, 7, 0]);
    assert_eq!(g.take_output(), expect);
}

#[test]
fn long_comment_is_cut_into_sub_blocks() {
    let comment: Vec<u8> = (0..300u32).map(|i| (i % 251) as u8).collect();
    let mut g = egif_open();
    egif_put_comment(&mut g, &comment).unwrap();
    let out = g.take_output();
    assert_eq!(&out[0..3], &[0x21, 0xfe, 255]);
    assert_eq!(&out[3..258], &comment[0..255]);
    assert_eq!(out[258], 45);
    assert_eq!(&out[259..304], &comment[255..300]);
    assert_eq!(out[304], 0);
    assert_eq!(out.len(), 305);
}

#[test]
fn short_comment_is_one_extension() {
    let mut g = egif_open();
    egif_put_comment(&mut g, b"hello").unwrap();
    assert_eq!(g.take_output(), vec![0x21, 0xfe, 5, b'h', b'e', b'l', b'l', b'o', 0]);
}

#[test]
fn comment_reads_back() {
    let comment: Vec<u8> = (0..600u32).map(|i| (i % 7) as u8 + 65).collect();
    let mut g = egif_open();
    let map = palette4();
    egif_put_screen_desc(&mut g, 1, 1, 2, 0, Some(&map)).unwrap();
    egif_put_comment(&mut g, &comment).unwrap();
    egif_close_file(&mut g).unwrap();
    let mut d = dgif_open(g.take_output()).unwrap();
    assert_eq!(dgif_get_record_type(&mut d), Ok(GifRecordType::EXTENSION_RECORD_TYPE));
    let mut code = 0;
    let mut got = Vec::new();
    let mut more = dgif_get_extension(&mut d, &mut code).unwrap();
    assert_eq!(code, 0xfe);
    while more {
        let buf = &d.Private.lzw.buf;
        let n = buf[0] as usize;
        got.extend_from_slice(&buf[1..1 + n]);
        more = dgif_get_extension_next(&mut d).unwrap();
    }
    assert_eq!(got, comment);
}

#[test]
fn raw_code_blocks_pass_through() {
    let mut g = egif_open();
    egif_put_code(&mut g, &[3, 9, 8, 7, 99]).unwrap();
    egif_put_code_next_bytes(&mut g, Some(&[1, 5])).unwrap();
    egif_put_code_next_bytes(&mut g, None).unwrap();
    assert_eq!(g.take_output(), vec![3, 9, 8, 7, 1, 5, 0]);
    assert_eq!(g.Private.pixel_count, 0);
}

#[test]
fn raw_code_size_reads_back() {
    let bytes = encode(2, 1, false, &[vec![1, 2]]);
    let mut d = dgif_open(bytes).unwrap();
    dgif_get_record_type(&mut d).unwrap();
    dgif_get_image_desc(&mut d).unwrap();
    let mut cs = 0;
    assert!(dgif_get_code(&mut d, &mut cs).unwrap());
    assert_eq!(cs, 2);
}

#[test]
fn graphics_control_block_is_stored_and_read() {
    let mut g = egif_open();
    let i = g.make_saved_image(None) as i32;
    let gcb = GraphicsControlBlock { DisposalMode: 1, UserInputFlag: false, DelayTime: 20, TransparentColor: 3 };
    egif_gcb_to_saved_extension(&gcb, &mut g, i).unwrap();
    assert_eq!(g.SavedImages[0].ExtensionBlocks.len(), 1);
    let mut back = GraphicsControlBlock { DisposalMode: 0, UserInputFlag: true, DelayTime: 0, TransparentColor: 0 };
    dgif_saved_extension_to_gcb(&g, i, &mut back).unwrap();
    assert_eq!(back, gcb);
    let gcb2 = GraphicsControlBlock { DisposalMode: 2, UserInputFlag: true, DelayTime: 7, TransparentColor: -1 };
    egif_gcb_to_saved_extension(&gcb2, &mut g, i).unwrap();
    assert_eq!(g.SavedImages[0].ExtensionBlocks.len(), 1);
    dgif_saved_extension_to_gcb(&g, i, &mut back).unwrap();
    assert_eq!(back, gcb2);
    assert_eq!(egif_gcb_to_saved_extension(&gcb, &mut g, 5), Err(GifError::ENotWriteable));
    assert_eq!(dgif_saved_extension_to_gcb(&g, 5, &mut back), Err(GifError::DNoImageDesc));
}

fn in_core_gif() -> GifFileType {
    let mut g = egif_open();
    g.SWidth = 3;
    g.SHeight = 2;
    g.SColorResolution = 2;
    g.SColorMap = Some(palette4());
    let i = g.make_saved_image(None);
    let mut d = GifImageDesc::empty();
    d.Width = 3;
    d.Height = 2;
    g.SavedImages[i].ImageDesc = d;
    g.SavedImages[i].RasterBits = vec![0, 1, 2, 3, 2, 1];
    giflib::types::add_extension_block(&mut g.SavedImages[i].ExtensionBlocks, 0xfe, b"img");
    let j = g.make_saved_image(None);
    let mut d = GifImageDesc::empty();
    d.Width = 2;
    d.Height = 2;
    d.Interlace = true;
    g.SavedImages[j].ImageDesc = d;
    g.SavedImages[j].RasterBits = vec![3, 3, 0, 1];
    g.make_saved_image(None);
    giflib::types::add_extension_block(&mut g.ExtensionBlocks, 0xfe, b"end");
    g
}

#[test]
fn spew_writes_a_gif_that_reads_back() {
    let mut g = in_core_gif();
    egif_spew(&mut g).unwrap();
    egif_close_file(&mut g).unwrap();
    let bytes = g.take_output();
    assert_eq!(&bytes[0..6], b"GIF89a");
    let d = decode(bytes);
    assert_eq!(d.SWidth, 3);
    assert_eq!(d.SavedImages.len(), 2);
    assert_eq!(d.SavedImages[0].RasterBits, vec![0, 1, 2, 3, 2, 1]);
    assert_eq!(d.SavedImages[0].ExtensionBlocks.len(), 1);
    assert_eq!(d.SavedImages[0].ExtensionBlocks[0].bytes(), b"img");
    assert_eq!(d.SavedImages[1].RasterBits, vec![3, 3, 0, 1]);
    assert_eq!(d.ExtensionBlocks.len(), 1);
    assert_eq!(d.ExtensionBlocks[0].bytes(), b"end");
}

#[test]
fn spew_refuses_image_without_map() {
    let mut g = in_core_gif();
    g.SColorMap = None;
    assert_eq!(egif_spew(&mut g), Err(GifError::ENoColorMap));
}

#[test]
fn spew_twice_is_refused() {
    let mut g = in_core_gif();
    egif_spew(&mut g).unwrap();
    assert_eq!(egif_spew(&mut g), Err(GifError::EHasScreenDesc));
}

#[test]
fn decoded_version_and_slurp_of_two_images() {
    let mut g = egif_open();
    let map = palette4();
    egif_set_gif_version(&mut g, true);
    egif_put_screen_desc(&mut g, 2, 2, 2, 0, Some(&map)).unwrap();
    egif_put_image_desc(&mut g, 0, 0, 2, 1, false, None).unwrap();
    egif_put_line(&mut g, &mut [1, 2]).unwrap();
    egif_put_image_desc(&mut g, 0, 1, 2, 1, false, Some(&map)).unwrap();
    egif_put_line(&mut g, &mut [3, 0]).unwrap();
    egif_close_file(&mut g).unwrap();
    let d = decode(g.take_output());
    assert_eq!(dgif_get_gif_version(&d), "GIF89a");
    assert_eq!(d.SavedImages.len(), 2);
    assert_eq!(d.SavedImages[1].ImageDesc.Top, 1);
    assert!(d.SavedImages[1].ImageDesc.ColorMap.is_some());
    assert_eq!(d.SavedImages[1].RasterBits, vec![3, 0]);
}

#[test]
fn spew_refuses_a_pixel_count_beyond_a_word() {
    let mut g = in_core_gif();
    g.SavedImages[1].ImageDesc.Height = -1;
    assert_eq!(egif_spew(&mut g), Err(GifError::EDataTooBig));
}

#[test]
fn spew_after_an_image_owing_pixels_is_refused() {
    // One column and a negative height: the image is set up owing a pixel
    // count of a machine word, and the next image with a raster is refused.
    let mut g = in_core_gif();
    g.SavedImages[0].ImageDesc.Width = 1;
    g.SavedImages[0].ImageDesc.Height = -1;
    assert_eq!(egif_spew(&mut g), Err(GifError::EHasImageDesc));
}

#[test]
fn spew_writes_an_image_without_columns_and_rows() {
    let mut g = in_core_gif();
    g.SavedImages[1].ImageDesc.Width = 0;
    g.SavedImages[1].ImageDesc.Height = -3;
    assert_eq!(egif_spew(&mut g), Ok(()));
}

#[test]
fn codes_of_one_width_are_read_back() {
    // Two pixels 1, 2 of 2-bit colors: the compressor packs the clear code
    // 4, the codes 1 and 2 and the end code 5, 3 bits each, lowest first;
    // the code reader gives them back (the end code as -1).
    let bytes = encode(2, 1, false, &[vec![1, 2]]);
    // 4 | 1 << 3 | (2 & 3) << 6 = 0x8c, then 2 >> 2 | 5 << 1 = 0x0a
    assert_eq!(&bytes[36..40], &[2, 0x8c, 0x0a, 0]);
    let mut d = dgif_open(bytes).unwrap();
    assert_eq!(dgif_get_record_type(&mut d), Ok(GifRecordType::IMAGE_DESC_RECORD_TYPE));
    dgif_get_image_desc(&mut d).unwrap();
    let mut codes = Vec::new();
    loop {
        let mut c = 0;
        dgif_get_lz_codes(&mut d, &mut c).unwrap();
        codes.push(c);
        if c == -1 {
            break;
        }
    }
    assert_eq!(codes, vec![4, 1, 2, -1]);
}

#[test]
fn slurp_splits_extension_into_sub_block_records() {
    let comment: Vec<u8> = (0..600u32).map(|i| (i % 13) as u8 + 97).collect();
    let mut g = egif_open();
    let map = palette4();
    egif_put_screen_desc(&mut g, 2, 1, 2, 0, Some(&map)).unwrap();
    egif_put_comment(&mut g, &comment).unwrap();
    egif_put_image_desc(&mut g, 0, 0, 2, 1, false, None).unwrap();
    let mut line = vec![1u8, 2];
    egif_put_line(&mut g, &mut line).unwrap();
    egif_close_file(&mut g).unwrap();
    let d = decode(g.take_output());
    let blocks = &d.SavedImages[0].ExtensionBlocks;
    assert_eq!(blocks.len(), 3);
    assert_eq!(blocks[0].Function, 0xfe);
    assert_eq!(blocks[0].Bytes, comment[0..255].to_vec());
    assert_eq!(blocks[1].Function, 0);
    assert_eq!(blocks[1].Bytes, comment[255..510].to_vec());
    assert_eq!(blocks[2].Function, 0);
    assert_eq!(blocks[2].ByteCount, 90);
    assert_eq!(blocks[2].Bytes, comment[510..600].to_vec());
    assert_eq!(d.SavedImages[0].RasterBits, vec![1, 2]);
}

#[test]
fn slurp_fails_on_cut_short_extension() {
    let mut g = egif_open();
    let map = palette4();
    egif_put_screen_desc(&mut g, 1, 1, 2, 0, Some(&map)).unwrap();
    egif_put_comment(&mut g, b"hello world").unwrap();
    let mut bytes = g.take_output();
    // drop the terminating empty sub-block and two data bytes
    bytes.truncate(bytes.len() - 3);
    let mut d = dgif_open(bytes).unwrap();
    assert_eq!(dgif_slurp(&mut d), Err(GifError::DReadFailed));
}

#[test]
fn slurp_fails_on_cut_short_interlaced_image() {
    let h = 10;
    let w = 3;
    let rows: Vec<Vec<u8>> = (0..h).map(|j| vec![(j % 4) as u8; w]).collect();
    let mut bytes = encode(w as i32, h as i32, true, &rows);
    // keep the descriptors and the code size, drop all image data
    let keep = 13 + 12 + 11;
    bytes.truncate(keep);
    let mut d = dgif_open(bytes).unwrap();
    assert!(dgif_slurp(&mut d).is_err());
}

fn screen_only(extra: &[u8]) -> Vec<u8> {
    let mut b = b"GIF89a".to_vec();
    b.extend_from_slice(&[1, 0, 1, 0, 0x00, 0, 0]);
    b.extend_from_slice(extra);
    b
}

#[test]
fn slurp_refuses_image_of_zero_width_and_keeps_no_image() {
    let bytes = screen_only(&[0x2c, 0, 0, 0, 0, 0, 0, 1, 0, 0x00, 2, 2, 0x4c, 0x01, 0, 0x3b]);
    let mut d = dgif_open(bytes).unwrap();
    assert_eq!(dgif_slurp(&mut d), Err(GifError::DDataTooBig));
    assert_eq!(d.SavedImages.len(), 0);
}

#[test]
fn slurp_without_image_reports_no_image_desc() {
    let mut d = dgif_open(screen_only(&[0x3b])).unwrap();
    assert_eq!(dgif_slurp(&mut d), Err(GifError::DNoImageDesc));
    let mut d = dgif_open(screen_only(&[0x21, 0xfe, 2, 7, 8, 0, 0x3b])).unwrap();
    assert_eq!(dgif_slurp(&mut d), Err(GifError::DNoImageDesc));
    assert_eq!(d.ExtensionBlocks.len(), 1);
    assert_eq!(d.ExtensionBlocks[0].Function, 0xfe);
    assert_eq!(d.ExtensionBlocks[0].Bytes, vec![7, 8]);
}

#[test]
fn slurp_reports_wrong_record() {
    let mut d = dgif_open(screen_only(&[0x99])).unwrap();
    assert_eq!(dgif_slurp(&mut d), Err(GifError::DWrongRecord));
}

#[test]
fn last_line_consumes_the_image_terminator() {
    let bytes = encode(2, 1, false, &[vec![1, 2]]);
    let mut d = dgif_open(bytes).unwrap();
    assert_eq!(dgif_get_record_type(&mut d), Ok(GifRecordType::IMAGE_DESC_RECORD_TYPE));
    dgif_get_image_desc(&mut d).unwrap();
    let mut line = [0u8; 2];
    dgif_get_line(&mut d, &mut line).unwrap();
    assert_eq!(line, [1, 2]);
    assert_eq!(d.Private.pixel_count, 0);
    assert_eq!(dgif_get_record_type(&mut d), Ok(GifRecordType::TERMINATE_RECORD_TYPE));
}

#[test]
fn cut_short_global_table_clears_the_color_map() {
    let mut b = b"GIF89a".to_vec();
    b.extend_from_slice(&[1, 0, 1, 0, 0x80, 0, 0, 10, 20, 30, 40, 50, 60]);
    b.extend_from_slice(&[5, 0, 6, 0, 0x81, 3, 0, 1, 2, 3, 4]);
    let mut d = dgif_open(b).unwrap();
    assert!(d.SColorMap.is_some());
    assert_eq!(giflib::decoder::dgif_get_screen_desc(&mut d), Err(GifError::DReadFailed));
    assert!(d.SColorMap.is_none());
    assert_eq!(d.SWidth, 5);
    assert_eq!(d.SHeight, 6);
    assert_eq!(d.SBackGroundColor, 3);
}

#[test]
fn spew_keeps_the_in_core_gif() {
    let mut g = in_core_gif();
    let colors = g.SColorMap.as_ref().unwrap().colors().to_vec();
    egif_spew(&mut g).unwrap();
    assert_eq!(g.SColorMap.as_ref().unwrap().colors(), &colors[..]);
    assert_eq!(g.SWidth, 3);
    assert_eq!(g.SavedImages.len(), 3);
    assert_eq!(g.SavedImages[0].RasterBits, vec![0, 1, 2, 3, 2, 1]);
    assert_eq!(g.SavedImages[1].RasterBits, vec![3, 3, 0, 1]);
    assert_eq!(g.ExtensionBlocks.len(), 1);
}

#[test]
fn spew_skips_images_without_raster() {
    let mut with_empty = in_core_gif();
    let extra = with_empty.make_saved_image(None);
    assert_eq!(extra, 3);
    let mut plain = in_core_gif();
    plain.SavedImages.retain(|im| !im.RasterBits.is_empty());
    assert_eq!(plain.SavedImages.len(), 2);
    egif_spew(&mut with_empty).unwrap();
    egif_spew(&mut plain).unwrap();
    assert_eq!(with_empty.take_output(), plain.take_output());
}

#[test]
fn failed_line_leaves_buffer_alone() {
    let bytes = encode(2, 1, false, &[vec![1, 2]]);
    let mut d = dgif_open(bytes).unwrap();
    dgif_get_record_type(&mut d).unwrap();
    dgif_get_image_desc(&mut d).unwrap();
    let mut line = [9u8, 9, 9];
    assert_eq!(dgif_get_line(&mut d, &mut line), Err(GifError::DDataTooBig));
    assert_eq!(line, [9, 9, 9]);
    assert_eq!(d.Private.pixel_count, 2);
}

fn image_data_cut(keep_data: usize, terminate: bool) -> Vec<u8> {
    let w = 8;
    let h = 8;
    let rows: Vec<Vec<u8>> = (0..h).map(|j| (0..w).map(|i| ((i * 7 + j * 3) % 4) as u8).collect()).collect();
    let bytes = encode(w as i32, h as i32, false, &rows);
    // header (13), global table (12), descriptor (10), code size (1), then the first sub-block
    let start = 13 + 12 + 10 + 1;
    let mut out = bytes[..start].to_vec();
    let n = keep_data.min(bytes[start] as usize);
    out.push(n as u8);
    out.extend_from_slice(&bytes[start + 1..start + 1 + n]);
    if terminate {
        out.push(0);
        out.push(0x3b);
    }
    out
}

#[test]
fn image_data_ended_early_is_a_defect() {
    let mut d = dgif_open(image_data_cut(2, true)).unwrap();
    assert_eq!(dgif_slurp(&mut d), Err(GifError::DImageDefect));
    assert_eq!(d.SavedImages.len(), 0);
}

#[test]
fn image_data_cut_short_is_a_read_failure() {
    let mut d = dgif_open(image_data_cut(2, false)).unwrap();
    assert_eq!(dgif_slurp(&mut d), Err(GifError::DReadFailed));
}

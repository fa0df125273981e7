use steganography::writer::ConstBytesWriter;
use steganography::error::Error;
use steganography::msg::{Msg, MsgType};
use steganography::png::algo::{DeltaHider, DeltaRevealer};
use steganography::png::img::{Img, ImgPaths};
use steganography::png::less_sign::{LessSignHider, LessSignRevealer};

fn img(w: u32, h: u32, seed: u32) -> Img {
    let n = (w * h * 3) as usize;
    let mut chans = Vec::with_capacity(n);
    let mut x = seed;
    for _ in 0..n {
        x = x.wrapping_mul(1_103_515_245).wrapping_add(12_345);
        chans.push((x >> 16) as u8);
    }
    Img { width: w, height: h, chans, path: format!("img{seed}.png") }
}

fn gray_img(w: u32, h: u32, level: u8) -> Img {
    let n = (w * h * 3) as usize;
    Img { width: w, height: h, chans: vec![level; n], path: "gray.png".to_owned() }
}

#[test]
fn delta_roundtrip_over_two_images() {
    let msg = b"hidden in the deltas".to_vec();
    // 25 header and message bytes: 200, 100, 75 and 50 channels for 1 to 4 bits.
    for (bits, images) in [(1u8, 2usize), (2, 2), (3, 1), (4, 1)] {
        let initial = vec![img(5, 5, 1), img(20, 20, 2)];
        let mut modified = initial.clone();
        let hider = DeltaHider {
            msg: msg.clone(),
            initial_img: vec![],
            modified_img: ImgPaths::new_empty(),
            bits,
            ty: MsgType::Txt,
        };
        let used = hider.hide_msg(&mut modified).unwrap();
        assert_eq!(used, images);
        let revealer = DeltaRevealer { initial_img: vec![], modified_img: vec![], save_path: None, bits };
        let (got, ty) = revealer.reveal_msg(&initial, &modified).unwrap();
        assert_eq!(got, msg);
        assert_eq!(ty, MsgType::Txt);
    }
}

#[test]
fn delta_too_small_initial() {
    let mut imgs = vec![img(2, 2, 3)];
    let hider = DeltaHider {
        msg: vec![7u8; 100],
        initial_img: vec![],
        modified_img: ImgPaths::new_empty(),
        bits: 2,
        ty: MsgType::File,
    };
    assert!(matches!(hider.hide_msg(&mut imgs), Err(Error::NotEnoughSizeOfInit(_))));
}

#[test]
fn delta_inconsistent_sizes() {
    let a = vec![img(2, 2, 3)];
    let b = vec![img(3, 2, 3)];
    let revealer = DeltaRevealer { initial_img: vec![], modified_img: vec![], save_path: None, bits: 1 };
    assert_eq!(revealer.reveal_msg(&a, &b), Err(Error::ImageInconsistentSize(2, 2, 3, 2)));
}

#[test]
fn delta_unchanged_images_reveal_nothing() {
    let a = vec![img(4, 4, 9)];
    let revealer = DeltaRevealer { initial_img: vec![], modified_img: vec![], save_path: None, bits: 1 };
    // All deltas zero: the type byte read is 0, which names no kind.
    assert_eq!(revealer.reveal_msg(&a, &a.clone()), Err(Error::InvalidMsgTypeByte(0)));
}

#[test]
fn less_sign_roundtrip_colour() {
    let msg = b"least significant".to_vec();
    for bits in 1..=4u8 {
        let mut imgs = vec![img(3, 3, 4), img(16, 16, 5)];
        let hider = LessSignHider {
            msg: msg.clone(),
            ty: MsgType::File,
            initial_img: vec![],
            modified_img: ImgPaths::new_empty(),
            bits,
            gray: false,
        };
        let used = hider.hide_msg(&mut imgs).unwrap();
        assert_eq!(used, 2);
        let revealer = LessSignRevealer { modified_img: vec![], save_path: None };
        let (got, ty) = revealer.reveal_msg(&imgs).unwrap();
        assert_eq!(got, msg);
        assert_eq!(ty, MsgType::File);
    }
}

#[test]
fn less_sign_roundtrip_gray() {
    let msg = b"gray".to_vec();
    let mut imgs = vec![img(20, 20, 6)];
    let hider = LessSignHider {
        msg: msg.clone(),
        ty: MsgType::Txt,
        initial_img: vec![],
        modified_img: ImgPaths::new_empty(),
        bits: 2,
        gray: true,
    };
    assert_eq!(hider.hide_msg(&mut imgs), Ok(1));
    for p in imgs[0].chans.chunks(3) {
        assert!(p[0] == p[1] && p[1] == p[2]);
    }
    let revealer = LessSignRevealer { modified_img: vec![], save_path: None };
    assert_eq!(revealer.reveal_msg(&imgs), Ok((msg, MsgType::Txt)));
}

#[test]
fn less_sign_header_random_bits_set_the_mode() {
    let hider = LessSignHider {
        msg: vec![1, 2, 3],
        ty: MsgType::Txt,
        initial_img: vec![],
        modified_img: ImgPaths::new_empty(),
        bits: 1,
        gray: false,
    };
    // Lowest bit forced to 1 for colour mode: every red channel of the first pixel is odd.
    let mut imgs = vec![img(30, 30, 7)];
    hider.hide_msg_seeded(0, &mut imgs).unwrap();
    assert_eq!(imgs[0].chans[0] & 1, 1);
}

#[test]
fn less_sign_not_enough_room() {
    let mut imgs = vec![img(2, 2, 8)];
    let hider = LessSignHider {
        msg: vec![0u8; 50],
        ty: MsgType::Txt,
        initial_img: vec![],
        modified_img: ImgPaths::new_empty(),
        bits: 1,
        gray: false,
    };
    assert!(matches!(hider.hide_msg(&mut imgs), Err(Error::NotEnoughSizeOfInit(_))));
}

#[test]
fn less_sign_gray_claim_on_colour_pixel() {
    let mut i = img(4, 4, 10);
    i.chans[0] = 2;
    i.chans[1] = 3;
    let revealer = LessSignRevealer { modified_img: vec![], save_path: None };
    match revealer.reveal_msg(&vec![i]) {
        Err(Error::Other(s)) => assert_eq!(s, "The header says that picture is grayscaled but it doesn't"),
        r => panic!("unexpected {r:?}"),
    }
}

#[test]
fn less_sign_no_pixels_means_no_header() {
    let empty = Img { width: 0, height: 0, chans: vec![], path: String::new() };
    let revealer = LessSignRevealer { modified_img: vec![], save_path: None };
    assert_eq!(revealer.reveal_msg(&vec![empty]), Err(Error::UnreadedHeader));
    assert_eq!(revealer.reveal_msg(&vec![gray_img(2, 2, 1)]), Err(Error::UnreadedHeader));
}

#[test]
fn modified_path_rules() {
    let given = ImgPaths::new(vec!["out0.png".to_owned()]);
    assert_eq!(given.modified_path(0, "a/b.png"), Ok("out0.png".to_owned()));
    assert_eq!(given.modified_path(1, "a/b.png"), Ok("a/b_mod.png".to_owned()));
    assert_eq!(given.modified_path(1, "a/b.jpg"), Ok("a/b.jpg_mod.png".to_owned()));
    assert_eq!(given.modified_path(1, "a/.."), Err(Error::PathIsNotAFile("a/..".to_owned())));
    assert!(ImgPaths::new_empty().is_empty());
    assert!(!ImgPaths::new_any(Some(vec!["x".to_owned()])).is_empty());
}

#[test]
fn msg_into_pair_and_types() {
    let (b, t) = Msg::Txt("hi".to_owned()).into_pair(vec![]);
    assert_eq!((b, t), (b"hi".to_vec(), MsgType::Txt));
    let (b, t) = Msg::File("f".to_owned()).into_pair(vec![9, 8]);
    assert_eq!((b, t), (vec![9, 8], MsgType::File));
    assert_eq!(MsgType::try_from_u8(2), Some(MsgType::File));
    assert_eq!(MsgType::try_from_u8(3), None);
    assert_eq!(MsgType::Reserved.to_u8(), 255);
    assert!(MsgType::ReservedPre.is_reserved());
    assert_eq!(Error::test_too_big_msg(5), Ok(()));
}

use steganography::png::avg_sum::{AvgSumHider, AvgSumRevealer};

#[test]
fn avg_sum_roundtrip() {
    let msg = b"sums of chunks".to_vec();
    for (bits, chunk) in [(1u8, 2u8), (2, 4), (3, 8), (6, 64)] {
        let mut imgs = vec![img(64, 64, 11)];
        let hider = AvgSumHider {
            msg: msg.clone(),
            ty: MsgType::Txt,
            initial_img: vec![],
            modified_img: ImgPaths::new_empty(),
            bits_per_chunk: bits,
            chunk_size: chunk,
        };
        assert_eq!(hider.hide_msg(&mut imgs), Ok(1));
        let revealer = AvgSumRevealer { modified_img: vec![], save_path: None };
        assert_eq!(revealer.reveal_msg(&imgs), Ok((msg.clone(), MsgType::Txt)));
    }
}

#[test]
fn avg_sum_moves_channels_a_little() {
    let orig = img(32, 32, 12);
    let mut imgs = vec![orig.clone()];
    let hider = AvgSumHider {
        msg: b"x".to_vec(),
        ty: MsgType::File,
        initial_img: vec![],
        modified_img: ImgPaths::new_empty(),
        bits_per_chunk: 2,
        chunk_size: 8,
    };
    hider.hide_msg(&mut imgs).unwrap();
    for (a, b) in orig.chans.iter().zip(imgs[0].chans.iter()) {
        assert!((*a as i32 - *b as i32).abs() <= 4);
    }
}

#[test]
fn avg_sum_not_enough_room() {
    let mut imgs = vec![img(3, 3, 13)];
    let hider = AvgSumHider {
        msg: vec![5u8; 40],
        ty: MsgType::Txt,
        initial_img: vec![],
        modified_img: ImgPaths::new_empty(),
        bits_per_chunk: 1,
        chunk_size: 4,
    };
    assert!(matches!(hider.hide_msg(&mut imgs), Err(Error::NotEnoughSizeOfInit(_))));
}

#[test]
fn avg_sum_header_bytes() {
    let hider = AvgSumHider {
        msg: vec![0u8; 258],
        ty: MsgType::File,
        initial_img: vec![],
        modified_img: ImgPaths::new_empty(),
        bits_per_chunk: 3,
        chunk_size: 16,
    };
    assert!(hider.header_writer().is_ok());
    // A single all-zero image: every chunk sum is 0, so the type byte read is 0.
    let zero = Img { width: 8, height: 8, chans: vec![0; 192], path: String::new() };
    let revealer = AvgSumRevealer { modified_img: vec![], save_path: None };
    assert_eq!(revealer.reveal_msg(&vec![zero]), Err(Error::InvalidMsgTypeByte(0)));
}

#[test]
fn avg_sum_too_few_channels_for_header() {
    let revealer = AvgSumRevealer { modified_img: vec![], save_path: None };
    assert_eq!(revealer.reveal_msg(&vec![img(2, 2, 14)]), Err(Error::UnreadedHeader));
}

#[test]
fn avg_sum_roundtrip_over_several_images() {
    let msg = b"spread over images".to_vec();
    // 27 channels: 3 header chunks of 8; 48 channels: 6 more; the third image the rest
    let mut imgs = vec![img(3, 3, 21), img(4, 4, 22), img(30, 30, 23)];
    let hider = AvgSumHider {
        msg: msg.clone(),
        ty: MsgType::File,
        initial_img: vec![],
        modified_img: ImgPaths::new_empty(),
        bits_per_chunk: 2,
        chunk_size: 4,
    };
    assert_eq!(hider.hide_msg(&mut imgs), Ok(3));
    let revealer = AvgSumRevealer { modified_img: vec![], save_path: None };
    assert_eq!(revealer.reveal_msg(&imgs), Ok((msg, MsgType::File)));
}

#[test]
fn avg_sum_message_chunk_left_for_the_next_image() {
    let msg = b"ab".to_vec();
    // 112 header channels and 10 channels more: two chunks of 4 and 2 channels over, so the
    // next message chunk goes to the second image
    let first = Img { width: 1, height: 1, chans: vec![100; 122], path: "a.png".to_owned() };
    let mut imgs = vec![first, img(10, 10, 24)];
    let hider = AvgSumHider {
        msg: msg.clone(),
        ty: MsgType::Txt,
        initial_img: vec![],
        modified_img: ImgPaths::new_empty(),
        bits_per_chunk: 3,
        chunk_size: 4,
    };
    assert_eq!(hider.hide_msg(&mut imgs), Ok(2));
    assert_eq!(&imgs[0].chans[120..], &[100, 100]);
    let revealer = AvgSumRevealer { modified_img: vec![], save_path: None };
    assert_eq!(revealer.reveal_msg(&imgs), Ok((msg, MsgType::Txt)));
}

#[test]
fn avg_sum_empty_message_roundtrip() {
    let mut imgs = vec![img(16, 16, 25)];
    let hider = AvgSumHider {
        msg: vec![],
        ty: MsgType::File,
        initial_img: vec![],
        modified_img: ImgPaths::new_empty(),
        bits_per_chunk: 1,
        chunk_size: 2,
    };
    assert_eq!(hider.hide_msg(&mut imgs), Ok(1));
    let revealer = AvgSumRevealer { modified_img: vec![], save_path: None };
    assert_eq!(revealer.reveal_msg(&imgs), Ok((vec![], MsgType::File)));
}

#[test]
fn avg_sum_not_enough_room_counts_bytes_left() {
    // 112 header channels, then 10 message chunks of 2: one whole byte of three and two bits
    let only = Img { width: 1, height: 1, chans: vec![60; 133], path: "a.png".to_owned() };
    let mut imgs = vec![only];
    let hider = AvgSumHider {
        msg: vec![1, 2, 3],
        ty: MsgType::Txt,
        initial_img: vec![],
        modified_img: ImgPaths::new_empty(),
        bits_per_chunk: 1,
        chunk_size: 2,
    };
    assert_eq!(hider.hide_msg(&mut imgs), Err(Error::NotEnoughSizeOfInit(2)));
}

#[test]
fn less_sign_empty_message_roundtrip() {
    let mut imgs = vec![img(16, 16, 26)];
    let hider = LessSignHider {
        msg: vec![],
        ty: MsgType::Txt,
        initial_img: vec![],
        modified_img: ImgPaths::new_empty(),
        bits: 2,
        gray: false,
    };
    assert_eq!(hider.hide_msg(&mut imgs), Ok(1));
    let revealer = LessSignRevealer { modified_img: vec![], save_path: None };
    assert_eq!(revealer.reveal_msg(&imgs), Ok((vec![], MsgType::Txt)));
}

#[test]
fn const_bytes_writer_whole_byte() {
    let mut w = ConstBytesWriter::new(0xab, 8);
    assert!(!w.is_done());
    assert_eq!(w.next(), 0xab);
    assert!(w.is_done());
    let mut w = ConstBytesWriter::new(0xab, 4);
    assert_eq!(w.next(), 0xb);
    assert_eq!(w.next(), 0xa);
    assert!(w.is_done());
}

/// Channels whose chunks of 8 carry `bytes` as the average-sum header does: 4 bits a chunk,
/// lowest first.
fn header_chans(bytes: &[u8]) -> Vec<u8> {
    let mut chans = Vec::new();
    for b in bytes {
        for part in [b & 15, b >> 4] {
            chans.push(part);
            chans.extend_from_slice(&[0; 7]);
        }
    }
    chans
}

#[test]
fn avg_sum_header_with_chunks_of_no_channels() {
    let revealer = AvgSumRevealer { modified_img: vec![], save_path: None };
    // chunks of 0 channels all sum to 0: the three message bytes are zeros
    let chans = header_chans(&[2, 3, 0, 3, 0, 0, 0]);
    let only = Img { width: 1, height: 1, chans, path: "h.png".to_owned() };
    assert_eq!(revealer.reveal_msg(&vec![only]), Ok((vec![0, 0, 0], MsgType::File)));
    // no bits a chunk and chunks of no channels: nothing could carry the message
    let chans = header_chans(&[1, 0, 0, 3, 0, 0, 0]);
    let only = Img { width: 1, height: 1, chans, path: "h.png".to_owned() };
    assert_eq!(revealer.reveal_msg(&vec![only]), Err(Error::Other("Invalid chunks in the header".to_owned())));
    // 16 bits a chunk
    let chans = header_chans(&[1, 16, 4, 3, 0, 0, 0]);
    let only = Img { width: 1, height: 1, chans, path: "h.png".to_owned() };
    assert_eq!(revealer.reveal_msg(&vec![only]), Err(Error::Other("Invalid chunks in the header".to_owned())));
}

use steganography::cli::{Cli, DeltaArg, Info, PicArgs, PicCmd, SaveArg, TxtArgs, TxtCmd};
use steganography::error::Error;
use steganography::msg::{Msg, MsgType};
use steganography::png::algo::{DeltaHider, DeltaRevealer};
use steganography::png::less_sign::LessSignRevealer;
use steganography::text::repeat::{RepeatCharHider, RepeatConstTypo};

fn info(init: Option<Vec<&str>>, modified: Option<Vec<&str>>) -> Info {
    let own = |v: Vec<&str>| v.into_iter().map(|s| s.to_owned()).collect::<Vec<_>>();
    Info { initial_img: init.map(own), modified_img: modified.map(own) }
}

#[test]
fn msg_from_arg_prefix() {
    assert!(matches!(Msg::from_arg("file:a.txt"), Msg::File(p) if p == "a.txt"));
    assert!(matches!(Msg::from_arg("hello"), Msg::Txt(t) if t == "hello"));
    assert!(matches!(Msg::from_arg("file"), Msg::Txt(t) if t == "file"));
    assert_eq!(Msg::from_arg("file:").ty(), MsgType::File);
}

#[test]
fn check_paths() {
    assert_eq!(Cli::check_init_img(None), Err(Error::EmptyInit));
    assert_eq!(Cli::check_init_img(Some(vec![])), Err(Error::EmptyInit));
    assert_eq!(Cli::check_init_img(Some(vec!["a".to_owned()])), Ok(vec!["a".to_owned()]));
    assert_eq!(Cli::check_mod_img(None), Err(Error::EmptyModified));
    let init = vec!["a".to_owned(), "b".to_owned()];
    assert_eq!(Cli::check_consist_len(&init, &Some(vec!["x".to_owned()])), Err(Error::InconsistModLen));
    assert_eq!(Cli::check_consist_len(&init, &None), Ok(()));
    assert_eq!(SaveArg { save: Some("s".to_owned()) }.clone_inner(), Some("s".to_owned()));
}

#[test]
fn delta_hider_from_args() {
    let args = PicArgs {
        info: info(Some(vec!["a.png"]), None),
        cmd: PicCmd::DeltaHide { msg: Msg::Txt("hi".to_owned()), arg: DeltaArg { bits_per_pixel_chan: 0 } },
    };
    let h = DeltaHider::try_from(args, vec![]).unwrap();
    assert_eq!(h.bits, 1);
    assert_eq!(h.msg, b"hi".to_vec());
    assert_eq!(h.ty, MsgType::Txt);

    let args = PicArgs {
        info: info(Some(vec!["a.png"]), None),
        cmd: PicCmd::DeltaHide { msg: Msg::File("f".to_owned()), arg: DeltaArg { bits_per_pixel_chan: 5 } },
    };
    assert!(matches!(DeltaHider::try_from(args, vec![1]), Err(Error::TooBigDelta(5))));

    let args = PicArgs {
        info: info(Some(vec!["a.png"]), Some(vec!["x.png", "y.png"])),
        cmd: PicCmd::DeltaHide { msg: Msg::File("f".to_owned()), arg: DeltaArg { bits_per_pixel_chan: 1 } },
    };
    assert!(matches!(DeltaHider::try_from(args, vec![1]), Err(Error::InconsistModLen)));
}

#[test]
fn revealers_from_args() {
    let args = PicArgs {
        info: info(Some(vec!["a.png"]), None),
        cmd: PicCmd::DeltaReveal { save: SaveArg { save: None }, arg: DeltaArg { bits_per_pixel_chan: 2 } },
    };
    assert!(matches!(DeltaRevealer::try_from(args), Err(Error::EmptyModified)));

    let args = PicArgs {
        info: info(None, Some(vec!["m.png"])),
        cmd: PicCmd::LessSignificantReveal { save: SaveArg { save: Some("out".to_owned()) } },
    };
    let r = LessSignRevealer::try_from(args).unwrap();
    assert_eq!(r.modified_img, vec!["m.png".to_owned()]);
    assert_eq!(r.save_path, Some("out".to_owned()));

    let args = PicArgs { info: info(None, None), cmd: PicCmd::AvgSumReveal { save: SaveArg { save: None } } };
    match LessSignRevealer::try_from(args) {
        Err(Error::Other(s)) => assert_eq!(s, "Cannot convert into args: command is not a less significant reveal."),
        _ => panic!("expected the other command's error"),
    }
}

#[test]
fn repeat_hider_from_args() {
    let args = TxtArgs {
        init: Msg::Txt("init".to_owned()),
        cmd: TxtCmd::RepeatHide { msg: Msg::Txt("m".to_owned()), modified: None, bit_freq: 7, typo_a: ' ', typo_b: '.' },
    };
    let h = RepeatCharHider::<RepeatConstTypo>::try_from(args, "init".to_owned(), b"m".to_vec()).unwrap();
    assert_eq!(h.bit_freq, 7);
    assert_eq!(h.initial, "init");
    assert_eq!(h.msg, b"m".to_vec());
}

use steganography::text::s3::{S3BitWriter, S3Reader};
use steganography::text::s3_rw_ty::{S3Signature, S3Type};
use steganography::text::s3::digit_char;
use steganography::text::id::{IdReader, IdWriter};
use steganography::text::num::{BitsToNum10, Num10ToBits, S3NumsWriter, S3RevNumsWriter};
use steganography::text::price::{FracVariation, PricePostfixInfo, S3FloatPriceWriter, S3IntPriceWriter};
use steganography::text::repeat::{RepeatCharHider, RepeatCharRevealer, RepeatConstTypo};
use steganography::text::s3::{ByteSrc, RngMinimal, S3BitBufReader, S3Full, S3TypeWriter, S3WriterInfo, S3WriterRand, S3WriterRandWrap};
use steganography::text::csv::CsvWriter;
use steganography::text::str_reader::{PeakableReadExt, ReadWraper};
use steganography::text::str_writer::{WriteExt, WriterFmt};
use steganography::text::time::{BitsToTime, S3TimeWriter, TimeFormat, TimeToBits};
use steganography::text::txt_enum::{IsValidChar, IsValidCharEng, TxtVariation};

/// Random numbers from a stack of prepared answers, last first; each prepared answer lies
/// in the range that it answers.
struct Rng {
    range_res: Vec<u8>,
    u8_res: Vec<u8>,
}

impl Rng {
    fn new(mut range_res: Vec<u8>, mut u8_res: Vec<u8>) -> Self {
        range_res.reverse();
        u8_res.reverse();
        Self { range_res, u8_res }
    }
}

impl RngMinimal for Rng {
    fn r8(&mut self) -> u8 {
        self.u8_res.pop().unwrap()
    }

    /// The writers tested here never ask for one.
    fn r64(&mut self) -> u64 {
        0
    }

    fn r8_range(&mut self, _: std::ops::RangeInclusive<u8>) -> u8 {
        self.range_res.pop().unwrap()
    }

    /// The writers tested here never ask for one.
    fn r64_range_excl(&mut self, range: std::ops::Range<u64>) -> u64 {
        range.start
    }
}

const INIT: &str = "\
    Наказанный сынок не успел подрасти\n\
    Капризное весло отказалось грести\n\
    Упрямый парашют не раскрылся в свой срок\n\
    А залётный бумеранг посмел поверить в то, что мол —\n\
    обратной дороги нет\n\
    обратной дороги нет\n\
    обратной дороги нет\n\
    обратной дороги нет\n\
    нет уж лучше ты послушай как впивается в ладони дождь\n\
    слушай как по горлу пробегает мышь\n\
    слушай как под сердцем возникает брешь\n\
    как в желудке копошится зима\n\
    как ползёт по позвоночнику землистый лишай\n\
    как вливается в глазницы родниковый потоп\n\
    как настырный одуванчик раздирает асфальт\n\
    как ржавеют втихомолку потаённые прозрачные двери\n\
    слушай как сквозь кожу прорастает рожь\n\
    слушай как по горлу пробегает мышь\n\
    слушай как в желудке пузырится смех\n\
    слушай как спешит по гулким венам вдаль твоя\n\
    сладкая радуга...\n\
    звонкая радуга...\n\
    как на яблоне на ветке созревает звезда\n\
    крошечная поздняя милая ручная...\n\
    слушай как блуждают по покинутым селениям\n\
    шальные хороводы деревянных невест...
    \n\
    слушай как под сердцем колосится рожь\n\
    слушай как по горлу пробегает мышь\n\
    слушай как в желудке распухает ночь\n\
    как вонзается в ладонь стебелёк
    \n\
    как лениво высыхает молоко на губах\n\
    как ворочается в печени червивый клубок\n\
    как шевелятся кузнечики в густом янтаре\n\
    погружаясь в изнурительное бегство в никуда из ниоткуда...
    \n\
    вот и хорошо, вот и баиньки\n\
    страшно безымянному заиньке\n\
    под глазастыми заборами в удушливых потёмках\n\
    своего замысловатого сырого нутра...\
    ";

#[test]
fn test_repeat_char_hide_reveal() {
    let init_msg_pairs = [
        (INIT.to_owned(), "нет.", 23),
        (INIT.repeat(17 * 8 * 2 + 1), INIT, 17),
        (". ".repeat(2000), "прыг-скок", 5),
        (" ".repeat(900), "прыг-скок", 6),
        (" ".repeat(900 - 10), "прыг-скок", 6),
        (" ".repeat(900 - 12), "прыг-скок", 6),
        (" ".repeat(900 - 14), "прыг-скок", 6),
        (" ".repeat(900 - 15), "прыг-скок", 6),
        (".".repeat(2000), "прыг+скок", 7),
        ("x".repeat(16_500), "вот и хорошо, вот и баиньки", 42),
    ];

    for (init, msg, bit_freq) in init_msg_pairs {
        let typo = RepeatConstTypo::new('.', ' ');
        let hider = RepeatCharHider::new_ref(&init, msg.as_bytes(), bit_freq, typo);

        let output = hider.hide_msg().unwrap();

        let revealer = RepeatCharRevealer {
            initial: init.clone(),
            modified: output,
            bit_freq,
            with_header: false,
        };

        let msg_get = revealer.reveal_msg().unwrap();
        let msg_get = String::from_utf8(msg_get).unwrap();
        assert_eq!(msg_get, msg);
    }
}

#[test]
fn repeat_char_too_short_initial() {
    let typo = RepeatConstTypo::new('.', ' ');
    let hider = RepeatCharHider::new_ref("a. b", "long message".as_bytes(), 5, typo);
    assert!(matches!(hider.hide_msg(), Err(steganography::error::Error::NotEnoughSizeOfInit(_))));
}

#[test]
fn repeat_char_needs_f_characters_per_0_and_f_plus_1_per_1() {
    // the bits of [1, 0], lowest first: one 1 and fifteen 0s, so 6 + 15 * 5 = 81 characters
    let msg = [1u8, 0u8];
    let text = |n: usize| "abcdefghij".chars().cycle().take(n).collect::<String>();

    let hider = RepeatCharHider::new(text(81), &msg, 5, RepeatConstTypo::new('.', ' '));
    let hidden = hider.hide_msg().unwrap();
    let revealer = RepeatCharRevealer { initial: text(81), modified: hidden, bit_freq: 5, with_header: false };
    assert_eq!(revealer.reveal_msg().unwrap(), msg.to_vec());

    // one character short: the last bit does not fit
    let hider = RepeatCharHider::new(text(80), &msg, 5, RepeatConstTypo::new('.', ' '));
    assert!(matches!(hider.hide_msg(), Err(steganography::error::Error::NotEnoughSizeOfInit(1))));

    // 30 characters hold the first five bits (26 characters); the sixth would need 31
    let hider = RepeatCharHider::new(text(30), &msg, 5, RepeatConstTypo::new('.', ' '));
    assert!(matches!(hider.hide_msg(), Err(steganography::error::Error::NotEnoughSizeOfInit(2))));
}

#[test]
fn repeat_char_inconsistent_initial() {
    let revealer = RepeatCharRevealer {
        initial: "ab".to_owned(),
        modified: "abcdefgh".to_owned(),
        bit_freq: 5,
        with_header: false,
    };
    assert_eq!(revealer.reveal_msg(), Err(steganography::error::Error::InconsistentInitText));
}

#[test]
fn num_test_num_conv() {
    let chunks = vec![
        0b_010_1010_1101,
        0b_110_1010_1101,
        0b_001_0011_0001,
        0b_111_1111_1111,
        0b_100_1000_1000,
        0b_111_1100_1111,
    ];
    let expects = vec!["5860", "9071", "5030", "7402", "0611", "9991"];

    let chunk_bit_sz = 11;
    let mut nums = String::with_capacity(4);

    for (chunk, expect) in chunks.into_iter().zip(expects) {
        nums.clear();

        let mut b2n = BitsToNum10::new(chunk, chunk_bit_sz);
        while let Some(ch) = b2n.next_n10_char() {
            nums.push(ch);
        }
        assert_eq!(&nums, expect);

        let mut n2b = Num10ToBits::new(chunk_bit_sz);
        for num_ch in expect.chars() {
            n2b.next_n10_char(num_ch);
        }
        assert_eq!(n2b.try_take(), Some(chunk));
    }
}

#[test]
fn test_num_s3_writer() {
    let nums = vec![257, 739, 25, 100, 10, 0, 1, 2, 9];

    let mut wr = S3NumsWriter::new(3, false);
    let mut zeroed_wr = S3NumsWriter::new(3, true);

    let str = String::with_capacity(10);
    let mut str = WriterFmt::new(str);

    for num in nums {
        str.clear();
        wr.write(num, &mut str);
        assert_eq!(str.as_ref(), &format!("{num}"));

        str.clear();
        zeroed_wr.write(num, &mut str);
        assert_eq!(str.as_ref(), &format!("{num:03}"));
    }
}

#[test]
fn test_num_s3_writer_rev() {
    let nums = vec![257, 739, 25, 100, 10, 0, 1, 2, 9];

    let expect_wr = vec!["752", "937", "520", "1", "10", "0", "100", "200", "900"];
    let expect_zeroed = vec!["752", "937", "520", "001", "010", "000", "100", "200", "900"];

    let mut wr = S3RevNumsWriter::new(3, false);
    let mut zeroed_wr = S3RevNumsWriter::new(3, true);

    let str = String::with_capacity(10);
    let mut str = WriterFmt::new(str);

    for (i, num) in nums.into_iter().enumerate() {
        str.clear();
        wr.write(num, &mut str);
        assert_eq!(str.as_ref(), &expect_wr[i]);

        str.clear();
        zeroed_wr.write(num, &mut str);
        assert_eq!(str.as_ref(), &expect_zeroed[i]);
    }

    let mut wr = S3RevNumsWriter::new(4, false);
    str.clear();
    wr.write(20, &mut str);
    assert_eq!(str.as_ref(), "200");

    str.clear();
    wr.write(120, &mut str);
    assert_eq!(str.as_ref(), "210");

    str.clear();
    wr.write(1230, &mut str);
    assert_eq!(str.as_ref(), "321");
}

#[test]
fn num_test_bit_loss() {
    let log2_10 = std::f32::consts::LOG2_10;
    let bit_loss_proc = |bits: u32| {
        let bits = bits as f32;
        let ceil_bits = f32::ceil(bits / log2_10) * log2_10;
        let delta_bits = ceil_bits - bits;
        100.00 * delta_bits / bits
    };

    let mut best_loss_proc = bit_loss_proc(1);
    let mut best_bits = vec![1];
    let mut best_n = vec![1];

    for bits in 2..=128 {
        let loss_proc = bit_loss_proc(bits);
        if loss_proc < best_loss_proc {
            best_loss_proc = loss_proc;
            let n = f32::ceil(bits as f32 / log2_10) as u32;
            if best_n.last() != Some(&n) {
                best_n.push(n);
            }
            best_bits.push(bits);
        }
    }

    assert!(best_loss_proc < 0.1);
    assert_eq!(&best_bits, &[1, 2, 3, 13, 23, 33, 43, 53, 63, 73, 83, 93]);
    assert_eq!(&best_n, &[1, 4, 7, 10, 13, 16, 19, 22, 25, 28]);
}

#[test]
fn digits_for_bits_matches_float_ceil() {
    for bits in 0..=64u8 {
        let n = f64::ceil(bits as f64 / std::f64::consts::LOG2_10) as usize;
        let mut s = String::new();
        let mut b2n = BitsToNum10::new(0, bits);
        while let Some(ch) = b2n.next_n10_char() {
            s.push(ch);
        }
        assert_eq!(s.len(), n, "bits = {bits}");
    }
}

#[test]
fn test_int_price() {
    let str = String::with_capacity(10);
    let mut str = WriterFmt::new(str);

    let mut wr = S3IntPriceWriter::new(2, 12, PricePostfixInfo::new_0(2));
    let mut rng = Rng::new(vec![1, 12, 0, 3, 0], vec![]);

    let tests = [85, 20, 20, 0, 0];
    let expects = ["15800", "120200", "200", "30000", "0"];

    for (test, expect) in tests.into_iter().zip(expects) {
        str.clear();
        wr.write(test, &mut str, &mut rng);
        assert_eq!(str.as_ref(), expect);
    }

    let mut wr = S3IntPriceWriter::new(2, 12, PricePostfixInfo::new_9(2));
    let mut rng = Rng::new(vec![1, 12, 0, 3, 0], vec![]);

    let tests = [85, 20, 20, 0, 0];
    let expects = ["15899", "120299", "299", "30099", "99"];

    for (test, expect) in tests.into_iter().zip(expects) {
        str.clear();
        wr.write(test, &mut str, &mut rng);
        assert_eq!(str.as_ref(), expect);
    }
}

#[test]
fn test_float_price() {
    let str = String::with_capacity(10);
    let mut str = WriterFmt::new(str);

    let mut int_price = S3IntPriceWriter::new(2, 3, PricePostfixInfo::new_empty());
    int_price.set_min_prefix(1);

    let mut wr = S3FloatPriceWriter::new(int_price, FracVariation::HighNum);
    let mut rng = Rng::new(vec![1, 2, 0, 3, 0, 3, 3], vec![]);

    let tests = [851, 204, 200, 0, 0, 14, 104];
    let expects = ["158.10", "202.40", "102.00", "300.00", "100.00", "310.40", "301.40"];

    for (test, expect) in tests.into_iter().zip(expects) {
        str.clear();
        wr.write(test, &mut str, &mut rng);
        assert_eq!(str.as_ref(), expect);
    }

    let mut int_price = S3IntPriceWriter::new(2, 3, PricePostfixInfo::new_empty());
    int_price.set_min_prefix(1);

    let mut wr = S3FloatPriceWriter::new(int_price, FracVariation::Step5);
    let mut rng = Rng::new(vec![1, 2, 0, 3, 0, 0, 2], vec![]);

    let tests = [85 * 20 + 11, 20 * 20 + 9, 20 * 20 + 18, 10, 5, 0, 3 * 20 + 10];
    let expects = ["158.55", "202.45", "102.90", "300.50", "100.25", "100.00", "230.50"];

    for (test, expect) in tests.into_iter().zip(expects) {
        str.clear();
        wr.write(test, &mut str, &mut rng);
        assert_eq!(str.as_ref(), expect);
    }
}

#[test]
fn test_bit_buf() {
    // a source that gives at most 3 bytes a read
    let mut reader = ByteSrc::with_limit(vec![
        0x0A, 0x0B, 0x0C, 0x0D, 0x0E, 0x11, 0x0F, 0x01,
        0x2A, 0x2B, 0x2C, 0x2D, 0x2E, 0x2F, 0x21, 0x22,
        0x5A, 0x5B, 0x5C, 0x5D, 0x5E, 0x5F, 0x55, 0x77,
        0x30, 0x31, 0x32, 0x33, 0x34,
    ], 3);

    let mut buf = S3BitBufReader::new(&mut reader);
    assert_eq!(buf.try_take_bits(8), (0x0A, 8));
    assert_eq!(buf.try_take_bits(7 * 8), (0x010F_110E_0D0C_0B, 7 * 8));

    buf.fill(&mut reader);
    assert_eq!(buf.try_take_bits(64), (0x2221_2F2E_2D2C_2B2A, 64));
    assert!(!buf.is_reader_eof());

    buf.fill(&mut reader);
    assert_eq!(buf.try_take_bits(64), (0x7755_5F5E_5D5C_5B5A, 64));
    assert!(!buf.is_reader_eof());

    buf.fill(&mut reader);
    buf.fill(&mut reader);
    assert!(!buf.is_eof());
    assert!(buf.is_reader_eof());
    assert_eq!(buf.try_take_bits(64), (0x0000_0034_3332_3130, 8 * 5));
    assert!(buf.is_eof());
    buf.fill(&mut reader);
    buf.fill(&mut reader);
    assert!(buf.is_eof());
    assert!(buf.is_reader_eof());

    assert_eq!(buf.try_take_bits(8), (0x0, 0));
}

fn read_to_end(r: &mut ReadWraper, out: &mut Vec<u8>) {
    loop {
        let mut buf = vec![0u8; 4];
        let n = r.read(&mut buf);
        if n == 0 {
            break;
        }
        out.extend_from_slice(&buf[..n]);
    }
}

#[test]
fn test_read() {
    let v = vec![11u8, 21u8, 31, 41, 51, 61, 71, 81, 91, 12, 13];
    let mut r = ReadWraper::with_capacity(ByteSrc::new(v.clone()), 4);
    assert!(!r.is_eof());
    assert_eq!(r.peak_byte(1), Some(21));
    assert_eq!(r.peak_byte(0), Some(11));
    assert_eq!(r.read_byte(), 11);
    assert_eq!(r.read_byte(), 21);
    assert_eq!(r.peak_byte(3), Some(61));
    assert_eq!(r.peak_byte(0), Some(31));
    assert_eq!(r.peak_byte(1), Some(41));
    assert_eq!(r.peak_byte(2), Some(51));
    assert_eq!(r.read_byte(), 31);
    assert_eq!(r.read_byte(), 41);
    assert_eq!(r.peak_byte(3), Some(81));
    assert_eq!(r.peak_byte(0), Some(51));
    assert_eq!(r.read_byte(), 51);
    assert_eq!(r.read_byte(), 61);
    assert_eq!(r.peak_byte(3), Some(12));
    assert_eq!(r.read_byte(), 71);
    assert_eq!(r.try_read_byte(), Some(81));
    assert_eq!(r.read_byte(), 91);
    assert_eq!(r.peak_byte(3), None);
    assert!(!r.is_eof());
    assert_eq!(r.peak_byte(0), Some(12));
    assert_eq!(r.peak_byte(1), Some(13));
    assert_eq!(r.read_byte(), 12);
    assert!(!r.is_eof());
    assert_eq!(r.try_read_byte(), Some(13));
    assert!(r.is_eof());
    assert_eq!(r.try_read_byte(), None);

    for i in 0..7 {
        let mut r = ReadWraper::with_capacity(ByteSrc::new(v.clone()), 4);
        let mut vv = vec![];
        for _ in 0..=i {
            vv.push(r.read_byte());
        }
        read_to_end(&mut r, &mut vv);
        assert_eq!(vv.as_slice(), v.as_slice());
    }

    for i in 0..7 {
        let mut r = ReadWraper::with_capacity(ByteSrc::new(v.clone()), 4);
        let mut vv = vec![];
        for _ in 0..=i {
            vv.push(r.read_byte());
            let _ = r.peak_byte(3);
        }
        read_to_end(&mut r, &mut vv);
        assert_eq!(vv.as_slice(), v.as_slice());
    }
}

#[test]
fn test_write_char() {
    let mut str = WriterFmt::new(String::new());
    let mut vec = Vec::<u8>::new();

    let test_chars = "x3+Ab~`ыЙяёøઌ🌚🌚🌝🥰😎";

    for ch in test_chars.chars() {
        str.write_char(ch);
        vec.write_char(ch);
    }

    assert_eq!(test_chars, str.as_ref());
    assert_eq!(str.as_ref().as_bytes(), &vec);

    vec.clear();
    assert!(vec.is_empty());

    vec.write_str(test_chars);
    assert_eq!(str.as_ref().as_bytes(), &vec);
    assert!(!vec.is_empty());
}

#[test]
fn time_test_num_conv() {
    let chunks = vec![
        0b_10_1010_1101,
        0b_01_1010_1101,
        0b_01_0011_0001 + 23,
        0b_11_1111_1111,
        0b_00_1000_1000,
        0b_00_0011_1100,
    ];
    let expects = vec!["11:25", "07:09", "05:28", "17:03", "02:16", "01:00"];

    let mut time = WriterFmt::new(String::with_capacity(5));

    for (chunk, expect) in chunks.into_iter().zip(expects) {
        time.clear();

        let mut b2t = BitsToTime::new_hm(chunk, 1);
        assert!(!b2t.is_done());
        b2t.write(&mut time).unwrap();
        assert!(b2t.is_done());
        assert_eq!(time.as_ref(), &expect);

        let mut t2b = TimeToBits::new(1, TimeFormat::HM);
        assert_eq!(t2b.next(time.as_ref()), Some(chunk));
    }

    let mut rng = rand::rng();
    let mask_hm = TimeToBits::mask(5, TimeFormat::HM);
    let mask_hms = TimeToBits::mask(2, TimeFormat::HMS);
    let mask_hmsmill = TimeToBits::mask(1, TimeFormat::HMSMill);

    for _ in 0..32 {
        let chunk = rand::RngCore::next_u64(&mut rng);
        for (mask, n, fmt) in [(mask_hm, 5, TimeFormat::HM), (mask_hms, 2, TimeFormat::HMS), (mask_hmsmill, 1, TimeFormat::HMSMill)] {
            time.clear();
            let c = chunk & mask;
            let mut b2t = BitsToTime::new(c, n, fmt);
            while b2t.write(&mut time).is_some() {
                time.write_char(' ');
            }
            let mut t2b = TimeToBits::new(n, fmt);
            for time_s in time.as_ref().split(' ').filter(|x| !x.is_empty()) {
                t2b.next(time_s);
            }
            assert!(t2b.is_done());
            assert_eq!(t2b.try_take().unwrap(), c);
        }
    }
}

#[test]
fn time_test_bit_loss() {
    let bit_loss_proc = |time_n: u32| {
        let time_n = time_n as f32;
        let bit_per_time = f32::log2(24.0 * 60.0);
        let real_bits = f32::floor(bit_per_time * time_n);
        let delta_bits = bit_per_time * time_n - real_bits;
        100.00 * delta_bits / real_bits
    };

    let mut best_proc = bit_loss_proc(1);
    let mut best_n = 1;

    for time_n in 1..=6 {
        let proc = bit_loss_proc(time_n);
        if proc < best_proc {
            best_proc = proc;
            best_n = time_n;
        }
    }

    assert!(best_proc < 1.);
    assert_eq!(best_n, 5);
}

#[test]
fn time_mask_five_hm() {
    // 1440^5 < 2^53, so five times of day hold 52 bits.
    assert_eq!(TimeToBits::mask(5, TimeFormat::HM), (1u64 << 52) - 1);
}

#[test]
fn test_txt_rw() {
    let v = vec![
        "Abobus", "Autobus", "Bus", "Busy",
        "Dinosaurs", "Agrosaurus", "Triceratops", "TRex",
        "Diplodocus", "Brontosaurus", "Stegosaurus", "Streptococcus",
    ];

    let mut var = TxtVariation::new(12);
    var.add_str_iter(v.clone());

    let mut w = var.clone().seal_w();
    let mut r = var.seal_r(IsValidChar::Eng(IsValidCharEng::new_any()), Some(9));

    for x in 0..=11 {
        let mut rng = rand::rng();
        let mut str = WriterFmt::new(String::new());
        w.write(x, &mut str, &mut rng).unwrap();

        let y = r.read(str.as_ref());
        assert_eq!(x, y);
    }
}

#[test]
fn txt_words_read_back_modulo_s3() {
    let v = vec![
        "Abobus", "Autobus", "Bus", "Busy",
        "Dinosaurs", "Agrosaurus", "Triceratops", "TRex",
        "Diplodocus", "Brontosaurus", "Stegosaurus", "Streptococcus",
    ];

    let mut var = TxtVariation::new(12);
    var.add_str_iter(v.clone());
    var.set_s3(5);

    let mut w = var.clone().seal_w();
    let mut r = var.seal_r(IsValidChar::Eng(IsValidCharEng::new_any()), None);
    let mut rng = Rng::new(vec![0, 1, 2, 2, 1], vec![]);
    let expects = ["Bus", "Triceratops", "Diplodocus", "Brontosaurus", "Agrosaurus"];

    for (x, expect) in [2u64, 1, 3, 4, 0].into_iter().zip(expects) {
        let mut str = WriterFmt::new(String::new());
        assert!(w.write(x, &mut str, &mut rng).is_some());
        assert_eq!(str.as_ref(), expect);
        let y = r.read(str.as_ref());
        assert_eq!(y % 5, x);
    }
}

#[test]
fn test_txt_bit_once() {
    let mut txt_var = TxtVariation::new(10);
    txt_var.add_str_iter(vec!["A", "B", "C"]);
    let x = txt_var.seal_w();
    assert_eq!(2, x.bits_once());

    let mut txt_var = TxtVariation::new(10);
    txt_var.add_str_iter(vec!["A", "B", "C", "D"]);
    let x = txt_var.seal_w();
    assert_eq!(2, x.bits_once());

    let mut txt_var = TxtVariation::new(10);
    txt_var.add_str_iter(vec!["A", "B", "C", "D", "E"]);
    let x = txt_var.seal_w();
    assert_eq!(3, x.bits_once());
}

#[test]
fn test_txt_enum() {
    let v = vec![
        "Abobus", "Autobus", "Bus", "Busy",
        "Dinosaurs", "Agrosaurus", "Triceratops", "T-Rexus",
        "Diplodocus", "Brontosaurus", "Stegosaurus", "Streptococcus",
    ];
    let mut expect = Vec::with_capacity(2);

    let mut rng = rand::rng();
    let mut str = WriterFmt::new(String::with_capacity(10));

    for s3 in [7, 12, 3, 5] {
        let mut var = TxtVariation::new(12);
        var.add_str_iter(v.clone());
        var.set_s3(s3);
        let mut var = var.seal_w();

        for x in 0..100u32 {
            str.clear();

            let x = x % s3;
            var.write(x as u64, &mut str, &mut rng).unwrap();

            let s = str.as_ref();
            let i = x as usize;
            expect.clear();
            for j in 0.. {
                let i = i + j * s3 as usize;
                if i < v.len() {
                    expect.push(v[i]);
                } else {
                    break;
                }
            }

            assert!(expect.contains(&s.as_str()), "{x} --> {s:?}   expect in: {expect:?}");
        }
    }
}

#[test]
fn test_id_writer() {
    let nums = vec![27u8, 73, 25, 10, 0, 1, 2, 9];

    let mut rng = rand::rng();
    let mut str = WriterFmt::new(String::with_capacity(10));

    let mut wr = IdWriter::new(12, 2, 2);

    for num in nums {
        str.clear();
        wr.write(num as u64, &mut str, &mut rng);

        let bytes = str.as_ref().as_bytes();
        let len = bytes.len();
        assert_eq!(num % 10, bytes[len - 4] - b'0');
        assert_eq!(num / 10, bytes[len - 3] - b'0');
    }
}

#[test]
fn id_reader_reads_back_what_the_writer_wrote() {
    let mut str = WriterFmt::new(String::with_capacity(16));
    let mut wr = IdWriter::new(12, 3, 2);
    let rd = IdReader::new(3, 2);
    let mut rng = Rng::new(vec![1, 4, 7, 0, 0, 9], vec![]);

    wr.write(305, &mut str, &mut rng);
    assert_eq!(str.as_ref(), "1250347");
    assert_eq!(rd.read(str.as_ref().as_bytes()), 305);

    str.clear();
    wr.write(9, &mut str, &mut rng);
    assert_eq!(str.as_ref(), "1490009");
    assert_eq!(rd.read(str.as_ref().as_bytes()), 9);

    let mut rng = rand::rng();
    for num in [0u64, 1, 10, 999, 472] {
        str.clear();
        wr.write(num, &mut str, &mut rng);
        assert!(str.as_ref().bytes().all(|b| b.is_ascii_digit()));
        assert_eq!(rd.read(str.as_ref().as_bytes()), num);
    }
}


#[test]
fn peakable_read_chars() {
    let text = "aЙ🌚b,rest";
    let mut r = ReadWraper::with_capacity(ByteSrc::new(text.as_bytes().to_vec()), 4);
    assert!(PeakableReadExt::test_next_char(&mut r, 'a'));
    assert!(!PeakableReadExt::test_next_char(&mut r, 'b'));
    assert_eq!(PeakableReadExt::read_char(&mut r), Ok('a'));
    assert!(PeakableReadExt::test_next_char(&mut r, 'Й'));
    assert!(PeakableReadExt::test_next_bytes(&mut r, "Й".as_bytes()));
    assert_eq!(PeakableReadExt::peak_next_byte(&mut r), Some("Й".as_bytes()[0]));
    let mut s = String::new();
    assert_eq!(PeakableReadExt::read_str(&mut r, &mut s, 2), Ok(()));
    assert_eq!(s, "Й🌚");
    let mut s = String::new();
    assert_eq!(PeakableReadExt::read_str_until_char(&mut r, &mut s, ','), Ok(()));
    assert_eq!(s, "b");
    assert!(PeakableReadExt::test_byte(&mut r, 0, b','));
    assert_eq!(PeakableReadExt::read_byte(&mut r), b',');
    let mut s = String::new();
    assert_eq!(PeakableReadExt::read_str_until_char(&mut r, &mut s, ';'), Ok(()));
    assert_eq!(s, "rest");
    assert_eq!(PeakableReadExt::try_read_char(&mut r), Ok(None));
}

#[test]
fn peakable_invalid_utf8() {
    // a lone continuation byte, then a leading byte of width two whose follower is not a continuation
    let mut r = ReadWraper::with_capacity(ByteSrc::new(vec![0x80, 0xC3, 0x41, 0x42]), 8);
    match PeakableReadExt::read_char(&mut r) {
        Err(steganography::error::Error::Other(s)) => assert_eq!(s, "Invalid UTF-8 char seq"),
        x => panic!("unexpected {x:?}"),
    }
    assert!(PeakableReadExt::read_char(&mut r).is_err());
    assert_eq!(PeakableReadExt::read_char(&mut r), Ok('B'));
}

#[test]
fn test_csv() {
    let rng = rand::rng();
    let str = WriterFmt::new(String::with_capacity(1000));

    let text = "Давай проверим этот текст, что ли?";
    let read = ByteSrc::new(text.as_bytes().to_vec());
    println!("bit len = {} | {:?}", text.len() * 8, text.as_bytes());

    let mut csv = CsvWriter::new_std();
    csv.add_column_str("prod_id", S3TypeWriter::Id(IdWriter::new(21, 2, 1)));

    let int_part = S3IntPriceWriter::new(2, 3, PricePostfixInfo::new_empty());
    let float_price = S3FloatPriceWriter::new(int_part, FracVariation::HighNum);
    csv.add_column_str("price", S3TypeWriter::FloatPrice(float_price));

    csv.add_column_str("time", S3TypeWriter::Time(S3WriterRandWrap(S3TimeWriter::new(TimeFormat::HMS))));

    let mut s3full = S3Full::new(read, str, rng);

    csv.write_all(&mut s3full);

    assert!(s3full.is_eof_stream());
    let str = s3full.into_writer();
    println!("{}", str.as_ref());
    println!("lines: {}", str.as_ref().lines().count());
}

#[test]
fn csv_table_has_header_and_whole_lines() {
    let text = "Hidden in a table.";
    let mut csv = CsvWriter::new(String::from("\n"), ';');
    csv.add_column_str("id", S3TypeWriter::Id(IdWriter::new(500, 3, 2)));
    csv.add_column_string(String::from("at"), S3TypeWriter::Time(S3WriterRandWrap(S3TimeWriter::new(TimeFormat::HM))));

    let mut s3full = S3Full::new(ByteSrc::new(text.as_bytes().to_vec()), WriterFmt::new(String::new()), rand::rng());
    csv.write_all(&mut s3full);
    assert!(s3full.is_eof_stream());

    let out = s3full.into_writer();
    let out = out.as_ref();
    assert!(out.ends_with('\n'));
    let mut lines = out.lines();
    assert_eq!(lines.next(), Some("id;at"));
    let mut n = 0;
    for line in lines {
        let fields: Vec<&str> = line.split(';').collect();
        assert_eq!(fields.len(), 2);
        assert!(fields[0].bytes().all(|b| b.is_ascii_digit()));
        assert_eq!(fields[1].len(), 5);
        assert_eq!(&fields[1][2..3], ":");
        n += 1;
    }
    // 18 bytes carry 144 bits; a line carries 20 of them
    assert!(n >= 6);
}

#[test]
fn s3full_on_an_empty_source_ends_at_the_first_chunk() {
    let mut s3full = S3Full::new(ByteSrc::new(Vec::new()), WriterFmt::new(String::new()), rand::rng());
    let mut wr = S3TypeWriter::Time(S3WriterRandWrap(S3TimeWriter::new(TimeFormat::HM)));
    assert!(!s3full.is_eof_stream());
    assert!(s3full.is_need_chunk());

    // no chunk set and none being written: nothing is written
    assert!(!s3full.write_s3(&mut wr, false));
    assert_eq!(s3full.writer_mut().as_ref().len(), 0);

    s3full.set_next_chunk(8);
    assert!(!s3full.is_need_chunk());
    assert!(s3full.write_s3(&mut wr, false));
    assert!(s3full.is_eof_stream());
    // a value drawn at random is written once the stream has ended
    assert_eq!(s3full.into_writer().as_ref().len(), 5);
}

#[test]
fn s3full_writes_the_chunk_of_the_stream() {
    // one byte, 0xA5, as a chunk of 8 bits into a writer of 1000 values (10 bits): the
    // value is the chunk with two random bits above it, folded below 1000, so its low
    // 8 bits are the chunk's
    for _ in 0..20 {
        let mut s3full = S3Full::new(ByteSrc::new(vec![0xA5]), WriterFmt::new(String::new()), rand::rng());
        let mut wr = S3TypeWriter::IntNum(S3WriterRandWrap(S3NumsWriter::new(3, true)));
        s3full.set_next_chunk(8);
        assert!(!s3full.write_s3(&mut wr, false));
        let out = s3full.into_writer();
        assert_eq!(out.as_ref().len(), 3);
        let v: u32 = out.as_ref().parse().unwrap();
        assert!(v < 1000);
        assert_eq!(v % 256, 0xA5);
    }

    // into a writer of 100_000 values the whole chunk fits no more than once: 17 bits
    // would need a longer chunk, so the value is again padded, and below 100_000
    let mut s3full = S3Full::new(ByteSrc::new(vec![0xA5, 0x01]), WriterFmt::new(String::new()), rand::rng());
    let mut wr = S3TypeWriter::IntNum(S3WriterRandWrap(S3NumsWriter::new(5, true)));
    s3full.set_next_chunk(16);
    assert!(!s3full.write_s3(&mut wr, false));
    let out = s3full.into_writer();
    let v: u32 = out.as_ref().parse().unwrap();
    assert!(v < 100_000);
    assert_eq!(v % 65536, 0x01A5);
}

#[test]
fn write_fake_writes_a_value_of_the_space() {
    let mut str = WriterFmt::new(String::new());
    let mut wr = S3WriterRandWrap(S3NumsWriter::new(2, true));
    let mut rng = rand::rng();
    for _ in 0..20 {
        str.clear();
        S3WriterRand::write_fake(&mut wr, &mut str, &mut rng);
        assert_eq!(str.as_ref().len(), 2);
        assert!(str.as_ref().bytes().all(|b| b.is_ascii_digit()));
    }
}

#[test]
fn repeat_reveal_checked_part_of_a_byte() {
    let text = |n: usize| "abcdefghij".chars().cycle().take(n).collect::<String>();
    // an unchanged text of 30 characters carries six 0 bits: not a whole byte
    let revealer = RepeatCharRevealer { initial: text(30), modified: text(30), bit_freq: 5, with_header: false };
    assert_eq!(
        revealer.reveal_msg_checked(),
        Err(steganography::error::Error::Other("The revealed bits do not make whole bytes".to_owned()))
    );
    // 40 characters carry eight 0 bits: one zero byte
    let revealer = RepeatCharRevealer { initial: text(40), modified: text(40), bit_freq: 5, with_header: false };
    assert_eq!(revealer.reveal_msg_checked(), Ok(vec![0u8]));
}

#[test]
fn repeat_hide_at_given_places() {
    let text = |n: usize| "abcdefghij".chars().cycle().take(n).collect::<String>();
    // 'A' is 0x41: bits 1, 0, 0, 0, 0, 0, 1, 0, lowest first
    let msg = [0x41u8];
    let draws = vec![0usize; 8];
    let hider = RepeatCharHider::new(text(100), &msg, 5, RepeatConstTypo::new('.', ' '));
    let hidden = hider.hide_msg_with(&draws, 0).unwrap();
    // the first bit is a 1 with its typo after the first character: that character doubled
    assert!(hidden.starts_with("aabcde"));
    // two 1 bits and the two typos of the end, each one character more; nothing dropped
    assert_eq!(hidden.chars().count(), 100 + 2 + 2);
    let revealer = RepeatCharRevealer { initial: text(100), modified: hidden.clone(), bit_freq: 5, with_header: false };
    assert_eq!(revealer.reveal_msg().unwrap(), msg.to_vec());
    // other places give another text that carries the same message
    let draws = vec![3usize; 8];
    let hider = RepeatCharHider::new(text(100), &msg, 5, RepeatConstTypo::new('.', ' '));
    let other = hider.hide_msg_with(&draws, 0).unwrap();
    assert_ne!(other, hidden);
    assert!(other.starts_with("abcdde"));
    let revealer = RepeatCharRevealer { initial: text(100), modified: other, bit_freq: 5, with_header: false };
    assert_eq!(revealer.reveal_msg().unwrap(), msg.to_vec());
}

#[test]
fn digit_char_of_each_digit() {
    assert_eq!(digit_char(0), '0');
    assert_eq!(digit_char(7), '7');
    assert_eq!(digit_char(9), '9');
}

#[test]
fn time_format_lengths() {
    assert_eq!(TimeFormat::HM.char_len(), 5);
    assert_eq!(TimeFormat::HMS.char_len(), 8);
    assert_eq!(TimeFormat::HMSMill.char_len(), 12);
}

#[test]
fn read_from_a_source_that_gives_few_bytes_a_read() {
    let v = vec![11u8, 21u8, 31, 41, 51, 61, 71, 81, 91, 12, 13];
    for limit in 1..=3usize {
        let mut r = ReadWraper::with_capacity(ByteSrc::with_limit(v.clone(), limit), 4);
        assert_eq!(r.peak_byte(3), Some(41));
        assert_eq!(r.read_byte(), 11);
        assert_eq!(r.peak_byte(3), Some(51));
        let mut buf = vec![0u8; 5];
        assert_eq!(r.read(&mut buf), 5);
        assert_eq!(buf, vec![21, 31, 41, 51, 61]);
        for i in 0..4 {
            let mut r = ReadWraper::with_capacity(ByteSrc::with_limit(v.clone(), limit), 4);
            let mut vv = vec![];
            for _ in 0..=i {
                vv.push(r.read_byte());
                let _ = r.peak_byte(3);
            }
            read_to_end(&mut r, &mut vv);
            assert_eq!(vv.as_slice(), v.as_slice());
        }
    }
}

#[test]
fn bit_reader_over_a_source_that_gives_few_bytes_a_read() {
    let v: Vec<u8> = (1..=20u8).collect();
    let mut full = ByteSrc::new(v.clone());
    let mut part = ByteSrc::with_limit(v, 3);
    let mut a = S3BitBufReader::new(&mut full);
    let mut b = S3BitBufReader::new(&mut part);
    for _ in 0..6 {
        assert_eq!(a.try_take_bits(24), b.try_take_bits(24));
        a.fill(&mut full);
        b.fill(&mut part);
        assert_eq!(a.is_reader_eof(), b.is_reader_eof());
    }
}

#[test]
fn signature_writers_follow_the_kinds() {
    let mut sig = S3Signature::new();
    sig.add_s3_type(S3Type::new_time(TimeFormat::HMS));
    sig.add_s3_type(S3Type::new_int_num(3, true));
    sig.add_s3_type(S3Type::new_id(0, 4, 2));
    let ws = sig.writers();
    assert_eq!(ws.len(), 3);
    assert!(matches!(ws[0], S3TypeWriter::Time(_)));
    assert_eq!(ws[0].s3_once(), 86_400);
    assert!(matches!(ws[1], S3TypeWriter::IntNum(_)));
    assert_eq!(ws[1].s3_once(), 1000);
    assert!(matches!(ws[2], S3TypeWriter::Id(_)));
    assert!(!S3Type::new_time(TimeFormat::HM).is_dyn());
    assert!(S3Type::new_dyn(7, vec![1, 2]).is_dyn());
}

#[test]
fn words_read_back_into_chunks() {
    let mut var = TxtVariation::new(4);
    var.add_str_iter(vec!["A", "B", "C", "D"]);
    let mut r = var.seal_r(IsValidChar::Eng(IsValidCharEng::new_any()), None);
    let mut w = S3BitWriter::new();
    // no chunk size yet: nothing is read
    let mut word: &str = "C";
    assert_eq!(r.read_full(&mut w, &mut word), Ok(false));
    assert!(w.set_chunk_size(4));
    // "C" is 2 and "B" is 1: 2 + 4 * 1 = 6, which fills the 4 bits
    assert_eq!(r.read_full(&mut w, &mut word), Ok(true));
    let mut word: &str = "B";
    assert_eq!(r.read_full(&mut w, &mut word), Ok(true));
    assert!(w.need_fill());
    assert_eq!(r.read_full(&mut w, &mut word), Ok(false));
}

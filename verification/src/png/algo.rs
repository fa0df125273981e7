//! The hiding methods over whole images, and the methods that reveal what they hid.

use vstd::prelude::*;
use crate::bits::stream_chunk;
use crate::bits::stream_len;
use crate::error::{Error, Result};
use crate::msg::MsgType;
use crate::png::img::{Img, ImgPaths};
use crate::png::reader::{DeltaByteMsgReader, deltas, decode_msg, msg_bad, msg_finished, scan_msg, lemma_scan_msg_stopped};
use crate::png::writer::{DeltaByteMsgWriter, delta_encode, msg_header};

verus! {

/// Channels `c` (the `start`-th channel of the whole carrier first) after the chunks of `data`
/// that fall on them moved them.
pub open spec fn delta_encoded(c: Seq<u8>, data: Seq<u8>, k: u8, start: nat) -> Seq<u8> {
    Seq::new(c.len(), |j: int| if start + j < stream_len(data, k) {
        delta_encode(c[j], stream_chunk(data, k, (start + j) as nat))
    } else {
        c[j]
    })
}

/// How many channels the first `i` images hold together.
pub open spec fn chans_before(imgs: Seq<Img>, i: int) -> nat
    decreases i,
{
    if i <= 0 || imgs.len() == 0 { 0 } else if i > imgs.len() { chans_before(imgs, imgs.len() as int) } else {
        chans_before(imgs, i - 1) + imgs[i - 1].chans@.len()
    }
}

/// The images after the delta method hid `data` in them, image by image, in order.
pub open spec fn delta_hidden(imgs: Seq<Img>, data: Seq<u8>, k: u8, i: int) -> Seq<u8> {
    delta_encoded(imgs[i].chans@, data, k, chans_before(imgs, i))
}

/// Reading the delta method's message from pairs of images, one pair after another,
/// until the message is complete.
pub open spec fn delta_reveal_scan(st: (u8, u8, Seq<u8>), a: Seq<Img>, b: Seq<Img>, k: u8) -> Result<(u8, u8, Seq<u8>)>
    decreases a.len(),
{
    if a.len() == 0 || b.len() == 0 {
        Ok(st)
    } else if a[0].width != b[0].width || a[0].height != b[0].height {
        Err(Error::ImageInconsistentSize(a[0].width, a[0].height, b[0].width, b[0].height))
    } else {
        let st2 = scan_msg(st, deltas(a[0].chans@, b[0].chans@), k);
        if msg_bad(st2.2) {
            Err(Error::InvalidMsgTypeByte(st2.2[0]))
        } else if msg_finished(st2.2) {
            Ok(st2)
        } else {
            delta_reveal_scan(st2, a.drop_first(), b.drop_first(), k)
        }
    }
}

/// What the delta method reveals from initial images `a` and modified images `b`.
pub open spec fn spec_delta_reveal(a: Seq<Img>, b: Seq<Img>, k: u8) -> Result<(Seq<u8>, MsgType)> {
    match delta_reveal_scan((0u8, 0u8, Seq::<u8>::empty()), a, b, k) {
        Err(e) => Err(e),
        Ok(st) => decode_msg(st.2),
    }
}

/// What the delta method does: images `orig` become `fin` and `r` comes back, for the message
/// `msg` of kind `ty` and `k` bits a channel. Every channel is moved by its chunk of the
/// header and message, in order over the images; the count of images up to the one where
/// the stream ends comes back.
pub open spec fn delta_hide_outcome(orig: Seq<Img>, fin: Seq<Img>, r: Result<usize>, msg: Seq<u8>, ty: MsgType, k: u8) -> bool {
    if msg.len() > u32::MAX {
        r == Err::<usize, Error>(Error::TooBigMsg) && fin == orig
    } else {
        let data = msg_header(ty, msg.len()) + msg;
        let l = stream_len(data, k);
        let n = orig.len();
        &&& fin.len() == n
        &&& forall|i: int| 0 <= i < n ==> {
            &&& (#[trigger] fin[i]).chans@ == delta_hidden(orig, data, k, i)
            &&& fin[i].width == orig[i].width
            &&& fin[i].height == orig[i].height
            &&& fin[i].path == orig[i].path
        }
        &&& (chans_before(orig, n as int) < l <==> r is Err)
        &&& (r is Err ==> r matches Err(Error::NotEnoughSizeOfInit(_)))
        &&& (r matches Ok(c) ==> 1 <= c <= n && chans_before(orig, c - 1) < l <= chans_before(orig, c as int))
    }
}

/// Hides a message in images by moving each channel by a chunk of its bits.
pub struct DeltaHider {
    pub msg: Vec<u8>,
    pub initial_img: Vec<String>,
    pub modified_img: ImgPaths,
    /// Bits per pixel channel. (Preferably 1 or 2.) Not allowed to be more than 4.
    pub bits: u8,
    pub ty: MsgType,
}

impl DeltaHider {
    /// Hides the message in `imgs`, the images at `initial_img` in order, and gives how many
    /// of them (from the first) were changed and are to be saved.
    pub fn hide_msg(self, imgs: &mut Vec<Img>) -> (r: Result<usize>)
        requires
            1 <= self.bits <= 7,
        ensures
            delta_hide_outcome(old(imgs)@, final(imgs)@, r, self.msg@, self.ty, self.bits),
    {
        let mut writer = match DeltaByteMsgWriter::new(self.msg, self.bits, self.ty) {
            Ok(w) => w,
            Err(e) => return Err(e),
        };
        let ghost data = writer.data();
        let ghost k = self.bits;
        let ghost orig = imgs@;
        let n = imgs.len();
        let mut i: usize = 0;
        proof {
            writer.lemma_wf();
            assert(stream_len(data, k) >= 5) by (nonlinear_arith) requires data.len() >= 5, stream_len(data, k) == data.len() * crate::bits::chunks_per_byte(k), crate::bits::chunks_per_byte(k) >= 1;
        }
        while i < n
            invariant_except_break
                writer.written() < stream_len(data, k),
            invariant
                n == imgs@.len(),
                n == orig.len(),
                writer.wf(),
                writer.data() == data,
                writer.bits() == k,
                1 <= k <= 7,
                data == msg_header(self.ty, self.msg@.len()) + self.msg@,
                i <= n,
                writer.written() == (if chans_before(orig, i as int) <= stream_len(data, k) { chans_before(orig, i as int) } else { stream_len(data, k) }),
                i >= 1 ==> chans_before(orig, i - 1) < stream_len(data, k),
                forall|j: int| 0 <= j < i ==> {
                    &&& (#[trigger] imgs@[j]).chans@ == delta_hidden(orig, data, k, j)
                    &&& imgs@[j].width == orig[j].width
                    &&& imgs@[j].height == orig[j].height
                    &&& imgs@[j].path == orig[j].path
                },
                forall|j: int| i <= j < n ==> #[trigger] imgs@[j] == orig[j],
            ensures
                i <= n,
                writer.wf(),
                writer.data() == data,
                writer.bits() == k,
                writer.written() == (if chans_before(orig, i as int) <= stream_len(data, k) { chans_before(orig, i as int) } else { stream_len(data, k) }),
                i >= 1 ==> chans_before(orig, i - 1) < stream_len(data, k),
                i < n ==> writer.remaining() == 0 && i >= 1,
                forall|j: int| 0 <= j < i ==> {
                    &&& (#[trigger] imgs@[j]).chans@ == delta_hidden(orig, data, k, j)
                    &&& imgs@[j].width == orig[j].width
                    &&& imgs@[j].height == orig[j].height
                    &&& imgs@[j].path == orig[j].path
                },
                forall|j: int| i <= j < n ==> #[trigger] imgs@[j] == orig[j],
            decreases n - i,
        {
            let ghost before = writer.written();
            let mut img = imgs.remove(i);
            let ghost c0 = img.chans@;
            assert(img == orig[i as int]);
            let w = writer.write(&mut img.chans);
            proof {
                writer.lemma_wf();
                let l = stream_len(data, k);
                assert(chans_before(orig, i + 1) == chans_before(orig, i as int) + c0.len());
                assert(img.chans@ =~= delta_encoded(c0, data, k, chans_before(orig, i as int)));
            }
            imgs.insert(i, img);
            i = i + 1;
            proof {
                assert forall|j: int| i <= j < n implies #[trigger] imgs@[j] == orig[j] by {}
            }
            if writer.is_done() {
                break;
            }
        }
        proof {
            let l = stream_len(data, k);
            lemma_chans_before_mono(orig, i as int, n as int);
            assert forall|j: int| i <= j < n implies (#[trigger] imgs@[j]).chans@ == delta_hidden(orig, data, k, j) by {
                lemma_chans_before_mono(orig, i as int, j);
                assert(imgs@[j].chans@ =~= delta_hidden(orig, data, k, j));
            }
        }
        if !writer.is_done() {
            return Err(Error::NotEnoughSizeOfInit(writer.bytes_left()));
        }
        Ok(i)
    }
}

/// Channels counted over more images are no fewer.
pub proof fn lemma_chans_before_mono(imgs: Seq<Img>, i: int, j: int)
    requires
        0 <= i <= j <= imgs.len(),
    ensures
        chans_before(imgs, i) <= chans_before(imgs, j),
    decreases j - i,
{
    if i < j {
        lemma_chans_before_mono(imgs, i, j - 1);
    }
}

/// Reveals what [`DeltaHider`] hid, from the initial and the modified images.
pub struct DeltaRevealer {
    pub initial_img: Vec<String>,
    pub modified_img: Vec<String>,
    pub save_path: Option<String>,
    pub bits: u8,
}

impl DeltaRevealer {
    /// Reads the message from `initial` and `modified`, the images at `initial_img` and
    /// `modified_img`, pair by pair.
    pub fn reveal_msg(&self, initial: &Vec<Img>, modified: &Vec<Img>) -> (r: Result<(Vec<u8>, MsgType)>)
        ensures
            match spec_delta_reveal(initial@, modified@, self.bits) {
                Ok((m, t)) => r matches Ok((v, t2)) && v@ == m && t2 == t,
                Err(e) => r == Err::<(Vec<u8>, MsgType), Error>(e),
            },
    {
        let mut msg_reader = DeltaByteMsgReader::new(self.bits);
        let ghost k = self.bits;
        let ghost st0 = msg_reader.state();
        let n = if initial.len() <= modified.len() { initial.len() } else { modified.len() };
        let mut i: usize = 0;
        proof {
            assert(initial@.skip(0) =~= initial@);
            assert(modified@.skip(0) =~= modified@);
        }
        while i < n
            invariant_except_break
                !msg_finished(msg_reader.state().2),
                delta_reveal_scan(st0, initial@, modified@, k) == delta_reveal_scan(msg_reader.state(), initial@.skip(i as int), modified@.skip(i as int), k),
            invariant
                i <= n,
                n <= initial@.len(),
                n <= modified@.len(),
                n == initial@.len() || n == modified@.len(),
                msg_reader.wf(),
                msg_reader.bits() == k,
                k == self.bits,
                st0 == (0u8, 0u8, Seq::<u8>::empty()),
            ensures
                msg_reader.wf(),
                delta_reveal_scan(st0, initial@, modified@, k) == Ok::<(u8, u8, Seq<u8>), Error>(msg_reader.state()),
            decreases n - i,
        {
            let img_a = &initial[i];
            let img_b = &modified[i];
            let ghost sa = initial@.skip(i as int);
            let ghost sb = modified@.skip(i as int);
            let ghost st_i = msg_reader.state();
            proof {
                assert(sa.len() > 0 && sb.len() > 0);
                assert(initial@.skip(i as int)[0] == initial@[i as int]);
                assert(modified@.skip(i as int)[0] == modified@[i as int]);
                assert(initial@.skip(i as int).drop_first() =~= initial@.skip(i + 1));
                assert(modified@.skip(i as int).drop_first() =~= modified@.skip(i + 1));
            }
            if img_a.width() != img_b.width() || img_a.height() != img_b.height() {
                assert(delta_reveal_scan(st_i, sa, sb, k) == Err::<(u8, u8, Seq<u8>), Error>(Error::ImageInconsistentSize(img_a.width, img_a.height, img_b.width, img_b.height)));
                assert(spec_delta_reveal(initial@, modified@, k) == Err::<(Seq<u8>, MsgType), Error>(Error::ImageInconsistentSize(img_a.width, img_a.height, img_b.width, img_b.height)));
                return Err(Error::ImageInconsistentSize(img_a.width(), img_a.height(), img_b.width(), img_b.height()));
            }
            match msg_reader.read(img_a.chans.as_slice(), img_b.chans.as_slice()) {
                Err(e) => {
                    assert(delta_reveal_scan(st_i, sa, sb, k) == Err::<(u8, u8, Seq<u8>), Error>(e));
                    return Err(e);
                }
                Ok(()) => {}
            }
            proof {
                let st2 = scan_msg(st_i, deltas(sa[0].chans@, sb[0].chans@), k);
                assert(msg_reader.state() == st2);
                if !msg_finished(st2.2) {
                    assert(delta_reveal_scan(st_i, sa, sb, k) == delta_reveal_scan(st2, sa.drop_first(), sb.drop_first(), k));
                } else {
                    assert(delta_reveal_scan(st_i, sa, sb, k) == Ok::<(u8, u8, Seq<u8>), Error>(st2));
                }
            }
            i = i + 1;
            proof {
                if i >= n {
                    if n == initial@.len() {
                        assert(initial@.skip(i as int).len() == 0);
                    } else {
                        assert(modified@.skip(i as int).len() == 0);
                    }
                    assert(delta_reveal_scan(msg_reader.state(), initial@.skip(i as int), modified@.skip(i as int), k) == Ok::<(u8, u8, Seq<u8>), Error>(msg_reader.state()));
                }
            }
            if msg_reader.is_finished() {
                break;
            }
        }
        proof { msg_reader.lemma_wf(); }
        let ty = match msg_reader.ty() {
            Some(ty) => ty,
            None => return Err(Error::UnreadedHeader),
        };
        let msg = match msg_reader.take_msg() {
            Some(msg) => msg,
            None => return Err(Error::UnreadedHeader),
        };
        Ok((msg, ty))
    }
}

} // verus!

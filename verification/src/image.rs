//! The arboard backend: text and raw images.
use vstd::prelude::*;
use vstd::slice::*;
use vstd::string::*;

use crate::clipboard;
use crate::clipboard::payload_of_text;
use crate::data;
use crate::data::{ClipboardData, MimeEntry};
use crate::error::MyResult;
use crate::words;
use crate::words::{push_le_bytes, word_at, ByteOrder};

verus! {

/// An image as raw RGBA pixels.
pub struct RawImage {
    pub width: usize,
    pub height: usize,
    pub bytes: Vec<u8>,
}

/// What an image holds.
#[verifier::ext_equal]
pub struct ImageView {
    pub width: nat,
    pub height: nat,
    pub bytes: Seq<u8>,
}

impl View for RawImage {
    type V = ImageView;

    open spec fn view(&self) -> ImageView {
        ImageView { width: self.width as nat, height: self.height as nat, bytes: self.bytes@ }
    }
}

/// The low 32 bits of a number.
pub open spec fn low_word(x: nat) -> u32 {
    (x % 0x1_0000_0000) as u32
}

/// The bytes of a raw image: its width and height as 32-bit words, the lowest
/// byte first, then the pixels.
pub open spec fn encoded_image(image: ImageView) -> Seq<u8> {
    words::le_bytes(low_word(image.width)) + words::le_bytes(low_word(image.height)) + image.bytes
}

/// The payload of a raw image.
pub open spec fn image_payload(image: ImageView) -> Seq<data::EntryView> {
    seq![data::EntryView { mime_type: "image/x-raw-rgba"@, data: encoded_image(image) }]
}

/// The width in the prefix of a raw image.
pub open spec fn prefix_width(raw: Seq<u8>) -> u32
    recommends
        raw.len() >= 8,
{
    words::word_of(ByteOrder::Little, raw.subrange(0, 4))
}

/// The height in the prefix of a raw image.
pub open spec fn prefix_height(raw: Seq<u8>) -> u32
    recommends
        raw.len() >= 8,
{
    words::word_of(ByteOrder::Little, raw.subrange(4, 8))
}

/// How many pixel bytes the prefix announces.
pub open spec fn announced_size(raw: Seq<u8>) -> int
    recommends
        raw.len() >= 8,
{
    prefix_width(raw) * prefix_height(raw) * 4
}

/// The image in raw bytes, when the prefix is there and announces as many
/// pixel bytes as follow it.
pub open spec fn decoded_image(raw: Seq<u8>) -> Option<ImageView> {
    if raw.len() >= 8 && raw.len() - 8 == announced_size(raw) {
        Some(
            ImageView {
                width: prefix_width(raw) as nat,
                height: prefix_height(raw) as nat,
                bytes: raw.skip(8),
            },
        )
    } else {
        None
    }
}

/// Whether the size that a raw image in the payload announces can be counted.
pub open spec fn image_size_counts(entries: Seq<data::EntryView>) -> bool {
    data::bytes_for(entries, "image/x-raw-rgba"@) matches Some(raw) ==> (raw.len() >= 8
        ==> announced_size(raw) <= usize::MAX)
}

/// What to set on the clipboard.
pub enum ArPlan {
    Nothing,
    Image(RawImage),
    Text(String),
}

/// What a plan amounts to.
pub enum ArPlanView {
    Nothing,
    Image(ImageView),
    Text(Seq<char>),
}

impl View for ArPlan {
    type V = ArPlanView;

    open spec fn view(&self) -> ArPlanView {
        match *self {
            ArPlan::Nothing => ArPlanView::Nothing,
            ArPlan::Image(image) => ArPlanView::Image(image@),
            ArPlan::Text(t) => ArPlanView::Text(t@),
        }
    }
}

/// What to set for a payload: its raw image if it has a sound one, otherwise
/// its text if it has any.
pub open spec fn ar_plan_of(entries: Seq<data::EntryView>) -> ArPlanView {
    let image = match data::bytes_for(entries, "image/x-raw-rgba"@) {
        Some(raw) => decoded_image(raw),
        None => None,
    };
    match image {
        Some(i) => ArPlanView::Image(i),
        None => match data::text_of(entries) {
            Some(t) => ArPlanView::Text(t),
            None => ArPlanView::Nothing,
        },
    }
}

/// The low 32 bits of a number.
fn to_low_word(x: usize) -> (r: u32)
    ensures
        r == low_word(x as nat),
{
    ((x as u64) % 0x1_0000_0000) as u32
}

/// The payload of a raw image: raw RGBA with an 8-byte width/height prefix, so
/// that it can be reconstructed without an image decoder.
pub fn encode_image(image: &RawImage) -> (r: ClipboardData)
    ensures
        r@ == image_payload(image@),
{
    let mut raw: Vec<u8> = Vec::new();
    push_le_bytes(&mut raw, to_low_word(image.width));
    push_le_bytes(&mut raw, to_low_word(image.height));
    let mut pixels = slice_to_vec(image.bytes.as_slice());
    raw.append(&mut pixels);
    assert(raw@ =~= encoded_image(image@));
    let entry = MimeEntry { mime_type: "image/x-raw-rgba".to_owned(), data: raw };
    let r = ClipboardData { entries: vec![entry] };
    assert(r@ =~= image_payload(image@));
    r
}

/// Returns `true` if the size that a raw image in the payload announces can be
/// counted on this machine.
pub fn can_count_image_size(payload: &ClipboardData) -> (r: bool)
    ensures
        r == image_size_counts(payload@),
{
    match payload.get_mime("image/x-raw-rgba") {
        Some(raw) => {
            if raw.len() < 8 {
                return true;
            }
            let width = word_at(ByteOrder::Little, raw, 0) as u128;
            let height = word_at(ByteOrder::Little, raw, 4) as u128;
            assert(width * height <= 0xffff_ffff * 0xffff_ffff) by (nonlinear_arith)
                requires
                    width <= 0xffff_ffff,
                    height <= 0xffff_ffff,
            ;
            width * height * 4 <= usize::MAX as u128
        },
        None => true,
    }
}

/// The image in raw bytes.
fn decode_image(raw: &[u8]) -> (r: Option<RawImage>)
    requires
        raw@.len() >= 8 ==> announced_size(raw@) <= usize::MAX,
    ensures
        r is Some <==> decoded_image(raw@) is Some,
        r matches Some(i) ==> decoded_image(raw@) == Some(i@),
{
    if raw.len() < 8 {
        return None;
    }
    let width = word_at(ByteOrder::Little, raw, 0) as usize;
    let height = word_at(ByteOrder::Little, raw, 4) as usize;
    assert(width * height >= 0) by (nonlinear_arith)
        requires
            width >= 0,
            height >= 0,
    ;
    let size: usize = width * height * 4;
    if raw.len() - 8 == size {
        let bytes = slice_to_vec(slice_subrange(raw, 8, raw.len()));
        assert(bytes@ =~= raw@.skip(8));
        Some(RawImage { width, height, bytes })
    } else {
        None
    }
}

/// arboard-based clipboard backend.
#[derive(Debug)]
pub struct ArClipboard {
    pub display: String,
}

impl ArClipboard {
    /// The payload for what the clipboard gave: image content is preferred
    /// (richer), text is the fallback.
    pub fn get_data(&self, image: Option<RawImage>, read: Option<String>) -> (r: ClipboardData)
        ensures
            r@ == match image {
                Some(i) => image_payload(i@),
                None => clipboard::plain_payload(
                    match read {
                        Some(t) => Some(t@),
                        None => None,
                    },
                ),
            },
    {
        match image {
            Some(i) => encode_image(&i),
            None => payload_of_text(read),
        }
    }

    /// What to set on the clipboard for a payload.
    pub fn set_plan(&self, payload: &ClipboardData) -> (plan: ArPlan)
        requires
            image_size_counts(payload@),
        ensures
            plan@ == ar_plan_of(payload@),
    {
        let image = match payload.get_mime("image/x-raw-rgba") {
            Some(raw) => decode_image(raw),
            None => None,
        };
        match image {
            Some(i) => ArPlan::Image(i),
            None => match payload.text() {
                Some(t) => ArPlan::Text(t),
                None => ArPlan::Nothing,
            },
        }
    }

    /// Sets what `set_plan` says through `set_image` or `set_text`; nothing is
    /// set of a payload with neither.
    pub fn set_data<I: Fn(RawImage) -> MyResult<()>, T: Fn(String) -> MyResult<()>>(
        &self,
        payload: &ClipboardData,
        set_image: I,
        set_text: T,
    ) -> (r: MyResult<()>)
        requires
            image_size_counts(payload@),
            forall|i: RawImage| call_requires(set_image, (i,)),
            forall|t: String| call_requires(set_text, (t,)),
        ensures
            match ar_plan_of(payload@) {
                ArPlanView::Nothing => r is Ok,
                ArPlanView::Image(image) => exists|i: RawImage|
                    i@ == image && #[trigger] call_ensures(set_image, (i,), r),
                ArPlanView::Text(text) => exists|t: String|
                    t@ == text && #[trigger] call_ensures(set_text, (t,), r),
            },
    {
        match self.set_plan(payload) {
            ArPlan::Nothing => Ok(()),
            ArPlan::Image(i) => set_image(i),
            ArPlan::Text(t) => set_text(t),
        }
    }

    pub fn display(&self) -> (r: String)
        ensures
            r@ == self.display@,
    {
        self.display.clone()
    }
}

/// An image whose pixels fit its size reads back from its payload, unless a
/// side is too long for the prefix.
pub proof fn law_image_reads_back(image: ImageView)
    requires
        image.width <= u32::MAX,
        image.height <= u32::MAX,
        image.bytes.len() == image.width * image.height * 4,
    ensures
        ar_plan_of(image_payload(image)) == ArPlanView::Image(image),
{
    let raw = encoded_image(image);
    let w = low_word(image.width);
    let h = low_word(image.height);
    words::law_le_bytes_read_back(w);
    words::law_le_bytes_read_back(h);
    assert(raw.subrange(0, 4) =~= words::le_bytes(w));
    assert(raw.subrange(4, 8) =~= words::le_bytes(h));
    assert(raw.skip(8) =~= image.bytes);
    assert(decoded_image(raw) == Some(image));
    let payload = image_payload(image);
    let f = |e: data::EntryView|
        if e.mime_type == "image/x-raw-rgba"@ {
            Some(e.data)
        } else {
            None
        };
    data::lemma_first_some(payload, f, 0);
}

/// The payload of an image is one entry: width and height in four bytes each,
/// the lowest first, then the pixels unchanged.
pub proof fn law_image_bytes(image: ImageView)
    ensures
        image_payload(image).len() == 1,
        image_payload(image)[0].mime_type == "image/x-raw-rgba"@,
        ({
            let raw = image_payload(image)[0].data;
            &&& raw.len() == 8 + image.bytes.len()
            &&& raw[0] + 256 * raw[1] + 65536 * raw[2] + 16777216 * raw[3] == image.width
                % 0x1_0000_0000
            &&& raw[4] + 256 * raw[5] + 65536 * raw[6] + 16777216 * raw[7] == image.height
                % 0x1_0000_0000
            &&& forall|i: int|
                0 <= i < image.bytes.len() ==> #[trigger] raw[8 + i] == image.bytes[i]
        }),
{
    let w = low_word(image.width);
    let h = low_word(image.height);
    words::law_le_bytes_add_up(w);
    words::law_le_bytes_add_up(h);
    let raw = image_payload(image)[0].data;
    assert(raw =~= words::le_bytes(w) + words::le_bytes(h) + image.bytes);
}

/// Bytes are an image exactly when eight of them give its width and height and
/// four for each of its pixels follow; these are its pixels.
pub proof fn law_which_bytes_are_an_image(raw: Seq<u8>)
    ensures
        ({
            let w = raw[0] + 256 * raw[1] + 65536 * raw[2] + 16777216 * raw[3];
            let h = raw[4] + 256 * raw[5] + 65536 * raw[6] + 16777216 * raw[7];
            &&& decoded_image(raw) is Some <==> raw.len() >= 8 && raw.len() == 8 + w * h * 4
            &&& decoded_image(raw) matches Some(image) ==> image.width == w && image.height == h
                && image.bytes.len() == raw.len() - 8 && forall|i: int|
                0 <= i < image.bytes.len() ==> #[trigger] image.bytes[i] == raw[8 + i]
        }),
{
    if raw.len() >= 8 {
        let w = raw[0] + 256 * raw[1] + 65536 * raw[2] + 16777216 * raw[3];
        let h = raw[4] + 256 * raw[5] + 65536 * raw[6] + 16777216 * raw[7];
        assert(prefix_width(raw) == w);
        assert(prefix_height(raw) == h);
    }
}

/// What is set on the clipboard: the first raw image entry if it is sound,
/// otherwise the text of the payload if it has any, otherwise nothing.
pub proof fn law_image_before_text(entries: Seq<data::EntryView>)
    ensures
        ({
            let raw = data::bytes_for(entries, "image/x-raw-rgba"@);
            let sound = raw is Some && decoded_image(raw->0) is Some;
            let t = data::text_of(entries);
            &&& sound ==> ar_plan_of(entries) == ArPlanView::Image(decoded_image(raw->0)->0)
            &&& !sound && t is Some ==> ar_plan_of(entries) == ArPlanView::Text(t->0)
            &&& !sound && t is None ==> ar_plan_of(entries) == ArPlanView::Nothing
        }),
{
}

/// The size of an image can be counted unless there is a raw image entry whose
/// first eight bytes announce more pixel bytes than there can be.
pub proof fn law_when_an_image_size_counts(entries: Seq<data::EntryView>)
    ensures
        ({
            let found = data::bytes_for(entries, "image/x-raw-rgba"@);
            let raw = found->0;
            let w = raw[0] + 256 * raw[1] + 65536 * raw[2] + 16777216 * raw[3];
            let h = raw[4] + 256 * raw[5] + 65536 * raw[6] + 16777216 * raw[7];
            image_size_counts(entries) <==> found is None || raw.len() < 8 || w * h * 4
                <= usize::MAX
        }),
{
    let raw = data::bytes_for(entries, "image/x-raw-rgba"@)->0;
    if raw.len() >= 8 {
        let w = raw[0] + 256 * raw[1] + 65536 * raw[2] + 16777216 * raw[3];
        let h = raw[4] + 256 * raw[5] + 65536 * raw[6] + 16777216 * raw[7];
        assert(prefix_width(raw) == w);
        assert(prefix_height(raw) == h);
    }
}

} // verus!

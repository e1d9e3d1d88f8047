//! QR codes: showing them and making sense of scanned ones.

use crate::base64_text::{
    decode_standard, decode_url_safe, decoded, encode_url_safe, encoded, law_decoded_encoded,
    law_forms_agree,
};
use crate::ecash::{bundle_in_text, lemma_decoded_is, parse_notes};
use crate::notes::push_bytes;
use crate::text::{decimal, push_decimal, texts};
use qrcode::render::svg;
use vstd::prelude::*;
use vstd::utf8::encode_utf8;

verus! {

/// How wide and how high a QR code is at least.
pub const QR_SIZE: u32 = 200;

/// How many bytes a QR code may hold so that it is drawn.
pub const QR_ROOM: usize = 264;

/// How many characters the largest QR code holds, at medium error correction, if they are digits.
pub const QR_DIGITS: usize = 5596;

/// So many bytes are either few enough to be drawn or too many for any QR code.
pub open spec fn drawable(n: nat) -> bool {
    n <= QR_ROOM || QR_DIGITS < n && 33 * n <= usize::MAX
}

/// The picture that `qrcode` makes of the data, with the given least width and height and the
/// given colours, or what it says is wrong.
pub uninterp spec fn qr_picture(
    data: Seq<u8>,
    width: u32,
    height: u32,
    dark: Seq<char>,
    light: Seq<char>,
) -> Result<Seq<char>, Seq<char>>;

/// `QrCode::new` and, on what it gives, `QrCode::render`, `Renderer::min_dimensions`,
/// `Renderer::dark_color`, `Renderer::light_color` and `Renderer::build` with the pixels of
/// `render::svg`: the picture as SVG, or the text of the error. What the picture looks like, and
/// for which data there is none, is left open here.
///
/// The crate rates each way to mask a code with a score that it adds up in a `u16`, which large
/// codes can overflow. It cannot in a code of up to version 15, which is 77 modules wide. With the
/// modules of the finder, timing and alignment patterns as they are and each other one as it adds
/// most, and with every block of four modules counted half for its row and half for its column,
/// the rows add up to no more than 32926 and so do the columns. The balance adds no more than 100,
/// and for each direction the crate takes off 360, which the finder patterns always make up for:
/// that is no more than 65232. Such a code holds 3320 bits. The crate cuts the data into segments
/// of one character set each and joins two of them unless they are shorter apart, which takes the
/// most bits where two digits and two bytes of a kanji take turns, 25 bits for two bytes: that is
/// no more than 3303 bits for 264 bytes. More than 5596 bytes do not fit into any code, as a byte
/// takes at least three and a third bits, and the crate refuses them before it rates anything.
///
/// The crate counts up to thirty-three bits for a byte of data and adds the number of modules,
/// which is less than two hundred, to the width and the height, so the numbers have to leave room
/// for that.
#[verifier::external_body]
pub(crate) fn qr_svg(data: &[u8], width: u32, height: u32, dark: &str, light: &str) -> (picture:
    Result<String, String>)
    requires
        drawable(data@.len()),
        width <= 0xffff,
        height <= 0xffff,
    ensures
        match picture {
            Ok(picture) => qr_picture(data@, width, height, dark@, light@) == Ok::<
                Seq<char>,
                Seq<char>,
            >(picture@),
            Err(e) => qr_picture(data@, width, height, dark@, light@) == Err::<
                Seq<char>,
                Seq<char>,
            >(e@),
        },
{
    let code = qrcode::QrCode::new(data).map_err(|e| e.to_string())?;
    Ok(
        code.render().min_dimensions(width, height).dark_color(svg::Color(dark)).light_color(
            svg::Color(light),
        ).build(),
    )
}

/// The QR code of a text, black on white, or what is wrong.
pub open spec fn qr_code(text: Seq<char>) -> Result<Seq<char>, Seq<char>> {
    match qr_picture(encode_utf8(text), QR_SIZE, QR_SIZE, "#000000"@, "#ffffff"@) {
        Ok(picture) => Ok(picture),
        Err(e) => Err("QR encode error: "@ + e),
    }
}

/// Whether a QR code of the text can be asked for.
pub fn can_draw(data: &str) -> (yes: bool)
    ensures
        yes == drawable(encode_utf8(data@).len()),
{
    let n: usize = data.as_bytes().len();
    n <= QR_ROOM || QR_DIGITS < n && n <= usize::MAX / 33
}

/// Draws the QR code of a text as SVG.
pub fn generate_qr_svg(data: &str) -> (picture: Result<String, String>)
    requires
        drawable(encode_utf8(data@).len()),
    ensures
        match picture {
            Ok(picture) => qr_code(data@) == Ok::<Seq<char>, Seq<char>>(picture@),
            Err(e) => qr_code(data@) == Err::<Seq<char>, Seq<char>>(e@),
        },
{
    match qr_svg(data.as_bytes(), QR_SIZE, QR_SIZE, "#000000", "#ffffff") {
        Ok(picture) => Ok(picture),
        Err(e) => {
            let mut message = "QR encode error: ".to_string();
            message.append(e.as_str());
            Err(message)
        },
    }
}

/// What a text is cut into frames as: what it stands for in base64 with the url-safe or else with
/// the standard alphabet, or else the text itself.
pub open spec fn payload(text: Seq<char>) -> Seq<u8> {
    match decoded(true, true, text) {
        Some(bytes) => bytes,
        None => match decoded(false, true, text) {
            Some(bytes) => bytes,
            None => encode_utf8(text),
        },
    }
}

/// Finds what a text is cut into frames as.
pub fn qr_payload(ecash_base64: &str) -> (bytes: Vec<u8>)
    ensures
        bytes@ == payload(ecash_base64@),
{
    let bytes = decode_url_safe(ecash_base64);
    proof {
        lemma_decoded_is(true, true, ecash_base64@, bytes);
    }
    if let Some(bytes) = bytes {
        return bytes;
    }
    let bytes = decode_standard(ecash_base64);
    proof {
        lemma_decoded_is(false, true, ecash_base64@, bytes);
    }
    if let Some(bytes) = bytes {
        return bytes;
    }
    let mut bytes: Vec<u8> = Vec::new();
    push_bytes(&mut bytes, ecash_base64.as_bytes());
    assert(bytes@ =~= encode_utf8(ecash_base64@));
    bytes
}

/// The frames to show for a text: those that it was cut into, or the text as a single one where
/// it could not be cut.
pub fn split_for_animated_qr(ecash_base64: &str, frames: Option<Vec<String>>) -> (shown: Vec<
    String,
>)
    ensures
        match frames {
            Some(frames) => if frames@.len() > 0 {
                shown@ == frames@
            } else {
                texts(shown@) == seq![ecash_base64@]
            },
            None => texts(shown@) == seq![ecash_base64@],
        },
        shown@.len() > 0,
{
    if let Some(frames) = frames {
        if frames.len() > 0 {
            return frames;
        }
    }
    let mut shown: Vec<String> = Vec::new();
    shown.push(ecash_base64.to_string());
    assert(texts(shown@) =~= seq![ecash_base64@]);
    shown
}

/// The frame that is shown after the one at place `current`.
pub fn next_frame(current: usize, count: usize) -> (next: usize)
    requires
        count > 0,
        current < usize::MAX,
    ensures
        next == (current + 1) % count as int,
        next < count,
{
    (current + 1) % count
}

/// Says which frame is shown.
pub fn frame_label(current: usize, count: usize) -> (label: String)
    requires
        current < usize::MAX,
    ensures
        label@ == "Frame "@ + decimal(current as nat + 1) + "/"@ + decimal(count as nat),
{
    let mut label = "Frame ".to_string();
    push_decimal(&mut label, (current + 1) as u64);
    label.append("/");
    push_decimal(&mut label, count as u64);
    label
}

/// What comes of a scanned frame. How far one has got is of the type `P`.
#[derive(Clone, Debug)]
pub enum ProcessResult<P> {
    /// All frames have been scanned, and this is what they hold.
    Complete(String),
    /// More frames are missing.
    Progress(P),
    /// It was no frame.
    NotAFrame,
}

/// Judges a frame that was taken in: `complete` says whether all of them have been, and `data` is
/// what they hold, if they could be put together.
pub fn frame_result<P>(progress: P, complete: bool, data: Option<Vec<u8>>) -> (result:
    ProcessResult<P>)
    requires
        data matches Some(bytes) ==> (bytes@.len() + 2) / 3 * 4 <= isize::MAX,
    ensures
        match data {
            Some(bytes) => if complete {
                result matches ProcessResult::Complete(text) && text@ == encoded(
                    true,
                    true,
                    bytes@,
                )
            } else {
                result == ProcessResult::Progress(progress)
            },
            None => result == ProcessResult::Progress(progress),
        },
{
    if complete {
        if let Some(bytes) = data {
            return ProcessResult::Complete(encode_url_safe(&bytes));
        }
    }
    ProcessResult::Progress(progress)
}

/// What to do after a scan.
#[derive(Clone, Debug)]
pub enum ScanAction<P> {
    /// Stop, and handle this text.
    Finish(String),
    /// Show how far one has got, and scan on.
    Show(P),
    /// Scan on.
    ScanOn,
}

/// Whether a scanned text holds notes and need not be taken for a frame.
pub fn holds_notes(raw: &str) -> (yes: bool)
    ensures
        yes == (bundle_in_text(raw@) is Ok),
{
    parse_notes(raw).is_ok()
}

/// What to do after a scanned text was taken for a frame.
pub fn after_frame<P>(result: Option<ProcessResult<P>>) -> (action: ScanAction<P>)
    ensures
        match result {
            Some(ProcessResult::Complete(text)) => action == ScanAction::<P>::Finish(text),
            Some(ProcessResult::Progress(p)) => action == ScanAction::Show(p),
            _ => action is ScanOn,
        },
{
    match result {
        Some(ProcessResult::Complete(text)) => ScanAction::Finish(text),
        Some(ProcessResult::Progress(p)) => ScanAction::Show(p),
        _ => ScanAction::ScanOn,
    }
}

/// What was cut into frames comes out of them as it was, if it was padded url-safe base64.
pub proof fn law_frames_round_trip(bytes: Seq<u8>)
    ensures
        payload(encoded(true, true, bytes)) == bytes,
        encoded(true, true, payload(encoded(true, true, bytes))) == encoded(true, true, bytes),
{
    law_decoded_encoded(true, true, bytes);
}

/// What was put together out of standard base64 comes out as it was too.
pub proof fn law_standard_frames_round_trip(bytes: Seq<u8>)
    ensures
        payload(encoded(false, true, bytes)) == bytes,
{
    law_decoded_encoded(false, true, bytes);
    law_forms_agree(false, true, true, true, bytes);
}

/// Text that is no padded base64 is cut into frames as it is.
pub proof fn law_other_text_as_it_is(text: Seq<char>)
    requires
        forall|bytes: Seq<u8>| text != #[trigger] encoded(true, true, bytes),
        forall|bytes: Seq<u8>| text != #[trigger] encoded(false, true, bytes),
    ensures
        payload(text) == encode_utf8(text),
{
}

/// The frames are shown in turn, and the first one again after the last one.
pub proof fn law_frames_in_turn(current: usize, count: usize, next: usize)
    requires
        current < count,
        call_ensures(next_frame, (current, count), next),
    ensures
        current + 1 < count ==> next == current + 1,
        current + 1 == count ==> next == 0,
{
    if current + 1 < count {
        vstd::arithmetic::div_mod::lemma_small_mod((current + 1) as nat, count as nat);
    } else {
        vstd::arithmetic::div_mod::lemma_mod_self_0(count as int);
    }
}

/// What all the frames hold is handed on as text that stands for it, as soon as it is complete and
/// not before.
pub proof fn law_complete_frames_are_handed_on<P>(
    progress: P,
    complete: bool,
    data: Option<Vec<u8>>,
    result: ProcessResult<P>,
)
    requires
        call_ensures(frame_result::<P>, (progress, complete, data), result),
    ensures
        result is Complete <==> complete && data is Some,
        result matches ProcessResult::Complete(text) ==> (data matches Some(bytes) && decoded(
            true,
            true,
            text@,
        ) == Some(bytes@)),
        !(result is Complete) ==> result == ProcessResult::Progress(progress),
{
    if let Some(bytes) = data {
        law_decoded_encoded(true, true, bytes@);
    }
}

/// Any text of up to 264 bytes can be drawn.
pub proof fn law_short_texts_can_be_drawn(data: &str, yes: bool)
    requires
        call_ensures(can_draw, (data,), yes),
    ensures
        encode_utf8(data@).len() <= 264 ==> yes,
        264 < encode_utf8(data@).len() <= 5596 ==> !yes,
{
}

/// The picture is that of the text, black on white and two hundred wide and high.
pub proof fn law_picture_of_text(data: &str, picture: Result<String, String>)
    requires
        call_ensures(generate_qr_svg, (data,), picture),
    ensures
        qr_picture(encode_utf8(data@), 200, 200, "#000000"@, "#ffffff"@) matches Ok(drawn) ==> (
        picture matches Ok(picture) && picture@ == drawn),
        qr_picture(encode_utf8(data@), 200, 200, "#000000"@, "#ffffff"@) matches Err(e) ==> (picture
            matches Err(said) && said@ == "QR encode error: "@ + e),
{
}

/// What is cut into frames, for text in either form of padded base64.
pub proof fn law_cutting(text: &str, bytes: Vec<u8>, held: Seq<u8>)
    requires
        call_ensures(qr_payload, (text,), bytes),
        text@ == encoded(true, true, held) || text@ == encoded(false, true, held),
    ensures
        bytes@ == held,
{
    law_frames_round_trip(held);
    law_standard_frames_round_trip(held);
}

/// The scanner stops just where all frames have been scanned.
pub proof fn law_scanning_on<P>(result: Option<ProcessResult<P>>, action: ScanAction<P>)
    requires
        call_ensures(after_frame::<P>, (result,), action),
    ensures
        action is Finish <==> (result matches Some(result) && result is Complete),
        action is Show <==> (result matches Some(result) && result is Progress),
        action matches ScanAction::Finish(text) ==> result == Some(
            ProcessResult::<P>::Complete(text),
        ),
{
}

/// There is always a frame to show: those that were cut, or the text itself.
pub proof fn law_something_to_show(text: &str, frames: Option<Vec<String>>, shown: Vec<String>)
    requires
        call_ensures(split_for_animated_qr, (text, frames), shown),
    ensures
        shown@.len() > 0,
        frames matches Some(frames) ==> (frames@.len() > 0 ==> shown@ == frames@),
        frames is None ==> texts(shown@) == seq![text@],
        frames matches Some(frames) ==> (frames@.len() == 0 ==> texts(shown@) == seq![text@]),
{
}

/// Text that holds notes is told from a frame just by whether it can be read.
pub proof fn law_telling_notes(raw: &str, yes: bool)
    requires
        call_ensures(holds_notes, (raw,), yes),
    ensures
        yes <==> bundle_in_text(raw@) is Ok,
{
}

/// The frame that is shown is counted from one.
pub proof fn law_frames_are_counted(current: usize, count: usize, label: String, nth: nat)
    requires
        call_ensures(frame_label, (current, count), label),
        nth == current + 1,
    ensures
        label@ == "Frame "@ + decimal(nth) + "/"@ + decimal(count as nat),
{
}

} // verus!

use aa::clipboard::{
    ClipboardCall, ClipboardStep, GetClipboard, GetStage, SetClipboard, SetStage, GMEM_MOVEABLE,
};
use aa::clipboard::ClipboardCall::{
    CloseClipboard, CopyFromGlobal, CopyToGlobal, EmptyClipboard, GetClipboardData, GlobalAlloc,
    GlobalLock, GlobalSize, GlobalUnlock, OpenClipboard, SetClipboardData,
};
use aa::formats::ClipboardFormats;
use aa::types::{SystemInfoDummyStruct, SystemInfoDummyUnion};

#[test]
fn format_codes() {
    assert_eq!(ClipboardFormats::CF_TEXT.code(), 1);
    assert_eq!(ClipboardFormats::CF_UNICODETEXT.code(), 13);
    assert_eq!(ClipboardFormats::CF_HDROP.code(), 15);
    assert_eq!(ClipboardFormats::CF_DIBV5.code(), 17);
}

#[test]
fn dummy_union_views() {
    let u = SystemInfoDummyUnion { dw_oem_id: 0x0001_0009 };
    let s = u.dummy_struct();
    assert_eq!(s, SystemInfoDummyStruct { w_processor_architecture: 9, w_reserved: 1 });
    assert_eq!(SystemInfoDummyUnion::from_dummy_struct(s).dw_oem_id, 0x0001_0009);
}

fn run_set(replies: &[usize]) -> Vec<ClipboardStep> {
    let mut t = SetClipboard::new(14, ClipboardFormats::CF_UNICODETEXT);
    replies.iter().map(|r| t.step(*r)).collect()
}

#[test]
fn set_clipboard_success() {
    let steps = run_set(&[0, 1, 1, 7, 8, 0, 0, 9, 1]);
    assert_eq!(
        steps,
        vec![
            ClipboardStep::Call(OpenClipboard),
            ClipboardStep::Call(EmptyClipboard),
            ClipboardStep::Call(GlobalAlloc { flags: GMEM_MOVEABLE, bytes: 14 }),
            ClipboardStep::Call(GlobalLock),
            ClipboardStep::Call(CopyToGlobal { bytes: 14 }),
            ClipboardStep::Call(GlobalUnlock),
            ClipboardStep::Call(SetClipboardData { format: 13 }),
            ClipboardStep::Call(CloseClipboard),
            ClipboardStep::Finish(true),
        ]
    );
}

#[test]
fn set_clipboard_failures_close() {
    let steps = run_set(&[0, 0]);
    assert_eq!(steps.last(), Some(&ClipboardStep::Finish(false)));
    // Emptying fails: the clipboard is closed, then the error is reported.
    let steps = run_set(&[0, 1, 0, 1]);
    assert_eq!(steps[2], ClipboardStep::Call(ClipboardCall::CloseClipboard));
    assert_eq!(steps[3], ClipboardStep::Finish(false));
    // Setting the data fails.
    let steps = run_set(&[0, 1, 1, 7, 8, 0, 0, 0, 1, 5]);
    assert_eq!(steps[7], ClipboardStep::Call(ClipboardCall::CloseClipboard));
    assert_eq!(steps[8], ClipboardStep::Finish(false));
    assert_eq!(steps[9], ClipboardStep::Finish(false));
    // Closing fails.
    let steps = run_set(&[0, 1, 1, 7, 8, 0, 0, 9, 0]);
    assert_eq!(steps[8], ClipboardStep::Finish(false));
    let mut t = SetClipboard::new(1, ClipboardFormats::CF_TEXT);
    assert_eq!(t.stage, SetStage::Idle);
    t.step(0);
    assert_eq!(t.stage, SetStage::Opening);
}

fn run_get(elem: usize, replies: &[usize]) -> (Vec<ClipboardStep>, GetClipboard) {
    let mut t = GetClipboard::new(ClipboardFormats::CF_TEXT, elem);
    let steps = replies.iter().map(|r| t.step(*r)).collect();
    (steps, t)
}

#[test]
fn get_clipboard_success() {
    let (steps, t) = run_get(4, &[0, 1, 5, 6, 10, 0, 1, 1]);
    assert_eq!(
        steps,
        vec![
            ClipboardStep::Call(OpenClipboard),
            ClipboardStep::Call(GetClipboardData { format: 1 }),
            ClipboardStep::Call(GlobalLock),
            ClipboardStep::Call(GlobalSize),
            ClipboardStep::Call(CopyFromGlobal { count: 2 }),
            ClipboardStep::Call(GlobalUnlock),
            ClipboardStep::Call(CloseClipboard),
            ClipboardStep::Finish(true),
        ]
    );
    assert_eq!(t.count, 2);
    assert_eq!(t.stage, GetStage::Finished(true));
}

#[test]
fn get_clipboard_failures_close() {
    // Less than one whole element.
    let (steps, _) = run_get(4, &[0, 1, 5, 6, 3, 1]);
    assert_eq!(steps[4], ClipboardStep::Call(ClipboardCall::CloseClipboard));
    assert_eq!(steps[5], ClipboardStep::Finish(false));
    // No data in this format.
    let (steps, _) = run_get(1, &[0, 1, 0, 1]);
    assert_eq!(steps[2], ClipboardStep::Call(ClipboardCall::CloseClipboard));
    assert_eq!(steps[3], ClipboardStep::Finish(false));
    // Unlocking reports 0.
    let (steps, _) = run_get(1, &[0, 1, 5, 6, 10, 0, 0, 1]);
    assert_eq!(steps[6], ClipboardStep::Call(ClipboardCall::CloseClipboard));
    assert_eq!(steps[7], ClipboardStep::Finish(false));
    // Opening fails: nothing to close.
    let (steps, _) = run_get(1, &[0, 0]);
    assert_eq!(steps[1], ClipboardStep::Finish(false));
}

#[test]
fn format_codes_are_distinct() {
    let all = [
        ClipboardFormats::CF_TEXT,
        ClipboardFormats::CF_BITMAP,
        ClipboardFormats::CF_METAFILEPICT,
        ClipboardFormats::CF_SYLK,
        ClipboardFormats::CF_DIF,
        ClipboardFormats::CF_TIFF,
        ClipboardFormats::CF_OEMTEXT,
        ClipboardFormats::CF_DIB,
        ClipboardFormats::CF_PALETTE,
        ClipboardFormats::CF_PENDATA,
        ClipboardFormats::CF_RIFF,
        ClipboardFormats::CF_WAVE,
        ClipboardFormats::CF_UNICODETEXT,
        ClipboardFormats::CF_ENHMETAFILE,
        ClipboardFormats::CF_HDROP,
        ClipboardFormats::CF_LOCALE,
        ClipboardFormats::CF_DIBV5,
    ];
    let codes: Vec<u32> = all.iter().map(|f| f.code()).collect();
    assert_eq!(codes, (1..=17).collect::<Vec<u32>>());
}

#[test]
fn dummy_struct_roundtrip() {
    let s = SystemInfoDummyStruct { w_processor_architecture: 0xABCD, w_reserved: 0x1234 };
    let u = SystemInfoDummyUnion::from_dummy_struct(s);
    assert_eq!(u.dw_oem_id, 0x1234_ABCD);
    assert_eq!(u.dummy_struct(), s);
}

#[test]
fn set_outcome_depends_only_on_checked_replies() {
    // Replies to the copy and the unlock are not looked at.
    for ignored in [0usize, 1] {
        let steps = run_set(&[5, 1, 1, 7, 8, ignored, ignored, 9, 1]);
        assert_eq!(steps[8], ClipboardStep::Finish(true));
    }
}

#[test]
fn zero_sized_elements_fail_only_when_sizing() {
    // Opening may still fail first, which reports the error as usual.
    let (steps, t) = run_get(0, &[0, 0]);
    assert_eq!(steps[1], ClipboardStep::Finish(false));
    assert_eq!(t.stage, GetStage::Finished(false));
    let (_, t) = run_get(0, &[0, 1, 5, 6]);
    assert_eq!(t.stage, GetStage::Sizing);
}

use proctree::extract::ACCESS_DENIED;
use proctree::{decode_wide, str_from_u8, str_from_u8_checked};
use proctree::{ExtractError, Extraction, ProcessInfo, Reply, Request, Stage, TextBuffer};

fn named(name: &str) -> ProcessInfo {
    ProcessInfo { name: name.to_string(), path: String::new(), arg: String::new() }
}

fn wide(text: &str) -> Vec<u8> {
    let mut bytes = Vec::new();
    for unit in text.encode_utf16() {
        bytes.push((unit & 0xff) as u8);
        bytes.push((unit >> 8) as u8);
    }
    bytes
}

fn failed(code: i32, message: &str) -> Reply {
    Reply::Failed { code, message: message.to_string() }
}

fn parameters(command_line: &[u8], image_path: &[u8]) -> Reply {
    Reply::Parameters {
        command_line: TextBuffer { address: 0x2000, length: command_line.len() as u16 },
        image_path: TextBuffer { address: 0x3000, length: image_path.len() as u16 },
    }
}

#[test]
fn proc_info_test() {
    let cmd = wide("notepad.exe C:\\notes.txt");
    let img = wide("C:\\Windows\\notepad.exe");
    let mut e = Extraction::begin(12196, ProcessInfo::default());
    assert_eq!(e.request(), Request::Open { pid: 12196 });
    e = e.advance(Reply::Opened);
    assert_eq!(e.request(), Request::QueryBasicInformation);
    e = e.advance(Reply::Address(0x7ff0_0000_1000));
    assert_eq!(e.request(), Request::ReadEnvironmentBlock { address: 0x7ff0_0000_1000 });
    e = e.advance(Reply::Address(0x1000));
    assert_eq!(e.request(), Request::ReadParameters { address: 0x1000 });
    e = e.advance(parameters(&cmd, &img));
    assert_eq!(e.request(), Request::ReadText { address: 0x2000, length: cmd.len() as u16 });
    e = e.advance(Reply::Bytes(cmd));
    assert_eq!(e.request(), Request::ReadText { address: 0x3000, length: img.len() as u16 });
    e = e.advance(Reply::Bytes(img));
    assert_eq!(e.request(), Request::Finish { release: true });
    let (info, result) = e.finish();
    result.unwrap();
    assert_eq!(info.arg, "notepad.exe C:\\notes.txt");
    assert_eq!(info.path, "C:\\Windows\\notepad.exe");
    assert_eq!(info.name, "");
}

#[test]
fn pid_zero_asks_for_nothing() {
    let e = Extraction::begin(0, named("idle"));
    assert_eq!(e.stage, Stage::Succeeded);
    assert_eq!(e.request(), Request::Finish { release: false });
    let (info, result) = e.finish();
    assert_eq!(result, Ok(()));
    assert_eq!(info.name, "idle");
    assert_eq!(info.path, "");
    assert_eq!(info.arg, "");
}

#[test]
fn access_denied_degrades_to_placeholders() {
    assert_eq!(ACCESS_DENIED, 0x80070005u32 as i32);
    let e = Extraction::begin(4, named("System")).advance(failed(ACCESS_DENIED, "Access is denied."));
    assert_eq!(e.request(), Request::Finish { release: false });
    let (info, result) = e.finish();
    assert_eq!(result, Ok(()));
    assert_eq!(info.name, "System");
    assert_eq!(info.path, "Access is denied.");
    assert_eq!(info.arg, "Access is denied.");
}

#[test]
fn other_open_failure_is_an_error() {
    let e = Extraction::begin(4, named("gone")).advance(failed(-2147024809, "The parameter is incorrect."));
    assert_eq!(e.request(), Request::Finish { release: false });
    let (info, result) = e.finish();
    assert_eq!(result, Err(ExtractError::OpenFailed { code: -2147024809 }));
    assert_eq!(info.path, "");
    assert_eq!(info.arg, "");
}

#[test]
fn read_failures_end_the_extraction_and_release_the_handle() {
    let e = Extraction::begin(9, named("p")).advance(Reply::Opened).advance(failed(-5, "q"));
    assert_eq!(e.request(), Request::Finish { release: true });
    assert_eq!(e.finish().1, Err(ExtractError::ReadFailed { code: -5 }));

    let e = Extraction::begin(9, named("p"))
        .advance(Reply::Opened)
        .advance(Reply::Address(1))
        .advance(failed(299, "partial copy"));
    assert_eq!(e.request(), Request::Finish { release: true });
    assert_eq!(e.finish().1, Err(ExtractError::ReadFailed { code: 299 }));

    let e = Extraction::begin(9, named("p"))
        .advance(Reply::Opened)
        .advance(Reply::Address(1))
        .advance(Reply::Address(2))
        .advance(failed(6, "bad handle"));
    assert_eq!(e.finish().1, Err(ExtractError::ReadFailed { code: 6 }));
}

fn after_command_line(last: Reply) -> (ProcessInfo, Result<(), ExtractError>) {
    let cmd = wide("a b");
    let given = ProcessInfo {
        name: "p".to_string(),
        path: "old path".to_string(),
        arg: "old arguments".to_string(),
    };
    let e = Extraction::begin(9, given)
        .advance(Reply::Opened)
        .advance(Reply::Address(1))
        .advance(Reply::Address(2))
        .advance(parameters(&cmd, &[0u8; 6]))
        .advance(Reply::Bytes(cmd));
    assert_eq!(e.info.arg, "old arguments");
    assert_eq!(e.command_line, "a b");
    let e = e.advance(last);
    assert_eq!(e.request(), Request::Finish { release: true });
    e.finish()
}

#[test]
fn details_are_as_given_when_the_image_path_fails() {
    let (info, result) = after_command_line(failed(299, "partial copy"));
    assert_eq!(result, Err(ExtractError::ReadFailed { code: 299 }));
    assert_eq!(info.name, "p");
    assert_eq!(info.path, "old path");
    assert_eq!(info.arg, "old arguments");

    let (info, result) = after_command_line(Reply::Bytes(vec![b'x', 0]));
    assert_eq!(result, Err(ExtractError::Truncated));
    assert_eq!(info.path, "old path");
    assert_eq!(info.arg, "old arguments");

    let (info, result) = after_command_line(Reply::Bytes(vec![0x00, 0xD8, b'a', 0, b'b', 0]));
    assert_eq!(result, Err(ExtractError::InvalidText));
    assert_eq!(info.path, "old path");
    assert_eq!(info.arg, "old arguments");

    let (info, result) = after_command_line(Reply::Opened);
    assert_eq!(result, Err(ExtractError::UnexpectedReply));
    assert_eq!(info.path, "old path");
    assert_eq!(info.arg, "old arguments");
}

#[test]
fn path_and_arguments_are_set_in_one_step() {
    let (info, result) = after_command_line(Reply::Bytes(wide("C:\\")));
    assert_eq!(result, Ok(()));
    assert_eq!(info.name, "p");
    assert_eq!(info.path, "C:\\");
    assert_eq!(info.arg, "a b");
}

#[test]
fn truncated_and_malformed_text_are_errors() {
    let cmd = wide("abc");
    let e = Extraction::begin(9, named("p"))
        .advance(Reply::Opened)
        .advance(Reply::Address(1))
        .advance(Reply::Address(2))
        .advance(parameters(&cmd, &cmd))
        .advance(Reply::Bytes(vec![b'a', 0]));
    assert_eq!(e.finish().1, Err(ExtractError::Truncated));

    let lone_surrogate = vec![0x00u8, 0xD8];
    let e = Extraction::begin(9, named("p"))
        .advance(Reply::Opened)
        .advance(Reply::Address(1))
        .advance(Reply::Address(2))
        .advance(parameters(&lone_surrogate, &cmd))
        .advance(Reply::Bytes(lone_surrogate));
    assert_eq!(e.request(), Request::Finish { release: true });
    assert_eq!(e.finish().1, Err(ExtractError::InvalidText));
}

#[test]
fn unexpected_replies_and_early_end() {
    let e = Extraction::begin(9, named("p")).advance(Reply::Address(3));
    assert_eq!(e.finish().1, Err(ExtractError::UnexpectedReply));
    let e = Extraction::begin(9, named("p")).advance(Reply::Opened).advance(Reply::Opened);
    assert_eq!(e.request(), Request::Finish { release: true });
    assert_eq!(e.finish().1, Err(ExtractError::UnexpectedReply));
    let e = Extraction::begin(9, named("p")).advance(Reply::Opened);
    assert_eq!(e.finish().1, Err(ExtractError::Unfinished));
    let e = Extraction::begin(0, named("p")).advance(Reply::Opened);
    assert_eq!(e.stage, Stage::Succeeded);
    assert!(e.stage.is_done());
    assert!(!Stage::Querying.is_done());
}

#[test]
fn wide_text_is_decoded_like_the_standard_library_does() {
    for text in ["", "plain", "gr\u{fc}\u{df}e", "\u{65e5}\u{672c}\u{8a9e}", "emoji \u{1F600} pair", "\u{10000}\u{10FFFF}"] {
        assert_eq!(decode_wide(&wide(text)), Some(text.to_string()));
        let units: Vec<u16> = text.encode_utf16().collect();
        assert_eq!(String::from_utf16(&units).ok(), decode_wide(&wide(text)));
    }
}

#[test]
fn wide_text_stops_at_the_first_zero_unit() {
    let mut bytes = wide("left");
    bytes.extend_from_slice(&[0, 0]);
    bytes.extend_from_slice(&wide("right"));
    assert_eq!(decode_wide(&bytes), Some("left".to_string()));
    assert_eq!(decode_wide(&[0, 0, 0x00, 0xD8]), Some(String::new()));
    assert_eq!(decode_wide(&[b'a', 0, b'b']), Some("ab".to_string()));
}

#[test]
fn unpaired_surrogates_are_rejected() {
    assert_eq!(decode_wide(&[0x00, 0xD8]), None);
    assert_eq!(decode_wide(&[0x00, 0xDC]), None);
    assert_eq!(decode_wide(&[0x00, 0xD8, b'a', 0x00]), None);
    assert_eq!(decode_wide(&[0x00, 0xDC, 0x00, 0xD8]), None);
    assert_eq!(decode_wide(&[0x3D, 0xD8, 0x00, 0xDE]), Some("\u{1F600}".to_string()));
}

#[test]
fn names_are_read_up_to_the_terminator() {
    assert_eq!(str_from_u8(b"svchost.exe\0\0\0junk"), "svchost.exe");
    assert_eq!(str_from_u8(b"no terminator"), "no terminator");
    assert_eq!(str_from_u8(b"\0rest"), "");
    assert_eq!(str_from_u8("gr\u{fc}n\0".as_bytes()), "gr\u{fc}n");
    assert_eq!(str_from_u8_checked(b"ok\0"), Some("ok".to_string()));
    assert_eq!(str_from_u8_checked(&[0xff, 0xfe, 0]), None);
    assert_eq!(str_from_u8_checked(&[b'a', 0, 0xff]), Some("a".to_string()));
}

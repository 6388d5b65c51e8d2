use img_process_server::command::{parse_u32, process_command, split_fields, Command};
use img_process_server::error::{Error, ErrorKind};

fn fields(text: &str) -> Vec<Vec<u8>> {
    split_fields(text.as_bytes())
}

fn words(items: &[&str]) -> Vec<Vec<u8>> {
    items.iter().map(|s| s.as_bytes().to_vec()).collect()
}

#[test]
fn split_keeps_every_field() {
    assert_eq!(fields("get|a.png|1|2"), words(&["get", "a.png", "1", "2"]));
    assert_eq!(fields("clear_cache"), words(&["clear_cache"]));
    assert_eq!(fields(""), words(&[""]));
    assert_eq!(fields("|"), words(&["", ""]));
    assert_eq!(fields("a||b|"), words(&["a", "", "b", ""]));
}

#[test]
fn split_agrees_with_str_split() {
    for text in ["setup|C:\\tmp\\cache|C:\\img|true", "gets|64|64|a.png|b.png|c.png", "||", "x"] {
        let expected: Vec<Vec<u8>> = text.split('|').map(|s| s.as_bytes().to_vec()).collect();
        assert_eq!(fields(text), expected);
    }
}

#[test]
fn split_then_join_is_the_text() {
    let text = b"gets|1|2||p q|\xff\xfe|";
    let parts = split_fields(text);
    assert_eq!(parts.join(&b'|'), text.to_vec());
    assert!(parts.iter().all(|p| !p.contains(&b'|')));
}

#[test]
fn numbers_are_decimal_and_fit_32_bits() {
    assert_eq!(parse_u32(b"0"), Some(0));
    assert_eq!(parse_u32(b"100"), Some(100));
    assert_eq!(parse_u32(b"007"), Some(7));
    assert_eq!(parse_u32(b"+5"), Some(5));
    assert_eq!(parse_u32(b"4294967295"), Some(u32::MAX));
    assert_eq!(parse_u32(b"4294967296"), None);
    assert_eq!(parse_u32(b"99999999999999999999999999"), None);
    assert_eq!(parse_u32(b""), None);
    assert_eq!(parse_u32(b"+"), None);
    assert_eq!(parse_u32(b"++5"), None);
    assert_eq!(parse_u32(b"-1"), None);
    assert_eq!(parse_u32(b"12a"), None);
    assert_eq!(parse_u32(b" 12"), None);
    assert_eq!(parse_u32(b"1 2"), None);
    assert_eq!(parse_u32(b"0x10"), None);
}

#[test]
fn numbers_agree_with_std() {
    let texts = [
        "0", "1", "+1", "-1", "", "+", "42", "0042", "4294967295", "4294967296", "1e3", "\u{661}\u{662}",
    ];
    for text in texts {
        assert_eq!(parse_u32(text.as_bytes()), text.parse::<u32>().ok());
    }
}

#[test]
fn setup_takes_two_directories_and_a_flag() {
    assert_eq!(
        process_command(&fields("setup|C:\\tmp\\cache|C:\\img|true")),
        Ok(Command::Setup {
            disk_cache_dir: b"C:\\tmp\\cache".to_vec(),
            working_dir: b"C:\\img".to_vec(),
            threaded_reads: true,
        })
    );
    for flag in ["false", "TRUE", "", "1", "true "] {
        let text = format!("setup|d|w|{flag}");
        assert_eq!(
            process_command(&fields(&text)),
            Ok(Command::Setup {
                disk_cache_dir: b"d".to_vec(),
                working_dir: b"w".to_vec(),
                threaded_reads: false,
            })
        );
    }
}

#[test]
fn get_takes_a_path_and_an_extent() {
    assert_eq!(
        process_command(&fields("get|sample.png|100|100")),
        Ok(Command::Get { path: b"sample.png".to_vec(), width: 100, height: 100 })
    );
    assert_eq!(
        process_command(&fields("get|https://host/x.png|32|64|ignored")),
        Ok(Command::Get { path: b"https://host/x.png".to_vec(), width: 32, height: 64 })
    );
}

#[test]
fn gets_takes_an_extent_and_paths() {
    assert_eq!(
        process_command(&fields("gets|64|64|a.png|b.png|c.png")),
        Ok(Command::Gets { width: 64, height: 64, paths: words(&["a.png", "b.png", "c.png"]) })
    );
    assert_eq!(
        process_command(&fields("gets|50|50|one.png")),
        Ok(Command::Gets { width: 50, height: 50, paths: words(&["one.png"]) })
    );
    assert_eq!(
        process_command(&fields("gets|1|2")),
        Ok(Command::Gets { width: 1, height: 2, paths: Vec::new() })
    );
}

#[test]
fn clear_cache_takes_nothing() {
    assert_eq!(process_command(&fields("clear_cache")), Ok(Command::ClearCache));
    assert_eq!(process_command(&fields("clear_cache|now")), Ok(Command::ClearCache));
}

#[test]
fn other_names_are_unknown() {
    assert_eq!(process_command(&fields("")), Ok(Command::Unknown(Vec::new())));
    assert_eq!(process_command(&fields("GET|a|1|1")), Ok(Command::Unknown(b"GET".to_vec())));
    assert_eq!(process_command(&fields("getz")), Ok(Command::Unknown(b"getz".to_vec())));
    assert_eq!(
        process_command(&fields(" setup|a|b|true")),
        Ok(Command::Unknown(b" setup".to_vec()))
    );
}

#[test]
fn missing_arguments_are_errors() {
    assert_eq!(process_command(&Vec::new()), Err(Error::MissingArgument));
    for text in ["setup", "setup|a", "setup|a|b", "get", "get|p", "get|p|1", "gets", "gets|1"] {
        assert_eq!(process_command(&fields(text)), Err(Error::MissingArgument), "{text}");
    }
}

#[test]
fn bad_numbers_are_errors() {
    let texts = [
        "get|p|x|1", "get|p|1|x", "get|p|-1|1", "get|p|1|4294967296", "gets|x|1", "gets|1|x|p",
        "gets||1",
    ];
    for text in texts {
        assert_eq!(process_command(&fields(text)), Err(Error::BadInteger), "{text}");
    }
}

#[test]
fn the_first_bad_argument_decides() {
    assert_eq!(process_command(&fields("get|p|x")), Err(Error::BadInteger));
    assert_eq!(process_command(&fields("gets|x")), Err(Error::BadInteger));
    assert_eq!(process_command(&fields("get|p|1")), Err(Error::MissingArgument));
}

#[test]
fn errors_fall_into_families() {
    assert_eq!(Error::NotSetup.kind(), ErrorKind::Config);
    assert_eq!(Error::Truncated.kind(), ErrorKind::Transport);
    assert_eq!(Error::Overrun.kind(), ErrorKind::Transport);
    assert_eq!(Error::MissingArgument.kind(), ErrorKind::Parse);
    assert_eq!(Error::BadInteger.kind(), ErrorKind::Parse);
    assert_eq!(Error::Decode.kind(), ErrorKind::Codec);
    assert_eq!(Error::TooLarge.kind(), ErrorKind::Codec);
    assert_eq!(Error::Encode.kind(), ErrorKind::Codec);
}

use img_process_server::command::parse_u32;
use img_process_server::config::{
    disk_cache_file, get_disk_cache_path, setup, Configuration,
};
use img_process_server::error::Error;

fn windows() -> Configuration {
    Configuration {
        disk_cache_dir: b"C:\\tmp\\cache".to_vec(),
        working_dir: b"C:\\img".to_vec(),
        threaded_reads: true,
    }
}

#[test]
fn first_setup_configures() {
    let fresh = setup(None, b"C:\\tmp\\cache", b"C:\\img", true);
    assert_eq!(fresh, Some(windows()));
    let fresh = setup(None, b"", b"", false);
    assert_eq!(
        fresh,
        Some(Configuration {
            disk_cache_dir: Vec::new(),
            working_dir: Vec::new(),
            threaded_reads: false,
        })
    );
}

#[test]
fn second_setup_changes_nothing() {
    let current = setup(None, b"C:\\tmp\\cache", b"C:\\img", true).unwrap();
    assert_eq!(setup(Some(&current), b"D:\\other", b"D:\\else", false), None);
    assert_eq!(setup(Some(&current), b"C:\\tmp\\cache", b"C:\\img", true), None);
    assert_eq!(current, windows());
}

#[test]
fn disk_files_are_named_by_number() {
    let config = windows();
    assert_eq!(get_disk_cache_path(Some(&config), 0), Ok(b"C:\\tmp\\cache/0.bmp".to_vec()));
    assert_eq!(get_disk_cache_path(Some(&config), 7), Ok(b"C:\\tmp\\cache/7.bmp".to_vec()));
    assert_eq!(get_disk_cache_path(Some(&config), 10), Ok(b"C:\\tmp\\cache/10.bmp".to_vec()));
    assert_eq!(
        get_disk_cache_path(Some(&config), 299_999),
        Ok(b"C:\\tmp\\cache/299999.bmp".to_vec())
    );
    assert_eq!(
        get_disk_cache_path(Some(&config), u32::MAX),
        Ok(b"C:\\tmp\\cache/4294967295.bmp".to_vec())
    );
}

#[test]
fn disk_files_agree_with_format() {
    for id in [0u32, 1, 9, 10, 11, 99, 100, 101, 1000, 65_535, 1_000_000_007, u32::MAX] {
        let expected = format!("/var/cache/{}.bmp", id).into_bytes();
        assert_eq!(disk_cache_file(b"/var/cache", id), expected);
    }
    assert_eq!(disk_cache_file(b"", 3), b"/3.bmp".to_vec());
}

#[test]
fn disk_files_need_a_configuration() {
    assert_eq!(get_disk_cache_path(None, 0), Err(Error::NotSetup));
    assert_eq!(get_disk_cache_path(None, 12), Err(Error::NotSetup));
}

#[test]
fn the_number_of_a_file_reads_back() {
    for id in [0u32, 5, 10, 99, 100, 4_096, 999_999_999, 1_000_000_000, u32::MAX] {
        let file = disk_cache_file(b"d", id);
        let digits = &file[2..file.len() - 4];
        assert_eq!(parse_u32(digits), Some(id));
    }
}

#[test]
fn different_numbers_name_different_files() {
    let ids = [0u32, 1, 10, 11, 100, 101, 110, 111, 1_000, u32::MAX - 1, u32::MAX];
    for a in ids {
        for b in ids {
            assert_eq!(disk_cache_file(b"cache", a) == disk_cache_file(b"cache", b), a == b);
        }
    }
}

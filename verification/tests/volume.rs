use rar::error::RarError;
use rar::volume::next_volume_path;

fn next(path: &str) -> Result<String, RarError> {
    next_volume_path(path.as_bytes()).map(|p| String::from_utf8(p).unwrap())
}

#[test]
fn next_volume_replaces_the_trailing_number() {
    assert_eq!(next("archive.part1.rar"), Ok("archive.part2.rar".to_string()));
    assert_eq!(
        next("assets/rar5-save-32mb-txt-png-512kb.part1.rar"),
        Ok("assets/rar5-save-32mb-txt-png-512kb.part2.rar".to_string())
    );
    assert_eq!(next("x8.rar"), Ok("x9.rar".to_string()));
    assert_eq!(next("7.rar"), Ok("8.rar".to_string()));
}

#[test]
fn next_volume_preserves_the_padding() {
    assert_eq!(next("a.part001.rar"), Ok("a.part002.rar".to_string()));
    assert_eq!(next("a.part009.rar"), Ok("a.part010.rar".to_string()));
    assert_eq!(next("a.part099.rar"), Ok("a.part100.rar".to_string()));
    assert_eq!(next("a.part0199.rar"), Ok("a.part0200.rar".to_string()));
}

#[test]
fn next_volume_after_all_nines_takes_one_digit_more() {
    assert_eq!(next("a.part9.rar"), Ok("a.part10.rar".to_string()));
    assert_eq!(next("a.part999.rar"), Ok("a.part1000.rar".to_string()));
    assert_eq!(next("99.rar"), Ok("100.rar".to_string()));
}

#[test]
fn next_volume_counts_only_the_last_number() {
    assert_eq!(next("v2.part19.rar"), Ok("v2.part20.rar".to_string()));
    assert_eq!(next("2020-12.rar"), Ok("2020-13.rar".to_string()));
}

#[test]
fn path_without_number_or_extension_is_malformed() {
    assert_eq!(next("archive.rar"), Err(RarError::VolumeNameMalformed));
    assert_eq!(next("archive.part1.zip"), Err(RarError::VolumeNameMalformed));
    assert_eq!(next("archive.part1"), Err(RarError::VolumeNameMalformed));
    assert_eq!(next("archive.part1.RAR"), Err(RarError::VolumeNameMalformed));
    assert_eq!(next("1rar"), Err(RarError::VolumeNameMalformed));
    assert_eq!(next(".rar"), Err(RarError::VolumeNameMalformed));
    assert_eq!(next("rar"), Err(RarError::VolumeNameMalformed));
    assert_eq!(next(""), Err(RarError::VolumeNameMalformed));
    assert_eq!(next("part1.rar.rar"), Err(RarError::VolumeNameMalformed));
}

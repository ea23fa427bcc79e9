use smw_gfx::{Bpp, Config};

#[test]
fn parse_accepts_the_four_formats() {
    assert_eq!(Bpp::new("1".to_string()), Ok(Bpp::_1bpp));
    assert_eq!(Bpp::new("2".to_string()), Ok(Bpp::_2bpp));
    assert_eq!(Bpp::new("4".to_string()), Ok(Bpp::_4bpp));
    let three = Bpp::new("3".to_string()).unwrap();
    assert_eq!(three, Bpp::_3bpp);
    assert_eq!(three.bytes_per_8x8(), 24);
}

#[test]
fn parse_rejects_other_text() {
    for text in ["5", "0", "x", "", "03", "+3", " 3", "33"] {
        assert!(Bpp::new(text.to_string()).is_err(), "{text:?}");
    }
}

#[test]
fn format_sizes() {
    assert_eq!(Bpp::_1bpp.val(), 1);
    assert_eq!(Bpp::_4bpp.val(), 4);
    assert_eq!(Bpp::_1bpp.bytes_per_8x8(), 8);
    assert_eq!(Bpp::_2bpp.bytes_per_8x8(), 16);
    assert_eq!(Bpp::_4bpp.bytes_per_8x8(), 32);
    assert_eq!(Bpp::_1bpp.max_palette_index(), 1);
    assert_eq!(Bpp::_2bpp.max_palette_index(), 3);
    assert_eq!(Bpp::_3bpp.max_palette_index(), 7);
    assert_eq!(Bpp::_4bpp.max_palette_index(), 15);
}

fn args(list: &[&str]) -> Vec<String> {
    list.iter().map(|s| s.to_string()).collect()
}

#[test]
fn config_needs_path_and_format() {
    assert!(Config::build(&args(&["prog"])).is_err());
    assert!(Config::build(&args(&["prog", "gfx.bin"])).is_err());
    assert!(Config::build(&args(&["prog", "gfx.bin", "7"])).is_err());
    assert!(Config::build(&args(&["prog", "gfx.bin", "2", "extra"])).is_err());
}

#[test]
fn config_reads_path_and_format() {
    let config = Config::build(&args(&["prog", "gfx.bin", "2"])).unwrap();
    assert_eq!(config.file(), "gfx.bin");
    assert_eq!(config.format(), Bpp::_2bpp);
}

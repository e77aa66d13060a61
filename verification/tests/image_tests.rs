use dfu_layout::image::{parse_image_type_from_extension, ImageFormat};

#[test]
fn known_extensions_name_their_formats() {
    let off = Some(0x08004000usize);
    assert_eq!(
        ImageFormat::Dfu(off),
        parse_image_type_from_extension(&String::from("dfu"), off)
    );
    assert_eq!(
        ImageFormat::Bin(off),
        parse_image_type_from_extension(&String::from("bin"), off)
    );
    assert_eq!(
        ImageFormat::Hex(None),
        parse_image_type_from_extension(&String::from("hex"), None)
    );
}

#[test]
fn unknown_extension_falls_back_to_elf() {
    assert_eq!(
        ImageFormat::Elf(None),
        parse_image_type_from_extension(&String::from("txt"), None)
    );
    assert_eq!(
        ImageFormat::Elf(Some(4)),
        parse_image_type_from_extension(&String::from(""), Some(4))
    );
}

use disk_usage::format::{format_line, layout_line, UnitSystem, FIELD_WIDTH};

#[test]
fn raw_line_holds_the_byte_count() {
    assert_eq!(format_line(4096, "dir", true, UnitSystem::Binary), "      4096 dir");
    assert_eq!(format_line(0, "empty", true, UnitSystem::Decimal), "         0 empty");
}

#[test]
fn raw_line_does_not_depend_on_the_units() {
    assert_eq!(
        format_line(123456, "p", true, UnitSystem::Binary),
        format_line(123456, "p", true, UnitSystem::Decimal)
    );
}

#[test]
fn raw_count_wider_than_the_field_is_not_cut() {
    assert_eq!(
        format_line(u64::MAX, "big", true, UnitSystem::Binary),
        "18446744073709551615 big"
    );
    assert_eq!(format_line(1234567890, "ten", true, UnitSystem::Binary), "1234567890 ten");
}

#[test]
fn binary_units_use_powers_of_1024() {
    assert_eq!(format_line(1024, "k", false, UnitSystem::Binary), "     1 KiB k");
    assert_eq!(format_line(4096, "dir", false, UnitSystem::Binary), "     4 KiB dir");
    assert_eq!(format_line(1048576, "m", false, UnitSystem::Binary), "     1 MiB m");
}

#[test]
fn decimal_units_use_powers_of_1000() {
    assert_eq!(format_line(1000, "k", false, UnitSystem::Decimal), "      1 kB k");
    assert_eq!(format_line(4096, "dir", false, UnitSystem::Decimal), "    4.1 kB dir");
    assert_eq!(format_line(1000000, "m", false, UnitSystem::Decimal), "      1 MB m");
}

#[test]
fn a_fraction_is_rounded_to_one_place() {
    assert_eq!(format_line(1536, "f", false, UnitSystem::Binary), "   1.5 KiB f");
    assert_eq!(format_line(1234567, "f", false, UnitSystem::Binary), "   1.2 MiB f");
    assert_eq!(format_line(1234567, "f", false, UnitSystem::Decimal), "    1.2 MB f");
    assert_eq!(format_line(1500, "f", false, UnitSystem::Decimal), "    1.5 kB f");
}

#[test]
fn below_the_first_prefix_the_size_is_a_whole_number_of_bytes() {
    assert_eq!(format_line(0, "z", false, UnitSystem::Binary), "       0 B z");
    assert_eq!(format_line(512, "h", false, UnitSystem::Binary), "     512 B h");
    assert_eq!(format_line(1023, "h", false, UnitSystem::Binary), "    1023 B h");
    assert_eq!(format_line(999, "h", false, UnitSystem::Decimal), "     999 B h");
}

#[test]
fn largest_size_is_written_in_exbibytes() {
    assert_eq!(format_line(u64::MAX, "x", false, UnitSystem::Binary), "    16 EiB x");
}

#[test]
fn layout_pads_the_field_and_adds_the_path() {
    assert_eq!(layout_line("4 KiB", "a/b"), "     4 KiB a/b");
    assert_eq!(layout_line("", ""), " ".repeat(11));
    assert_eq!(layout_line("12345678901", "p"), "12345678901 p");
}

#[test]
fn field_width_is_ten() {
    assert_eq!(FIELD_WIDTH, 10);
    assert_eq!(layout_line("x", "").chars().count(), 11);
}

#[test]
fn path_is_written_as_it_is() {
    assert_eq!(format_line(1, "a b/\u{e9}", true, UnitSystem::Binary), "         1 a b/\u{e9}");
}

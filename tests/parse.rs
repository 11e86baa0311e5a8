use chr_reatlas::parse::parse_atlas;
use chr_reatlas::Error;

#[test]
fn header_only_has_no_entries() {
    let a = parse_atlas("game.nes\ngame.pal\n8010\n20\n").unwrap();
    assert_eq!(a.binary, "game.nes");
    assert_eq!(a.palette, "game.pal");
    assert_eq!(a.start, 0x8010);
    assert_eq!(a.length, 0x20 * 16);
    assert!(a.data.is_empty());
}

#[test]
fn blank_and_comment_lines_are_skipped() {
    let text = "// sprites\n\n  game.nes \r\n//palette next\ngame.pal\n\t10\n1\n\n// no entries\n";
    let a = parse_atlas(text).unwrap();
    assert_eq!(a.binary, "game.nes");
    assert_eq!(a.start, 0x10);
    assert_eq!(a.length, 16);
    assert!(a.data.is_empty());
}

#[test]
fn short_header_is_a_shape_error() {
    assert_eq!(parse_atlas("a.nes\na.pal\n0\n").err(), Some(Error::DescriptionShapeError));
    assert_eq!(parse_atlas("a.nes\n// a.pal\n0\n4\n").err(), Some(Error::DescriptionShapeError));
    assert_eq!(parse_atlas("").err(), Some(Error::DescriptionShapeError));
}

#[test]
fn entries_are_hex_octal_octal_hex_hex_hex() {
    let a = parse_atlas("a.nes\na.pal\n0\n40\n1F, 12, 7, 0, 1, 2\nA,0,20,d,E,f\n").unwrap();
    assert_eq!(a.data.len(), 2);
    let e = a.data[0];
    assert_eq!((e.chr_index, e.x, e.y, e.c0, e.c1, e.c2), (0x1F, 10, 7, 0, 1, 2));
    assert_eq!(e.cbg, None);
    assert!(!e.transpose && !e.flip_x && !e.flip_y);
    let e = a.data[1];
    assert_eq!((e.chr_index, e.x, e.y, e.c0, e.c1, e.c2), (10, 0, 16, 13, 14, 15));
}

#[test]
fn entry_with_five_fields_is_a_shape_error() {
    let r = parse_atlas("a.nes\na.pal\n0\n1\n0,0,0,1,2\n");
    assert_eq!(r.err(), Some(Error::DescriptionShapeError));
}

#[test]
fn entry_with_seven_fields_is_a_shape_error() {
    let r = parse_atlas("a.nes\na.pal\n0\n1\n0,0,0,1,2,3\n0,0,0,1,2,3,4\n");
    assert_eq!(r.err(), Some(Error::DescriptionShapeError));
}

#[test]
fn bad_number_reports_its_field() {
    let r = parse_atlas("a.nes\na.pal\nzz\n1\n");
    assert_eq!(r.err(), Some(Error::FieldParseError("zz".to_string())));
    let r = parse_atlas("a.nes\na.pal\n0\n1\n0, 18, 0, 1, 2, 3\n");
    assert_eq!(r.err(), Some(Error::FieldParseError("18".to_string())));
    let r = parse_atlas("a.nes\na.pal\n0\n1\n0, 1, 0, 1, , 3\n");
    assert_eq!(r.err(), Some(Error::FieldParseError("".to_string())));
}

#[test]
fn out_of_range_number_reports_its_field() {
    let r = parse_atlas("a.nes\na.pal\n0\n1\n0, 77777777777, 0, 1, 2, 3\n");
    assert_eq!(r.err(), Some(Error::FieldParseError("77777777777".to_string())));
    let r = parse_atlas("a.nes\na.pal\n10000000000000000\n1\n");
    assert_eq!(r.err(), Some(Error::FieldParseError("10000000000000000".to_string())));
}

#[test]
fn largest_values_are_accepted() {
    let a = parse_atlas("a.nes\na.pal\nFFFFFFFFFFFFFFFF\n1\n0, 37777777777, 0, 1, 2, 3\n").unwrap();
    assert_eq!(a.start, u64::MAX);
    assert_eq!(a.data[0].x, u32::MAX);
}

#[test]
fn first_bad_line_decides_the_error() {
    let r = parse_atlas("a.nes\na.pal\n0\n1\n0,0,0,1,2,x\n0,0\n");
    assert_eq!(r.err(), Some(Error::FieldParseError("x".to_string())));
}

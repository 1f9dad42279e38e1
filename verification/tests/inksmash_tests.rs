use inksmash::args::Args;
use inksmash::document::{assemble_document, output_names, NameError};
use inksmash::id::{get_id, IdCounter};
use inksmash::img::{extracted_image_path, webp_from_b46_data, ImageFailure, Img};
use inksmash::inks::{
    accepts_line, clean_b64, process_line, read_img_b64_data, recompressed, LineError, LineReport,
};
use inksmash::names::format_filename;
use inksmash::size::str_mb_size;

const PNG_2X2: &str = "iVBORw0KGgoAAAANSUhEUgAAAAIAAAACCAYAAABytg0kAAAAEUlEQVR4nGP4z8DQAMIMMAYAOOgF/REzMMkAAAAASUVORK5CYII=";

const PNG_2X2_BYTES: [u8; 74] = [
    137, 80, 78, 71, 13, 10, 26, 10, 0, 0, 0, 13, 73, 72, 68, 82, 0, 0, 0, 2, 0, 0, 0, 2, 8, 6, 0,
    0, 0, 114, 182, 13, 36, 0, 0, 0, 17, 73, 68, 65, 84, 120, 156, 99, 248, 207, 192, 208, 0, 194,
    12, 48, 6, 0, 56, 232, 5, 253, 17, 51, 48, 201, 0, 0, 0, 0, 73, 69, 78, 68, 174, 66, 96, 130,
];

fn decoded(b64: &str) -> Option<Vec<u8>> {
    let line = format!("xlink:href=\"data:image/webp;base64,{}\"", b64);
    match process_line(&args(90, false), 0, &line) {
        Ok(p) => match p.report {
            LineReport::AlreadyCompressed(data) => Some(data),
            _ => None,
        },
        Err(_) => None,
    }
}

fn args(quality: u8, extract: bool) -> Args {
    Args { file: "drawing.svg".to_string(), quality, move_completed: false, extract }
}

#[test]
fn test_get_id() {
    let mut ids = IdCounter::new();
    for i in 1..50 {
        assert_eq!(get_id(&mut ids), i);
    }
}

// Inkscape b64 add &#10 strings between lines, so need also remove it
#[test]
fn test_read_img_b64() {
    {
        const LINE: &str = r#"xlink:href="data:image/avif;base64,base64-&#10;content""#;
        let (content, img_type) = read_img_b64_data(LINE).unwrap();
        assert_eq!(content, "base64-content");
        assert_eq!(img_type, Img::Avif);
    }
    {
        const LINE: &str = r#"xlink:href="data:image/jpeg;base64,base64-&#10;content""#;
        let (content, img_type) = read_img_b64_data(LINE).unwrap();
        assert_eq!(content, "base64-content");
        assert_eq!(img_type, Img::Jpeg);
    }
    {
        const LINE: &str = r#"xlink:href="data:image/webp;base64,base64-&#10;content""#;
        let (content, img_type) = read_img_b64_data(LINE).unwrap();
        assert_eq!(content, "base64-content");
        assert_eq!(img_type, Img::Webp);
    }
    // with indent
    {
        const LINE: &str = r#"  xlink:href="data:image/png;base64,base64-&#10;content""#;
        let (content, img_type) = read_img_b64_data(LINE).unwrap();
        assert_eq!(content, "base64-content");
        assert_eq!(img_type, Img::Png);
    }

    // unsupported
    {
        const LINE: &str = r#"xlink:href="data:image/xyz;base64,base64-&#10;content""#;
        let (content, img_type) = read_img_b64_data(LINE).unwrap();
        assert_eq!(content, "");
        assert_eq!(img_type, Img::Unsupported);
    }
}

#[test]
fn test_format_filename() {
    let tests = vec![
        //     have   ,         want
        ("example.svg", "example.min.svg"),
        ("example.min.svg", "example.min.svg"),
        ("example.q1.min.svg", "example.q1.min.svg"),
        ("example.q100.min.svg", "example.q100.min.svg"),
        ("example.q101.min.svg", "example.q101.min.svg"), // this will not match q101, and it will not be removed
    ];

    for tt in tests {
        let have = format_filename(tt.0);
        let want = tt.1;
        assert_eq!(have, want);
    }
}

#[test]
fn format_filename_is_stable_on_its_output() {
    for name in ["a.svg", "b.min.svg", "c.min.min.svg", "dir/d.svg", "e"] {
        let once = format_filename(name);
        assert!(once.ends_with(".min.svg"));
        assert_eq!(format_filename(&once), once);
    }
    assert_eq!(format_filename("e"), "e.min.svg");
    // removing the suffixes leaves another `.svg`: naming again changes it
    assert_eq!(format_filename("x.svg.svg"), "x.svg.min.svg");
    assert_eq!(format_filename("x.svg.min.svg"), "x.min.svg");
}

#[test]
fn b64_prefix_of_each_kind() {
    assert_eq!(Img::Avif.b64_prefix(), "data:image/avif;base64,");
    assert_eq!(Img::Jpeg.b64_prefix(), "data:image/jpeg;base64,");
    assert_eq!(Img::Png.b64_prefix(), "data:image/png;base64,");
    assert_eq!(Img::Webp.b64_prefix(), "data:image/webp;base64,");
    assert_eq!(Img::Unsupported.b64_prefix(), "");
}

#[test]
fn clean_b64_removes_quotes_breaks_spaces_and_final_semicolon() {
    assert_eq!(clean_b64("\"ab&#10;c d\ne;\""), "abcde");
    assert_eq!(clean_b64("\"ab;;\""), "ab;");
    assert_eq!(clean_b64("\"\""), "");
    assert_eq!(clean_b64("'x'"), "x");
}

#[test]
fn read_img_ignores_lines_without_image() {
    assert!(read_img_b64_data("<svg width=\"10\">").is_none());
    assert!(read_img_b64_data("xlink:href=\"#linearGradient12\"").is_none());
    assert!(read_img_b64_data("").is_none());
}

#[test]
fn read_img_uses_first_tag_only() {
    let line = r#"a xlink:href="data:image/png;base64,QUJD" b xlink:href="data:image/jpeg;base64,REVG""#;
    let (content, img) = read_img_b64_data(line).unwrap();
    assert_eq!(img, Img::Png);
    assert_eq!(content, r#"QUJD"bxlink:href="data:image/jpeg;base64,REVG"#);
}

#[test]
fn str_mb_size_exact_values() {
    assert_eq!(str_mb_size(""), "0.000MB");
    assert_eq!(str_mb_size(&"a".repeat(1048576)), "1.000MB");
    assert_eq!(str_mb_size(&"a".repeat(524288)), "0.500MB");
    // 65536 bytes is 0.0625 MB: a tie, which goes to the even neighbour
    assert_eq!(str_mb_size(&"a".repeat(65536)), "0.062MB");
    assert_eq!(str_mb_size(&"a".repeat(12345678)), "11.774MB");
    // multi-byte characters count by their bytes
    assert_eq!(str_mb_size(&"é".repeat(524288)), "1.000MB");
}

#[test]
fn str_mb_size_matches_float_formatting() {
    let mut n: usize = 0;
    while n < 3_000_000 {
        let want = format!("{:.3}MB", n as f64 / (1024.0 * 1024.0));
        let have = str_mb_size(&"a".repeat(n));
        assert_eq!(have, want, "n = {}", n);
        n += 65536 / 3 + 1;
    }
    for n in [65536usize, 196608, 327680, 1048576 + 65536, 524, 525, 1048, 1049] {
        let want = format!("{:.3}MB", n as f64 / (1024.0 * 1024.0));
        assert_eq!(str_mb_size(&"a".repeat(n)), want, "n = {}", n);
    }
}

#[test]
fn base64_data_is_decoded_with_the_standard_alphabet() {
    assert_eq!(decoded("aGVsbG8="), Some(b"hello".to_vec()));
    assert_eq!(decoded("+uwgVQA="), Some(vec![0xFA, 0xEC, 0x20, 0x55, 0]));
    assert_eq!(decoded("aGVsbG8"), None);
    assert_eq!(decoded("base64-content"), None);
    assert_eq!(decoded("-_8="), None);
}

#[test]
fn accepts_line_matches_unquotable_values() {
    assert!(accepts_line("no image here"));
    assert!(accepts_line("xlink:href=\"#a\""));
    assert!(accepts_line("xlink:href=''"));
    assert!(!accepts_line("xlink:href="));
    assert!(!accepts_line("xlink:href=\""));
    assert!(!accepts_line("xlink:href=\"é"));
    assert!(!accepts_line("xlink:href=é\""));
}

#[test]
fn extracted_image_path_is_md5_named() {
    assert_eq!(extracted_image_path(b"hello"), "extracted/5d41402abc4b2a76b9719d911017c592.webp");
    assert_eq!(extracted_image_path(b""), "extracted/d41d8cd98f00b204e9800998ecf8427e.webp");
    assert_eq!(extracted_image_path(b"hello"), extracted_image_path(b"hello"));
    assert_ne!(extracted_image_path(b"hello"), extracted_image_path(b"hellp"));
}

#[test]
fn process_line_keeps_lines_without_image() {
    let p = process_line(&args(90, false), 7, "  <rect width=\"3\"/>").unwrap();
    assert_eq!(p.index, 7);
    assert_eq!(p.line, "  <rect width=\"3\"/>");
    assert!(matches!(p.report, LineReport::NoImage));
}

#[test]
fn process_line_keeps_compressed_images() {
    let line = r#"   xlink:href="data:image/webp;base64,aGVs&#10;bG8=""#;
    let p = process_line(&args(90, true), 3, line).unwrap();
    assert_eq!(p.index, 3);
    assert_eq!(p.line, line);
    match p.report {
        LineReport::AlreadyCompressed(data) => assert_eq!(data, b"hello".to_vec()),
        _ => panic!("expected an already compressed image"),
    }
}

#[test]
fn process_line_rejects_unsupported_and_bad_base64() {
    let unsupported = r#"xlink:href="data:image/gif;base64,R0lG""#;
    assert!(matches!(process_line(&args(90, false), 0, unsupported), Err(LineError::Unsupported)));
    let bad = r#"xlink:href="data:image/png;base64,@@@@""#;
    assert!(matches!(process_line(&args(90, false), 0, bad), Err(LineError::Base64(_))));
    let not_an_image = r#"xlink:href="data:image/png;base64,aGVsbG8=""#;
    assert!(matches!(process_line(&args(90, false), 0, not_an_image), Err(LineError::Image(_))));
}

#[test]
fn process_line_recompresses_png_and_is_idempotent() {
    let line = format!("    xlink:href=\"data:image/png;base64,{}\"", PNG_2X2);
    let p = process_line(&args(80, false), 12, &line).unwrap();
    assert_eq!(p.index, 12);
    assert!(p.line.starts_with("xlink:href=\"data:image/avif;base64,UklGR"));
    assert!(p.line.ends_with(";\""));
    let webp = match &p.report {
        LineReport::Recompressed { webp, size_before, size_after } => {
            assert_eq!(size_before, &str_mb_size(PNG_2X2));
            assert!(size_after.ends_with("MB"));
            webp.clone()
        }
        _ => panic!("expected a recompressed image"),
    };
    assert_eq!(&webp[0..4], b"RIFF");
    assert_eq!(&webp[8..12], b"WEBP");
    let (b64, kind) = read_img_b64_data(&p.line).unwrap();
    assert_eq!(kind, Img::Avif);
    assert_eq!(decoded(&b64), Some(webp.clone()));
    // processing the rewritten line again keeps it as it is
    let again = process_line(&args(80, false), 12, &p.line).unwrap();
    assert_eq!(again.line, p.line);
    assert!(matches!(again.report, LineReport::AlreadyCompressed(_)));
}

#[test]
fn webp_from_b46_data_encodes_png() {
    let webp = webp_from_b46_data(&args(90, false), &PNG_2X2_BYTES).unwrap();
    assert_eq!(&webp[0..4], b"RIFF");
    assert!(webp_from_b46_data(&args(90, false), b"not an image").is_err());
}

#[test]
fn webp_from_b46_data_refuses_quality_above_100() {
    assert!(webp_from_b46_data(&args(100, false), &PNG_2X2_BYTES).is_ok());
    assert!(matches!(
        webp_from_b46_data(&args(101, false), &PNG_2X2_BYTES),
        Err(ImageFailure::WebP(_))
    ));
}

#[test]
fn recompressed_line_layout() {
    let p = recompressed(5, "QUJD", b"hello".to_vec());
    assert_eq!(p.index, 5);
    assert_eq!(p.line, "xlink:href=\"data:image/avif;base64,aGVsbG8=;\"");
    match p.report {
        LineReport::Recompressed { webp, size_before, size_after } => {
            assert_eq!(webp, b"hello".to_vec());
            assert_eq!(size_before, "0.000MB");
            assert_eq!(size_after, "0.000MB");
        }
        _ => panic!("expected a recompressed report"),
    }
}

#[test]
fn assemble_document_restores_order() {
    let pairs = vec![(2, "c".to_string()), (0, "a".to_string()), (1, "b".to_string())];
    assert_eq!(assemble_document(pairs), "a\nb\nc");
    assert_eq!(assemble_document(vec![]), "");
    assert_eq!(assemble_document(vec![(0, "only".to_string())]), "only");
    // an index given twice keeps the last line; a missing one is empty
    let pairs = vec![(0, "x".to_string()), (0, "y".to_string())];
    assert_eq!(assemble_document(pairs), "y\n");
}

#[test]
fn output_names_for_svg_files() {
    let names = output_names("drawing.svg").unwrap();
    assert_eq!(names.output, "drawing.min.svg");
    assert_eq!(names.temporary, "drawing.min.svg.TMP");
    assert_eq!(names.moved_source, "compressed/drawing.svg");
    assert!(matches!(output_names("drawing.png"), Err(NameError::NotSvg)));
    assert!(matches!(output_names("svg"), Err(NameError::NotSvg)));
    let names = output_names("a.min.svg").unwrap();
    assert_eq!(names.output, "a.min.svg");
}

#[test]
fn written_image_lines_read_back() {
    let kinds = [Img::Png, Img::Jpeg, Img::Webp, Img::Avif];
    for kind in kinds {
        for indent in ["", "    ", "<image id=\"i1\" "] {
            for ending in ["", ";"] {
                for data in ["", "QUJD", "aGVsbG8="] {
                    let line = format!("{}xlink:href=\"{}{}{}\"", indent, kind.b64_prefix(), data, ending);
                    let (d, k) = read_img_b64_data(&line).unwrap();
                    assert_eq!(d, data);
                    assert_eq!(k, kind);
                }
            }
        }
    }
}

#[test]
fn recompression_depends_on_quality_and_bytes_only() {
    let a1 = Args { file: "a.svg".to_string(), quality: 70, move_completed: true, extract: true };
    let a2 = Args { file: "b.svg".to_string(), quality: 70, move_completed: false, extract: false };
    let w1 = webp_from_b46_data(&a1, &PNG_2X2_BYTES).unwrap();
    let w2 = webp_from_b46_data(&a2, &PNG_2X2_BYTES).unwrap();
    assert_eq!(w1, w2);
}

#[test]
fn str_mb_size_grows_with_length() {
    let mut last = 0.0f64;
    let mut n: usize = 0;
    while n < 2_500_000 {
        let text = str_mb_size(&"a".repeat(n));
        let value: f64 = text.trim_end_matches("MB").parse().unwrap();
        assert!(value >= last);
        last = value;
        n += 99_991;
    }
}

#[test]
fn unsupported_kind_is_reported_whatever_its_data() {
    let line = r#"xlink:href="data:image/gif;base64,@@ not base64 @@""#;
    assert!(matches!(process_line(&args(90, false), 0, line), Err(LineError::Unsupported)));
}

#[test]
fn data_that_is_no_image_fails_at_decoding() {
    assert!(matches!(
        webp_from_b46_data(&args(90, false), b"not an image"),
        Err(ImageFailure::Decode(_))
    ));
    assert!(matches!(webp_from_b46_data(&args(90, false), b""), Err(ImageFailure::Decode(_))));
    let line = r#"xlink:href="data:image/jpeg;base64,aGVsbG8=""#;
    assert!(matches!(
        process_line(&args(90, false), 0, line),
        Err(LineError::Image(ImageFailure::Decode(_)))
    ));
}

use convert_to_jpg::converter::{
    conclude_conversion, conversion_counts, ffmpeg_arguments, ffmpeg_failure_message, ffmpeg_quality_scale, is_heic,
    output_path_candidate, output_search_step, ConversionResult, OutputStep,
};

#[test]
fn output_candidates_next_to_source() {
    assert_eq!(output_path_candidate("/photos/cat.png", "", 0), "/photos/cat.jpg");
    assert_eq!(output_path_candidate("/photos/cat.png", "", 1), "/photos/cat_1.jpg");
    assert_eq!(output_path_candidate("/photos/cat.png", "", 12), "/photos/cat_12.jpg");
}

#[test]
fn output_candidates_in_output_folder() {
    assert_eq!(output_path_candidate("/photos/cat.png", "/out", 0), "/out/cat.jpg");
    assert_eq!(output_path_candidate("/photos/cat.png", "out/", 2), "out/cat_2.jpg");
}

#[test]
fn output_candidate_of_bare_file_name() {
    assert_eq!(output_path_candidate("cat.heic", "", 0), "cat.jpg");
    assert_eq!(output_path_candidate("archive.tar.gz", "", 0), "archive.tar.jpg");
    assert_eq!(output_path_candidate(".hidden", "", 0), ".hidden.jpg");
}

#[test]
fn heic_detection_ignores_case() {
    assert!(is_heic("a/b/IMG_0001.HEIC"));
    assert!(is_heic("x.heif"));
    assert!(is_heic("x.HeIf"));
    assert!(!is_heic("x.png"));
    assert!(!is_heic("heic"));
    assert!(!is_heic(".heic"));
}

#[test]
fn quality_scale_matches_float_mapping() {
    for q in 0..=255u8 {
        let qv = (31.0 - (q as f32 / 100.0) * 29.0).round() as u32;
        let qv = qv.clamp(2, 31);
        assert_eq!(ffmpeg_quality_scale(q), qv, "quality {}", q);
    }
    assert_eq!(ffmpeg_quality_scale(0), 31);
    assert_eq!(ffmpeg_quality_scale(50), 17);
    assert_eq!(ffmpeg_quality_scale(90), 5);
    assert_eq!(ffmpeg_quality_scale(100), 2);
}

#[test]
fn ffmpeg_argument_list() {
    let args = ffmpeg_arguments("in.heic", "out.jpg", 90);
    let expected: Vec<String> = ["-v", "error", "-y", "-i", "in.heic", "-update", "1", "-q:v", "5", "out.jpg"]
        .iter()
        .map(|s| s.to_string())
        .collect();
    assert_eq!(args, expected);
}

fn reference_message(stderr: &str) -> String {
    let summary: Vec<&str> = stderr.lines().filter(|l| !l.trim().is_empty()).collect();
    if summary.is_empty() {
        "ffmpeg exited with non-zero status".to_string()
    } else {
        summary.join("; ")
    }
}

#[test]
fn ffmpeg_failure_message_joins_lines() {
    assert_eq!(ffmpeg_failure_message(""), "ffmpeg exited with non-zero status");
    assert_eq!(ffmpeg_failure_message("  \n\t\r\n"), "ffmpeg exited with non-zero status");
    assert_eq!(ffmpeg_failure_message("bad input\n"), "bad input");
    assert_eq!(ffmpeg_failure_message("first\r\n\nsecond\n  third  "), "first; second;   third  ");
}

#[test]
fn ffmpeg_failure_message_matches_std_lines() {
    let cases = [
        "", "\n", "\n\n", "a", "a\n", "a\r\n", "a\r", "\r\na", "a\nb", "a\n\nb\n", " \u{a0}\n x \r\n\u{3000}",
        "x\r\r\n", "\u{2028}\n\u{85}y\n", "line one\nline two\r\n\r\n", "\t\n\u{b}\u{c}\n",
    ];
    for c in cases.iter() {
        assert_eq!(ffmpeg_failure_message(c), reference_message(c), "stderr {:?}", c);
    }
}

#[test]
fn conversion_counts_split_results() {
    let r = |ok: bool| ConversionResult {
        original: "a.png".to_string(),
        output: "a.jpg".to_string(),
        success: ok,
        error: if ok { None } else { Some("bad".to_string()) },
    };
    assert_eq!(conversion_counts(&[]), (0, 0));
    assert_eq!(conversion_counts(&[r(true), r(false), r(true)]), (2, 1));
}

#[test]
fn output_search_takes_first_free_candidate() {
    assert_eq!(output_search_step(0, false), OutputStep::Take);
    assert_eq!(output_search_step(0, true), OutputStep::Try(1));
    assert_eq!(output_search_step(7, true), OutputStep::Try(8));
    assert_eq!(output_search_step(u32::MAX, false), OutputStep::Take);
}

#[test]
fn only_a_successful_conversion_deletes_its_source() {
    let (done, delete) = conclude_conversion("a.png".to_string(), "out/a.jpg".to_string(), Ok(()), true);
    assert!(delete);
    assert!(done.success);
    assert_eq!(done.original, "a.png");
    assert_eq!(done.output, "out/a.jpg");
    assert_eq!(done.error, None);
    let (kept, delete) = conclude_conversion("a.png".to_string(), "out/a.jpg".to_string(), Ok(()), false);
    assert!(!delete);
    assert!(kept.success);
    let (failed, delete) =
        conclude_conversion("b.gif".to_string(), "out/b.jpg".to_string(), Err("bad data".to_string()), true);
    assert!(!delete);
    assert!(!failed.success);
    assert_eq!(failed.error, Some("bad data".to_string()));
    assert_eq!(failed.output, "out/b.jpg");
}

use character_collector::collect::{collect, CollectError, FileInput};
use character_collector::merge::merge;
use character_collector::run::{collect_run, RunError};
use character_collector::validate::is_valid_text;

fn run_to_string(chars: Vec<char>) -> String {
    chars.iter().collect()
}

#[test]
fn merge_unions_and_sorts() {
    assert_eq!(merge("cab", "bad"), "abcd");
}

#[test]
fn merge_of_empty_inputs_is_empty() {
    assert_eq!(merge("", ""), "");
    assert_eq!(merge("", "ba"), "ab");
    assert_eq!(merge("ba", ""), "ab");
}

#[test]
fn merge_is_commutative_on_samples() {
    assert_eq!(merge("xyz", "abc"), merge("abc", "xyz"));
    assert_eq!(merge("a c", "b"), merge("b", "a c"));
}

#[test]
fn merge_with_self_sorts_and_dedups() {
    assert_eq!(merge("cabca", "cabca"), "abc");
}

#[test]
fn merge_output_has_no_duplicates_and_is_sorted() {
    let out = merge("zza99", "!zaq");
    let chars: Vec<char> = out.chars().collect();
    for w in chars.windows(2) {
        assert!(w[0] < w[1]);
    }
    assert_eq!(out, "!9aqz");
}

#[test]
fn merge_sorts_beyond_the_basic_plane() {
    assert_eq!(merge("🎉a", "b"), "ab🎉");
}

#[test]
fn merge_itself_keeps_whatever_characters_it_is_given() {
    // Only extraction filters line terminators; merging two sequences that
    // already hold one keeps it.
    assert_eq!(merge("a\n", "b"), "\nab");
}

#[test]
fn collect_extracts_sorted_distinct_characters() {
    let f = FileInput::Content(b"ab\nba".to_vec());
    assert_eq!(collect(&f).unwrap(), "ab");
}

#[test]
fn two_file_scenario_combines_to_abc() {
    let a = FileInput::Content(b"ab\nba".to_vec());
    let b = FileInput::Content(b"cba".to_vec());
    let ra = collect(&a).unwrap();
    let rb = collect(&b).unwrap();
    assert_eq!(merge(&ra, &rb), "abc");
    let run = collect_run(&vec![a, b]).unwrap();
    assert_eq!(run_to_string(run), "abc");
}

#[test]
fn collect_on_binary_content_is_an_error() {
    let f = FileInput::Content(vec![0xff, b'a', b'b']);
    assert_eq!(collect(&f), Err(CollectError::NotText));
}

#[test]
fn collect_on_unreadable_file_is_an_error() {
    assert_eq!(collect(&FileInput::Unreadable), Err(CollectError::Unreadable));
}

#[test]
fn empty_file_contributes_no_characters() {
    let f = FileInput::Content(Vec::new());
    assert_eq!(collect(&f).unwrap(), "");
    let run = collect_run(&vec![
        FileInput::Content(Vec::new()),
        FileInput::Content(b"ab".to_vec()),
    ])
    .unwrap();
    assert_eq!(run_to_string(run), "ab");
}

#[test]
fn empty_resolved_file_list_fails_the_run() {
    assert_eq!(collect_run(&Vec::new()), Err(RunError::NoInputFiles));
}

#[test]
fn invalid_prefix_skips_the_whole_file() {
    // The first 1024 bytes are not valid UTF-8, so the file is skipped even
    // though everything after them would decode.
    let mut content = vec![0xffu8; 1024];
    content.extend_from_slice(b"abc");
    let f = FileInput::Content(content);
    assert_eq!(collect(&f), Err(CollectError::NotText));
}

#[test]
fn prefix_cut_inside_a_character_is_not_text() {
    // 1023 ASCII bytes followed by a two-byte character: the checked prefix
    // ends halfway through the character's encoding and fails to decode.
    let mut content = vec![b'a'; 1023];
    content.extend_from_slice("é".as_bytes());
    let f = FileInput::Content(content);
    assert_eq!(collect(&f), Err(CollectError::NotText));
}

#[test]
fn bad_line_after_valid_prefix_is_skipped() {
    // The checked prefix is all ASCII; one later line fails to decode and is
    // skipped, while the lines around it still contribute.
    let mut content = vec![b'x'; 1024];
    content.extend_from_slice(b"\nab\n");
    content.push(0xff);
    content.extend_from_slice(b"\ncd");
    let f = FileInput::Content(content);
    assert_eq!(collect(&f).unwrap(), "abcdx");
}

#[test]
fn line_terminators_are_never_collected() {
    let f = FileInput::Content(b"a\r\nb\rc\nd\n".to_vec());
    assert_eq!(collect(&f).unwrap(), "abcd");
}

#[test]
fn multibyte_characters_sort_by_code_point() {
    let f = FileInput::Content("héllo\n".as_bytes().to_vec());
    assert_eq!(collect(&f).unwrap(), "hloé");
}

#[test]
fn run_skips_binary_and_unreadable_files() {
    let files = vec![
        FileInput::Content(vec![0xff, 0x00, 0x01]),
        FileInput::Unreadable,
        FileInput::Content(b"ca\nb".to_vec()),
    ];
    let run = collect_run(&files).unwrap();
    assert_eq!(run_to_string(run), "abc");
}

#[test]
fn run_over_only_skipped_files_yields_empty_output() {
    let files = vec![FileInput::Unreadable, FileInput::Content(vec![0xfe])];
    let run = collect_run(&files).unwrap();
    assert_eq!(run_to_string(run), "");
}

#[test]
fn incremental_merge_matches_whole_run() {
    let contents: Vec<&[u8]> = vec![b"hello world", b"42 + 17", b"\xff\xff", b"wow!"];
    let mut acc = String::new();
    for c in &contents {
        let f = FileInput::Content(c.to_vec());
        if let Ok(s) = collect(&f) {
            acc = merge(&acc, &s);
        }
    }
    let files: Vec<FileInput> = contents
        .iter()
        .map(|c| FileInput::Content(c.to_vec()))
        .collect();
    let run = collect_run(&files).unwrap();
    assert_eq!(acc, run_to_string(run));
}

#[test]
fn file_order_does_not_change_the_output() {
    let forward = vec![
        FileInput::Content(b"zx".to_vec()),
        FileInput::Content(b"ay".to_vec()),
    ];
    let backward = vec![
        FileInput::Content(b"ay".to_vec()),
        FileInput::Content(b"zx".to_vec()),
    ];
    assert_eq!(collect_run(&forward), collect_run(&backward));
}

#[test]
fn validator_accepts_empty_and_ascii() {
    assert!(is_valid_text(b""));
    assert!(is_valid_text(b"plain ascii text\n"));
}

#[test]
fn validator_accepts_well_formed_multibyte() {
    assert!(is_valid_text("héllo — καλημέρα — 你好 — 🎉".as_bytes()));
    assert!(is_valid_text(&[0xf0, 0x90, 0x80, 0x80]));
}

#[test]
fn validator_rejects_stray_and_truncated_bytes() {
    assert!(!is_valid_text(&[0xff]));
    assert!(!is_valid_text(&[0x80]));
    assert!(!is_valid_text(&[0xc3]));
    assert!(!is_valid_text(&[0xe2, 0x82]));
    assert!(!is_valid_text(&[0xf0, 0x90, 0x80]));
}

#[test]
fn validator_rejects_overlong_encodings() {
    assert!(!is_valid_text(&[0xc0, 0x80]));
    assert!(!is_valid_text(&[0xc1, 0xbf]));
    assert!(!is_valid_text(&[0xe0, 0x80, 0x80]));
    assert!(!is_valid_text(&[0xf0, 0x80, 0x80, 0x80]));
}

#[test]
fn validator_rejects_surrogates_and_out_of_range() {
    assert!(!is_valid_text(&[0xed, 0xa0, 0x80]));
    assert!(!is_valid_text(&[0xf4, 0x90, 0x80, 0x80]));
    assert!(!is_valid_text(&[0xf8, 0x80, 0x80, 0x80, 0x80]));
}

#[test]
fn validator_accepts_boundary_scalars() {
    assert!(is_valid_text(&[0x7f]));
    assert!(is_valid_text(&[0xc2, 0x80]));
    assert!(is_valid_text(&[0xdf, 0xbf]));
    assert!(is_valid_text(&[0xe0, 0xa0, 0x80]));
    assert!(is_valid_text(&[0xed, 0x9f, 0xbf]));
    assert!(is_valid_text(&[0xee, 0x80, 0x80]));
    assert!(is_valid_text(&[0xef, 0xbf, 0xbf]));
    assert!(is_valid_text(&[0xf4, 0x8f, 0xbf, 0xbf]));
}

use encodesync::config::Config;
use encodesync::paths::has_valid_name;
use encodesync::naming::create_output_file_name;
use encodesync::rclone_path::RclonePath;

fn config_with_flags(
    round: Option<bool>,
    square: Option<bool>,
    curly: Option<bool>,
    angle: Option<bool>,
) -> Config {
    Config {
        input_directory: RclonePath::Local("".to_string()),
        output_directory: RclonePath::Local("".to_string()),
        temp_directory: None,
        extensions_to_encode: vec!["flac".to_string()],
        encoded_extension: "ogg".to_string(),
        copy_covers: None,
        ffmpeg_params: "".to_string(),
        remove_round_brackets: round,
        remove_square_brackets: square,
        remove_curly_brackets: curly,
        remove_angle_brackets: angle,
    }
}

#[test]
fn destination_file_names() {
    let config = config_with_flags(Some(false), Some(true), None, None);

    let input = "Test - Song (Original Mix) [2022] <Test> {}.flac".to_string();
    assert_eq!(
        "Test - Song (Original Mix) <Test> {}.ogg".to_string(),
        create_output_file_name(input, &config)
    );

    let input = "[Multi Test] Test - [] Song [2022].ogg".to_string();
    assert_eq!(
        "Test - Song.ogg".to_string(),
        create_output_file_name(input, &config)
    );

    let config = config_with_flags(Some(true), Some(true), Some(true), Some(true));

    let input = "Test - Song (Original Mix) [2022] <Test> {}.mp3".to_string();
    assert_eq!(
        "Test - Song.mp3".to_string(),
        create_output_file_name(input, &config)
    );
}

#[test]
fn encoded_extension_replaces_listed_ones() {
    let config = config_with_flags(None, None, None, None);
    assert_eq!(
        "song.ogg".to_string(),
        create_output_file_name("song.flac".to_string(), &config)
    );
    assert_eq!(
        "cover.jpg".to_string(),
        create_output_file_name("cover.jpg".to_string(), &config)
    );
}

#[test]
fn folder_is_kept_in_front() {
    let config = config_with_flags(None, None, None, None);
    assert_eq!(
        "albums/best/song.ogg".to_string(),
        create_output_file_name("albums/best/song.flac".to_string(), &config)
    );
}

#[test]
fn bracket_content_ends_at_first_closer() {
    let config = config_with_flags(Some(true), None, None, None);
    // the bare pass removes from the first opener to the first closer
    assert_eq!(
        ").ogg".to_string(),
        create_output_file_name("((a)).flac".to_string(), &config)
    );
    // an opener without a closer stays
    assert_eq!(
        "a(b.ogg".to_string(),
        create_output_file_name("a(b.flac".to_string(), &config)
    );
}

#[test]
fn leading_space_pass_runs_before_bare_pass() {
    let config = config_with_flags(Some(true), None, None, None);
    assert_eq!(
        "a.ogg".to_string(),
        create_output_file_name("a (live).flac".to_string(), &config)
    );
    assert_eq!(
        "a.ogg".to_string(),
        create_output_file_name("(live) a.flac".to_string(), &config)
    );
    assert_eq!(
        "a.ogg".to_string(),
        create_output_file_name("(live)a.flac".to_string(), &config)
    );
}

#[test]
fn files_without_an_extension_are_recognised() {
    assert!(has_valid_name("song.flac"));
    assert!(has_valid_name("d.ir/song.flac"));
    assert!(has_valid_name("a.b.c"));
    assert!(!has_valid_name("noext"));
    assert!(!has_valid_name(".bashrc"));
    assert!(!has_valid_name("dir.x/noext"));
    assert!(!has_valid_name(""));
}

#[test]
fn rclone_path_parses_local_and_remote() {
    let p = RclonePath::from_str("music/library");
    assert!(!p.is_remote());
    assert_eq!("music/library".to_string(), p.clone().to_string());
    assert_eq!("music/library".to_string(), p.path_string());

    let p = RclonePath::from_str("drive:music");
    assert!(p.is_remote());
    assert_eq!("drive:music".to_string(), p.clone().to_string());
    assert_eq!("music".to_string(), p.path_string());

    // the path part is the text between the first colon and the next one
    let p = RclonePath::from_str("a:b:c");
    assert_eq!("a:b".to_string(), p.to_string());
}

#[test]
fn rclone_with_path_keeps_the_remote() {
    let p = RclonePath::from_str("drive:music");
    let q = p.with_path("music/sub".to_string());
    assert!(q.is_remote());
    assert_eq!("drive:music/sub".to_string(), q.to_string());

    let l = RclonePath::Local("a".to_string());
    let m = l.with_path("b".to_string());
    assert!(!m.is_remote());
    assert_eq!("b".to_string(), m.to_string());
}

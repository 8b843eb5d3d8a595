use guavagrams::util::chars_to_string;
use guavagrams::util::format_duration;
use guavagrams::util::format_tile_list;

#[test]
fn durations_render_as_clock_timestamps() {
    assert_eq!(format_duration(0), "00:00:00");
    assert_eq!(format_duration(3661), "01:01:01");
    assert_eq!(format_duration(86399), "23:59:59");
    assert_eq!(format_duration(45296), "12:34:56");
}

#[test]
fn long_durations_keep_all_hour_digits() {
    assert_eq!(format_duration(360000), "100:00:00");
}

#[test]
fn tile_lists_group_and_sort_the_hand() {
    let hand = vec!['b', 'a', 'b'];
    assert_eq!(format_tile_list(&hand), "'a' (1), 'b' (2), ");
}

#[test]
fn an_empty_hand_renders_as_nothing() {
    assert_eq!(format_tile_list(&Vec::new()), "");
}

#[test]
fn strings_are_rebuilt_from_their_characters() {
    assert_eq!(chars_to_string(&vec!['h', 'i', '!']), "hi!");
    assert_eq!(chars_to_string(&Vec::new()), "");
}

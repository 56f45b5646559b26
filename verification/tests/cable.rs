use vocal_sieve::cable::{
    contains_any, detect_virtual_cable_input, detect_virtual_cable_output,
    find_virtual_cable_output_index, has_virtual_cable, is_virtual_cable_name,
};
use vocal_sieve::text::{characters, contains_text, same_text, to_uppercase};

fn names(list: &[&str]) -> Vec<String> {
    list.iter().map(|s| s.to_string()).collect()
}

#[test]
fn every_keyword_gives_a_cable_away() {
    for name in [
        "CABLE Input",
        "VB-Audio Point",
        "My Virtual Device",
        "某虚拟设备",
        "Line 1 (VAC)",
        "Voicemeeter Out",
        "VBAN Stream",
    ] {
        assert!(is_virtual_cable_name(name));
    }
}

#[test]
fn case_of_letters_does_not_matter() {
    assert!(is_virtual_cable_name("cable output"));
    assert!(is_virtual_cable_name("vb-audio"));
    assert!(is_virtual_cable_name("VIRTUAL"));
    assert!(is_virtual_cable_name("voiceMEETER"));
}

#[test]
fn ordinary_names_are_not_cables() {
    assert!(!is_virtual_cable_name(""));
    assert!(!is_virtual_cable_name("Speakers (Realtek)"));
    assert!(!is_virtual_cable_name("VB Audio"));
    assert!(!is_virtual_cable_name("CABL"));
}

#[test]
fn first_cable_is_detected() {
    let devices = names(&["Speakers", "cable A", "VBAN"]);
    assert_eq!(find_virtual_cable_output_index(&devices), Some(1));
    assert_eq!(detect_virtual_cable_output(&devices), Some("cable A".to_string()));
    assert_eq!(detect_virtual_cable_input(&devices), Some("cable A".to_string()));
    assert!(has_virtual_cable(&devices));
}

#[test]
fn no_cable_is_detected_where_there_is_none() {
    let devices = names(&["Speakers", "Headphones"]);
    assert_eq!(find_virtual_cable_output_index(&devices), None);
    assert_eq!(detect_virtual_cable_output(&devices), None);
    assert_eq!(detect_virtual_cable_input(&[]), None);
    assert!(!has_virtual_cable(&devices));
}

fn words(list: &[&str]) -> Vec<Vec<char>> {
    list.iter().map(|s| s.chars().collect()).collect()
}

fn stands(text: &str, part: &str) -> bool {
    contains_text(&characters(text), &characters(part))
}

#[test]
fn words_are_searched_in_a_name() {
    assert!(contains_any(&characters("XCABLEY"), &words(&["VAC", "CABLE"])));
    assert!(!contains_any(&characters("xcabley"), &words(&["VAC", "CABLE"])));
    assert!(!contains_any(&characters("XCABLEY"), &words(&[])));
    assert!(stands("abc", ""));
    assert!(stands("", ""));
    assert!(stands("aab", "ab"));
    assert!(!stands("ab", "abc"));
    assert!(same_text("虚拟", "虚拟"));
    assert!(!same_text("虚", "虚拟"));
}

#[test]
fn upper_case_is_that_of_the_whole_text() {
    for text in ["", "cable", "Stra\u{df}e", "\u{fb03}x", "\u{149}a", "虚拟 Voicemeeter", "\u{3a3}\u{3c2}\u{3c3}"] {
        assert_eq!(to_uppercase(text).into_iter().collect::<String>(), text.to_uppercase());
    }
    for code in 0..=0x10_ffffu32 {
        if let Some(c) = char::from_u32(code) {
            let text = c.to_string();
            assert_eq!(to_uppercase(&text).into_iter().collect::<String>(), text.to_uppercase());
        }
    }
}

#[test]
fn every_keyword_is_recognised_as_it_is_written() {
    for word in ["CABLE", "VB-Audio", "Virtual", "虚拟", "VAC", "Voicemeeter", "VBAN"] {
        assert!(is_virtual_cable_name(word));
        assert!(is_virtual_cable_name(&format!("Output ({} 2)", word)));
    }
}

#[test]
fn case_of_ascii_letters_never_matters() {
    for name in ["Cable Input", "vB-aUdIo", "Speakers (VOICEMEETER)", "Headphones", "虚拟 x"] {
        let lower = name.to_ascii_lowercase();
        let upper = name.to_ascii_uppercase();
        assert_eq!(is_virtual_cable_name(&lower), is_virtual_cable_name(name));
        assert_eq!(is_virtual_cable_name(&upper), is_virtual_cable_name(name));
    }
}

#[test]
fn ideographs_have_no_upper_case() {
    for code in 0x4e00..=0x9fffu32 {
        let c = char::from_u32(code).unwrap();
        assert_eq!(to_uppercase(&c.to_string()), vec![c]);
        assert_eq!(c.to_uppercase().collect::<Vec<char>>(), vec![c]);
    }
}

#[test]
fn names_without_a_keyword_are_no_cables() {
    for name in ["Speakers", "麦克风 (USB)", "CABL E", "虚", "拟虚", ""] {
        assert!(!is_virtual_cable_name(name));
    }
}

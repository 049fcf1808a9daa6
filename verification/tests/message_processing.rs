use std::collections::VecDeque;

use simple_tcp::message_processing::{
    cut_next_message, default_endmark, find_and_process_messages, find_message_end_bound_outcome,
    find_message_end_bound_utf16, insert_on_queue, split_client_input, substring_utf16,
    try_process_messages,
    Endmark, ScanOutcome,
};

/// Every complete message, handed to an action that never clears the flag.
fn cut_all(input: &mut String, start: usize, e: &Endmark) -> Vec<String> {
    let mut got = Vec::new();
    let n = find_and_process_messages(input, start, e, |m: &str, _keep: &mut bool| {
        got.push(m.to_string());
    });
    assert_eq!(n, got.len());
    got
}

#[test]
fn default_endmark_strings() {
    let e = default_endmark();
    assert_eq!(e.string(), "EOF");
    assert_eq!(e.escape(), "\\EOF");
}

#[test]
fn prepare_message_appends_marker() {
    let e = default_endmark();
    assert_eq!(e.prepare_message("hello"), "helloEOF");
    assert_eq!(e.prepare_message(""), "EOF");
}

#[test]
fn prepare_message_escapes_markers() {
    let e = default_endmark();
    assert_eq!(e.prepare_message("aEOFb"), "a\\EOFbEOF");
    assert_eq!(e.prepare_message("EOFEOF"), "\\EOF\\EOFEOF");
}

#[test]
fn insert_on_queue_back_evicts_front() {
    let mut q: VecDeque<char> = VecDeque::new();
    insert_on_queue(&mut q, 3, 'a', true);
    insert_on_queue(&mut q, 3, 'b', true);
    insert_on_queue(&mut q, 3, 'c', true);
    assert_eq!(q.iter().collect::<String>(), "abc");
    insert_on_queue(&mut q, 3, 'd', true);
    assert_eq!(q.iter().collect::<String>(), "bcd");
}

#[test]
fn insert_on_queue_front_evicts_back() {
    let mut q: VecDeque<char> = VecDeque::new();
    insert_on_queue(&mut q, 2, 'a', false);
    insert_on_queue(&mut q, 2, 'b', false);
    assert_eq!(q.iter().collect::<String>(), "ba");
    insert_on_queue(&mut q, 2, 'c', false);
    assert_eq!(q.iter().collect::<String>(), "cb");
}

#[test]
fn forward_search_finds_first_marker() {
    let e = default_endmark();
    assert_eq!(find_message_end_bound_utf16("helloEOF", 0, true, 8, &e), Some(5));
    assert_eq!(find_message_end_bound_utf16("aEOFbEOF", 0, true, 8, &e), Some(1));
}

#[test]
fn forward_search_skips_escaped_marker() {
    let e = default_endmark();
    assert_eq!(find_message_end_bound_utf16("he\\EOFlloEOF", 0, true, 12, &e), Some(9));
}

#[test]
fn forward_search_without_marker() {
    let e = default_endmark();
    assert_eq!(find_message_end_bound_utf16("hello", 0, true, 5, &e), None);
    assert_eq!(find_message_end_bound_utf16("EO", 0, true, 2, &e), None);
    assert_eq!(find_message_end_bound_utf16("", 0, true, 0, &e), None);
}

#[test]
fn forward_search_gives_up_after_up_to() {
    let e = default_endmark();
    assert_eq!(find_message_end_bound_utf16("abcdefEOF", 0, true, 2, &e), None);
    assert_eq!(find_message_end_bound_utf16("abcdefEOF", 0, true, 6, &e), Some(6));
}

#[test]
fn forward_search_respects_start() {
    let e = default_endmark();
    assert_eq!(find_message_end_bound_utf16("EOFxEOF", 4, true, 7, &e), Some(4));
    assert_eq!(find_message_end_bound_utf16("EOFxEOF", 0, true, 7, &e), Some(0));
}

#[test]
fn backward_search_finds_last_marker() {
    let e = default_endmark();
    assert_eq!(find_message_end_bound_utf16("aEOFbEOFc", 9, false, 0, &e), Some(5));
    assert_eq!(find_message_end_bound_utf16("helloEOF", 8, false, 0, &e), Some(5));
}

#[test]
fn backward_search_skips_escaped_marker() {
    let e = default_endmark();
    assert_eq!(find_message_end_bound_utf16("aEOFb\\EOF", 9, false, 0, &e), Some(1));
    assert_eq!(find_message_end_bound_utf16("a\\EOF", 5, false, 0, &e), None);
}

#[test]
fn backward_search_gives_up_at_up_to() {
    let e = default_endmark();
    assert_eq!(find_message_end_bound_utf16("aEOFbbbbb", 9, false, 3, &e), None);
    assert_eq!(find_message_end_bound_utf16("aEOFbbbbb", 9, false, 1, &e), Some(1));
}

#[test]
fn search_outcome_reports_fault_past_characters() {
    let e = default_endmark();
    // Two characters of two bytes each: the byte length runs past the characters.
    assert_eq!(find_message_end_bound_outcome("éé", 0, true, 4, &e), ScanOutcome::Fault);
    assert_eq!(find_message_end_bound_outcome("ab", 0, true, 2, &e), ScanOutcome::NotFound);
}

#[test]
fn substring_by_characters() {
    assert_eq!(substring_utf16("hello", 1, 3), "el");
    assert_eq!(substring_utf16("héllo", 1, 3), "él");
    assert_eq!(substring_utf16("abc", 2, 10), "c");
    assert_eq!(substring_utf16("abc", 5, 10), "");
}

#[test]
fn substring_cuts_characters_to_sixteen_bits() {
    assert_eq!(substring_utf16("a\u{1F600}b", 0, 3), "a\u{F600}b");
}

#[test]
fn substring_pairs_surrogates() {
    // U+1D800 cut to 0xD800 and U+1DC00 cut to 0xDC00 form a surrogate pair.
    assert_eq!(substring_utf16("\u{1D800}\u{1DC00}", 0, 2), "\u{10000}");
}

#[test]
fn process_messages_cuts_all_complete_messages() {
    let e = default_endmark();
    let mut input = String::from("oneEOFtwoEOFthr");
    let messages = cut_all(&mut input, 0, &e);
    assert_eq!(messages, vec!["one".to_string(), "two".to_string()]);
    assert_eq!(input, "thr");
}

#[test]
fn process_messages_unescapes() {
    let e = default_endmark();
    let mut input = e.prepare_message("aEOFb");
    let messages = cut_all(&mut input, 0, &e);
    assert_eq!(messages, vec!["aEOFb".to_string()]);
    assert_eq!(input, "");
}

#[test]
fn process_messages_empty_messages() {
    let e = default_endmark();
    let mut input = String::from("EOFEOF");
    let messages = cut_all(&mut input, 0, &e);
    assert_eq!(messages, vec![String::new(), String::new()]);
    assert_eq!(input, "");
}

#[test]
fn process_messages_nothing_complete() {
    let e = default_endmark();
    let mut input = String::from("partial");
    let messages = cut_all(&mut input, 0, &e);
    assert!(messages.is_empty());
    assert_eq!(input, "partial");
}

#[test]
fn try_process_messages_reports_unprocessable() {
    let e = default_endmark();
    // Two-byte characters: the search runs past the characters.
    assert!(try_process_messages("éééé", 0, &e).is_none());
    let (messages, rest) = try_process_messages("xEOFy", 0, &e).unwrap();
    assert_eq!(messages, vec!["x".to_string()]);
    assert_eq!(rest, "y");
}

#[test]
fn framed_messages_read_back_in_order() {
    let e = default_endmark();
    let originals = ["first", "with EOF inside", "", "\\EOF literal", "last"];
    let mut stream = String::new();
    for m in originals.iter() {
        stream.push_str(&e.prepare_message(m));
    }
    let messages = cut_all(&mut stream, 0, &e);
    let expected: Vec<String> = originals.iter().map(|m| m.to_string()).collect();
    assert_eq!(messages, expected);
    assert_eq!(stream, "");
}

#[test]
fn unescaping_undoes_escaping() {
    let e = default_endmark();
    for m in ["EOF", "\\EOF", "EOEOFF", "xEOFyEOFz", "\\\\EOF\\"] {
        let mut framed = e.prepare_message(m);
        let messages = cut_all(&mut framed, 0, &e);
        if m.ends_with('\\') {
            // The frame of a message ending in a backslash reads as escaped.
            assert!(messages.is_empty());
        } else {
            assert_eq!(messages, vec![m.to_string()]);
            assert_eq!(framed, "");
        }
    }
}

#[test]
fn cut_one_message_then_stop() {
    let e = default_endmark();
    let mut input = String::from("helloEOFworldEOFrest");
    assert_eq!(cut_next_message(&mut input, 0, &e), Ok(Some("hello".to_string())));
    assert_eq!(input, "worldEOFrest");
    assert_eq!(cut_next_message(&mut input, 0, &e), Ok(Some("world".to_string())));
    assert_eq!(input, "rest");
    assert_eq!(cut_next_message(&mut input, 0, &e), Ok(None));
    assert_eq!(input, "rest");
}

#[test]
fn cut_message_unescapes_and_reports_failure() {
    let e = default_endmark();
    let mut input = String::from("a\\EOFbEOFc");
    assert_eq!(cut_next_message(&mut input, 0, &e), Ok(Some("aEOFb".to_string())));
    assert_eq!(input, "c");
    let mut wide = String::from("\u{e9}\u{e9}");
    assert_eq!(cut_next_message(&mut wide, 0, &e), Err(()));
    assert_eq!(wide, "\u{e9}\u{e9}");
}

#[test]
fn messages_cut_whole_leave_the_rest() {
    let e = default_endmark();
    let text = "aEOFb\\EOFcEOFrest";
    let mut input = String::from(text);
    let messages = cut_all(&mut input, 0, &e);
    assert_eq!(messages, vec!["a".to_string(), "bEOFc".to_string()]);
    // The text is the raw messages, each followed by the end marker, then what is left.
    assert_eq!(format!("aEOFb\\EOFcEOF{}", input), text);
    assert_eq!(input, "rest");
}

#[test]
fn queue_keeps_a_sliding_window() {
    let mut back: VecDeque<u32> = VecDeque::new();
    let mut front: VecDeque<u32> = VecDeque::new();
    for v in 1..=7 {
        insert_on_queue(&mut back, 3, v, true);
        insert_on_queue(&mut front, 3, v, false);
        assert_eq!(back.len(), (v as usize).min(3));
    }
    assert_eq!(back.iter().copied().collect::<Vec<u32>>(), vec![5, 6, 7]);
    assert_eq!(front.iter().copied().collect::<Vec<u32>>(), vec![7, 6, 5]);
}

#[test]
fn process_messages_stops_when_the_action_says_so() {
    let e = default_endmark();
    let mut s = String::from("helloEOFworldEOFrest");
    let mut got = Vec::new();
    let n = find_and_process_messages(&mut s, 0, &e, |m: &str, keep: &mut bool| {
        got.push(m.to_string());
        *keep = false;
    });
    assert_eq!(n, 1);
    assert_eq!(got, vec!["hello".to_string()]);
    assert_eq!(s, "worldEOFrest");
}

#[test]
fn process_messages_stops_at_the_first_declined_message() {
    let e = default_endmark();
    let mut s = String::from("aEOFstopEOFbEOF");
    let mut got = Vec::new();
    let n = find_and_process_messages(&mut s, 0, &e, |m: &str, keep: &mut bool| {
        got.push(m.to_string());
        *keep = m != "stop";
    });
    assert_eq!(n, 2);
    assert_eq!(got, vec!["a".to_string(), "stop".to_string()]);
    assert_eq!(s, "bEOF");
}

#[test]
fn split_counts_the_new_text_in_bytes() {
    let e = default_endmark();
    // A two-byte character after the end marker moves the cut one character
    // too far: the `a` is cut off with the message and not kept.
    let received: Vec<char> = "EOFa\u{e9}".chars().collect();
    let (messages, rest) = split_client_input("", &received, &e).unwrap();
    assert_eq!(messages, vec![String::new()]);
    assert_eq!(rest, "\u{e9}");
    // In ASCII text nothing is lost.
    let received: Vec<char> = "EOFab".chars().collect();
    let (messages, rest) = split_client_input("", &received, &e).unwrap();
    assert_eq!(messages, vec![String::new()]);
    assert_eq!(rest, "ab");
}

#[test]
fn split_after_wide_characters_before_the_marker_keeps_everything() {
    let e = default_endmark();
    let received: Vec<char> = "EOF".chars().collect();
    let (messages, rest) = split_client_input("\u{e9}", &received, &e).unwrap();
    assert_eq!(messages, vec!["\u{e9}".to_string()]);
    assert_eq!(rest, "");
    // Without an end marker, a two-byte character makes the search run past
    // the characters: the split cannot complete.
    let received: Vec<char> = "h\u{e9}".chars().collect();
    assert!(split_client_input("", &received, &e).is_none());
    // Marker-free ASCII text stays buffered whole.
    let received: Vec<char> = "hi".chars().collect();
    let (messages, rest) = split_client_input("", &received, &e).unwrap();
    assert!(messages.is_empty());
    assert_eq!(rest, "hi");
}

#[test]
fn cutting_stops_early_leaving_whole_messages() {
    let e = default_endmark();
    let text = "a\\EOFbEOFcEOFd";
    let mut input = String::from(text);
    let mut got = Vec::new();
    let n = find_and_process_messages(&mut input, 0, &e, |m: &str, keep: &mut bool| {
        got.push(m.to_string());
        *keep = false;
    });
    assert_eq!(n, 1);
    assert_eq!(got, vec!["aEOFb".to_string()]);
    assert_eq!(format!("a\\EOFbEOF{}", input), text);
}

use syspell::null::Iter;
use syspell::wide::{from_wide, wide_string, StrPtr};
use syspell::{convert_span, CheckError, Checker};

#[test]
fn wide_string_encodes_basic_plane_with_sentinel() {
    assert_eq!(wide_string("ab"), vec![97, 98, 0]);
    assert_eq!(wide_string(""), vec![0]);
}

#[test]
fn wide_string_encodes_surrogate_pairs() {
    // U+1D11E, musical symbol G clef, encodes as the pair D834 DD1E.
    assert_eq!(wide_string("\u{1D11E}"), vec![0xD834, 0xDD1E, 0]);
    assert_eq!(wide_string("a\u{1D11E}b"), vec![97, 0xD834, 0xDD1E, 98, 0]);
}

#[test]
fn from_wide_decodes_what_wide_string_encodes() {
    for s in ["", "hello", "a\u{1D11E}b", "héllo \u{10FFFF}"] {
        let mut units = wide_string(s);
        assert_eq!(units.pop(), Some(0));
        assert_eq!(from_wide(&units).as_deref(), Some(s));
    }
}

#[test]
fn from_wide_rejects_lone_or_misordered_surrogates() {
    assert!(from_wide(&[0xD834]).is_none());
    assert!(from_wide(&[0xD834, 97]).is_none());
    assert!(from_wide(&[0xDD1E, 0xD834]).is_none());
    assert!(from_wide(&[97, 0xDC00]).is_none());
}

#[test]
fn null_cursor_stops_at_the_sentinel_and_never_reads_past_it() {
    let buf: Vec<u16> = vec![104, 105, 0, 99, 0];
    let mut it = Iter::new(&buf);
    assert_eq!(it.next(), Some(104));
    assert_eq!(it.next(), Some(105));
    assert_eq!(it.next(), None);
    assert_eq!(it.next(), None);
}

#[test]
fn null_cursor_on_unterminated_buffer_stops_at_the_end() {
    let buf: Vec<u16> = vec![104, 105];
    let mut it = Iter::new(&buf);
    assert_eq!(it.next(), Some(104));
    assert_eq!(it.next(), Some(105));
    assert_eq!(it.next(), None);
}

#[test]
fn strptr_reads_up_to_the_sentinel() {
    let p = StrPtr::new(vec![116, 104, 101, 0, 120]);
    assert_eq!(p.read(), vec![116, 104, 101]);
    let empty = StrPtr::new(vec![0]);
    assert_eq!(empty.read(), vec![]);
}

#[test]
fn suggest_wide_decodes_in_order_and_skips_undecodable_buffers() {
    let c = Checker::new();
    let bufs = vec![
        StrPtr::new(vec![116, 104, 101, 0]),
        StrPtr::new(vec![0xD834, 0]),
        StrPtr::new(vec![0xD834, 0xDD1E, 0]),
    ];
    let mut seq = c.suggest_wide("teh", bufs);
    assert_eq!(seq.next().as_deref(), Some("the"));
    assert_eq!(seq.next().as_deref(), Some("\u{1D11E}"));
    assert!(seq.next().is_none());
}

#[test]
fn convert_span_translates_code_unit_offsets_to_character_indices() {
    // "a" then a G clef (two code units) then "bcd".
    let text = "a\u{1D11E}bcd";
    let e = convert_span(text, 3, 2).expect("aligned span");
    assert_eq!(e.pos(), (2, 2));
    assert_eq!(e.text(), "bc");
    let whole = convert_span(text, 0, 6).expect("whole text");
    assert_eq!(whole.pos(), (0, 5));
    assert_eq!(whole.text(), text);
    let clef = convert_span(text, 1, 2).expect("the pair itself");
    assert_eq!(clef.pos(), (1, 1));
    assert_eq!(clef.text(), "\u{1D11E}");
}

#[test]
fn convert_span_rejects_offsets_inside_a_surrogate_pair_or_past_the_text() {
    let text = "a\u{1D11E}b";
    assert_eq!(convert_span(text, 2, 1).unwrap_err(), CheckError::Encoding);
    assert_eq!(convert_span(text, 1, 1).unwrap_err(), CheckError::Encoding);
    assert_eq!(convert_span(text, 0, 9).unwrap_err(), CheckError::Encoding);
    assert_eq!(convert_span(text, 9, 0).unwrap_err(), CheckError::Encoding);
}

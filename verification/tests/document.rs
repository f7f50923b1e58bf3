use mdslides::document::{parse_metadata, split_into_slides, Metadata};

fn text(s: &str) -> Option<Vec<u8>> {
    Some(s.as_bytes().to_vec())
}

fn no_metadata() -> Metadata {
    Metadata { author: None, title: None, subtitle: None }
}

#[test]
fn document_without_front_matter_is_its_own_body() {
    let input = "# Slide\ntitle: not metadata\n";
    let (metadata, body) = parse_metadata(input.as_bytes());
    assert_eq!(metadata, no_metadata());
    assert_eq!(body, input.as_bytes());
}

#[test]
fn empty_document_has_no_metadata() {
    let (metadata, body) = parse_metadata("".as_bytes());
    assert_eq!(metadata, no_metadata());
    assert_eq!(body, "".as_bytes());
}

#[test]
fn front_matter_sets_the_three_fields() {
    let input = "---\nauthor: Ada\ntitle: Demo\nsubtitle: A talk\n---\nSlide1\n";
    let (metadata, body) = parse_metadata(input.as_bytes());
    assert_eq!(
        metadata,
        Metadata { author: text("Ada"), title: text("Demo"), subtitle: text("A talk") }
    );
    assert_eq!(body, "Slide1\n".as_bytes());
}

#[test]
fn front_matter_is_cut_out_and_nothing_else() {
    let input = "---\ntitle: Demo\n---\n---\ntitle: Other\n---\nrest";
    let (metadata, body) = parse_metadata(input.as_bytes());
    assert_eq!(metadata, Metadata { author: None, title: text("Demo"), subtitle: None });
    assert_eq!(body, "---\ntitle: Other\n---\nrest".as_bytes());
}

#[test]
fn last_line_of_a_key_wins_and_values_are_trimmed() {
    let input = "---\ntitle: First\ntitle:    Second  \t\n---\n";
    let (metadata, body) = parse_metadata(input.as_bytes());
    assert_eq!(metadata, Metadata { author: None, title: text("Second"), subtitle: None });
    assert_eq!(body, "".as_bytes());
}

#[test]
fn unknown_keys_and_other_lines_set_nothing() {
    let input = "---\ndate: today\nTitle: big\n title: indented\ntitle:nospace\nxtitle: x\n---\nbody";
    let (metadata, body) = parse_metadata(input.as_bytes());
    assert_eq!(metadata, no_metadata());
    assert_eq!(body, "body".as_bytes());
}

#[test]
fn a_key_without_value_is_set_to_nothing() {
    let (metadata, _) = parse_metadata("---\nauthor: \n---\n".as_bytes());
    assert_eq!(metadata, Metadata { author: text(""), title: None, subtitle: None });
}

#[test]
fn empty_front_matter_is_well_formed() {
    let (metadata, body) = parse_metadata("---\n---\nbody".as_bytes());
    assert_eq!(metadata, no_metadata());
    assert_eq!(body, "body".as_bytes());
}

#[test]
fn unterminated_front_matter_is_no_front_matter() {
    let input = "---\ntitle: Demo\nSlide1\n";
    let (metadata, body) = parse_metadata(input.as_bytes());
    assert_eq!(metadata, no_metadata());
    assert_eq!(body, input.as_bytes());
}

#[test]
fn front_matter_must_open_the_document() {
    let input = "\n---\ntitle: Demo\n---\n";
    let (metadata, body) = parse_metadata(input.as_bytes());
    assert_eq!(metadata, no_metadata());
    assert_eq!(body, input.as_bytes());
}

#[test]
fn marker_lines_hold_nothing_but_the_marker() {
    let input = "--- \ntitle: Demo\n---\n";
    let (metadata, body) = parse_metadata(input.as_bytes());
    assert_eq!(metadata, no_metadata());
    assert_eq!(body, input.as_bytes());
    let input = "---\ntitle: Demo\n----\nmore\n---\nbody";
    let (metadata, body) = parse_metadata(input.as_bytes());
    assert_eq!(metadata, Metadata { author: None, title: text("Demo"), subtitle: None });
    assert_eq!(body, "body".as_bytes());
}

#[test]
fn front_matter_may_end_the_document() {
    let (metadata, body) = parse_metadata("---\ntitle: Demo\n---".as_bytes());
    assert_eq!(metadata, Metadata { author: None, title: text("Demo"), subtitle: None });
    assert_eq!(body, "".as_bytes());
}

#[test]
fn marker_line_with_carriage_return_is_no_marker() {
    let input = "---\r\ntitle: Demo\r\n---\r\nbody\r\n";
    let (metadata, body) = parse_metadata(input.as_bytes());
    assert_eq!(metadata, no_metadata());
    assert_eq!(body, input.as_bytes());
    let (metadata, body) = parse_metadata("---\n---\r\n---\nX".as_bytes());
    assert_eq!(metadata, no_metadata());
    assert_eq!(body, "X".as_bytes());
    let input = "---\ntitle: Demo\n---\r\nbody";
    let (metadata, body) = parse_metadata(input.as_bytes());
    assert_eq!(metadata, no_metadata());
    assert_eq!(body, input.as_bytes());
}

#[test]
fn values_lose_a_carriage_return_with_their_whitespace() {
    let (metadata, body) = parse_metadata("---\ntitle: Demo\r\nauthor: A B \r\n---\nbody\r\n".as_bytes());
    assert_eq!(metadata, Metadata { author: text("A B"), title: text("Demo"), subtitle: None });
    assert_eq!(body, "body\r\n".as_bytes());
}

#[test]
fn three_slides_between_two_delimiters() {
    let slides = split_into_slides("A<!-- end_slide -->B<!-- end_slide -->C".as_bytes());
    assert_eq!(
        slides,
        vec!["A".as_bytes().to_vec(), "B".as_bytes().to_vec(), "C".as_bytes().to_vec()]
    );
}

#[test]
fn body_without_delimiter_is_one_slide() {
    let input = "# Only\n<!-- end_slide ->\n";
    assert_eq!(split_into_slides(input.as_bytes()), vec![input.as_bytes().to_vec()]);
}

#[test]
fn empty_body_is_one_empty_slide() {
    assert_eq!(split_into_slides("".as_bytes()), vec![Vec::<u8>::new()]);
}

#[test]
fn delimiter_is_never_part_of_a_slide() {
    let slides = split_into_slides("<!-- end_slide -->\nA\n<!-- end_slide -->".as_bytes());
    assert_eq!(slides, vec![Vec::new(), "\nA\n".as_bytes().to_vec(), Vec::new()]);
}

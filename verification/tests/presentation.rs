use mdslides::colors::Theme;
use mdslides::document::Metadata;
use mdslides::presentation::{command_for_key, Action, Command, Presentation};

fn three_slides() -> Presentation {
    let metadata = Metadata { author: None, title: Some("T".as_bytes().to_vec()), subtitle: None };
    let slides = vec!["one".as_bytes().to_vec(), "two".as_bytes().to_vec(), "three".as_bytes().to_vec()];
    Presentation::new(metadata, slides, String::from("talk/deck.md"))
}

#[test]
fn new_presentation_shows_the_first_slide_in_the_first_theme() {
    let p = three_slides();
    assert_eq!(p.total_slides(), 3);
    assert_eq!(p.current_slide_index(), 0);
    assert_eq!(p.current_slide(), "one".as_bytes());
    assert_eq!(p.current_theme_index(), 0);
    assert_eq!(p.current_theme(), Theme::CatppuccinLatte);
    assert_eq!(p.get_presentation_file(), "talk/deck.md");
    assert_eq!(p.get_metadata().title, Some("T".as_bytes().to_vec()));
}

#[test]
fn previous_at_the_first_slide_stays() {
    let mut p = three_slides();
    p.move_to_previous_slide();
    assert_eq!(p.current_slide_index(), 0);
    assert_eq!(p.current_slide(), "one".as_bytes());
}

#[test]
fn next_at_the_last_slide_stays() {
    let mut p = three_slides();
    p.move_to_next_slide();
    assert_eq!(p.current_slide(), "two".as_bytes());
    p.move_to_next_slide();
    assert_eq!(p.current_slide(), "three".as_bytes());
    p.move_to_next_slide();
    assert_eq!(p.current_slide_index(), 2);
    assert_eq!(p.current_slide(), "three".as_bytes());
    p.move_to_previous_slide();
    assert_eq!(p.current_slide(), "two".as_bytes());
}

#[test]
fn single_slide_never_moves() {
    let metadata = Metadata { author: None, title: None, subtitle: None };
    let mut p = Presentation::new(metadata, vec![Vec::new()], String::new());
    p.move_to_next_slide();
    assert_eq!(p.current_slide_index(), 0);
    p.move_to_previous_slide();
    assert_eq!(p.current_slide_index(), 0);
}

#[test]
fn cycling_through_all_themes_returns_to_the_first() {
    let mut p = three_slides();
    p.cycle_theme();
    assert_eq!(p.current_theme(), Theme::CatppuccinMocha);
    p.cycle_theme();
    assert_eq!(p.current_theme(), Theme::OneDark);
    p.cycle_theme();
    assert_eq!(p.current_theme(), Theme::CatppuccinLatte);
    assert_eq!(p.current_theme_index(), 0);
    assert_eq!(p.current_slide_index(), 0);
}

#[test]
fn keys_have_their_commands() {
    assert_eq!(command_for_key('h'), Command::PreviousSlide);
    assert_eq!(command_for_key('l'), Command::NextSlide);
    assert_eq!(command_for_key('t'), Command::CycleTheme);
    assert_eq!(command_for_key('q'), Command::Quit);
    assert_eq!(command_for_key('x'), Command::Nothing);
    assert_eq!(command_for_key('H'), Command::Nothing);
    assert_eq!(command_for_key('\n'), Command::Nothing);
}

#[test]
fn commands_change_the_state_and_name_the_action() {
    let mut p = three_slides();
    assert_eq!(p.apply(Command::NextSlide), Action::Redraw);
    assert_eq!(p.current_slide_index(), 1);
    assert_eq!(p.apply(Command::Nothing), Action::Redraw);
    assert_eq!(p.current_slide_index(), 1);
    assert_eq!(p.apply(Command::CycleTheme), Action::Notify);
    assert_eq!(p.current_theme_index(), 1);
    assert_eq!(p.current_slide_index(), 1);
    assert_eq!(p.apply(Command::PreviousSlide), Action::Redraw);
    assert_eq!(p.current_slide_index(), 0);
    assert_eq!(p.apply(Command::Quit), Action::Quit);
    assert_eq!(p.current_slide_index(), 0);
    assert_eq!(p.current_theme_index(), 1);
}

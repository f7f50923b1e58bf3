//! The presentation: the slides of a document with the place of the viewer
//! in them and the theme in use.

use crate::colors::{Theme, THEME_COUNT};
use crate::document::{Metadata, MetadataView};
use crate::text::views;
use vstd::prelude::*;

verus! {

/// The slides of a document, the index of the slide that is shown, and the
/// index of the theme in use. There is always at least one slide, the slide
/// index is always that of a slide, and the theme index is always that of a
/// theme of the catalog.
pub struct Presentation {
    current_slide: usize,
    presentation_file: String,
    slides: Vec<Vec<u8>>,
    metadata: Metadata,
    current_theme_index: usize,
}

/// What a key asks for.
#[derive(Clone, Copy, Debug, PartialEq, Eq, Structural)]
pub enum Command {
    PreviousSlide,
    NextSlide,
    CycleTheme,
    Quit,
    /// The key has no meaning.
    Nothing,
}

/// What the driver does after a key.
#[derive(Clone, Copy, Debug, PartialEq, Eq, Structural)]
pub enum Action {
    /// Draw the slide again.
    Redraw,
    /// Draw the slide again, show the name of the theme as a notification,
    /// and draw the slide once more.
    Notify,
    /// End the presentation.
    Quit,
}

/// The command of each key: `h` goes back, `l` goes on, `t` takes the next
/// theme, `q` ends the presentation, and no other key means anything.
pub open spec fn command_of_key(key: char) -> Command {
    if key == 'h' {
        Command::PreviousSlide
    } else if key == 'l' {
        Command::NextSlide
    } else if key == 't' {
        Command::CycleTheme
    } else if key == 'q' {
        Command::Quit
    } else {
        Command::Nothing
    }
}

/// What the driver does after each command.
pub open spec fn action_of(command: Command) -> Action {
    match command {
        Command::CycleTheme => Action::Notify,
        Command::Quit => Action::Quit,
        _ => Action::Redraw,
    }
}

/// The command of a key.
pub fn command_for_key(key: char) -> (command: Command)
    ensures
        command == command_of_key(key),
{
    if key == 'h' {
        Command::PreviousSlide
    } else if key == 'l' {
        Command::NextSlide
    } else if key == 't' {
        Command::CycleTheme
    } else if key == 'q' {
        Command::Quit
    } else {
        Command::Nothing
    }
}

/// The index of the slide behind slide `index` among `total` slides: the
/// next one, or `index` itself at the last slide.
pub open spec fn next_slide_index(index: int, total: int) -> int {
    if index + 1 < total {
        index + 1
    } else {
        index
    }
}

/// The index of the slide before slide `index`: the previous one, or 0 at
/// the first slide.
pub open spec fn previous_slide_index(index: int) -> int {
    if index > 0 {
        index - 1
    } else {
        0
    }
}

/// The index of the theme behind theme `index`, the catalog walked in a
/// cycle.
pub open spec fn next_theme_index(index: int) -> int {
    (index + 1) % (THEME_COUNT as int)
}

/// The theme index after `steps` steps through the catalog from `index`.
pub open spec fn theme_index_after(index: int, steps: nat) -> int
    decreases steps,
{
    if steps == 0 {
        index
    } else {
        next_theme_index(theme_index_after(index, (steps - 1) as nat))
    }
}

/// As many steps through the catalog as it has themes lead back to the
/// theme from which they set out.
pub proof fn lemma_theme_cycle_returns(index: int)
    requires
        0 <= index < THEME_COUNT,
    ensures
        theme_index_after(index, THEME_COUNT as nat) == index,
{
    reveal_with_fuel(theme_index_after, 4);
}

/// Going back from the first slide, or on from the last one, changes
/// nothing.
pub proof fn lemma_navigation_stops_at_ends(total: int)
    requires
        total >= 1,
    ensures
        previous_slide_index(0) == 0,
        next_slide_index(total - 1, total) == total - 1,
{
}

/// Navigation never leaves the slides.
pub proof fn lemma_navigation_stays_in_range(index: int, total: int)
    requires
        0 <= index < total,
    ensures
        0 <= next_slide_index(index, total) < total,
        0 <= previous_slide_index(index) < total,
        0 <= next_theme_index(index) < THEME_COUNT,
{
}

impl Presentation {
    /// The slide index is that of a slide, and the theme index that of a
    /// theme.
    #[verifier::type_invariant]
    closed spec fn in_range(&self) -> bool {
        &&& self.current_slide < self.slides@.len()
        &&& self.current_theme_index < THEME_COUNT
    }

    /// The slides, in order.
    pub closed spec fn slides(&self) -> Seq<Seq<u8>> {
        views(self.slides@)
    }

    /// The index of the slide that is shown.
    pub closed spec fn slide_index(&self) -> int {
        self.current_slide as int
    }

    /// The index of the theme in use.
    pub closed spec fn theme_index(&self) -> int {
        self.current_theme_index as int
    }

    /// The metadata of the document.
    pub closed spec fn metadata(&self) -> MetadataView {
        self.metadata@
    }

    /// The path of the file that holds the document.
    pub closed spec fn file(&self) -> Seq<char> {
        self.presentation_file@
    }

    /// A presentation of `slides` that shows the first slide in the first
    /// theme of the catalog.
    pub fn new(metadata: Metadata, slides: Vec<Vec<u8>>, presentation_file: String) -> (p:
        Presentation)
        requires
            slides@.len() >= 1,
        ensures
            p.slides() == views(slides@),
            p.metadata() == metadata@,
            p.file() == presentation_file@,
            p.slide_index() == 0,
            p.theme_index() == 0,
    {
        Presentation {
            current_slide: 0,
            presentation_file,
            slides,
            metadata,
            current_theme_index: 0,
        }
    }

/// How many slides there are.
    pub fn total_slides(&self) -> (total: usize)
        ensures
            total == self.slides().len(),
            total >= 1,
            self.slide_index() < total,
    {
        proof {
            use_type_invariant(self);
        }
        self.slides.len()
    }

    /// The index of the slide that is shown.
    pub fn current_slide_index(&self) -> (index: usize)
        ensures
            index == self.slide_index(),
            index < self.slides().len(),
    {
        proof {
            use_type_invariant(self);
        }
        self.current_slide
    }

    /// The index of the theme in use.
    pub fn current_theme_index(&self) -> (index: usize)
        ensures
            index == self.theme_index(),
            index < THEME_COUNT,
    {
        proof {
            use_type_invariant(self);
        }
        self.current_theme_index
    }

    /// The slide that is shown.
    pub fn current_slide(&self) -> (slide: &[u8])
        ensures
            0 <= self.slide_index() < self.slides().len(),
            slide@ == self.slides()[self.slide_index()],
    {
        proof {
            use_type_invariant(self);
        }
        self.slides[self.current_slide].as_slice()
    }

    /// The theme in use.
    pub fn current_theme(&self) -> (theme: Theme)
        ensures
            0 <= self.theme_index() < THEME_COUNT,
            theme == Theme::at(self.theme_index()),
    {
        proof {
            use_type_invariant(self);
        }
        Theme::from_index(self.current_theme_index)
    }

    /// The metadata of the document.
    pub fn get_metadata(&self) -> (metadata: &Metadata)
        ensures
            metadata@ == self.metadata(),
    {
        &self.metadata
    }

    /// The path of the file that holds the document.
    pub fn get_presentation_file(&self) -> (file: &str)
        ensures
            file@ == self.file(),
    {
        self.presentation_file.as_str()
    }

    /// Takes the next theme of the catalog, the first one after the last.
    pub fn cycle_theme(&mut self)
        ensures
            final(self).theme_index() == next_theme_index(old(self).theme_index()),
            final(self).slide_index() == old(self).slide_index(),
            final(self).slides() == old(self).slides(),
            final(self).metadata() == old(self).metadata(),
            final(self).file() == old(self).file(),
    {
        proof {
            use_type_invariant(&*self);
        }
        self.current_theme_index = (self.current_theme_index + 1) % THEME_COUNT;
    }

    /// Goes back one slide; at the first slide nothing changes.
    pub fn move_to_previous_slide(&mut self)
        ensures
            final(self).slide_index() == previous_slide_index(old(self).slide_index()),
            final(self).theme_index() == old(self).theme_index(),
            final(self).slides() == old(self).slides(),
            final(self).metadata() == old(self).metadata(),
            final(self).file() == old(self).file(),
    {
        proof {
            use_type_invariant(&*self);
        }
        if self.current_slide > 0 {
            self.current_slide = self.current_slide - 1;
        }
    }

    /// Carries out a command and says what the driver does next. Only the
    /// slide index or the theme index changes, and only as the command
    /// says.
    pub fn apply(&mut self, command: Command) -> (action: Action)
        ensures
            action == action_of(command),
            final(self).slide_index() == match command {
                Command::PreviousSlide => previous_slide_index(old(self).slide_index()),
                Command::NextSlide => next_slide_index(
                    old(self).slide_index(),
                    old(self).slides().len() as int,
                ),
                _ => old(self).slide_index(),
            },
            final(self).theme_index() == match command {
                Command::CycleTheme => next_theme_index(old(self).theme_index()),
                _ => old(self).theme_index(),
            },
            final(self).slides() == old(self).slides(),
            final(self).metadata() == old(self).metadata(),
            final(self).file() == old(self).file(),
    {
        match command {
            Command::PreviousSlide => {
                self.move_to_previous_slide();
                Action::Redraw
            },
            Command::NextSlide => {
                self.move_to_next_slide();
                Action::Redraw
            },
            Command::CycleTheme => {
                self.cycle_theme();
                Action::Notify
            },
            Command::Quit => Action::Quit,
            Command::Nothing => Action::Redraw,
        }
    }

    /// Goes on one slide; at the last slide nothing changes.
    pub fn move_to_next_slide(&mut self)
        ensures
            final(self).slide_index() == next_slide_index(
                old(self).slide_index(),
                old(self).slides().len() as int,
            ),
            final(self).theme_index() == old(self).theme_index(),
            final(self).slides() == old(self).slides(),
            final(self).metadata() == old(self).metadata(),
            final(self).file() == old(self).file(),
    {
        proof {
            use_type_invariant(&*self);
        }
        if self.current_slide < self.slides.len() - 1 {
            self.current_slide = self.current_slide + 1;
        }
    }
}

} // verus!

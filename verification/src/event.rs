//! Input events, and what each does to the navigation state.

use vstd::prelude::*;
use crate::navigation::{
    lemma_moved_left_valid, lemma_moved_right_valid, lemma_moves_valid, lemma_toggle_twice,
    Navigation,
};
use crate::node::{forest_of, Node, Tree};
use crate::state::{rendered, rows_of, NavigationState, Screen};

verus! {

/// The number of rows that a page key scrolls by.
pub const PAGE_LINES: usize = 3;

/// The number of rows that one step of the wheel scrolls by.
pub const WHEEL_LINES: usize = 1;

/// A key that was pressed.
#[derive(Clone, Copy, Debug, PartialEq, Eq)]
pub enum Key {
    /// A key that writes a character.
    Char(char),
    Enter,
    Left,
    Right,
    Down,
    Up,
    Home,
    End,
    PageDown,
    PageUp,
    /// Any other key.
    Other,
}

/// An input event.
#[derive(Clone, Copy, Debug, PartialEq, Eq)]
pub enum Event {
    /// A key was pressed.
    Key(Key),
    /// The wheel was turned down by one step.
    ScrollDown,
    /// The wheel was turned up by one step.
    ScrollUp,
    /// Anything else.
    Ignored,
}

/// What the loop does after an event.
#[derive(Clone, Copy, Debug, PartialEq, Eq)]
pub enum Action {
    /// Draw the state and wait for the next event.
    Continue,
    /// Leave the loop.
    Quit,
}

/// Whether `event` ends the loop: the key `q` does.
pub open spec fn quits(event: Event) -> bool {
    event == Event::Key(Key::Char('q'))
}

impl Navigation {
    /// The state after `event`, over the document `items` in a viewport of
    /// `height` rows.
    pub open spec fn after(self, items: Seq<Tree>, height: nat, event: Event) -> Navigation {
        match event {
            Event::Key(Key::Enter) => self.toggled(items),
            Event::Key(Key::Char(c)) => if c == ' ' {
                self.toggled(items)
            } else if c == 'c' {
                self.overlay_toggled()
            } else {
                self
            },
            Event::Key(Key::Left) => self.moved_left(items, height),
            Event::Key(Key::Right) => self.moved_right(items, height),
            Event::Key(Key::Down) => self.moved_down(items, height),
            Event::Key(Key::Up) => self.moved_up(items, height),
            Event::Key(Key::Home) => self.first_selected(items, height),
            Event::Key(Key::End) => self.last_selected(items, height),
            Event::Key(Key::PageDown) => self.scrolled_down(items, PAGE_LINES as nat, height),
            Event::Key(Key::PageUp) => self.scrolled_up(items, PAGE_LINES as nat, height),
            Event::Key(Key::Other) => self,
            Event::ScrollDown => self.scrolled_down(items, WHEEL_LINES as nat, height),
            Event::ScrollUp => self.scrolled_up(items, WHEEL_LINES as nat, height),
            Event::Ignored => self,
        }
    }

    /// The state after the events `events`, one after the other.
    pub open spec fn after_all(self, items: Seq<Tree>, height: nat, events: Seq<Event>) -> Navigation
        decreases events.len(),
    {
        if events.len() == 0 {
            self
        } else {
            self.after_all(items, height, events.drop_last()).after(items, height, events.last())
        }
    }
}

/// No event makes a valid state invalid.
pub proof fn lemma_event_keeps_valid(state: Navigation, items: Seq<Tree>, height: nat, event: Event)
    requires
        state.valid(items),
    ensures
        state.after(items, height, event).valid(items),
{
    lemma_toggle_twice(state, items);
    lemma_moved_left_valid(state, items, height);
    lemma_moved_right_valid(state, items, height);
    lemma_moves_valid(state, items, height);
}

/// Whatever events arrive, in whatever order, the cursor of a state that
/// started valid is unset or on a visible row.
pub proof fn lemma_events_keep_valid(
    state: Navigation,
    items: Seq<Tree>,
    height: nat,
    events: Seq<Event>,
)
    requires
        state.valid(items),
    ensures
        state.after_all(items, height, events).valid(items),
    decreases events.len(),
{
    if events.len() > 0 {
        lemma_events_keep_valid(state, items, height, events.drop_last());
        lemma_event_keeps_valid(
            state.after_all(items, height, events.drop_last()),
            items,
            height,
            events.last(),
        );
    }
}

impl NavigationState {
    /// Performs what `event` asks for on the state, over the document
    /// `items` in a viewport of `viewport_height` rows, and says whether the
    /// loop goes on.
    pub fn handle_event(&mut self, items: &Vec<Node>, viewport_height: usize, event: Event) -> (action:
        Action)
        ensures
            final(self)@ == old(self)@.after(forest_of(items@), viewport_height as nat, event),
            old(self)@.valid(forest_of(items@)) ==> final(self)@.valid(forest_of(items@)),
            action == if quits(event) {
                Action::Quit
            } else {
                Action::Continue
            },
    {
        match event {
            Event::Key(key) => match key {
                Key::Char(c) => {
                    if c == 'q' {
                        return Action::Quit;
                    } else if c == ' ' {
                        self.toggle_selected(items);
                    } else if c == 'c' {
                        self.toggle_overlay();
                    }
                },
                Key::Enter => self.toggle_selected(items),
                Key::Left => self.move_left(items, viewport_height),
                Key::Right => self.move_right(items, viewport_height),
                Key::Down => self.move_down(items, viewport_height),
                Key::Up => self.move_up(items, viewport_height),
                Key::Home => self.select_first(items, viewport_height),
                Key::End => self.select_last(items, viewport_height),
                Key::PageDown => self.scroll_down(items, PAGE_LINES, viewport_height),
                Key::PageUp => self.scroll_up(items, PAGE_LINES, viewport_height),
                Key::Other => {},
            },
            Event::ScrollDown => self.scroll_down(items, WHEEL_LINES, viewport_height),
            Event::ScrollUp => self.scroll_up(items, WHEEL_LINES, viewport_height),
            Event::Ignored => {},
        }
        Action::Continue
    }
}

/// A document with the navigation state over it.
pub struct App {
    state: NavigationState,
    items: Vec<Node>,
}

impl App {
    /// The cursor is unset or on a visible row of the document.
    pub closed spec fn valid(&self) -> bool {
        self.state@.valid(forest_of(self.items@))
    }

    /// The navigation state.
    pub closed spec fn navigation(&self) -> Navigation {
        self.state@
    }

    /// The document.
    pub closed spec fn document(&self) -> Seq<Tree> {
        forest_of(self.items@)
    }

    /// The document `items` with the state at startup.
    pub fn new(items: Vec<Node>) -> (app: App)
        ensures
            app.navigation() == Navigation::initial(),
            app.document() == forest_of(items@),
            app.valid(),
    {
        App { state: NavigationState::new(), items }
    }

    /// The navigation state.
    pub fn state(&self) -> (state: &NavigationState)
        ensures
            state@ == self.navigation(),
    {
        &self.state
    }

    /// The nodes of the document.
    pub fn items(&self) -> (items: &Vec<Node>)
        ensures
            forest_of(items@) == self.document(),
    {
        &self.items
    }

    /// What is to be painted: the visible rows in order, the scroll offset
    /// and whether the overlay is shown.
    pub fn screen(&self) -> (screen: Screen)
        ensures
            rows_of(screen.rows@) == rendered(
                self.navigation().rows(self.document()),
                self.navigation(),
            ),
            screen.scroll_offset == self.navigation().scroll_offset,
            screen.overlay_visible == self.navigation().overlay_visible,
    {
        self.state.screen(&self.items)
    }

    /// Performs what `event` asks for, in a viewport of `viewport_height`
    /// rows, and says whether the loop goes on. The document stays as it is,
    /// and a cursor that was unset or on a visible row is so afterwards.
    pub fn handle_event(&mut self, event: Event, viewport_height: usize) -> (action: Action)
        ensures
            final(self).navigation() == old(self).navigation().after(
                old(self).document(),
                viewport_height as nat,
                event,
            ),
            final(self).document() == old(self).document(),
            old(self).valid() ==> final(self).valid(),
            action == if quits(event) {
                Action::Quit
            } else {
                Action::Continue
            },
    {
        self.state.handle_event(&self.items, viewport_height, event)
    }
}

} // verus!

//! The dashboard sidebar: which menu is open, which side it stands on, and
//! the tickers table it can show.

use vstd::prelude::*;
use crate::drawing::DrawingType;

verus! {

/// The sidebar's menus.
#[derive(Clone, Copy, Debug, PartialEq, Eq, Structural)]
pub enum Menu {
    Layout,
    Settings,
    Audio,
    ThemeEditor,
    Network,
}

/// The side of the window the sidebar stands on.
#[derive(Clone, Copy, Debug, PartialEq, Eq, Structural)]
pub enum Position {
    Left,
    Right,
}

/// How the tickers table sorts its rows.
#[derive(Clone, Copy, Debug, PartialEq, Eq, Structural)]
pub enum SortOption {
    VolumeAsc,
    VolumeDesc,
    ChangeAsc,
    ChangeDesc,
}

/// The saved settings of the tickers table.
#[derive(Clone, Copy, Debug, PartialEq, Eq, Structural)]
pub struct TickersTableSettings {
    pub show_favorites: bool,
    pub selected_sort_option: SortOption,
}

impl Default for TickersTableSettings {
    fn default() -> (s: TickersTableSettings)
        ensures
            !s.show_favorites,
            s.selected_sort_option == SortOption::VolumeDesc,
    {
        TickersTableSettings { show_favorites: false, selected_sort_option: SortOption::VolumeDesc }
    }
}

/// The saved state of the sidebar.
#[derive(Clone, Copy, Debug, PartialEq, Eq, Structural)]
pub struct SidebarState {
    pub position: Position,
    pub active_menu: Option<Menu>,
    pub tickers_table: Option<TickersTableSettings>,
}

impl Default for SidebarState {
    fn default() -> (s: SidebarState)
        ensures
            s.position == Position::Left,
            s.active_menu is None,
            s.tickers_table is None,
    {
        SidebarState { position: Position::Left, active_menu: None, tickers_table: None }
    }
}

/// A ticker, by its symbol.
#[derive(Clone, Debug)]
pub struct Ticker {
    pub symbol: String,
}

/// The tickers table: whether it is shown, which ticker card is expanded,
/// and its settings.
#[derive(Clone, Debug)]
pub struct TickersTable {
    pub is_shown: bool,
    pub expand_ticker_card: Option<Ticker>,
    pub settings: TickersTableSettings,
}

impl TickersTable {
    /// A hidden table with default settings.
    pub fn new() -> (t: TickersTable)
        ensures
            !t.is_shown,
            t.expand_ticker_card is None,
            t.settings == (TickersTableSettings {
                show_favorites: false,
                selected_sort_option: SortOption::VolumeDesc,
            }),
    {
        TickersTable { is_shown: false, expand_ticker_card: None, settings: TickersTableSettings::default() }
    }

    /// A hidden table with the given settings.
    pub fn new_with_settings(settings: &TickersTableSettings) -> (t: TickersTable)
        ensures
            !t.is_shown,
            t.expand_ticker_card is None,
            t.settings == *settings,
    {
        TickersTable { is_shown: false, expand_ticker_card: None, settings: *settings }
    }

    /// The table's current settings.
    pub fn settings(&self) -> (s: TickersTableSettings)
        ensures
            s == self.settings,
    {
        self.settings
    }
}

/// What the user did in the sidebar.
#[derive(Clone, Copy, Debug, PartialEq, Eq, Structural)]
pub enum Message {
    ToggleSidebarMenu(Option<Menu>),
    SetSidebarPosition(Position),
    SelectDrawingTool(DrawingType),
    ClearDrawings,
}

/// What the dashboard must do after a sidebar message.
#[derive(Clone, Copy, Debug, PartialEq, Eq, Structural)]
pub enum Action {
    SelectDrawingTool(DrawingType),
    ClearDrawings,
}

/// The sidebar.
#[derive(Clone, Debug)]
pub struct Sidebar {
    pub state: SidebarState,
    pub tickers_table: TickersTable,
}

/// The menu that toggling `menu` leaves open, when `active` is open: the
/// menu itself, unless it is the one already open, which closes.
pub open spec fn toggled_menu(active: Option<Menu>, menu: Option<Menu>) -> Option<Menu> {
    match menu {
        Some(m) => if active == Some(m) {
            None
        } else {
            Some(m)
        },
        None => None,
    }
}

impl Sidebar {
    /// A sidebar with the saved state; its tickers table takes the saved
    /// table settings where there are any, and is hidden.
    pub fn new(state: &SidebarState) -> (s: Sidebar)
        ensures
            s.state == *state,
            !s.tickers_table.is_shown,
            s.tickers_table.expand_ticker_card is None,
            match state.tickers_table {
                Some(t) => s.tickers_table.settings == t,
                None => s.tickers_table.settings == (TickersTableSettings {
                    show_favorites: false,
                    selected_sort_option: SortOption::VolumeDesc,
                }),
            },
    {
        let tickers_table = match &state.tickers_table {
            Some(settings) => TickersTable::new_with_settings(settings),
            None => TickersTable::new(),
        };
        Sidebar { state: *state, tickers_table }
    }

    /// Handles a message; returns what the dashboard must do.
    pub fn update(&mut self, message: Message) -> (action: Option<Action>)
        ensures
            match message {
                Message::ToggleSidebarMenu(menu) => {
                    &&& final(self).state.active_menu == toggled_menu(
                        old(self).state.active_menu,
                        menu,
                    )
                    &&& final(self).state.position == old(self).state.position
                    &&& final(self).state.tickers_table == old(self).state.tickers_table
                    &&& action is None
                },
                Message::SetSidebarPosition(pos) => {
                    &&& final(self).state == (SidebarState { position: pos, ..old(self).state })
                    &&& action is None
                },
                Message::SelectDrawingTool(tool) => {
                    &&& final(self).state == old(self).state
                    &&& action == Some(Action::SelectDrawingTool(tool))
                },
                Message::ClearDrawings => {
                    &&& final(self).state == old(self).state
                    &&& action == Some(Action::ClearDrawings)
                },
            },
            final(self).tickers_table.is_shown == old(self).tickers_table.is_shown,
            final(self).tickers_table.expand_ticker_card == old(self).tickers_table.expand_ticker_card,
            final(self).tickers_table.settings == old(self).tickers_table.settings,
    {
        match message {
            Message::ToggleSidebarMenu(menu) => {
                let next = match menu {
                    Some(m) => if self.is_menu_active(m) {
                        None
                    } else {
                        Some(m)
                    },
                    None => None,
                };
                self.set_menu(next);
                None
            },
            Message::SetSidebarPosition(pos) => {
                self.state.position = pos;
                None
            },
            Message::SelectDrawingTool(tool) => Some(Action::SelectDrawingTool(tool)),
            Message::ClearDrawings => Some(Action::ClearDrawings),
        }
    }

    /// Closes the expanded ticker card if there is one, else hides the
    /// table if it is shown; tells whether anything was closed.
    pub fn hide_tickers_table(&mut self) -> (closed: bool)
        ensures
            old(self).tickers_table.expand_ticker_card is Some ==> {
                &&& closed
                &&& final(self).tickers_table.expand_ticker_card is None
                &&& final(self).tickers_table.is_shown == old(self).tickers_table.is_shown
            },
            old(self).tickers_table.expand_ticker_card is None ==> {
                &&& closed == old(self).tickers_table.is_shown
                &&& !final(self).tickers_table.is_shown
                &&& final(self).tickers_table.expand_ticker_card is None
            },
            final(self).state == old(self).state,
            final(self).tickers_table.settings == old(self).tickers_table.settings,
    {
        let table = &mut self.tickers_table;
        if table.expand_ticker_card.is_some() {
            table.expand_ticker_card = None;
            return true;
        } else if table.is_shown {
            table.is_shown = false;
            return true;
        }
        false
    }

    /// Whether `menu` is the open menu.
    pub fn is_menu_active(&self, menu: Menu) -> (r: bool)
        ensures
            r == (self.state.active_menu == Some(menu)),
    {
        match self.state.active_menu {
            Some(m) => m == menu,
            None => false,
        }
    }

    /// Whether the settings button shows as active: the settings menu, or
    /// one of the menus reached from it (theme editor, network), is open.
    pub fn is_settings_button_active(&self) -> (r: bool)
        ensures
            r == (self.state.active_menu == Some(Menu::Settings) || self.state.active_menu == Some(
                Menu::ThemeEditor,
            ) || self.state.active_menu == Some(Menu::Network)),
    {
        self.is_menu_active(Menu::Settings) || self.is_menu_active(Menu::ThemeEditor)
            || self.is_menu_active(Menu::Network)
    }

    /// The open menu.
    pub fn active_menu(&self) -> (r: Option<Menu>)
        ensures
            r == self.state.active_menu,
    {
        self.state.active_menu
    }

    /// The sidebar's side.
    pub fn position(&self) -> (r: Position)
        ensures
            r == self.state.position,
    {
        self.state.position
    }

    /// Opens `menu` (closes every menu for `None`).
    pub fn set_menu(&mut self, menu: Option<Menu>)
        ensures
            final(self).state == (SidebarState { active_menu: menu, ..old(self).state }),
            final(self).tickers_table.is_shown == old(self).tickers_table.is_shown,
            final(self).tickers_table.expand_ticker_card == old(
                self,
            ).tickers_table.expand_ticker_card,
            final(self).tickers_table.settings == old(self).tickers_table.settings,
    {
        self.state.active_menu = menu;
    }

    /// Saves the tickers table's current settings into the sidebar state.
    pub fn sync_tickers_table_settings(&mut self)
        ensures
            final(self).state == (SidebarState {
                tickers_table: Some(old(self).tickers_table.settings),
                ..old(self).state
            }),
            final(self).tickers_table.is_shown == old(self).tickers_table.is_shown,
            final(self).tickers_table.expand_ticker_card == old(self).tickers_table.expand_ticker_card,
            final(self).tickers_table.settings == old(self).tickers_table.settings,
    {
        let settings = self.tickers_table.settings();
        self.state.tickers_table = Some(settings);
    }
}

/// Toggling a menu opens it when it is not the open one, and closes it when
/// it is; toggling it twice from closed leaves it closed again.
pub proof fn lemma_toggle_menu(active: Option<Menu>, m: Menu)
    ensures
        active == Some(m) ==> toggled_menu(active, Some(m)) is None,
        active != Some(m) ==> toggled_menu(active, Some(m)) == Some(m),
        active != Some(m) ==> toggled_menu(toggled_menu(active, Some(m)), Some(m)) is None,
        toggled_menu(active, None) is None,
{
}

} // verus!

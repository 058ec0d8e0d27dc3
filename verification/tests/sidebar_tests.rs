use orderflow::drawing::DrawingType;
use orderflow::sidebar::{
    Action, Menu, Message, Position, Sidebar, SidebarState, SortOption, Ticker,
    TickersTableSettings,
};

fn sidebar() -> Sidebar {
    Sidebar::new(&SidebarState::default())
}

#[test]
fn toggle_menu_opens_and_closes() {
    let mut s = sidebar();
    assert_eq!(s.active_menu(), None);
    assert_eq!(s.update(Message::ToggleSidebarMenu(Some(Menu::Settings))), None);
    assert!(s.is_menu_active(Menu::Settings));
    assert_eq!(s.active_menu(), Some(Menu::Settings));
    // another menu replaces it
    s.update(Message::ToggleSidebarMenu(Some(Menu::Audio)));
    assert_eq!(s.active_menu(), Some(Menu::Audio));
    assert!(!s.is_menu_active(Menu::Settings));
    // toggling the open one closes it
    s.update(Message::ToggleSidebarMenu(Some(Menu::Audio)));
    assert_eq!(s.active_menu(), None);
    s.set_menu(Some(Menu::Layout));
    s.update(Message::ToggleSidebarMenu(None));
    assert_eq!(s.active_menu(), None);
}

#[test]
fn position_and_actions() {
    let mut s = sidebar();
    assert_eq!(s.position(), Position::Left);
    assert_eq!(s.update(Message::SetSidebarPosition(Position::Right)), None);
    assert_eq!(s.position(), Position::Right);
    assert_eq!(
        s.update(Message::SelectDrawingTool(DrawingType::Ray)),
        Some(Action::SelectDrawingTool(DrawingType::Ray))
    );
    assert_eq!(s.update(Message::ClearDrawings), Some(Action::ClearDrawings));
    assert_eq!(s.position(), Position::Right);
}

#[test]
fn hide_tickers_table_closes_card_first() {
    let mut s = sidebar();
    assert!(!s.hide_tickers_table());
    s.tickers_table.is_shown = true;
    s.tickers_table.expand_ticker_card = Some(Ticker { symbol: "BTCUSDT".to_string() });
    assert!(s.hide_tickers_table());
    assert!(s.tickers_table.expand_ticker_card.is_none());
    assert!(s.tickers_table.is_shown);
    assert!(s.hide_tickers_table());
    assert!(!s.tickers_table.is_shown);
    assert!(!s.hide_tickers_table());
}

#[test]
fn saved_settings_round_trip() {
    let saved = TickersTableSettings {
        show_favorites: true,
        selected_sort_option: SortOption::ChangeAsc,
    };
    let state = SidebarState {
        position: Position::Right,
        active_menu: Some(Menu::Network),
        tickers_table: Some(saved),
    };
    let mut s = Sidebar::new(&state);
    assert_eq!(s.state, state);
    assert_eq!(s.tickers_table.settings(), saved);
    assert!(!s.tickers_table.is_shown);

    let mut fresh = sidebar();
    assert_eq!(fresh.state.tickers_table, None);
    fresh.sync_tickers_table_settings();
    assert_eq!(fresh.state.tickers_table, Some(TickersTableSettings::default()));
    s.tickers_table.settings.show_favorites = false;
    s.sync_tickers_table_settings();
    assert_eq!(
        s.state.tickers_table,
        Some(TickersTableSettings { show_favorites: false, selected_sort_option: SortOption::ChangeAsc })
    );
}

#[test]
fn settings_button_covers_its_submenus() {
    let mut s = sidebar();
    assert!(!s.is_settings_button_active());
    for (menu, active) in [
        (Menu::Settings, true),
        (Menu::ThemeEditor, true),
        (Menu::Network, true),
        (Menu::Layout, false),
        (Menu::Audio, false),
    ] {
        s.set_menu(Some(menu));
        assert_eq!(s.is_settings_button_active(), active);
    }
}

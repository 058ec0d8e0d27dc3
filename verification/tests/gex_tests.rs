use orderflow::gex_levels::{level_color, GexBookEvent, GexLevelsIndicator};
use orderflow::gex_client::subscribe_url;

#[test]
fn book_follows_events() {
    let mut book: GexLevelsIndicator<i32> = GexLevelsIndicator::new();
    book.on_gex_event(GexBookEvent::Connected);
    assert_eq!(book.len(), 0);
    book.on_gex_event(GexBookEvent::SetLevel("a".to_string(), 1));
    book.on_gex_event(GexBookEvent::SetLevel("b".to_string(), 2));
    book.on_gex_event(GexBookEvent::SetLevel("a".to_string(), 3));
    assert_eq!(book.len(), 2);
    assert_eq!(book.get(&"a".to_string()), Some(&3));
    assert_eq!(book.get(&"b".to_string()), Some(&2));
    book.on_gex_event(GexBookEvent::Remove("a".to_string()));
    book.on_gex_event(GexBookEvent::Remove("zzz".to_string()));
    assert_eq!(book.get(&"a".to_string()), None);
    assert_eq!(book.levels().len(), 1);
    book.on_gex_event(GexBookEvent::Disconnected);
    assert_eq!(book.len(), 0);
    book.on_gex_event(GexBookEvent::SetLevel("c".to_string(), 9));
    book.on_gex_event(GexBookEvent::Clear);
    assert_eq!(book.len(), 0);
}

#[test]
fn level_colors() {
    assert_eq!(level_color(&"gamma".to_string(), true), (50, 205, 50));
    assert_eq!(level_color(&"gamma".to_string(), false), (255, 0, 0));
    assert_eq!(level_color(&"oi".to_string(), true), (0, 191, 255));
    assert_eq!(level_color(&"oi".to_string(), false), (65, 105, 225));
    assert_eq!(level_color(&"call_wall".to_string(), false), (54, 198, 144));
    assert_eq!(level_color(&"put_wall".to_string(), true), (224, 93, 93));
    assert_eq!(level_color(&"zero_gamma".to_string(), true), (245, 194, 107));
    assert_eq!(level_color(&"max_gamma".to_string(), true), (74, 163, 255));
    assert_eq!(level_color(&"top_abs".to_string(), true), (94, 200, 216));
    assert_eq!(level_color(&"other".to_string(), true), (255, 255, 255));
}

#[test]
fn subscribe_url_encodes_the_token() {
    let url = String::from("wss://gex.example/ws");
    let token = String::from("a b&c/d");
    assert_eq!(subscribe_url(&url, &token), "wss://gex.example/ws?token=a%20b%26c%2Fd");
}

#[test]
fn subscribe_url_keeps_plain_tokens() {
    let url = String::from("ws://h");
    let token = String::from("abc-123_x.y~z");
    assert_eq!(subscribe_url(&url, &token), "ws://h?token=abc-123_x.y~z");
}

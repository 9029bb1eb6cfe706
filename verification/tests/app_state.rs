use rmqtty::app::{handle_key_event, handle_mqtt_event, App, KeyCode};
use rmqtty::mqtt::{Message, MqttEvent, Timestamp};

fn msg(topic: &str, payload: &str) -> Message {
    Message {
        topic: topic.to_string(),
        payload: payload.to_string(),
        ts: Timestamp { hour: 12, minute: 0, second: 0 },
    }
}

fn filled() -> App {
    let mut app = App::new();
    app.on_message(msg("a/x", "1"));
    app.on_message(msg("a/y", "2"));
    app.on_message(msg("b", "3"));
    app
}

#[test]
fn new_app_starts_disconnected_and_empty() {
    let app = App::new();
    assert!(!app.connected);
    assert_eq!(app.message_count, 0);
    assert_eq!(app.selected, 0);
    assert_eq!(app.list_selection, None);
    assert!(app.selected_node().is_none());
}

#[test]
fn messages_are_counted_and_filed() {
    let app = filled();
    assert_eq!(app.message_count, 3);
    assert_eq!(app.topic_tree.total_count, 3);
    assert_eq!(app.topic_tree.visible_count(), 2);
}

#[test]
fn up_stops_at_first_line() {
    let mut app = filled();
    app.on_up();
    assert_eq!(app.selected, 0);
    assert_eq!(app.list_selection, Some(0));
}

#[test]
fn down_stops_at_last_line() {
    let mut app = filled();
    app.on_down(2);
    assert_eq!(app.selected, 1);
    app.on_down(2);
    assert_eq!(app.selected, 1);
    assert_eq!(app.list_selection, Some(1));
    app.on_down(0);
    assert_eq!(app.selected, 0);
    app.on_up();
    assert_eq!(app.selected, 0);
}

#[test]
fn down_pulls_selection_back_into_a_shorter_listing() {
    let mut app = filled();
    app.selected = 7;
    app.on_down(3);
    assert_eq!(app.selected, 2);
}

#[test]
fn enter_expands_and_folds_selected_topic() {
    let mut app = filled();
    app.on_enter();
    assert_eq!(app.topic_tree.visible_count(), 4);
    assert!(app.selected_node().unwrap().expanded);
    app.on_enter();
    assert_eq!(app.topic_tree.visible_count(), 2);
    app.selected = 9;
    app.on_enter();
    assert_eq!(app.topic_tree.visible_count(), 2);
}

#[test]
fn selected_node_follows_selection() {
    let mut app = filled();
    app.on_down(2);
    let node = app.selected_node().unwrap();
    assert_eq!(node.messages.back().unwrap().payload, "3");
}

#[test]
fn keys_drive_the_explorer() {
    let mut app = filled();
    assert!(!handle_key_event(KeyCode::Down, &mut app));
    assert_eq!(app.selected, 1);
    assert!(!handle_key_event(KeyCode::Char('k'), &mut app));
    assert_eq!(app.selected, 0);
    assert!(!handle_key_event(KeyCode::Enter, &mut app));
    assert_eq!(app.topic_tree.visible_count(), 4);
    assert!(!handle_key_event(KeyCode::Char('j'), &mut app));
    assert!(!handle_key_event(KeyCode::Char('j'), &mut app));
    assert!(!handle_key_event(KeyCode::Char('j'), &mut app));
    assert!(!handle_key_event(KeyCode::Char('j'), &mut app));
    assert_eq!(app.selected, 3);
    assert!(!handle_key_event(KeyCode::Up, &mut app));
    assert_eq!(app.selected, 2);
    assert!(!handle_key_event(KeyCode::Esc, &mut app));
    assert!(!handle_key_event(KeyCode::Char('y'), &mut app));
    assert!(!handle_key_event(KeyCode::Other, &mut app));
    assert_eq!(app.selected, 2);
    assert!(handle_key_event(KeyCode::Char('q'), &mut app));
}

#[test]
fn broker_events_update_state() {
    let mut app = App::new();
    handle_mqtt_event(MqttEvent::Connected, &mut app);
    assert!(app.connected);
    handle_mqtt_event(MqttEvent::Publish(msg("x/y", "{}")), &mut app);
    assert_eq!(app.message_count, 1);
    assert_eq!(app.topic_tree.visible_count(), 1);
    handle_mqtt_event(MqttEvent::Disconnected, &mut app);
    assert!(!app.connected);
    assert_eq!(app.message_count, 1);
}

#[test]
fn up_from_the_last_possible_line() {
    let mut app = filled();
    app.selected = usize::MAX;
    assert!(!handle_key_event(KeyCode::Up, &mut app));
    assert_eq!(app.selected, usize::MAX - 1);
    app.selected = usize::MAX;
    assert!(!handle_key_event(KeyCode::Enter, &mut app));
    assert_eq!(app.selected, usize::MAX);
}

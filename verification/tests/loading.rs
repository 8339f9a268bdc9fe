use stagcrest::chat::{ChatKind, ChatLine, ChatUiState};
use stagcrest::loading::{LoadingState, ServerEvent};

type State = LoadingState<&'static str, u8, &'static str, u16>;
type Event = ServerEvent<&'static str, u8, &'static str, u16>;

#[test]
fn handshake_completes_after_content_entities_and_initial_state() {
    let mut s: State = LoadingState::new();
    let mut chat = ChatUiState::new();
    let events: Vec<Event> = vec![
        ServerEvent::Hello,
        ServerEvent::Manifest("content"),
        ServerEvent::TextureAssets { index: 0, total: 2, textures: vec![1, 2] },
        ServerEvent::Chat(ChatLine { kind: ChatKind::System, text: "welcome".into() }),
        ServerEvent::EntityManifest { manifest: "entities", empty: false },
    ];
    for e in events {
        assert!(!s.receive(e, &mut chat, 7));
    }
    assert_eq!(chat.messages.len(), 1);
    assert!(s.take_content_parts().is_none());
    s.receive(ServerEvent::TextureAssets { index: 1, total: 2, textures: vec![3] }, &mut chat, 8);
    assert_eq!(s.take_content_parts(), Some(("content", vec![1, 2, 3])));
    assert!(s.take_entity_parts().is_none());
    s.content_built(Ok(()));
    assert!(s.take_entity_parts().is_none());
    s.receive(ServerEvent::EntityAssets { index: 0, total: 1, assets: vec![9] }, &mut chat, 9);
    assert_eq!(s.take_entity_parts(), Some(("entities", vec![9])));
    assert!(s.handshake_done);
    s.check_done();
    assert!(!s.done);
    s.receive(ServerEvent::Initial { world_time_bits: 0 }, &mut chat, 10);
    s.check_done();
    assert!(s.can_start_game());
}

#[test]
fn rejection_ends_loading_with_the_reason() {
    let mut s: State = LoadingState::new();
    let mut chat = ChatUiState::new();
    assert!(s.receive(ServerEvent::Reject("server full".into()), &mut chat, 0));
    assert!(s.done);
    assert_eq!(s.error.as_deref(), Some("server full"));
    assert!(!s.can_start_game());
}

#[test]
fn failed_content_build_reports_error() {
    let mut s: State = LoadingState::new();
    s.content_built(Err("atlas too large".into()));
    assert!(s.done);
    assert_eq!(s.error.as_deref(), Some("Failed to build texture atlases: atlas too large"));
}

use cdn_pls::router::ChatMessage;
use cdn_pls::router::CreateAction;
use cdn_pls::router::EditOutcome;
use cdn_pls::router::EditStep;
use cdn_pls::router::on_reply_sent;
use cdn_pls::router::plan_create;
use cdn_pls::router::plan_edit;
use cdn_pls::router::resolve_edit;
use cdn_pls::store::CorrelationStore;

fn chars(s: &str) -> Vec<char> {
    s.chars().collect()
}

fn string_of(v: &[char]) -> String {
    v.iter().collect()
}

const BROKEN: &str =
    "http://media.discordapp.net/attachments/123456789012345678/987654321098765432/img.png";
const FIXED: &str =
    "https://cdn.discordapp.com/attachments/123456789012345678/987654321098765432/img.png";

fn human_message(id: u64, content: &str) -> ChatMessage {
    ChatMessage {
        id,
        channel_id: 7,
        author_is_bot: false,
        is_private: false,
        content: chars(content),
    }
}

#[test]
fn create_with_broken_link_sends_one_reply_and_records_entry() {
    let msg = human_message(42, &format!("check {}", BROKEN));
    let action = plan_create(&msg);
    match action {
        CreateAction::Reply { body } => {
            let expected = format!(
                "**\u{2728} Fixed your links!**\n{}\n\n\u{1F37F} Please update the link(s) in \
                 your message and I'll delete this one :)\n\u{2049} What is this?: \
                 <https://sexnine.xyz/whycdn>",
                FIXED
            );
            assert_eq!(string_of(&body), expected);
        }
        CreateAction::Ignore => panic!("a broken link from a human in a channel must be answered"),
    }
    // The send succeeded (the platform returned reply id 77): exactly one
    // entry is recorded.
    let mut store = CorrelationStore::new();
    on_reply_sent(&mut store, msg.id, 77);
    assert_eq!(store.take(42), Some(77));
    assert_eq!(store.len(), 1);
}

#[test]
fn create_lists_every_link_in_order() {
    let other =
        "https://media.discordapp.net/attachments/111111111111111111/222222222222222222/two.gif";
    let other_fixed =
        "https://cdn.discordapp.com/attachments/111111111111111111/222222222222222222/two.gif";
    let msg = human_message(1, &format!("{} then {}", BROKEN, other));
    match plan_create(&msg) {
        CreateAction::Reply { body } => {
            let text = string_of(&body);
            assert!(text.contains(&format!("\n{}\n{}", FIXED, other_fixed)));
        }
        CreateAction::Ignore => panic!("two broken links must be answered"),
    }
}

#[test]
fn create_from_bot_author_is_ignored() {
    let mut msg = human_message(42, &format!("check {}", BROKEN));
    msg.author_is_bot = true;
    assert!(matches!(plan_create(&msg), CreateAction::Ignore));
}

#[test]
fn create_in_private_message_is_ignored() {
    let mut msg = human_message(42, &format!("check {}", BROKEN));
    msg.is_private = true;
    assert!(matches!(plan_create(&msg), CreateAction::Ignore));
}

#[test]
fn create_without_broken_link_is_ignored() {
    let msg = human_message(42, &format!("all good: {}", FIXED));
    assert!(matches!(plan_create(&msg), CreateAction::Ignore));
}

#[test]
fn edit_of_fixed_message_retracts_reply_and_removes_entry() {
    let mut store = CorrelationStore::new();
    store.insert(42, 77);
    let step = plan_edit(&store, 42);
    let reply_id = match step {
        EditStep::Fetch { reply_id } => reply_id,
        EditStep::Skip => panic!("a tracked id must ask for a fetch"),
    };
    assert_eq!(reply_id, 77);
    // The re-fetched content no longer holds a broken link.
    let content = chars(&format!("now {}", FIXED));
    match resolve_edit(&mut store, 42, reply_id, &content) {
        EditOutcome::Retract { reply_id: r } => assert_eq!(r, 77),
        EditOutcome::KeepWaiting => panic!("a fixed message must retract the reply"),
    }
    assert_eq!(store.take(42), None);
}

#[test]
fn edit_with_remaining_broken_link_keeps_entry() {
    let mut store = CorrelationStore::new();
    store.insert(42, 77);
    let content = chars(&format!("still {}", BROKEN));
    match resolve_edit(&mut store, 42, 77, &content) {
        EditOutcome::KeepWaiting => {}
        EditOutcome::Retract { .. } => panic!("an unfixed message must keep the reply"),
    }
    assert_eq!(store.take(42), Some(77));
}

#[test]
fn edit_of_untracked_message_is_skipped() {
    let mut store = CorrelationStore::new();
    store.insert(1, 2);
    assert!(matches!(plan_edit(&store, 42), EditStep::Skip));
    // Nothing changed: no fetch, no deletion, the other entry is untouched.
    assert_eq!(store.take(1), Some(2));
    assert_eq!(store.len(), 1);
}

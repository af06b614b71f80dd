use honey_badger::Message;
use honey_badger::Target;
use honey_badger::TargetedMessage;

#[test]
fn into_epoch_wraps_the_message_and_keeps_the_target() {
    let broadcast = TargetedMessage { target: Target::All, message: vec![1u8, 2, 3] };
    assert_eq!(
        broadcast.into_epoch(4),
        TargetedMessage { target: Target::All, message: Message::CommonSubset(4, vec![1u8, 2, 3]) }
    );
    let unicast = TargetedMessage { target: Target::Node(7), message: "hello" };
    assert_eq!(
        unicast.into_epoch(u64::MAX),
        TargetedMessage {
            target: Target::Node(7),
            message: Message::CommonSubset(u64::MAX, "hello"),
        }
    );
}

#[test]
fn messages_of_different_epochs_differ() {
    assert_ne!(Message::CommonSubset(1, 0u8), Message::CommonSubset(2, 0u8));
    assert_eq!(Message::CommonSubset(1, 0u8).clone(), Message::CommonSubset(1, 0u8));
    assert_ne!(Target::All, Target::Node(0));
}

use squawkbus::hub::ClientEvent;
use squawkbus::interactor::{Interactor, InteractorAction, InteractorEvent, Phase};
use squawkbus::message::Message;

#[test]
fn interactor_runs_then_closes_once() {
    let mut interactor = Interactor::new("id1".into());
    let actions = interactor.step(InteractorEvent::Authenticated("joe".into()));
    assert_eq!(actions.len(), 2);
    assert!(matches!(&actions[0], InteractorAction::WriteToClient(Message::AuthenticationResponse { client_id }) if client_id == "id1"));
    assert!(matches!(&actions[1], InteractorAction::Register(user) if user == "joe"));
    assert_eq!(interactor.phase, Phase::Running);

    let message = Message::SubscriptionRequest { topic: "T".into(), is_add: true };
    let actions = interactor.step(InteractorEvent::FromClient(message.clone()));
    assert!(matches!(&actions[0], InteractorAction::SendToHub(ClientEvent::Message { id, message: m }) if id == "id1" && *m == message));

    let actions = interactor.step(InteractorEvent::ToClient(message.clone()));
    assert!(matches!(&actions[0], InteractorAction::WriteToClient(m) if *m == message));

    let actions = interactor.step(InteractorEvent::Failed);
    assert_eq!(actions.len(), 2);
    assert!(matches!(&actions[0], InteractorAction::SendToHub(ClientEvent::Close { id }) if id == "id1"));
    assert!(matches!(&actions[1], InteractorAction::Stop));
    assert!(interactor.step(InteractorEvent::Failed).is_empty());
    assert_eq!(interactor.phase, Phase::Closed);
}

#[test]
fn rejected_client_never_registers() {
    let mut interactor = Interactor::new("id2".into());
    let actions = interactor.step(InteractorEvent::Rejected);
    assert_eq!(actions.len(), 1);
    assert!(matches!(&actions[0], InteractorAction::Stop));
    assert!(interactor.step(InteractorEvent::Authenticated("joe".into())).is_empty());
}

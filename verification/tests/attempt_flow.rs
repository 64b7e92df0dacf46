use tunnel_registry::attempt::{Action, AttemptState, ConnectionAttempt, Event, FailureKind};
use tunnel_registry::registry::Registry;
use tunnel_registry::tunnel::{AuthCredential, TunnelDefinition};

fn def_with(credential: AuthCredential, auto_connect: bool) -> TunnelDefinition {
    TunnelDefinition {
        id: 1,
        name: "db".to_string(),
        username: "root".to_string(),
        hostname: "10.0.0.5".to_string(),
        local_port: 5432,
        remote_port: 5432,
        credential,
        timeout_seconds: 30,
        auto_connect,
    }
}

#[test]
fn attempt_walks_the_linear_pipeline_to_success() {
    let d = def_with(
        AuthCredential::KeyAuth { key_path: Some("/home/u/.ssh/id".to_string()) },
        false,
    );
    let mut a = ConnectionAttempt::new(&d);
    assert_eq!(a.state, AttemptState::Idle);
    assert!(matches!(a.step(Event::Begin), Action::Dial { timeout_seconds: 30 }));
    assert_eq!(a.state, AttemptState::Connecting);
    assert!(matches!(a.step(Event::ConnectOk), Action::Handshake));
    assert_eq!(a.state, AttemptState::Handshaking);
    let act = a.step(Event::HandshakeOk);
    assert!(matches!(&act, Action::AuthenticateWithKey { key_path } if key_path == "/home/u/.ssh/id"));
    assert!(matches!(a.step(Event::AuthOk), Action::Finished));
    assert_eq!(a.state, AttemptState::Succeeded);
}

#[test]
fn connect_failure_is_a_network_error() {
    let d = def_with(AuthCredential::PasswordAuth { saved_password: None }, false);
    let mut a = ConnectionAttempt::new(&d);
    a.step(Event::Begin);
    assert!(matches!(a.step(Event::ConnectFailed), Action::Finished));
    assert_eq!(a.state, AttemptState::Failed { reason: FailureKind::NetworkError });
}

#[test]
fn handshake_failure_is_a_handshake_error() {
    let d = def_with(AuthCredential::PasswordAuth { saved_password: None }, false);
    let mut a = ConnectionAttempt::new(&d);
    a.step(Event::Begin);
    a.step(Event::ConnectOk);
    assert!(matches!(a.step(Event::HandshakeFailed), Action::Finished));
    assert_eq!(a.state, AttemptState::Failed { reason: FailureKind::HandshakeError });
}

#[test]
fn key_auth_without_path_fails_directly_after_handshake() {
    let d = def_with(AuthCredential::KeyAuth { key_path: None }, false);
    let mut a = ConnectionAttempt::new(&d);
    a.step(Event::Begin);
    a.step(Event::ConnectOk);
    // The step after the completed handshake terminates the attempt: the
    // driver is told it is finished, so no authentication (and no further
    // network work) is ever requested.
    let act = a.step(Event::HandshakeOk);
    assert!(matches!(act, Action::Finished));
    assert_eq!(a.state, AttemptState::Failed { reason: FailureKind::MissingKeyPath });
}

#[test]
fn saved_password_is_used_without_prompting() {
    let d = def_with(
        AuthCredential::PasswordAuth { saved_password: Some("x".to_string()) },
        false,
    );
    let mut a = ConnectionAttempt::new(&d);
    a.step(Event::Begin);
    a.step(Event::ConnectOk);
    let act = a.step(Event::HandshakeOk);
    assert!(!matches!(act, Action::PromptPassword));
    assert!(matches!(&act, Action::AuthenticateWithPassword { password } if password == "x"));
    a.step(Event::AuthOk);
    assert_eq!(a.state, AttemptState::Succeeded);
}

#[test]
fn missing_password_prompts_once_and_uses_the_answer() {
    let d = def_with(AuthCredential::PasswordAuth { saved_password: None }, false);
    let mut a = ConnectionAttempt::new(&d);
    a.step(Event::Begin);
    a.step(Event::ConnectOk);
    assert!(matches!(a.step(Event::HandshakeOk), Action::PromptPassword));
    assert_eq!(a.state, AttemptState::Authenticating { awaiting_password: true });
    let act = a.step(Event::PasswordEntered { password: "typed".to_string() });
    assert!(matches!(&act, Action::AuthenticateWithPassword { password } if password == "typed"));
    assert!(matches!(a.step(Event::AuthFailed), Action::Finished));
    assert_eq!(a.state, AttemptState::Failed { reason: FailureKind::AuthError });
}

#[test]
fn auto_connect_sweep_attempts_exactly_the_flagged_definition() {
    // Add an auto-connect definition with a saved password, persist it,
    // reload it, and drive the sweep: exactly one attempt, for id 1,
    // which authenticates with the saved password and never prompts.
    let mut reg = Registry::new();
    reg.add(def_with(
        AuthCredential::PasswordAuth { saved_password: Some("x".to_string()) },
        true,
    ))
    .unwrap();
    reg.add(TunnelDefinition {
        id: 2,
        name: "other".to_string(),
        username: "root".to_string(),
        hostname: "h2".to_string(),
        local_port: 1,
        remote_port: 2,
        credential: AuthCredential::PasswordAuth { saved_password: None },
        timeout_seconds: 30,
        auto_connect: false,
    })
    .unwrap();

    let text = reg.store_text();
    let loaded = Registry::from_text(&text).unwrap();
    let sweep = loaded.auto_connect_definitions();
    assert_eq!(sweep.len(), 1);
    assert_eq!(sweep[0].id, 1);

    let mut prompted = false;
    let mut a = ConnectionAttempt::new(&sweep[0]);
    a.step(Event::Begin);
    a.step(Event::ConnectOk);
    let act = a.step(Event::HandshakeOk);
    if matches!(act, Action::PromptPassword) {
        prompted = true;
    }
    assert!(!prompted);
    assert!(matches!(&act, Action::AuthenticateWithPassword { password } if password == "x"));
    a.step(Event::AuthOk);
    assert_eq!(a.state, AttemptState::Succeeded);
}

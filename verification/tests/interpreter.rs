use tgbot::bot::{format_error, render_template, replace_all, Delay, Error, Interpreter, Phase};
use tgbot::config::{get_config, Action, ActionsOnly, Command, CommandTrigger, Config};
use tgbot::server;

fn test_config() -> Config {
    let mut cfg = get_config();
    cfg.commands = vec![
        (
            "status".to_string(),
            Command {
                trigger: CommandTrigger::ExactMessage { text: "status".to_string() },
                actions: vec![Action::Respond { text: "now: {statusMessage}".to_string() }],
            },
        ),
        (
            "power".to_string(),
            Command {
                trigger: CommandTrigger::ExactMessage { text: "power".to_string() },
                actions: vec![
                    Action::SendRawCommand { bytes: vec![0xA, 0xB] },
                    Action::Respond { text: "sent".to_string() },
                ],
            },
        ),
    ];
    cfg.handlers = tgbot::config::Handlers {
        generic_error: ActionsOnly {
            actions: vec![Action::Respond { text: "oops: {error}".to_string() }],
        },
    };
    cfg
}

#[test]
fn first_matching_command_wins() {
    let it = Interpreter::new(test_config(), Some("power".to_string()));
    assert!(matches!(it.phase, Phase::Primary { cmd: 1, idx: 0 }));
    assert!(it.last_error.is_none());
    let action = it.current_action().unwrap();
    assert!(matches!(action, Action::SendRawCommand { .. }));
}

#[test]
fn no_match_starts_error_handler_with_command_not_found() {
    let it = Interpreter::new(test_config(), Some("unknown".to_string()));
    assert!(matches!(it.phase, Phase::Fallback { idx: 0 }));
    assert!(matches!(it.last_error, Some(Error::CommandNotFound)));
    let action = it.current_action().unwrap();
    assert!(matches!(action, Action::Respond { .. }));
}

#[test]
fn message_without_text_matches_nothing() {
    let it = Interpreter::new(test_config(), None);
    assert!(matches!(it.phase, Phase::Fallback { idx: 0 }));
    assert!(matches!(it.last_error, Some(Error::CommandNotFound)));
}

#[test]
fn actions_run_in_order_until_done() {
    let mut it = Interpreter::new(test_config(), Some("power".to_string()));
    assert!(matches!(it.current_action().unwrap(), Action::SendRawCommand { .. }));
    it.advance(Ok(()));
    assert!(matches!(it.current_action().unwrap(), Action::Respond { .. }));
    it.advance(Ok(()));
    assert!(it.current_action().is_none());
}

#[test]
fn action_error_runs_handler_once_then_gives_up() {
    let mut it = Interpreter::new(test_config(), Some("power".to_string()));
    it.advance(Err(Error::ServerError(server::Error::IRAckTimeout)));
    assert!(matches!(it.phase, Phase::Fallback { idx: 0 }));
    assert!(matches!(
        it.last_error,
        Some(Error::ServerError(server::Error::IRAckTimeout))
    ));
    // the handler's own failure is not handled again
    it.advance(Err(Error::RequestError("boom".to_string())));
    assert!(matches!(it.phase, Phase::Done));
    assert!(it.current_action().is_none());
}

#[test]
fn cancelled_aborts_silently() {
    let mut it = Interpreter::new(test_config(), Some("power".to_string()));
    it.advance(Err(Error::Cancelled));
    assert!(matches!(it.phase, Phase::Done));
    // no error is stored and no handler fires
    assert!(it.last_error.is_none());
    assert!(it.current_action().is_none());
}

#[test]
fn replace_all_replaces_every_occurrence() {
    assert_eq!(replace_all("a{x}b{x}", "{x}", "1"), "a1b1");
    assert_eq!(replace_all("none here", "{x}", "1"), "none here");
    assert_eq!(replace_all("{x}{x}{x}", "{x}", ""), "");
    assert_eq!(replace_all("aaa", "aa", "b"), "ba");
}

#[test]
fn render_substitutes_status_message() {
    let cfg = test_config();
    let out = render_template(&"now: {statusMessage}".to_string(), &None, true, &cfg);
    assert_eq!(out, "now: device is online");
    let out = render_template(&"now: {statusMessage}".to_string(), &None, false, &cfg);
    assert_eq!(out, "now: device is offline");
}

#[test]
fn render_substitutes_error_only_when_present() {
    let cfg = test_config();
    let out = render_template(&"oops: {error}".to_string(), &None, true, &cfg);
    assert_eq!(out, "oops: {error}");
    let err = Some(Error::ServerError(server::Error::CanNotSendWhenOffline));
    let out = render_template(&"oops: {error}".to_string(), &err, true, &cfg);
    assert_eq!(out, "oops: can not send while the device is offline");
}

#[test]
fn render_leaves_unknown_braces_alone() {
    let cfg = test_config();
    let out = render_template(&"{what} {is} this".to_string(), &None, true, &cfg);
    assert_eq!(out, "{what} {is} this");
}

#[test]
fn format_error_selects_configured_messages() {
    let m = get_config().messages;
    assert_eq!(format_error(&Error::CommandNotFound, &m), "command not found");
    assert_eq!(format_error(&Error::Cancelled, &m), "command canceled");
    assert_eq!(
        format_error(&Error::RequestError("x".to_string()), &m),
        "chat platform error"
    );
    assert_eq!(
        format_error(&Error::ServerError(server::Error::NotImplemented), &m),
        "not implemented"
    );
    assert_eq!(
        format_error(&Error::ServerError(server::Error::IRAckTimeout), &m),
        "no response from the device"
    );
    assert_eq!(
        format_error(&Error::ServerError(server::Error::MpcResponseTimeout), &m),
        "internal error: MpcResponseTimeout"
    );
    assert_eq!(
        format_error(&Error::ServerError(server::Error::Io("broken pipe".to_string())), &m),
        "internal error: broken pipe"
    );
    assert_eq!(
        format_error(
            &Error::ServerError(server::Error::JsonError("bad frame".to_string())),
            &m
        ),
        "internal error: bad frame"
    );
    assert_eq!(
        format_error(
            &Error::ServerError(server::Error::MpcGenericError("slot gone".to_string())),
            &m
        ),
        "internal error: slot gone"
    );
}

#[test]
fn delay_debounce_cancels_superseded_generation() {
    let mut reg = Delay::new();
    let key = "k".to_string();
    let (g1, t1) = reg.begin(&key);
    assert!(!t1.is_cancelled());
    let (g2, t2) = reg.begin(&key);
    assert!(g2 > g1);
    // the first generation's token was cancelled by the second schedule
    assert!(t1.is_cancelled());
    assert!(!t2.is_cancelled());
    // the superseded generation cannot finish successfully
    assert!(!reg.finish(&key, g1));
    // the live one can, exactly once
    assert!(reg.finish(&key, g2));
    assert!(!reg.finish(&key, g2));
}

#[test]
fn delay_keys_are_independent() {
    let mut reg = Delay::new();
    let (ga, ta) = reg.begin(&"a".to_string());
    let (gb, tb) = reg.begin(&"b".to_string());
    assert!(!ta.is_cancelled());
    assert!(!tb.is_cancelled());
    assert!(reg.finish(&"a".to_string(), ga));
    assert!(reg.finish(&"b".to_string(), gb));
}

#[test]
fn built_in_config_defaults() {
    let cfg = get_config();
    assert_eq!(cfg.version, 1);
    assert!(cfg.keyboard.is_empty());
    assert!(cfg.commands.is_empty());
    assert!(cfg.handlers.generic_error.actions.is_empty());
    assert_eq!(cfg.server.online_message, "device is online");
    assert_eq!(cfg.server.offline_message, "device is offline");
    assert_eq!(cfg.messages.internal_error, "internal error");
}

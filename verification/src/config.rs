//! The static configuration: keyboard layout, command table, error handlers
//! and message templates. It is loaded once at startup and read-only from
//! then on; commands are kept in a list so that their insertion order, which
//! drives trigger evaluation, is part of the value.

use vstd::prelude::*;

verus! {

/// The whole configuration a bot runs with.
#[derive(Debug, Clone)]
pub struct Config {
    pub version: u32,
    /// Rows of button labels offered as the chat reply keyboard.
    pub keyboard: Vec<Vec<String>>,
    /// Named commands, in the order triggers are evaluated.
    pub commands: Vec<(String, Command)>,
    pub handlers: Handlers,
    pub server: ServerConfig,
    pub messages: Messages,
}

/// The texts the `{error}` template token renders to, by error kind.
#[derive(Debug, Clone)]
pub struct Messages {
    pub not_implemented: String,
    pub command_not_found: String,
    pub telegram_error: String,
    pub command_canceled: String,
    pub internal_error: String,
    pub no_response_from_rc: String,
    pub can_not_send_when_offline: String,
}

/// The texts the `{statusMessage}` template token renders to.
#[derive(Debug, Clone)]
pub struct ServerConfig {
    pub online_message: String,
    pub offline_message: String,
}

/// One configured command: when it fires and what it does.
#[derive(Debug, Clone)]
pub struct Command {
    pub trigger: CommandTrigger,
    pub actions: Vec<Action>,
}

/// When a command fires.
#[derive(Debug, Clone)]
pub enum CommandTrigger {
    /// The incoming message's text equals `text` exactly.
    ExactMessage { text: String },
}

/// One step of a command.
#[derive(Debug, Clone)]
pub enum Action {
    /// Submit these words to the device over the command channel.
    SendRawCommand { bytes: Vec<u32> },
    /// Render this template and send it back to the originating chat.
    Respond { text: String },
    /// Wait, debounced under `key`: a later delay with the same key cancels
    /// this one.
    Delay { seconds: u64, key: String },
}

/// The configured error handlers.
#[derive(Debug, Clone)]
pub struct Handlers {
    pub generic_error: ActionsOnly,
}

/// A bare action list, as an error handler holds one.
#[derive(Debug, Clone)]
pub struct ActionsOnly {
    pub actions: Vec<Action>,
}

/// An authorized user of the bot.
#[derive(Debug, Clone)]
pub struct User {
    pub id: u64,
    pub name: String,
}

/// The built-in configuration: no keyboard, no commands, no error-handler
/// actions, and plain English message texts. A deployment replaces it with a
/// configuration read from its own sources.
pub fn get_config() -> (cfg: Config)
    ensures
        cfg.version == 1u32,
        cfg.keyboard@.len() == 0,
        cfg.commands@.len() == 0,
        cfg.handlers.generic_error.actions@.len() == 0,
        cfg.messages.not_implemented@ == "not implemented"@,
        cfg.messages.command_not_found@ == "command not found"@,
        cfg.messages.telegram_error@ == "chat platform error"@,
        cfg.messages.command_canceled@ == "command canceled"@,
        cfg.messages.internal_error@ == "internal error"@,
        cfg.messages.no_response_from_rc@ == "no response from the device"@,
        cfg.messages.can_not_send_when_offline@ == "can not send while the device is offline"@,
        cfg.server.online_message@ == "device is online"@,
        cfg.server.offline_message@ == "device is offline"@,
{
    Config {
        version: 1,
        keyboard: Vec::new(),
        commands: Vec::new(),
        handlers: Handlers { generic_error: ActionsOnly { actions: Vec::new() } },
        server: ServerConfig {
            online_message: "device is online".to_owned(),
            offline_message: "device is offline".to_owned(),
        },
        messages: Messages {
            not_implemented: "not implemented".to_owned(),
            command_not_found: "command not found".to_owned(),
            telegram_error: "chat platform error".to_owned(),
            command_canceled: "command canceled".to_owned(),
            internal_error: "internal error".to_owned(),
            no_response_from_rc: "no response from the device".to_owned(),
            can_not_send_when_offline: "can not send while the device is offline".to_owned(),
        },
    }
}

} // verus!

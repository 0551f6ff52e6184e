pub mod fmad;
pub mod ping;

use vstd::prelude::*;
use crate::card::{CommandSpec, CommandSpecView};
use crate::text::same_text;

verus! {

/// The slash commands the bot answers.
#[derive(Debug, Clone, Copy, PartialEq, Eq, Structural)]
pub enum BotCommand {
    Ping,
    Fmad,
}

/// The command a slash command's name stands for, if the bot knows it.
pub open spec fn command_named_spec(name: Seq<char>) -> Option<BotCommand> {
    if name == "ping"@ {
        Some(BotCommand::Ping)
    } else if name == "fmad"@ {
        Some(BotCommand::Fmad)
    } else {
        None
    }
}

/// The command a slash command's name stands for, if the bot knows it.
pub fn command_named(name: &str) -> (c: Option<BotCommand>)
    ensures
        c == command_named_spec(name@),
{
    if same_text(name, "ping") {
        Some(BotCommand::Ping)
    } else if same_text(name, "fmad") {
        Some(BotCommand::Fmad)
    } else {
        None
    }
}

/// The slash commands to register, in order: `ping`, then `fmad`.
pub fn all_commands() -> (v: Vec<CommandSpec>)
    ensures
        v@.len() == 2,
        v@[0]@ == (CommandSpecView { name: "ping"@, description: "A ping command"@ }),
        v@[1]@ == (CommandSpecView {
            name: "fmad"@,
            description: "Find me a dish pwetty pweeeezz 🥺"@,
        }),
{
    let mut v: Vec<CommandSpec> = Vec::new();
    v.push(ping::register());
    v.push(fmad::register());
    v
}

} // verus!

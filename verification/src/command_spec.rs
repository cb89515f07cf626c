//! A command as a configuration or a manifest declares it.
use vstd::prelude::*;
use crate::document::CommandValue;
use crate::document::CommandValueView;

verus! {

/// One declared command.
#[derive(Debug)]
pub struct CommandSpec {
    pub name: String,
    pub value: CommandValue,
    pub source: String,
}

/// The model of a [`CommandSpec`].
pub struct CommandSpecView {
    pub name: Seq<char>,
    pub value: CommandValueView,
    pub source: Seq<char>,
}

impl View for CommandSpec {
    type V = CommandSpecView;

    open spec fn view(&self) -> CommandSpecView {
        CommandSpecView { name: self.name@, value: self.value@, source: self.source@ }
    }
}

} // verus!

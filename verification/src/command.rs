//! Commands, the unit of mutation, and what replaying them means.

use vstd::prelude::*;

verus! {

/// One intended mutation of the store.
#[derive(Debug, Clone, PartialEq, Eq)]
pub enum Command {
    /// Bind `key` to `value`, replacing any earlier binding.
    Put { key: String, value: String },
    /// Drop the binding of `key`.
    Remove { key: String },
}

/// The mathematical content of a [`Command`].
pub enum CommandView {
    Put { key: Seq<char>, value: Seq<char> },
    Remove { key: Seq<char> },
}

impl View for Command {
    type V = CommandView;

    open spec fn view(&self) -> CommandView {
        match self {
            Command::Put { key, value } => CommandView::Put { key: key@, value: value@ },
            Command::Remove { key } => CommandView::Remove { key: key@ },
        }
    }
}

impl CommandView {
    /// The key that the command is about.
    pub open spec fn key(self) -> Seq<char> {
        match self {
            CommandView::Put { key, .. } => key,
            CommandView::Remove { key } => key,
        }
    }

    /// The mapping after the command has been applied to `m`.
    /// Removing a key that is not bound changes nothing.
    pub open spec fn apply(self, m: Map<Seq<char>, Seq<char>>) -> Map<Seq<char>, Seq<char>> {
        match self {
            CommandView::Put { key, value } => m.insert(key, value),
            CommandView::Remove { key } => m.remove(key),
        }
    }
}

/// The mapping that results from applying `commands`, oldest first, to an
/// empty mapping.
pub open spec fn replay_spec(commands: Seq<CommandView>) -> Map<Seq<char>, Seq<char>>
    decreases commands.len(),
{
    if commands.len() == 0 {
        Map::empty()
    } else {
        commands.last().apply(replay_spec(commands.drop_last()))
    }
}

impl Command {
    /// The key that the command is about.
    pub fn key(&self) -> (k: &String)
        ensures
            k@ == self@.key(),
    {
        match self {
            Command::Put { key, .. } => key,
            Command::Remove { key } => key,
        }
    }
}

} // verus!

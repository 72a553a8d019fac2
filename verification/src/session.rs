//! Per-connection session logic of the synchronization server.
//!
//! A connection handler waits on two event sources — inbound client
//! messages and a fixed broadcast timer — and never touches the world
//! directly: it only chooses which snapshot to send and which command
//! to queue.  The decisions live here, verified; the sockets, timers
//! and queues live with the caller.
use vstd::prelude::*;

use crate::codec::{deserialize_player_input, serialize_player_input, PlayerInput};

verus! {

/// How many broadcast intervals after connecting still send the full
/// snapshot, to tolerate a snapshot race during session setup.
pub const FULL_SENDS_AFTER_CONNECT: u8 = 5;

/// Which snapshot a handler sends on a timer event.
#[derive(Clone, Copy, PartialEq, Eq, Structural, Debug)]
pub enum SendKind {
    Full,
    Incremental,
}

/// The state of one client connection.
pub struct Session {
    pub player_id: Option<String>,
    pub full_sends_left: u8,
}

impl Session {
    /// A fresh session: the connecting client is owed the full
    /// snapshot for the first few intervals and has no player yet.
    pub fn new() -> (s: Session)
        ensures
            s.player_id is None,
            s.full_sends_left == FULL_SENDS_AFTER_CONNECT,
    {
        Session { player_id: Option::None, full_sends_left: FULL_SENDS_AFTER_CONNECT }
    }

    /// Decide what a timer event sends: the full snapshot while the
    /// session is young, the incremental one from then on.
    pub fn on_timer(&mut self) -> (k: SendKind)
        ensures
            old(self).full_sends_left > 0 ==> k == SendKind::Full && final(self).full_sends_left
                == old(self).full_sends_left - 1,
            old(self).full_sends_left == 0 ==> k == SendKind::Incremental
                && final(self).full_sends_left == 0,
            final(self).player_id == old(self).player_id,
    {
        if self.full_sends_left > 0 {
            self.full_sends_left = self.full_sends_left - 1;
            SendKind::Full
        } else {
            SendKind::Incremental
        }
    }

    /// Note an inbound message: the first command that creates a
    /// player binds this session to that player id, so the
    /// disconnect cleanup knows whom to remove.  The message itself
    /// is queued by the caller unchanged.
    pub fn on_message(&mut self, msg: &str)
        ensures
            old(self).player_id is Some ==> final(self).player_id == old(self).player_id,
            final(self).full_sends_left == old(self).full_sends_left,
            old(self).player_id is None ==> (final(self).player_id matches Option::Some(id)
                ==> exists|name: String|
                crate::codec::spec_parse_tokens(msg@) == Option::Some(
                    crate::codec::input_toks(PlayerInput::CreatePlayer { id, name }),
                )),
            forall|id: String, name: String|
                #![trigger crate::codec::input_toks(PlayerInput::CreatePlayer { id, name })]
                (old(self).player_id is None && crate::codec::spec_parse_tokens(msg@)
                    == Option::Some(
                    crate::codec::input_toks(PlayerInput::CreatePlayer { id, name }),
                )) ==> (final(self).player_id matches Option::Some(bound) && bound@ == id@),
    {
        if self.player_id.is_none() {
            match deserialize_player_input(msg) {
                Option::Some(PlayerInput::CreatePlayer { id, name }) => {
                    let ghost bound_name = name;
                    self.player_id = Option::Some(id);
                    proof {
                        assert(crate::codec::spec_parse_tokens(msg@) == Option::Some(
                            crate::codec::input_toks(
                                PlayerInput::CreatePlayer {
                                    id: self.player_id->Some_0,
                                    name: bound_name,
                                },
                            ),
                        ));
                    }
                },
                _ => {},
            }
        }
    }

    /// The command a closing connection leaves behind: the deletion
    /// of its player, routed through the same queue as every other
    /// command, or nothing when no player was ever created.
    pub fn on_disconnect(self) -> (r: Option<String>)
        ensures
            self.player_id is None ==> r is None,
            self.player_id matches Option::Some(id) ==> (r matches Option::Some(t) && t@
                == crate::codec::enc_tokens(
                crate::codec::input_toks(PlayerInput::DeletePlayer { id }),
            )),
    {
        match self.player_id {
            Option::Some(id) => {
                let cmd = PlayerInput::DeletePlayer { id };
                Option::Some(serialize_player_input(&cmd))
            },
            Option::None => Option::None,
        }
    }
}

/// The inbound command queue shared between the connection handlers
/// and the tick driver: handlers append, the driver drains it whole,
/// so a command enqueued before a drain is applied in that tick and
/// one enqueued after is deferred to the next — never lost, never
/// applied twice.
pub struct CommandQueue {
    pub items: Vec<String>,
}

impl CommandQueue {
    /// An empty queue.
    pub fn new() -> (q: CommandQueue)
        ensures
            q.items@.len() == 0,
    {
        CommandQueue { items: Vec::new() }
    }

    /// Append one encoded command.
    pub fn push(&mut self, cmd: String)
        ensures
            final(self).items@ == old(self).items@.push(cmd),
    {
        self.items.push(cmd);
    }

    /// Take every queued command, in arrival order, leaving the
    /// queue empty.
    pub fn drain(&mut self) -> (r: Vec<String>)
        ensures
            r == old(self).items,
            final(self).items@.len() == 0,
    {
        let mut out = Vec::new();
        core::mem::swap(&mut out, &mut self.items);
        out
    }
}

} // verus!

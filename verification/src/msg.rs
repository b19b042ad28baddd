use vstd::prelude::*;
use vstd::string::*;

verus! {

/// A proposal of the application, carried to the raft log as it is.
pub struct Normal {
    pub data: Vec<u8>,
}

/// The kinds of command one node sends another outside the raft log.
#[derive(Clone, Copy, PartialEq, Eq, Debug, Structural)]
pub enum CommandType {
    Join,
}

/// A command one node sends another outside the raft log: `Join` asks the
/// leader to add the node `id`, reachable at `host:port`, to the cluster.
#[derive(Debug)]
pub struct Command {
    pub command: CommandType,
    pub id: u64,
    pub port: u16,
    pub host: Option<String>,
}

impl Command {
    /// The join request of node `id` that listens on `port`; the host is
    /// filled in by the node that receives it.
    pub fn new_join(id: u64, port: u16) -> (cmd: Self)
        ensures
            cmd.command == CommandType::Join,
            cmd.id == id,
            cmd.port == port,
            cmd.host.is_none(),
    {
        Command { id, port, command: CommandType::Join, host: None }
    }
}

/// An error the application reports: a code and a message.
#[derive(Debug)]
pub struct RaftError {
    pub what: i32,
    pub msg: String,
}

/// The text an error reads as: `RaftError: ` followed by its message.
pub open spec fn raft_error_text(msg: Seq<char>) -> Seq<char> {
    seq!['R', 'a', 'f', 't', 'E', 'r', 'r', 'o', 'r', ':', ' '] + msg
}

impl RaftError {
    pub fn new(what: i32, msg: String) -> (e: Self)
        ensures
            e.what == what,
            e.msg@ == msg@,
    {
        RaftError { what, msg }
    }

    /// The error as text, as it is displayed.
    pub fn to_string(&self) -> (text: String)
        ensures
            text@ == raft_error_text(self.msg@),
    {
        let prefix = "RaftError: ";
        proof {
            reveal_strlit("RaftError: ");
        }
        let text = String::from_str(prefix).concat(self.msg.as_str());
        proof {
            assert(text@ =~= raft_error_text(self.msg@));
        }
        text
    }
}

} // verus!

//! Request dispatch: commands from clients applied to the engine.
use vstd::prelude::*;
use vstd::string::StringExecFns;
use vstd::utf8::*;

use crate::error::Error;
use crate::kvs::KvStore;
use crate::sled_engine::SledKvsEngine;

verus! {

/// A client command.
pub enum Command {
    Get { key: String },
    SetValue { key: String, value: String },
    Remove { key: String },
}

/// The answer to a request.
pub enum Response {
    Success { msg: String },
    Failure { msg: String },
}

/// The engine a server runs, chosen once at start.
pub enum Engine {
    Kvs(KvStore),
    Sled(SledKvsEngine),
}

/// The request handler: one engine, used by one request at a time.
pub struct MySay {
    pub store: Engine,
}

/// `"key not found"`
pub open spec fn key_not_found_msg() -> Seq<char> {
    seq!['k', 'e', 'y', ' ', 'n', 'o', 't', ' ', 'f', 'o', 'u', 'n', 'd']
}

/// `"unknown command"`
pub open spec fn unknown_command_msg() -> Seq<char> {
    seq!['u', 'n', 'k', 'n', 'o', 'w', 'n', ' ', 'c', 'o', 'm', 'm', 'a', 'n', 'd']
}

/// `"storage error"`
pub open spec fn storage_error_msg() -> Seq<char> {
    seq!['s', 't', 'o', 'r', 'a', 'g', 'e', ' ', 'e', 'r', 'r', 'o', 'r']
}

fn key_not_found() -> (r: String)
    ensures
        r@ == key_not_found_msg(),
{
    let s = "key not found";
    proof {
        reveal_strlit("key not found");
        assert(s@ =~= key_not_found_msg());
    }
    s.to_owned()
}

fn unknown_command() -> (r: String)
    ensures
        r@ == unknown_command_msg(),
{
    let s = "unknown command";
    proof {
        reveal_strlit("unknown command");
        assert(s@ =~= unknown_command_msg());
    }
    s.to_owned()
}

fn storage_error() -> (r: String)
    ensures
        r@ == storage_error_msg(),
{
    let s = "storage error";
    proof {
        reveal_strlit("storage error");
        assert(s@ =~= storage_error_msg());
    }
    s.to_owned()
}

impl Engine {
    pub open spec fn wf(&self) -> bool {
        match self {
            Engine::Kvs(s) => s.wf(),
            Engine::Sled(_) => true,
        }
    }
}

/// What a well-formed store answers to a command, and the mapping after it.
pub open spec fn kvs_outcome(
    m: Map<Seq<char>, Seq<char>>,
    cmd: Option<Command>,
) -> (Map<Seq<char>, Seq<char>>, bool, Seq<char>) {
    match cmd {
        Some(Command::Get { key }) => if m.contains_key(key@) {
            (m, true, m[key@])
        } else {
            (m, false, key_not_found_msg())
        },
        Some(Command::SetValue { key, value }) => (m.insert(key@, value@), true, seq![]),
        Some(Command::Remove { key }) => if m.contains_key(key@) {
            (m.remove(key@), true, seq![])
        } else {
            (m, false, key_not_found_msg())
        },
        None => (m, false, unknown_command_msg()),
    }
}

/// What the sled engine's answer to a command says, given its contents
/// before (`c0`) and after (`c1`): a read changes nothing and reports what is
/// stored; a successful write or remove did it; an absent key is never
/// reported as read or removed.
pub open spec fn sled_outcome(
    c0: Map<Seq<u8>, Seq<u8>>,
    c1: Map<Seq<u8>, Seq<u8>>,
    cmd: Option<Command>,
    resp: (bool, Seq<char>),
) -> bool {
    match cmd {
        Some(Command::Get { key }) => {
            let kb = encode_utf8(key@);
            &&& c1 == c0
            &&& resp.0 ==> c0.contains_key(kb) && c0[kb] == encode_utf8(resp.1)
            &&& !c0.contains_key(kb) ==> resp == (false, key_not_found_msg()) || resp == (
                false,
                storage_error_msg(),
            )
        },
        Some(Command::SetValue { key, value }) => {
            &&& resp.0 ==> resp.1 == Seq::<char>::empty() && c1 == c0.insert(
                encode_utf8(key@),
                encode_utf8(value@),
            )
            &&& !resp.0 ==> resp.1 == storage_error_msg()
        },
        Some(Command::Remove { key }) => {
            let kb = encode_utf8(key@);
            &&& resp.0 ==> resp.1 == Seq::<char>::empty() && c0.contains_key(kb) && c1
                == c0.remove(kb)
            &&& resp == (false, key_not_found_msg()) ==> !c0.contains_key(kb) && c1 == c0
            &&& !c0.contains_key(kb) ==> resp == (false, key_not_found_msg()) || resp == (
                false,
                storage_error_msg(),
            )
        },
        None => c1 == c0 && resp == (false, unknown_command_msg()),
    }
}

impl Response {
    /// Whether the answer is a success, and its message.
    pub open spec fn parts(&self) -> (bool, Seq<char>) {
        match self {
            Response::Success { msg } => (true, msg@),
            Response::Failure { msg } => (false, msg@),
        }
    }
}

/// The answer to a read: the value where there is one, "key not found" where
/// there is none, "storage error" where the engine failed otherwise.
pub open spec fn read_answer(res: Result<Option<Seq<char>>, Error>) -> (bool, Seq<char>) {
    match res {
        Ok(Some(v)) => (true, v),
        Ok(None) => (false, key_not_found_msg()),
        Err(Error::KeyNotFound) => (false, key_not_found_msg()),
        Err(_) => (false, storage_error_msg()),
    }
}

/// The answer to a write or remove: an empty success, "key not found" for an
/// absent key, "storage error" where the engine failed otherwise.
pub open spec fn write_answer(res: Result<(), Error>) -> (bool, Seq<char>) {
    match res {
        Ok(()) => (true, Seq::<char>::empty()),
        Err(Error::KeyNotFound) => (false, key_not_found_msg()),
        Err(_) => (false, storage_error_msg()),
    }
}

/// The response to an engine's answer to a read.
pub fn read_response(res: Result<Option<String>, Error>) -> (r: Response)
    ensures
        r.parts() == read_answer(
            match res {
                Ok(Some(v)) => Ok(Some(v@)),
                Ok(None) => Ok(None),
                Err(e) => Err(e),
            },
        ),
{
    match res {
        Ok(Some(value)) => Response::Success { msg: value },
        Ok(None) => Response::Failure { msg: key_not_found() },
        Err(Error::KeyNotFound) => Response::Failure { msg: key_not_found() },
        Err(_) => Response::Failure { msg: storage_error() },
    }
}

/// The response to an engine's answer to a write or remove.
pub fn write_response(res: Result<(), Error>) -> (r: Response)
    ensures
        r.parts() == write_answer(res),
{
    match res {
        Ok(()) => Response::Success { msg: String::new() },
        Err(Error::KeyNotFound) => Response::Failure { msg: key_not_found() },
        Err(_) => Response::Failure { msg: storage_error() },
    }
}

impl MySay {
    /// Applies one request to the engine. A missing command is answered with
    /// "unknown command"; a `get` of an absent key and a `remove` of an
    /// absent key with "key not found"; a successful `set` or `remove` with
    /// an empty success.
    pub fn send(&mut self, cmd: Option<Command>) -> (r: Response)
        requires
            old(self).store.wf(),
        ensures
            final(self).store.wf(),
            old(self).store matches Engine::Kvs(s0) ==> final(self).store matches Engine::Kvs(s1)
                && (s1@, r.parts().0, r.parts().1) == kvs_outcome(s0@, cmd),
            old(self).store matches Engine::Sled(e0) ==> final(self).store matches Engine::Sled(e1)
                && sled_outcome(e0.contents(), e1.contents(), cmd, r.parts()),
            cmd is None ==> r.parts() == (false, unknown_command_msg()),
    {
        let cmd = match cmd {
            Some(c) => c,
            None => {
                return Response::Failure { msg: unknown_command() };
            },
        };
        match &mut self.store {
            Engine::Kvs(store) => match cmd {
                Command::Get { key } => read_response(store.get(key)),
                Command::SetValue { key, value } => write_response(store.set(key, value)),
                Command::Remove { key } => write_response(store.remove(key)),
            },
            Engine::Sled(store) => match cmd {
                Command::Get { key } => read_response(store.get(key)),
                Command::SetValue { key, value } => write_response(store.set(key, value)),
                Command::Remove { key } => write_response(store.remove(key)),
            },
        }
    }
}

/// Whether a recorded engine tag names `requested`: the name itself, or the
/// name followed by a newline.
pub open spec fn tag_names(tag: Seq<char>, requested: Seq<char>) -> bool {
    tag == requested || tag == requested.push('\n')
}

/// Decides what a server start does with the engine tag already recorded in
/// its directory: `Ok(true)` where there is none and `requested` is to be
/// recorded, `Ok(false)` where it names `requested`, and `EngineMismatch`
/// where it names another engine.
pub fn check_engine(recorded: Option<String>, requested: &str) -> (r: Result<bool, Error>)
    ensures
        recorded is None ==> r == Ok::<bool, Error>(true),
        recorded matches Some(t) ==> (tag_names(t@, requested@) ==> r == Ok::<bool, Error>(
            false,
        )) && (!tag_names(t@, requested@) ==> r == Err::<bool, Error>(Error::EngineMismatch)),
{
    match recorded {
        None => Ok(true),
        Some(tag) => {
            let newline = "\n";
            proof {
                reveal_strlit("\n");
            }
            let with_newline = requested.to_owned().concat(newline);
            proof {
                assert(with_newline@ =~= requested@.push('\n'));
            }
            if tag == requested.to_owned() || tag == with_newline {
                Ok(false)
            } else {
                Err(Error::EngineMismatch)
            }
        },
    }
}

} // verus!

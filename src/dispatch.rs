//! Applying commands to the store and building the response frames.
use vstd::prelude::*;
use bytes::Bytes;
use vstd::utf8::*;
use crate::frame::{bytes_contents, bytes_slice, copy_range, string_from_utf8, Frame, FrameView};
use crate::store::Store;

verus! {

/// A request of a client.
pub enum Command {
    /// Look a key up.
    Get(String),
    /// Store a value under a key.
    SetKey(String, Bytes),
    /// Any other request.
    Unknown,
}

/// What a command holds, as mathematical values.
pub enum CommandView {
    Get(Seq<char>),
    SetKey(Seq<char>, Seq<u8>),
    Unknown,
}

impl View for Command {
    type V = CommandView;

    open spec fn view(&self) -> CommandView {
        match self {
            Command::Get(k) => CommandView::Get(k@),
            Command::SetKey(k, v) => CommandView::SetKey(k@, bytes_contents(*v)),
            Command::Unknown => CommandView::Unknown,
        }
    }
}

/// A byte with ASCII upper case letters taken to lower case.
pub open spec fn ascii_lower(b: u8) -> u8 {
    if 65 <= b <= 90 {
        (b + 32) as u8
    } else {
        b
    }
}

/// `word` spells the lower case `name`, in any letter case.
pub open spec fn spells(word: Seq<u8>, name: Seq<u8>) -> bool {
    word.len() == name.len() && forall|i: int| 0 <= i < word.len() ==> ascii_lower(
        #[trigger] word[i],
    ) == name[i]
}

pub open spec fn get_name() -> Seq<u8> {
    seq![103u8, 101u8, 116u8]
}

pub open spec fn set_name() -> Seq<u8> {
    seq![115u8, 101u8, 116u8]
}

/// The payloads of an array's items, where all of them are Bulk frames.
pub open spec fn bulk_parts(items: Seq<Frame>) -> Option<Seq<Seq<u8>>> {
    if forall|i: int| 0 <= i < items.len() ==> (#[trigger] items[i]) is Bulk {
        Some(Seq::new(items.len(), |i: int| bytes_contents(items[i]->Bulk_0)))
    } else {
        None
    }
}

/// The command that a request's parts name: the command name, then a key
/// in UTF-8, then for SET the value.
pub open spec fn command_of_parts(parts: Seq<Seq<u8>>) -> CommandView {
    if parts.len() == 2 && spells(parts[0], get_name()) && valid_utf8(parts[1]) {
        CommandView::Get(decode_utf8(parts[1]))
    } else if parts.len() == 3 && spells(parts[0], set_name()) && valid_utf8(parts[1]) {
        CommandView::SetKey(decode_utf8(parts[1]), parts[2])
    } else {
        CommandView::Unknown
    }
}

/// The command that a request frame carries: an array of Bulk frames.
pub open spec fn command_of_frame(f: Frame) -> CommandView {
    match f {
        Frame::Array(items) => match bulk_parts(items@) {
            Some(parts) => command_of_parts(parts),
            None => CommandView::Unknown,
        },
        _ => CommandView::Unknown,
    }
}

fn spells_name(word: &[u8], name: &[u8]) -> (r: bool)
    ensures
        r == spells(word@, name@),
{
    if word.len() != name.len() {
        return false;
    }
    let mut i: usize = 0;
    while i < word.len()
        invariant
            i <= word@.len(),
            word@.len() == name@.len(),
            forall|j: int| 0 <= j < i ==> ascii_lower(#[trigger] word@[j]) == name@[j],
        decreases word@.len() - i,
    {
        let b = word[i];
        let lower = if 65 <= b && b <= 90 {
            b + 32
        } else {
            b
        };
        if lower != name[i] {
            assert(ascii_lower(word@[i as int]) != name@[i as int]);
            return false;
        }
        i = i + 1;
    }
    true
}

impl Command {
    /// Reads the command of a request frame: an array of Bulk frames whose
    /// first item names GET (with a key) or SET (with a key and a value), in
    /// any letter case. Any other frame is an unknown command.
    pub fn from_frame(frame: Frame) -> (r: Command)
        ensures
            r@ == command_of_frame(frame),
    {
        let ghost f = frame;
        let items = match frame {
            Frame::Array(items) => items,
            _ => return Command::Unknown,
        };
        let mut i: usize = 0;
        while i < items.len()
            invariant
                i <= items@.len(),
                f == frame,
                f == Frame::Array(items),
                forall|j: int| 0 <= j < i ==> (#[trigger] items@[j]) is Bulk,
            decreases items@.len() - i,
        {
            match &items[i] {
                Frame::Bulk(_) => {},
                _ => {
                    assert(!(items@[i as int] is Bulk));
                    assert(bulk_parts(items@) is None);
                    return Command::Unknown;
                },
            }
            i = i + 1;
        }
        let ghost parts = bulk_parts(items@)->Some_0;
        if items.len() != 2 && items.len() != 3 {
            return Command::Unknown;
        }
        let name = match &items[0] {
            Frame::Bulk(b) => bytes_slice(b),
            _ => return Command::Unknown,
        };
        let is_get = spells_name(name, &[103u8, 101u8, 116u8]);
        let is_set = spells_name(name, &[115u8, 101u8, 116u8]);
        assert(parts[0] == name@);
        if !((items.len() == 2 && is_get) || (items.len() == 3 && is_set)) {
            return Command::Unknown;
        }
        let key_bytes = match &items[1] {
            Frame::Bulk(b) => bytes_slice(b),
            _ => return Command::Unknown,
        };
        assert(parts[1] == key_bytes@);
        let key = match string_from_utf8(copy_range(key_bytes, 0, key_bytes.len())) {
            Some(k) => k,
            None => {
                assert(key_bytes@.subrange(0, key_bytes@.len() as int) =~= key_bytes@);
                return Command::Unknown;
            },
        };
        assert(key_bytes@.subrange(0, key_bytes@.len() as int) =~= key_bytes@);
        if items.len() == 2 {
            Command::Get(key)
        } else {
            match &items[2] {
                Frame::Bulk(b) => Command::SetKey(key, b.clone()),
                _ => Command::Unknown,
            }
        }
    }
}

pub open spec fn ok_text() -> Seq<char> {
    "OK"@
}

pub open spec fn unknown_text() -> Seq<char> {
    "ERR unknown command"@
}

/// The store after a command.
pub open spec fn next_store(m: Map<Seq<char>, Seq<u8>>, c: CommandView) -> Map<Seq<char>, Seq<u8>> {
    match c {
        CommandView::SetKey(k, v) => m.insert(k, v),
        _ => m,
    }
}

/// The response to a command on a store.
pub open spec fn response(m: Map<Seq<char>, Seq<u8>>, c: CommandView) -> FrameView {
    match c {
        CommandView::Get(k) => if m.contains_key(k) {
            FrameView::Bulk(m[k])
        } else {
            FrameView::Null
        },
        CommandView::SetKey(k, v) => FrameView::Simple(ok_text()),
        CommandView::Unknown => FrameView::Error(unknown_text()),
    }
}

/// Applies a command to the store and returns the response frame. GET
/// answers the stored bytes or Null, SET answers OK, and any other request
/// gets an Error frame while the connection stays open.
pub fn dispatch(store: &mut Store, cmd: Command) -> (r: Frame)
    requires
        old(store).wf(),
    ensures
        final(store).wf(),
        final(store)@ == next_store(old(store)@, cmd@),
        r@ == response(old(store)@, cmd@),
{
    match cmd {
        Command::Get(key) => match store.get(&key) {
            Some(v) => Frame::Bulk(v),
            None => Frame::Null,
        },
        Command::SetKey(key, value) => {
            store.set(key, value);
            Frame::Simple("OK".to_owned())
        },
        Command::Unknown => Frame::Error("ERR unknown command".to_owned()),
    }
}

/// A GET after a SET of the same key answers the value that was set.
pub proof fn lemma_set_then_get(m: Map<Seq<char>, Seq<u8>>, k: Seq<char>, v: Seq<u8>)
    ensures
        response(next_store(m, CommandView::SetKey(k, v)), CommandView::Get(k)) == FrameView::Bulk(v),
{
}

/// A second SET of a key overrides the first.
pub proof fn lemma_set_overwrites(
    m: Map<Seq<char>, Seq<u8>>,
    k: Seq<char>,
    v1: Seq<u8>,
    v2: Seq<u8>,
)
    ensures
        next_store(next_store(m, CommandView::SetKey(k, v1)), CommandView::SetKey(k, v2)) == next_store(
            m,
            CommandView::SetKey(k, v2),
        ),
{
    assert(m.insert(k, v1).insert(k, v2) =~= m.insert(k, v2));
}

/// SETs of distinct keys do not interfere: applied in either order they
/// leave the same store, and each key answers its own value.
pub proof fn lemma_distinct_sets(
    m: Map<Seq<char>, Seq<u8>>,
    k1: Seq<char>,
    v1: Seq<u8>,
    k2: Seq<char>,
    v2: Seq<u8>,
)
    requires
        k1 != k2,
    ensures
        ({
            let a = next_store(next_store(m, CommandView::SetKey(k1, v1)), CommandView::SetKey(k2, v2));
            let b = next_store(next_store(m, CommandView::SetKey(k2, v2)), CommandView::SetKey(k1, v1));
            &&& a == b
            &&& response(a, CommandView::Get(k1)) == FrameView::Bulk(v1)
            &&& response(a, CommandView::Get(k2)) == FrameView::Bulk(v2)
        }),
{
    assert(m.insert(k1, v1).insert(k2, v2) =~= m.insert(k2, v2).insert(k1, v1));
}

} // verus!

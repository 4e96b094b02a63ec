//! What happened to a file since it was last looked at.

use vstd::prelude::*;

verus! {

/// What happened to a file.
#[derive(Clone, Copy, PartialEq, Eq, Debug, Hash, Structural)]
pub enum FileEvent {
    Create,
    Delete,
    Change,
}

/// The digest of bytes.
pub uninterp spec fn digest(bytes: Seq<u8>) -> Seq<u8>;

/// Digests bytes with `Sha256::digest`. The digest is named; it has 32 bytes.
#[verifier::external_body]
fn sha256(bytes: &Vec<u8>) -> (r: Vec<u8>)
    ensures
        r@ == digest(bytes@),
        r@.len() == 32,
{
    <sha2::Sha256 as sha2::Digest>::digest(bytes.as_slice()).to_vec()
}

/// The state of a file, from what was read of it: the digest of its bytes. A file that could not be
/// read has none.
pub fn fetch_state(content: Option<Vec<u8>>) -> (r: Option<Vec<u8>>)
    ensures
        match content {
            Some(bytes) => r is Some && r->0@ == digest(bytes@),
            None => r is None,
        },
{
    match content {
        Some(bytes) => Some(sha256(&bytes)),
        None => None,
    }
}

/// The state that there may be.
pub open spec fn state_view(state: Option<Vec<u8>>) -> Option<Seq<u8>> {
    match state {
        Some(bytes) => Some(bytes@),
        None => None,
    }
}

/// What happened to a file between two states.
pub open spec fn event_between(old: Option<Seq<u8>>, new: Option<Seq<u8>>) -> Option<FileEvent> {
    if old == new {
        None
    } else if old is None {
        Some(FileEvent::Create)
    } else if new is None {
        Some(FileEvent::Delete)
    } else {
        Some(FileEvent::Change)
    }
}

/// A file that is watched, by the state that it was last in.
#[derive(Debug)]
pub struct Watcher {
    state: Option<Vec<u8>>,
}

/// Whether two states are the same.
fn same_state(a: &Option<Vec<u8>>, b: &Option<Vec<u8>>) -> (r: bool)
    ensures
        r == (state_view(*a) == state_view(*b)),
{
    match (a, b) {
        (None, None) => true,
        (Some(x), Some(y)) => {
            if x.len() != y.len() {
                assert(x@.len() != y@.len());
                return false;
            }
            let mut i: usize = 0;
            while i < x.len()
                invariant
                    i <= x.len(),
                    x.len() == y.len(),
                    state_view(*a) == Some(x@),
                    state_view(*b) == Some(y@),
                    forall|j: int| 0 <= j < i ==> #[trigger] x@[j] == y@[j],
                decreases x.len() - i,
            {
                if x[i] != y[i] {
                    assert(x@[i as int] != y@[i as int]);
                    return false;
                }
                i += 1;
            }
            assert(x@ =~= y@);
            true
        },
        _ => false,
    }
}

impl Watcher {
    /// The state that the file was last in.
    pub closed spec fn state(self) -> Option<Seq<u8>> {
        state_view(self.state)
    }

    /// A file that is watched from some state on.
    pub fn new(state: Option<Vec<u8>>) -> (r: Watcher)
        ensures
            r.state() == state_view(state),
    {
        Watcher { state }
    }

    /// Takes note of the state that the file is in, and tells what happened to it.
    pub fn watch_loop(&mut self, new_state: Option<Vec<u8>>) -> (r: Option<FileEvent>)
        ensures
            r == event_between(old(self).state(), state_view(new_state)),
            final(self).state() == state_view(new_state),
    {
        if same_state(&self.state, &new_state) {
            return None;
        }
        let event = match (&self.state, &new_state) {
            (None, _) => FileEvent::Create,
            (_, None) => FileEvent::Delete,
            _ => FileEvent::Change,
        };
        self.state = new_state;
        Some(event)
    }
}

/// A file that stays as it is gives no event, and one that comes, goes or changes its digest gives
/// the event for that.
pub proof fn law_events_tell_what_happened(old: Seq<u8>, new: Seq<u8>)
    ensures
        event_between(Some(old), Some(old)) is None,
        event_between(None, None) is None,
        event_between(None, Some(new)) == Some(FileEvent::Create),
        event_between(Some(old), None) == Some(FileEvent::Delete),
        old != new ==> event_between(Some(old), Some(new)) == Some(FileEvent::Change),
{
}

} // verus!

//! How a peer is named on the command line.
use vstd::prelude::*;

use crate::text;
use crate::types::primitives::NodeId;

verus! {

/// One peer in `ID=ADDR` form, its address still as text.
#[derive(Debug, PartialEq, Eq)]
pub struct PeerSpec {
    pub id: NodeId,
    pub addr: String,
}

/// Why a peer could not be parsed.
#[derive(Debug, PartialEq, Eq)]
pub enum PeerSpecError {
    /// There is no `=`. Carries the whole text.
    MissingSeparator(String),
    /// What stands before the `=` is not a number. Carries that part.
    InvalidId(String),
}

/// Whether the first `=` of `text` is at `at`.
pub open spec fn splits_at(text: Seq<char>, at: int) -> bool {
    &&& 0 <= at < text.len()
    &&& text[at] == '='
    &&& forall|i: int| 0 <= i < at ==> text[i] != '='
}

impl PeerSpec {
    /// Parses a peer: the number before the first `=`, and the address after it.
    ///
    /// # Errors
    /// `PeerSpecError::MissingSeparator` if there is no `=`.
    /// `PeerSpecError::InvalidId` if what stands before the first `=` is not a number.
    pub fn parse(spec: &str) -> (result: Result<Self, PeerSpecError>)
        ensures
            match result {
                Ok(peer) => exists|at: int|
                    {
                        &&& #[trigger] splits_at(spec@, at)
                        &&& text::named_number(spec@.take(at)) == Some(peer.id.value)
                        &&& peer.addr@ == spec@.skip(at + 1)
                    },
                Err(PeerSpecError::MissingSeparator(whole)) => {
                    &&& whole@ == spec@
                    &&& !spec@.contains('=')
                },
                Err(PeerSpecError::InvalidId(id)) => exists|at: int|
                    {
                        &&& #[trigger] splits_at(spec@, at)
                        &&& id@ == spec@.take(at)
                        &&& text::named_number(spec@.take(at)) is None
                    },
            },
            result matches Ok(peer) ==> {
                let at = spec@.len() - peer.addr@.len() - 1;
                &&& at >= 0
                &&& spec@[at] == '='
                &&& !spec@.take(at).contains('=')
                &&& spec@.skip(at + 1) == peer.addr@
                &&& text::named_number(spec@.take(at)) == Some(peer.id.value)
            },
            result matches Err(PeerSpecError::InvalidId(id)) ==> {
                let at = id@.len() as int;
                &&& at < spec@.len()
                &&& spec@[at] == '='
                &&& !id@.contains('=')
                &&& spec@.take(at) == id@
                &&& text::named_number(id@) is None
            },
            (result matches Err(PeerSpecError::MissingSeparator(_))) <==> !spec@.contains('='),
    {
        let len: usize = spec.unicode_len();
        let mut at: usize = 0;
        while at < len && spec.get_char(at) != '='
            invariant
                at <= len,
                len == spec@.len(),
                forall|i: int| 0 <= i < at ==> spec@[i] != '=',
            decreases len - at,
        {
            at = at + 1;
        }
        if at == len {
            return Err(PeerSpecError::MissingSeparator(spec.to_owned()));
        }
        assert(splits_at(spec@, at as int));
        let id_text = spec.substring_char(0, at);
        let addr_text = spec.substring_char(at + 1, len);
        proof {
            assert(id_text@ =~= spec@.take(at as int));
            assert(addr_text@ =~= spec@.skip(at + 1));
            assert(!id_text@.contains('=')) by {
                if id_text@.contains('=') {
                    let i = choose|i: int| 0 <= i < id_text@.len() && id_text@[i] == '=';
                    assert(spec@[i] == '=');
                }
            }
            assert(spec@[at as int] == '=');
        }
        match text::parse_number(id_text) {
            Some(id) => Ok(PeerSpec { id: NodeId { value: id }, addr: addr_text.to_owned() }),
            None => Err(PeerSpecError::InvalidId(id_text.to_owned())),
        }
    }
}

} // verus!

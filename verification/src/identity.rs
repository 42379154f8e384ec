//! The identity under which a node joins a cluster.
use vstd::prelude::*;

use uuid::Uuid;

use crate::node::NodeContext;
use crate::node::NodeView;

verus! {

/// A lower-case hexadecimal digit.
pub open spec fn is_hex(character: char) -> bool {
    '0' <= character <= '9' || 'a' <= character <= 'f'
}

/// Where the hyphens of an identifier stand.
pub open spec fn is_hyphen_place(place: int) -> bool {
    place == 8 || place == 13 || place == 18 || place == 23
}

/// The text of a random identifier: 32 lower-case hexadecimal digits in five
/// groups, with the version and the variant of a random one in their places.
pub open spec fn is_identifier(text: Seq<char>) -> bool {
    &&& text.len() == 36
    &&& forall|i: int|
        0 <= i < 36 ==> if is_hyphen_place(i) {
            #[trigger] text[i] == '-'
        } else {
            is_hex(text[i])
        }
    &&& text[14] == '4'
    &&& text[19] == '8' || text[19] == '9' || text[19] == 'a' || text[19] == 'b'
}

/// Calls `Uuid::new_v4` and writes the result out. It is random; of each result
/// its form is known. Without a source of randomness the call panics, as nothing
/// can be made of it then.
#[verifier::external_body]
fn random_identifier() -> (text: String)
    ensures
        is_identifier(text@),
{
    Uuid::new_v4().to_string()
}

impl NodeContext {
    /// A node of the given identity, that knows of no other yet.
    pub fn new(name: String, token: String) -> (node: NodeContext)
        ensures
            node@ == (NodeView {
                name: name@,
                token: token@,
                slot: None,
                known: None,
                leaving: None,
            }),
    {
        NodeContext { name, token, active_migration: None, known_ring: None, leaving: None }
    }

    /// A node of a new identity. Its name is public; the token proves that a
    /// message under the name is its own, and is drawn on its own.
    pub fn with_fresh_identity() -> (node: NodeContext)
        ensures
            is_identifier(node@.name),
            is_identifier(node@.token),
            node@ == (NodeView {
                name: node@.name,
                token: node@.token,
                slot: None,
                known: None,
                leaving: None,
            }),
    {
        NodeContext::new(random_identifier(), random_identifier())
    }
}

} // verus!

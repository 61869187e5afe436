//! Linearization: from the tree of message nodes to the one thread that
//! ends in the current node.

use crate::pipeline::json_parser::{
    ContentView, Message, MessageNode, MessageView, NodeMapping, Part, PartView,
};
use crate::text::str_eq;
use vstd::prelude::*;

verus! {

/// A part counts as present when it is a non-empty string, or anything that
/// is neither a string nor null.
pub open spec fn part_present(p: PartView) -> bool {
    match p {
        PartView::Text(s) => s.len() > 0,
        PartView::Null => false,
        PartView::Structured => true,
    }
}

/// Some part of the content is present.
pub open spec fn has_present_part(c: ContentView) -> bool {
    exists|i: int| 0 <= i < c.parts.len() && part_present(#[trigger] c.parts[i])
}

/// The rule of inclusion: the author is the user or the assistant, there is
/// content, and at least one of its parts is present.
pub open spec fn included(m: MessageView) -> bool {
    &&& (m.author.role == "user"@ || m.author.role == "assistant"@)
    &&& match m.content {
        Some(c) => has_present_part(c),
        None => false,
    }
}

/// The views of a run of messages, in order.
pub open spec fn messages_view(s: Seq<Message>) -> Seq<MessageView> {
    Seq::new(s.len(), |i: int| s[i]@)
}

/// What one node adds to the thread: its message if it has one that is
/// included, nothing otherwise.
pub open spec fn node_messages(node: MessageNode) -> Seq<MessageView> {
    match node.message {
        Some(msg) => if included(msg@) {
            seq![msg@]
        } else {
            Seq::empty()
        },
        None => Seq::empty(),
    }
}

/// The identifier that the walk visits after `hops` steps from `id`, while
/// there is one: each step goes from a node of the mapping to its parent.
pub open spec fn ancestor(m: Map<Seq<char>, MessageNode>, id: Seq<char>, hops: nat) -> Option<
    Seq<char>,
>
    decreases hops,
{
    if hops == 0 {
        Some(id)
    } else if !m.contains_key(id) {
        None
    } else {
        match m[id].parent {
            Some(p) => ancestor(m, p@, (hops - 1) as nat),
            None => None,
        }
    }
}

/// The included messages met on the way up from `id`, leaf first, visiting
/// at most `fuel` nodes. The walk ends at a node without parent and at an
/// identifier that the mapping does not hold.
pub open spec fn walk_up(m: Map<Seq<char>, MessageNode>, id: Seq<char>, fuel: nat) -> Seq<
    MessageView,
>
    decreases fuel,
{
    if fuel == 0 || !m.contains_key(id) {
        Seq::empty()
    } else {
        node_messages(m[id]) + match m[id].parent {
            Some(p) => walk_up(m, p@, (fuel - 1) as nat),
            None => Seq::empty(),
        }
    }
}

/// The thread that ends in `id`, oldest message first. The walk visits at
/// most as many nodes as the mapping holds, so it ends even where the parent
/// links run in a circle.
pub open spec fn linearized(m: Map<Seq<char>, MessageNode>, id: Seq<char>) -> Seq<MessageView> {
    walk_up(m, id, m.len()).reverse()
}

/// What is left of the walk when it stands at `cur`.
pub open spec fn walk_rest(m: Map<Seq<char>, MessageNode>, cur: Option<Seq<char>>, fuel: nat) -> Seq<
    MessageView,
> {
    match cur {
        Some(id) => walk_up(m, id, fuel),
        None => Seq::empty(),
    }
}

fn part_is_present(p: &Part) -> (r: bool)
    ensures
        r == part_present(p@),
{
    match p {
        Part::Text(s) => !s.as_str().is_empty(),
        Part::Null => false,
        Part::Structured => true,
    }
}

/// Whether a message belongs in the linearized thread: only messages of the
/// user and the assistant with content that is not empty do.
pub fn should_include_message(msg: &Message) -> (r: bool)
    ensures
        r == included(msg@),
{
    let role = msg.author.role.as_str();
    if !str_eq(role, "user") && !str_eq(role, "assistant") {
        return false;
    }
    match &msg.content {
        None => false,
        Some(content) => {
            let mut i: usize = 0;
            while i < content.parts.len()
                invariant
                    i <= content.parts@.len(),
                    msg@.author.role == "user"@ || msg@.author.role == "assistant"@,
                    msg@.content == Some(content@),
                    forall|j: int| 0 <= j < i ==> !part_present(#[trigger] content@.parts[j]),
                decreases content.parts@.len() - i,
            {
                if part_is_present(&content.parts[i]) {
                    assert(part_present(content@.parts[i as int]));
                    return true;
                }
                i += 1;
            }
            false
        },
    }
}

/// Rebuilds the order of a conversation by walking from `current_node` back
/// through the parent links, and returns the included messages oldest first.
/// Nodes off that path, such as the other answers at a branch point, are
/// left out. An identifier that the mapping lacks ends the walk.
pub fn linearize_messages(mapping: &NodeMapping, current_node: &str) -> (r: Vec<Message>)
    ensures
        messages_view(r@) == linearized(mapping@, current_node@),
{
    let n = mapping.len();
    let mut collected: Vec<Message> = Vec::new();
    let mut cur: Option<&str> = Some(current_node);
    let mut steps: usize = 0;
    let mut done = false;
    while steps < n && !done
        invariant
            steps <= n,
            n == mapping@.len(),
            done ==> walk_rest(
                mapping@,
                match cur {
                    Some(id) => Some(id@),
                    None => None,
                },
                (n - steps) as nat,
            ) == Seq::<MessageView>::empty(),
            messages_view(collected@) + walk_rest(
                mapping@,
                match cur {
                    Some(id) => Some(id@),
                    None => None,
                },
                (n - steps) as nat,
            ) == walk_up(mapping@, current_node@, n as nat),
        decreases n - steps + (if done { 0int } else { 1int }),
    {
        match cur {
            None => {
                done = true;
            },
            Some(id) => {
                match mapping.get(id) {
                    None => {
                        done = true;
                    },
                    Some(node) => {
                        let ghost before = messages_view(collected@);
                        match &node.message {
                            Some(msg) => {
                                if should_include_message(msg) {
                                    collected.push(msg.clone());
                                    assert(messages_view(collected@) =~= before + seq![msg@]);
                                }
                            },
                            None => {},
                        }
                        assert(messages_view(collected@) =~= before + node_messages(*node));
                        cur = match &node.parent {
                            Some(p) => Some(p.as_str()),
                            None => None,
                        };
                        steps += 1;
                    },
                }
            },
        }
    }
    let ghost up = messages_view(collected@);
    assert(up =~= walk_up(mapping@, current_node@, n as nat));
    let mut out: Vec<Message> = Vec::with_capacity(collected.len());
    while collected.len() > 0
        invariant
            collected@.len() <= up.len(),
            messages_view(collected@) == up.subrange(0, collected@.len() as int),
            out@.len() + collected@.len() == up.len(),
            forall|j: int| 0 <= j < out@.len() ==> (#[trigger] out@[j])@ == up[up.len() - 1 - j],
        decreases collected@.len(),
    {
        let ghost prev = collected@;
        let m = collected.pop().unwrap();
        assert(m@ == messages_view(prev)[prev.len() - 1]);
        out.push(m);
        assert(messages_view(collected@) =~= up.subrange(0, collected@.len() as int));
    }
    assert(messages_view(out@) =~= up.reverse());
    out
}

/// The node carries a message whose content is of the type `tag`, whoever
/// wrote it and whatever its parts hold.
pub open spec fn node_has_content_type(node: MessageNode, tag: Seq<char>) -> bool {
    match node.message {
        Some(msg) => match msg.content {
            Some(c) => c.content_type@ == tag,
            None => false,
        },
        None => false,
    }
}

/// Some node that the walk from `id` visits, of at most `fuel` nodes,
/// carries a message whose content is of the type `tag`.
pub open spec fn walk_meets_content_type(
    m: Map<Seq<char>, MessageNode>,
    id: Seq<char>,
    fuel: nat,
    tag: Seq<char>,
) -> bool
    decreases fuel,
{
    if fuel == 0 || !m.contains_key(id) {
        false
    } else {
        node_has_content_type(m[id], tag) || match m[id].parent {
            Some(p) => walk_meets_content_type(m, p@, (fuel - 1) as nat, tag),
            None => false,
        }
    }
}

/// Some message that is traversed on the way from `id` to the root has
/// content of the type `tag`. Every message on the path counts, also one
/// that the thread leaves out.
pub open spec fn traverses_content_type(
    m: Map<Seq<char>, MessageNode>,
    id: Seq<char>,
    tag: Seq<char>,
) -> bool {
    walk_meets_content_type(m, id, m.len(), tag)
}

/// Whether some message that is traversed on the way from `current_node` to
/// the root has content of the type `tag`. The walk is the one that
/// [`linearize_messages`] makes; every message on it counts, also one that
/// the thread leaves out.
pub fn path_has_content_type(mapping: &NodeMapping, current_node: &str, tag: &str) -> (r: bool)
    ensures
        r == traverses_content_type(mapping@, current_node@, tag@),
{
    let n = mapping.len();
    let mut cur: Option<&str> = Some(current_node);
    let mut steps: usize = 0;
    while steps < n
        invariant
            steps <= n,
            n == mapping@.len(),
            traverses_content_type(mapping@, current_node@, tag@) == match cur {
                Some(id) => walk_meets_content_type(mapping@, id@, (n - steps) as nat, tag@),
                None => false,
            },
        decreases n - steps,
    {
        let id = match cur {
            Some(id) => id,
            None => {
                return false;
            },
        };
        let node = match mapping.get(id) {
            Some(node) => node,
            None => {
                return false;
            },
        };
        match &node.message {
            Some(msg) => match &msg.content {
                Some(content) => {
                    if str_eq(content.content_type.as_str(), tag) {
                        return true;
                    }
                },
                None => {},
            },
            None => {},
        }
        cur = match &node.parent {
            Some(p) => Some(p.as_str()),
            None => None,
        };
        steps += 1;
    }
    false
}

/// The message, if any, of the node that the walk from `id` reaches after
/// `hops` steps.
pub open spec fn path_message(m: Map<Seq<char>, MessageNode>, id: Seq<char>, hops: nat) -> Option<
    MessageView,
> {
    match ancestor(m, id, hops) {
        Some(a) => if m.contains_key(a) {
            match m[a].message {
                Some(msg) => Some(msg@),
                None => None,
            }
        } else {
            None
        },
        None => None,
    }
}

/// `v` is the message of `id` or of one of its ancestors.
pub open spec fn on_path(m: Map<Seq<char>, MessageNode>, id: Seq<char>, v: MessageView) -> bool {
    exists|hops: nat| path_message(m, id, hops) == Some(v)
}

/// `ids` runs from a node up through its ancestors: each identifier is in the
/// mapping, and each node but the last names the next as its parent.
pub open spec fn is_chain(m: Map<Seq<char>, MessageNode>, ids: Seq<Seq<char>>) -> bool {
    &&& ids.len() > 0
    &&& forall|i: int| 0 <= i < ids.len() ==> m.contains_key(#[trigger] ids[i])
    &&& forall|i: int|
        0 <= i < ids.len() - 1 ==> match (#[trigger] m[ids[i]]).parent {
            Some(p) => p@ == ids[i + 1],
            None => false,
        }
}

/// The chain ends at a root, or at a node whose parent the mapping lacks.
pub open spec fn chain_ends(m: Map<Seq<char>, MessageNode>, ids: Seq<Seq<char>>) -> bool {
    match m[ids.last()].parent {
        Some(p) => !m.contains_key(p@),
        None => true,
    }
}

/// The included messages of the nodes of `ids`, in the order of `ids`.
pub open spec fn chain_messages(m: Map<Seq<char>, MessageNode>, ids: Seq<Seq<char>>) -> Seq<
    MessageView,
>
    decreases ids.len(),
{
    if ids.len() == 0 {
        Seq::empty()
    } else {
        node_messages(m[ids[0]]) + chain_messages(m, ids.drop_first())
    }
}

/// Every message that the walk collects sits on a node of the path.
proof fn lemma_walk_on_path(m: Map<Seq<char>, MessageNode>, id: Seq<char>, fuel: nat, i: int)
    requires
        0 <= i < walk_up(m, id, fuel).len(),
    ensures
        included(walk_up(m, id, fuel)[i]),
        on_path(m, id, walk_up(m, id, fuel)[i]),
    decreases fuel,
{
    let here = node_messages(m[id]);
    if i < here.len() {
        assert(ancestor(m, id, 0) == Some(id));
        assert(path_message(m, id, 0) == Some(here[i]));
    } else {
        let p = m[id].parent->Some_0@;
        lemma_walk_on_path(m, p, (fuel - 1) as nat, i - here.len());
        let v = walk_up(m, p, (fuel - 1) as nat)[i - here.len()];
        let hops = choose|hops: nat| path_message(m, p, hops) == Some(v);
        assert(ancestor(m, id, hops + 1) == ancestor(m, p, hops));
        assert(path_message(m, id, hops + 1) == Some(v));
    }
}

/// Along a chain that ends, the walk collects the chain's messages and
/// nothing else, as soon as it may visit that many nodes.
proof fn lemma_walk_chain(m: Map<Seq<char>, MessageNode>, ids: Seq<Seq<char>>, fuel: nat)
    requires
        is_chain(m, ids),
        chain_ends(m, ids),
        fuel >= ids.len(),
    ensures
        walk_up(m, ids[0], fuel) == chain_messages(m, ids),
    decreases ids.len(),
{
    let rest = ids.drop_first();
    if ids.len() == 1 {
        assert(ids.last() == ids[0]);
        assert(chain_messages(m, rest) == Seq::<MessageView>::empty());
        match m[ids[0]].parent {
            Some(p) => {
                assert(walk_up(m, p@, (fuel - 1) as nat) == Seq::<MessageView>::empty());
            },
            None => {},
        }
    } else {
        assert(m.contains_key(ids[0]));
        assert(m[ids[0]].parent->Some_0@ == ids[1]);
        assert(rest[0] == ids[1]);
        assert(rest.last() == ids.last());
        assert forall|i: int| 0 <= i < rest.len() implies m.contains_key(#[trigger] rest[i]) by {
            assert(rest[i] == ids[i + 1]);
        }
        assert forall|i: int| 0 <= i < rest.len() - 1 implies match (#[trigger] m[rest[i]]).parent {
            Some(p) => p@ == rest[i + 1],
            None => false,
        } by {
            assert(rest[i] == ids[i + 1]);
            assert(rest[i + 1] == ids[i + 2]);
        }
        lemma_walk_chain(m, rest, (fuel - 1) as nat);
    }
}

/// Where every node of `ids` carries an included message, the chain's
/// messages are those, one for one.
proof fn lemma_chain_all_included(m: Map<Seq<char>, MessageNode>, ids: Seq<Seq<char>>)
    requires
        forall|i: int|
            0 <= i < ids.len() ==> match (#[trigger] m[ids[i]]).message {
                Some(msg) => included(msg@),
                None => false,
            },
    ensures
        chain_messages(m, ids).len() == ids.len(),
        forall|i: int|
            0 <= i < ids.len() ==> chain_messages(m, ids)[i] == (#[trigger] m[ids[i]]).message->Some_0@,
    decreases ids.len(),
{
    if ids.len() > 0 {
        let rest = ids.drop_first();
        assert forall|i: int| 0 <= i < rest.len() implies match (#[trigger] m[rest[i]]).message {
            Some(msg) => included(msg@),
            None => false,
        } by {
            assert(rest[i] == ids[i + 1]);
        }
        lemma_chain_all_included(m, rest);
        assert(m[ids[0]].message is Some);
        assert forall|i: int| 0 <= i < ids.len() implies chain_messages(m, ids)[i] == (
        #[trigger] m[ids[i]]).message->Some_0@ by {
            if i > 0 {
                assert(rest[i - 1] == ids[i]);
            }
        }
    }
}

/// A chain of distinct nodes is no longer than the mapping is large.
proof fn lemma_chain_fits(m: Map<Seq<char>, MessageNode>, ids: Seq<Seq<char>>)
    requires
        m.dom().finite(),
        ids.no_duplicates(),
        forall|i: int| 0 <= i < ids.len() ==> m.contains_key(#[trigger] ids[i]),
    ensures
        ids.len() <= m.len(),
{
    ids.unique_seq_to_set();
    assert(ids.to_set().subset_of(m.dom())) by {
        assert forall|k: Seq<char>| ids.to_set().contains(k) implies m.dom().contains(k) by {
            let i = choose|i: int| 0 <= i < ids.len() && ids[i] == k;
            assert(m.contains_key(ids[i]));
        }
    }
    vstd::set_lib::lemma_len_subset(ids.to_set(), m.dom());
}

/// A thread of `k` nodes, each with an included message, linearizes to
/// exactly those `k` messages, the root's first and the current node's last.
///
/// `ids` lists the nodes from the current node up to the root.
pub proof fn lemma_linear_chain(m: Map<Seq<char>, MessageNode>, ids: Seq<Seq<char>>)
    requires
        m.dom().finite(),
        ids.no_duplicates(),
        is_chain(m, ids),
        m[ids.last()].parent is None,
        forall|i: int|
            0 <= i < ids.len() ==> match (#[trigger] m[ids[i]]).message {
                Some(msg) => included(msg@),
                None => false,
            },
    ensures
        linearized(m, ids[0]).len() == ids.len(),
        forall|j: int|
            0 <= j < ids.len() ==> (#[trigger] linearized(m, ids[0])[j]) == m[ids[ids.len() - 1
                - j]].message->Some_0@,
{
    lemma_chain_fits(m, ids);
    lemma_walk_chain(m, ids, m.len());
    lemma_chain_all_included(m, ids);
}

/// Every message of a linearized thread sits on the path from the current
/// node up through its ancestors. A node off that path, such as the other
/// answer at a branch point, adds nothing.
pub proof fn lemma_only_current_branch(m: Map<Seq<char>, MessageNode>, id: Seq<char>, j: int)
    requires
        0 <= j < linearized(m, id).len(),
    ensures
        on_path(m, id, linearized(m, id)[j]),
{
    let up = walk_up(m, id, m.len());
    lemma_walk_on_path(m, id, m.len(), up.len() - 1 - j);
}

/// Where the parent links lead to an identifier that the mapping lacks, the
/// thread is what was found up to there: the included messages of the nodes
/// of the chain, oldest first.
pub proof fn lemma_missing_parent(m: Map<Seq<char>, MessageNode>, ids: Seq<Seq<char>>)
    requires
        m.dom().finite(),
        ids.no_duplicates(),
        is_chain(m, ids),
        match m[ids.last()].parent {
            Some(p) => !m.contains_key(p@),
            None => false,
        },
    ensures
        linearized(m, ids[0]) == chain_messages(m, ids).reverse(),
{
    lemma_chain_fits(m, ids);
    lemma_walk_chain(m, ids, m.len());
}

/// An empty mapping linearizes to nothing, whatever the identifier.
pub proof fn lemma_empty_mapping(id: Seq<char>)
    ensures
        linearized(Map::<Seq<char>, MessageNode>::empty(), id) == Seq::<MessageView>::empty(),
{
    let m = Map::<Seq<char>, MessageNode>::empty();
    assert(walk_up(m, id, m.len()) == Seq::<MessageView>::empty());
    assert(Seq::<MessageView>::empty().reverse() =~= Seq::<MessageView>::empty());
}

/// Every message of a linearized thread passes the rule of inclusion. A
/// message of the system never does, whatever its content.
pub proof fn lemma_system_excluded(m: Map<Seq<char>, MessageNode>, id: Seq<char>, j: int)
    requires
        0 <= j < linearized(m, id).len(),
    ensures
        included(linearized(m, id)[j]),
        linearized(m, id)[j].author.role != "system"@,
{
    let up = walk_up(m, id, m.len());
    lemma_walk_on_path(m, id, m.len(), up.len() - 1 - j);
    reveal_strlit("system");
    reveal_strlit("user");
    reveal_strlit("assistant");
    assert("system"@.len() == 6);
    assert("user"@.len() == 4);
    assert("assistant"@.len() == 9);
}

} // verus!

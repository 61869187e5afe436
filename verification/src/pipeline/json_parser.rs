//! The shape of one exported conversation: a tree of message nodes, of which
//! one is the current node.

use vstd::hash_map::StringHashMap;
use vstd::prelude::*;

verus! {

/// One entry of a message's `parts`.
#[derive(Debug)]
pub enum Part {
    /// A plain string.
    Text(String),
    /// An explicit null.
    Null,
    /// Anything else (an image reference, a nested object): kept as a marker
    /// only, since nothing here reads inside it.
    Structured,
}

/// What a [`Part`] stands for.
pub enum PartView {
    Text(Seq<char>),
    Null,
    Structured,
}

impl View for Part {
    type V = PartView;

    open spec fn view(&self) -> PartView {
        match self {
            Part::Text(s) => PartView::Text(s@),
            Part::Null => PartView::Null,
            Part::Structured => PartView::Structured,
        }
    }
}

impl Clone for Part {
    fn clone(&self) -> (r: Self)
        ensures
            r@ == self@,
    {
        match self {
            Part::Text(s) => Part::Text(s.clone()),
            Part::Null => Part::Null,
            Part::Structured => Part::Structured,
        }
    }
}

/// The views of a run of parts, in order.
pub open spec fn parts_view(parts: Seq<Part>) -> Seq<PartView> {
    Seq::new(parts.len(), |i: int| parts[i]@)
}

/// Message content with a type discriminator and mixed-type parts.
#[derive(Debug)]
pub struct Content {
    pub content_type: String,
    pub parts: Vec<Part>,
}

pub struct ContentView {
    pub content_type: Seq<char>,
    pub parts: Seq<PartView>,
}

impl View for Content {
    type V = ContentView;

    open spec fn view(&self) -> ContentView {
        ContentView { content_type: self.content_type@, parts: parts_view(self.parts@) }
    }
}

impl Clone for Content {
    fn clone(&self) -> (r: Self)
        ensures
            r@ == self@,
    {
        let mut parts: Vec<Part> = Vec::with_capacity(self.parts.len());
        let mut i: usize = 0;
        while i < self.parts.len()
            invariant
                i <= self.parts@.len(),
                parts@.len() == i,
                forall|j: int| 0 <= j < i ==> parts@[j]@ == self.parts@[j]@,
            decreases self.parts@.len() - i,
        {
            parts.push(self.parts[i].clone());
            i += 1;
        }
        assert(parts_view(parts@) =~= parts_view(self.parts@));
        Content { content_type: self.content_type.clone(), parts }
    }
}

/// The view of an optional string.
pub open spec fn opt_str_view(s: Option<String>) -> Option<Seq<char>> {
    match s {
        Some(s) => Some(s@),
        None => None,
    }
}

/// A copy of an optional string.
pub fn clone_opt_string(s: &Option<String>) -> (r: Option<String>)
    ensures
        opt_str_view(r) == opt_str_view(*s),
{
    match s {
        Some(s) => Some(s.clone()),
        None => None,
    }
}

/// The role and optional name of a message author.
#[derive(Debug)]
pub struct Author {
    pub role: String,
    pub name: Option<String>,
}

pub struct AuthorView {
    pub role: Seq<char>,
    pub name: Option<Seq<char>>,
}

impl View for Author {
    type V = AuthorView;

    open spec fn view(&self) -> AuthorView {
        AuthorView { role: self.role@, name: opt_str_view(self.name) }
    }
}

impl Clone for Author {
    fn clone(&self) -> (r: Self)
        ensures
            r@ == self@,
    {
        Author { role: self.role.clone(), name: clone_opt_string(&self.name) }
    }
}

/// An individual message within a node.
#[derive(Debug)]
pub struct Message {
    pub id: String,
    pub author: Author,
    /// Whole seconds since the epoch.
    pub create_time: Option<i64>,
    pub content: Option<Content>,
}

pub struct MessageView {
    pub id: Seq<char>,
    pub author: AuthorView,
    pub create_time: Option<i64>,
    pub content: Option<ContentView>,
}

impl View for Message {
    type V = MessageView;

    open spec fn view(&self) -> MessageView {
        MessageView {
            id: self.id@,
            author: self.author@,
            create_time: self.create_time,
            content: match self.content {
                Some(c) => Some(c@),
                None => None,
            },
        }
    }
}

impl Clone for Message {
    fn clone(&self) -> (r: Self)
        ensures
            r@ == self@,
    {
        Message {
            id: self.id.clone(),
            author: self.author.clone(),
            create_time: self.create_time,
            content: match &self.content {
                Some(c) => Some(c.clone()),
                None => None,
            },
        }
    }
}

/// A node in the conversation tree: a message, if the node carries one, with
/// the links to its parent and children.
#[derive(Debug)]
pub struct MessageNode {
    pub id: String,
    pub parent: Option<String>,
    pub children: Vec<String>,
    pub message: Option<Message>,
}

/// The nodes of one conversation, by node identifier. A mapping holds
/// finitely many nodes: it begins without any and takes them one by one.
pub struct NodeMapping {
    nodes: StringHashMap<MessageNode>,
}

impl View for NodeMapping {
    type V = Map<Seq<char>, MessageNode>;

    closed spec fn view(&self) -> Map<Seq<char>, MessageNode> {
        self.nodes@
    }
}

impl NodeMapping {
    #[verifier::type_invariant]
    spec fn finitely_many(&self) -> bool {
        self.nodes@.dom().finite()
    }

    /// A mapping without nodes.
    pub fn new() -> (r: Self)
        ensures
            r@ == Map::<Seq<char>, MessageNode>::empty(),
            r@.dom().finite(),
    {
        NodeMapping { nodes: StringHashMap::new() }
    }

    /// Files `node` under `id`, in place of any node that was there.
    pub fn insert(&mut self, id: String, node: MessageNode)
        ensures
            final(self)@ == old(self)@.insert(id@, node),
            final(self)@.dom().finite(),
    {
        let mut taken = NodeMapping::new();
        core::mem::swap(self, &mut taken);
        proof {
            use_type_invariant(&taken);
        }
        let mut nodes = taken.nodes;
        nodes.insert(id, node);
        *self = NodeMapping { nodes };
    }

    /// Says that the mapping holds finitely many nodes, which is so of every
    /// mapping.
    pub fn finite(&self)
        ensures
            self@.dom().finite(),
    {
        proof {
            use_type_invariant(self);
        }
    }

    /// The node filed under `id`.
    pub fn get(&self, id: &str) -> (r: Option<&MessageNode>)
        ensures
            match r {
                Some(node) => self@.contains_key(id@) && *node == self@[id@],
                None => !self@.contains_key(id@),
            },
    {
        self.nodes.get(id)
    }

    /// The number of nodes.
    pub fn len(&self) -> (n: usize)
        ensures
            n == self@.len(),
            self@.dom().finite(),
    {
        proof {
            use_type_invariant(self);
        }
        self.nodes.len()
    }

    /// Whether there is no node at all.
    pub fn is_empty(&self) -> (r: bool)
        ensures
            r == self@.is_empty(),
    {
        self.nodes.is_empty()
    }
}

/// A single exported conversation. Every field that the export may leave out
/// or set to null is optional.
pub struct ConversationExport {
    pub id: String,
    pub title: Option<String>,
    /// Whole seconds since the epoch.
    pub create_time: Option<i64>,
    /// Whole seconds since the epoch.
    pub update_time: Option<i64>,
    pub mapping: NodeMapping,
    pub current_node: Option<String>,
}

/// One element of the array of conversations could not be decoded.
#[derive(Debug)]
pub struct DecodeError {
    /// The place of the element in the array, counted from zero.
    pub index: usize,
    /// What the decoder said.
    pub message: String,
}

} // verus!

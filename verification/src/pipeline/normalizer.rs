//! Normalization: from one exported conversation to the flat record that is
//! stored.

use crate::pipeline::json_parser::{
    opt_str_view, Content, ConversationExport, MessageView, Part, PartView,
};
use crate::pipeline::traversal::{
    linearize_messages, linearized, messages_view, path_has_content_type,
    traverses_content_type,
};
use crate::text::join;
use vstd::prelude::*;
use vstd::string::*;
use vstd::utf8::*;

verus! {

/// The title given to a conversation that has none.
pub const UNTITLED: &'static str = "Untitled";

/// A token is taken to be this many bytes of text.
pub const BYTES_PER_TOKEN: usize = 4;

/// Flat record of one conversation, ready to be stored.
#[derive(Debug)]
pub struct ConversationRecord {
    pub id: String,
    pub title: String,
    pub created_at: Option<i64>,
    pub message_count: u32,
    pub has_images: bool,
    pub has_code: bool,
    pub token_estimate: u32,
    pub full_text: String,
    pub gizmo_id: Option<String>,
}

pub struct ConversationRecordView {
    pub id: Seq<char>,
    pub title: Seq<char>,
    pub created_at: Option<i64>,
    pub message_count: u32,
    pub has_images: bool,
    pub has_code: bool,
    pub token_estimate: u32,
    pub full_text: Seq<char>,
    pub gizmo_id: Option<Seq<char>>,
}

impl View for ConversationRecord {
    type V = ConversationRecordView;

    open spec fn view(&self) -> ConversationRecordView {
        ConversationRecordView {
            id: self.id@,
            title: self.title@,
            created_at: self.created_at,
            message_count: self.message_count,
            has_images: self.has_images,
            has_code: self.has_code,
            token_estimate: self.token_estimate,
            full_text: self.full_text@,
            gizmo_id: opt_str_view(self.gizmo_id),
        }
    }
}

/// The strings among `parts`, in order.
pub open spec fn text_parts(parts: Seq<PartView>) -> Seq<Seq<char>>
    decreases parts.len(),
{
    if parts.len() == 0 {
        Seq::empty()
    } else {
        match parts.last() {
            PartView::Text(s) => text_parts(parts.drop_last()).push(s),
            _ => text_parts(parts.drop_last()),
        }
    }
}

/// The plain text of a run of parts: its strings, a space between each two.
pub open spec fn parts_text(parts: Seq<PartView>) -> Seq<char> {
    join(text_parts(parts), " "@)
}

/// The plain text of a message: that of its parts, nothing without content.
pub open spec fn message_text(m: MessageView) -> Seq<char> {
    match m.content {
        Some(c) => parts_text(c.parts),
        None => Seq::empty(),
    }
}

/// The text of a thread: the text of each message that has any, each
/// followed by a line feed.
pub open spec fn thread_text(msgs: Seq<MessageView>) -> Seq<char>
    decreases msgs.len(),
{
    if msgs.len() == 0 {
        Seq::empty()
    } else {
        let text = message_text(msgs.last());
        if text.len() == 0 {
            thread_text(msgs.drop_last())
        } else {
            thread_text(msgs.drop_last()) + text + "\n"@
        }
    }
}

/// The content type of messages that hold images.
pub const IMAGES_TYPE: &'static str = "multimodal_text";

/// The content type of messages that hold code.
pub const CODE_TYPE: &'static str = "code";

/// Some message that is traversed from the current node of the conversation
/// has content of the type `tag`. Every message on the path counts, whoever
/// wrote it and whether or not the thread includes it; a conversation
/// without a current node traverses none.
pub open spec fn traversed_content_type(export: ConversationExport, tag: Seq<char>) -> bool {
    match export.current_node {
        Some(id) => traverses_content_type(export.mapping@, id@, tag),
        None => false,
    }
}

/// `n`, or the largest `u32` where `n` is larger.
pub open spec fn capped(n: int) -> u32 {
    if n > u32::MAX {
        u32::MAX
    } else {
        n as u32
    }
}

/// The thread of a conversation: linearized from its current node, empty
/// where it names none.
pub open spec fn thread_of(export: ConversationExport) -> Seq<MessageView> {
    match export.current_node {
        Some(id) => linearized(export.mapping@, id@),
        None => Seq::empty(),
    }
}

/// The record that a conversation normalizes to.
///
/// The count of messages and the text are those of the thread, which holds
/// the included messages only. The two flags look at every message that is
/// traversed, included or not: a message of the assistant that holds code
/// and no parts is left out of the thread and still says that the
/// conversation has code.
pub open spec fn normalized(export: ConversationExport) -> ConversationRecordView {
    let thread = thread_of(export);
    let text = thread_text(thread);
    ConversationRecordView {
        id: export.id@,
        title: match export.title {
            Some(t) => if t@.len() > 0 {
                t@
            } else {
                UNTITLED@
            },
            None => UNTITLED@,
        },
        created_at: export.create_time,
        message_count: capped(thread.len() as int),
        has_images: traversed_content_type(export, IMAGES_TYPE@),
        has_code: traversed_content_type(export, CODE_TYPE@),
        token_estimate: capped(encode_utf8(text).len() as int / BYTES_PER_TOKEN as int),
        full_text: text,
        gizmo_id: None,
    }
}

/// Extracts the plain text of a content: its string parts, joined by one
/// space. Parts that are not strings are passed over.
pub fn extract_text(content: &Content) -> (r: String)
    ensures
        r@ == parts_text(content@.parts),
{
    let mut out = String::new();
    let mut seen: usize = 0;
    let mut i: usize = 0;
    while i < content.parts.len()
        invariant
            i <= content.parts@.len(),
            seen == text_parts(content@.parts.subrange(0, i as int)).len(),
            seen <= i,
            out@ == join(text_parts(content@.parts.subrange(0, i as int)), " "@),
        decreases content.parts@.len() - i,
    {
        let ghost next = content@.parts.subrange(0, i + 1);
        assert(next.drop_last() =~= content@.parts.subrange(0, i as int));
        assert(next.last() == content.parts@[i as int]@);
        match &content.parts[i] {
            Part::Text(s) => {
                let ghost before = text_parts(next.drop_last());
                assert(text_parts(next) == before.push(s@));
                assert(text_parts(next).drop_last() =~= before);
                if seen > 0 {
                    out.append(" ");
                }
                out.append(s.as_str());
                seen += 1;
                assert(out@ =~= join(text_parts(next), " "@));
            },
            _ => {},
        }
        i += 1;
    }
    assert(content@.parts.subrange(0, content.parts@.len() as int) =~= content@.parts);
    out
}

fn cap_to_u32(n: usize) -> (r: u32)
    ensures
        r == capped(n as int),
{
    if n > 0xffff_ffff {
        u32::MAX
    } else {
        n as u32
    }
}

/// Normalizes an exported conversation to the record that is stored.
///
/// The title falls back to [`UNTITLED`]. The thread is linearized from the
/// current node; a conversation without one has no messages. The flags for
/// images and code are set by any message that is traversed on the way,
/// whether or not the thread includes it. The counts stop at the largest
/// `u32`.
pub fn normalize(export: ConversationExport) -> (r: ConversationRecord)
    ensures
        r@ == normalized(export),
{
    let messages = match &export.current_node {
        Some(id) => linearize_messages(&export.mapping, id.as_str()),
        None => Vec::new(),
    };
    let ghost thread = thread_of(export);
    assert(messages_view(messages@) =~= thread);
    let (has_images, has_code) = match &export.current_node {
        Some(id) => (
            path_has_content_type(&export.mapping, id.as_str(), IMAGES_TYPE),
            path_has_content_type(&export.mapping, id.as_str(), CODE_TYPE),
        ),
        None => (false, false),
    };
    let mut full_text = String::new();
    let mut i: usize = 0;
    while i < messages.len()
        invariant
            i <= messages@.len(),
            thread == messages_view(messages@),
            full_text@ == thread_text(thread.subrange(0, i as int)),
        decreases messages@.len() - i,
    {
        let ghost prev = thread.subrange(0, i as int);
        let ghost next = thread.subrange(0, i + 1);
        assert(next.drop_last() =~= prev);
        assert(next.last() == messages@[i as int]@);
        let msg = &messages[i];
        match &msg.content {
            Some(content) => {
                let extracted = extract_text(content);
                if !extracted.as_str().is_empty() {
                    full_text.append(extracted.as_str());
                    full_text.append("\n");
                }
            },
            None => {},
        }
        assert(full_text@ =~= thread_text(next));
        i += 1;
    }
    assert(thread.subrange(0, messages@.len() as int) =~= thread);
    let title = match export.title {
        Some(t) => if t.as_str().is_empty() {
            UNTITLED.to_owned()
        } else {
            t
        },
        None => UNTITLED.to_owned(),
    };
    let token_estimate = cap_to_u32(full_text.as_str().as_bytes().len() / BYTES_PER_TOKEN);
    ConversationRecord {
        id: export.id,
        title,
        created_at: export.create_time,
        message_count: cap_to_u32(messages.len()),
        has_images,
        has_code,
        token_estimate,
        full_text,
        gizmo_id: None,
    }
}

} // verus!

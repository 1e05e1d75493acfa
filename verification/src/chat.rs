//! Chat-template prompts for the Hunyuan translation model.

use vstd::prelude::*;
use crate::text::str_eq;

verus! {

/// One message of a chat: its role (`system`, `user` or `assistant`) and
/// its text.
#[derive(Debug, Clone)]
pub struct ChatMessage {
    pub role: String,
    pub content: String,
}

pub open spec fn begin_of_sentence() -> Seq<char> {
    "<｜hy_begin▁of▁sentence｜>"@
}

pub open spec fn system_end() -> Seq<char> {
    "<｜hy_place▁holder▁no▁3｜>"@
}

pub open spec fn user_tag() -> Seq<char> {
    "<｜hy_User｜>"@
}

pub open spec fn assistant_tag() -> Seq<char> {
    "<｜hy_Assistant｜>"@
}

pub open spec fn assistant_end() -> Seq<char> {
    "<｜hy_place▁holder▁no▁2｜>"@
}

/// The template text of one non-system message: user text after the user
/// tag; assistant text between the assistant tag and its end marker; nothing
/// for any other role.
pub open spec fn message_text(m: ChatMessage) -> Seq<char> {
    if m.role@ == "user"@ {
        user_tag() + m.content@
    } else if m.role@ == "assistant"@ {
        assistant_tag() + m.content@ + assistant_end()
    } else {
        Seq::empty()
    }
}

/// The template text of `messages[from..to]`.
pub open spec fn messages_text(messages: Seq<ChatMessage>, from: int, to: int) -> Seq<char>
    decreases to - from,
{
    if to <= from {
        Seq::empty()
    } else {
        messages_text(messages, from, to - 1) + message_text(messages[to - 1])
    }
}

/// The chat prompt: the begin-of-sentence marker, a leading system message
/// (if the first message has role `system`) followed by its end marker, the
/// other messages, and the assistant tag that asks for the reply.
pub open spec fn chat_prompt(messages: Seq<ChatMessage>) -> Seq<char> {
    if messages.len() > 0 && messages[0].role@ == "system"@ {
        begin_of_sentence() + messages[0].content@ + system_end() + messages_text(
            messages,
            1,
            messages.len() as int,
        ) + assistant_tag()
    } else {
        begin_of_sentence() + messages_text(messages, 0, messages.len() as int) + assistant_tag()
    }
}

/// Formats messages with the Hunyuan chat template (see `chat_prompt`).
pub fn format_chat_prompt(messages: &[ChatMessage]) -> (prompt: String)
    ensures
        prompt@ == chat_prompt(messages@),
{
    let bos = "<｜hy_begin▁of▁sentence｜>";
    let sys_end = "<｜hy_place▁holder▁no▁3｜>";
    let user = "<｜hy_User｜>";
    let assistant = "<｜hy_Assistant｜>";
    let asst_end = "<｜hy_place▁holder▁no▁2｜>";
    let mut prompt = String::new();
    let mut first: usize = 0;
    prompt.append(bos);
    if messages.len() > 0 && str_eq(messages[0].role.as_str(), "system") {
        prompt.append(messages[0].content.as_str());
        prompt.append(sys_end);
        first = 1;
    }
    let ghost head = prompt@;
    let mut i: usize = first;
    while i < messages.len()
        invariant
            first <= i <= messages.len(),
            bos@ == begin_of_sentence(),
            user@ == user_tag(),
            assistant@ == assistant_tag(),
            asst_end@ == assistant_end(),
            prompt@ == head + messages_text(messages@, first as int, i as int),
        decreases messages.len() - i,
    {
        let m = &messages[i];
        if str_eq(m.role.as_str(), "user") {
            prompt.append(user);
            prompt.append(m.content.as_str());
        } else if str_eq(m.role.as_str(), "assistant") {
            prompt.append(assistant);
            prompt.append(m.content.as_str());
            prompt.append(asst_end);
        }
        i = i + 1;
    }
    prompt.append(assistant);
    prompt
}

/// The user instruction asking for a translation into `target_lang`.
pub open spec fn translation_request(target_lang: Seq<char>, source_text: Seq<char>) -> Seq<char> {
    "Translate the following text into "@ + target_lang
        + ". Note that you should only output the translated result without any additional explanation:\n\n"@
        + source_text
}

/// The translation prompt: a single user turn holding the translation
/// instruction for `target_lang` and the source text, in the Hunyuan chat
/// template with no system message.
pub fn build_prompt(target_lang: &str, source_text: &str) -> (p: String)
    ensures
        p@ == begin_of_sentence() + user_tag() + translation_request(target_lang@, source_text@)
            + assistant_tag(),
{
    let mut p = String::new();
    p.append("<｜hy_begin▁of▁sentence｜>");
    p.append("<｜hy_User｜>");
    p.append("Translate the following text into ");
    p.append(target_lang);
    p.append(
        ". Note that you should only output the translated result without any additional explanation:\n\n",
    );
    p.append(source_text);
    p.append("<｜hy_Assistant｜>");
    p
}

/// Default number of new tokens of a chat completion request.
pub fn default_max_tokens() -> (r: usize)
    ensures
        r == 512,
{
    512
}

/// Default top-k of a chat completion request: sampling keeps the 20 most
/// likely tokens.
pub fn default_top_k() -> (r: usize)
    ensures
        r == 20,
{
    20
}

} // verus!

use qwen_asr::chat::{build_prompt, default_max_tokens, default_top_k, format_chat_prompt, ChatMessage};

fn msg(role: &str, content: &str) -> ChatMessage {
    ChatMessage { role: role.to_string(), content: content.to_string() }
}

#[test]
fn chat_prompt_with_system_message() {
    let messages = vec![msg("system", "Be brief."), msg("user", "Hi"), msg("assistant", "Hello"), msg("user", "Bye")];
    assert_eq!(
        format_chat_prompt(&messages),
        "<｜hy_begin▁of▁sentence｜>Be brief.<｜hy_place▁holder▁no▁3｜><｜hy_User｜>Hi<｜hy_Assistant｜>Hello<｜hy_place▁holder▁no▁2｜><｜hy_User｜>Bye<｜hy_Assistant｜>"
    );
}

#[test]
fn chat_prompt_without_system_message() {
    let messages = vec![msg("user", "Translate this")];
    assert_eq!(
        format_chat_prompt(&messages),
        "<｜hy_begin▁of▁sentence｜><｜hy_User｜>Translate this<｜hy_Assistant｜>"
    );
}

#[test]
fn chat_prompt_ignores_other_roles_and_later_system() {
    let messages = vec![msg("tool", "x"), msg("system", "late"), msg("user", "q")];
    assert_eq!(
        format_chat_prompt(&messages),
        "<｜hy_begin▁of▁sentence｜><｜hy_User｜>q<｜hy_Assistant｜>"
    );
}

#[test]
fn chat_prompt_of_no_messages() {
    assert_eq!(format_chat_prompt(&[]), "<｜hy_begin▁of▁sentence｜><｜hy_Assistant｜>");
}

#[test]
fn translation_prompt() {
    assert_eq!(
        build_prompt("English", "你好"),
        "<｜hy_begin▁of▁sentence｜><｜hy_User｜>Translate the following text into English. Note that you should only output the translated result without any additional explanation:\n\n你好<｜hy_Assistant｜>"
    );
}

#[test]
fn request_defaults() {
    assert_eq!(default_max_tokens(), 512);
    assert_eq!(default_top_k(), 20);
}

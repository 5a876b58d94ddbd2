//! Decisions of `wx send`: which inputs are refused, the `osascript` call
//! that sends a message through the WeChat app, and what its outcome means.
use vstd::prelude::*;
use vstd::string::StringExecFns;

use crate::text::{is_blank, strings_view, trim, trim_ws};

verus! {

/// The AppleScript that pastes the chat name into WeChat's search, opens the
/// chat, pastes the message and sends it, restoring the clipboard after.
pub const SEND_SCRIPT: &'static str = r#"
on run argv
    if (count of argv) < 2 then error "chat and message are required"
    set chatName to item 1 of argv
    set messageText to item 2 of argv
    set previousClipboard to missing value
    try
        set previousClipboard to the clipboard as text
    end try
    try
        tell application id "com.tencent.xinWeChat" to activate
        delay 0.3
        tell application "System Events"
            set wxProc to first application process whose bundle identifier is "com.tencent.xinWeChat"
            set frontmost of wxProc to true
            delay 0.2
            keystroke "f" using command down
            delay 0.1
            keystroke "a" using command down
            delay 0.05
            my pasteText(chatName)
            delay 1.5
            key code 36
            delay 0.8
            my pasteText(messageText)
            delay 0.1
            key code 36
        end tell
        my restoreClipboard(previousClipboard)
    on error errorMessage number errorNumber
        my restoreClipboard(previousClipboard)
        error errorMessage number errorNumber
    end try
end run

on pasteText(textValue)
    tell application "System Events"
        set the clipboard to textValue
        delay 0.05
        keystroke "v" using command down
    end tell
end pasteText

on restoreClipboard(previousClipboard)
    if previousClipboard is not missing value then set the clipboard to previousClipboard
end restoreClipboard
"#;

/// Why a message was not sent.
pub enum SendError {
    /// Sending works on macOS only.
    Unsupported,
    /// The chat name is empty or white space.
    EmptyChat,
    /// The message is empty.
    EmptyMessage,
    /// `osascript` failed, for the reason given.
    Failed { reason: String },
}

/// The text of a `SendError`.
pub open spec fn send_error_text(e: SendError) -> Seq<char> {
    match e {
        SendError::Unsupported => "send 命令目前只支持 macOS"@,
        SendError::EmptyChat => "聊天对象名称不能为空"@,
        SendError::EmptyMessage => "消息不能为空"@,
        SendError::Failed { reason } => "发送微信消息失败："@ + reason@
            + "。请确认微信已登录，并已给当前终端/应用开启“辅助功能”权限"@,
    }
}

impl SendError {
    /// The message that `wx send` fails with.
    pub fn message(&self) -> (r: String)
        ensures
            r@ == send_error_text(*self),
    {
        match self {
            SendError::Unsupported => String::from_str("send 命令目前只支持 macOS"),
            SendError::EmptyChat => String::from_str("聊天对象名称不能为空"),
            SendError::EmptyMessage => String::from_str("消息不能为空"),
            SendError::Failed { reason } => {
                let mut r = String::from_str("发送微信消息失败：");
                r.append(reason.as_str());
                r.append("。请确认微信已登录，并已给当前终端/应用开启“辅助功能”权限");
                r
            },
        }
    }
}

/// Checks a `wx send` request and gives the arguments of the `osascript`
/// call that sends it: `-e`, the script, the chat name, the message. Off
/// macOS every request is refused; a blank chat name or an empty message is
/// refused, the chat name checked first.
pub fn cmd_send(chat: &str, message: &str, on_macos: bool) -> (r: Result<Vec<String>, SendError>)
    ensures
        !on_macos ==> r matches Err(SendError::Unsupported),
        on_macos && trim_ws(chat@).len() == 0 ==> r matches Err(SendError::EmptyChat),
        on_macos && trim_ws(chat@).len() != 0 && message@.len() == 0 ==> r matches Err(
            SendError::EmptyMessage,
        ),
        on_macos && trim_ws(chat@).len() != 0 && message@.len() != 0 ==> (r matches Ok(args)
            && strings_view(args@) == seq!["-e"@, SEND_SCRIPT@, chat@, message@]),
{
    if !on_macos {
        return Err(SendError::Unsupported);
    }
    if is_blank(chat) {
        return Err(SendError::EmptyChat);
    }
    if message.is_empty() {
        return Err(SendError::EmptyMessage);
    }
    let mut args: Vec<String> = Vec::new();
    args.push(String::from_str("-e"));
    args.push(String::from_str(SEND_SCRIPT));
    args.push(String::from_str(chat));
    args.push(String::from_str(message));
    assert(strings_view(args@) =~= seq!["-e"@, SEND_SCRIPT@, chat@, message@]);
    Ok(args)
}

/// The reason given when `osascript` failed: its standard error trimmed, or,
/// when that is blank, the exit status.
pub open spec fn failure_reason(stderr: Seq<char>, status: Seq<char>) -> Seq<char> {
    if trim_ws(stderr).len() == 0 {
        "osascript exited with status "@ + status
    } else {
        trim_ws(stderr)
    }
}

/// The outcome of the `osascript` call: on success the line printed, else
/// the failure with its reason (`stderr` is its standard error, `status` the
/// exit status as text).
pub fn send_outcome(succeeded: bool, stderr: &str, status: &str, chat: &str) -> (r: Result<
    String,
    SendError,
>)
    ensures
        succeeded ==> (r matches Ok(line) && line@ == "已发送到 "@ + chat@),
        !succeeded ==> (r matches Err(SendError::Failed { reason }) && reason@ == failure_reason(
            stderr@,
            status@,
        )),
{
    if succeeded {
        let mut line = String::from_str("已发送到 ");
        line.append(chat);
        return Ok(line);
    }
    let t = trim(stderr);
    let reason = if t.as_str().is_empty() {
        let mut r = String::from_str("osascript exited with status ");
        r.append(status);
        r
    } else {
        t
    };
    Err(SendError::Failed { reason })
}

} // verus!

//! The in-game chat log: received lines, newest last, of which only the
//! most recent are kept.

use vstd::prelude::*;

verus! {

/// How many chat lines the log keeps.
pub const MAX_MESSAGES: usize = 100;

/// Who a chat line comes from.
#[derive(Debug, Clone)]
pub enum ChatKind {
    Player { sender: String },
    System,
}

/// One line of chat.
#[derive(Debug, Clone)]
pub struct ChatLine {
    pub kind: ChatKind,
    pub text: String,
}

/// How a chat line reads in the log: `<sender> text` for a player, the bare
/// text for the system.
pub open spec fn formatted_line(line: ChatLine) -> Seq<char> {
    match line.kind {
        ChatKind::Player { sender } => "<"@ + sender@ + "> "@ + line.text@,
        ChatKind::System => line.text@,
    }
}

/// Formats a chat line for the log.
pub fn format_line(line: &ChatLine) -> (r: String)
    ensures
        r@ == formatted_line(*line),
{
    match &line.kind {
        ChatKind::Player { sender } => {
            let mut s = String::from_str("<");
            s.append(sender.as_str());
            s.append("> ");
            s.append(line.text.as_str());
            s
        },
        ChatKind::System => line.text.clone(),
    }
}

/// The chat overlay's state: whether the input row is open, the received
/// lines with the time each arrived, and whether the log must be redrawn.
#[derive(Debug, Default)]
pub struct ChatUiState {
    pub input_open: bool,
    pub messages: Vec<(ChatLine, u64)>,
    pub dirty: bool,
}

/// The log after receiving `line` at `at`: the line joins the end, and only
/// the newest [`MAX_MESSAGES`] lines stay.
pub open spec fn pushed_log(log: Seq<(ChatLine, u64)>, line: ChatLine, at: u64) -> Seq<(ChatLine, u64)> {
    let all = log.push((line, at));
    if all.len() > MAX_MESSAGES {
        all.skip(all.len() - MAX_MESSAGES)
    } else {
        all
    }
}

impl ChatUiState {
    /// The received lines, oldest first, each with the time it arrived.
    pub open spec fn log(&self) -> Seq<(ChatLine, u64)> {
        self.messages@
    }

    /// An empty, closed chat.
    pub fn new() -> (r: Self)
        ensures
            !r.input_open,
            !r.dirty,
            r.log().len() == 0,
    {
        ChatUiState { input_open: false, messages: Vec::new(), dirty: false }
    }

    /// Receives a chat line at time `at`: the oldest lines beyond
    /// [`MAX_MESSAGES`] are dropped and the log is marked for redrawing.
    pub fn push_chat_line(&mut self, line: ChatLine, at: u64)
        ensures
            final(self).log() == pushed_log(old(self).log(), line, at),
            final(self).dirty,
            final(self).input_open == old(self).input_open,
    {
        let ghost all = self.messages@.push((line, at));
        self.messages.push((line, at));
        assert(all.skip(0) =~= all);
        while self.messages.len() > MAX_MESSAGES
            invariant
                self.messages@.len() <= all.len(),
                self.messages@ == all.skip(all.len() - self.messages@.len()),
                self.messages@.len() < all.len() ==> self.messages@.len() >= MAX_MESSAGES,
                self.input_open == old(self).input_open,
            decreases self.messages@.len(),
        {
            let ghost before = self.messages@;
            self.messages.remove(0);
            assert(self.messages@ =~= all.skip(all.len() - self.messages@.len()));
        }
        self.dirty = true;
    }
}


/// Receiving a line keeps the log at most [`MAX_MESSAGES`] long, with the
/// new line last and the lines before it in their order.
pub proof fn lemma_chat_log_bounded(log: Seq<(ChatLine, u64)>, line: ChatLine, at: u64)
    ensures
        log.len() < MAX_MESSAGES ==> pushed_log(log, line, at) == log.push((line, at)),
        log.len() <= MAX_MESSAGES ==> pushed_log(log, line, at).len() <= MAX_MESSAGES,
        pushed_log(log, line, at).last() == (line, at),
        pushed_log(log, line, at) == log.push((line, at)).skip(
            log.len() + 1 - pushed_log(log, line, at).len(),
        ),
{
    let all = log.push((line, at));
    assert(all.skip(0) =~= all);
}

} // verus!

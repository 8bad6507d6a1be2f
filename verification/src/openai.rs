//! The decisions of the OpenAI-compatible chat endpoint: which web AI a
//! model name selects, which message is sent, how consecutive requests keep
//! to one web conversation, and how a reply is cut into stream chunks.

use vstd::prelude::*;
use vstd::utf8::{char_is_scalar, encode_scalar, encode_utf8};
use crate::protocol::AskResultData;
use crate::text::{
    chars_of, concat, contains, contains_exec, lemma_concat_push, lemma_contains_iff_occurs, occurs_at,
    push_char, string_items,
};

verus! {

broadcast use vstd::string::group_string_axioms;

/// The port the endpoint listens on unless told otherwise.
pub const OPENAI_PORT: u16 = 19001;

/// The lowercase form of a string, as `str::to_lowercase` gives it.
pub uninterp spec fn str_lowercase(s: Seq<char>) -> Seq<char>;

/// `str::to_lowercase`: the string with each character replaced by its
/// Unicode lowercase mapping. The mapping is left to the name `str_lowercase`.
#[verifier::external_body]
fn to_lowercase(s: &str) -> (r: String)
    ensures
        r@ == str_lowercase(s@),
{
    s.to_lowercase()
}

/// The site a lowercased model name selects.
pub open spec fn site_of(lower: Seq<char>) -> Seq<char> {
    if contains(lower, "grok"@) {
        "grok"@
    } else if contains(lower, "kimi"@) {
        "kimi"@
    } else if contains(lower, "glm"@) || contains(lower, "zhipu"@) {
        "glm"@
    } else {
        "chatgpt"@
    }
}

/// The site for a model name that is already lowercase.
pub fn site_for_lowercase(lower: &str) -> (r: &'static str)
    ensures
        r@ == site_of(lower@),
{
    let m = chars_of(lower);
    if contains_exec(&m, &chars_of("grok")) {
        "grok"
    } else if contains_exec(&m, &chars_of("kimi")) {
        "kimi"
    } else if contains_exec(&m, &chars_of("glm")) || contains_exec(&m, &chars_of("zhipu")) {
        "glm"
    } else {
        "chatgpt"
    }
}

/// The site a model name selects: grok, kimi or glm where the lowercased
/// name mentions it (or zhipu for glm), chatgpt otherwise.
pub fn site_for_model(model: &str) -> (r: &'static str)
    ensures
        r@ == site_of(str_lowercase(model@)),
{
    let lower = to_lowercase(model);
    site_for_lowercase(lower.as_str())
}

/// A chat message's content: a string, a list of parts (the `text` of each
/// part where it is a string, `None` where it is not), or anything else.
pub enum ChatContent {
    Text(String),
    Parts(Vec<Option<String>>),
    Other,
}

/// One message of a chat request.
pub struct ChatMsg {
    pub role: String,
    pub content: ChatContent,
}

/// The text of a message's content: the string, the parts' texts run
/// together, or nothing.
pub open spec fn content_text(c: ChatContent) -> Seq<char> {
    match c {
        ChatContent::Text(s) => s@,
        ChatContent::Parts(p) => concat(string_items(p@)),
        ChatContent::Other => Seq::empty(),
    }
}

impl ChatMsg {
    /// The message's text.
    pub fn text(&self) -> (r: String)
        ensures
            r@ == content_text(self.content),
    {
        match &self.content {
            ChatContent::Text(s) => s.clone(),
            ChatContent::Parts(parts) => {
                let ghost all = parts@;
                let mut r = String::new();
                let mut i: usize = 0;
                while i < parts.len()
                    invariant
                        i <= all.len(),
                        all == parts@,
                        r@ == concat(string_items(all.take(i as int))),
                    decreases parts.len() - i,
                {
                    assert(all.take(i + 1).drop_last() =~= all.take(i as int));
                    match &parts[i] {
                        Some(t) => {
                            proof {
                                lemma_concat_push(string_items(all.take(i as int)), t@);
                            }
                            r.append(t.as_str());
                        }
                        None => {}
                    }
                    i += 1;
                }
                assert(all.take(all.len() as int) =~= all);
                r
            }
            ChatContent::Other => String::new(),
        }
    }
}

/// The index of the last message whose role is `user`.
pub open spec fn last_user(msgs: Seq<ChatMsg>) -> Option<int>
    decreases msgs.len(),
{
    if msgs.len() == 0 {
        None
    } else if msgs.last().role@ == "user"@ {
        Some(msgs.len() - 1)
    } else {
        last_user(msgs.drop_last())
    }
}

/// The text sent to the web AI: that of the last user message, or nothing.
pub open spec fn prompt_of(msgs: Seq<ChatMsg>) -> Seq<char> {
    match last_user(msgs) {
        Some(i) => content_text(msgs[i].content),
        None => Seq::empty(),
    }
}

proof fn lemma_last_user(msgs: Seq<ChatMsg>, n: int)
    requires
        0 <= n <= msgs.len(),
        forall|j: int| n <= j < msgs.len() ==> msgs[j].role@ != "user"@,
    ensures
        last_user(msgs) == last_user(msgs.take(n)),
    decreases msgs.len() - n,
{
    if n < msgs.len() {
        assert(msgs.drop_last().take(n) =~= msgs.take(n));
        lemma_last_user(msgs.drop_last(), n);
    } else {
        assert(msgs.take(n) =~= msgs);
    }
}

/// The text of the last user message of a chat request.
pub fn prompt_text(messages: &Vec<ChatMsg>) -> (r: String)
    ensures
        r@ == prompt_of(messages@),
{
    let user = String::from_str("user");
    let mut i = messages.len();
    while i > 0
        invariant
            i <= messages@.len(),
            user@ == "user"@,
            forall|j: int| i <= j < messages@.len() ==> messages@[j].role@ != "user"@,
        decreases i,
    {
        if messages[i - 1].role == user {
            proof {
                lemma_last_user(messages@, i as int);
                assert(messages@.take(i as int).last() == messages@[i - 1]);
            }
            return messages[i - 1].text();
        }
        i -= 1;
    }
    proof {
        lemma_last_user(messages@, 0);
    }
    String::new()
}

/// The prompt is the text of the user message that comes last: where
/// message `i` has role `user` and none after it does, the prompt is its
/// text (so a request whose final message is from the user sends that
/// message); where no message has role `user`, the prompt is empty.
pub proof fn law_prompt_is_last_user_message(msgs: Seq<ChatMsg>, i: int)
    ensures
        (0 <= i < msgs.len() && msgs[i].role@ == "user"@
            && forall|j: int| i < j < msgs.len() ==> msgs[j].role@ != "user"@)
            ==> prompt_of(msgs) == content_text(msgs[i].content),
        (forall|j: int| 0 <= j < msgs.len() ==> msgs[j].role@ != "user"@)
            ==> prompt_of(msgs) == Seq::<char>::empty(),
{
    if 0 <= i < msgs.len() && msgs[i].role@ == "user"@
        && forall|j: int| i < j < msgs.len() ==> msgs[j].role@ != "user"@ {
        lemma_last_user(msgs, i + 1);
        assert(msgs.take(i + 1).last() == msgs[i]);
    }
    if forall|j: int| 0 <= j < msgs.len() ==> msgs[j].role@ != "user"@ {
        lemma_last_user(msgs, 0);
    }
}

/// The site is chosen by what the lowercased model name contains, wherever
/// in the name (`k` is any index): `grok` first, then `kimi`, then `glm` or
/// `zhipu`; a name that holds none of them selects chatgpt.
pub proof fn law_site_by_substring(lower: Seq<char>, k: int)
    ensures
        occurs_at(lower, "grok"@, k) ==> site_of(lower) == "grok"@,
        !contains(lower, "grok"@) && occurs_at(lower, "kimi"@, k) ==> site_of(lower) == "kimi"@,
        !contains(lower, "grok"@) && !contains(lower, "kimi"@) && (occurs_at(lower, "glm"@, k)
            || occurs_at(lower, "zhipu"@, k)) ==> site_of(lower) == "glm"@,
        !contains(lower, "grok"@) && !contains(lower, "kimi"@) && !contains(lower, "glm"@)
            && !contains(lower, "zhipu"@) ==> site_of(lower) == "chatgpt"@,
        (forall|j: int| !occurs_at(lower, "grok"@, j)) <==> !contains(lower, "grok"@),
{
    lemma_contains_iff_occurs(lower, "grok"@);
    lemma_contains_iff_occurs(lower, "kimi"@);
    lemma_contains_iff_occurs(lower, "glm"@);
    lemma_contains_iff_occurs(lower, "zhipu"@);
}

/// The endpoint's memory: the web conversation that the last successful
/// request used, which the next request continues.
pub struct ChatSession {
    last_conversation: Option<String>,
}

impl View for ChatSession {
    type V = Option<Seq<char>>;

    closed spec fn view(&self) -> Option<Seq<char>> {
        match self.last_conversation {
            Some(s) => Some(s@),
            None => None,
        }
    }
}

impl ChatSession {
    /// A session that has not talked to any conversation yet.
    pub fn new() -> (s: ChatSession)
        ensures
            s@ is None,
    {
        ChatSession { last_conversation: None }
    }

    /// The conversation the next request continues (`None`: a new one).
    pub fn conversation(&self) -> (r: Option<String>)
        ensures
            match r {
                Some(c) => self@ == Some(c@),
                None => self@ is None,
            },
    {
        match &self.last_conversation {
            Some(c) => Some(c.clone()),
            None => None,
        }
    }

    /// Records how a request ended: on success the reply's conversation is
    /// remembered and its text returned; a failure leaves the session as it
    /// was and returns the error text.
    pub fn finish(&mut self, outcome: Result<AskResultData, String>) -> (r: Result<String, String>)
        ensures
            match outcome {
                Ok(d) => final(self)@ == Some(d.url@) && (r matches Ok(t) && t@ == d.text@),
                Err(e) => final(self)@ == old(self)@ && (r matches Err(m) && m@ == e@),
            },
    {
        match outcome {
            Ok(d) => {
                self.last_conversation = Some(d.url);
                Ok(d.text)
            }
            Err(e) => Err(e),
        }
    }
}

/// The most UTF-8 bytes that one stream chunk carries.
pub const CHUNK_BYTES: usize = 120;

/// The number of UTF-8 bytes of a character.
pub open spec fn char_bytes(c: char) -> nat {
    encode_scalar(c as u32).len()
}

/// How many UTF-8 bytes `c` takes: 1 to 4.
fn utf8_width(c: char) -> (w: usize)
    ensures
        w == char_bytes(c),
        1 <= w <= 4,
{
    proof {
        char_is_scalar(c);
    }
    let v = c as u32;
    if v <= 0x7f {
        1
    } else if v <= 0x7ff {
        2
    } else if v <= 0xffff {
        3
    } else {
        4
    }
}

/// Encoding one more character appends its bytes.
proof fn lemma_encode_utf8_push(s: Seq<char>, c: char)
    ensures
        encode_utf8(s.push(c)) == encode_utf8(s) + encode_scalar(c as u32),
    decreases s.len(),
{
    if s.len() == 0 {
        assert(s.push(c).drop_first() =~= Seq::<char>::empty());
        assert(encode_utf8(Seq::<char>::empty()) =~= Seq::<u8>::empty());
        assert(encode_utf8(s) =~= Seq::<u8>::empty());
        assert(encode_utf8(s.push(c)) =~= encode_utf8(s) + encode_scalar(c as u32));
    } else {
        assert(s.push(c).drop_first() =~= s.drop_first().push(c));
        lemma_encode_utf8_push(s.drop_first(), c);
        assert(encode_utf8(s.push(c)) =~= encode_utf8(s) + encode_scalar(c as u32));
    }
}

/// The reply cut into stream pieces: run together they give the reply; each
/// is non-empty and at most `CHUNK_BYTES` bytes of UTF-8; and each piece but
/// the last is as long as that limit allows, so a cut never splits a
/// character and falls as late as it can.
pub open spec fn reply_pieces(pieces: Seq<Seq<char>>, text: Seq<char>) -> bool {
    &&& concat(pieces) == text
    &&& forall|i: int|
        0 <= i < pieces.len() ==> #[trigger] pieces[i].len() > 0 && encode_utf8(pieces[i]).len()
            <= CHUNK_BYTES
    &&& forall|i: int|
        0 <= i < pieces.len() - 1 ==> encode_utf8(#[trigger] pieces[i]).len() + char_bytes(
            pieces[i + 1][0],
        ) > CHUNK_BYTES
}

/// One event of a streamed reply.
pub enum ChunkEvent {
    /// The opening chunk (role `assistant`).
    Start,
    /// A piece of the reply's text.
    Content(String),
    /// The closing chunk (finish reason `stop`).
    Stop,
    /// The final `[DONE]` event.
    Done,
}

pub enum ChunkEventView {
    Start,
    Content(Seq<char>),
    Stop,
    Done,
}

impl View for ChunkEvent {
    type V = ChunkEventView;

    open spec fn view(&self) -> ChunkEventView {
        match self {
            ChunkEvent::Start => ChunkEventView::Start,
            ChunkEvent::Content(s) => ChunkEventView::Content(s@),
            ChunkEvent::Stop => ChunkEventView::Stop,
            ChunkEvent::Done => ChunkEventView::Done,
        }
    }
}

/// The content events for the given pieces.
pub open spec fn content_events(pieces: Seq<Seq<char>>) -> Seq<ChunkEventView> {
    pieces.map_values(|p: Seq<char>| ChunkEventView::Content(p))
}

/// The events of a streamed reply cut into `pieces`: the opening chunk, one
/// content chunk per piece, the closing chunk and `[DONE]`.
pub open spec fn stream_events(pieces: Seq<Seq<char>>) -> Seq<ChunkEventView> {
    seq![ChunkEventView::Start] + content_events(pieces) + seq![ChunkEventView::Stop, ChunkEventView::Done]
}

/// The texts of the content events between the opening and the closing chunks.
pub open spec fn event_pieces(events: Seq<ChunkEventView>) -> Seq<Seq<char>> {
    events.subrange(1, events.len() - 2).map_values(
        |e: ChunkEventView| match e {
            ChunkEventView::Content(s) => s,
            _ => Seq::empty(),
        },
    )
}

/// The text that the content events carry, run together.
pub open spec fn streamed_text(events: Seq<ChunkEventView>) -> Seq<char>
    decreases events.len(),
{
    if events.len() == 0 {
        Seq::empty()
    } else {
        streamed_text(events.drop_last()) + match events.last() {
            ChunkEventView::Content(s) => s,
            _ => Seq::empty(),
        }
    }
}

proof fn lemma_streamed_text_push(events: Seq<ChunkEventView>, e: ChunkEventView)
    ensures
        streamed_text(events.push(e)) == streamed_text(events) + match e {
            ChunkEventView::Content(s) => s,
            _ => Seq::empty(),
        },
{
    assert(events.push(e).drop_last() =~= events);
}

/// The events by their abstract values.
pub open spec fn events_view(v: Seq<ChunkEvent>) -> Seq<ChunkEventView> {
    v.map_values(|e: ChunkEvent| e@)
}

/// Appends an event.
fn push_event(events: &mut Vec<ChunkEvent>, e: ChunkEvent)
    ensures
        events_view(final(events)@) == events_view(old(events)@).push(e@),
        streamed_text(events_view(final(events)@)) == streamed_text(events_view(old(events)@)) + match e@ {
            ChunkEventView::Content(s) => s,
            _ => Seq::empty(),
        },
{
    let ghost ev = e@;
    events.push(e);
    assert(events_view(events@) =~= events_view(old(events)@).push(ev));
    proof {
        lemma_streamed_text_push(events_view(old(events)@), ev);
    }
}

/// Cuts a reply into the events of a streamed response. The stream carries
/// the reply whole: its content chunks run together give the reply.
pub fn sse_chunks(text: &str) -> (r: Vec<ChunkEvent>)
    ensures
        events_view(r@) == stream_events(event_pieces(events_view(r@))),
        reply_pieces(event_pieces(events_view(r@)), text@),
        streamed_text(events_view(r@)) == text@,
{
    let cs = chars_of(text);
    let mut events: Vec<ChunkEvent> = Vec::new();
    push_event(&mut events, ChunkEvent::Start);
    let ghost mut done: Seq<Seq<char>> = Seq::empty();
    let mut cur = String::new();
    let mut cur_bytes: usize = 0;
    proof {
        assert(events_view(events@) =~= seq![ChunkEventView::Start] + content_events(done));
        assert(events_view(Seq::<ChunkEvent>::empty()) =~= Seq::<ChunkEventView>::empty());
        assert(cs@.take(0) =~= Seq::<char>::empty());
        assert(encode_utf8(cur@) =~= Seq::<u8>::empty());
    }
    let mut i: usize = 0;
    while i < cs.len()
        invariant
            i <= cs@.len(),
            cs@ == text@,
            events_view(events@) == seq![ChunkEventView::Start] + content_events(done),
            streamed_text(events_view(events@)) == concat(done),
            concat(done) + cur@ == cs@.take(i as int),
            forall|j: int|
                0 <= j < done.len() ==> #[trigger] done[j].len() > 0 && encode_utf8(done[j]).len()
                    <= CHUNK_BYTES,
            forall|j: int|
                0 <= j < done.len() - 1 ==> encode_utf8(#[trigger] done[j]).len() + char_bytes(
                    done[j + 1][0],
                ) > CHUNK_BYTES,
            done.len() > 0 && cur@.len() > 0 ==> encode_utf8(done.last()).len() + char_bytes(cur@[0])
                > CHUNK_BYTES,
            cur_bytes == encode_utf8(cur@).len(),
            cur_bytes <= CHUNK_BYTES,
            i > 0 ==> cur@.len() > 0,
            i == 0 ==> done.len() == 0 && cur@.len() == 0,
        decreases cs.len() - i,
    {
        let c = cs[i];
        let w = utf8_width(c);
        if cur_bytes + w > CHUNK_BYTES {
            let ghost piece = cur@;
            push_event(&mut events, ChunkEvent::Content(cur));
            cur = String::new();
            cur_bytes = 0;
            proof {
                lemma_concat_push(done, piece);
                assert(content_events(done.push(piece)) =~= content_events(done).push(ChunkEventView::Content(piece)));
                done = done.push(piece);
                assert(encode_utf8(cur@) =~= Seq::<u8>::empty());
                assert(concat(done) + cur@ =~= cs@.take(i as int));
            }
        }
        let ghost before = cur@;
        push_char(&mut cur, c);
        proof {
            lemma_encode_utf8_push(before, c);
            assert(cs@.take(i + 1) =~= cs@.take(i as int).push(c));
            assert(concat(done) + cur@ =~= cs@.take(i + 1));
            if before.len() > 0 {
                assert(cur@[0] == before[0]);
            }
        }
        cur_bytes = cur_bytes + w;
        i += 1;
    }
    if cs.len() > 0 {
        let ghost piece = cur@;
        push_event(&mut events, ChunkEvent::Content(cur));
        proof {
            lemma_concat_push(done, piece);
            assert(content_events(done.push(piece)) =~= content_events(done).push(ChunkEventView::Content(piece)));
            done = done.push(piece);
        }
    } else {
        proof {
            assert(concat(done) + cur@ =~= concat(done));
        }
    }
    push_event(&mut events, ChunkEvent::Stop);
    push_event(&mut events, ChunkEvent::Done);
    proof {
        assert(cs@.take(cs@.len() as int) =~= cs@);
        assert(events_view(events@) =~= stream_events(done));
        assert(event_pieces(stream_events(done)) =~= done);
    }
    events
}

} // verus!

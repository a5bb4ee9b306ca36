//! Chat messages of the OpenAI and Anthropic APIs as far as compression reads
//! them: their roles and texts; and the compression of a chat request's
//! messages by role.
use vstd::prelude::*;
use crate::text::copy_string;
use crate::types::{CompressionLevel, CompressionResult};
use crate::compressor::{Compressor, string_views, skip_result};
use crate::domain_detector::keywords_nonempty;
use crate::text::str_eq;

verus! {

broadcast use vstd::string::group_string_axioms;

/// A JSON value, carried through unread.
#[verifier::external_type_specification]
#[verifier::external_body]
pub struct ExJsonValue(serde_json::Value);

/// A JSON object, carried through unread.
#[verifier::external_type_specification]
#[verifier::external_body]
#[verifier::reject_recursive_types(K)]
#[verifier::reject_recursive_types(V)]
pub struct ExJsonMap<K, V>(serde_json::Map<K, V>);

/// The fields of a JSON object that are passed on as they are.
pub type JsonObject = serde_json::Map<String, serde_json::Value>;

/// A block of message content that may hold text.
pub trait TextBlock: Sized {
    /// The block's text, if it is a text block.
    spec fn block_text(&self) -> Option<String>;

    /// The block with its text replaced by `t`; a block without text stays
    /// as it is.
    spec fn with_text(&self, t: String) -> Self;

    proof fn lemma_with_text(&self, t: String)
        ensures
            self.block_text() is Some ==> self.with_text(t).block_text() == Some(t),
            self.block_text() is None ==> self.with_text(t) == *self;

    /// The block's text, if it is a text block.
    fn text_ref(&self) -> (r: Option<&String>)
        ensures
            r is None <==> self.block_text() is None,
            r matches Some(s) ==> self.block_text() == Some(*s);

    /// Replaces the block's text.
    fn set_text(&mut self, t: String)
        ensures *final(self) == old(self).with_text(t);
}

/// The texts of the text blocks, in order.
pub open spec fn block_texts<B: TextBlock>(bs: Seq<B>) -> Seq<String>
    decreases bs.len(),
{
    if bs.len() == 0 {
        Seq::empty()
    } else {
        (match bs[0].block_text() {
            Some(t) => seq![t],
            None => Seq::empty(),
        }) + block_texts(bs.drop_first())
    }
}

/// The blocks with the texts of their text blocks replaced, in order, by `ts`.
pub open spec fn with_block_texts<B: TextBlock>(bs: Seq<B>, ts: Seq<String>) -> Seq<B>
    decreases bs.len(),
{
    if bs.len() == 0 {
        bs
    } else if bs[0].block_text() is Some {
        seq![bs[0].with_text(ts[0])] + with_block_texts(bs.drop_first(), ts.drop_first())
    } else {
        seq![bs[0]] + with_block_texts(bs.drop_first(), ts)
    }
}

/// Replacing the texts of blocks gives blocks whose texts are the new ones.
pub proof fn lemma_with_block_texts<B: TextBlock>(bs: Seq<B>, ts: Seq<String>)
    requires ts.len() == block_texts(bs).len(),
    ensures
        block_texts(with_block_texts(bs, ts)) == ts,
        with_block_texts(bs, ts).len() == bs.len(),
    decreases bs.len(),
{
    if bs.len() > 0 {
        let w = with_block_texts(bs, ts);
        bs[0].lemma_with_text(ts[0]);
        if bs[0].block_text() is Some {
            lemma_with_block_texts(bs.drop_first(), ts.drop_first());
            assert(w.drop_first() =~= with_block_texts(bs.drop_first(), ts.drop_first()));
            assert(ts =~= seq![ts[0]] + ts.drop_first());
        } else {
            lemma_with_block_texts(bs.drop_first(), ts);
            assert(w.drop_first() =~= with_block_texts(bs.drop_first(), ts));
        }
    } else {
        assert(ts =~= Seq::<String>::empty());
    }
}

/// Copies of the texts of the text blocks, in order.
pub fn block_texts_of<B: TextBlock>(bs: &Vec<B>) -> (r: Vec<String>)
    ensures string_views(r@) == string_views(block_texts(bs@)),
{
    let mut r: Vec<String> = Vec::new();
    let mut i: usize = 0;
    proof { assert(bs@.subrange(0, bs@.len() as int) =~= bs@); }
    while i < bs.len()
        invariant
            i <= bs@.len(),
            string_views(r@) + string_views(block_texts(bs@.subrange(i as int, bs@.len() as int)))
                == string_views(block_texts(bs@)),
        decreases bs.len() - i,
    {
        let ghost rest = bs@.subrange(i as int, bs@.len() as int);
        proof { assert(rest.drop_first() =~= bs@.subrange(i + 1, bs@.len() as int)); }
        let ghost old_r = string_views(r@);
        match bs[i].text_ref() {
            Some(t) => {
                r.push(copy_string(t));
                proof {
                    assert(string_views(r@) =~= old_r.push(t@));
                    assert(string_views(block_texts(rest)) =~= seq![t@] + string_views(block_texts(rest.drop_first())));
                }
            },
            None => {
                proof { assert(block_texts(rest) =~= block_texts(rest.drop_first())); }
            },
        }
        i = i + 1;
    }
    proof {
        assert(bs@.subrange(bs@.len() as int, bs@.len() as int) =~= Seq::<B>::empty());
        assert(string_views(r@) + string_views(Seq::<String>::empty()) =~= string_views(r@));
    }
    r
}

/// Replaces the texts of the text blocks, in order, by `ts`.
pub fn set_block_texts<B: TextBlock>(bs: &mut Vec<B>, ts: Vec<String>)
    requires ts@.len() == block_texts(old(bs)@).len(),
    ensures final(bs)@ == with_block_texts(old(bs)@, ts@),
{
    let ghost ob = bs@;
    let ghost ot = ts@;
    let n = bs.len();
    let mut ts = ts;
    let mut i: usize = 0;
    let mut k: usize = 0;
    proof {
        assert(ob.subrange(0, n as int) =~= ob);
        assert(ot.subrange(0, ot.len() as int) =~= ot);
        assert(bs@.subrange(0, 0) + with_block_texts(ob.subrange(0, n as int), ot.subrange(0, ot.len() as int))
            =~= with_block_texts(ob, ot));
    }
    while i < n
        invariant
            i <= n, n == ob.len(), bs@.len() == n, k <= ot.len(), ts@.len() == ot.len(),
            forall|j: int| i <= j < n ==> bs@[j] == ob[j],
            forall|j: int| k <= j < ot.len() ==> ts@[j] == ot[j],
            k + block_texts(ob.subrange(i as int, n as int)).len() == ot.len(),
            bs@.subrange(0, i as int) + with_block_texts(ob.subrange(i as int, n as int), ot.subrange(k as int, ot.len() as int))
                == with_block_texts(ob, ot),
        decreases n - i,
    {
        let ghost rest = ob.subrange(i as int, n as int);
        let ghost trest = ot.subrange(k as int, ot.len() as int);
        proof {
            assert(rest.drop_first() =~= ob.subrange(i + 1, n as int));
            assert(rest[0] == ob[i as int]);
        }
        let has_text = bs[i].text_ref().is_some();
        if has_text {
            proof {
                assert(block_texts(rest) =~= seq![rest[0].block_text()->0] + block_texts(rest.drop_first()));
                assert(trest.drop_first() =~= ot.subrange(k + 1, ot.len() as int));
                assert(trest[0] == ot[k as int]);
            }
            let tl = ts.len();
            proof { assert(k < tl); }
            let mut t = String::new();
            std::mem::swap(&mut t, &mut ts[k]);
            let ghost old_bs = bs@;
            bs[i].set_text(t);
            proof {
                assert(bs@ == old_bs.update(i as int, ob[i as int].with_text(ot[k as int])));
                assert(bs@.subrange(0, i + 1) =~= old_bs.subrange(0, i as int).push(ob[i as int].with_text(ot[k as int])));
                assert(with_block_texts(rest, trest) =~= seq![rest[0].with_text(trest[0])]
                    + with_block_texts(ob.subrange(i + 1, n as int), ot.subrange(k + 1, ot.len() as int)));
                assert(bs@.subrange(0, i + 1) + with_block_texts(ob.subrange(i + 1, n as int), ot.subrange(k + 1, ot.len() as int))
                    =~= with_block_texts(ob, ot));
            }
            k = k + 1;
        } else {
            proof {
                assert(block_texts(rest) =~= block_texts(rest.drop_first()));
                assert(with_block_texts(rest, trest) =~= seq![rest[0]] + with_block_texts(ob.subrange(i + 1, n as int), trest));
                assert(bs@.subrange(0, i + 1) =~= bs@.subrange(0, i as int).push(ob[i as int]));
                assert(bs@.subrange(0, i + 1) + with_block_texts(ob.subrange(i + 1, n as int), trest)
                    =~= with_block_texts(ob, ot));
            }
        }
        i = i + 1;
    }
    proof {
        assert(ob.subrange(n as int, n as int) =~= Seq::<B>::empty());
        assert(bs@.subrange(0, n as int) =~= bs@);
        assert(bs@ + Seq::<B>::empty() =~= bs@);
    }
}

/// A part of OpenAI message content.
#[derive(Debug)]
pub enum ContentPart {
    Text { text: String },
    ImageUrl { image_url: serde_json::Value },
    Other,
}

impl TextBlock for ContentPart {
    open spec fn block_text(&self) -> Option<String> {
        match self {
            ContentPart::Text { text } => Some(*text),
            _ => None,
        }
    }

    open spec fn with_text(&self, t: String) -> Self {
        match self {
            ContentPart::Text { .. } => ContentPart::Text { text: t },
            _ => *self,
        }
    }

    proof fn lemma_with_text(&self, t: String) {
    }

    fn text_ref(&self) -> (r: Option<&String>) {
        match self {
            ContentPart::Text { text } => Some(text),
            _ => None,
        }
    }

    fn set_text(&mut self, t: String) {
        match self {
            ContentPart::Text { text } => {
                *text = t;
            },
            _ => {},
        }
    }
}

/// The content of an OpenAI message: a text, a list of parts, or nothing.
#[derive(Debug)]
pub enum MessageContent {
    Text(String),
    Parts(Vec<ContentPart>),
    Null,
}

/// The texts of OpenAI message content, in order.
pub open spec fn content_texts(c: MessageContent) -> Seq<String> {
    match c {
        MessageContent::Text(s) => seq![s],
        MessageContent::Parts(ps) => block_texts(ps@),
        MessageContent::Null => Seq::empty(),
    }
}

/// `new` is content `old` with its texts replaced, in order, by `ts`.
pub open spec fn content_replaced(old: MessageContent, new: MessageContent, ts: Seq<String>) -> bool {
    match (old, new) {
        (MessageContent::Text(_), MessageContent::Text(s)) => ts == seq![s],
        (MessageContent::Parts(a), MessageContent::Parts(b)) => b@ == with_block_texts(a@, ts),
        (MessageContent::Null, MessageContent::Null) => ts.len() == 0,
        _ => false,
    }
}

impl MessageContent {
    /// Copies of the texts of the content, in order: the text itself, or
    /// the text of each text part.
    pub fn texts(&self) -> (r: Vec<String>)
        ensures string_views(r@) == string_views(content_texts(*self)),
    {
        match self {
            MessageContent::Text(s) => {
                let r = vec![copy_string(s)];
                proof { assert(string_views(r@) =~= string_views(seq![*s])); }
                r
            },
            MessageContent::Parts(parts) => block_texts_of(parts),
            MessageContent::Null => {
                let r: Vec<String> = Vec::new();
                proof { assert(string_views(r@) =~= string_views(Seq::<String>::empty())); }
                r
            },
        }
    }

    /// Replaces the texts of the content, in order, by `ts`; everything else
    /// stays.
    pub fn set_texts(&mut self, ts: Vec<String>)
        requires ts@.len() == content_texts(*old(self)).len(),
        ensures content_replaced(*old(self), *final(self), ts@),
    {
        let mut ts = ts;
        match self {
            MessageContent::Text(s) => {
                let ghost ot = ts@;
                std::mem::swap(s, &mut ts[0]);
                proof { assert(ot =~= seq![ot[0]]); }
            },
            MessageContent::Parts(parts) => {
                set_block_texts(parts, ts);
            },
            MessageContent::Null => {
                proof { assert(ts@ =~= Seq::<String>::empty()); }
            },
        }
    }
}

/// Replacing the texts of content gives content whose texts are the new ones.
pub proof fn lemma_content_replaced(old: MessageContent, new: MessageContent, ts: Seq<String>)
    requires content_replaced(old, new, ts), ts.len() == content_texts(old).len(),
    ensures content_texts(new) == ts,
{
    if let MessageContent::Parts(a) = old {
        lemma_with_block_texts(a@, ts);
    }
}

/// An OpenAI chat message.
#[derive(Debug)]
pub struct Message {
    pub role: String,
    pub content: MessageContent,
    pub other: JsonObject,
}

/// An OpenAI chat completion request.
#[derive(Debug)]
pub struct ChatCompletionRequest {
    pub model: String,
    pub messages: Vec<Message>,
    pub stream: Option<bool>,
    pub other: JsonObject,
}

/// A block of Anthropic message content.
#[derive(Debug)]
pub enum ContentBlock {
    Text { text: String },
    Image { source: serde_json::Value },
    ToolUse { data: JsonObject },
    ToolResult { data: JsonObject },
    Other,
}

impl TextBlock for ContentBlock {
    open spec fn block_text(&self) -> Option<String> {
        match self {
            ContentBlock::Text { text } => Some(*text),
            _ => None,
        }
    }

    open spec fn with_text(&self, t: String) -> Self {
        match self {
            ContentBlock::Text { .. } => ContentBlock::Text { text: t },
            _ => *self,
        }
    }

    proof fn lemma_with_text(&self, t: String) {
    }

    fn text_ref(&self) -> (r: Option<&String>) {
        match self {
            ContentBlock::Text { text } => Some(text),
            _ => None,
        }
    }

    fn set_text(&mut self, t: String) {
        match self {
            ContentBlock::Text { text } => {
                *text = t;
            },
            _ => {},
        }
    }
}

/// The content of an Anthropic message: a text or a list of blocks.
#[derive(Debug)]
pub enum AnthropicContent {
    Text(String),
    Blocks(Vec<ContentBlock>),
}

/// The texts of Anthropic message content, in order.
pub open spec fn anthropic_texts(c: AnthropicContent) -> Seq<String> {
    match c {
        AnthropicContent::Text(s) => seq![s],
        AnthropicContent::Blocks(bs) => block_texts(bs@),
    }
}

/// `new` is Anthropic content `old` with its texts replaced, in order, by `ts`.
pub open spec fn anthropic_replaced(old: AnthropicContent, new: AnthropicContent, ts: Seq<String>) -> bool {
    match (old, new) {
        (AnthropicContent::Text(_), AnthropicContent::Text(s)) => ts == seq![s],
        (AnthropicContent::Blocks(a), AnthropicContent::Blocks(b)) => b@ == with_block_texts(a@, ts),
        _ => false,
    }
}

/// Replacing the texts of Anthropic content gives content whose texts are
/// the new ones.
pub proof fn lemma_anthropic_replaced(old: AnthropicContent, new: AnthropicContent, ts: Seq<String>)
    requires anthropic_replaced(old, new, ts), ts.len() == anthropic_texts(old).len(),
    ensures anthropic_texts(new) == ts,
{
    if let AnthropicContent::Blocks(a) = old {
        lemma_with_block_texts(a@, ts);
    }
}

impl AnthropicContent {
    /// Copies of the texts of the content, in order: the text itself, or
    /// the text of each text block; images and tool blocks have none.
    pub fn texts(&self) -> (r: Vec<String>)
        ensures string_views(r@) == string_views(anthropic_texts(*self)),
    {
        match self {
            AnthropicContent::Text(s) => {
                let r = vec![copy_string(s)];
                proof { assert(string_views(r@) =~= string_views(seq![*s])); }
                r
            },
            AnthropicContent::Blocks(blocks) => block_texts_of(blocks),
        }
    }

    /// Replaces the texts of the content, in order, by `ts`; everything else
    /// stays.
    pub fn set_texts(&mut self, ts: Vec<String>)
        requires ts@.len() == anthropic_texts(*old(self)).len(),
        ensures anthropic_replaced(*old(self), *final(self), ts@),
    {
        let mut ts = ts;
        match self {
            AnthropicContent::Text(s) => {
                let ghost ot = ts@;
                std::mem::swap(s, &mut ts[0]);
                proof { assert(ot =~= seq![ot[0]]); }
            },
            AnthropicContent::Blocks(blocks) => {
                set_block_texts(blocks, ts);
            },
        }
    }
}

/// An Anthropic message.
#[derive(Debug)]
pub struct AnthropicMessage {
    pub role: String,
    pub content: AnthropicContent,
    pub other: JsonObject,
}

/// A block of an Anthropic system prompt.
#[derive(Debug)]
pub enum SystemBlock {
    Text { text: String, other: JsonObject },
    Other,
}

impl TextBlock for SystemBlock {
    open spec fn block_text(&self) -> Option<String> {
        match self {
            SystemBlock::Text { text, .. } => Some(*text),
            _ => None,
        }
    }

    open spec fn with_text(&self, t: String) -> Self {
        match self {
            SystemBlock::Text { other, .. } => SystemBlock::Text { text: t, other: *other },
            _ => *self,
        }
    }

    proof fn lemma_with_text(&self, t: String) {
    }

    fn text_ref(&self) -> (r: Option<&String>) {
        match self {
            SystemBlock::Text { text, .. } => Some(text),
            _ => None,
        }
    }

    fn set_text(&mut self, t: String) {
        match self {
            SystemBlock::Text { text, .. } => {
                *text = t;
            },
            _ => {},
        }
    }
}

/// An Anthropic system prompt: a text or a list of blocks.
#[derive(Debug)]
pub enum SystemPrompt {
    Text(String),
    Blocks(Vec<SystemBlock>),
}

/// The texts of a system prompt, in order.
pub open spec fn system_texts(p: SystemPrompt) -> Seq<String> {
    match p {
        SystemPrompt::Text(s) => seq![s],
        SystemPrompt::Blocks(bs) => block_texts(bs@),
    }
}

/// `new` is system prompt `old` with its texts replaced, in order, by `ts`.
pub open spec fn system_replaced(old: SystemPrompt, new: SystemPrompt, ts: Seq<String>) -> bool {
    match (old, new) {
        (SystemPrompt::Text(_), SystemPrompt::Text(s)) => ts == seq![s],
        (SystemPrompt::Blocks(a), SystemPrompt::Blocks(b)) => b@ == with_block_texts(a@, ts),
        _ => false,
    }
}

/// Replacing the texts of a system prompt gives a prompt whose texts are the
/// new ones.
pub proof fn lemma_system_replaced(old: SystemPrompt, new: SystemPrompt, ts: Seq<String>)
    requires system_replaced(old, new, ts), ts.len() == system_texts(old).len(),
    ensures system_texts(new) == ts,
{
    if let SystemPrompt::Blocks(a) = old {
        lemma_with_block_texts(a@, ts);
    }
}

impl SystemPrompt {
    /// Copies of the texts of the prompt, in order.
    pub fn texts(&self) -> (r: Vec<String>)
        ensures string_views(r@) == string_views(system_texts(*self)),
    {
        match self {
            SystemPrompt::Text(s) => {
                let r = vec![copy_string(s)];
                proof { assert(string_views(r@) =~= string_views(seq![*s])); }
                r
            },
            SystemPrompt::Blocks(blocks) => block_texts_of(blocks),
        }
    }

    /// Replaces the texts of the prompt, in order, by `ts`; everything else
    /// stays.
    pub fn set_texts(&mut self, ts: Vec<String>)
        requires ts@.len() == system_texts(*old(self)).len(),
        ensures system_replaced(*old(self), *final(self), ts@),
    {
        let mut ts = ts;
        match self {
            SystemPrompt::Text(s) => {
                let ghost ot = ts@;
                std::mem::swap(s, &mut ts[0]);
                proof { assert(ot =~= seq![ot[0]]); }
            },
            SystemPrompt::Blocks(blocks) => {
                set_block_texts(blocks, ts);
            },
        }
    }
}

/// An Anthropic messages request.
#[derive(Debug)]
pub struct MessagesRequest {
    pub model: String,
    pub messages: Vec<AnthropicMessage>,
    pub max_tokens: u32,
    pub system: Option<SystemPrompt>,
    pub stream: Option<bool>,
    pub other: JsonObject,
}

/// The roles of messages.
pub open spec fn message_roles(ms: Seq<Message>) -> Seq<Seq<char>> {
    ms.map_values(|m: Message| m.role@)
}

/// A role that comes at `i` and at no later position is `user` there.
pub open spec fn is_last_user(roles: Seq<Seq<char>>, i: int) -> bool {
    &&& 0 <= i < roles.len()
    &&& roles[i] == "user"@
    &&& forall|j: int| i < j < roles.len() ==> #[trigger] roles[j] != "user"@
}

/// The last `user` role found by `last_user_index` is the one no later
/// `user` role follows.
pub proof fn lemma_last_user_is(roles: Seq<Seq<char>>, i: int)
    requires is_last_user(roles, i),
    ensures last_user_index(roles) == Some(i),
    decreases roles.len(),
{
    if i < roles.len() - 1 {
        assert(roles[roles.len() - 1] != "user"@);
        let d = roles.drop_last();
        assert forall|j: int| i < j < d.len() implies #[trigger] d[j] != "user"@ by {
            assert(d[j] == roles[j]);
        }
        lemma_last_user_is(d, i);
    }
}

/// The position of the last message whose role is `user`.
pub open spec fn last_user_index(roles: Seq<Seq<char>>) -> Option<int>
    decreases roles.len(),
{
    if roles.len() == 0 {
        None
    } else if roles.last() == "user"@ {
        Some(roles.len() - 1)
    } else {
        last_user_index(roles.drop_last())
    }
}

/// How message `i` is compressed: the last user message is left as it is,
/// earlier user messages are fully compressed, system messages lightly;
/// messages of other roles are not touched.
pub open spec fn message_level(roles: Seq<Seq<char>>, i: int) -> Option<CompressionLevel> {
    if roles[i] == "user"@ {
        if last_user_index(roles) == Some(i) {
            Some(CompressionLevel::Skip)
        } else {
            Some(CompressionLevel::Normal)
        }
    } else if roles[i] == "system"@ {
        Some(CompressionLevel::Light)
    } else {
        None
    }
}

/// The number of compression results for the messages before message `i`.
pub open spec fn result_offset(ms: Seq<Message>, i: int) -> int
    decreases i,
{
    if i <= 0 {
        0
    } else {
        result_offset(ms, i - 1) + if message_level(message_roles(ms), i - 1) is Some {
            content_texts(ms[i - 1].content).len() as int
        } else {
            0
        }
    }
}

/// `r` is a result of compressing text `t` at level `l`.
pub open spec fn level_result(c: Compressor, l: CompressionLevel, t: Seq<char>, r: CompressionResult) -> bool {
    match l {
        CompressionLevel::Skip => skip_result(t, r),
        CompressionLevel::Light => c.light_result(t, r),
        CompressionLevel::Normal => c.normal_result(t, None, r),
    }
}

/// Message `new` is message `old` compressed at `level`, with the results
/// for its texts at `off..` of `results`: without a level it stays as it is;
/// with one, its role and other fields stay, and each text is replaced by
/// the text of its result.
pub open spec fn message_compressed(c: Compressor, old: Message, new: Message, level: Option<CompressionLevel>,
    results: Seq<CompressionResult>, off: int) -> bool
{
    match level {
        None => new == old,
        Some(l) => {
            &&& new.role == old.role
            &&& new.other == old.other
            &&& content_replaced(old.content, new.content, content_texts(new.content))
            &&& content_texts(new.content).len() == content_texts(old.content).len()
            &&& forall|j: int| 0 <= j < content_texts(old.content).len() ==> {
                &&& level_result(c, l, (#[trigger] content_texts(old.content)[j])@, results[off + j])
                &&& content_texts(new.content)[j]@ == results[off + j].text@
            }
        },
    }
}

/// Full compression detects the domain: some message that is fully
/// compressed has a text that is not empty.
pub open spec fn detection_needed(ms: Seq<Message>) -> bool {
    exists|i: int, j: int| 0 <= i < ms.len() && message_level(message_roles(ms), i) == Some(CompressionLevel::Normal)
        && 0 <= j < content_texts(ms[i].content).len() && (#[trigger] content_texts(ms[i].content)[j])@.len() > 0
}

fn last_user(messages: &Vec<Message>) -> (r: Option<usize>)
    ensures
        r is None <==> last_user_index(message_roles(messages@)) is None,
        r matches Some(i) ==> last_user_index(message_roles(messages@)) == Some(i as int),
{
    let ghost roles = message_roles(messages@);
    let mut j: usize = messages.len();
    proof { assert(roles.subrange(0, j as int) =~= roles); }
    while j > 0
        invariant
            j <= messages@.len(), roles == message_roles(messages@),
            last_user_index(roles.subrange(0, j as int)) == last_user_index(roles),
        decreases j,
    {
        let ghost pre = roles.subrange(0, j as int);
        proof {
            assert(pre.last() == messages@[j - 1].role@);
            assert(pre.drop_last() =~= roles.subrange(0, j - 1));
        }
        if str_eq(messages[j - 1].role.as_str(), "user") {
            return Some(j - 1);
        }
        j = j - 1;
    }
    None
}

/// Whether the messages can be compressed: the domain keywords are all
/// non-empty, or no domain has to be detected.
pub fn chat_compressible(compressor: &Compressor, messages: &Vec<Message>) -> (r: bool)
    ensures r == (keywords_nonempty(compressor.domains()) || !detection_needed(messages@)),
{
    if compressor.keywords_ready() {
        return true;
    }
    let lu = last_user(messages);
    let ghost roles = message_roles(messages@);
    let mut i: usize = 0;
    while i < messages.len()
        invariant
            i <= messages@.len(), roles == message_roles(messages@),
            !keywords_nonempty(compressor.domains()),
            lu is None <==> last_user_index(roles) is None,
            lu matches Some(u) ==> last_user_index(roles) == Some(u as int),
            forall|a: int, b: int| 0 <= a < i && message_level(roles, a) == Some(CompressionLevel::Normal)
                && 0 <= b < content_texts(messages@[a].content).len()
                ==> (#[trigger] content_texts(messages@[a].content)[b])@.len() == 0,
        decreases messages.len() - i,
    {
        proof { assert(roles[i as int] == messages@[i as int].role@); }
        let is_user = str_eq(messages[i].role.as_str(), "user");
        let is_last = match lu { Some(u) => u == i, None => false };
        if is_user && !is_last {
            let texts = messages[i].content.texts();
            proof {
                assert(message_level(roles, i as int) == Some(CompressionLevel::Normal));
                assert(texts@.len() == string_views(texts@).len());
                assert(content_texts(messages@[i as int].content).len()
                    == string_views(content_texts(messages@[i as int].content)).len());
            }
            let mut j: usize = 0;
            while j < texts.len()
                invariant
                    j <= texts@.len(), i < messages@.len(), roles == message_roles(messages@),
                    !keywords_nonempty(compressor.domains()),
                    message_level(roles, i as int) == Some(CompressionLevel::Normal),
                    texts@.len() == content_texts(messages@[i as int].content).len(),
                    string_views(texts@) == string_views(content_texts(messages@[i as int].content)),
                    forall|b: int| 0 <= b < j ==> (#[trigger] content_texts(messages@[i as int].content)[b])@.len() == 0,
                decreases texts.len() - j,
            {
                proof {
                    assert(string_views(texts@)[j as int] == texts@[j as int]@);
                    assert(string_views(content_texts(messages@[i as int].content))[j as int]
                        == content_texts(messages@[i as int].content)[j as int]@);
                }
                if !texts[j].as_str().is_empty() {
                    proof {
                        assert(content_texts(messages@[i as int].content)[j as int]@.len() > 0);
                        assert(detection_needed(messages@));
                    }
                    return false;
                }
                j = j + 1;
            }
        }
        i = i + 1;
    }
    true
}

/// Compresses the messages of a chat request by role: the last user message
/// is left as it is, earlier user messages are fully compressed (the domain
/// detected from each text), system messages get the preprocessor alone;
/// other messages are not touched. Each text of a compressed message is
/// replaced by its result's text; the results come back in message order.
#[verifier::spinoff_prover]
pub fn compress_chat_messages(compressor: &Compressor, messages: &mut Vec<Message>) -> (results: Vec<CompressionResult>)
    requires keywords_nonempty(compressor.domains()) || !detection_needed(old(messages)@),
    ensures
        final(messages)@.len() == old(messages)@.len(),
        results@.len() == result_offset(old(messages)@, old(messages)@.len() as int),
        forall|i: int| 0 <= i < old(messages)@.len() ==> message_compressed(*compressor, old(messages)@[i],
            #[trigger] final(messages)@[i], message_level(message_roles(old(messages)@), i), results@,
            result_offset(old(messages)@, i)),
        forall|i: int| #[trigger] is_last_user(message_roles(old(messages)@), i) ==> {
            &&& string_views(content_texts(final(messages)@[i].content)) == string_views(content_texts(old(messages)@[i].content))
            &&& final(messages)@[i].role == old(messages)@[i].role
            &&& final(messages)@[i].other == old(messages)@[i].other
        },
        forall|i: int| 0 <= i < old(messages)@.len() && old(messages)@[i].role@ != "user"@
            && old(messages)@[i].role@ != "system"@ ==> #[trigger] final(messages)@[i] == old(messages)@[i],
{
    let ghost om = messages@;
    let ghost roles = message_roles(om);
    let lu = last_user(messages);
    let n = messages.len();
    let mut results: Vec<CompressionResult> = Vec::new();
    let mut i: usize = 0;
    while i < n
        invariant
            i <= n, n == om.len(), messages@.len() == n, roles == message_roles(om),
            keywords_nonempty(compressor.domains()) || !detection_needed(om),
            lu is None <==> last_user_index(roles) is None,
            lu matches Some(u) ==> last_user_index(roles) == Some(u as int),
            forall|a: int| i <= a < n ==> messages@[a] == om[a],
            results@.len() == result_offset(om, i as int),
            forall|a: int| 0 <= a < i ==> message_compressed(*compressor, om[a], #[trigger] messages@[a],
                message_level(roles, a), results@, result_offset(om, a)),
        decreases n - i,
    {
        proof { assert(roles[i as int] == om[i as int].role@); }
        let is_user = str_eq(messages[i].role.as_str(), "user");
        let is_system = str_eq(messages[i].role.as_str(), "system");
        let is_last = match lu { Some(u) => u == i, None => false };
        let level = if is_user {
            if is_last { Some(CompressionLevel::Skip) } else { Some(CompressionLevel::Normal) }
        } else if is_system {
            Some(CompressionLevel::Light)
        } else {
            None
        };
        proof { assert(level == message_level(roles, i as int)); }
        let ghost start = results@.len();
        let ghost before = results@;
        match level {
            None => {},
            Some(l) => {
                let texts = messages[i].content.texts();
                let ghost ct = content_texts(om[i as int].content);
                proof {
                    assert(texts@.len() == string_views(texts@).len());
                    assert(ct.len() == string_views(ct).len());
                }
                let mut new_texts: Vec<String> = Vec::new();
                let mut j: usize = 0;
                while j < texts.len()
                    invariant
                        j <= texts@.len(), string_views(texts@) == string_views(ct), texts@.len() == ct.len(),
                        ct == content_texts(om[i as int].content),
                        i < n, n == om.len(), roles == message_roles(om),
                        message_level(roles, i as int) == Some(l),
                        keywords_nonempty(compressor.domains()) || !detection_needed(om),
                        results@.len() == start + j, new_texts@.len() == j,
                        forall|q: int| 0 <= q < start ==> results@[q] == before[q],
                        forall|q: int| 0 <= q < j ==> {
                            &&& level_result(*compressor, l, (#[trigger] ct[q])@, results@[start + q])
                            &&& new_texts@[q]@ == results@[start + q].text@
                        },
                    decreases texts.len() - j,
                {
                    proof {
                        assert(string_views(texts@)[j as int] == texts@[j as int]@);
                        assert(string_views(ct)[j as int] == ct[j as int]@);
                        if l == CompressionLevel::Normal && !keywords_nonempty(compressor.domains()) && texts@[j as int]@.len() > 0 {
                            assert(content_texts(om[i as int].content)[j as int]@.len() > 0);
                            assert(detection_needed(om));
                        }
                    }
                    let r = compressor.compress_with_level(texts[j].as_str(), None, l);
                    new_texts.push(copy_string(&r.text));
                    results.push(r);
                    j = j + 1;
                }
                let ghost nt = new_texts@;
                let ghost mid = messages@;
                messages[i].content.set_texts(new_texts);
                proof {
                    lemma_content_replaced(om[i as int].content, messages@[i as int].content, nt);
                    assert forall|a: int| 0 <= a < n && a != i implies messages@[a] == mid[a] by {}
                    let off = start as int;
                    assert(content_texts(messages@[i as int].content) == nt);
                    assert forall|q: int| 0 <= q < ct.len() implies {
                        &&& level_result(*compressor, l, (#[trigger] ct[q])@, results@[off + q])
                        &&& nt[q]@ == results@[off + q].text@
                    } by {
                        assert(q < j);
                        assert(level_result(*compressor, l, ct[q]@, results@[start + q]));
                        assert(nt[q]@ == results@[start + q].text@);
                        assert(off + q == start + q);
                    }
                    assert(messages@[i as int].role == om[i as int].role);
                    assert(messages@[i as int].other == om[i as int].other);
                    assert(content_replaced(om[i as int].content, messages@[i as int].content, nt));
                    assert(nt.len() == ct.len());
                    lemma_message_compressed_intro(*compressor, om[i as int], messages@[i as int], l, results@, off, ct, nt);
                }
            },
        }
        proof {
            assert(result_offset(om, i + 1) == result_offset(om, i as int) + if message_level(roles, i as int) is Some {
                content_texts(om[i as int].content).len() as int } else { 0 });
            assert forall|a: int| 0 <= a < i + 1 implies message_compressed(*compressor, om[a], #[trigger] messages@[a],
                message_level(roles, a), results@, result_offset(om, a)) by {
                if a < i {
                    lemma_result_offset_mono(om, a + 1, i as int);
                    lemma_result_offset_mono(om, 0, a);
                    lemma_message_compressed_extend(*compressor, om[a], messages@[a], message_level(roles, a),
                        before, results@, result_offset(om, a));
                }
            }
        }
        i = i + 1;
    }
    proof {
        assert forall|k: int| #[trigger] is_last_user(message_roles(om), k) implies {
            &&& string_views(content_texts(messages@[k].content)) == string_views(content_texts(om[k].content))
            &&& messages@[k].role == om[k].role
            &&& messages@[k].other == om[k].other
        } by {
            lemma_last_user_is(roles, k);
            assert(roles[k] == om[k].role@);
            assert(message_level(roles, k) == Some(CompressionLevel::Skip));
            lemma_skipped_message_kept(*compressor, om[k], messages@[k], results@, result_offset(om, k));
        }
        assert forall|k: int| 0 <= k < om.len() && om[k].role@ != "user"@ && om[k].role@ != "system"@
            implies #[trigger] messages@[k] == om[k] by {
            assert(roles[k] == om[k].role@);
            assert(message_level(roles, k) is None);
        }
    }
    results
}

proof fn lemma_message_compressed_intro(c: Compressor, old: Message, new: Message, l: CompressionLevel,
    results: Seq<CompressionResult>, off: int, ts: Seq<String>, nts: Seq<String>)
    requires
        new.role == old.role,
        new.other == old.other,
        ts == content_texts(old.content),
        nts == content_texts(new.content),
        content_replaced(old.content, new.content, nts),
        nts.len() == ts.len(),
        forall|j: int| 0 <= j < ts.len() ==> {
            &&& level_result(c, l, (#[trigger] ts[j])@, results[off + j])
            &&& nts[j]@ == results[off + j].text@
        },
    ensures message_compressed(c, old, new, Some(l), results, off),
{
}

proof fn lemma_message_compressed_extend(c: Compressor, old: Message, new: Message, level: Option<CompressionLevel>,
    r1: Seq<CompressionResult>, r2: Seq<CompressionResult>, off: int)
    requires
        message_compressed(c, old, new, level, r1, off),
        0 <= off,
        level is Some ==> off + content_texts(old.content).len() <= r1.len(),
        r1.len() <= r2.len(),
        forall|q: int| 0 <= q < r1.len() ==> r2[q] == r1[q],
    ensures message_compressed(c, old, new, level, r2, off),
{
    if let Some(l) = level {
        assert forall|j: int| 0 <= j < content_texts(old.content).len() implies {
            &&& level_result(c, l, (#[trigger] content_texts(old.content)[j])@, r2[off + j])
            &&& content_texts(new.content)[j]@ == r2[off + j].text@
        } by {
            assert(r2[off + j] == r1[off + j]);
        }
    }
}

proof fn lemma_result_offset_mono(ms: Seq<Message>, a: int, b: int)
    requires 0 <= a <= b,
    ensures result_offset(ms, a) <= result_offset(ms, b),
    decreases b - a,
{
    if a < b {
        lemma_result_offset_mono(ms, a, b - 1);
    }
}

/// A message left as it is by its level (the last user message) keeps its
/// texts, role and other fields.
pub proof fn lemma_skipped_message_kept(c: Compressor, old: Message, new: Message, results: Seq<CompressionResult>, off: int)
    requires message_compressed(c, old, new, Some(CompressionLevel::Skip), results, off),
    ensures
        string_views(content_texts(new.content)) == string_views(content_texts(old.content)),
        new.role == old.role,
        new.other == old.other,
{
    assert forall|j: int| 0 <= j < content_texts(old.content).len() implies
        string_views(content_texts(new.content))[j] == string_views(content_texts(old.content))[j] by {
        assert(level_result(c, CompressionLevel::Skip, content_texts(old.content)[j]@, results[off + j]));
    }
    assert(string_views(content_texts(new.content)) =~= string_views(content_texts(old.content)));
}

} // verus!

//! Compression of Anthropic messages requests: the system prompt and the
//! messages are compressed by role, as chat messages are.
use vstd::prelude::*;
use crate::text::{copy_string, str_eq};
use crate::types::{CompressionLevel, CompressionResult};
use crate::compressor::{Compressor, string_views};
use crate::domain_detector::keywords_nonempty;
use crate::messages::{AnthropicMessage, AnthropicContent, SystemPrompt, anthropic_texts, anthropic_replaced,
    lemma_anthropic_replaced, system_texts, system_replaced, lemma_system_replaced, last_user_index,
    is_last_user, lemma_last_user_is,
    message_level, level_result};

verus! {

broadcast use vstd::string::group_string_axioms;

/// The roles of Anthropic messages.
pub open spec fn anthropic_roles(ms: Seq<AnthropicMessage>) -> Seq<Seq<char>> {
    ms.map_values(|m: AnthropicMessage| m.role@)
}

/// The number of compression results for the messages before message `i`.
pub open spec fn anthropic_offset(ms: Seq<AnthropicMessage>, i: int) -> int
    decreases i,
{
    if i <= 0 {
        0
    } else {
        anthropic_offset(ms, i - 1) + if message_level(anthropic_roles(ms), i - 1) is Some {
            anthropic_texts(ms[i - 1].content).len() as int
        } else {
            0
        }
    }
}

/// Anthropic message `new` is message `old` compressed at `level`, with the
/// results for its texts at `off..` of `results`: without a level it stays
/// as it is; with one, its role and other fields stay, and each text is
/// replaced by the text of its result.
pub open spec fn anthropic_message_compressed(c: Compressor, old: AnthropicMessage, new: AnthropicMessage,
    level: Option<CompressionLevel>, results: Seq<CompressionResult>, off: int) -> bool
{
    match level {
        None => new == old,
        Some(l) => {
            &&& new.role == old.role
            &&& new.other == old.other
            &&& anthropic_replaced(old.content, new.content, anthropic_texts(new.content))
            &&& anthropic_texts(new.content).len() == anthropic_texts(old.content).len()
            &&& forall|j: int| 0 <= j < anthropic_texts(old.content).len() ==> {
                &&& level_result(c, l, (#[trigger] anthropic_texts(old.content)[j])@, results[off + j])
                &&& anthropic_texts(new.content)[j]@ == results[off + j].text@
            }
        },
    }
}

/// Full compression detects the domain: some message that is fully
/// compressed has a text that is not empty.
pub open spec fn anthropic_detection_needed(ms: Seq<AnthropicMessage>) -> bool {
    exists|i: int, j: int| 0 <= i < ms.len() && message_level(anthropic_roles(ms), i) == Some(CompressionLevel::Normal)
        && 0 <= j < anthropic_texts(ms[i].content).len() && (#[trigger] anthropic_texts(ms[i].content)[j])@.len() > 0
}

fn last_user_message(messages: &Vec<AnthropicMessage>) -> (r: Option<usize>)
    ensures
        r is None <==> last_user_index(anthropic_roles(messages@)) is None,
        r matches Some(i) ==> last_user_index(anthropic_roles(messages@)) == Some(i as int),
{
    let ghost roles = anthropic_roles(messages@);
    let mut j: usize = messages.len();
    proof { assert(roles.subrange(0, j as int) =~= roles); }
    while j > 0
        invariant
            j <= messages@.len(), roles == anthropic_roles(messages@),
            last_user_index(roles.subrange(0, j as int)) == last_user_index(roles),
        decreases j,
    {
        let ghost pre = roles.subrange(0, j as int);
        proof {
            assert(pre.last() == messages@[j - 1].role@);
            assert(pre.drop_last() =~= roles.subrange(0, j - 1));
        }
        if str_eq(messages[j - 1].role.as_str(), "user") {
            return Some(j - 1);
        }
        j = j - 1;
    }
    None
}

/// Whether the messages can be compressed: the domain keywords are all
/// non-empty, or no domain has to be detected.
pub fn anthropic_compressible(compressor: &Compressor, messages: &Vec<AnthropicMessage>) -> (r: bool)
    ensures r == (keywords_nonempty(compressor.domains()) || !anthropic_detection_needed(messages@)),
{
    if compressor.keywords_ready() {
        return true;
    }
    let lu = last_user_message(messages);
    let ghost roles = anthropic_roles(messages@);
    let mut i: usize = 0;
    while i < messages.len()
        invariant
            i <= messages@.len(), roles == anthropic_roles(messages@),
            !keywords_nonempty(compressor.domains()),
            lu is None <==> last_user_index(roles) is None,
            lu matches Some(u) ==> last_user_index(roles) == Some(u as int),
            forall|a: int, b: int| 0 <= a < i && message_level(roles, a) == Some(CompressionLevel::Normal)
                && 0 <= b < anthropic_texts(messages@[a].content).len()
                ==> (#[trigger] anthropic_texts(messages@[a].content)[b])@.len() == 0,
        decreases messages.len() - i,
    {
        proof { assert(roles[i as int] == messages@[i as int].role@); }
        let is_user = str_eq(messages[i].role.as_str(), "user");
        let is_last = match lu { Some(u) => u == i, None => false };
        if is_user && !is_last {
            let texts = messages[i].content.texts();
            proof {
                assert(message_level(roles, i as int) == Some(CompressionLevel::Normal));
                assert(texts@.len() == string_views(texts@).len());
                assert(anthropic_texts(messages@[i as int].content).len()
                    == string_views(anthropic_texts(messages@[i as int].content)).len());
            }
            let mut j: usize = 0;
            while j < texts.len()
                invariant
                    j <= texts@.len(), i < messages@.len(), roles == anthropic_roles(messages@),
                    !keywords_nonempty(compressor.domains()),
                    message_level(roles, i as int) == Some(CompressionLevel::Normal),
                    texts@.len() == anthropic_texts(messages@[i as int].content).len(),
                    string_views(texts@) == string_views(anthropic_texts(messages@[i as int].content)),
                    forall|b: int| 0 <= b < j ==> (#[trigger] anthropic_texts(messages@[i as int].content)[b])@.len() == 0,
                decreases texts.len() - j,
            {
                proof {
                    assert(string_views(texts@)[j as int] == texts@[j as int]@);
                    assert(string_views(anthropic_texts(messages@[i as int].content))[j as int]
                        == anthropic_texts(messages@[i as int].content)[j as int]@);
                }
                if !texts[j].as_str().is_empty() {
                    proof {
                        assert(anthropic_texts(messages@[i as int].content)[j as int]@.len() > 0);
                        assert(anthropic_detection_needed(messages@));
                    }
                    return false;
                }
                j = j + 1;
            }
        }
        i = i + 1;
    }
    true
}

proof fn lemma_anthropic_compressed_intro(c: Compressor, old: AnthropicMessage, new: AnthropicMessage, l: CompressionLevel,
    results: Seq<CompressionResult>, off: int, ts: Seq<String>, nts: Seq<String>)
    requires
        new.role == old.role,
        new.other == old.other,
        ts == anthropic_texts(old.content),
        nts == anthropic_texts(new.content),
        anthropic_replaced(old.content, new.content, nts),
        nts.len() == ts.len(),
        forall|j: int| 0 <= j < ts.len() ==> {
            &&& level_result(c, l, (#[trigger] ts[j])@, results[off + j])
            &&& nts[j]@ == results[off + j].text@
        },
    ensures anthropic_message_compressed(c, old, new, Some(l), results, off),
{
}

proof fn lemma_anthropic_compressed_extend(c: Compressor, old: AnthropicMessage, new: AnthropicMessage,
    level: Option<CompressionLevel>, r1: Seq<CompressionResult>, r2: Seq<CompressionResult>, off: int)
    requires
        anthropic_message_compressed(c, old, new, level, r1, off),
        0 <= off,
        level is Some ==> off + anthropic_texts(old.content).len() <= r1.len(),
        r1.len() <= r2.len(),
        forall|q: int| 0 <= q < r1.len() ==> r2[q] == r1[q],
    ensures anthropic_message_compressed(c, old, new, level, r2, off),
{
    if let Some(l) = level {
        assert forall|j: int| 0 <= j < anthropic_texts(old.content).len() implies {
            &&& level_result(c, l, (#[trigger] anthropic_texts(old.content)[j])@, r2[off + j])
            &&& anthropic_texts(new.content)[j]@ == r2[off + j].text@
        } by {
            assert(r2[off + j] == r1[off + j]);
        }
    }
}

/// A message left as it is by its level keeps its texts, role and other
/// fields.
proof fn lemma_anthropic_skipped_kept(c: Compressor, old: AnthropicMessage, new: AnthropicMessage,
    results: Seq<CompressionResult>, off: int)
    requires anthropic_message_compressed(c, old, new, Some(CompressionLevel::Skip), results, off),
    ensures
        string_views(anthropic_texts(new.content)) == string_views(anthropic_texts(old.content)),
        new.role == old.role,
        new.other == old.other,
{
    assert forall|j: int| 0 <= j < anthropic_texts(old.content).len() implies
        string_views(anthropic_texts(new.content))[j] == string_views(anthropic_texts(old.content))[j] by {
        assert(level_result(c, CompressionLevel::Skip, anthropic_texts(old.content)[j]@, results[off + j]));
    }
    assert(string_views(anthropic_texts(new.content)) =~= string_views(anthropic_texts(old.content)));
}

proof fn lemma_anthropic_offset_mono(ms: Seq<AnthropicMessage>, a: int, b: int)
    requires 0 <= a <= b,
    ensures anthropic_offset(ms, a) <= anthropic_offset(ms, b),
    decreases b - a,
{
    if a < b {
        lemma_anthropic_offset_mono(ms, a, b - 1);
    }
}

/// Compresses the messages of an Anthropic request by role, as chat
/// messages are: the last user message is left as it is, earlier user
/// messages are fully compressed, system messages get the preprocessor
/// alone; assistant messages, and the image and tool blocks of any message,
/// are not touched. Each text of a compressed message is replaced by its
/// result's text; the results come back in message order.
#[verifier::spinoff_prover]
pub fn compress_anthropic_messages(compressor: &Compressor, messages: &mut Vec<AnthropicMessage>) -> (results: Vec<CompressionResult>)
    requires keywords_nonempty(compressor.domains()) || !anthropic_detection_needed(old(messages)@),
    ensures
        final(messages)@.len() == old(messages)@.len(),
        results@.len() == anthropic_offset(old(messages)@, old(messages)@.len() as int),
        forall|i: int| 0 <= i < old(messages)@.len() ==> anthropic_message_compressed(*compressor, old(messages)@[i],
            #[trigger] final(messages)@[i], message_level(anthropic_roles(old(messages)@), i), results@,
            anthropic_offset(old(messages)@, i)),
        forall|i: int| #[trigger] is_last_user(anthropic_roles(old(messages)@), i) ==> {
            &&& string_views(anthropic_texts(final(messages)@[i].content)) == string_views(anthropic_texts(old(messages)@[i].content))
            &&& final(messages)@[i].role == old(messages)@[i].role
            &&& final(messages)@[i].other == old(messages)@[i].other
        },
        forall|i: int| 0 <= i < old(messages)@.len() && old(messages)@[i].role@ != "user"@
            && old(messages)@[i].role@ != "system"@ ==> #[trigger] final(messages)@[i] == old(messages)@[i],
{
    let ghost om = messages@;
    let ghost roles = anthropic_roles(om);
    let lu = last_user_message(messages);
    let n = messages.len();
    let mut results: Vec<CompressionResult> = Vec::new();
    let mut i: usize = 0;
    while i < n
        invariant
            i <= n, n == om.len(), messages@.len() == n, roles == anthropic_roles(om),
            keywords_nonempty(compressor.domains()) || !anthropic_detection_needed(om),
            lu is None <==> last_user_index(roles) is None,
            lu matches Some(u) ==> last_user_index(roles) == Some(u as int),
            forall|a: int| i <= a < n ==> messages@[a] == om[a],
            results@.len() == anthropic_offset(om, i as int),
            forall|a: int| 0 <= a < i ==> anthropic_message_compressed(*compressor, om[a], #[trigger] messages@[a],
                message_level(roles, a), results@, anthropic_offset(om, a)),
        decreases n - i,
    {
        proof { assert(roles[i as int] == om[i as int].role@); }
        let is_user = str_eq(messages[i].role.as_str(), "user");
        let is_system = str_eq(messages[i].role.as_str(), "system");
        let is_last = match lu { Some(u) => u == i, None => false };
        let level = if is_user {
            if is_last { Some(CompressionLevel::Skip) } else { Some(CompressionLevel::Normal) }
        } else if is_system {
            Some(CompressionLevel::Light)
        } else {
            None
        };
        proof { assert(level == message_level(roles, i as int)); }
        let ghost start = results@.len();
        let ghost before = results@;
        match level {
            None => {},
            Some(l) => {
                let texts = messages[i].content.texts();
                let ghost ct = anthropic_texts(om[i as int].content);
                proof {
                    assert(texts@.len() == string_views(texts@).len());
                    assert(ct.len() == string_views(ct).len());
                }
                let mut new_texts: Vec<String> = Vec::new();
                let mut j: usize = 0;
                while j < texts.len()
                    invariant
                        j <= texts@.len(), string_views(texts@) == string_views(ct), texts@.len() == ct.len(),
                        ct == anthropic_texts(om[i as int].content),
                        i < n, n == om.len(), roles == anthropic_roles(om),
                        message_level(roles, i as int) == Some(l),
                        keywords_nonempty(compressor.domains()) || !anthropic_detection_needed(om),
                        results@.len() == start + j, new_texts@.len() == j,
                        forall|q: int| 0 <= q < start ==> results@[q] == before[q],
                        forall|q: int| 0 <= q < j ==> {
                            &&& level_result(*compressor, l, (#[trigger] ct[q])@, results@[start + q])
                            &&& new_texts@[q]@ == results@[start + q].text@
                        },
                    decreases texts.len() - j,
                {
                    proof {
                        assert(string_views(texts@)[j as int] == texts@[j as int]@);
                        assert(string_views(ct)[j as int] == ct[j as int]@);
                        if l == CompressionLevel::Normal && !keywords_nonempty(compressor.domains()) && texts@[j as int]@.len() > 0 {
                            assert(anthropic_texts(om[i as int].content)[j as int]@.len() > 0);
                            assert(anthropic_detection_needed(om));
                        }
                    }
                    let r = compressor.compress_with_level(texts[j].as_str(), None, l);
                    new_texts.push(copy_string(&r.text));
                    results.push(r);
                    j = j + 1;
                }
                let ghost nt = new_texts@;
                let ghost mid = messages@;
                messages[i].content.set_texts(new_texts);
                proof {
                    lemma_anthropic_replaced(om[i as int].content, messages@[i as int].content, nt);
                    assert forall|a: int| 0 <= a < n && a != i implies messages@[a] == mid[a] by {}
                    let off = start as int;
                    assert(anthropic_texts(messages@[i as int].content) == nt);
                    assert forall|q: int| 0 <= q < ct.len() implies {
                        &&& level_result(*compressor, l, (#[trigger] ct[q])@, results@[off + q])
                        &&& nt[q]@ == results@[off + q].text@
                    } by {
                        assert(q < j);
                        assert(level_result(*compressor, l, ct[q]@, results@[start + q]));
                        assert(nt[q]@ == results@[start + q].text@);
                        assert(off + q == start + q);
                    }
                    assert(messages@[i as int].role == om[i as int].role);
                    assert(messages@[i as int].other == om[i as int].other);
                    assert(anthropic_replaced(om[i as int].content, messages@[i as int].content, nt));
                    assert(nt.len() == ct.len());
                    lemma_anthropic_compressed_intro(*compressor, om[i as int], messages@[i as int], l, results@, off, ct, nt);
                }
            },
        }
        proof {
            assert(anthropic_offset(om, i + 1) == anthropic_offset(om, i as int) + if message_level(roles, i as int) is Some {
                anthropic_texts(om[i as int].content).len() as int } else { 0 });
            assert forall|a: int| 0 <= a < i + 1 implies anthropic_message_compressed(*compressor, om[a], #[trigger] messages@[a],
                message_level(roles, a), results@, anthropic_offset(om, a)) by {
                if a < i {
                    lemma_anthropic_offset_mono(om, a + 1, i as int);
                    lemma_anthropic_offset_mono(om, 0, a);
                    lemma_anthropic_compressed_extend(*compressor, om[a], messages@[a], message_level(roles, a),
                        before, results@, anthropic_offset(om, a));
                }
            }
        }
        i = i + 1;
    }
    proof {
        assert forall|k: int| #[trigger] is_last_user(anthropic_roles(om), k) implies {
            &&& string_views(anthropic_texts(messages@[k].content)) == string_views(anthropic_texts(om[k].content))
            &&& messages@[k].role == om[k].role
            &&& messages@[k].other == om[k].other
        } by {
            lemma_last_user_is(roles, k);
            assert(roles[k] == om[k].role@);
            assert(message_level(roles, k) == Some(CompressionLevel::Skip));
            lemma_anthropic_skipped_kept(*compressor, om[k], messages@[k], results@, anthropic_offset(om, k));
        }
        assert forall|k: int| 0 <= k < om.len() && om[k].role@ != "user"@ && om[k].role@ != "system"@
            implies #[trigger] messages@[k] == om[k] by {
            assert(roles[k] == om[k].role@);
            assert(message_level(roles, k) is None);
        }
    }
    results
}

/// Compresses the system prompt of an Anthropic request lightly (the
/// preprocessor alone), as system messages are: each of its texts is
/// replaced by the text of its result, in order; the results come back in
/// the same order. Without a system prompt nothing happens.
pub fn compress_system_prompt(compressor: &Compressor, system: &mut Option<SystemPrompt>) -> (results: Vec<CompressionResult>)
    ensures
        match *old(system) {
            None => *final(system) is None && results@.len() == 0,
            Some(p) => {
                &&& *final(system) matches Some(q)
                &&& system_replaced(p, q, system_texts(q))
                &&& results@.len() == system_texts(p).len()
                &&& system_texts(q).len() == system_texts(p).len()
                &&& forall|j: int| 0 <= j < system_texts(p).len() ==> {
                    &&& #[trigger] compressor.light_result(system_texts(p)[j]@, results@[j])
                    &&& system_texts(q)[j]@ == results@[j].text@
                }
            },
        },
{
    match system {
        None => Vec::new(),
        Some(p) => {
            let ghost op = *p;
            let texts = p.texts();
            let ghost ct = system_texts(op);
            proof {
                assert(texts@.len() == string_views(texts@).len());
                assert(ct.len() == string_views(ct).len());
            }
            let mut results: Vec<CompressionResult> = Vec::new();
            let mut new_texts: Vec<String> = Vec::new();
            let mut j: usize = 0;
            while j < texts.len()
                invariant
                    j <= texts@.len(), string_views(texts@) == string_views(ct), texts@.len() == ct.len(),
                    results@.len() == j, new_texts@.len() == j,
                    forall|q: int| 0 <= q < j ==> {
                        &&& #[trigger] compressor.light_result(ct[q]@, results@[q])
                        &&& new_texts@[q]@ == results@[q].text@
                    },
                decreases texts.len() - j,
            {
                proof {
                    assert(string_views(texts@)[j as int] == texts@[j as int]@);
                    assert(string_views(ct)[j as int] == ct[j as int]@);
                }
                let r = compressor.compress_with_level(texts[j].as_str(), None, CompressionLevel::Light);
                new_texts.push(copy_string(&r.text));
                results.push(r);
                j = j + 1;
            }
            let ghost nt = new_texts@;
            p.set_texts(new_texts);
            proof {
                lemma_system_replaced(op, *p, nt);
            }
            results
        },
    }
}

} // verus!

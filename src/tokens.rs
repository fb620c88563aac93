use vstd::prelude::*;

use crate::message::{messages_view, role_name, role_to_str, ChatMessage, Role};

verus! {

/// The model's context window: prompt and reply together hold at most this
/// many tokens.
pub const MAX_TOKENS: u64 = 4095;

/// The longest text, in characters, that is handed to the tokenizer. Its
/// regex engine keeps a backtracking stack that grows by one entry per
/// character of a whitespace run and fails past a million entries; texts up
/// to this length stay well under that. No cl100k_base token is longer than
/// 128 bytes, so a text past this length takes more than `MAX_TOKENS` tokens
/// and could not fit the context window anyway.
pub const COUNT_LIMIT: usize = 524160;

/// The number of tokens the cl100k_base encoding gives a text.
pub uninterp spec fn cl100k_token_count(text: Seq<char>) -> nat;

/// Relies on tiktoken_rs::cl100k_base_singleton and
/// CoreBPE::encode_with_special_tokens: the number of tokens of a text in
/// the cl100k_base encoding, special tokens included. The singleton is built
/// once from tables compiled into tiktoken_rs. The encoder unwraps its regex
/// matcher's results, which fail only past the matcher's stack limit; the
/// bound on the text's length keeps it below that.
#[verifier::external_body]
fn count_tokens(text: &str) -> (r: usize)
    requires
        text@.len() <= COUNT_LIMIT,
    ensures
        r == cl100k_token_count(text@),
{
    tiktoken_rs::cl100k_base_singleton().lock().encode_with_special_tokens(text).len()
}

/// The tokens a request takes: three for the request, and for each message
/// four more besides the tokens of its role name and of its content.
pub open spec fn prompt_tokens(msgs: Seq<(Role, Seq<char>)>) -> nat
    decreases msgs.len(),
{
    if msgs.len() == 0 {
        3
    } else {
        prompt_tokens(msgs.drop_last()) + 4 + cl100k_token_count(role_name(msgs.last().0))
            + cl100k_token_count(msgs.last().1)
    }
}

/// The tokens a request takes, given for each message the token counts of
/// its role name and of its content.
pub open spec fn tokens_of_counts(counts: Seq<(usize, usize)>) -> nat
    decreases counts.len(),
{
    if counts.len() == 0 {
        3
    } else {
        tokens_of_counts(counts.drop_last()) + 4 + counts.last().0 as nat + counts.last().1 as nat
    }
}

/// The token counts of each message's role name and content.
pub open spec fn counts_match(counts: Seq<(usize, usize)>, msgs: Seq<(Role, Seq<char>)>) -> bool {
    &&& counts.len() == msgs.len()
    &&& forall|i: int|
        0 <= i < msgs.len() ==> #[trigger] counts[i] == (
            cl100k_token_count(role_name(msgs[i].0)) as usize,
            cl100k_token_count(msgs[i].1) as usize,
        ) && cl100k_token_count(role_name(msgs[i].0)) <= usize::MAX && cl100k_token_count(
            msgs[i].1,
        ) <= usize::MAX
}

proof fn lemma_counts_give_prompt_tokens(counts: Seq<(usize, usize)>, msgs: Seq<(Role, Seq<char>)>)
    requires
        counts_match(counts, msgs),
    ensures
        tokens_of_counts(counts) == prompt_tokens(msgs),
    decreases msgs.len(),
{
    if msgs.len() > 0 {
        let (c, m) = (counts.drop_last(), msgs.drop_last());
        assert forall|i: int| 0 <= i < m.len() implies #[trigger] c[i] == (
            cl100k_token_count(role_name(m[i].0)) as usize,
            cl100k_token_count(m[i].1) as usize,
        ) && cl100k_token_count(role_name(m[i].0)) <= usize::MAX && cl100k_token_count(m[i].1)
            <= usize::MAX by {
            assert(c[i] == counts[i]);
            assert(m[i] == msgs[i]);
        }
        lemma_counts_give_prompt_tokens(c, m);
        assert(counts[counts.len() - 1] == counts.last());
    }
}

proof fn lemma_tokens_of_counts_grow(counts: Seq<(usize, usize)>, i: int)
    requires
        0 <= i <= counts.len(),
    ensures
        tokens_of_counts(counts.take(i)) <= tokens_of_counts(counts),
    decreases counts.len(),
{
    if i < counts.len() {
        assert(counts.drop_last().take(i) =~= counts.take(i));
        lemma_tokens_of_counts_grow(counts.drop_last(), i);
    } else {
        assert(counts.take(i) =~= counts);
    }
}

/// The tokens a request takes, from each message's (role, content) token
/// counts, if the total fits in a `u64`.
pub fn total_tokens(counts: &Vec<(usize, usize)>) -> (r: Option<u64>)
    ensures
        r == (if tokens_of_counts(counts@) <= u64::MAX {
            Some(tokens_of_counts(counts@) as u64)
        } else {
            None
        }),
{
    let mut total: u64 = 3;
    let mut i: usize = 0;
    assert(counts@.take(0) =~= Seq::<(usize, usize)>::empty());
    while i < counts.len()
        invariant
            i <= counts@.len(),
            total == tokens_of_counts(counts@.take(i as int)),
        decreases counts@.len() - i,
    {
        let (role_count, content_count) = counts[i];
        proof {
            assert(counts@.take(i + 1).drop_last() =~= counts@.take(i as int));
            lemma_tokens_of_counts_grow(counts@, i + 1);
        }
        let next = match total.checked_add(4) {
            Some(t) => match t.checked_add(role_count as u64) {
                Some(t) => t.checked_add(content_count as u64),
                None => None,
            },
            None => None,
        };
        match next {
            Some(t) => {
                total = t;
            },
            None => {
                return None;
            },
        }
        i = i + 1;
    }
    assert(counts@.take(i as int) =~= counts@);
    Some(total)
}

/// Every message's content is short enough to be counted.
pub open spec fn countable(msgs: Seq<(Role, Seq<char>)>) -> bool {
    forall|i: int| 0 <= i < msgs.len() ==> (#[trigger] msgs[i]).1.len() <= COUNT_LIMIT
}

/// The request can be counted and leaves room for a reply in the model's
/// context window.
pub open spec fn fits_window(msgs: Seq<(Role, Seq<char>)>) -> bool {
    countable(msgs) && prompt_tokens(msgs) <= MAX_TOKENS
}

proof fn lemma_role_names_short(role: Role)
    ensures
        role_name(role).len() <= COUNT_LIMIT,
{
    reveal_strlit("system");
    reveal_strlit("user");
    reveal_strlit("assistant");
}

/// The token count of a request, if every message is short enough to be
/// counted and the total fits in a `u64`.
pub fn num_tokens(msgs: &Vec<ChatMessage>) -> (r: Option<u64>)
    ensures
        r == (if countable(messages_view(msgs@)) && prompt_tokens(messages_view(msgs@))
            <= u64::MAX {
            Some(prompt_tokens(messages_view(msgs@)) as u64)
        } else {
            None
        }),
{
    let ghost mv = messages_view(msgs@);
    let mut counts: Vec<(usize, usize)> = Vec::new();
    let mut i: usize = 0;
    while i < msgs.len()
        invariant
            i <= msgs@.len(),
            mv == messages_view(msgs@),
            counts_match(counts@, mv.take(i as int)),
            countable(mv.take(i as int)),
        decreases msgs@.len() - i,
    {
        let m = &msgs[i];
        proof {
            assert(mv[i as int] == m@);
            lemma_role_names_short(m.role);
        }
        if m.content.as_str().unicode_len() > COUNT_LIMIT {
            assert(!countable(mv));
            return None;
        }
        let role_count = count_tokens(role_to_str(&m.role));
        let content_count = count_tokens(m.content.as_str());
        let ghost before = counts@;
        counts.push((role_count, content_count));
        proof {
            assert(mv[i as int] == m@);
            let next = mv.take(i + 1);
            assert forall|j: int| 0 <= j < next.len() implies #[trigger] counts@[j] == (
                cl100k_token_count(role_name(next[j].0)) as usize,
                cl100k_token_count(next[j].1) as usize,
            ) && cl100k_token_count(role_name(next[j].0)) <= usize::MAX && cl100k_token_count(
                next[j].1,
            ) <= usize::MAX by {
                if j < i {
                    assert(counts@[j] == before[j]);
                    assert(next[j] == mv.take(i as int)[j]);
                }
            }
            assert forall|j: int| 0 <= j < next.len() implies (#[trigger] next[j]).1.len()
                <= COUNT_LIMIT by {
                if j < i {
                    assert(next[j] == mv.take(i as int)[j]);
                }
            }
        }
        i = i + 1;
    }
    assert(mv.take(i as int) =~= mv);
    proof {
        lemma_counts_give_prompt_tokens(counts@, mv);
    }
    total_tokens(&counts)
}

/// The most tokens a reply may take after a prompt of `prompt_tokens`
/// tokens, or `None` when the prompt alone does not fit.
pub fn response_budget(prompt_tokens: u64) -> (r: Option<u64>)
    ensures
        r == (if prompt_tokens <= MAX_TOKENS {
            Some((MAX_TOKENS - prompt_tokens) as u64)
        } else {
            None
        }),
        r matches Some(m) ==> m + prompt_tokens == MAX_TOKENS,
{
    if prompt_tokens <= MAX_TOKENS {
        Some(MAX_TOKENS - prompt_tokens)
    } else {
        None
    }
}

} // verus!

use vstd::prelude::*;

use crate::cache::{
    cache_entries_from_json, cache_json_of, keys_unique, lemma_cache_entries_ordered, sorted_by_key,
    Cache, CacheKey, KeyView,
};
use crate::message::{
    build_messages, cache_key, key_of, messages_for, messages_view, person_at, turns_view,
    ChatMessage, Person, Role, Turn,
};
use crate::tokens::{fits_window, num_tokens, prompt_tokens, response_budget, MAX_TOKENS};

verus! {

/// The chat model every request names.
pub const MODEL: &'static str = "gpt-3.5-turbo";

/// A request sent to the chat endpoint, whose reply has not come yet.
struct Pending {
    key: CacheKey,
    prompt_tokens: u64,
}

/// What the chat endpoint is to be asked for the next turn.
#[derive(Debug, PartialEq, Eq)]
pub struct Request {
    pub messages: Vec<ChatMessage>,
    /// The most tokens the reply may take.
    pub max_tokens: u64,
    /// The tokens the messages take, as counted here.
    pub prompt_tokens: u64,
}

/// The outcome of starting a turn.
#[derive(Debug, PartialEq, Eq)]
pub enum Step {
    /// The cache held the reply; the turn is taken.
    Cached(String),
    /// The reply must come from the chat endpoint; hand it to `complete`.
    Ask(Request),
}

#[derive(Debug, PartialEq, Eq, Structural)]
pub enum DebateError {
    /// The request alone takes more tokens than the model's context window,
    /// or holds a message too long to be counted.
    PromptTooLong,
    /// The endpoint counted the prompt's tokens otherwise than this library.
    TokenMismatch { computed: u64, reported: u64 },
    /// A reply came while no request was waiting for one.
    NoPendingRequest,
}

/// Two personas that take turns, A first, each seeing the transcript from
/// its own side.
pub struct Debate {
    cache: Cache,
    instruction_a: String,
    instruction_b: String,
    dialogue: Vec<Turn>,
    pending: Option<Pending>,
}

/// Every turn is by the other persona than the turn before, and the first is
/// by A.
pub open spec fn alternates(dialogue: Seq<(Person, Seq<char>)>) -> bool {
    &&& dialogue.len() > 0 ==> dialogue[0].0 == Person::A
    &&& forall|i: int| 0 < i < dialogue.len() ==> #[trigger] dialogue[i].0 != dialogue[i - 1].0
}

impl Debate {
    pub closed spec fn cache(&self) -> Cache {
        self.cache
    }

    pub closed spec fn instruction_a(&self) -> Seq<char> {
        self.instruction_a@
    }

    pub closed spec fn instruction_b(&self) -> Seq<char> {
        self.instruction_b@
    }

    /// The transcript so far.
    pub closed spec fn dialogue_view(&self) -> Seq<(Person, Seq<char>)> {
        turns_view(self.dialogue@)
    }

    /// The cache key and token count of the request waiting for its reply.
    pub closed spec fn pending_request(&self) -> Option<(KeyView, u64)> {
        match self.pending {
            Some(p) => Some((p.key.deep_view(), p.prompt_tokens)),
            None => None,
        }
    }

    /// A speaks first and after B; B after A.
    pub open spec fn next_speaker(&self) -> Person {
        if self.dialogue_view().len() == 0 || self.dialogue_view().last().0 == Person::B {
            Person::A
        } else {
            Person::B
        }
    }

    /// The request for the next turn.
    pub open spec fn turn_messages(&self) -> Seq<(Role, Seq<char>)> {
        messages_for(
            self.instruction_a(),
            self.instruction_b(),
            self.dialogue_view(),
            self.next_speaker(),
        )
    }

    /// The cache key of the request for the next turn.
    pub open spec fn turn_key(&self) -> KeyView {
        key_of(self.turn_messages())
    }

    /// The cache's map once `text` is taken in as the reply to the next
    /// turn: a cache with a file stores it, one without stays as it was.
    pub open spec fn cache_after_reply(&self, text: Seq<char>) -> Map<KeyView, Seq<char>> {
        if self.cache().file() is Some {
            self.cache()@.insert(self.turn_key(), text)
        } else {
            self.cache()@
        }
    }

    pub closed spec fn wf(&self) -> bool {
        &&& self.cache.wf()
        &&& alternates(self.dialogue_view())
        &&& self.pending matches Some(p) ==> {
            &&& p.key.deep_view() == self.turn_key()
            &&& p.prompt_tokens == prompt_tokens(self.turn_messages())
        }
    }

    /// A debate with an empty transcript between personas with the given
    /// instructions, whose replies are looked up in and stored to `cache`.
    pub fn new(instruction_a: String, instruction_b: String, cache: Cache) -> (r: Debate)
        requires
            cache.wf(),
        ensures
            r.wf(),
            r.instruction_a() == instruction_a@,
            r.instruction_b() == instruction_b@,
            r.dialogue_view() == Seq::<(Person, Seq<char>)>::empty(),
            r.cache() == cache,
            r.pending_request() is None,
    {
        let r = Debate { cache, instruction_a, instruction_b, dialogue: Vec::new(), pending: None };
        assert(r.dialogue_view() =~= Seq::<(Person, Seq<char>)>::empty());
        r
    }

    /// The transcript so far.
    pub fn dialogue(&self) -> (r: &Vec<Turn>)
        ensures
            turns_view(r@) == self.dialogue_view(),
    {
        &self.dialogue
    }

    /// The persona whose turn it is.
    pub fn next_person(&self) -> (r: Person)
        ensures
            r == self.next_speaker(),
    {
        if self.dialogue.len() == 0 {
            Person::A
        } else if self.dialogue[self.dialogue.len() - 1].person == Person::B {
            Person::A
        } else {
            Person::B
        }
    }

    /// The request for the next turn.
    pub fn messages(&self) -> (r: Vec<ChatMessage>)
        ensures
            messages_view(r@) == self.turn_messages(),
    {
        let person = self.next_person();
        build_messages(self.instruction_a.as_str(), self.instruction_b.as_str(), &self.dialogue, person)
    }

    fn take_turn(&mut self, text: String)
        requires
            old(self).wf(),
        ensures
            final(self).wf(),
            final(self).dialogue_view() == old(self).dialogue_view().push(
                (old(self).next_speaker(), text@),
            ),
            final(self).cache() == old(self).cache(),
            final(self).instruction_a() == old(self).instruction_a(),
            final(self).instruction_b() == old(self).instruction_b(),
            final(self).pending_request() is None,
    {
        let person = self.next_person();
        let ghost before = self.dialogue_view();
        self.dialogue.push(Turn { person, text });
        self.pending = None;
        assert(self.dialogue_view() =~= before.push((person, text@)));
        assert(alternates(self.dialogue_view())) by {
            assert forall|i: int| 0 < i < self.dialogue_view().len() implies #[trigger] self.dialogue_view()[i].0
                != self.dialogue_view()[i - 1].0 by {
                if i < before.len() {
                    assert(self.dialogue_view()[i] == before[i]);
                    assert(self.dialogue_view()[i - 1] == before[i - 1]);
                } else {
                    assert(self.dialogue_view()[i - 1] == before.last());
                }
            }
        }
    }

    /// Starts the next turn. A reply the cache holds for its request is taken
    /// as the turn at once; otherwise the request is returned, to be sent to
    /// the chat endpoint and its reply handed to `complete`.
    pub fn advance(&mut self) -> (r: Result<Step, DebateError>)
        requires
            old(self).wf(),
        ensures
            final(self).wf(),
            final(self).cache() == old(self).cache(),
            final(self).instruction_a() == old(self).instruction_a(),
            final(self).instruction_b() == old(self).instruction_b(),
            old(self).cache()@.contains_key(old(self).turn_key()) ==> {
                &&& r matches Ok(Step::Cached(text)) && text@ == old(self).cache()@[old(
                    self,
                ).turn_key()]
                &&& final(self).dialogue_view() == old(self).dialogue_view().push(
                    (old(self).next_speaker(), old(self).cache()@[old(self).turn_key()]),
                )
                &&& final(self).pending_request() is None
            },
            !old(self).cache()@.contains_key(old(self).turn_key()) ==> {
                &&& final(self).dialogue_view() == old(self).dialogue_view()
                &&& !fits_window(old(self).turn_messages()) ==> {
                    &&& r == Err::<Step, DebateError>(DebateError::PromptTooLong)
                    &&& final(self).pending_request() is None
                }
                &&& fits_window(old(self).turn_messages()) ==> {
                    &&& r matches Ok(Step::Ask(req)) && {
                        &&& messages_view(req.messages@) == old(self).turn_messages()
                        &&& req.prompt_tokens == prompt_tokens(old(self).turn_messages())
                        &&& req.max_tokens + req.prompt_tokens == MAX_TOKENS
                    }
                    &&& final(self).pending_request() == Some(
                        (old(self).turn_key(), prompt_tokens(old(self).turn_messages()) as u64),
                    )
                }
            },
    {
        self.pending = None;
        let messages = self.messages();
        let key = cache_key(&messages);
        match self.cache.get(&key) {
            Some(text) => {
                let reply = text.clone();
                self.take_turn(text);
                Ok(Step::Cached(reply))
            },
            None => {
                let counted = num_tokens(&messages);
                let tokens = match counted {
                    Some(t) => t,
                    None => {
                        return Err(DebateError::PromptTooLong);
                    },
                };
                match response_budget(tokens) {
                    Some(max_tokens) => {
                        self.pending = Some(Pending { key, prompt_tokens: tokens });
                        Ok(Step::Ask(Request { messages, max_tokens, prompt_tokens: tokens }))
                    },
                    None => Err(DebateError::PromptTooLong),
                }
            },
        }
    }

    /// Takes `text`, the endpoint's reply to the waiting request, as the next
    /// turn, after checking that the endpoint counted the prompt's tokens as
    /// this library did. The reply is stored in the cache; the result is what
    /// must then be written, as (path, text), for the cache's file to hold
    /// the cache.
    pub fn complete(&mut self, text: String, reported_prompt_tokens: u64) -> (r: Result<
        Option<(String, String)>,
        DebateError,
    >)
        requires
            old(self).wf(),
        ensures
            final(self).wf(),
            final(self).instruction_a() == old(self).instruction_a(),
            final(self).instruction_b() == old(self).instruction_b(),
            match old(self).pending_request() {
                None => r == Err::<Option<(String, String)>, DebateError>(
                    DebateError::NoPendingRequest,
                ) && *final(self) == *old(self),
                Some((_, computed)) => if computed != reported_prompt_tokens {
                    r == Err::<Option<(String, String)>, DebateError>(
                        DebateError::TokenMismatch { computed, reported: reported_prompt_tokens },
                    ) && *final(self) == *old(self)
                } else {
                    &&& final(self).dialogue_view() == old(self).dialogue_view().push(
                        (old(self).next_speaker(), text@),
                    )
                    &&& final(self).cache()@ == old(self).cache_after_reply(text@)
                    &&& final(self).cache().file() == old(self).cache().file()
                    &&& !final(self).cache().is_updated()
                    &&& final(self).pending_request() is None
                    &&& r matches Ok(write) && match write {
                        Some((path, json)) => {
                            &&& old(self).cache().file() == Some(path@)
                            &&& json@ == cache_json_of(final(self).cache().entries_view())
                            &&& cache_entries_from_json(json@) == Some(
                                final(self).cache().entries_view(),
                            )
                            &&& keys_unique(final(self).cache().entries_view())
                            &&& sorted_by_key(final(self).cache().entries_view())
                        },
                        None => old(self).cache().file() is None,
                    }
                },
            },
    {
        let pending = match self.pending.take() {
            Some(p) => p,
            None => {
                return Err(DebateError::NoPendingRequest);
            },
        };
        let computed = pending.prompt_tokens;
        if computed != reported_prompt_tokens {
            self.pending = Some(pending);
            return Err(
                DebateError::TokenMismatch { computed, reported: reported_prompt_tokens },
            );
        }
        let key = pending.key;
        let reply = text.clone();
        self.cache.insert(key, reply);
        let write = self.cache.save();
        self.take_turn(text);
        proof {
            lemma_cache_entries_ordered(self.cache);
        }
        Ok(write)
    }
}

proof fn lemma_alternates_by_parity(dialogue: Seq<(Person, Seq<char>)>, i: int)
    requires
        alternates(dialogue),
        0 <= i < dialogue.len(),
    ensures
        dialogue[i].0 == person_at(i),
    decreases i,
{
    if i > 0 {
        lemma_alternates_by_parity(dialogue, i - 1);
        assert(dialogue[i].0 != dialogue[i - 1].0);
    }
}

/// Turns alternate A, B, A, B, ... from the first: the turn at position `i`
/// is by A exactly when `i` is even, and the next turn goes to the persona
/// that position `len` calls for.
pub proof fn lemma_turns_alternate(debate: Debate)
    requires
        debate.wf(),
    ensures
        forall|i: int|
            0 <= i < debate.dialogue_view().len() ==> #[trigger] debate.dialogue_view()[i].0
                == person_at(i),
        debate.next_speaker() == person_at(debate.dialogue_view().len() as int),
{
    let d = debate.dialogue_view();
    assert forall|i: int| 0 <= i < d.len() implies #[trigger] d[i].0 == person_at(i) by {
        lemma_alternates_by_parity(d, i);
    }
    if d.len() > 0 {
        lemma_alternates_by_parity(d, d.len() - 1);
    }
}

/// The request for a turn depends on the two instructions and the
/// transcript alone: debates that agree on them build the same messages and
/// so the same cache key.
pub proof fn lemma_request_is_deterministic(d1: Debate, d2: Debate)
    requires
        d1.instruction_a() == d2.instruction_a(),
        d1.instruction_b() == d2.instruction_b(),
        d1.dialogue_view() == d2.dialogue_view(),
    ensures
        d1.next_speaker() == d2.next_speaker(),
        d1.turn_messages() == d2.turn_messages(),
        d1.turn_key() == d2.turn_key(),
{
}

/// Once a reply to a turn is taken in by a debate whose cache has a file,
/// a debate with the same instructions, the same transcript and that cache
/// finds the reply in the cache: asking again gives the same text without a
/// new request.
pub proof fn lemma_stored_reply_is_replayed(before: Debate, again: Debate, text: Seq<char>)
    requires
        before.wf(),
        before.cache().file() is Some,
        again.instruction_a() == before.instruction_a(),
        again.instruction_b() == before.instruction_b(),
        again.dialogue_view() == before.dialogue_view(),
        again.cache()@ == before.cache_after_reply(text),
    ensures
        again.turn_key() == before.turn_key(),
        again.cache()@.contains_key(again.turn_key()),
        again.cache()@[again.turn_key()] == text,
{
}

} // verus!

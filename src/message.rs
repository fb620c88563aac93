use vstd::prelude::*;

verus! {

/// The system message that opens every request.
pub const SYSTEM_PROMPT: &'static str = "You are a helpful assitant.";

/// The author of a chat message as the chat endpoint sees it.
#[derive(Clone, Copy, Debug, PartialEq, Eq, Structural)]
pub enum Role {
    System,
    User,
    Assistant,
}

/// The wire name of a role.
pub open spec fn role_name(role: Role) -> Seq<char> {
    match role {
        Role::System => "system"@,
        Role::User => "user"@,
        Role::Assistant => "assistant"@,
    }
}

pub fn role_to_str(role: &Role) -> (r: &'static str)
    ensures
        r@ == role_name(*role),
{
    match role {
        Role::System => "system",
        Role::User => "user",
        Role::Assistant => "assistant",
    }
}

/// One message of a chat request.
#[derive(Debug, PartialEq, Eq)]
pub struct ChatMessage {
    pub role: Role,
    pub content: String,
}

impl View for ChatMessage {
    type V = (Role, Seq<char>);

    open spec fn view(&self) -> (Role, Seq<char>) {
        (self.role, self.content@)
    }
}

fn message(role: Role, s: &str) -> (r: ChatMessage)
    ensures
        r@ == (role, s@),
{
    ChatMessage { role, content: s.to_owned() }
}

pub fn system(s: &str) -> (r: ChatMessage)
    ensures
        r@ == (Role::System, s@),
{
    message(Role::System, s)
}

pub fn user(s: &str) -> (r: ChatMessage)
    ensures
        r@ == (Role::User, s@),
{
    message(Role::User, s)
}

pub fn assistant(s: &str) -> (r: ChatMessage)
    ensures
        r@ == (Role::Assistant, s@),
{
    message(Role::Assistant, s)
}

/// One of the two debating personas.
#[derive(Clone, Copy, Debug, PartialEq, Eq, Structural)]
pub enum Person {
    A,
    B,
}

/// The persona who speaks at position `i` of a transcript that starts with A.
pub open spec fn person_at(i: int) -> Person {
    if i % 2 == 0 {
        Person::A
    } else {
        Person::B
    }
}

/// One reply in the transcript, with the persona who gave it.
#[derive(Debug, PartialEq, Eq)]
pub struct Turn {
    pub person: Person,
    pub text: String,
}

impl View for Turn {
    type V = (Person, Seq<char>);

    open spec fn view(&self) -> (Person, Seq<char>) {
        (self.person, self.text@)
    }
}

/// A transcript as a sequence of (persona, text) pairs.
pub open spec fn turns_view(turns: Seq<Turn>) -> Seq<(Person, Seq<char>)> {
    turns.map_values(|t: Turn| t@)
}

/// How a past turn reads to `person`: its own replies are the assistant's,
/// the opponent's are the user's.
pub open spec fn as_seen_by(turn: (Person, Seq<char>), person: Person) -> (Role, Seq<char>) {
    if turn.0 == person {
        (Role::Assistant, turn.1)
    } else {
        (Role::User, turn.1)
    }
}

/// The full request for `person`'s next reply: the system message, the
/// persona's instruction as a user message, then the transcript as that
/// persona sees it.
pub open spec fn messages_for(
    instruction_a: Seq<char>,
    instruction_b: Seq<char>,
    dialogue: Seq<(Person, Seq<char>)>,
    person: Person,
) -> Seq<(Role, Seq<char>)> {
    seq![
        (Role::System, SYSTEM_PROMPT@),
        (Role::User, if person == Person::A { instruction_a } else { instruction_b }),
    ] + dialogue.map_values(|t: (Person, Seq<char>)| as_seen_by(t, person))
}

pub open spec fn messages_view(msgs: Seq<ChatMessage>) -> Seq<(Role, Seq<char>)> {
    msgs.map_values(|m: ChatMessage| m@)
}

/// Builds the request for `person`'s next reply over `dialogue`.
pub fn build_messages(
    instruction_a: &str,
    instruction_b: &str,
    dialogue: &Vec<Turn>,
    person: Person,
) -> (r: Vec<ChatMessage>)
    ensures
        messages_view(r@) == messages_for(
            instruction_a@,
            instruction_b@,
            turns_view(dialogue@),
            person,
        ),
{
    let m1 = system(SYSTEM_PROMPT);
    let m2 = user(
        if person == Person::A {
            instruction_a
        } else {
            instruction_b
        },
    );
    let mut v: Vec<ChatMessage> = vec![m1, m2];
    let ghost head = seq![
        (Role::System, SYSTEM_PROMPT@),
        (Role::User, if person == Person::A { instruction_a@ } else { instruction_b@ }),
    ];
    let ghost seen = turns_view(dialogue@).map_values(
        |t: (Person, Seq<char>)| as_seen_by(t, person),
    );
    assert(messages_view(v@) =~= head);
    let mut i: usize = 0;
    while i < dialogue.len()
        invariant
            i <= dialogue@.len(),
            seen == turns_view(dialogue@).map_values(
                |t: (Person, Seq<char>)| as_seen_by(t, person),
            ),
            messages_view(v@) =~= head + seen.take(i as int),
        decreases dialogue@.len() - i,
    {
        let t = &dialogue[i];
        let m = if t.person != person {
            user(t.text.as_str())
        } else {
            assistant(t.text.as_str())
        };
        assert(turns_view(dialogue@)[i as int] == t@);
        assert(m@ == seen[i as int]);
        let ghost before = v@;
        v.push(m);
        assert(messages_view(v@) =~= messages_view(before).push(m@));
        i = i + 1;
        assert(seen.take(i as int) =~= seen.take(i - 1).push(seen[i - 1]));
        assert(messages_view(v@) =~= head + seen.take(i as int));
    }
    assert(seen.take(i as int) =~= seen);
    v
}

/// A request as the plain (role, content) pairs that key the cache.
pub open spec fn key_of(msgs: Seq<(Role, Seq<char>)>) -> Seq<(Seq<char>, Seq<char>)> {
    msgs.map_values(|m: (Role, Seq<char>)| (role_name(m.0), m.1))
}

/// The cache key of a request.
pub fn cache_key(msgs: &Vec<ChatMessage>) -> (r: Vec<(String, String)>)
    ensures
        r.deep_view() == key_of(messages_view(msgs@)),
{
    let mut key: Vec<(String, String)> = Vec::new();
    let mut i: usize = 0;
    while i < msgs.len()
        invariant
            i <= msgs@.len(),
            key.deep_view() =~= key_of(messages_view(msgs@)).take(i as int),
        decreases msgs@.len() - i,
    {
        let m = &msgs[i];
        let role = role_to_str(&m.role);
        let pair = (role.to_owned(), m.content.clone());
        let ghost before = key.deep_view();
        assert(messages_view(msgs@)[i as int] == m@);
        key.push(pair);
        assert(key.deep_view() =~= before.push((role_name(m.role), m.content@)));
        i = i + 1;
        assert(key.deep_view() =~= key_of(messages_view(msgs@)).take(i as int));
    }
    key
}

} // verus!

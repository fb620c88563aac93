use gptebate::cache::{clone_key, Cache, CacheError, CacheKey};
use gptebate::order::{cmp_key, cmp_text};
use gptebate::debate::{Debate, DebateError, Step, MODEL};
use gptebate::message::{
    assistant, build_messages, cache_key, role_to_str, system, user, ChatMessage, Person, Role,
    Turn, SYSTEM_PROMPT,
};
use gptebate::tokens::{num_tokens, response_budget, total_tokens, COUNT_LIMIT, MAX_TOKENS};

fn pair(a: &str, b: &str) -> (String, String) {
    (a.to_string(), b.to_string())
}

fn seeded_debate() -> Debate {
    let key: CacheKey = vec![pair("system", "You are a helpful assitant."), pair("user", "Ia")];
    let cache = Cache::from_entries(None, vec![(key, "Hello".to_string())]);
    Debate::new("Ia".to_string(), "Ib".to_string(), cache)
}

fn ask(step: Result<Step, DebateError>) -> gptebate::debate::Request {
    match step {
        Ok(Step::Ask(req)) => req,
        other => panic!("expected a request, got {:?}", other),
    }
}

#[test]
fn seeded_cache_answers_first_turn() {
    let mut debate = seeded_debate();
    let messages = debate.messages();
    assert_eq!(
        messages,
        vec![system("You are a helpful assitant."), user("Ia")]
    );
    assert_eq!(
        cache_key(&messages),
        vec![pair("system", "You are a helpful assitant."), pair("user", "Ia")]
    );
    assert_eq!(debate.advance(), Ok(Step::Cached("Hello".to_string())));
    assert_eq!(
        debate.dialogue(),
        &vec![Turn { person: Person::A, text: "Hello".to_string() }]
    );
}

#[test]
fn second_turn_addresses_b_and_reads_a_as_user() {
    let mut debate = seeded_debate();
    assert_eq!(debate.advance(), Ok(Step::Cached("Hello".to_string())));
    assert_eq!(debate.next_person(), Person::B);
    let req = ask(debate.advance());
    assert_eq!(
        req.messages,
        vec![system("You are a helpful assitant."), user("Ib"), user("Hello")]
    );
    assert_eq!(req.prompt_tokens + req.max_tokens, MAX_TOKENS);
    assert_eq!(Some(req.prompt_tokens), num_tokens(&req.messages));
}

#[test]
fn own_turns_read_as_assistant() {
    let dialogue = vec![
        Turn { person: Person::A, text: "one".to_string() },
        Turn { person: Person::B, text: "two".to_string() },
    ];
    let msgs = build_messages("Ia", "Ib", &dialogue, Person::A);
    assert_eq!(
        msgs,
        vec![system(SYSTEM_PROMPT), user("Ia"), assistant("one"), user("two")]
    );
    let msgs = build_messages("Ia", "Ib", &dialogue, Person::B);
    assert_eq!(
        msgs,
        vec![system(SYSTEM_PROMPT), user("Ib"), user("one"), assistant("two")]
    );
}

#[test]
fn building_twice_gives_same_key() {
    let dialogue = vec![Turn { person: Person::A, text: "x".to_string() }];
    let first = cache_key(&build_messages("Ia", "Ib", &dialogue, Person::B));
    let second = cache_key(&build_messages("Ia", "Ib", &dialogue, Person::B));
    assert_eq!(first, second);
    assert_eq!(cmp_key(&first, &second), 0);
}

#[test]
fn speakers_alternate_from_a() {
    let cache = Cache::new(None, None).unwrap();
    let mut debate = Debate::new("Ia".to_string(), "Ib".to_string(), cache);
    for i in 0..4 {
        let expected = if i % 2 == 0 { Person::A } else { Person::B };
        assert_eq!(debate.next_person(), expected);
        let req = ask(debate.advance());
        let write = debate.complete(format!("reply {}", i), req.prompt_tokens);
        assert_eq!(write, Ok(None));
    }
    let persons: Vec<Person> = debate.dialogue().iter().map(|t| t.person).collect();
    assert_eq!(persons, vec![Person::A, Person::B, Person::A, Person::B]);
}

#[test]
fn stored_reply_is_replayed_after_reload() {
    let cache = Cache::new(Some("cache.json".to_string()), None).unwrap();
    let mut debate = Debate::new("Ia".to_string(), "Ib".to_string(), cache);
    let req = ask(debate.advance());
    let write = debate.complete("Hi".to_string(), req.prompt_tokens).unwrap();
    let (path, json) = write.expect("a cache with a file is written");
    assert_eq!(path, "cache.json");
    let reloaded = Cache::new(Some(path), Some(&json)).unwrap();
    let mut again = Debate::new("Ia".to_string(), "Ib".to_string(), reloaded);
    assert_eq!(again.advance(), Ok(Step::Cached("Hi".to_string())));
}

#[test]
fn cache_without_file_is_not_replayed() {
    let cache = Cache::new(None, Some("[]")).unwrap();
    let mut debate = Debate::new("Ia".to_string(), "Ib".to_string(), cache);
    let req = ask(debate.advance());
    assert_eq!(debate.complete("Hi".to_string(), req.prompt_tokens), Ok(None));
    let key: CacheKey = vec![pair("system", SYSTEM_PROMPT), pair("user", "Ia")];
    let mut probe = Cache::new(None, None).unwrap();
    probe.insert(key.clone(), "Hi".to_string());
    assert_eq!(probe.get(&key), None);
}

#[test]
fn cache_round_trips_through_json() {
    let k1: CacheKey = vec![pair("system", "s"), pair("user", "u")];
    let k2: CacheKey = vec![pair("user", "v")];
    let mut cache = Cache::new(Some("c.json".to_string()), None).unwrap();
    cache.insert(clone_key(&k1), "one".to_string());
    cache.insert(clone_key(&k2), "two".to_string());
    cache.insert(clone_key(&k1), "three".to_string());
    assert_eq!(cache.entries().len(), 2);
    let (_, json) = cache.save().expect("changed cache is written");
    assert_eq!(cache.save(), None);
    let back = Cache::new(Some("c.json".to_string()), Some(&json)).unwrap();
    assert_eq!(back.get(&k1), Some("three".to_string()));
    assert_eq!(back.get(&k2), Some("two".to_string()));
    assert_eq!(back.get(&vec![pair("user", "w")]), None);
}

#[test]
fn cache_file_format_is_list_of_pairs() {
    let text = r#"[[[["system","s"],["user","u"]],"r1"],[[["user","u"]],"r2"],[[["user","u"]],"r3"]]"#;
    let cache = Cache::new(Some("c.json".to_string()), Some(text)).unwrap();
    assert_eq!(cache.get(&vec![pair("system", "s"), pair("user", "u")]), Some("r1".to_string()));
    assert_eq!(cache.get(&vec![pair("user", "u")]), Some("r3".to_string()));
    assert_eq!(cache.entries().len(), 2);
}

#[test]
fn malformed_cache_is_rejected() {
    let r = Cache::new(Some("c.json".to_string()), Some("{not json"));
    assert!(matches!(r, Err(CacheError::Malformed)));
    let r = Cache::new(Some("c.json".to_string()), Some("[[1, 2]]"));
    assert!(matches!(r, Err(CacheError::Malformed)));
}

#[test]
fn missing_file_gives_empty_cache() {
    let cache = Cache::new(Some("c.json".to_string()), None).unwrap();
    assert!(cache.entries().is_empty());
}

#[test]
fn token_mismatch_is_rejected() {
    let cache = Cache::new(None, None).unwrap();
    let mut debate = Debate::new("Ia".to_string(), "Ib".to_string(), cache);
    let req = ask(debate.advance());
    let r = debate.complete("x".to_string(), req.prompt_tokens + 1);
    assert_eq!(
        r,
        Err(DebateError::TokenMismatch {
            computed: req.prompt_tokens,
            reported: req.prompt_tokens + 1
        })
    );
    assert!(debate.dialogue().is_empty());
    assert_eq!(debate.complete("x".to_string(), req.prompt_tokens), Ok(None));
    assert_eq!(debate.dialogue().len(), 1);
}

#[test]
fn reply_without_request_is_rejected() {
    let cache = Cache::new(None, None).unwrap();
    let mut debate = Debate::new("Ia".to_string(), "Ib".to_string(), cache);
    assert_eq!(
        debate.complete("x".to_string(), 10),
        Err(DebateError::NoPendingRequest)
    );
}

#[test]
fn overlong_prompt_is_rejected() {
    let long = "word ".repeat(5000);
    let cache = Cache::new(None, None).unwrap();
    let mut debate = Debate::new(long, "Ib".to_string(), cache);
    assert_eq!(debate.advance(), Err(DebateError::PromptTooLong));
    assert!(debate.dialogue().is_empty());
}

#[test]
fn token_counts_follow_the_formula() {
    assert_eq!(num_tokens(&vec![]), Some(3));
    assert_eq!(num_tokens(&vec![system("")]), Some(8));
    assert_eq!(num_tokens(&vec![user("hello")]), Some(9));
    assert_eq!(num_tokens(&vec![user("hello"), assistant("hello")]), Some(15));
}

#[test]
fn response_budget_fills_the_window() {
    assert_eq!(response_budget(0), Some(4095));
    assert_eq!(response_budget(100), Some(3995));
    assert_eq!(response_budget(4095), Some(0));
    assert_eq!(response_budget(4096), None);
}

#[test]
fn role_names() {
    assert_eq!(role_to_str(&Role::System), "system");
    assert_eq!(role_to_str(&Role::User), "user");
    assert_eq!(role_to_str(&Role::Assistant), "assistant");
    let m: ChatMessage = assistant("a");
    assert_eq!(m.role, Role::Assistant);
    assert_eq!(MODEL, "gpt-3.5-turbo");
}

#[test]
fn totals_from_given_counts() {
    assert_eq!(total_tokens(&vec![]), Some(3));
    assert_eq!(total_tokens(&vec![(1, 0)]), Some(8));
    assert_eq!(total_tokens(&vec![(1, 5), (1, 12)]), Some(3 + 4 + 6 + 4 + 13));
    assert_eq!(total_tokens(&vec![(usize::MAX, 0)]), None);
    assert_eq!(total_tokens(&vec![(1, 0), (usize::MAX - 20, 0)]), Some(u64::MAX - 8));
    assert_eq!(total_tokens(&vec![(1, 0), (usize::MAX - 10, 0)]), None);
}

#[test]
fn message_past_count_limit_is_not_counted() {
    let long = " ".repeat(COUNT_LIMIT + 1);
    assert_eq!(num_tokens(&vec![user(&long)]), None);
    let cache = Cache::new(None, None).unwrap();
    let mut debate = Debate::new(long, "Ib".to_string(), cache);
    assert_eq!(debate.advance(), Err(DebateError::PromptTooLong));
    assert!(debate.dialogue().is_empty());
}

#[test]
fn completed_turn_leaves_cache_written() {
    let cache = Cache::new(Some("c.json".to_string()), None).unwrap();
    let mut debate = Debate::new("Ia".to_string(), "Ib".to_string(), cache);
    let req = ask(debate.advance());
    let write = debate.complete("Hi".to_string(), req.prompt_tokens).unwrap();
    assert!(write.is_some());
    let req = ask(debate.advance());
    let write = debate.complete("Yo".to_string(), req.prompt_tokens).unwrap();
    let (_, json) = write.expect("each new reply is written");
    let back = Cache::new(Some("c.json".to_string()), Some(&json)).unwrap();
    assert_eq!(back.entries().len(), 2);
}

#[test]
fn saved_entries_follow_key_order() {
    let keys: Vec<CacheKey> = vec![
        vec![pair("user", "b")],
        vec![pair("system", "z"), pair("user", "a")],
        vec![pair("user", "a"), pair("user", "c")],
        vec![pair("user", "a")],
        vec![pair("user", "\u{e9}")],
        vec![],
    ];
    let mut cache = Cache::new(Some("c.json".to_string()), None).unwrap();
    let mut expected = std::collections::BTreeMap::new();
    for (i, k) in keys.iter().enumerate() {
        cache.insert(clone_key(k), format!("r{}", i));
        expected.insert(k.clone(), format!("r{}", i));
    }
    cache.insert(clone_key(&keys[0]), "again".to_string());
    expected.insert(keys[0].clone(), "again".to_string());
    let want: Vec<(CacheKey, String)> = expected.into_iter().collect();
    assert_eq!(cache.entries(), want);
    let (_, json) = cache.save().expect("changed cache is written");
    let parsed: Vec<(CacheKey, String)> = serde_json::from_str(&json).unwrap();
    assert_eq!(parsed, want);
}

#[test]
fn key_comparison_matches_std_order() {
    let a: CacheKey = vec![pair("user", "a")];
    let b: CacheKey = vec![pair("user", "a"), pair("user", "b")];
    let c: CacheKey = vec![pair("user", "b")];
    let d: CacheKey = vec![pair("assistant", "z")];
    for x in [&a, &b, &c, &d] {
        for y in [&a, &b, &c, &d] {
            let want = match x.cmp(y) {
                std::cmp::Ordering::Less => -1,
                std::cmp::Ordering::Equal => 0,
                std::cmp::Ordering::Greater => 1,
            };
            assert_eq!(cmp_key(x, y), want);
        }
    }
    assert_eq!(cmp_text(&"\u{e9}".to_string(), &"z".to_string()), 1);
    assert_eq!(cmp_text(&"ab".to_string(), &"abc".to_string()), -1);
}

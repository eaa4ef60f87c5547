use fish_input::escape::{EscapeTable, EscapeTableError};
use fish_input::bindings::{BindError, InputMappingSet, KeyNameStyle};
use fish_input::key::{Key, Modifiers};
use fish_input::query::QueryError;
use fish_input::queue::{Event, EventQueue};
use fish_input::resolver::{find_mapping, Resolution};
use fish_input::session::{InputSession, StepResult};

const DEFAULT_BIND_MODE: &str = "default";

fn keys(s: &str) -> Vec<Key> {
    s.chars().map(Key::from_raw).collect()
}

fn queue_of(ks: &[Key]) -> EventQueue {
    let mut q = EventQueue::new();
    for k in ks {
        q.push(Event::KeyPress(*k));
    }
    q
}

fn bind(set: &mut InputMappingSet, seq: &str, cmd: &str, mode: &str) {
    set.add1(
        keys(seq),
        KeyNameStyle::Plain,
        cmd.to_string(),
        mode.to_string(),
        None,
        true,
    )
    .unwrap();
}

fn commands_of(set: &InputMappingSet, r: Resolution) -> Vec<String> {
    match r {
        Resolution::Matched(m) => set.get(m.index).commands.clone(),
        other => panic!("expected a match, got {:?}", other),
    }
}

#[test]
fn test_input() {
    // Two bindings where the first is a prefix of the second; feeding the
    // second must invoke the second, not the first.
    let prefix_binding: Vec<Key> = "qqqqqqqa".chars().map(Key::from_raw).collect();
    let mut desired_binding = prefix_binding.clone();
    desired_binding.push(Key::from_raw('a'));

    let default_mode = || DEFAULT_BIND_MODE.to_owned();

    let mut input_mappings = InputMappingSet::new();
    input_mappings
        .add1(
            prefix_binding,
            KeyNameStyle::Plain,
            String::from("up-line"),
            default_mode(),
            None,
            true,
        )
        .unwrap();
    input_mappings
        .add1(
            desired_binding.clone(),
            KeyNameStyle::Plain,
            String::from("down-line"),
            default_mode(),
            None,
            true,
        )
        .unwrap();

    let mut queue = EventQueue::new();
    for key in desired_binding {
        queue.push(Event::KeyPress(key));
    }

    let mapping = find_mapping(&mut queue, &input_mappings, &default_mode(), false);
    assert!(matches!(mapping, Resolution::Matched(_)));
    assert!(commands_of(&input_mappings, mapping) == ["down-line"]);
    queue.restart();
}

#[test]
fn longest_match_wins_in_either_registration_order() {
    let mode = DEFAULT_BIND_MODE.to_string();
    let mut ab = InputMappingSet::new();
    bind(&mut ab, "xy", "short", &mode);
    bind(&mut ab, "xyz", "long", &mode);
    let mut ba = InputMappingSet::new();
    bind(&mut ba, "xyz", "long", &mode);
    bind(&mut ba, "xy", "short", &mode);
    for set in [&ab, &ba] {
        let mut q = queue_of(&keys("xyz"));
        let r = find_mapping(&mut q, set, &mode, false);
        assert_eq!(r, Resolution::Matched(fish_input::resolver::MappingMatch { index: r_index(set, "xyz"), len: 3 }));
        assert_eq!(commands_of(set, r), vec!["long".to_string()]);
        assert_eq!(q.commit_cursor(), 3);
    }
}

fn r_index(set: &InputMappingSet, seq: &str) -> usize {
    let want = keys(seq);
    (0..set.len()).find(|i| set.get(*i).seq == want).unwrap()
}

#[test]
fn unambiguous_short_match_fires_without_waiting() {
    let mode = DEFAULT_BIND_MODE.to_string();
    let mut set = InputMappingSet::new();
    bind(&mut set, "ab", "first", &mode);
    bind(&mut set, "cd", "second", &mode);
    let mut q = queue_of(&keys("ab"));
    let r = find_mapping(&mut q, &set, &mode, false);
    assert_eq!(commands_of(&set, r), vec!["first".to_string()]);
    assert_eq!(q.commit_cursor(), 2);
}

#[test]
fn fallback_inserts_first_key_only() {
    let mode = DEFAULT_BIND_MODE.to_string();
    let mut set = InputMappingSet::new();
    bind(&mut set, "ab", "first", &mode);
    let mut q = queue_of(&keys("xyz"));
    let r = find_mapping(&mut q, &set, &mode, false);
    assert_eq!(r, Resolution::SelfInsert(Key::from_raw('x')));
    assert_eq!(q.commit_cursor(), 1);
    let r = find_mapping(&mut q, &set, &mode, false);
    assert_eq!(r, Resolution::SelfInsert(Key::from_raw('y')));
    assert_eq!(q.commit_cursor(), 2);
}

#[test]
fn empty_table_falls_back_at_once() {
    let set = InputMappingSet::new();
    let mut q = queue_of(&keys("a"));
    let r = find_mapping(&mut q, &set, &DEFAULT_BIND_MODE.to_string(), false);
    assert_eq!(r, Resolution::SelfInsert(Key::from_raw('a')));
}

#[test]
fn ambiguous_prefix_waits_then_takes_exact_match() {
    let mode = DEFAULT_BIND_MODE.to_string();
    let mut set = InputMappingSet::new();
    bind(&mut set, "ab", "short", &mode);
    bind(&mut set, "abc", "long", &mode);
    let mut q = queue_of(&keys("ab"));
    assert_eq!(find_mapping(&mut q, &set, &mode, false), Resolution::NeedMore);
    assert_eq!(q.commit_cursor(), 0);
    assert_eq!(q.peek_cursor(), 2);
    let r = find_mapping(&mut q, &set, &mode, true);
    assert_eq!(commands_of(&set, r), vec!["short".to_string()]);
    assert_eq!(q.commit_cursor(), 2);
}

#[test]
fn prefix_without_exact_match_times_out_to_self_insert() {
    let mode = DEFAULT_BIND_MODE.to_string();
    let mut set = InputMappingSet::new();
    bind(&mut set, "abc", "long", &mode);
    let mut q = queue_of(&keys("ab"));
    assert_eq!(find_mapping(&mut q, &set, &mode, false), Resolution::NeedMore);
    assert_eq!(find_mapping(&mut q, &set, &mode, true), Resolution::SelfInsert(Key::from_raw('a')));
}

#[test]
fn end_of_input_ends_an_ambiguous_wait() {
    let mode = DEFAULT_BIND_MODE.to_string();
    let mut set = InputMappingSet::new();
    bind(&mut set, "ab", "short", &mode);
    bind(&mut set, "abc", "long", &mode);
    let mut q = queue_of(&keys("ab"));
    q.push(Event::Eof);
    let r = find_mapping(&mut q, &set, &mode, false);
    assert_eq!(commands_of(&set, r), vec!["short".to_string()]);
    assert_eq!(find_mapping(&mut q, &set, &mode, false), Resolution::EndOfInput);
}

#[test]
fn mode_scoping_keeps_other_modes_out() {
    let mut set = InputMappingSet::new();
    bind(&mut set, "jk", "escape", "insert");
    let mut q = queue_of(&keys("jk"));
    let r = find_mapping(&mut q, &set, &"default".to_string(), false);
    assert_eq!(r, Resolution::SelfInsert(Key::from_raw('j')));
    let mut q = queue_of(&keys("jk"));
    let r = find_mapping(&mut q, &set, &"insert".to_string(), false);
    assert_eq!(commands_of(&set, r), vec!["escape".to_string()]);
}

#[test]
fn rebinding_replaces_and_empty_sequence_is_refused() {
    let mode = DEFAULT_BIND_MODE.to_string();
    let mut set = InputMappingSet::new();
    bind(&mut set, "ab", "one", &mode);
    bind(&mut set, "ab", "two", &mode);
    assert_eq!(set.len(), 1);
    let r = set.add1(Vec::new(), KeyNameStyle::Plain, "x".to_string(), mode.clone(), None, true);
    assert_eq!(r, Err(BindError::EmptySequence));
    assert_eq!(set.len(), 1);
    let mut q = queue_of(&keys("ab"));
    let r = find_mapping(&mut q, &set, &mode, false);
    assert_eq!(commands_of(&set, r), vec!["two".to_string()]);
}

#[test]
fn restart_replays_uncommitted_keys() {
    let mode = DEFAULT_BIND_MODE.to_string();
    let mut set = InputMappingSet::new();
    bind(&mut set, "ab", "short", &mode);
    bind(&mut set, "abc", "long", &mode);
    let mut q = queue_of(&keys("ab"));
    q.advance_peek(2);
    q.restart();
    assert_eq!(q.peek_cursor(), 0);
    assert_eq!(find_mapping(&mut q, &set, &mode, false), Resolution::NeedMore);
    q.restart();
    assert_eq!(find_mapping(&mut q, &set, &mode, false), Resolution::NeedMore);
    q.push(Event::KeyPress(Key::from_raw('c')));
    let r = find_mapping(&mut q, &set, &mode, false);
    assert_eq!(commands_of(&set, r), vec!["long".to_string()]);
}

#[test]
fn raw_bytes_read_as_literal_keys() {
    let mode = DEFAULT_BIND_MODE.to_string();
    let mut set = InputMappingSet::new();
    bind(&mut set, "ab", "cmd", &mode);
    let mut q = EventQueue::new();
    q.push(Event::RawByte(b'a'));
    q.push(Event::RawByte(b'b'));
    let r = find_mapping(&mut q, &set, &mode, false);
    assert_eq!(commands_of(&set, r), vec!["cmd".to_string()]);
}

#[test]
fn named_keys_and_modifiers_are_distinct() {
    let plain = Key::from_raw('a');
    let ctrl = Key::Char('a', Modifiers { ctrl: true, alt: false, shift: false });
    assert_ne!(plain, ctrl);
    assert_ne!(Key::Named(1, Modifiers::none()), Key::Named(2, Modifiers::none()));
}

#[test]
fn second_query_is_refused_and_keys_wait() {
    let mode = DEFAULT_BIND_MODE.to_string();
    let mut set = InputMappingSet::new();
    bind(&mut set, "a", "cmd", &mode);
    let mut s = InputSession::new(mode.clone());
    assert_eq!(s.issue_query(7, 100), Ok(()));
    assert_eq!(s.issue_query(8, 101), Err(QueryError::AlreadyPending));
    s.queue.push(Event::KeyPress(Key::from_raw('a')));
    assert!(matches!(s.step(&set, false), StepResult::NeedMore));
    assert_eq!(s.queue.commit_cursor(), 0);
    s.queue.push(Event::QueryResponse(7, vec![1, 2, 3]));
    s.queue.push(Event::KeyPress(Key::from_raw('b')));
    match s.step(&set, false) {
        StepResult::QueryAnswered(p) => assert_eq!(p, vec![1, 2, 3]),
        other => panic!("unexpected {:?}", other),
    }
    assert_eq!(s.queue.len(), 2);
    match s.step(&set, false) {
        StepResult::Commands { commands, mode } => {
            assert_eq!(commands, vec!["cmd".to_string()]);
            assert_eq!(mode, "default");
        }
        other => panic!("unexpected {:?}", other),
    }
    assert!(matches!(s.step(&set, false), StepResult::SelfInsert(k) if k == Key::from_raw('b')));
}

#[test]
fn query_times_out_and_keys_resume() {
    let mode = DEFAULT_BIND_MODE.to_string();
    let set = InputMappingSet::new();
    let mut s = InputSession::new(mode);
    s.issue_query(1, 0).unwrap();
    s.queue.push(Event::KeyPress(Key::from_raw('z')));
    s.queue.push(Event::QueryResponse(2, vec![9]));
    assert!(matches!(s.step(&set, true), StepResult::QueryTimedOut));
    assert!(s.issue_query(3, 5).is_ok());
    assert!(matches!(s.step(&set, true), StepResult::QueryTimedOut));
    assert!(matches!(s.step(&set, false), StepResult::SelfInsert(k) if k == Key::from_raw('z')));
    assert!(matches!(s.step(&set, false), StepResult::Skipped));
    assert!(matches!(s.step(&set, false), StepResult::NeedMore));
}

#[test]
fn binding_switches_mode_after_its_commands() {
    let mut set = InputMappingSet::new();
    set.add1(keys("i"), KeyNameStyle::Plain, "repaint".to_string(), "default".to_string(), Some("insert".to_string()), true)
        .unwrap();
    let mut s = InputSession::new("default".to_string());
    s.queue.push(Event::KeyPress(Key::from_raw('i')));
    match s.step(&set, false) {
        StepResult::Commands { commands, mode } => {
            assert_eq!(commands, vec!["repaint".to_string()]);
            assert_eq!(mode, "default");
        }
        other => panic!("unexpected {:?}", other),
    }
    assert_eq!(s.mode, "insert");
}

#[test]
fn escape_sequences_decode_to_named_keys() {
    let up = Key::Named(1, Modifiers::none());
    let esc = Key::Named(9, Modifiers::none());
    let t = EscapeTable::new(vec![(b"\x1b[A".to_vec(), up), (b"\x1b".to_vec(), esc)]).unwrap();
    let (ks, used) = t.decode(&b"a\x1b[Ab".to_vec(), false);
    assert_eq!(ks, vec![Key::from_raw('a'), up, Key::from_raw('b')]);
    assert_eq!(used, 5);
    // A lone escape at the end may still grow: it waits, then decodes alone.
    let (ks, used) = t.decode(&b"x\x1b".to_vec(), false);
    assert_eq!(ks, vec![Key::from_raw('x')]);
    assert_eq!(used, 1);
    let (ks, used) = t.decode(&b"x\x1b".to_vec(), true);
    assert_eq!(ks, vec![Key::from_raw('x'), esc]);
    assert_eq!(used, 2);
    // An abandoned escape degrades: the longest known prefix, then literals.
    let (ks, _) = t.decode(&b"\x1b[Z".to_vec(), false);
    assert_eq!(ks, vec![esc, Key::from_raw('['), Key::from_raw('Z')]);
    assert!(matches!(EscapeTable::new(vec![(Vec::new(), up)]), Err(EscapeTableError::EmptySequence)));
    assert!(matches!(
        EscapeTable::new(vec![(b"ab".to_vec(), up), (b"ab".to_vec(), esc)]),
        Err(EscapeTableError::DuplicateSequence)
    ));
}

#[test]
fn committed_events_are_discarded() {
    let mut q = queue_of(&keys("abc"));
    q.advance_peek(2);
    q.commit();
    q.discard_committed();
    assert_eq!(q.len(), 1);
    assert_eq!(q.commit_cursor(), 0);
    assert_eq!(q.peek_cursor(), 0);
    assert!(matches!(q.peek_at(0), Some(Event::KeyPress(k)) if *k == Key::from_raw('c')));
}

#[test]
fn candidates_lists_bindings_sharing_the_prefix() {
    let mut set = InputMappingSet::new();
    bind(&mut set, "ab", "one", "default");
    bind(&mut set, "abc", "two", "default");
    bind(&mut set, "ax", "three", "default");
    bind(&mut set, "ab", "four", "insert");
    let c = set.candidates(&"default".to_string(), &keys("ab"));
    assert_eq!(c.len(), 2);
    let mut cmds: Vec<String> = c.iter().map(|i| set.get(*i).commands[0].clone()).collect();
    cmds.sort();
    assert_eq!(cmds, vec!["one".to_string(), "two".to_string()]);
    assert!(set.candidates(&"default".to_string(), &keys("q")).is_empty());
}

#[test]
fn query_expiry_counts_from_issue_time() {
    let mut q = fish_input::query::QueryCoordinator::new();
    assert!(!q.is_expired(1000, 10));
    q.issue(4, 100).unwrap();
    assert!(!q.is_expired(109, 10));
    assert!(q.is_expired(110, 10));
    assert!(!q.is_expired(50, 10));
}

use todo_cli::codec::decode;
use todo_cli::codec::encode;
use todo_cli::codec::load_or_empty;
use todo_cli::codec::DecodeError;
use todo_cli::store::NotFound;
use todo_cli::store::TodoList;
use todo_cli::task::Task;

#[test]
fn add_assigns_sequential_ids() {
    let mut list = TodoList::new();
    let a = list.add_task(String::from("first"));
    let b = list.add_task(String::from("second"));
    let c = list.add_task(String::from("third"));
    assert_eq!(a, 1);
    assert_eq!(b, 2);
    assert_eq!(c, 3);
    let tasks = list.list_tasks();
    assert_eq!(tasks.len(), 3);
    for (i, t) in tasks.iter().enumerate() {
        assert_eq!(t.id, i + 1);
        assert!(!t.done);
    }
}

#[test]
fn add_accepts_empty_description() {
    let mut list = TodoList::new();
    let id = list.add_task(String::new());
    assert_eq!(id, 1);
    let tasks = list.list_tasks();
    assert_eq!(tasks[0].description, "");
}

#[test]
fn mark_done_sets_flag() {
    let mut list = TodoList::new();
    list.add_task(String::from("a"));
    list.add_task(String::from("b"));
    assert_eq!(list.mark_done(2), Ok(()));
    let tasks = list.list_tasks();
    assert!(!tasks[0].done);
    assert!(tasks[1].done);
}

#[test]
fn mark_done_is_idempotent() {
    let mut list = TodoList::new();
    list.add_task(String::from("a"));
    assert_eq!(list.mark_done(1), Ok(()));
    assert_eq!(list.mark_done(1), Ok(()));
    let tasks = list.list_tasks();
    assert!(tasks[0].done);
}

#[test]
fn mark_done_unknown_id_leaves_store_unchanged() {
    let mut list = TodoList::new();
    list.add_task(String::from("a"));
    list.add_task(String::from("b"));
    let before = list.snapshot();
    assert_eq!(list.mark_done(99), Err(NotFound));
    let after = list.snapshot();
    assert_eq!(before.len(), after.len());
    for (x, y) in before.iter().zip(after.iter()) {
        assert_eq!(x.id, y.id);
        assert_eq!(x.description, y.description);
        assert_eq!(x.done, y.done);
    }
}

#[test]
fn mark_done_on_empty_store_fails() {
    let mut list = TodoList::new();
    assert_eq!(list.mark_done(1), Err(NotFound));
    assert!(list.list_tasks().is_empty());
}

#[test]
fn two_adds_grow_by_two_with_distinct_ids() {
    let mut list = TodoList::new();
    list.add_task(String::from("already here"));
    let before = list.list_tasks().len();
    let a = list.add_task(String::from("one of the pair"));
    let b = list.add_task(String::from("the other"));
    assert_eq!(list.list_tasks().len(), before + 2);
    assert_ne!(a, b);
    assert_eq!(a, before + 1);
    assert_eq!(b, before + 2);
}

#[test]
fn scenario_add_add_mark_list() {
    let mut list = TodoList::new();
    list.add_task(String::from("buy milk"));
    list.add_task(String::from("call bank"));
    assert_eq!(list.mark_done(1), Ok(()));
    let tasks = list.list_tasks();
    assert_eq!(tasks.len(), 2);
    assert_eq!(tasks[0].id, 1);
    assert_eq!(tasks[0].description, "buy milk");
    assert!(tasks[0].done);
    assert_eq!(tasks[1].id, 2);
    assert_eq!(tasks[1].description, "call bank");
    assert!(!tasks[1].done);
}

#[test]
fn scenario_mark_unknown_then_list_unchanged() {
    let mut list = TodoList::new();
    list.add_task(String::from("buy milk"));
    list.add_task(String::from("call bank"));
    assert_eq!(list.mark_done(1), Ok(()));
    assert_eq!(list.mark_done(99), Err(NotFound));
    let tasks = list.list_tasks();
    assert_eq!(tasks.len(), 2);
    assert_eq!(tasks[0].id, 1);
    assert_eq!(tasks[0].description, "buy milk");
    assert!(tasks[0].done);
    assert_eq!(tasks[1].id, 2);
    assert_eq!(tasks[1].description, "call bank");
    assert!(!tasks[1].done);
}

#[test]
fn replace_all_installs_new_collection() {
    let mut list = TodoList::new();
    list.add_task(String::from("old"));
    let fresh = vec![Task::new(7, String::from("loaded")), Task::new(3, String::from("other"))];
    list.replace_all(fresh);
    let tasks = list.list_tasks();
    assert_eq!(tasks.len(), 2);
    assert_eq!(tasks[0].id, 7);
    assert_eq!(tasks[1].id, 3);
}

#[test]
fn encode_empty_list() {
    let tasks: Vec<Task> = Vec::new();
    assert_eq!(encode(&tasks), "[]");
}

#[test]
fn encode_exact_document() {
    let mut list = TodoList::new();
    list.add_task(String::from("buy milk"));
    list.add_task(String::from("call bank"));
    list.mark_done(1).unwrap();
    let text = encode(&list.snapshot());
    assert_eq!(
        text,
        "[{\"id\":1,\"description\":\"buy milk\",\"done\":true},{\"id\":2,\"description\":\"call bank\",\"done\":false}]"
    );
}

#[test]
fn encode_escapes_quotes_and_backslashes() {
    let tasks = vec![Task::new(1, String::from("say \"hi\" and a \\ too"))];
    let text = encode(&tasks);
    assert_eq!(
        text,
        "[{\"id\":1,\"description\":\"say \\\"hi\\\" and a \\\\ too\",\"done\":false}]"
    );
}

#[test]
fn decode_exact_document() {
    let text = "[{\"id\":1,\"description\":\"buy milk\",\"done\":true},{\"id\":2,\"description\":\"call bank\",\"done\":false}]";
    let tasks = decode(text).unwrap();
    assert_eq!(tasks.len(), 2);
    assert_eq!(tasks[0].id, 1);
    assert_eq!(tasks[0].description, "buy milk");
    assert!(tasks[0].done);
    assert_eq!(tasks[1].id, 2);
    assert_eq!(tasks[1].description, "call bank");
    assert!(!tasks[1].done);
}

#[test]
fn decode_accepts_gaps_and_duplicate_ids() {
    let text = "[{\"id\":5,\"description\":\"a\",\"done\":false},{\"id\":5,\"description\":\"b\",\"done\":true}]";
    let tasks = decode(text).unwrap();
    assert_eq!(tasks.len(), 2);
    assert_eq!(tasks[0].id, 5);
    assert_eq!(tasks[1].id, 5);
    assert!(!tasks[0].done);
    assert!(tasks[1].done);
}

#[test]
fn decode_accepts_any_field_order() {
    let text = "[{\"done\":true,\"id\":3,\"description\":\"swapped\"},{\"description\":\"also swapped\",\"done\":false,\"id\":4}]";
    let tasks = decode(text).unwrap();
    assert_eq!(tasks.len(), 2);
    assert_eq!(tasks[0].id, 3);
    assert_eq!(tasks[0].description, "swapped");
    assert!(tasks[0].done);
    assert_eq!(tasks[1].id, 4);
    assert_eq!(tasks[1].description, "also swapped");
    assert!(!tasks[1].done);
}

#[test]
fn decode_rejects_duplicate_or_missing_fields() {
    // the id field twice, the done field missing
    assert_eq!(
        decode("[{\"id\":1,\"description\":\"a\",\"id\":2}]"),
        Err(DecodeError)
    );
    // the done field twice
    assert_eq!(
        decode("[{\"id\":1,\"done\":true,\"done\":false}]"),
        Err(DecodeError)
    );
    // only two fields
    assert_eq!(decode("[{\"id\":1,\"description\":\"a\"}]"), Err(DecodeError));
}

#[test]
fn decode_rejects_malformed_documents() {
    assert_eq!(decode(""), Err(DecodeError));
    assert_eq!(decode("["), Err(DecodeError));
    assert_eq!(decode("]"), Err(DecodeError));
    assert_eq!(decode("[]]"), Err(DecodeError));
    assert_eq!(decode("not a document"), Err(DecodeError));
    assert_eq!(decode("[{}]"), Err(DecodeError));
    // missing description field
    assert_eq!(decode("[{\"id\":1,\"done\":false}]"), Err(DecodeError));
    // wrong value type for id
    assert_eq!(decode("[{\"id\":true,\"description\":\"a\",\"done\":false}]"), Err(DecodeError));
    // wrong value type for done
    assert_eq!(decode("[{\"id\":1,\"description\":\"a\",\"done\":2}]"), Err(DecodeError));
    // unterminated description
    assert_eq!(decode("[{\"id\":1,\"description\":\"a,\"done\":false}]"), Err(DecodeError));
    // stray backslash escape
    assert_eq!(decode("[{\"id\":1,\"description\":\"a\\b\",\"done\":false}]"), Err(DecodeError));
    // trailing garbage after the closing bracket
    assert_eq!(
        decode("[{\"id\":1,\"description\":\"a\",\"done\":false}] "),
        Err(DecodeError)
    );
    // trailing comma without a record
    assert_eq!(decode("[{\"id\":1,\"description\":\"a\",\"done\":false},]"), Err(DecodeError));
}

#[test]
fn decode_rejects_id_beyond_machine_range() {
    let text = "[{\"id\":99999999999999999999999999999999,\"description\":\"a\",\"done\":false}]";
    assert_eq!(decode(text), Err(DecodeError));
}

#[test]
fn encode_then_decode_is_identity() {
    let cases: Vec<Vec<Task>> = vec![
        Vec::new(),
        vec![Task::new(1, String::from("plain"))],
        vec![
            Task::new(1, String::from("")),
            Task::new(2, String::from("with \"quotes\"")),
            Task::new(3, String::from("back\\slash and \\\" both")),
            Task::new(usize::MAX, String::from("huge id")),
        ],
    ];
    for tasks in cases {
        let mut marked = tasks;
        if let Some(t) = marked.last_mut() {
            t.done = true;
        }
        let text = encode(&marked);
        let back = decode(&text).unwrap();
        assert_eq!(back.len(), marked.len());
        for (x, y) in marked.iter().zip(back.iter()) {
            assert_eq!(x.id, y.id);
            assert_eq!(x.description, y.description);
            assert_eq!(x.done, y.done);
        }
    }
}

#[test]
fn roundtrip_keeps_unusual_characters() {
    let tasks = vec![Task::new(1, String::from("tabs\tnewlines\nunicode \u{2713} {}[]:,"))];
    let text = encode(&tasks);
    let back = decode(&text).unwrap();
    assert_eq!(back[0].description, "tabs\tnewlines\nunicode \u{2713} {}[]:,");
}

#[test]
fn load_from_missing_file_yields_empty_list() {
    let tasks = load_or_empty(None);
    assert!(tasks.is_empty());
    let mut list = TodoList::new();
    list.replace_all(tasks);
    assert!(list.list_tasks().is_empty());
}

#[test]
fn load_from_corrupt_text_yields_empty_list() {
    assert!(load_or_empty(Some("{ not a task list }")).is_empty());
    assert!(load_or_empty(Some("")).is_empty());
}

#[test]
fn load_from_valid_text_yields_tasks() {
    let tasks = load_or_empty(Some("[{\"id\":1,\"description\":\"kept\",\"done\":true}]"));
    assert_eq!(tasks.len(), 1);
    assert_eq!(tasks[0].id, 1);
    assert_eq!(tasks[0].description, "kept");
    assert!(tasks[0].done);
}

#[test]
fn task_new_starts_not_done() {
    let t = Task::new(4, String::from("fresh"));
    assert_eq!(t.id, 4);
    assert_eq!(t.description, "fresh");
    assert!(!t.done);
}

#[test]
fn snapshot_is_a_copy() {
    let mut list = TodoList::new();
    list.add_task(String::from("a"));
    let snap = list.snapshot();
    list.mark_done(1).unwrap();
    assert!(!snap[0].done);
    assert!(list.list_tasks()[0].done);
}

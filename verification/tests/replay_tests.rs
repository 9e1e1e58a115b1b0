use chatstats::events::{ChatInfo, UserExt, UserInfo};
use chatstats::process_log::{process_log, ReplayError};
use chatstats::processor::StoreProcessor;
use chatstats::tg::TgNormalizer;
use chatstats::mx::MxNormalizer;
use chatstats::tx::TxStore;

fn tg_line(chat_id: i64, user_id: i64, name: &str, date: i64) -> String {
    format!(
        "{{\"update_id\":1,\"message\":{{\"from\":{{\"id\":{},\"first_name\":\"{}\"}},\
         \"chat\":{{\"id\":{},\"type\":\"group\",\"title\":\"room\"}},\"date\":{}}}}}",
        user_id, name, chat_id, date
    )
}

fn tg_reply_line(chat_id: i64, user_id: i64, to_id: i64, date: i64) -> String {
    format!(
        "{{\"message\":{{\"from\":{{\"id\":{},\"first_name\":\"a\"}},\
         \"chat\":{{\"id\":{},\"type\":\"group\",\"title\":\"room\"}},\"date\":{},\
         \"reply_to_message\":{{\"from\":{{\"id\":{},\"first_name\":\"b\"}}}}}}}}",
        user_id, chat_id, date, to_id
    )
}

fn log_of(lines: &[String]) -> Vec<u8> {
    let mut out = String::new();
    for l in lines {
        out.push_str(l);
        out.push('\n');
    }
    out.into_bytes()
}

#[test]
fn replay_ingests_messages_and_replies() {
    let data = log_of(&[
        tg_line(7, 40, "ada", 3600),
        tg_reply_line(7, 40, 41, 3601),
        String::from("not json at all"),
        tg_line(7, 41, "bob", 7200),
    ]);
    let mut p = StoreProcessor::new(TxStore::new(), String::from("tg"), TgNormalizer {});
    let r = process_log(data.as_slice(), &mut p);
    assert!(r.is_ok());
    let tx = p.into_store();
    let s = tx.committed_store();
    // the reply line counts its message and its reply
    assert_eq!(s.total_count, 3);
    assert_eq!(s.total_replies, 1);
    assert_eq!(s.users.len(), 2);
    assert_eq!(s.chats.len(), 1);
    assert_eq!(s.get_checkpoint("tg"), Some(data.len() as u64));
}

#[test]
fn resume_after_completed_run_changes_nothing() {
    let data = log_of(&[tg_line(7, 40, "ada", 3600), tg_line(7, 40, "ada", 3600)]);
    let mut p = StoreProcessor::new(TxStore::new(), String::from("tg"), TgNormalizer {});
    process_log(data.as_slice(), &mut p).unwrap();
    let counts_before: Vec<u64>;
    let total_before: u64;
    {
        let s = p.tx.committed_store();
        counts_before = s.messages.iter().map(|m| m.count).collect();
        total_before = s.total_count;
        assert_eq!(s.get_checkpoint("tg"), Some(data.len() as u64));
    }
    // replaying the unchanged log processes zero additional lines
    let r2 = process_log(data.as_slice(), &mut p);
    assert!(r2.is_ok());
    let s = p.tx.committed_store();
    let counts_after: Vec<u64> = s.messages.iter().map(|m| m.count).collect();
    assert_eq!(counts_after, counts_before);
    assert_eq!(s.total_count, total_before);
    assert_eq!(s.get_checkpoint("tg"), Some(data.len() as u64));
}

#[test]
fn appended_lines_are_picked_up_where_the_run_left_off() {
    let first = log_of(&[tg_line(7, 40, "ada", 3600)]);
    let mut p = StoreProcessor::new(TxStore::new(), String::from("tg"), TgNormalizer {});
    process_log(first.as_slice(), &mut p).unwrap();
    let mut longer = first.clone();
    longer.extend_from_slice(&log_of(&[tg_line(7, 40, "ada", 3600)]));
    process_log(longer.as_slice(), &mut p).unwrap();
    let s = p.tx.committed_store();
    assert_eq!(s.total_count, 2);
    assert_eq!(s.messages.len(), 1);
    assert_eq!(s.messages[0].count, 2);
    assert_eq!(s.get_checkpoint("tg"), Some(longer.len() as u64));
}

#[test]
fn aborting_mid_batch_restores_the_committed_state() {
    let chat = ChatInfo { ext_id: Some(7), name: "room".to_string(), alias: None };
    let user = UserInfo { ext: UserExt::Num(40), name: "ada".to_string() };
    let mut tx = TxStore::new();
    // one committed run
    tx.begin_tx("tg");
    tx.record_message(&chat, &user, 3600).unwrap();
    tx.commit_tx("tg", 100);
    let total_before = tx.committed_store().total_count;
    // a failure after 500 lines of an in-progress batch: every mutation
    // since the last commit is rolled back
    tx.begin_tx("tg");
    for i in 0..500 {
        tx.record_message(&chat, &user, 3600 + i).unwrap();
    }
    tx.rollback_tx();
    let s = tx.committed_store();
    assert_eq!(s.total_count, total_before);
    assert_eq!(s.messages.len(), 1);
    assert_eq!(s.messages[0].count, 1);
    assert_eq!(s.get_checkpoint("tg"), Some(100));
}

#[test]
fn counts_survive_batch_splits() {
    // 2500 identical events commit in two full batches plus a tail
    let line = tg_line(7, 40, "ada", 3600);
    let lines: Vec<String> = (0..2500).map(|_| line.clone()).collect();
    let data = log_of(&lines);
    let mut p = StoreProcessor::new(TxStore::new(), String::from("tg"), TgNormalizer {});
    process_log(data.as_slice(), &mut p).unwrap();
    let s = p.tx.committed_store();
    assert_eq!(s.messages.len(), 1);
    assert_eq!(s.messages[0].count, 2500);
    assert_eq!(s.total_count, 2500);
    assert_eq!(s.get_checkpoint("tg"), Some(data.len() as u64));
}

#[test]
fn chunked_lines_yield_one_event_per_item() {
    let line = String::from(
        "{\"chunk\":[{\"origin_server_ts\":3600000,\"sender\":\"@a:x\"},\
         {\"origin_server_ts\":7200000,\"sender\":\"@b:x\"},\
         {\"sender\":\"missing ts\"}]}",
    );
    let data = log_of(&[line]);
    let mut p = StoreProcessor::new(
        TxStore::new(),
        String::from("mx"),
        MxNormalizer { chat_name: String::from("aggregate") },
    );
    process_log(data.as_slice(), &mut p).unwrap();
    let s = p.tx.committed_store();
    assert_eq!(s.total_count, 2);
    assert_eq!(s.users.len(), 2);
    assert_eq!(s.users[0].rnd_id, "@a:x");
    assert_eq!(s.messages[0].hour, 1);
    assert_eq!(s.messages[1].hour, 2);
    assert_eq!(s.get_checkpoint("mx"), Some(data.len() as u64));
}

#[test]
fn last_line_without_newline_still_counts() {
    let mut data = log_of(&[tg_line(7, 40, "ada", 3600)]);
    data.pop();  // drop the trailing newline
    let mut p = StoreProcessor::new(TxStore::new(), String::from("tg"), TgNormalizer {});
    process_log(data.as_slice(), &mut p).unwrap();
    let s = p.tx.committed_store();
    assert_eq!(s.total_count, 1);
    assert_eq!(s.get_checkpoint("tg"), Some(data.len() as u64));
}

#[test]
fn private_chats_are_skipped() {
    let line = String::from(
        "{\"message\":{\"from\":{\"id\":40,\"first_name\":\"ada\"},\
         \"chat\":{\"id\":9,\"type\":\"private\"},\"date\":3600}}",
    );
    let data = log_of(&[line]);
    let mut p = StoreProcessor::new(TxStore::new(), String::from("tg"), TgNormalizer {});
    process_log(data.as_slice(), &mut p).unwrap();
    let s = p.tx.committed_store();
    assert_eq!(s.total_count, 0);
    assert_eq!(s.chats.len(), 0);
}

#[test]
fn supergroup_aliases_resolve_in_queries() {
    let line = String::from(
        "{\"message\":{\"from\":{\"id\":40,\"first_name\":\"ada\",\"last_name\":\"l\"},\
         \"chat\":{\"id\":9,\"type\":\"supergroup\",\"title\":\"big room\",\
         \"username\":\"bigroom\"},\"date\":3600}}",
    );
    let data = log_of(&[line]);
    let mut p = StoreProcessor::new(TxStore::new(), String::from("tg"), TgNormalizer {});
    process_log(data.as_slice(), &mut p).unwrap();
    let s = p.tx.committed_store();
    let r = chatstats::query::query(s, "@bigroom", None, 0, None, None).unwrap();
    assert_eq!(r.title, "big room");
    assert_eq!(r.hours, (1, 1));
    assert_eq!(r.user_names, vec!["ada l"]);
}

#[test]
fn replay_error_names_the_processor_failure() {
    // exercising the error type itself
    let e: ReplayError<chatstats::error::MyError> =
        ReplayError::Processor(chatstats::error::MyError::Storage);
    match e {
        ReplayError::Processor(inner) => {
            assert_eq!(inner.message(), "storage failure");
        },
        ReplayError::Consistency => panic!("unexpected"),
    }
}

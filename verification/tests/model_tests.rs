use localvault::model::{
    changed_fields, contains_id, default_category, default_expiry, default_type, empty, empty_tags,
    entries_by_id, highest_seq, history_fields, insert_restored, merge_entries, order_entries,
    restored_entry, strings_equal, trash_cutoff, zero, DAY_MS,
};
use localvault::{Entry, VaultManager};

fn entry(id: &str, seq: i64, updated_at: i64) -> Entry {
    Entry {
        id: id.to_string(),
        seq,
        entry_type: "网站".to_string(),
        name: format!("name-{}", id),
        username: String::new(),
        email: String::new(),
        phone: String::new(),
        password: "pw".to_string(),
        nickname: String::new(),
        url: String::new(),
        notes: String::new(),
        category: "默认".to_string(),
        tags: vec![],
        favorite: false,
        updated_at,
        expires_at: None,
    }
}

fn ids(v: &[Entry]) -> Vec<String> {
    v.iter().map(|e| e.id.clone()).collect()
}

#[test]
fn defaults_of_missing_fields() {
    assert_eq!(zero(), 0);
    assert_eq!(empty(), "");
    assert!(empty_tags().is_empty());
    assert_eq!(default_type(), "网站");
    assert_eq!(default_category(), "默认");
    assert_eq!(default_expiry(), None);
}

#[test]
fn unchanged_entry_has_no_changed_fields() {
    let a = entry("a", 1, 10);
    assert!(changed_fields(&a, &a.clone()).is_empty());
}

#[test]
fn changed_fields_are_listed_in_form_order() {
    let a = entry("a", 1, 10);
    let mut b = a.clone();
    b.expires_at = Some(5);
    b.password = "new".to_string();
    b.entry_type = "邮箱".to_string();
    b.tags = vec!["x".to_string()];
    b.favorite = true;
    b.seq = 99;
    b.updated_at = 99;
    assert_eq!(
        changed_fields(&a, &b),
        vec!["类型", "密码", "标签", "收藏状态", "密码过期设置"]
    );
    let mut c = a.clone();
    c.name = "n2".into();
    c.username = "u".into();
    c.email = "e".into();
    c.phone = "p".into();
    c.nickname = "k".into();
    c.url = "w".into();
    c.notes = "o".into();
    c.category = "工作".into();
    assert_eq!(
        changed_fields(&a, &c),
        vec!["密码名称", "账号/用户名", "邮箱", "手机号", "平台昵称", "网址/IP/APP", "备注", "分类"]
    );
}

#[test]
fn string_lists_compare_element_wise() {
    let a = vec!["x".to_string(), "y".to_string()];
    assert!(strings_equal(&a, &a.clone()));
    assert!(!strings_equal(&a, &vec!["x".to_string()]));
    assert!(!strings_equal(&a, &vec!["x".to_string(), "z".to_string()]));
}

#[test]
fn entries_are_listed_by_position_then_newest() {
    let v = vec![entry("c", 0, 50), entry("a", 2, 10), entry("b", 1, 10), entry("d", 2, 30), entry("e", -1, 60)];
    let r = order_entries(v);
    assert_eq!(ids(&r), vec!["b", "d", "a", "e", "c"]);
}

#[test]
fn entries_without_positions_keep_their_order() {
    let v = vec![entry("c", 0, 5), entry("a", 0, 50), entry("b", -3, 10)];
    let r = order_entries(v);
    assert_eq!(ids(&r), vec!["c", "a", "b"]);
}

#[test]
fn entries_by_id_sorts_stably() {
    let v = vec![entry("b", 1, 0), entry("a", 2, 0), entry("c", 3, 0), entry("a", 4, 0), entry("B", 5, 0)];
    let r = entries_by_id(v);
    assert_eq!(ids(&r), vec!["B", "a", "a", "b", "c"]);
    assert_eq!(r[1].seq, 2);
    assert_eq!(r[2].seq, 4);
}

#[test]
fn highest_seq_of_list() {
    assert_eq!(highest_seq(&vec![]), 0);
    assert_eq!(highest_seq(&vec![entry("a", -5, 0), entry("b", -2, 0)]), -2);
    assert_eq!(highest_seq(&vec![entry("a", 3, 0), entry("b", 7, 0), entry("c", 1, 0)]), 7);
}

#[test]
fn restored_entry_comes_after_all() {
    let list = vec![entry("a", 3, 0), entry("b", 7, 0)];
    let r = restored_entry(&list, entry("z", 1, 0), 1234);
    assert_eq!(r.seq, 8);
    assert_eq!(r.updated_at, 1234);
    assert_eq!(r.id, "z");
    assert_eq!(restored_entry(&vec![], entry("z", 5, 0), 1).seq, 1);
}

#[test]
fn restore_inserts_by_seq() {
    let list = vec![entry("a", 3, 0), entry("b", 1, 0), entry("c", 2, 0)];
    let r = insert_restored(list, entry("z", 2, 0));
    assert_eq!(ids(&r), vec!["b", "c", "z", "a"]);
    let r2 = localvault::model::sort_by_seq(vec![entry("z", 6, 0), entry("a", 5, 0), entry("y", 5, 0)]);
    assert_eq!(ids(&r2), vec!["a", "y", "z"]);
}

#[test]
fn merge_appends_only_new_ids() {
    let cur = vec![entry("a", 4, 1), entry("b", 2, 1)];
    let inc = vec![entry("b", 9, 9), entry("c", 1, 9), entry("c", 2, 9), entry("d", 0, 9)];
    let r = merge_entries(cur, inc, 777);
    assert_eq!(ids(&r), vec!["a", "b", "c", "d"]);
    assert_eq!(r[1].seq, 2);
    assert_eq!(r[1].updated_at, 1);
    assert_eq!(r[2].seq, 5);
    assert_eq!(r[3].seq, 6);
    assert_eq!(r[2].updated_at, 777);
    assert_eq!(r[2].name, "name-c");
    assert!(contains_id(&r, &"d".to_string()));
    assert!(!contains_id(&r, &"e".to_string()));
}

#[test]
fn merge_backup_needs_unlocked_vault() {
    let vm = VaultManager::new();
    let (t, r) = vm.merge_backup(vec![], vec![entry("a", 1, 1)], vec![], vec![], 1, 1);
    assert!(t.is_empty());
    assert_eq!(r.unwrap_err(), "Vault locked");
}

#[test]
fn merge_room_counts_only_new_entries() {
    let cur = vec![entry("a", i64::MAX - 1, 0)];
    assert!(localvault::model::merge_fits_check(&cur, &vec![entry("a", 1, 1), entry("b", 1, 1)], 5));
    assert!(!localvault::model::merge_fits_check(&cur, &vec![entry("b", 1, 1), entry("c", 1, 1)], 5));
    assert!(localvault::model::merge_fits_check(&cur, &vec![entry("b", 1, 1), entry("b", 2, 1)], 5));
}

#[test]
fn history_is_recorded_for_changed_stored_entries() {
    let old = vec![entry("a", 1, 0), entry("b", 2, 0)];
    assert_eq!(history_fields(&old, &entry("c", 3, 0)), None);
    assert_eq!(history_fields(&old, &entry("a", 5, 9)), None);
    let mut a2 = entry("a", 1, 0);
    a2.password = "changed".into();
    assert_eq!(history_fields(&old, &a2), Some(vec!["密码".to_string()]));
    // with two stored entries of one id, the last one counts
    let mut dup = entry("a", 1, 0);
    dup.password = "changed".into();
    let old2 = vec![entry("a", 1, 0), dup];
    assert_eq!(history_fields(&old2, &a2), None);
}

#[test]
fn trash_keeps_between_seven_and_thirty_days() {
    let now = 1_700_000_000_000i64;
    assert_eq!(trash_cutoff(now, 1), now - 7 * DAY_MS);
    assert_eq!(trash_cutoff(now, 14), now - 14 * DAY_MS);
    assert_eq!(trash_cutoff(now, 365), now - 30 * DAY_MS);
    assert_eq!(trash_cutoff(now, -4), now - 7 * DAY_MS);
}

#[test]
fn id_order_does_not_depend_on_input_order() {
    let a = entries_by_id(vec![entry("c", 1, 0), entry("a", 2, 0), entry("b", 3, 0)]);
    let b = entries_by_id(vec![entry("b", 3, 0), entry("c", 1, 0), entry("a", 2, 0)]);
    assert_eq!(ids(&a), ids(&b));
    assert_eq!(ids(&a), vec!["a", "b", "c"]);
    assert_eq!(a.iter().map(|e| e.seq).collect::<Vec<_>>(), vec![2, 3, 1]);
}

fn stamp(id: i64, changed_at: i64) -> localvault::model::HistoryStamp {
    localvault::model::HistoryStamp { id, changed_at }
}

#[test]
fn history_keeps_the_three_newest_changes() {
    let recs = vec![stamp(1, 10), stamp(2, 40), stamp(3, 20), stamp(4, 40), stamp(5, 5)];
    assert_eq!(localvault::model::history_to_drop(&recs), vec![1, 5]);
    let few = vec![stamp(1, 10), stamp(2, 40), stamp(3, 20)];
    assert!(localvault::model::history_to_drop(&few).is_empty());
    let same_time = vec![stamp(7, 1), stamp(9, 1), stamp(8, 1), stamp(6, 1)];
    assert_eq!(localvault::model::history_to_drop(&same_time), vec![6]);
    assert_eq!(localvault::model::HISTORY_KEEP, 3);
}

use localvault::categories::{
    add_category, backup_categories, category_input_check, default_categories, merge_categories,
    update_input_check, with_defaults,
};
use localvault::{Category, CategoryRow, VaultManager};

fn row(name: &str, parent: Option<&str>, order: i64, created: i64) -> CategoryRow {
    CategoryRow {
        name: name.to_string(),
        icon: "📁".to_string(),
        parent_name: parent.map(|p| p.to_string()),
        created_at: created,
        sort_order: order,
    }
}

fn base() -> Vec<CategoryRow> {
    vec![
        row("默认", None, 0, 1),
        row("工作", None, 1, 1),
        row("项目", Some("工作"), 0, 2),
        row("会议", Some("工作"), 1, 3),
    ]
}

fn names(t: &[CategoryRow]) -> Vec<String> {
    t.iter().map(|r| r.name.clone()).collect()
}

fn find<'a>(t: &'a [CategoryRow], n: &str) -> &'a CategoryRow {
    t.iter().find(|r| r.name == n).unwrap()
}

fn cat(name: &str, parent: Option<&str>) -> Category {
    Category { name: name.to_string(), icon: "★".to_string(), parent_name: parent.map(|p| p.to_string()) }
}

#[test]
fn default_categories_of_a_new_vault() {
    let d = default_categories();
    let got: Vec<(String, String, i64)> = d;
    assert_eq!(
        got,
        vec![
            ("默认".to_string(), "▦".to_string(), 0),
            ("工作".to_string(), "💼".to_string(), 1),
            ("财务".to_string(), "💰".to_string(), 2),
            ("社交".to_string(), "👥".to_string(), 3),
            ("开发".to_string(), "💻".to_string(), 4),
            ("其他".to_string(), "📁".to_string(), 5),
        ]
    );
}

#[test]
fn create_category_checks_name_and_parent() {
    assert_eq!(category_input_check("   ", None).unwrap_err(), "分类名称不能为空");
    assert_eq!(category_input_check(&"长".repeat(41), None).unwrap_err(), "分类名称过长");
    assert!(category_input_check(&"长".repeat(40), None).is_ok());
    assert_eq!(category_input_check(" x ", Some("x")).unwrap_err(), "分类不能以自己作为父分类");
    assert_eq!(VaultManager::create_category(base(), "工作", "", None, 9).unwrap_err(), "分类已经存在");
    assert_eq!(VaultManager::create_category(base(), "新", "", Some("没有"), 9).unwrap_err(), "父分类不存在");
}

#[test]
fn created_category_is_last_among_its_siblings() {
    let t = VaultManager::create_category(base(), "  出差  ", "  ✈ ", Some(" 工作 "), 42).unwrap();
    assert_eq!(t.len(), 5);
    let r = find(&t, "出差");
    assert_eq!(r.icon, "✈");
    assert_eq!(r.parent_name.as_deref(), Some("工作"));
    assert_eq!(r.sort_order, 2);
    assert_eq!(r.created_at, 42);
    let t2 = VaultManager::create_category(t, "生活", "   ", Some("  "), 43).unwrap();
    let r2 = find(&t2, "生活");
    assert_eq!(r2.icon, "📁");
    assert_eq!(r2.parent_name, None);
    assert_eq!(r2.sort_order, 2);
}

#[test]
fn failed_add_leaves_table_as_it_was() {
    let mut t = base();
    assert!(add_category(&mut t, "工作", "", None, 1).is_err());
    assert_eq!(names(&t), names(&base()));
    add_category(&mut t, "旅行", "", None, 1).unwrap();
    assert_eq!(t.len(), 5);
}

#[test]
fn delete_moves_children_up() {
    assert_eq!(VaultManager::delete_category(base(), " 默认 ").unwrap_err(), "默认分类不能删除");
    assert_eq!(VaultManager::delete_category(base(), "没有").unwrap_err(), "分类不存在");
    let t = VaultManager::delete_category(base(), "工作").unwrap();
    assert_eq!(names(&t), vec!["默认", "项目", "会议"]);
    assert_eq!(find(&t, "项目").parent_name, None);
    assert_eq!(find(&t, "会议").parent_name, None);
}

#[test]
fn update_checks_inputs() {
    assert_eq!(update_input_check("默认", "别的", None).unwrap_err(), "默认分类不能重命名");
    assert_eq!(update_input_check("工作", "  ", None).unwrap_err(), "分类名称不能为空");
    assert_eq!(update_input_check("默认", "默认", Some("工作")).unwrap_err(), "默认分类不能设置父分类");
    assert_eq!(update_input_check("a", "b", Some(" b ")).unwrap_err(), "分类不能以自己作为父分类");
    assert_eq!(VaultManager::update_category(base(), "项目", "会议", "", None).unwrap_err(), "分类已经存在");
    assert_eq!(VaultManager::update_category(base(), "项目", "项目", "", Some("没有")).unwrap_err(), "父分类不存在");
    assert_eq!(
        VaultManager::update_category(base(), "工作", "工作", "", Some("项目")).unwrap_err(),
        "不能把分类移动到自己的子分类下"
    );
    assert_eq!(VaultManager::update_category(base(), "没有", "新名", "", None).unwrap_err(), "Query returned no rows");
}

#[test]
fn rename_carries_children_along() {
    let t = VaultManager::update_category(base(), "工作", "职场", "💼", None).unwrap();
    assert_eq!(names(&t), vec!["默认", "职场", "项目", "会议"]);
    let w = find(&t, "职场");
    assert_eq!(w.icon, "💼");
    assert_eq!(w.sort_order, 1);
    assert_eq!(find(&t, "项目").parent_name.as_deref(), Some("职场"));
    assert_eq!(find(&t, "会议").parent_name.as_deref(), Some("职场"));
}

#[test]
fn moving_a_category_puts_it_last_under_new_parent() {
    let t = VaultManager::update_category(base(), "默认", "默认", "", None).unwrap();
    assert_eq!(find(&t, "默认").sort_order, 0);
    let t2 = VaultManager::update_category(base(), "会议", "会议", "", None).unwrap();
    let m = find(&t2, "会议");
    assert_eq!(m.parent_name, None);
    assert_eq!(m.sort_order, 2);
    assert_eq!(m.created_at, 3);
}

#[test]
fn reorder_needs_each_sibling_once() {
    let names_of = |v: &[&str]| v.iter().map(|s| s.to_string()).collect::<Vec<String>>();
    assert_eq!(
        VaultManager::reorder_categories(base(), Some("工作"), &names_of(&["项目"])).unwrap_err(),
        "分类排序数据不完整"
    );
    assert_eq!(
        VaultManager::reorder_categories(base(), Some("工作"), &names_of(&["项目", "默认"])).unwrap_err(),
        "分类排序数据无效"
    );
    let t = VaultManager::reorder_categories(base(), Some("工作"), &names_of(&["会议", "项目"])).unwrap();
    assert_eq!(find(&t, "会议").sort_order, 0);
    assert_eq!(find(&t, "项目").sort_order, 1);
    assert_eq!(find(&t, "工作").sort_order, 1);
    let top = VaultManager::reorder_categories(base(), None, &names_of(&["工作", "默认"])).unwrap();
    assert_eq!(find(&top, "工作").sort_order, 0);
    assert_eq!(find(&top, "默认").sort_order, 1);
}

#[test]
fn categories_list_top_level_first_then_by_parent_and_position() {
    let t = vec![
        row("z-child", Some("b"), 0, 5),
        row("b", None, 1, 1),
        row("a-child2", Some("a"), 1, 1),
        row("a", None, 0, 2),
        row("a-child1", Some("a"), 0, 9),
        row("a-child0", Some("a"), 0, 3),
    ];
    let l = VaultManager::list_categories(t, 0);
    let defaults = ["默认", "工作", "财务", "社交", "开发", "其他"];
    let got: Vec<String> =
        l.iter().map(|c| c.name.clone()).filter(|n| !defaults.contains(&n.as_str())).collect();
    assert_eq!(got, vec!["a", "b", "a-child0", "a-child1", "a-child2", "z-child"]);
    let child = l.iter().find(|c| c.name == "a-child0").unwrap();
    assert_eq!(child.parent_name.as_deref(), Some("a"));
}

#[test]
fn the_default_categories_are_always_listed() {
    let l = VaultManager::list_categories(vec![], 9);
    let got: Vec<String> = l.iter().map(|c| c.name.clone()).collect();
    assert_eq!(got, vec!["默认", "工作", "财务", "社交", "开发", "其他"]);
    let l2 = VaultManager::list_categories(vec![row("工作", None, 0, 1), row("x", Some("工作"), 0, 1)], 9);
    assert_eq!(l2.len(), 7);
    assert_eq!(l2.iter().filter(|c| c.name == "工作").count(), 1);
}

#[test]
fn missing_defaults_are_added_after_the_table() {
    let t = with_defaults(vec![row("其他", None, 9, 1), row("mine", None, 0, 1)], 42);
    assert_eq!(names(&t), vec!["其他", "mine", "默认", "工作", "财务", "社交", "开发"]);
    assert_eq!(find(&t, "工作").created_at, 42);
    assert_eq!(find(&t, "工作").sort_order, 1);
    assert_eq!(find(&t, "其他").sort_order, 9);
}

fn brow(name: &str, icon: Option<&str>, parent: Option<&str>, order: i64, created: i64)
    -> (String, Option<String>, Option<String>, i64, i64) {
    (name.to_string(), icon.map(|i| i.to_string()), parent.map(|p| p.to_string()), order, created)
}

#[test]
fn backup_categories_of_the_current_format() {
    let rows = vec![
        brow("c", Some("★"), Some("a"), 0, 1),
        brow("b", None, None, 1, 1),
        brow("a", Some("☆"), None, 0, 5),
    ];
    let l = backup_categories(rows, true, true);
    let got: Vec<String> = l.iter().map(|c| c.name.clone()).collect();
    assert_eq!(got, vec!["a", "b", "c"]);
    assert_eq!(l[0].icon, "☆");
    assert_eq!(l[1].icon, "📁");
    assert_eq!(l[2].parent_name.as_deref(), Some("a"));
}

#[test]
fn backup_categories_of_older_formats() {
    let rows = vec![
        brow("late", Some("★"), Some("x"), 2, 1),
        brow("second", Some("★"), None, 1, 9),
        brow("first", Some("★"), None, 1, 3),
    ];
    let l = backup_categories(rows.clone(), false, false);
    let got: Vec<String> = l.iter().map(|c| c.name.clone()).collect();
    assert_eq!(got, vec!["first", "second", "late"]);
    assert!(l.iter().all(|c| c.parent_name.is_none() && c.icon == "📁"));
    let l2 = backup_categories(rows, true, false);
    assert!(l2.iter().all(|c| c.parent_name.is_none() && c.icon == "★"));
}

#[test]
fn a_new_child_comes_after_the_highest_sibling_position() {
    let t = vec![row("P", None, 0, 1), row("m5", Some("P"), -5, 1), row("m7", Some("P"), -7, 1)];
    let t2 = VaultManager::create_category(t, "新", "", Some("P"), 3).unwrap();
    assert_eq!(find(&t2, "新").sort_order, -4);
    let t3 = VaultManager::create_category(t2, "另", "", Some("新"), 3).unwrap();
    assert_eq!(find(&t3, "另").sort_order, 0);
}

#[test]
fn merge_creates_missing_categories_parents_first() {
    let pending = vec![cat("子", Some("父")), cat("工作", None), cat("  ", None), cat("父", None)];
    let (t, err) = merge_categories(base(), pending, 100);
    assert_eq!(err, None);
    assert_eq!(names(&t), vec!["默认", "工作", "项目", "会议", "父", "子"]);
    assert_eq!(find(&t, "子").parent_name.as_deref(), Some("父"));
    assert_eq!(find(&t, "父").icon, "★");
    assert_eq!(find(&t, "父").sort_order, 2);
}

#[test]
fn merge_with_unknown_parent_fails() {
    let pending = vec![cat("孤儿", Some("不存在")), cat("新", None)];
    let (t, err) = merge_categories(base(), pending, 100);
    assert_eq!(err.as_deref(), Some("备份中的分类层级无效：找不到父分类"));
    assert_eq!(names(&t), vec!["默认", "工作", "项目", "会议", "新"]);
}

#[test]
fn room_for_a_new_position_is_checked_among_siblings_only() {
    let mut t = base();
    t.push(row("满", Some("默认"), i64::MAX, 4));
    assert!(localvault::categories::has_sibling_room(&t, Some("工作")));
    assert!(localvault::categories::has_sibling_room(&t, None));
    assert!(!localvault::categories::has_sibling_room(&t, Some(" 默认 ")));
    assert!(localvault::categories::moves_parent_of(&t, "项目", None));
    assert!(!localvault::categories::moves_parent_of(&t, " 项目 ", Some("工作")));
    assert!(!localvault::categories::moves_parent_of(&t, "没有", None));
}

#[test]
fn merge_room_counts_waiting_categories() {
    let mut t = base();
    assert!(localvault::categories::has_merge_room(&t, 5));
    t.push(row("高", None, i64::MAX - 5, 4));
    assert!(localvault::categories::has_merge_room(&t, 5));
    assert!(!localvault::categories::has_merge_room(&t, 6));
}

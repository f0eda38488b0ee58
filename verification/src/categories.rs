//! The category table: a forest of named categories, each with an icon, an
//! optional parent and a position among its siblings.
use crate::order::{is_stable_sort_of, stable_sort, Order};
use crate::text::{
    chars_le, lemma_chars_le_antisym, lemma_chars_le_total, lemma_chars_le_trans, str_le, trim,
    trim_chars,
};
use crate::vault::{str_eq, VaultManager};
use vstd::prelude::*;
use vstd::string::*;

verus! {

/// A stored category row, as the table keeps it (rows in insertion order).
#[derive(Clone, Debug)]
pub struct CategoryRow {
    pub name: String,
    pub icon: String,
    pub parent_name: Option<String>,
    pub created_at: i64,
    pub sort_order: i64,
}

/// A category row as values.
pub struct CategoryView {
    pub name: Seq<char>,
    pub icon: Seq<char>,
    pub parent: Option<Seq<char>>,
    pub created_at: i64,
    pub sort_order: i64,
}

pub open spec fn opt_str(o: Option<String>) -> Option<Seq<char>> {
    match o {
        Some(s) => Some(s@),
        None => None,
    }
}

impl View for CategoryRow {
    type V = CategoryView;

    open spec fn view(&self) -> CategoryView {
        CategoryView {
            name: self.name@,
            icon: self.icon@,
            parent: opt_str(self.parent_name),
            created_at: self.created_at,
            sort_order: self.sort_order,
        }
    }
}

pub open spec fn table_view(t: Seq<CategoryRow>) -> Seq<CategoryView> {
    t.map_values(|r: CategoryRow| r@)
}

/// The index of the first row with this name, or -1.
pub open spec fn row_index(t: Seq<CategoryView>, n: Seq<char>) -> int
    decreases t.len(),
{
    if t.len() == 0 {
        -1
    } else {
        let k = row_index(t.drop_last(), n);
        if k >= 0 {
            k
        } else if t.last().name == n {
            t.len() - 1
        } else {
            -1
        }
    }
}

pub open spec fn has_name(t: Seq<CategoryView>, n: Seq<char>) -> bool {
    row_index(t, n) >= 0
}

proof fn lemma_row_index(t: Seq<CategoryView>, n: Seq<char>)
    ensures
        -1 <= row_index(t, n) < t.len(),
        row_index(t, n) >= 0 ==> t[row_index(t, n)].name == n,
        row_index(t, n) >= 0 ==> forall|j: int| 0 <= j < row_index(t, n) ==> t[j].name != n,
        row_index(t, n) < 0 ==> forall|j: int| 0 <= j < t.len() ==> t[j].name != n,
    decreases t.len(),
{
    if t.len() > 0 {
        lemma_row_index(t.drop_last(), n);
        assert forall|j: int| 0 <= j < t.len() - 1 implies t.drop_last()[j] == t[j] by {}
    }
}

/// The parent of the category with this name, if it exists and has one.
pub open spec fn parent_step(t: Seq<CategoryView>, x: Seq<char>) -> Option<Seq<char>> {
    let i = row_index(t, x);
    if i < 0 {
        None
    } else {
        t[i].parent
    }
}

/// The category `k` parent links above `x`, walking while links exist.
pub open spec fn ancestor(t: Seq<CategoryView>, x: Seq<char>, k: nat) -> Option<Seq<char>>
    decreases k,
{
    if k == 0 {
        Some(x)
    } else {
        match ancestor(t, x, (k - 1) as nat) {
            Some(y) => parent_step(t, y),
            None => None,
        }
    }
}

/// `target` is `x` or one of its ancestors (looking no further than the
/// table is long, which every chain of an acyclic table fits in).
pub open spec fn at_or_above(t: Seq<CategoryView>, x: Seq<char>, target: Seq<char>) -> bool {
    exists|k: nat| k <= t.len() && #[trigger] ancestor(t, x, k) == Some(target)
}

/// Some category of the table is a child of `parent` (`None`: the top
/// level).
pub open spec fn has_child(t: Seq<CategoryView>, parent: Option<Seq<char>>) -> bool
    decreases t.len(),
{
    t.len() > 0 && (has_child(t.drop_last(), parent) || t.last().parent == parent)
}

/// The largest position among the children of `parent` (`None`: the top
/// level), or -1 when it has none; a new child takes the next one.
pub open spec fn max_order(t: Seq<CategoryView>, parent: Option<Seq<char>>) -> int
    decreases t.len(),
{
    if t.len() == 0 {
        -1
    } else {
        let m = max_order(t.drop_last(), parent);
        if t.last().parent == parent && (!has_child(t.drop_last(), parent) || t.last().sort_order > m) {
            t.last().sort_order as int
        } else {
            m
        }
    }
}

/// A new child of `parent` can be numbered: the last position among its
/// children is below the largest `i64`.
pub open spec fn sibling_room(t: Seq<CategoryView>, parent: Option<Seq<char>>) -> bool {
    max_order(t, parent) < i64::MAX
}


/// The icon of a category: the trimmed icon, or the folder sign if blank.
pub open spec fn icon_value(icon: Seq<char>) -> Seq<char> {
    if trim_chars(icon).len() == 0 {
        "📁"@
    } else {
        trim_chars(icon)
    }
}

/// A parent as typed: trimmed, blank meaning none.
pub open spec fn typed_parent(p: Option<Seq<char>>) -> Option<Seq<char>> {
    match p {
        Some(x) => if trim_chars(x).len() > 0 {
            Some(trim_chars(x))
        } else {
            None
        },
        None => None,
    }
}

pub open spec fn opt_ref(p: Option<&str>) -> Option<Seq<char>> {
    match p {
        Some(x) => Some(x@),
        None => None,
    }
}

fn find_row(t: &Vec<CategoryRow>, n: &str) -> (r: Option<usize>)
    ensures
        match r {
            Some(i) => row_index(table_view(t@), n@) == i && i < t@.len() && t@[i as int].name@ == n@,
            None => row_index(table_view(t@), n@) < 0,
        },
{
    let ghost tv = table_view(t@);
    proof {
        lemma_row_index(tv, n@);
    }
    let mut i: usize = 0;
    while i < t.len()
        invariant
            i <= t@.len(),
            tv == table_view(t@),
            tv.len() == t@.len(),
            forall|j: int| 0 <= j < i ==> tv[j].name != n@,
            -1 <= row_index(tv, n@) < tv.len(),
            row_index(tv, n@) >= 0 ==> tv[row_index(tv, n@)].name == n@,
            row_index(tv, n@) < 0 ==> forall|j: int| 0 <= j < tv.len() ==> tv[j].name != n@,
            row_index(tv, n@) >= 0 ==> forall|j: int| 0 <= j < row_index(tv, n@) ==> tv[j].name != n@,
        decreases t@.len() - i,
    {
        proof {
            assert(tv[i as int] == t@[i as int]@);
        }
        if str_eq(t[i].name.as_str(), n) {
            return Some(i);
        }
        i = i + 1;
    }
    None
}

fn copy_opt(o: &Option<String>) -> (r: Option<String>)
    ensures
        opt_str(r) == opt_str(*o),
{
    match o {
        Some(s) => Some(s.clone()),
        None => None,
    }
}

/// A copy of a row.
pub fn copy_row(r: &CategoryRow) -> (c: CategoryRow)
    ensures
        c@ == r@,
{
    CategoryRow {
        name: r.name.clone(),
        icon: r.icon.clone(),
        parent_name: copy_opt(&r.parent_name),
        created_at: r.created_at,
        sort_order: r.sort_order,
    }
}

fn opt_string_eq(a: &Option<String>, b: &Option<String>) -> (r: bool)
    ensures
        r == (opt_str(*a) == opt_str(*b)),
{
    match (a, b) {
        (Some(x), Some(y)) => *x == *y,
        (None, None) => true,
        _ => false,
    }
}

fn max_order_of(t: &Vec<CategoryRow>, parent: &Option<String>) -> (r: i64)
    ensures
        r == max_order(table_view(t@), opt_str(*parent)),
{
    let ghost tv = table_view(t@);
    let mut m: i64 = -1;
    let mut found = false;
    let mut i: usize = 0;
    while i < t.len()
        invariant
            i <= t@.len(),
            tv == table_view(t@),
            m == max_order(tv.subrange(0, i as int), opt_str(*parent)),
            found == has_child(tv.subrange(0, i as int), opt_str(*parent)),
        decreases t@.len() - i,
    {
        proof {
            assert(tv.subrange(0, i + 1).drop_last() =~= tv.subrange(0, i as int));
            assert(tv[i as int] == t@[i as int]@);
        }
        if opt_string_eq(&t[i].parent_name, parent) {
            if !found || t[i].sort_order > m {
                m = t[i].sort_order;
            }
            found = true;
        }
        i = i + 1;
    }
    proof {
        assert(tv.subrange(0, t@.len() as int) =~= tv);
    }
    m
}

fn next_order(t: &Vec<CategoryRow>, parent: &Option<String>) -> (r: i64)
    requires
        sibling_room(table_view(t@), opt_str(*parent)),
    ensures
        r == max_order(table_view(t@), opt_str(*parent)) + 1,
{
    max_order_of(t, parent) + 1
}

/// Whether a new child of `parent_name` (as typed) can be numbered (see
/// `sibling_room`).
pub fn has_sibling_room(table: &Vec<CategoryRow>, parent_name: Option<&str>) -> (r: bool)
    ensures
        r == sibling_room(table_view(table@), typed_parent(opt_ref(parent_name))),
{
    let parent = typed_parent_of(parent_name);
    max_order_of(table, &parent) < i64::MAX
}

/// The first problem with a requested new category, as its message.
pub open spec fn create_problem(t: Seq<CategoryView>, name: Seq<char>, parent_in: Option<Seq<char>>) -> Option<
    Seq<char>,
> {
    let n = trim_chars(name);
    let parent = typed_parent(parent_in);
    if n.len() == 0 {
        Some("分类名称不能为空"@)
    } else if n.len() > 40 {
        Some("分类名称过长"@)
    } else if parent == Some(n) {
        Some("分类不能以自己作为父分类"@)
    } else if has_name(t, n) {
        Some("分类已经存在"@)
    } else if parent matches Some(p) && !has_name(t, p) {
        Some("父分类不存在"@)
    } else {
        None
    }
}

/// The row that a new category gets: trimmed name and icon, last among
/// its siblings, stamped `now` (seconds).
pub open spec fn created_row(
    t: Seq<CategoryView>,
    name: Seq<char>,
    icon: Seq<char>,
    parent_in: Option<Seq<char>>,
    now: i64,
) -> CategoryView {
    CategoryView {
        name: trim_chars(name),
        icon: icon_value(icon),
        parent: typed_parent(parent_in),
        created_at: now,
        sort_order: (max_order(t, typed_parent(parent_in)) + 1) as i64,
    }
}

fn typed_parent_of(parent_name: Option<&str>) -> (r: Option<String>)
    ensures
        opt_str(r) == typed_parent(opt_ref(parent_name)),
{
    match parent_name {
        Some(p) => {
            let t = trim(p);
            if t.as_str().unicode_len() == 0 {
                None
            } else {
                Some(t)
            }
        },
        None => None,
    }
}

fn icon_of(icon: &str) -> (r: String)
    ensures
        r@ == icon_value(icon@),
{
    let t = trim(icon);
    if t.as_str().unicode_len() == 0 {
        String::from_str("📁")
    } else {
        t
    }
}

/// The checks of a new category that need no table: a name (trimmed, at
/// most 40 characters) that is not its own parent.
pub fn category_input_check(name: &str, parent_name: Option<&str>) -> (r: Result<(), String>)
    ensures
        ({
            let n = trim_chars(name@);
            let p = typed_parent(opt_ref(parent_name));
            if n.len() == 0 {
                r matches Err(e) && e@ == "分类名称不能为空"@
            } else if n.len() > 40 {
                r matches Err(e) && e@ == "分类名称过长"@
            } else if p == Some(n) {
                r matches Err(e) && e@ == "分类不能以自己作为父分类"@
            } else {
                r is Ok
            }
        }),
{
    let n = trim(name);
    let len = n.as_str().unicode_len();
    if len == 0 {
        return Err(String::from_str("分类名称不能为空"));
    }
    if len > 40 {
        return Err(String::from_str("分类名称过长"));
    }
    let parent = typed_parent_of(parent_name);
    if let Some(p) = &parent {
        if *p == n {
            return Err(String::from_str("分类不能以自己作为父分类"));
        }
    }
    Ok(())
}

/// Adds a category in place (see `create_problem` and `created_row`);
/// on an error the table is left as it was.
pub fn add_category(
    table: &mut Vec<CategoryRow>,
    name: &str,
    icon: &str,
    parent_name: Option<&str>,
    now: i64,
) -> (r: Result<(), String>)
    requires
        sibling_room(table_view(old(table)@), typed_parent(opt_ref(parent_name))),
    ensures
        match create_problem(table_view(old(table)@), name@, opt_ref(parent_name)) {
            Some(m) => (r matches Err(e) && e@ == m) && final(table)@ == old(table)@,
            None => r is Ok && table_view(final(table)@) == table_view(old(table)@).push(
                created_row(table_view(old(table)@), name@, icon@, opt_ref(parent_name), now),
            ),
        },
{
    category_input_check(name, parent_name)?;
    let n = trim(name);
    let parent = typed_parent_of(parent_name);
    if find_row(table, n.as_str()).is_some() {
        return Err(String::from_str("分类已经存在"));
    }
    if let Some(p) = &parent {
        if find_row(table, p.as_str()).is_none() {
            return Err(String::from_str("父分类不存在"));
        }
    }
    let order = next_order(table, &parent);
    let row = CategoryRow {
        name: n,
        icon: icon_of(icon),
        parent_name: parent,
        created_at: now,
        sort_order: order,
    };
    let ghost before = table@;
    table.push(row);
    proof {
        assert(table_view(table@) =~= table_view(before).push(row@));
    }
    Ok(())
}

impl VaultManager {
    /// Adds a category (see `create_problem` and `created_row`).
    pub fn create_category(
        table: Vec<CategoryRow>,
        name: &str,
        icon: &str,
        parent_name: Option<&str>,
        now: i64,
    ) -> (r: Result<Vec<CategoryRow>, String>)
        requires
            sibling_room(table_view(table@), typed_parent(opt_ref(parent_name))),
        ensures
            match create_problem(table_view(table@), name@, opt_ref(parent_name)) {
                Some(m) => r matches Err(e) && e@ == m,
                None => r matches Ok(t2) && table_view(t2@) == table_view(table@).push(
                    created_row(table_view(table@), name@, icon@, opt_ref(parent_name), now),
                ),
            },
    {
        let mut t = table;
        add_category(&mut t, name, icon, parent_name, now)?;
        Ok(t)
    }
}

/// Deleting a category: its children move up to its parent, then its row
/// goes.
pub open spec fn deleted_table(t: Seq<CategoryView>, n: Seq<char>) -> Seq<CategoryView> {
    let i = row_index(t, n);
    let up = t[i].parent;
    let moved = t.map_values(
        |r: CategoryView|
            if r.parent == Some(n) {
                CategoryView { parent: up, ..r }
            } else {
                r
            },
    );
    moved.remove(i)
}

impl VaultManager {
    /// Deletes a category (trimmed name). The default category cannot be
    /// deleted; a missing one is an error.
    pub fn delete_category(table: Vec<CategoryRow>, name: &str) -> (r: Result<Vec<CategoryRow>, String>)
        ensures
            trim_chars(name@) == "默认"@ ==> (r matches Err(e) && e@ == "默认分类不能删除"@),
            trim_chars(name@) != "默认"@ && !has_name(table_view(table@), trim_chars(name@)) ==> (r matches Err(e)
                && e@ == "分类不存在"@),
            trim_chars(name@) != "默认"@ && has_name(table_view(table@), trim_chars(name@)) ==> (r matches Ok(t2)
                && table_view(t2@) == deleted_table(table_view(table@), trim_chars(name@))),
            r matches Ok(t2) ==> table_view(t2@).len() == table@.len() - 1 && forall|j: int|
                0 <= j < table_view(t2@).len() ==> {
                    let k = if j < row_index(table_view(table@), trim_chars(name@)) {
                        j
                    } else {
                        j + 1
                    };
                    &&& (#[trigger] table_view(t2@)[j]).name == table_view(table@)[k].name
                    &&& table_view(t2@)[j].parent == if table_view(table@)[k].parent == Some(trim_chars(name@)) {
                        table_view(table@)[row_index(table_view(table@), trim_chars(name@))].parent
                    } else {
                        table_view(table@)[k].parent
                    }
                },
    {
        let n = trim(name);
        if str_eq(n.as_str(), "默认") {
            return Err(String::from_str("默认分类不能删除"));
        }
        let idx = match find_row(&table, n.as_str()) {
            Some(i) => i,
            None => return Err(String::from_str("分类不存在")),
        };
        let up = copy_opt(&table[idx].parent_name);
        let ghost tv = table_view(table@);
        let ghost goal_moved = tv.map_values(
            |r: CategoryView|
                if r.parent == Some(n@) {
                    CategoryView { parent: tv[idx as int].parent, ..r }
                } else {
                    r
                },
        );
        let mut out: Vec<CategoryRow> = Vec::new();
        let mut i: usize = 0;
        while i < table.len()
            invariant
                i <= table@.len(),
                tv == table_view(table@),
                tv.len() == table@.len(),
                goal_moved.len() == tv.len(),
                table_view(out@) == goal_moved.subrange(0, i as int),
                opt_str(up) == tv[idx as int].parent,
                idx < table@.len(),
                goal_moved == tv.map_values(
                    |r: CategoryView|
                        if r.parent == Some(n@) {
                            CategoryView { parent: tv[idx as int].parent, ..r }
                        } else {
                            r
                        },
                ),
            decreases table@.len() - i,
        {
            let mut row = copy_row(&table[i]);
            proof {
                assert(row@ == tv[i as int]);
            }
            let child = match &row.parent_name {
                Some(p) => *p == n,
                None => false,
            };
            if child {
                row.parent_name = copy_opt(&up);
            }
            let ghost ob = out@;
            out.push(row);
            proof {
                assert(table_view(out@) =~= table_view(ob).push(row@));
                assert(goal_moved.subrange(0, i + 1) =~= goal_moved.subrange(0, i as int).push(goal_moved[i as int]));
            }
            i = i + 1;
        }
        proof {
            assert(goal_moved.subrange(0, tv.len() as int) =~= goal_moved);
        }
        let ghost om = out@;
        out.remove(idx);
        proof {
            assert(table_view(out@) =~= table_view(om).remove(idx as int));
        }
        Ok(out)
    }
}


/// A created category is found by its trimmed name, in the new last row.
pub proof fn lemma_created_is_found(
    t: Seq<CategoryView>,
    name: Seq<char>,
    icon: Seq<char>,
    parent_in: Option<Seq<char>>,
    now: i64,
)
    requires
        create_problem(t, name, parent_in) is None,
    ensures
        row_index(t.push(created_row(t, name, icon, parent_in, now)), trim_chars(name)) == t.len(),
        has_name(t.push(created_row(t, name, icon, parent_in, now)), trim_chars(name)),
{
    let t2 = t.push(created_row(t, name, icon, parent_in, now));
    assert(t2.drop_last() =~= t);
}

/// Category names are unique in a table.
pub open spec fn names_distinct(t: Seq<CategoryView>) -> bool {
    forall|i: int, j: int| 0 <= i < j < t.len() ==> (#[trigger] t[i]).name != (#[trigger] t[j]).name
}

proof fn lemma_found_if_present(t: Seq<CategoryView>, n: Seq<char>, k: int)
    requires
        0 <= k < t.len(),
        t[k].name == n,
    ensures
        has_name(t, n),
{
    lemma_row_index(t, n);
}

/// Deleting a category removes its name from the table, and leaves no
/// category under it: its children now hang under its own parent.
pub proof fn lemma_delete_removes(t: Seq<CategoryView>, n: Seq<char>)
    requires
        names_distinct(t),
        has_name(t, n),
        t[row_index(t, n)].parent != Some(n),
    ensures
        deleted_table(t, n).len() == t.len() - 1,
        !has_name(deleted_table(t, n), n),
        forall|j: int| 0 <= j < deleted_table(t, n).len() ==> (#[trigger] deleted_table(t, n)[j]).parent != Some(n),
{
    lemma_row_index(t, n);
    let i = row_index(t, n);
    let d = deleted_table(t, n);
    assert forall|j: int| 0 <= j < d.len() implies (#[trigger] d[j]).name != n && d[j].parent != Some(n) by {
        if j < i {
            assert(d[j].name == t[j].name);
        } else {
            assert(d[j].name == t[j + 1].name);
        }
    }
    if has_name(d, n) {
        lemma_row_index(d, n);
    }
}

proof fn lemma_ancestor_stops(t: Seq<CategoryView>, x: Seq<char>, k: nat, j: nat)
    requires
        ancestor(t, x, k) is None,
        k <= j,
    ensures
        ancestor(t, x, j) is None,
    decreases j - k,
{
    if k < j {
        lemma_ancestor_stops(t, x, k, (j - 1) as nat);
    }
}

/// The first problem with a requested change of a category that needs no
/// table, as its message.
pub open spec fn update_input_problem(old_name: Seq<char>, name: Seq<char>, parent_in: Option<Seq<char>>) -> Option<
    Seq<char>,
> {
    let old = trim_chars(old_name);
    let n = trim_chars(name);
    let parent = typed_parent(parent_in);
    if old == "默认"@ && n != "默认"@ {
        Some("默认分类不能重命名"@)
    } else if n.len() == 0 {
        Some("分类名称不能为空"@)
    } else if n == "默认"@ && parent is Some {
        Some("默认分类不能设置父分类"@)
    } else if parent == Some(n) {
        Some("分类不能以自己作为父分类"@)
    } else {
        None
    }
}

/// The first problem with a requested change of a category, as its
/// message. A category cannot move under itself or one of its descendants.
pub open spec fn update_problem(
    t: Seq<CategoryView>,
    old_name: Seq<char>,
    name: Seq<char>,
    parent_in: Option<Seq<char>>,
) -> Option<Seq<char>> {
    let old = trim_chars(old_name);
    let n = trim_chars(name);
    let parent = typed_parent(parent_in);
    match update_input_problem(old_name, name, parent_in) {
        Some(m) => Some(m),
        None => if old != n && has_name(t, n) {
            Some("分类已经存在"@)
        } else if parent matches Some(p) && !has_name(t, p) {
            Some("父分类不存在"@)
        } else if parent matches Some(p) && at_or_above(t, p, old) {
            Some("不能把分类移动到自己的子分类下"@)
        } else if !has_name(t, old) {
            Some("Query returned no rows"@)
        } else {
            None
        },
    }
}

/// The table after a category change: the category gets its new name,
/// icon and parent (last among its new siblings when the parent changed);
/// after a rename its children follow the new name.
pub open spec fn updated_table(
    t: Seq<CategoryView>,
    old_name: Seq<char>,
    name: Seq<char>,
    icon: Seq<char>,
    parent_in: Option<Seq<char>>,
) -> Seq<CategoryView> {
    let old = trim_chars(old_name);
    let n = trim_chars(name);
    let parent = typed_parent(parent_in);
    let i = row_index(t, old);
    let order = if t[i].parent != parent {
        (max_order(t, parent) + 1) as i64
    } else {
        t[i].sort_order
    };
    let t1 = t.update(
        i,
        CategoryView { name: n, icon: icon_value(icon), parent: parent, sort_order: order, ..t[i] },
    );
    if old != n {
        t1.map_values(
            |r: CategoryView|
                if r.parent == Some(old) {
                    CategoryView { parent: Some(n), ..r }
                } else {
                    r
                },
        )
    } else {
        t1
    }
}

/// The checks of a category change that need no table.
pub fn update_input_check(old_name: &str, name: &str, parent_name: Option<&str>) -> (r: Result<(), String>)
    ensures
        match update_input_problem(old_name@, name@, opt_ref(parent_name)) {
            Some(m) => r matches Err(e) && e@ == m,
            None => r is Ok,
        },
{
    let old = trim(old_name);
    let n = trim(name);
    let is_default_old = str_eq(old.as_str(), "默认");
    let is_default_new = str_eq(n.as_str(), "默认");
    if is_default_old && !is_default_new {
        return Err(String::from_str("默认分类不能重命名"));
    }
    if n.as_str().unicode_len() == 0 {
        return Err(String::from_str("分类名称不能为空"));
    }
    let parent = typed_parent_of(parent_name);
    if is_default_new && parent.is_some() {
        return Err(String::from_str("默认分类不能设置父分类"));
    }
    if let Some(p) = &parent {
        if *p == n {
            return Err(String::from_str("分类不能以自己作为父分类"));
        }
    }
    Ok(())
}

/// A change of the category `old_name` moves it under another parent (only
/// then does it need a new position).
pub open spec fn moves_parent(t: Seq<CategoryView>, old_name: Seq<char>, parent_in: Option<Seq<char>>) -> bool {
    &&& has_name(t, trim_chars(old_name))
    &&& t[row_index(t, trim_chars(old_name))].parent != typed_parent(parent_in)
}

/// Whether a change of `old_name` moves it under another parent (see
/// `moves_parent`).
pub fn moves_parent_of(table: &Vec<CategoryRow>, old_name: &str, parent_name: Option<&str>) -> (r: bool)
    ensures
        r == moves_parent(table_view(table@), old_name@, opt_ref(parent_name)),
{
    let old = trim(old_name);
    let parent = typed_parent_of(parent_name);
    match find_row(table, old.as_str()) {
        Some(i) => {
            proof {
                assert(table_view(table@)[i as int] == table@[i as int]@);
            }
            !opt_string_eq(&table[i].parent_name, &parent)
        },
        None => false,
    }
}

/// Whether `target` is `from` or above it.
fn reaches(t: &Vec<CategoryRow>, from: &String, target: &String) -> (r: bool)
    ensures
        r == at_or_above(table_view(t@), from@, target@),
{
    let ghost tv = table_view(t@);
    let mut cur: Option<String> = Some(from.clone());
    let mut k: u128 = 0;
    let len = t.len() as u128;
    while k <= len && cur.is_some()
        invariant
            len == t@.len(),
            len <= usize::MAX,
            tv == table_view(t@),
            k <= len + 1,
            opt_str(cur) == ancestor(tv, from@, k as nat),
            forall|j: nat| j < k ==> ancestor(tv, from@, j) != Some(target@),
        decreases len + 1 - k,
    {
        let x = match &cur {
            Some(x) => x.clone(),
            None => String::new(),
        };
        if x == *target {
            proof {
                assert(ancestor(tv, from@, k as nat) == Some(target@));
            }
            return true;
        }
        let next = match find_row(t, x.as_str()) {
            Some(i) => copy_opt(&t[i].parent_name),
            None => None,
        };
        proof {
            assert(ancestor(tv, from@, (k + 1) as nat) == parent_step(tv, x@));
        }
        cur = next;
        k = k + 1;
    }
    proof {
        assert forall|j: nat| j <= len implies #[trigger] ancestor(tv, from@, j) != Some(target@) by {
            if j >= k {
                lemma_ancestor_stops(tv, from@, k as nat, j);
            }
        }
    }
    false
}

impl VaultManager {
    /// Changes a category: name, icon and parent (see `update_problem` and
    /// `updated_table`).
    pub fn update_category(
        table: Vec<CategoryRow>,
        old_name: &str,
        name: &str,
        icon: &str,
        parent_name: Option<&str>,
    ) -> (r: Result<Vec<CategoryRow>, String>)
        requires
            moves_parent(table_view(table@), old_name@, opt_ref(parent_name)) ==> sibling_room(
                table_view(table@),
                typed_parent(opt_ref(parent_name)),
            ),
        ensures
            match update_problem(table_view(table@), old_name@, name@, opt_ref(parent_name)) {
                Some(m) => r matches Err(e) && e@ == m,
                None => r matches Ok(t2) && table_view(t2@) == updated_table(
                    table_view(table@),
                    old_name@,
                    name@,
                    icon@,
                    opt_ref(parent_name),
                ),
            },
    {
        update_input_check(old_name, name, parent_name)?;
        let old = trim(old_name);
        let n = trim(name);
        let parent = typed_parent_of(parent_name);
        if old != n && find_row(&table, n.as_str()).is_some() {
            return Err(String::from_str("分类已经存在"));
        }
        if let Some(p) = &parent {
            if find_row(&table, p.as_str()).is_none() {
                return Err(String::from_str("父分类不存在"));
            }
            if reaches(&table, p, &old) {
                return Err(String::from_str("不能把分类移动到自己的子分类下"));
            }
        }
        let idx = match find_row(&table, old.as_str()) {
            Some(i) => i,
            None => return Err(String::from_str("Query returned no rows")),
        };
        let ghost tv = table_view(table@);
        let changed = !opt_string_eq(&table[idx].parent_name, &parent);
        let order = if changed {
            next_order(&table, &parent)
        } else {
            table[idx].sort_order
        };
        let mut t = table;
        let new_row = CategoryRow {
            name: n.clone(),
            icon: icon_of(icon),
            parent_name: copy_opt(&parent),
            created_at: t[idx].created_at,
            sort_order: order,
        };
        let ghost before = t@;
        t.set(idx, new_row);
        proof {
            assert(table_view(t@) =~= tv.update(idx as int, new_row@));
        }
        if old != n {
            let ghost t1 = table_view(t@);
            let mut out: Vec<CategoryRow> = Vec::new();
            let mut i: usize = 0;
            while i < t.len()
                invariant
                    i <= t@.len(),
                    t1 == table_view(t@),
                    t1.len() == t@.len(),
                    table_view(out@) == t1.map_values(
                        |r: CategoryView|
                            if r.parent == Some(old@) {
                                CategoryView { parent: Some(n@), ..r }
                            } else {
                                r
                            },
                    ).subrange(0, i as int),
                decreases t@.len() - i,
            {
                let mut row = copy_row(&t[i]);
                proof {
                    assert(row@ == t1[i as int]);
                }
                let child = match &row.parent_name {
                    Some(p) => *p == old,
                    None => false,
                };
                if child {
                    row.parent_name = Some(n.clone());
                }
                let ghost ob = out@;
                out.push(row);
                proof {
                    assert(table_view(out@) =~= table_view(ob).push(row@));
                }
                i = i + 1;
            }
            proof {
                let m = t1.map_values(
                    |r: CategoryView|
                        if r.parent == Some(old@) {
                            CategoryView { parent: Some(n@), ..r }
                        } else {
                            r
                        },
                );
                assert(m.subrange(0, t1.len() as int) =~= m);
            }
            Ok(out)
        } else {
            Ok(t)
        }
    }
}


/// Changing a category keeps the number of rows; afterwards the category
/// is found under its new name, and after a rename no category is left
/// under the old name: its children follow the new one.
pub proof fn lemma_update_renames(
    t: Seq<CategoryView>,
    old_name: Seq<char>,
    name: Seq<char>,
    icon: Seq<char>,
    parent_in: Option<Seq<char>>,
)
    requires
        update_problem(t, old_name, name, parent_in) is None,
    ensures
        updated_table(t, old_name, name, icon, parent_in).len() == t.len(),
        has_name(updated_table(t, old_name, name, icon, parent_in), trim_chars(name)),
        trim_chars(old_name) != trim_chars(name) ==> forall|j: int|
            0 <= j < t.len() ==> (#[trigger] updated_table(t, old_name, name, icon, parent_in)[j]).parent
                != Some(trim_chars(old_name)),
{
    let old = trim_chars(old_name);
    let n = trim_chars(name);
    lemma_row_index(t, old);
    let i = row_index(t, old);
    let u = updated_table(t, old_name, name, icon, parent_in);
    assert(u[i].name == n);
    lemma_found_if_present(u, n, i);
}

/// `rank` puts every parent before its children: a category's rank is
/// above that of its parent.
pub open spec fn ranked_by(t: Seq<CategoryView>, rank: spec_fn(Seq<char>) -> nat) -> bool {
    forall|a: int, b: int|
        #![trigger t[a], t[b]]
        0 <= a < t.len() && 0 <= b < t.len() && t[a].parent == Some(t[b].name) ==> rank(t[b].name)
            < rank(t[a].name)
}

/// The parent links have no cycle: the categories can be ranked so that
/// every parent comes before its children.
pub open spec fn parents_acyclic(t: Seq<CategoryView>) -> bool {
    exists|rank: spec_fn(Seq<char>) -> nat| ranked_by(t, rank)
}

/// Every parent that a category names is a category of the table.
pub open spec fn parents_exist(t: Seq<CategoryView>) -> bool {
    forall|a: int| 0 <= a < t.len() ==> ((#[trigger] t[a]).parent matches Some(p) ==> has_name(t, p))
}

/// `x` is `top` or lies below it, however far.
pub open spec fn below(t: Seq<CategoryView>, x: Seq<char>, top: Seq<char>) -> bool {
    exists|k: nat| #[trigger] ancestor(t, x, k) == Some(top)
}

proof fn lemma_row_of_name(t: Seq<CategoryView>, a: int)
    requires
        names_distinct(t),
        0 <= a < t.len(),
    ensures
        row_index(t, t[a].name) == a,
{
    lemma_row_index(t, t[a].name);
    let r = row_index(t, t[a].name);
    if r != a {
        if r < a {
            assert(t[r].name != t[a].name);
        } else {
            assert(t[a].name != t[r].name);
        }
    }
}

proof fn lemma_ancestor_shift(t: Seq<CategoryView>, x: Seq<char>, j: nat, y: Seq<char>, m: nat)
    requires
        ancestor(t, x, j) == Some(y),
    ensures
        ancestor(t, x, j + m) == ancestor(t, y, m),
    decreases m,
{
    if m > 0 {
        lemma_ancestor_shift(t, x, j, y, (m - 1) as nat);
        assert(ancestor(t, x, j + m) == match ancestor(t, x, (j + m - 1) as nat) {
            Some(z) => parent_step(t, z),
            None => None,
        });
    }
}

/// A child of a category below `top` is below `top` too.
proof fn lemma_child_below(t: Seq<CategoryView>, a: int, q: Seq<char>, top: Seq<char>)
    requires
        names_distinct(t),
        0 <= a < t.len(),
        t[a].parent == Some(q),
        below(t, q, top),
    ensures
        below(t, t[a].name, top),
{
    let k = choose|k: nat| #[trigger] ancestor(t, q, k) == Some(top);
    lemma_row_of_name(t, a);
    assert(ancestor(t, t[a].name, 0) == Some(t[a].name));
    assert(ancestor(t, t[a].name, 1) == Some(q));
    lemma_ancestor_shift(t, t[a].name, 1, q, k);
    assert(ancestor(t, t[a].name, 1 + k) == Some(top));
}

/// Along a chain of parents from a category, every link is a category of
/// the table and the ranks fall strictly.
proof fn lemma_chain(t: Seq<CategoryView>, rank: spec_fn(Seq<char>) -> nat, x: Seq<char>, k: nat)
    requires
        parents_exist(t),
        ranked_by(t, rank),
        has_name(t, x),
        ancestor(t, x, k) is Some,
    ensures
        forall|j: nat| j <= k ==> (#[trigger] ancestor(t, x, j)) is Some && has_name(t, ancestor(t, x, j)->0),
        forall|j1: nat, j2: nat|
            j1 < j2 <= k ==> rank((#[trigger] ancestor(t, x, j2))->0) < rank((#[trigger] ancestor(t, x, j1))->0),
    decreases k,
{
    if k > 0 {
        let km = (k - 1) as nat;
        if ancestor(t, x, km) is None {
            assert(ancestor(t, x, k) is None);
        }
        lemma_chain(t, rank, x, km);
        let y = ancestor(t, x, km)->0;
        let z = ancestor(t, x, k)->0;
        lemma_row_index(t, y);
        let r = row_index(t, y);
        assert(ancestor(t, x, k) == parent_step(t, y));
        assert(t[r].parent == Some(z));
        assert(has_name(t, z));
        lemma_row_index(t, z);
        let r2 = row_index(t, z);
        assert(t[r].parent == Some(t[r2].name));
        assert(rank(z) < rank(y));
        assert forall|j1: nat, j2: nat|
            j1 < j2 <= k implies rank((#[trigger] ancestor(t, x, j2))->0) < rank(
            (#[trigger] ancestor(t, x, j1))->0,
        ) by {
            if j2 == k && j1 < km {
                assert(rank(ancestor(t, x, km)->0) < rank(ancestor(t, x, j1)->0));
            }
        }
    }
}

/// In a ranked table whose parents all exist, a chain of parents from one
/// category to another is shorter than the table.
proof fn lemma_chain_short(t: Seq<CategoryView>, rank: spec_fn(Seq<char>) -> nat, x: Seq<char>, k: nat, y: Seq<char>)
    requires
        names_distinct(t),
        parents_exist(t),
        ranked_by(t, rank),
        has_name(t, x),
        ancestor(t, x, k) == Some(y),
    ensures
        k < t.len(),
{
    lemma_chain(t, rank, x, k);
    let f = |j: int| row_index(t, ancestor(t, x, j as nat)->0);
    assert forall|j: int| 0 <= j < k + 1 implies 0 <= #[trigger] f(j) < t.len() by {
        assert(ancestor(t, x, j as nat) is Some);
        lemma_row_index(t, ancestor(t, x, j as nat)->0);
    }
    assert forall|j1: int, j2: int| 0 <= j1 < j2 < k + 1 implies #[trigger] f(j1) != #[trigger] f(j2) by {
        let a1 = ancestor(t, x, j1 as nat)->0;
        let a2 = ancestor(t, x, j2 as nat)->0;
        assert(rank(a2) < rank(a1));
        lemma_row_index(t, a1);
        lemma_row_index(t, a2);
    }
    crate::order::lemma_pigeonhole(f, (k + 1) as int, t.len() as int);
}

/// A parent link after renaming `old` to `n`.
pub open spec fn renamed_parent(p: Option<Seq<char>>, old: Seq<char>, n: Seq<char>) -> Option<Seq<char>> {
    if old != n && p == Some(old) {
        Some(n)
    } else {
        p
    }
}

proof fn lemma_updated_rows(
    t: Seq<CategoryView>,
    old_name: Seq<char>,
    name: Seq<char>,
    icon: Seq<char>,
    parent_in: Option<Seq<char>>,
)
    requires
        has_name(t, trim_chars(old_name)),
    ensures
        ({
            let old = trim_chars(old_name);
            let n = trim_chars(name);
            let i = row_index(t, old);
            let u = updated_table(t, old_name, name, icon, parent_in);
            &&& 0 <= i < t.len()
            &&& t[i].name == old
            &&& u.len() == t.len()
            &&& u[i].name == n
            &&& u[i].parent == renamed_parent(typed_parent(parent_in), old, n)
            &&& forall|j: int|
                0 <= j < t.len() && j != i ==> (#[trigger] u[j]).name == t[j].name && u[j].parent
                    == renamed_parent(t[j].parent, old, n)
        }),
{
    lemma_row_index(t, trim_chars(old_name));
}

/// Changing a category keeps the parent links free of cycles, keeps every
/// parent a category of the table and keeps the names unique: a category
/// is never moved under itself or one of its descendants. (A parent link
/// that names no category could close a cycle when a category is renamed
/// to that name; such tables are left out.)
pub proof fn lemma_update_keeps_acyclic(
    t: Seq<CategoryView>,
    old_name: Seq<char>,
    name: Seq<char>,
    icon: Seq<char>,
    parent_in: Option<Seq<char>>,
)
    requires
        update_problem(t, old_name, name, parent_in) is None,
        names_distinct(t),
        parents_exist(t),
        parents_acyclic(t),
    ensures
        parents_acyclic(updated_table(t, old_name, name, icon, parent_in)),
        parents_exist(updated_table(t, old_name, name, icon, parent_in)),
        names_distinct(updated_table(t, old_name, name, icon, parent_in)),
{
    let old = trim_chars(old_name);
    let n = trim_chars(name);
    let pp = typed_parent(parent_in);
    let u = updated_table(t, old_name, name, icon, parent_in);
    lemma_updated_rows(t, old_name, name, icon, parent_in);
    let i = row_index(t, old);
    let rank = choose|rank: spec_fn(Seq<char>) -> nat| ranked_by(t, rank);
    // the new parent is a category outside the subtree of the moved one
    assert(ancestor(t, old, 0) == Some(old));
    if let Some(pn) = pp {
        assert(has_name(t, pn));
        assert(pn != n);
        assert(ancestor(t, pn, 0) == Some(pn));
        if below(t, pn, old) {
            let k = choose|k: nat| #[trigger] ancestor(t, pn, k) == Some(old);
            lemma_chain_short(t, rank, pn, k, old);
            assert(at_or_above(t, pn, old));
        }
        assert(pn != old);
    }
    assert(u[i].parent == pp);
    // names of the other rows differ from the new name
    assert forall|j: int| 0 <= j < t.len() && j != i implies (#[trigger] t[j]).name != n by {
        if old == n {
            if j < i {
                assert(t[j].name != t[i].name);
            } else {
                assert(t[i].name != t[j].name);
            }
        } else if t[j].name == n {
            lemma_found_if_present(t, n, j);
        }
    }
    let d: nat = match pp {
        Some(pn) => rank(pn) + 1,
        None => 0,
    };
    let rank2 = |x: Seq<char>|
        if x == n {
            (rank(old) + d) as nat
        } else if below(t, x, old) {
            (rank(x) + d) as nat
        } else {
            rank(x)
        };
    assert(below(t, old, old));
    assert forall|a: int, b: int|
        #![trigger u[a], u[b]]
        0 <= a < u.len() && 0 <= b < u.len() && u[a].parent == Some(u[b].name) implies rank2(u[b].name)
        < rank2(u[a].name) by {
        if a == i {
            let pn = pp->0;
            assert(b != i);
            assert(u[b].name == t[b].name);
            assert(!below(t, pn, old));
        } else {
            let x = t[a].name;
            assert(u[a].name == x);
            assert(x != n);
            if old != n && t[a].parent == Some(old) {
                assert(b == i);
                assert(t[a].parent == Some(t[i].name));
                lemma_child_below(t, a, old, old);
            } else {
                let q = t[a].parent->0;
                assert(t[a].parent == Some(q));
                if b == i {
                    assert(q == n);
                    if old != n {
                        assert(has_name(t, n));
                    }
                    assert(t[a].parent == Some(t[i].name));
                    lemma_child_below(t, a, old, old);
                } else {
                    assert(q == t[b].name);
                    assert(t[a].parent == Some(t[b].name));
                    assert(rank(q) < rank(x));
                    if below(t, q, old) {
                        lemma_child_below(t, a, q, old);
                    }
                }
            }
        }
    }
    assert(ranked_by(u, rank2));
    assert forall|a: int| 0 <= a < u.len() implies ((#[trigger] u[a]).parent matches Some(q) ==> has_name(
        u,
        q,
    )) by {
        if a == i {
            if let Some(pn) = pp {
                lemma_row_index(t, pn);
                let r = row_index(t, pn);
                assert(r != i);
                assert(u[r].name == pn);
                lemma_found_if_present(u, pn, r);
            }
        } else if let Some(q) = u[a].parent {
            if old != n && t[a].parent == Some(old) {
                lemma_found_if_present(u, n, i);
            } else {
                assert(t[a].parent == Some(q));
                lemma_row_index(t, q);
                let r = row_index(t, q);
                if r == i {
                    lemma_found_if_present(u, n, i);
                } else {
                    lemma_found_if_present(u, q, r);
                }
            }
        }
    }
    assert forall|a: int, b: int| 0 <= a < b < u.len() implies (#[trigger] u[a]).name != (#[trigger] u[b]).name by {
        if a != i && b != i {
            assert(t[a].name != t[b].name);
        }
    }
}

/// Creating a category keeps the parent links free of cycles, keeps every
/// parent a category of the table and keeps the names unique.
pub proof fn lemma_create_keeps_hierarchy(
    t: Seq<CategoryView>,
    name: Seq<char>,
    icon: Seq<char>,
    parent_in: Option<Seq<char>>,
    now: i64,
)
    requires
        create_problem(t, name, parent_in) is None,
        names_distinct(t),
        parents_exist(t),
        parents_acyclic(t),
    ensures
        names_distinct(t.push(created_row(t, name, icon, parent_in, now))),
        parents_exist(t.push(created_row(t, name, icon, parent_in, now))),
        parents_acyclic(t.push(created_row(t, name, icon, parent_in, now))),
{
    let n = trim_chars(name);
    let pp = typed_parent(parent_in);
    let row = created_row(t, name, icon, parent_in, now);
    let u = t.push(row);
    lemma_row_index(t, n);
    assert(!has_name(t, n));
    assert forall|a: int, b: int| 0 <= a < b < u.len() implies (#[trigger] u[a]).name != (#[trigger] u[b]).name by {
        assert(u[a] == t[a]);
        if b < t.len() {
            assert(u[b] == t[b]);
        }
    }
    assert forall|a: int| 0 <= a < u.len() implies ((#[trigger] u[a]).parent matches Some(q) ==> has_name(u, q)) by {
        if a < t.len() {
            assert(u[a] == t[a]);
            if let Some(q) = t[a].parent {
                lemma_has_name_push(t, row, q);
            }
        } else if let Some(q) = pp {
            lemma_has_name_push(t, row, q);
        }
    }
    let rank = choose|rank: spec_fn(Seq<char>) -> nat| ranked_by(t, rank);
    let d: nat = match pp {
        Some(p) => rank(p) + 1,
        None => 0,
    };
    let rank2 = |x: Seq<char>|
        if x == n {
            d
        } else {
            rank(x)
        };
    assert forall|a: int, b: int|
        #![trigger u[a], u[b]]
        0 <= a < u.len() && 0 <= b < u.len() && u[a].parent == Some(u[b].name) implies rank2(u[b].name)
        < rank2(u[a].name) by {
        if b < t.len() {
            assert(u[b] == t[b]);
            assert(t[b].name != n);
            if a < t.len() {
                assert(u[a] == t[a]);
                assert(t[a].name != n);
                assert(t[a].parent == Some(t[b].name));
            }
        } else if a < t.len() {
            assert(u[a] == t[a]);
            assert(t[a].parent == Some(n));
            assert(has_name(t, n));
        }
    }
    assert(ranked_by(u, rank2));
}

/// With unique names, the row found for a name is the one that has it.
proof fn lemma_row_index_distinct(t: Seq<CategoryView>, k: int)
    requires
        names_distinct(t),
        0 <= k < t.len(),
    ensures
        row_index(t, t[k].name) == k,
{
    lemma_row_index(t, t[k].name);
    let r = row_index(t, t[k].name);
    if r != k {
        if r < k {
            assert(t[r].name != t[k].name);
        } else {
            assert(t[k].name != t[r].name);
        }
    }
}

/// Deleting a category `n` moves its children up: every other category
/// stays, and its parent is the parent that `n` had when its parent was
/// `n`, its own parent otherwise; `n` is gone and the table is one row
/// shorter.
pub proof fn lemma_delete_moves_children_up(t: Seq<CategoryView>, n: Seq<char>, x: Seq<char>)
    requires
        names_distinct(t),
        has_name(t, n),
        has_name(t, x),
        x != n,
    ensures
        deleted_table(t, n).len() == t.len() - 1,
        has_name(deleted_table(t, n), x),
        parent_step(deleted_table(t, n), x) == (if parent_step(t, x) == Some(n) {
            parent_step(t, n)
        } else {
            parent_step(t, x)
        }),
{
    lemma_row_index(t, n);
    lemma_row_index(t, x);
    let i = row_index(t, n);
    let r = row_index(t, x);
    assert(r != i);
    let up = t[i].parent;
    let m = t.map_values(
        |v: CategoryView|
            if v.parent == Some(n) {
                CategoryView { parent: up, ..v }
            } else {
                v
            },
    );
    let d = deleted_table(t, n);
    assert(d == m.remove(i));
    let r2 = if r < i {
        r
    } else {
        r - 1
    };
    assert(d[r2] == m[r]);
    assert(d[r2].name == x);
    assert forall|a: int, b: int| 0 <= a < b < d.len() implies (#[trigger] d[a]).name != (#[trigger] d[b]).name by {
        let ka = if a < i {
            a
        } else {
            a + 1
        };
        let kb = if b < i {
            b
        } else {
            b + 1
        };
        if a < i {
            assert(d[a] == m[a]);
        } else {
            assert(d[a] == m[a + 1]);
        }
        if b < i {
            assert(d[b] == m[b]);
        } else {
            assert(d[b] == m[b + 1]);
        }
        assert(t[ka].name != t[kb].name);
    }
    lemma_row_index_distinct(d, r2);
    lemma_found_if_present(d, x, r2);
}

/// Deleting a category keeps the parent links free of cycles, keeps every
/// parent a category of the table and keeps the names unique: its children
/// move up to its own parent.
pub proof fn lemma_delete_keeps_hierarchy(t: Seq<CategoryView>, n: Seq<char>)
    requires
        has_name(t, n),
        names_distinct(t),
        parents_exist(t),
        parents_acyclic(t),
    ensures
        names_distinct(deleted_table(t, n)),
        parents_exist(deleted_table(t, n)),
        parents_acyclic(deleted_table(t, n)),
{
    lemma_row_index(t, n);
    let i = row_index(t, n);
    let up = t[i].parent;
    let m = t.map_values(
        |r: CategoryView|
            if r.parent == Some(n) {
                CategoryView { parent: up, ..r }
            } else {
                r
            },
    );
    let d = deleted_table(t, n);
    assert(d == m.remove(i));
    let rank = choose|rank: spec_fn(Seq<char>) -> nat| ranked_by(t, rank);
    assert(up != Some(n)) by {
        if up == Some(n) {
            assert(t[i].parent == Some(t[i].name));
        }
    }
    // every row of `d` stands for the row of `t` at `j` or `j + 1`
    assert forall|j: int| 0 <= j < d.len() implies {
        let k = if j < i {
            j
        } else {
            j + 1
        };
        &&& (#[trigger] d[j]).name == t[k].name
        &&& k != i
        &&& d[j].parent == (if t[k].parent == Some(n) {
            up
        } else {
            t[k].parent
        })
    } by {
        if j < i {
            assert(d[j] == m[j]);
        } else {
            assert(d[j] == m[j + 1]);
        }
    }
    assert forall|a: int, b: int| 0 <= a < b < d.len() implies (#[trigger] d[a]).name != (#[trigger] d[b]).name by {
        let ka = if a < i {
            a
        } else {
            a + 1
        };
        let kb = if b < i {
            b
        } else {
            b + 1
        };
        assert(t[ka].name != t[kb].name);
    }
    // a name of `t` other than `n` is still found in `d`
    assert forall|q: Seq<char>| has_name(t, q) && q != n implies #[trigger] has_name(d, q) by {
        lemma_row_index(t, q);
        let r = row_index(t, q);
        assert(r != i);
        let r2 = if r < i {
            r
        } else {
            r - 1
        };
        assert(d[r2].name == q);
        lemma_found_if_present(d, q, r2);
    }
    assert forall|a: int| 0 <= a < d.len() implies ((#[trigger] d[a]).parent matches Some(q) ==> has_name(d, q)) by {
        let ka = if a < i {
            a
        } else {
            a + 1
        };
        if let Some(q) = d[a].parent {
            if t[ka].parent == Some(n) {
                assert(t[i].parent == Some(q));
                assert(has_name(t, q));
            } else {
                assert(t[ka].parent == Some(q));
                assert(has_name(t, q));
            }
        }
    }
    assert forall|a: int, b: int|
        #![trigger d[a], d[b]]
        0 <= a < d.len() && 0 <= b < d.len() && d[a].parent == Some(d[b].name) implies rank(d[b].name)
        < rank(d[a].name) by {
        let ka = if a < i {
            a
        } else {
            a + 1
        };
        let kb = if b < i {
            b
        } else {
            b + 1
        };
        assert(d[a].name == t[ka].name && d[b].name == t[kb].name);
        if t[ka].parent == Some(n) {
            assert(t[ka].parent == Some(t[i].name));
            assert(t[i].parent == Some(t[kb].name));
        } else {
            assert(t[ka].parent == Some(t[kb].name));
        }
    }
    assert(ranked_by(d, rank));
}

/// Reordering only moves rows among their siblings: every row keeps its
/// name, icon, parent and creation time, and rows of other parents are
/// left as they were.
pub proof fn lemma_reorder_only_moves(t: Seq<CategoryView>, parent: Option<Seq<char>>, names: Seq<Seq<char>>)
    ensures
        reordered_table(t, parent, names).len() == t.len(),
        forall|i: int|
            0 <= i < t.len() ==> {
                let r = #[trigger] reordered_table(t, parent, names)[i];
                &&& r.name == t[i].name
                &&& r.icon == t[i].icon
                &&& r.parent == t[i].parent
                &&& r.created_at == t[i].created_at
            },
        forall|i: int| 0 <= i < t.len() && t[i].parent != parent ==> #[trigger] reordered_table(t, parent, names)[i] == t[i],
{
}

/// The names of the children of `parent` (`None`: the top level), in
/// table order.
pub open spec fn sibling_names(t: Seq<CategoryView>, parent: Option<Seq<char>>) -> Seq<Seq<char>>
    decreases t.len(),
{
    if t.len() == 0 {
        Seq::empty()
    } else {
        let prev = sibling_names(t.drop_last(), parent);
        if t.last().parent == parent {
            prev.push(t.last().name)
        } else {
            prev
        }
    }
}

/// The last position of `n` in `names`, or -1.
pub open spec fn last_index(names: Seq<Seq<char>>, n: Seq<char>) -> int
    decreases names.len(),
{
    if names.len() == 0 {
        -1
    } else if names.last() == n {
        names.len() - 1
    } else {
        last_index(names.drop_last(), n)
    }
}

/// What is wrong with a requested order of the children of `parent`: it
/// must name each of them once.
pub open spec fn reorder_problem(t: Seq<CategoryView>, parent: Option<Seq<char>>, names: Seq<Seq<char>>) -> Option<
    Seq<char>,
> {
    let cur = sibling_names(t, parent);
    if names.len() != cur.len() {
        Some("分类排序数据不完整"@)
    } else if names.to_set() != cur.to_set() {
        Some("分类排序数据无效"@)
    } else {
        None
    }
}

/// The table after reordering: each child of `parent` takes its position
/// in `names` as its sort order.
pub open spec fn reordered_table(t: Seq<CategoryView>, parent: Option<Seq<char>>, names: Seq<Seq<char>>) -> Seq<
    CategoryView,
> {
    t.map_values(
        |r: CategoryView|
            if r.parent == parent && last_index(names, r.name) >= 0 {
                CategoryView { sort_order: last_index(names, r.name) as i64, ..r }
            } else {
                r
            },
    )
}

pub open spec fn names_view(names: Seq<String>) -> Seq<Seq<char>> {
    names.map_values(|s: String| s@)
}

fn sibling_list(t: &Vec<CategoryRow>, parent: &Option<String>) -> (r: Vec<String>)
    ensures
        names_view(r@) == sibling_names(table_view(t@), opt_str(*parent)),
{
    let ghost tv = table_view(t@);
    let mut out: Vec<String> = Vec::new();
    let mut i: usize = 0;
    while i < t.len()
        invariant
            i <= t@.len(),
            tv == table_view(t@),
            names_view(out@) == sibling_names(tv.subrange(0, i as int), opt_str(*parent)),
        decreases t@.len() - i,
    {
        proof {
            assert(tv.subrange(0, i + 1).drop_last() =~= tv.subrange(0, i as int));
            assert(tv[i as int] == t@[i as int]@);
        }
        if opt_string_eq(&t[i].parent_name, parent) {
            let ghost ob = out@;
            out.push(t[i].name.clone());
            proof {
                assert(names_view(out@) =~= names_view(ob).push(t@[i as int].name@));
            }
        }
        i = i + 1;
    }
    proof {
        assert(tv.subrange(0, t@.len() as int) =~= tv);
    }
    out
}

pub(crate) fn contains_name(names: &Vec<String>, n: &String) -> (r: bool)
    ensures
        r == names_view(names@).contains(n@),
{
    let mut i: usize = 0;
    while i < names.len()
        invariant
            i <= names@.len(),
            forall|k: int| 0 <= k < i ==> names@[k]@ != n@,
        decreases names@.len() - i,
    {
        if names[i] == *n {
            proof {
                assert(names_view(names@)[i as int] == n@);
            }
            return true;
        }
        i = i + 1;
    }
    proof {
        if names_view(names@).contains(n@) {
            let k = choose|k: int| 0 <= k < names_view(names@).len() && names_view(names@)[k] == n@;
            assert(names@[k]@ == n@);
        }
    }
    false
}

fn last_position(names: &Vec<String>, n: &String) -> (r: Option<usize>)
    ensures
        match r {
            Some(i) => last_index(names_view(names@), n@) == i as int,
            None => last_index(names_view(names@), n@) < 0,
        },
{
    let ghost nv = names_view(names@);
    let mut i: usize = names.len();
    assert(nv.subrange(0, i as int) =~= nv);
    while i > 0
        invariant
            i <= names@.len(),
            nv == names_view(names@),
            last_index(nv, n@) == last_index(nv.subrange(0, i as int), n@),
        decreases i,
    {
        proof {
            assert(nv.subrange(0, i as int).drop_last() =~= nv.subrange(0, i - 1));
            assert(nv[i - 1] == names@[i - 1]@);
        }
        if names[i - 1] == *n {
            return Some(i - 1);
        }
        i = i - 1;
    }
    None
}

fn same_sets(a: &Vec<String>, b: &Vec<String>) -> (r: bool)
    ensures
        r == (names_view(a@).to_set() == names_view(b@).to_set()),
{
    let mut i: usize = 0;
    while i < a.len()
        invariant
            i <= a@.len(),
            forall|k: int| 0 <= k < i ==> names_view(b@).contains(#[trigger] names_view(a@)[k]),
        decreases a@.len() - i,
    {
        if !contains_name(b, &a[i]) {
            proof {
                assert(names_view(a@)[i as int] == a@[i as int]@);
                assert(names_view(a@).to_set().contains(a@[i as int]@));
                assert(!names_view(b@).to_set().contains(a@[i as int]@));
            }
            return false;
        }
        i = i + 1;
    }
    let mut j: usize = 0;
    while j < b.len()
        invariant
            j <= b@.len(),
            forall|k: int| 0 <= k < a@.len() ==> names_view(b@).contains(#[trigger] names_view(a@)[k]),
            forall|k: int| 0 <= k < j ==> names_view(a@).contains(#[trigger] names_view(b@)[k]),
        decreases b@.len() - j,
    {
        if !contains_name(a, &b[j]) {
            proof {
                assert(names_view(b@)[j as int] == b@[j as int]@);
                assert(names_view(b@).to_set().contains(b@[j as int]@));
                assert(!names_view(a@).to_set().contains(b@[j as int]@));
            }
            return false;
        }
        j = j + 1;
    }
    proof {
        assert forall|x: Seq<char>| names_view(a@).to_set().contains(x) == names_view(b@).to_set().contains(x) by {
            if names_view(a@).contains(x) {
                let k = choose|k: int| 0 <= k < names_view(a@).len() && names_view(a@)[k] == x;
                assert(names_view(b@).contains(names_view(a@)[k]));
            }
            if names_view(b@).contains(x) {
                let k = choose|k: int| 0 <= k < names_view(b@).len() && names_view(b@)[k] == x;
                assert(names_view(a@).contains(names_view(b@)[k]));
            }
        }
        assert(names_view(a@).to_set() =~= names_view(b@).to_set());
    }
    true
}

impl VaultManager {
    /// Puts the children of `parent` in the order of `names` (see
    /// `reorder_problem` and `reordered_table`).
    pub fn reorder_categories(table: Vec<CategoryRow>, parent_name: Option<&str>, names: &Vec<String>) -> (r: Result<
        Vec<CategoryRow>,
        String,
    >)
        ensures
            match reorder_problem(table_view(table@), opt_ref(parent_name), names_view(names@)) {
                Some(m) => r matches Err(e) && e@ == m,
                None => r matches Ok(t2) && table_view(t2@) == reordered_table(
                    table_view(table@),
                    opt_ref(parent_name),
                    names_view(names@),
                ),
            },
    {
        let parent: Option<String> = match parent_name {
            Some(p) => Some(String::from_str(p)),
            None => None,
        };
        let cur = sibling_list(&table, &parent);
        if names.len() != cur.len() {
            proof {
                assert(names_view(names@).len() == names@.len());
                assert(names_view(cur@).len() == cur@.len());
            }
            return Err(String::from_str("分类排序数据不完整"));
        }
        if !same_sets(names, &cur) {
            return Err(String::from_str("分类排序数据无效"));
        }
        let ghost tv = table_view(table@);
        let ghost goal = reordered_table(tv, opt_ref(parent_name), names_view(names@));
        let mut t = table;
        let mut i: usize = 0;
        while i < t.len()
            invariant
                i <= t@.len(),
                tv.len() == t@.len(),
                goal.len() == tv.len(),
                opt_str(parent) == opt_ref(parent_name),
                goal == reordered_table(tv, opt_ref(parent_name), names_view(names@)),
                forall|k: int| 0 <= k < i ==> t@[k]@ == goal[k],
                forall|k: int| i <= k < t@.len() ==> t@[k]@ == tv[k],
            decreases t@.len() - i,
        {
            if opt_string_eq(&t[i].parent_name, &parent) {
                match last_position(names, &t[i].name) {
                    Some(pos) => {
                        let mut row = copy_row(&t[i]);
                        row.sort_order = pos as i64;
                        t.set(i, row);
                    },
                    None => {},
                }
            }
            i = i + 1;
        }
        proof {
            assert(table_view(t@) =~= goal);
        }
        Ok(t)
    }
}

/// The order of the category list: top-level categories first, then
/// children grouped by parent name, each group by position, then by age.
pub struct ListOrder;

pub open spec fn parent_key(r: CategoryRow) -> Seq<char> {
    match r.parent_name {
        Some(p) => p@,
        None => Seq::empty(),
    }
}

pub open spec fn group_of(r: CategoryRow) -> int {
    if r.parent_name is None {
        0
    } else {
        1
    }
}

pub open spec fn chars_lt(a: Seq<char>, b: Seq<char>) -> bool {
    chars_le(a, b) && a != b
}

impl Order<CategoryRow> for ListOrder {
    open spec fn le(&self, a: CategoryRow, b: CategoryRow) -> bool {
        group_of(a) < group_of(b) || (group_of(a) == group_of(b) && (chars_lt(
            parent_key(a),
            parent_key(b),
        ) || (parent_key(a) == parent_key(b) && (a.sort_order < b.sort_order || (a.sort_order
            == b.sort_order && a.created_at <= b.created_at)))))
    }

    fn le_exec(&self, a: &CategoryRow, b: &CategoryRow) -> (r: bool) {
        let ga: u8 = if a.parent_name.is_none() {
            0
        } else {
            1
        };
        let gb: u8 = if b.parent_name.is_none() {
            0
        } else {
            1
        };
        if ga != gb {
            return ga < gb;
        }
        let pa = match &a.parent_name {
            Some(p) => p.clone(),
            None => String::new(),
        };
        let pb = match &b.parent_name {
            Some(p) => p.clone(),
            None => String::new(),
        };
        if pa != pb {
            return str_le(pa.as_str(), pb.as_str());
        }
        a.sort_order < b.sort_order || (a.sort_order == b.sort_order && a.created_at <= b.created_at)
    }

    proof fn le_total(&self, a: CategoryRow, b: CategoryRow) {
        lemma_chars_le_total(parent_key(a), parent_key(b));
    }

    proof fn le_trans(&self, a: CategoryRow, b: CategoryRow, c: CategoryRow) {
        let (x, y, z) = (parent_key(a), parent_key(b), parent_key(c));
        if chars_le(x, y) && chars_le(y, z) {
            lemma_chars_le_trans(x, y, z);
            if x == z && x != y {
                lemma_chars_le_antisym(x, y);
            }
        }
    }
}

/// The categories `r` list the rows `rows`, in order.
pub open spec fn lists_rows(r: Seq<crate::model::Category>, rows: Seq<CategoryRow>) -> bool {
    &&& r.len() == rows.len()
    &&& forall|i: int|
        0 <= i < rows.len() ==> (#[trigger] r[i]).name@ == rows[i].name@ && r[i].icon@ == rows[i].icon@
            && opt_str(r[i].parent_name) == opt_str(rows[i].parent_name)
}

fn rows_to_categories(rows: Vec<CategoryRow>) -> (r: Vec<crate::model::Category>)
    ensures
        lists_rows(r@, rows@),
{
    let ghost sv = rows@;
    let mut src = rows;
    let mut out: Vec<crate::model::Category> = Vec::new();
    let mut i: usize = 0;
    let n = src.len();
    while src.len() > 0
        invariant
            n == sv.len(),
            i + src@.len() == n,
            src@ == sv.subrange(i as int, n as int),
            out@.len() == i,
            forall|k: int|
                0 <= k < i ==> (#[trigger] out@[k]).name@ == sv[k].name@ && out@[k].icon@ == sv[k].icon@
                    && opt_str(out@[k].parent_name) == opt_str(sv[k].parent_name),
        decreases src@.len(),
    {
        let row = src.remove(0);
        proof {
            assert(row == sv[i as int]);
            assert(src@ =~= sv.subrange(i + 1, n as int));
        }
        out.push(crate::model::Category { name: row.name, icon: row.icon, parent_name: row.parent_name });
        i = i + 1;
    }
    out
}

/// The names of the categories that every vault has.
pub open spec fn default_names() -> Seq<Seq<char>> {
    seq!["默认"@, "工作"@, "财务"@, "社交"@, "开发"@, "其他"@]
}

proof fn lemma_has_name_push(t: Seq<CategoryView>, x: CategoryView, n: Seq<char>)
    requires
        has_name(t, n),
    ensures
        has_name(t.push(x), n),
{
    assert(t.push(x).drop_last() =~= t);
}

/// A new top-level category with a new name keeps the hierarchy sound.
proof fn lemma_push_top_keeps_hierarchy(t: Seq<CategoryView>, row: CategoryView)
    requires
        !has_name(t, row.name),
        row.parent is None,
        names_distinct(t),
        parents_exist(t),
        parents_acyclic(t),
    ensures
        names_distinct(t.push(row)),
        parents_exist(t.push(row)),
        parents_acyclic(t.push(row)),
{
    let u = t.push(row);
    lemma_row_index(t, row.name);
    assert forall|a: int, b: int| 0 <= a < b < u.len() implies (#[trigger] u[a]).name != (#[trigger] u[b]).name by {
        assert(u[a] == t[a]);
        if b < t.len() {
            assert(u[b] == t[b]);
        }
    }
    assert forall|a: int| 0 <= a < u.len() implies ((#[trigger] u[a]).parent matches Some(q) ==> has_name(u, q)) by {
        if a < t.len() {
            assert(u[a] == t[a]);
            if let Some(q) = t[a].parent {
                lemma_has_name_push(t, row, q);
            }
        }
    }
    let rank = choose|rank: spec_fn(Seq<char>) -> nat| ranked_by(t, rank);
    assert forall|a: int, b: int|
        #![trigger u[a], u[b]]
        0 <= a < u.len() && 0 <= b < u.len() && u[a].parent == Some(u[b].name) implies rank(u[b].name) < rank(
            u[a].name,
        ) by {
        if a < t.len() {
            assert(u[a] == t[a]);
            if b < t.len() {
                assert(u[b] == t[b]);
                assert(t[a].parent == Some(t[b].name));
            } else {
                assert(t[a].parent == Some(row.name));
                assert(has_name(t, row.name));
            }
        }
    }
    assert(ranked_by(u, rank));
}

/// The table with every default category that is missing added at the end
/// (top level, its default icon and position, stamped `now`), as every
/// opening of the vault does.
pub fn with_defaults(table: Vec<CategoryRow>, now: i64) -> (r: Vec<CategoryRow>)
    ensures
        r@.len() >= table@.len(),
        table_view(r@).subrange(0, table@.len() as int) == table_view(table@),
        forall|k: int| 0 <= k < 6 ==> has_name(table_view(r@), #[trigger] default_names()[k]),
        names_distinct(table_view(table@)) && parents_exist(table_view(table@)) && parents_acyclic(
            table_view(table@),
        ) ==> names_distinct(table_view(r@)) && parents_exist(table_view(r@)) && parents_acyclic(
            table_view(r@),
        ),
{
    let defaults = default_categories();
    let ghost orig = table_view(table@);
    let mut t = table;
    let mut j: usize = 0;
    proof {
        assert(table_view(t@).subrange(0, orig.len() as int) =~= orig);
    }
    while j < 6
        invariant
            defaults@.len() == 6,
            forall|k: int| 0 <= k < 6 ==> (#[trigger] defaults@[k]).0@ == default_names()[k],
            j <= 6,
            t@.len() >= orig.len(),
            table_view(t@).subrange(0, orig.len() as int) == orig,
            forall|k: int| 0 <= k < j ==> has_name(table_view(t@), #[trigger] default_names()[k]),
            names_distinct(orig) && parents_exist(orig) && parents_acyclic(orig) ==> names_distinct(
                table_view(t@),
            ) && parents_exist(table_view(t@)) && parents_acyclic(table_view(t@)),
        decreases 6 - j,
    {
        let (n, icon, order) = (&defaults[j].0, &defaults[j].1, defaults[j].2);
        if find_row(&t, n.as_str()).is_none() {
            let row = CategoryRow {
                name: n.clone(),
                icon: icon.clone(),
                parent_name: None,
                created_at: now,
                sort_order: order,
            };
            let ghost before = table_view(t@);
            t.push(row);
            proof {
                assert(table_view(t@) =~= before.push(row@));
                if names_distinct(orig) && parents_exist(orig) && parents_acyclic(orig) {
                    lemma_push_top_keeps_hierarchy(before, row@);
                }
                assert forall|k: int| 0 <= k < j implies has_name(table_view(t@), #[trigger] default_names()[k]) by {
                    lemma_has_name_push(before, row@, default_names()[k]);
                }
                assert(table_view(t@)[before.len() as int].name == default_names()[j as int]);
                lemma_found_if_present(table_view(t@), default_names()[j as int], before.len() as int);
                assert(table_view(t@).subrange(0, orig.len() as int) =~= before.subrange(0, orig.len() as int));
            }
        }
        j = j + 1;
    }
    t
}

impl VaultManager {
    /// The categories as listed: the table with any missing default
    /// category added (see `with_defaults`), in the order of `ListOrder`,
    /// stable, so rows that compare equal keep their table order. The six
    /// default categories are always listed.
    pub fn list_categories(table: Vec<CategoryRow>, now: i64) -> (r: Vec<crate::model::Category>)
        ensures
            exists|full: Seq<CategoryRow>, sorted: Seq<CategoryRow>|
                {
                    &&& full.len() >= table@.len()
                    &&& table_view(full).subrange(0, table@.len() as int) == table_view(table@)
                    &&& #[trigger] is_stable_sort_of(&ListOrder, sorted, full)
                    &&& lists_rows(r@, sorted)
                },
            forall|k: int|
                #![trigger default_names()[k]]
                0 <= k < 6 ==> exists|i: int| 0 <= i < r@.len() && (#[trigger] r@[i]).name@ == default_names()[k],
    {
        let full = with_defaults(table, now);
        let ghost fv = full@;
        let sorted = stable_sort(full, &ListOrder);
        let ghost sv = sorted@;
        let r = rows_to_categories(sorted);
        proof {
            let p = choose|p: Seq<int>|
                {
                    &&& crate::order::is_permutation(p, fv.len())
                    &&& sv.len() == fv.len()
                    &&& forall|k: int| 0 <= k < sv.len() ==> sv[k] == fv[#[trigger] p[k]]
                    &&& crate::order::is_sorted_by(&ListOrder, sv)
                    &&& forall|a: int, b: int|
                        0 <= a < b < sv.len() && ListOrder.le(sv[b], sv[a]) ==> p[a] < p[b]
                };
            assert forall|k: int| #![trigger default_names()[k]] 0 <= k < 6 implies exists|i: int|
                0 <= i < r@.len() && (#[trigger] r@[i]).name@ == default_names()[k] by {
                let d = default_names()[k];
                lemma_row_index(table_view(fv), d);
                let idx = row_index(table_view(fv), d);
                crate::order::lemma_permutation_onto(p, fv.len(), idx);
                let i = choose|i: int| 0 <= i < fv.len() && #[trigger] p[i] == idx;
                assert(r@[i].name@ == sv[i].name@);
                assert(table_view(fv)[idx] == fv[idx]@);
            }
        }
        r
    }
}

/// The order of a category table of the earliest format, which has no
/// parents: by position, then by age.
pub struct PositionOrder;

impl Order<CategoryRow> for PositionOrder {
    open spec fn le(&self, a: CategoryRow, b: CategoryRow) -> bool {
        a.sort_order < b.sort_order || (a.sort_order == b.sort_order && a.created_at <= b.created_at)
    }

    fn le_exec(&self, a: &CategoryRow, b: &CategoryRow) -> (r: bool) {
        a.sort_order < b.sort_order || (a.sort_order == b.sort_order && a.created_at <= b.created_at)
    }

    proof fn le_total(&self, a: CategoryRow, b: CategoryRow) {
    }

    proof fn le_trans(&self, a: CategoryRow, b: CategoryRow, c: CategoryRow) {
    }
}

/// A category row read from a backup: name, icon, parent, position and
/// creation time, as the backup's table has them.
pub type BackupCategoryRow = (String, Option<String>, Option<String>, i64, i64);

/// The row a backup's category becomes: a table without the icon column
/// gives the folder sign, one without the parent column makes every
/// category top-level.
pub open spec fn backup_row_ok(row: CategoryRow, src: BackupCategoryRow, has_icon: bool, has_parent: bool) -> bool {
    &&& row.name@ == src.0@
    &&& row.icon@ == (if has_icon && src.1 is Some {
        (src.1->0)@
    } else {
        "📁"@
    })
    &&& opt_str(row.parent_name) == (if has_parent {
        opt_str(src.2)
    } else {
        None
    })
    &&& row.sort_order == src.3
    &&& row.created_at == src.4
}

pub open spec fn backup_listing_with(
    r: Seq<crate::model::Category>,
    rows: Seq<BackupCategoryRow>,
    has_icon: bool,
    has_parent: bool,
    pre: Seq<CategoryRow>,
    sorted: Seq<CategoryRow>,
) -> bool {
    &&& pre.len() == rows.len()
    &&& forall|i: int| 0 <= i < rows.len() ==> backup_row_ok(#[trigger] pre[i], rows[i], has_icon, has_parent)
    &&& if has_parent {
        is_stable_sort_of(&ListOrder, sorted, pre)
    } else {
        is_stable_sort_of(&PositionOrder, sorted, pre)
    }
    &&& lists_rows(r, sorted)
}

/// The categories of a backup as listed: the rows with the defaults of
/// older formats applied, in the order of the table's format (`ListOrder`
/// with parents, `PositionOrder` without).
pub open spec fn backup_listing(
    r: Seq<crate::model::Category>,
    rows: Seq<BackupCategoryRow>,
    has_icon: bool,
    has_parent: bool,
) -> bool {
    exists|pre: Seq<CategoryRow>, sorted: Seq<CategoryRow>|
        #[trigger] backup_listing_with(r, rows, has_icon, has_parent, pre, sorted)
}

/// The categories of a backup (see `backup_listing`), also from the table
/// formats of older versions.
pub fn backup_categories(rows: Vec<BackupCategoryRow>, has_icon: bool, has_parent: bool) -> (r: Vec<
    crate::model::Category,
>)
    ensures
        backup_listing(r@, rows@, has_icon, has_parent),
        r@.len() == rows@.len(),
        !has_parent ==> forall|i: int| 0 <= i < r@.len() ==> (#[trigger] r@[i]).parent_name is None,
        !has_icon ==> forall|i: int| 0 <= i < r@.len() ==> (#[trigger] r@[i]).icon@ == "📁"@,
{
    let ghost src = rows@;
    let mut pre: Vec<CategoryRow> = Vec::new();
    let mut i: usize = 0;
    while i < rows.len()
        invariant
            src == rows@,
            i <= rows@.len(),
            pre@.len() == i,
            forall|k: int| 0 <= k < i ==> backup_row_ok(#[trigger] pre@[k], src[k], has_icon, has_parent),
        decreases rows@.len() - i,
    {
        let icon = if has_icon {
            match &rows[i].1 {
                Some(x) => x.clone(),
                None => String::from_str("📁"),
            }
        } else {
            String::from_str("📁")
        };
        let parent = if has_parent {
            copy_opt(&rows[i].2)
        } else {
            None
        };
        pre.push(
            CategoryRow {
                name: rows[i].0.clone(),
                icon,
                parent_name: parent,
                created_at: rows[i].4,
                sort_order: rows[i].3,
            },
        );
        i = i + 1;
    }
    let ghost pv = pre@;
    let sorted = if has_parent {
        stable_sort(pre, &ListOrder)
    } else {
        stable_sort(pre, &PositionOrder)
    };
    let ghost sv = sorted@;
    let r = rows_to_categories(sorted);
    proof {
        assert(backup_listing_with(r@, rows@, has_icon, has_parent, pv, sv));
        if has_parent {
            let p = choose|p: Seq<int>|
                {
                    &&& crate::order::is_permutation(p, pv.len())
                    &&& sv.len() == pv.len()
                    &&& forall|k: int| 0 <= k < sv.len() ==> sv[k] == pv[#[trigger] p[k]]
                    &&& crate::order::is_sorted_by(&ListOrder, sv)
                    &&& forall|a: int, b: int|
                        0 <= a < b < sv.len() && ListOrder.le(sv[b], sv[a]) ==> p[a] < p[b]
                };
            assert forall|k: int| 0 <= k < r@.len() && !has_icon implies (#[trigger] r@[k]).icon@ == "📁"@ by {
                assert(sv[k] == pv[p[k]]);
                assert(backup_row_ok(pv[p[k]], src[p[k]], has_icon, has_parent));
            }
        } else {
            let p = choose|p: Seq<int>|
                {
                    &&& crate::order::is_permutation(p, pv.len())
                    &&& sv.len() == pv.len()
                    &&& forall|k: int| 0 <= k < sv.len() ==> sv[k] == pv[#[trigger] p[k]]
                    &&& crate::order::is_sorted_by(&PositionOrder, sv)
                    &&& forall|a: int, b: int|
                        0 <= a < b < sv.len() && PositionOrder.le(sv[b], sv[a]) ==> p[a] < p[b]
                };
            assert forall|k: int| 0 <= k < r@.len() implies (#[trigger] r@[k]).parent_name is None && (!has_icon
                ==> r@[k].icon@ == "📁"@) by {
                assert(sv[k] == pv[p[k]]);
                assert(backup_row_ok(pv[p[k]], src[p[k]], has_icon, has_parent));
            }
        }
    }
    r
}

/// The categories every vault starts with: name, icon and position.
pub fn default_categories() -> (r: Vec<(String, String, i64)>)
    ensures
        r@.len() == 6,
        r@[0].0@ == "默认"@ && r@[0].1@ == "▦"@ && r@[0].2 == 0,
        r@[1].0@ == "工作"@ && r@[1].1@ == "💼"@ && r@[1].2 == 1,
        r@[2].0@ == "财务"@ && r@[2].1@ == "💰"@ && r@[2].2 == 2,
        r@[3].0@ == "社交"@ && r@[3].1@ == "👥"@ && r@[3].2 == 3,
        r@[4].0@ == "开发"@ && r@[4].1@ == "💻"@ && r@[4].2 == 4,
        r@[5].0@ == "其他"@ && r@[5].1@ == "📁"@ && r@[5].2 == 5,
{
    let mut v: Vec<(String, String, i64)> = Vec::new();
    v.push((String::from_str("默认"), String::from_str("▦"), 0));
    v.push((String::from_str("工作"), String::from_str("💼"), 1));
    v.push((String::from_str("财务"), String::from_str("💰"), 2));
    v.push((String::from_str("社交"), String::from_str("👥"), 3));
    v.push((String::from_str("开发"), String::from_str("💻"), 4));
    v.push((String::from_str("其他"), String::from_str("📁"), 5));
    v
}


/// Where a pass of the category merge stands.
#[verifier::ext_equal]
pub struct MergeState {
    pub table: Seq<CategoryView>,
    pub next: Seq<crate::model::Category>,
    pub progressed: bool,
    pub error: Option<Seq<char>>,
}

/// One category of a backup in a merge pass: a blank name is dropped; a
/// category that exists, or whose parent exists (or that has none), is
/// settled (created if missing); any other waits for the next pass.
pub open spec fn merge_step(st: MergeState, cat: crate::model::Category, now: i64) -> MergeState {
    if st.error is Some {
        st
    } else if trim_chars(cat.name@).len() == 0 {
        st
    } else {
        let present = has_name(st.table, cat.name@);
        let parent_exists = match cat.parent_name {
            None => true,
            Some(p) => has_name(st.table, p@),
        };
        if present || parent_exists {
            if !present {
                match create_problem(st.table, cat.name@, opt_str(cat.parent_name)) {
                    Some(m) => MergeState { error: Some(m), ..st },
                    None => MergeState {
                        table: st.table.push(
                            created_row(st.table, cat.name@, cat.icon@, opt_str(cat.parent_name), now),
                        ),
                        progressed: true,
                        ..st
                    },
                }
            } else {
                MergeState { progressed: true, ..st }
            }
        } else {
            MergeState { next: st.next.push(cat), ..st }
        }
    }
}

/// A pass over the waiting categories, in order.
pub open spec fn merge_pass(st: MergeState, cats: Seq<crate::model::Category>, now: i64) -> MergeState
    decreases cats.len(),
{
    if cats.len() == 0 {
        st
    } else {
        merge_step(merge_pass(st, cats.drop_last(), now), cats.last(), now)
    }
}

pub proof fn lemma_pass_shrinks(st: MergeState, cats: Seq<crate::model::Category>, now: i64)
    ensures
        merge_pass(st, cats, now).next.len() <= st.next.len() + cats.len(),
        merge_pass(st, cats, now).error is None && merge_pass(st, cats, now).progressed
            && !st.progressed ==> merge_pass(st, cats, now).next.len() < st.next.len() + cats.len(),
    decreases cats.len(),
{
    if cats.len() > 0 {
        lemma_pass_shrinks(st, cats.drop_last(), now);
    }
}

proof fn lemma_error_sticks(st: MergeState, cats: Seq<crate::model::Category>, now: i64)
    requires
        st.error is Some,
    ensures
        merge_pass(st, cats, now) == st,
    decreases cats.len(),
{
    if cats.len() > 0 {
        lemma_error_sticks(st, cats.drop_last(), now);
    }
}

proof fn lemma_pass_split(st: MergeState, a: Seq<crate::model::Category>, b: Seq<crate::model::Category>, now: i64)
    ensures
        merge_pass(st, a + b, now) == merge_pass(merge_pass(st, a, now), b, now),
    decreases b.len(),
{
    if b.len() == 0 {
        assert(a + b =~= a);
    } else {
        assert((a + b).drop_last() =~= a + b.drop_last());
        lemma_pass_split(st, a, b.drop_last(), now);
    }
}

pub open spec fn fresh_state(t: Seq<CategoryView>) -> MergeState {
    MergeState { table: t, next: Seq::empty(), progressed: false, error: None }
}

/// Merging the categories of a backup: passes repeat over the waiting ones
/// until none wait; a pass that settles none means a parent can never be
/// found. The table as it stands when the merge ends (created categories
/// stay), and the error if it failed.
pub open spec fn merge_rounds(t: Seq<CategoryView>, pending: Seq<crate::model::Category>, now: i64) -> (Seq<
    CategoryView,
>, Option<Seq<char>>)
    decreases pending.len(),
{
    if pending.len() == 0 {
        (t, None)
    } else {
        let st = merge_pass(fresh_state(t), pending, now);
        if st.error is Some {
            (st.table, st.error)
        } else if !st.progressed {
            (st.table, Some("备份中的分类层级无效：找不到父分类"@))
        } else {
            proof {
                lemma_pass_shrinks(fresh_state(t), pending, now);
            }
            merge_rounds(st.table, st.next, now)
        }
    }
}

/// The category forest is sound: names unique, every parent a category of
/// the table, no cycle of parent links.
pub open spec fn sound_hierarchy(t: Seq<CategoryView>) -> bool {
    names_distinct(t) && parents_exist(t) && parents_acyclic(t)
}

proof fn lemma_step_keeps_hierarchy(st: MergeState, cat: crate::model::Category, now: i64)
    requires
        sound_hierarchy(st.table),
    ensures
        sound_hierarchy(merge_step(st, cat, now).table),
{
    if st.error is None && trim_chars(cat.name@).len() != 0 && !has_name(st.table, cat.name@) {
        if create_problem(st.table, cat.name@, opt_str(cat.parent_name)) is None {
            lemma_create_keeps_hierarchy(st.table, cat.name@, cat.icon@, opt_str(cat.parent_name), now);
        }
    }
}

proof fn lemma_pass_keeps_hierarchy(st: MergeState, cats: Seq<crate::model::Category>, now: i64)
    requires
        sound_hierarchy(st.table),
    ensures
        sound_hierarchy(merge_pass(st, cats, now).table),
    decreases cats.len(),
{
    if cats.len() > 0 {
        lemma_pass_keeps_hierarchy(st, cats.drop_last(), now);
        lemma_step_keeps_hierarchy(merge_pass(st, cats.drop_last(), now), cats.last(), now);
    }
}

/// Merging a backup's categories keeps the category forest sound, also
/// when the merge stops on a category whose parent is never found: every
/// category it creates is created as `create_category` would create it.
pub proof fn lemma_merge_keeps_hierarchy(t: Seq<CategoryView>, pending: Seq<crate::model::Category>, now: i64)
    requires
        sound_hierarchy(t),
    ensures
        sound_hierarchy(merge_rounds(t, pending, now).0),
    decreases pending.len(),
{
    if pending.len() > 0 {
        let st = merge_pass(fresh_state(t), pending, now);
        lemma_pass_keeps_hierarchy(fresh_state(t), pending, now);
        if st.error is None && st.progressed {
            lemma_pass_shrinks(fresh_state(t), pending, now);
            lemma_merge_keeps_hierarchy(st.table, st.next, now);
        }
    }
}

pub open spec fn orders_at_most(t: Seq<CategoryView>, b: int) -> bool {
    forall|i: int| 0 <= i < t.len() ==> (#[trigger] t[i]).sort_order <= b
}

proof fn lemma_max_order_at_most(t: Seq<CategoryView>, p: Option<Seq<char>>, b: int)
    requires
        orders_at_most(t, b),
        b >= -1,
    ensures
        i64::MIN <= max_order(t, p) <= b,
    decreases t.len(),
{
    if t.len() > 0 {
        lemma_max_order_at_most(t.drop_last(), p, b);
    }
}

/// Whether the categories of a backup can all be numbered: every position
/// plus the number of waiting categories stays within `i64`.
pub fn has_merge_room(table: &Vec<CategoryRow>, pending_len: usize) -> (r: bool)
    ensures
        r == (pending_len <= i64::MAX && orders_at_most(table_view(table@), i64::MAX - pending_len)),
{
    if pending_len as u64 > i64::MAX as u64 {
        return false;
    }
    let bound: i64 = i64::MAX - pending_len as i64;
    let ghost tv = table_view(table@);
    let mut i: usize = 0;
    while i < table.len()
        invariant
            i <= table@.len(),
            tv == table_view(table@),
            bound == i64::MAX - pending_len,
            forall|k: int| 0 <= k < i ==> (#[trigger] tv[k]).sort_order <= bound,
        decreases table@.len() - i,
    {
        proof {
            assert(tv[i as int] == table@[i as int]@);
        }
        if table[i].sort_order > bound {
            return false;
        }
        i = i + 1;
    }
    true
}

/// Adds the categories of a backup to the table (see `merge_rounds`).
pub fn merge_categories(table: Vec<CategoryRow>, pending: Vec<crate::model::Category>, now: i64) -> (r: (
    Vec<CategoryRow>,
    Option<String>,
))
    requires
        pending@.len() <= i64::MAX,
        orders_at_most(table_view(table@), i64::MAX - pending@.len()),
    ensures
        table_view(r.0@) == merge_rounds(table_view(table@), pending@, now).0,
        opt_str(r.1) == merge_rounds(table_view(table@), pending@, now).1,
{
    let ghost total = pending@.len();
    let ghost goal = merge_rounds(table_view(table@), pending@, now);
    let ghost orig_t = table_view(table@);
    let ghost orig_p = pending@;
    let mut t = table;
    let mut pend = pending;
    let ghost mut made: int = 0;
    while pend.len() > 0
        invariant
            goal == merge_rounds(table_view(t@), pend@, now),
            goal == merge_rounds(orig_t, orig_p, now),
            goal == merge_rounds(table_view(table@), pending@, now),
            orders_at_most(table_view(t@), i64::MAX - total + made),
            0 <= made,
            made + pend@.len() <= total,
            total <= i64::MAX,
        decreases pend@.len(),
    {
        let ghost t0 = table_view(t@);
        let ghost p0 = pend@;
        let ghost made0 = made;
        let mut next: Vec<crate::model::Category> = Vec::new();
        let mut progressed = false;
        let mut i: usize = 0;
        let n = pend.len();
        while pend.len() > 0
            invariant
                n == p0.len(),
                i + pend@.len() == n,
                pend@ == p0.subrange(i as int, n as int),
                merge_pass(fresh_state(t0), p0.subrange(0, i as int), now) == (MergeState {
                    table: table_view(t@),
                    next: next@,
                    progressed: progressed,
                    error: None,
                }),
                orders_at_most(table_view(t@), i64::MAX - total + made),
                0 <= made0 <= made,
                made - made0 + next@.len() <= i,
                made0 + n <= total,
                total <= i64::MAX,
                goal == merge_rounds(t0, p0, now),
                goal == merge_rounds(orig_t, orig_p, now),
                goal == merge_rounds(table_view(table@), pending@, now),
                p0.len() > 0,
            decreases pend@.len(),
        {
            let ghost st_before = merge_pass(fresh_state(t0), p0.subrange(0, i as int), now);
            let ghost made_before = made;
            let cat = pend.remove(0);
            proof {
                assert(p0.subrange(0, i + 1).drop_last() =~= p0.subrange(0, i as int));
                assert(cat == p0[i as int]);
                assert(p0.subrange(0, i + 1).last() == cat);
                assert(pend@ =~= p0.subrange(i + 1, n as int));
                assert(merge_pass(fresh_state(t0), p0.subrange(0, i + 1), now) == merge_step(
                    st_before,
                    cat,
                    now,
                ));
            }
            let ghost cat_g = cat;
            let name_t = trim(cat.name.as_str());
            if name_t.as_str().unicode_len() == 0 {
                proof {
                    assert(trim_chars(cat.name@).len() == 0);
                    assert(merge_step(st_before, cat, now) == st_before);
                }
                i = i + 1;
                continue;
            }
            let present = find_row(&t, cat.name.as_str()).is_some();
            let parent_exists = match &cat.parent_name {
                None => true,
                Some(p) => find_row(&t, p.as_str()).is_some(),
            };
            proof {
                assert(present == has_name(st_before.table, cat.name@));
                assert(parent_exists == match cat.parent_name {
                    None => true,
                    Some(p) => has_name(st_before.table, p@),
                });
            }
            if present || parent_exists {
                if !present {
                    let parent_ref: Option<&str> = match &cat.parent_name {
                        Some(p) => Some(p.as_str()),
                        None => None,
                    };
                    proof {
                        assert(opt_ref(parent_ref) == opt_str(cat.parent_name));
                        lemma_max_order_at_most(
                            table_view(t@),
                            typed_parent(opt_str(cat.parent_name)),
                            i64::MAX - total + made,
                        );
                        assert(max_order(table_view(t@), typed_parent(opt_str(cat.parent_name))) < i64::MAX);
                    }
                    match add_category(&mut t, cat.name.as_str(), cat.icon.as_str(), parent_ref, now) {
                        Ok(()) => {
                            proof {
                                made = made + 1;
                                let tv = table_view(t@);
                                assert forall|k: int| 0 <= k < tv.len() implies (#[trigger] tv[k]).sort_order
                                    <= i64::MAX - total + made by {
                                    if k < tv.len() - 1 {
                                        assert(tv[k] == st_before.table[k]);
                                    }
                                }
                                assert(create_problem(st_before.table, cat.name@, opt_str(cat.parent_name)) is None);
                                assert(tv == st_before.table.push(created_row(st_before.table, cat.name@, cat.icon@, opt_str(cat.parent_name), now)));
                            }
                        },
                        Err(e) => {
                            proof {
                                let st = merge_pass(fresh_state(t0), p0.subrange(0, i + 1), now);
                                assert(st.error == Some(e@));
                                assert(st.table == table_view(t@));
                                lemma_error_sticks(st, p0.subrange(i + 1, n as int), now);
                                assert(p0.subrange(0, i + 1) + p0.subrange(i + 1, n as int) =~= p0);
                                lemma_pass_split(fresh_state(t0), p0.subrange(0, i + 1), p0.subrange(i + 1, n as int), now);
                                let whole = merge_pass(fresh_state(t0), p0, now);
                                assert(whole == st);
                                assert(merge_rounds(t0, p0, now) == (whole.table, whole.error));
                            }
                            return (t, Some(e));
                        },
                    }
                }
                progressed = true;
                proof {
                    assert(merge_step(st_before, cat_g, now) =~= (MergeState {
                        table: table_view(t@),
                        next: next@,
                        progressed: progressed,
                        error: None,
                    }));
                }
            } else {
                next.push(cat);
                proof {
                    assert(merge_step(st_before, cat_g, now) =~= (MergeState {
                        table: table_view(t@),
                        next: next@,
                        progressed: progressed,
                        error: None,
                    }));
                }
            }
            proof {
                assert(merge_step(st_before, cat_g, now) =~= (MergeState {
                    table: table_view(t@),
                    next: next@,
                    progressed: progressed,
                    error: None,
                }));
            }
            i = i + 1;
        }
        proof {
            assert(p0.subrange(0, n as int) =~= p0);
        }
        if !progressed {
            proof {
                let whole = merge_pass(fresh_state(t0), p0, now);
                assert(whole.table == table_view(t@));
                assert(whole.error is None);
                assert(!whole.progressed);
                assert(merge_rounds(t0, p0, now) == (whole.table, Some("备份中的分类层级无效：找不到父分类"@)));
            }
            return (t, Some(String::from_str("备份中的分类层级无效：找不到父分类")));
        }
        proof {
            lemma_pass_shrinks(fresh_state(t0), p0, now);
        }
        pend = next;
    }
    (t, None)
}

} // verus!

//! The records that the vault holds and the rules on lists of them.
use crate::order::{
    is_permutation, is_reordering, is_sorted_by, is_stable_sort_of, lemma_permutation_onto, stable_sort, Order,
};
use crate::text::{chars_le, lemma_chars_le_antisym, lemma_chars_le_total, lemma_chars_le_trans, str_le};
use vstd::prelude::*;
use vstd::string::*;

verus! {

/// One stored login.
#[derive(Clone, Debug)]
pub struct Entry {
    pub id: String,
    pub seq: i64,
    pub entry_type: String,
    pub name: String,
    pub username: String,
    pub email: String,
    pub phone: String,
    pub password: String,
    pub nickname: String,
    pub url: String,
    pub notes: String,
    pub category: String,
    pub tags: Vec<String>,
    pub favorite: bool,
    pub updated_at: i64,
    pub expires_at: Option<i64>,
}

/// A category; `parent_name` makes it a child of another.
#[derive(Clone, Debug)]
pub struct Category {
    pub name: String,
    pub icon: String,
    pub parent_name: Option<String>,
}

/// One change of an entry: when, and which fields (by their labels).
#[derive(Clone, Debug)]
pub struct HistoryRecord {
    pub changed_at: i64,
    pub fields: Vec<String>,
}

/// What the start screen needs to know of the vault on disk.
#[derive(Clone, Debug)]
pub struct BootstrapStatus {
    pub exists: bool,
    pub version: u32,
    pub recovery_enabled: bool,
}

/// The contents of a full backup: its entries and its categories.
#[derive(Clone, Debug)]
pub struct BackupData {
    pub entries: Vec<Entry>,
    pub categories: Vec<Category>,
}

/// The value a missing `seq` or `updatedAt` takes.
pub fn zero() -> (r: i64)
    ensures
        r == 0,
{
    0
}

/// The value a missing text field takes.
pub fn empty() -> (r: String)
    ensures
        r@ == Seq::<char>::empty(),
{
    String::new()
}

/// The value a missing tag list takes.
pub fn empty_tags() -> (r: Vec<String>)
    ensures
        r@ == Seq::<String>::empty(),
{
    Vec::new()
}

/// The value a missing entry type takes: a web site.
pub fn default_type() -> (r: String)
    ensures
        r@ == "网站"@,
{
    String::from_str("网站")
}

/// The value a missing category takes: the default category.
pub fn default_category() -> (r: String)
    ensures
        r@ == "默认"@,
{
    String::from_str("默认")
}

/// The value a missing expiry takes: none.
pub fn default_expiry() -> (r: Option<i64>)
    ensures
        r is None,
{
    None
}

pub open spec fn label_if(c: bool, label: Seq<char>) -> Seq<Seq<char>> {
    if c {
        seq![label]
    } else {
        Seq::empty()
    }
}

/// The labels of the fields in which two versions of an entry differ, in
/// the order of the form.
pub open spec fn changed_labels(a: Entry, b: Entry) -> Seq<Seq<char>> {
    label_if(a.entry_type@ != b.entry_type@, "类型"@) + label_if(a.name@ != b.name@, "密码名称"@)
        + label_if(a.username@ != b.username@, "账号/用户名"@) + label_if(
        a.email@ != b.email@,
        "邮箱"@,
    ) + label_if(a.phone@ != b.phone@, "手机号"@) + label_if(a.password@ != b.password@, "密码"@)
        + label_if(a.nickname@ != b.nickname@, "平台昵称"@) + label_if(
        a.url@ != b.url@,
        "网址/IP/APP"@,
    ) + label_if(a.notes@ != b.notes@, "备注"@) + label_if(a.category@ != b.category@, "分类"@)
        + label_if(a.tags.deep_view() != b.tags.deep_view(), "标签"@) + label_if(
        a.favorite != b.favorite,
        "收藏状态"@,
    ) + label_if(a.expires_at != b.expires_at, "密码过期设置"@)
}

fn push_label_if(v: &mut Vec<String>, c: bool, label: &str)
    ensures
        final(v).deep_view() == old(v).deep_view() + label_if(c, label@),
{
    if c {
        let ghost before = v.deep_view();
        v.push(String::from_str(label));
        proof {
            assert(v.deep_view() =~= before + seq![label@]);
        }
    } else {
        proof {
            assert(v.deep_view() =~= old(v).deep_view() + Seq::<Seq<char>>::empty());
        }
    }
}

/// Whether two lists of strings are equal.
pub fn strings_equal(a: &Vec<String>, b: &Vec<String>) -> (r: bool)
    ensures
        r == (a.deep_view() == b.deep_view()),
{
    if a.len() != b.len() {
        proof {
            assert(a.deep_view().len() != b.deep_view().len());
        }
        return false;
    }
    let mut i: usize = 0;
    while i < a.len()
        invariant
            a.len() == b.len(),
            i <= a.len(),
            forall|k: int| 0 <= k < i ==> a@[k]@ == b@[k]@,
        decreases a.len() - i,
    {
        if a[i] != b[i] {
            proof {
                assert(a.deep_view()[i as int] != b.deep_view()[i as int]);
            }
            return false;
        }
        i = i + 1;
    }
    proof {
        assert(a.deep_view() =~= b.deep_view());
    }
    true
}

/// An entry compared with itself has no changed field.
pub proof fn lemma_no_change_no_label(a: Entry)
    ensures
        changed_labels(a, a).len() == 0,
{
    assert(changed_labels(a, a) =~= Seq::<Seq<char>>::empty());
}

/// Two versions of an entry have no changed field exactly when every field
/// is the same: type, name, account, email, phone, password, nickname,
/// address, notes, category, tags, favourite mark and expiry date.
pub proof fn lemma_no_label_iff_same(a: Entry, b: Entry)
    ensures
        changed_labels(a, b).len() == 0 <==> (a.entry_type@ == b.entry_type@ && a.name@ == b.name@
            && a.username@ == b.username@ && a.email@ == b.email@ && a.phone@ == b.phone@ && a.password@
            == b.password@ && a.nickname@ == b.nickname@ && a.url@ == b.url@ && a.notes@ == b.notes@
            && a.category@ == b.category@ && a.tags.deep_view() == b.tags.deep_view() && a.favorite
            == b.favorite && a.expires_at == b.expires_at),
{
}

/// The expiry date is compared on its own: the labels of two versions are
/// those of the versions with the same expiry, followed by
/// "密码过期设置" exactly when the two expiry dates differ (two different
/// dates included).
pub proof fn lemma_expiry_label(a: Entry, b: Entry)
    ensures
        changed_labels(a, b) == changed_labels(a, Entry { expires_at: a.expires_at, ..b }) + (if a.expires_at
            != b.expires_at {
            seq!["密码过期设置"@]
        } else {
            Seq::<Seq<char>>::empty()
        }),
        changed_labels(a, Entry { expires_at: b.expires_at, ..a }) == (if a.expires_at != b.expires_at {
            seq!["密码过期设置"@]
        } else {
            Seq::<Seq<char>>::empty()
        }),
{
    let b2 = Entry { expires_at: a.expires_at, ..b };
    assert(changed_labels(a, b) =~= changed_labels(a, b2) + (if a.expires_at != b.expires_at {
        seq!["密码过期设置"@]
    } else {
        Seq::<Seq<char>>::empty()
    }));
    let a2 = Entry { expires_at: b.expires_at, ..a };
    assert(changed_labels(a, a2) =~= (if a.expires_at != b.expires_at {
        seq!["密码过期设置"@]
    } else {
        Seq::<Seq<char>>::empty()
    }));
}

/// The labels of the fields in which `a` and `b` differ.
pub fn changed_fields(a: &Entry, b: &Entry) -> (r: Vec<String>)
    ensures
        r.deep_view() == changed_labels(*a, *b),
{
    let mut f: Vec<String> = Vec::new();
    proof {
        assert(f.deep_view() =~= Seq::<Seq<char>>::empty());
    }
    push_label_if(&mut f, a.entry_type != b.entry_type, "类型");
    push_label_if(&mut f, a.name != b.name, "密码名称");
    push_label_if(&mut f, a.username != b.username, "账号/用户名");
    push_label_if(&mut f, a.email != b.email, "邮箱");
    push_label_if(&mut f, a.phone != b.phone, "手机号");
    push_label_if(&mut f, a.password != b.password, "密码");
    push_label_if(&mut f, a.nickname != b.nickname, "平台昵称");
    push_label_if(&mut f, a.url != b.url, "网址/IP/APP");
    push_label_if(&mut f, a.notes != b.notes, "备注");
    push_label_if(&mut f, a.category != b.category, "分类");
    push_label_if(&mut f, !strings_equal(&a.tags, &b.tags), "标签");
    push_label_if(&mut f, a.favorite != b.favorite, "收藏状态");
    let expiry_differs = match (a.expires_at, b.expires_at) {
        (Some(x), Some(y)) => x != y,
        (None, None) => false,
        _ => true,
    };
    push_label_if(&mut f, expiry_differs, "密码过期设置");
    proof {
        assert(f.deep_view() =~= changed_labels(*a, *b));
    }
    f
}

/// The index of the last entry with this id, or -1.
pub open spec fn last_with_id(s: Seq<Entry>, id: Seq<char>) -> int
    decreases s.len(),
{
    if s.len() == 0 {
        -1
    } else if s.last().id@ == id {
        s.len() - 1
    } else {
        last_with_id(s.drop_last(), id)
    }
}

proof fn lemma_last_with_id(s: Seq<Entry>, id: Seq<char>)
    ensures
        -1 <= last_with_id(s, id) < s.len(),
        last_with_id(s, id) >= 0 ==> s[last_with_id(s, id)].id@ == id,
    decreases s.len(),
{
    if s.len() > 0 {
        lemma_last_with_id(s.drop_last(), id);
    }
}

/// The labels that a history record gets when `e` is saved over the stored
/// list `old` (the last stored entry with its id counts): none for a new
/// entry or an unchanged one.
pub open spec fn spec_history_fields(old: Seq<Entry>, e: Entry) -> Option<Seq<Seq<char>>> {
    let i = last_with_id(old, e.id@);
    if i < 0 {
        None
    } else if changed_labels(old[i], e).len() == 0 {
        None
    } else {
        Some(changed_labels(old[i], e))
    }
}

/// The fields of the history record to write when `e` is saved over the
/// stored entries (see `spec_history_fields`).
pub fn history_fields(old: &Vec<Entry>, e: &Entry) -> (r: Option<Vec<String>>)
    ensures
        match spec_history_fields(old@, *e) {
            None => r is None,
            Some(f) => r matches Some(v) && v.deep_view() == f,
        },
{
    proof {
        lemma_last_with_id(old@, e.id@);
    }
    let mut i: usize = old.len();
    assert(old@.subrange(0, i as int) =~= old@);
    while i > 0
        invariant
            i <= old@.len(),
            last_with_id(old@, e.id@) == last_with_id(old@.subrange(0, i as int), e.id@),
        decreases i,
    {
        proof {
            assert(old@.subrange(0, i as int).drop_last() =~= old@.subrange(0, i - 1));
        }
        if old[i - 1].id == e.id {
            let f = changed_fields(&old[i - 1], e);
            if f.len() == 0 {
                return None;
            }
            proof {
                assert(f.deep_view().len() == f@.len());
            }
            return Some(f);
        }
        i = i - 1;
    }
    None
}

/// The position key of an entry in the list: its `seq` when positive,
/// otherwise after every numbered entry.
pub open spec fn display_key(e: Entry) -> i64 {
    if e.seq > 0 {
        e.seq
    } else {
        i64::MAX
    }
}

/// The order of the entry list: by position key, then newest first.
pub struct DisplayOrder;

impl Order<Entry> for DisplayOrder {
    open spec fn le(&self, a: Entry, b: Entry) -> bool {
        display_key(a) < display_key(b) || (display_key(a) == display_key(b) && a.updated_at
            >= b.updated_at)
    }

    fn le_exec(&self, a: &Entry, b: &Entry) -> (r: bool) {
        let ka = if a.seq > 0 {
            a.seq
        } else {
            i64::MAX
        };
        let kb = if b.seq > 0 {
            b.seq
        } else {
            i64::MAX
        };
        ka < kb || (ka == kb && a.updated_at >= b.updated_at)
    }

    proof fn le_total(&self, a: Entry, b: Entry) {
    }

    proof fn le_trans(&self, a: Entry, b: Entry, c: Entry) {
    }
}

/// Ascending `seq`.
pub struct SeqOrder;

impl Order<Entry> for SeqOrder {
    open spec fn le(&self, a: Entry, b: Entry) -> bool {
        a.seq <= b.seq
    }

    fn le_exec(&self, a: &Entry, b: &Entry) -> (r: bool) {
        a.seq <= b.seq
    }

    proof fn le_total(&self, a: Entry, b: Entry) {
    }

    proof fn le_trans(&self, a: Entry, b: Entry, c: Entry) {
    }
}

/// Ascending `id`, as strings compare.
pub struct IdOrder;

impl Order<Entry> for IdOrder {
    open spec fn le(&self, a: Entry, b: Entry) -> bool {
        chars_le(a.id@, b.id@)
    }

    fn le_exec(&self, a: &Entry, b: &Entry) -> (r: bool) {
        str_le(a.id.as_str(), b.id.as_str())
    }

    proof fn le_total(&self, a: Entry, b: Entry) {
        lemma_chars_le_total(a.id@, b.id@);
    }

    proof fn le_trans(&self, a: Entry, b: Entry, c: Entry) {
        lemma_chars_le_trans(a.id@, b.id@, c.id@);
    }
}

pub open spec fn any_numbered(s: Seq<Entry>) -> bool {
    exists|i: int| 0 <= i < s.len() && (#[trigger] s[i]).seq > 0
}

/// The order in which the vault lists its entries: when some entry has a
/// position, by position (unnumbered last), newest first among equals;
/// otherwise as they came.
pub fn order_entries(entries: Vec<Entry>) -> (r: Vec<Entry>)
    ensures
        any_numbered(entries@) ==> is_stable_sort_of(&DisplayOrder, r@, entries@),
        !any_numbered(entries@) ==> r@ == entries@,
{
    let mut has_seq = false;
    let mut i: usize = 0;
    while i < entries.len()
        invariant
            i <= entries.len(),
            has_seq == exists|k: int| 0 <= k < i && (#[trigger] entries@[k]).seq > 0,
        decreases entries.len() - i,
    {
        if entries[i].seq > 0 {
            has_seq = true;
        }
        i = i + 1;
    }
    if has_seq {
        stable_sort(entries, &DisplayOrder)
    } else {
        entries
    }
}

/// Entries ordered by `id`, the canonical order of a fingerprint.
pub fn entries_by_id(entries: Vec<Entry>) -> (r: Vec<Entry>)
    ensures
        is_stable_sort_of(&IdOrder, r@, entries@),
{
    stable_sort(entries, &IdOrder)
}

proof fn lemma_sorted_by_id_unique(a: Seq<Entry>, b: Seq<Entry>)
    requires
        a.len() == b.len(),
        ids_distinct(a),
        ids_distinct(b),
        is_sorted_by(&IdOrder, a),
        is_sorted_by(&IdOrder, b),
        forall|i: int| 0 <= i < a.len() ==> b.contains(#[trigger] a[i]),
        forall|i: int| 0 <= i < b.len() ==> a.contains(#[trigger] b[i]),
    ensures
        a == b,
    decreases a.len(),
{
    if a.len() > 0 {
        assert(b.contains(a[0]));
        let j = choose|j: int| 0 <= j < b.len() && b[j] == a[0];
        assert(a.contains(b[0]));
        let i = choose|i: int| 0 <= i < a.len() && a[i] == b[0];
        if j > 0 {
            assert(IdOrder.le(b[0], b[j]));
        }
        if i > 0 {
            assert(IdOrder.le(a[0], a[i]));
        }
        lemma_chars_le_total(a[0].id@, a[0].id@);
        lemma_chars_le_total(b[0].id@, b[0].id@);
        lemma_chars_le_antisym(a[0].id@, b[0].id@);
        assert(j == 0);
        let a2 = a.drop_first();
        let b2 = b.drop_first();
        assert forall|k: int| 0 <= k < a2.len() implies b2.contains(#[trigger] a2[k]) by {
            assert(a2[k] == a[k + 1]);
            assert(b.contains(a[k + 1]));
            let m = choose|m: int| 0 <= m < b.len() && b[m] == a[k + 1];
            assert(m != 0);
            assert(b2[m - 1] == b[m]);
        }
        assert forall|k: int| 0 <= k < b2.len() implies a2.contains(#[trigger] b2[k]) by {
            assert(b2[k] == b[k + 1]);
            assert(a.contains(b[k + 1]));
            let m = choose|m: int| 0 <= m < a.len() && a[m] == b[k + 1];
            assert(m != 0);
            assert(a2[m - 1] == a[m]);
        }
        assert forall|x: int, y: int| 0 <= x < y < a2.len() implies (#[trigger] a2[x]).id@ != (
        #[trigger] a2[y]).id@ by {
            assert(a2[x] == a[x + 1] && a2[y] == a[y + 1]);
        }
        assert forall|x: int, y: int| 0 <= x < y < b2.len() implies (#[trigger] b2[x]).id@ != (
        #[trigger] b2[y]).id@ by {
            assert(b2[x] == b[x + 1] && b2[y] == b[y + 1]);
        }
        assert forall|x: int, y: int| 0 <= x < y < a2.len() implies IdOrder.le(a2[x], a2[y]) by {
            assert(a2[x] == a[x + 1] && a2[y] == a[y + 1]);
        }
        assert forall|x: int, y: int| 0 <= x < y < b2.len() implies IdOrder.le(b2[x], b2[y]) by {
            assert(b2[x] == b[x + 1] && b2[y] == b[y + 1]);
        }
        lemma_sorted_by_id_unique(a2, b2);
        assert(a =~= seq![a[0]] + a2);
        assert(b =~= seq![b[0]] + b2);
    }
}

/// The canonical order of the fingerprint does not depend on the order in
/// which the entries came: two lists holding the same entries, with
/// distinct ids, sort by id to the same list.
pub proof fn lemma_entries_by_id_canonical(es1: Seq<Entry>, es2: Seq<Entry>, r1: Seq<Entry>, r2: Seq<Entry>)
    requires
        ids_distinct(es1),
        is_reordering(es2, es1),
        is_stable_sort_of(&IdOrder, r1, es1),
        is_stable_sort_of(&IdOrder, r2, es2),
    ensures
        r1 == r2,
{
    let n = es1.len();
    let p = choose|p: Seq<int>|
        {
            &&& is_permutation(p, es1.len())
            &&& es2.len() == es1.len()
            &&& forall|k: int| 0 <= k < es2.len() ==> es2[k] == es1[#[trigger] p[k]]
        };
    let p1 = choose|p1: Seq<int>|
        {
            &&& is_permutation(p1, es1.len())
            &&& r1.len() == es1.len()
            &&& forall|k: int| 0 <= k < r1.len() ==> r1[k] == es1[#[trigger] p1[k]]
            &&& is_sorted_by(&IdOrder, r1)
            &&& forall|a: int, b: int|
                0 <= a < b < r1.len() && IdOrder.le(r1[b], r1[a]) ==> p1[a] < p1[b]
        };
    let p2 = choose|p2: Seq<int>|
        {
            &&& is_permutation(p2, es2.len())
            &&& r2.len() == es2.len()
            &&& forall|k: int| 0 <= k < r2.len() ==> r2[k] == es2[#[trigger] p2[k]]
            &&& is_sorted_by(&IdOrder, r2)
            &&& forall|a: int, b: int|
                0 <= a < b < r2.len() && IdOrder.le(r2[b], r2[a]) ==> p2[a] < p2[b]
        };
    // every entry of r2 is an entry of es1, at position q(k)
    assert forall|k: int| 0 <= k < n implies r2[k] == es1[p[p2[k]]] && 0 <= #[trigger] p[p2[k]] < n by {
        assert(0 <= p2[k] < n);
    }
    assert forall|x: int, y: int| 0 <= x < y < n implies (#[trigger] r1[x]).id@ != (#[trigger] r1[y]).id@ by {
        assert(p1[x] != p1[y]);
    }
    assert forall|x: int, y: int| 0 <= x < y < n implies (#[trigger] r2[x]).id@ != (#[trigger] r2[y]).id@ by {
        assert(0 <= p2[x] < n && 0 <= p2[y] < n);
        assert(p2[x] != p2[y]);
        if p2[x] < p2[y] {
            assert(p[p2[x]] != p[p2[y]]);
        } else {
            assert(p[p2[y]] != p[p2[x]]);
        }
        assert(0 <= p[p2[x]] < n && 0 <= p[p2[y]] < n);
        if p[p2[x]] < p[p2[y]] {
            assert(es1[p[p2[x]]].id@ != es1[p[p2[y]]].id@);
        } else {
            assert(es1[p[p2[y]]].id@ != es1[p[p2[x]]].id@);
        }
    }
    assert forall|k: int| 0 <= k < n implies r2.contains(#[trigger] r1[k]) by {
        // r1[k] = es1[v]; v = p[w] for some w; w = p2[u] for some u
        let v = p1[k];
        lemma_permutation_onto(p, n, v);
        let w = choose|w: int| 0 <= w < n && #[trigger] p[w] == v;
        lemma_permutation_onto(p2, n, w);
        let u = choose|u: int| 0 <= u < n && #[trigger] p2[u] == w;
        assert(r2[u] == r1[k]);
    }
    assert forall|k: int| 0 <= k < n implies r1.contains(#[trigger] r2[k]) by {
        let v = p[p2[k]];
        lemma_permutation_onto(p1, n, v);
        let u = choose|u: int| 0 <= u < n && #[trigger] p1[u] == v;
        assert(r1[u] == r2[k]);
    }
    lemma_sorted_by_id_unique(r1, r2);
}

/// The largest `seq`, or 0 for no entries.
pub open spec fn max_seq(s: Seq<Entry>) -> int
    decreases s.len(),
{
    if s.len() == 0 {
        0
    } else if s.len() == 1 {
        s[0].seq as int
    } else {
        let m = max_seq(s.drop_last());
        if s.last().seq > m {
            s.last().seq as int
        } else {
            m
        }
    }
}

proof fn lemma_max_seq_bounds(s: Seq<Entry>)
    ensures
        forall|i: int| 0 <= i < s.len() ==> (#[trigger] s[i]).seq <= max_seq(s),
        s.len() > 0 ==> exists|i: int| 0 <= i < s.len() && (#[trigger] s[i]).seq == max_seq(s),
    decreases s.len(),
{
    if s.len() > 1 {
        lemma_max_seq_bounds(s.drop_last());
        assert forall|i: int| 0 <= i < s.len() implies (#[trigger] s[i]).seq <= max_seq(s) by {
            if i < s.len() - 1 {
                assert(s[i] == s.drop_last()[i]);
            }
        }
        if s.last().seq <= max_seq(s.drop_last()) {
            let j = choose|i: int|
                0 <= i < s.drop_last().len() && (#[trigger] s.drop_last()[i]).seq == max_seq(
                    s.drop_last(),
                );
            assert(s[j] == s.drop_last()[j]);
        }
    }
}

/// The largest `seq` of the list, 0 when it is empty.
pub fn highest_seq(entries: &Vec<Entry>) -> (r: i64)
    ensures
        r == max_seq(entries@),
{
    let mut m: i64 = 0;
    let mut i: usize = 0;
    while i < entries.len()
        invariant
            i <= entries.len(),
            m == max_seq(entries@.subrange(0, i as int)),
        decreases entries.len() - i,
    {
        let s = entries[i].seq;
        proof {
            assert(entries@.subrange(0, i + 1).drop_last() =~= entries@.subrange(0, i as int));
        }
        if i == 0 || s > m {
            m = s;
        }
        i = i + 1;
    }
    proof {
        assert(entries@.subrange(0, entries@.len() as int) =~= entries@);
    }
    m
}


/// The entry as it comes back from the trash: numbered after every entry
/// of the list and stamped with the time of the restore.
pub open spec fn spec_restored(entries: Seq<Entry>, e: Entry, now: i64) -> Entry {
    Entry { seq: (max_seq(entries) + 1) as i64, updated_at: now, ..e }
}

/// An entry that comes back from the trash is numbered after every entry
/// of the list.
pub proof fn lemma_restored_after_all(entries: Seq<Entry>, e: Entry, now: i64)
    requires
        max_seq(entries) < i64::MAX,
    ensures
        forall|i: int|
            0 <= i < entries.len() ==> (#[trigger] entries[i]).seq < spec_restored(entries, e, now).seq,
        spec_restored(entries, e, now).id == e.id,
        spec_restored(entries, e, now).updated_at == now,
{
    lemma_max_seq_bounds(entries);
    assert forall|i: int| 0 <= i < entries.len() implies (#[trigger] entries[i]).seq < spec_restored(
        entries,
        e,
        now,
    ).seq by {
        if entries.len() == 0 {
        }
    }
}

/// Numbers an entry that leaves the trash after the entries of the list.
pub fn restored_entry(entries: &Vec<Entry>, e: Entry, now: i64) -> (r: Entry)
    requires
        max_seq(entries@) < i64::MAX,
    ensures
        r == spec_restored(entries@, e, now),
{
    let m = highest_seq(entries);
    let mut e = e;
    e.seq = m + 1;
    e.updated_at = now;
    e
}

/// The list after a restore: the restored entry added, then ordered by
/// `seq`, keeping the order of equal ones.
pub fn insert_restored(entries: Vec<Entry>, e: Entry) -> (r: Vec<Entry>)
    ensures
        is_stable_sort_of(&SeqOrder, r@, entries@.push(e)),
{
    let mut entries = entries;
    entries.push(e);
    sort_by_seq(entries)
}

/// The entries ordered by `seq`, keeping the order of equal ones.
pub fn sort_by_seq(entries: Vec<Entry>) -> (r: Vec<Entry>)
    ensures
        is_stable_sort_of(&SeqOrder, r@, entries@),
{
    stable_sort(entries, &SeqOrder)
}

pub open spec fn has_id(s: Seq<Entry>, id: Seq<char>) -> bool {
    exists|i: int| 0 <= i < s.len() && (#[trigger] s[i]).id@ == id
}

/// Merging entries of a backup into the current list: an entry whose id is
/// already there is skipped; any other is appended, numbered after the
/// highest `seq` so far and stamped with the time of the merge.
pub open spec fn spec_merge(cur: Seq<Entry>, inc: Seq<Entry>, last_seq: int, now: i64) -> Seq<Entry>
    decreases inc.len(),
{
    if inc.len() == 0 {
        cur
    } else if has_id(cur, inc[0].id@) {
        spec_merge(cur, inc.drop_first(), last_seq, now)
    } else {
        spec_merge(
            cur.push(Entry { seq: (last_seq + 1) as i64, updated_at: now, ..inc[0] }),
            inc.drop_first(),
            last_seq + 1,
            now,
        )
    }
}

/// No two entries of the list share an id.
pub open spec fn ids_distinct(s: Seq<Entry>) -> bool {
    forall|i: int, j: int| 0 <= i < j < s.len() ==> (#[trigger] s[i]).id@ != (#[trigger] s[j]).id@
}

/// Merging keeps the current entries as they were, in order, in front.
pub proof fn lemma_merge_keeps_current(cur: Seq<Entry>, inc: Seq<Entry>, last: int, now: i64)
    ensures
        spec_merge(cur, inc, last, now).len() >= cur.len(),
        spec_merge(cur, inc, last, now).subrange(0, cur.len() as int) == cur,
    decreases inc.len(),
{
    if inc.len() > 0 {
        if has_id(cur, inc[0].id@) {
            lemma_merge_keeps_current(cur, inc.drop_first(), last, now);
        } else {
            let x = Entry { seq: (last + 1) as i64, updated_at: now, ..inc[0] };
            lemma_merge_keeps_current(cur.push(x), inc.drop_first(), last + 1, now);
            let m = spec_merge(cur, inc, last, now);
            assert(m.subrange(0, cur.len() as int) =~= m.subrange(0, cur.len() + 1int).subrange(
                0,
                cur.len() as int,
            ));
            assert(cur.push(x).subrange(0, cur.len() as int) =~= cur);
        }
    }
}

proof fn lemma_has_id_prefix(s: Seq<Entry>, t: Seq<Entry>, id: Seq<char>)
    requires
        has_id(s, id),
        t.len() >= s.len(),
        t.subrange(0, s.len() as int) == s,
    ensures
        has_id(t, id),
{
    let i = choose|i: int| 0 <= i < s.len() && (#[trigger] s[i]).id@ == id;
    assert(t[i] == t.subrange(0, s.len() as int)[i]);
}

/// After a merge, every id of the backup's entries is in the list.
pub proof fn lemma_merge_covers(cur: Seq<Entry>, inc: Seq<Entry>, last: int, now: i64)
    ensures
        forall|i: int| 0 <= i < inc.len() ==> has_id(spec_merge(cur, inc, last, now), (#[trigger] inc[i]).id@),
    decreases inc.len(),
{
    if inc.len() > 0 {
        let m = spec_merge(cur, inc, last, now);
        let rest = inc.drop_first();
        if has_id(cur, inc[0].id@) {
            lemma_merge_covers(cur, rest, last, now);
            lemma_merge_keeps_current(cur, rest, last, now);
            lemma_has_id_prefix(cur, m, inc[0].id@);
        } else {
            let x = Entry { seq: (last + 1) as i64, updated_at: now, ..inc[0] };
            let c2 = cur.push(x);
            lemma_merge_covers(c2, rest, last + 1, now);
            lemma_merge_keeps_current(c2, rest, last + 1, now);
            assert(c2[cur.len() as int].id@ == inc[0].id@);
            assert(has_id(c2, inc[0].id@));
            lemma_has_id_prefix(c2, m, inc[0].id@);
        }
        assert forall|i: int| 0 <= i < inc.len() implies has_id(m, (#[trigger] inc[i]).id@) by {
            if i > 0 {
                assert(inc[i] == rest[i - 1]);
            }
        }
    }
}

/// Merging never gives two entries the same id: when the current ids are
/// distinct, so are those of the merged list (an id that is already there,
/// or that came earlier in the backup, is skipped).
pub proof fn lemma_merge_distinct(cur: Seq<Entry>, inc: Seq<Entry>, last: int, now: i64)
    requires
        ids_distinct(cur),
    ensures
        ids_distinct(spec_merge(cur, inc, last, now)),
    decreases inc.len(),
{
    if inc.len() > 0 {
        if has_id(cur, inc[0].id@) {
            lemma_merge_distinct(cur, inc.drop_first(), last, now);
        } else {
            let x = Entry { seq: (last + 1) as i64, updated_at: now, ..inc[0] };
            let c2 = cur.push(x);
            assert forall|i: int, j: int| 0 <= i < j < c2.len() implies (#[trigger] c2[i]).id@ != (
            #[trigger] c2[j]).id@ by {
                if j == cur.len() {
                    assert(c2[i] == cur[i]);
                } else {
                    assert(c2[i] == cur[i] && c2[j] == cur[j]);
                }
            }
            lemma_merge_distinct(c2, inc.drop_first(), last + 1, now);
        }
    }
}

/// Whether some entry of the list has this id.
pub fn contains_id(entries: &Vec<Entry>, id: &String) -> (r: bool)
    ensures
        r == has_id(entries@, id@),
{
    let mut i: usize = 0;
    while i < entries.len()
        invariant
            i <= entries.len(),
            forall|k: int| 0 <= k < i ==> (#[trigger] entries@[k]).id@ != id@,
        decreases entries.len() - i,
    {
        if entries[i].id == *id {
            return true;
        }
        i = i + 1;
    }
    false
}

/// The entries that a merge adds can be numbered: the highest `seq` plus
/// the number of entries added stays within `i64`.
pub open spec fn merge_fits(cur: Seq<Entry>, inc: Seq<Entry>, now: i64) -> bool {
    max_seq(cur) + spec_merge(cur, inc, max_seq(cur), now).len() - cur.len() <= i64::MAX
}

proof fn lemma_has_id_push(c: Seq<Entry>, x: Entry, id: Seq<char>)
    ensures
        has_id(c.push(x), id) == (has_id(c, id) || x.id@ == id),
{
    if has_id(c, id) {
        let i = choose|i: int| 0 <= i < c.len() && (#[trigger] c[i]).id@ == id;
        assert(c.push(x)[i] == c[i]);
    }
    if x.id@ == id {
        assert(c.push(x)[c.len() as int] == x);
    }
    if has_id(c.push(x), id) {
        let i = choose|i: int| 0 <= i < c.push(x).len() && (#[trigger] c.push(x)[i]).id@ == id;
        if i < c.len() {
            assert(c.push(x)[i] == c[i]);
        }
    }
}

/// How many entries a merge adds depends only on the ids already there,
/// not on the numbers or times given.
proof fn lemma_merge_added(c1: Seq<Entry>, c2: Seq<Entry>, inc: Seq<Entry>, l1: int, n1: i64, l2: int, n2: i64)
    requires
        forall|id: Seq<char>| #[trigger] has_id(c1, id) == has_id(c2, id),
    ensures
        spec_merge(c1, inc, l1, n1).len() - c1.len() == spec_merge(c2, inc, l2, n2).len() - c2.len(),
    decreases inc.len(),
{
    if inc.len() > 0 {
        if has_id(c1, inc[0].id@) {
            assert(has_id(c2, inc[0].id@));
            lemma_merge_added(c1, c2, inc.drop_first(), l1, n1, l2, n2);
        } else {
            assert(!has_id(c2, inc[0].id@));
            let x1 = Entry { seq: (l1 + 1) as i64, updated_at: n1, ..inc[0] };
            let x2 = Entry { seq: (l2 + 1) as i64, updated_at: n2, ..inc[0] };
            assert forall|id: Seq<char>| #[trigger] has_id(c1.push(x1), id) == has_id(c2.push(x2), id) by {
                lemma_has_id_push(c1, x1, id);
                lemma_has_id_push(c2, x2, id);
                assert(has_id(c1, id) == has_id(c2, id));
            }
            lemma_merge_added(c1.push(x1), c2.push(x2), inc.drop_first(), l1 + 1, n1, l2 + 1, n2);
        }
    }
}

/// Whether the entries that a merge adds can be numbered (see
/// `merge_fits`).
pub fn merge_fits_check(current: &Vec<Entry>, incoming: &Vec<Entry>, now: i64) -> (r: bool)
    ensures
        r == merge_fits(current@, incoming@, now),
{
    let ghost total = spec_merge(current@, incoming@, 0, 0).len() - current@.len();
    let ghost mut g: Seq<Entry> = current@;
    let ghost mut l: int = 0;
    let mut added: Vec<String> = Vec::new();
    let mut count: u64 = 0;
    let mut i: usize = 0;
    proof {
        assert(incoming@.subrange(0, incoming@.len() as int) =~= incoming@);
        lemma_merge_keeps_current(current@, incoming@, 0, 0);
        assert forall|id: Seq<char>| #[trigger] has_id(g, id) == (has_id(current@, id)
            || crate::categories::names_view(added@).contains(id)) by {
            assert(crate::categories::names_view(added@) =~= Seq::<Seq<char>>::empty());
        }
    }
    while i < incoming.len()
        invariant
            i <= incoming@.len(),
            count <= i,
            forall|id: Seq<char>| #[trigger] has_id(g, id) == (has_id(current@, id)
                || crate::categories::names_view(added@).contains(id)),
            count + (spec_merge(g, incoming@.subrange(i as int, incoming@.len() as int), l, 0).len() - g.len())
                == total,
            spec_merge(g, incoming@.subrange(i as int, incoming@.len() as int), l, 0).len() >= g.len(),
        decreases incoming@.len() - i,
    {
        let ghost rest = incoming@.subrange(i as int, incoming@.len() as int);
        proof {
            assert(rest[0] == incoming@[i as int]);
            assert(rest.drop_first() =~= incoming@.subrange(i + 1, incoming@.len() as int));
        }
        let e = &incoming[i];
        let known = contains_id(current, &e.id) || crate::categories::contains_name(&added, &e.id);
        if !known {
            let ghost y = Entry { seq: (l + 1) as i64, updated_at: 0, ..incoming@[i as int] };
            let ghost before = added@;
            added.push(e.id.clone());
            proof {
                assert(crate::categories::names_view(added@) =~= crate::categories::names_view(before).push(
                    e.id@,
                ));
                assert forall|id: Seq<char>| #[trigger] has_id(g.push(y), id) == (has_id(current@, id)
                    || crate::categories::names_view(added@).contains(id)) by {
                    lemma_has_id_push(g, y, id);
                    assert(has_id(g, id) == (has_id(current@, id) || crate::categories::names_view(
                        before,
                    ).contains(id)));
                    if crate::categories::names_view(added@).contains(id) && !crate::categories::names_view(
                        before,
                    ).contains(id) {
                        let k = choose|k: int|
                            0 <= k < crate::categories::names_view(added@).len()
                                && crate::categories::names_view(added@)[k] == id;
                        if k < before.len() {
                            assert(crate::categories::names_view(before)[k] == id);
                        }
                    }
                    if crate::categories::names_view(before).contains(id) {
                        let k = choose|k: int|
                            0 <= k < crate::categories::names_view(before).len()
                                && crate::categories::names_view(before)[k] == id;
                        assert(crate::categories::names_view(added@)[k] == id);
                    }
                    if id == e.id@ {
                        assert(crate::categories::names_view(added@)[before.len() as int] == id);
                    }
                }
                lemma_merge_keeps_current(g.push(y), rest.drop_first(), l + 1, 0);
                g = g.push(y);
                l = l + 1;
            }
            count = count + 1;
        } else {
            proof {
                lemma_merge_keeps_current(g, rest.drop_first(), l, 0);
            }
        }
        i = i + 1;
    }
    proof {
        assert(incoming@.subrange(i as int, incoming@.len() as int) =~= Seq::<Entry>::empty());
        assert forall|id: Seq<char>| #[trigger] has_id(current@, id) == has_id(current@, id) by {}
        lemma_merge_added(current@, current@, incoming@, 0, 0, max_seq(current@), now);
    }
    let m = highest_seq(current);
    (m as i128) + (count as i128) <= (i64::MAX as i128)
}

/// Adds the entries of a backup to the current list (see `spec_merge`).
pub fn merge_entries(current: Vec<Entry>, incoming: Vec<Entry>, now: i64) -> (r: Vec<Entry>)
    requires
        merge_fits(current@, incoming@, now),
    ensures
        r@ == spec_merge(current@, incoming@, max_seq(current@), now),
{
    let mut cur = current;
    let mut inc = incoming;
    let mut last: i64 = highest_seq(&cur);
    let ghost goal = spec_merge(current@, incoming@, max_seq(current@), now);
    let ghost start = max_seq(current@);
    while inc.len() > 0
        invariant
            goal == spec_merge(cur@, inc@, last as int, now),
            last as int + spec_merge(cur@, inc@, last as int, now).len() - cur@.len() <= i64::MAX,
        decreases inc.len(),
    {
        let ghost before = inc@;
        let e = inc.remove(0);
        assert(inc@ =~= before.drop_first());
        if contains_id(&cur, &e.id) {
        } else {
            proof {
                let x = Entry { seq: (last + 1) as i64, updated_at: now, ..e };
                lemma_merge_keeps_current(cur@.push(x), inc@, last + 1, now);
            }
            let mut e = e;
            last = last + 1;
            e.seq = last;
            e.updated_at = now;
            cur.push(e);
        }
    }
    cur
}


/// Days a deleted entry stays in the trash: between 7 and 30.
pub open spec fn clamp_trash_days(d: i64) -> i64 {
    if d < 7 {
        7
    } else if d > 30 {
        30
    } else {
        d
    }
}

pub const DAY_MS: i64 = 86400000;

/// Entries deleted before this time (milliseconds) leave the trash for good.
pub fn trash_cutoff(now_ms: i64, retention_days: i64) -> (r: i64)
    requires
        now_ms >= i64::MIN + 30 * DAY_MS,
    ensures
        r == now_ms - clamp_trash_days(retention_days) * DAY_MS,
{
    let days = if retention_days < 7 {
        7
    } else if retention_days > 30 {
        30
    } else {
        retention_days
    };
    now_ms - days * DAY_MS
}


/// A stored history record of an entry: its row number and when the
/// change was made (milliseconds).
pub struct HistoryStamp {
    pub id: i64,
    pub changed_at: i64,
}

/// How many history records an entry keeps.
pub const HISTORY_KEEP: usize = 3;

/// `a` comes before `b` among the newest: a later change, or the same time
/// and a later row.
pub open spec fn newer(a: HistoryStamp, b: HistoryStamp) -> bool {
    a.changed_at > b.changed_at || (a.changed_at == b.changed_at && a.id > b.id)
}

/// How many records of the list are newer than `r`.
pub open spec fn newer_count(s: Seq<HistoryStamp>, r: HistoryStamp) -> nat
    decreases s.len(),
{
    if s.len() == 0 {
        0
    } else {
        newer_count(s.drop_last(), r) + if newer(s.last(), r) {
            1nat
        } else {
            0nat
        }
    }
}

/// The row numbers of the first `k` records that are not among the newest
/// `HISTORY_KEEP` of `all`, in list order.
pub open spec fn dropped_upto(all: Seq<HistoryStamp>, k: int) -> Seq<i64>
    decreases k,
{
    if k <= 0 {
        Seq::empty()
    } else if newer_count(all, all[k - 1]) >= HISTORY_KEEP {
        dropped_upto(all, k - 1).push(all[k - 1].id)
    } else {
        dropped_upto(all, k - 1)
    }
}

/// The history records of one entry to delete after a change: all but the
/// `HISTORY_KEEP` newest (by time of change, then row), in list order.
pub fn history_to_drop(records: &Vec<HistoryStamp>) -> (r: Vec<i64>)
    ensures
        r@ == dropped_upto(records@, records@.len() as int),
{
    let mut out: Vec<i64> = Vec::new();
    let mut i: usize = 0;
    while i < records.len()
        invariant
            i <= records@.len(),
            out@ == dropped_upto(records@, i as int),
        decreases records@.len() - i,
    {
        let me = HistoryStamp { id: records[i].id, changed_at: records[i].changed_at };
        let mut count: usize = 0;
        let mut j: usize = 0;
        while j < records.len()
            invariant
                i < records@.len(),
                j <= records@.len(),
                me == records@[i as int],
                count <= j,
                count == newer_count(records@.subrange(0, j as int), me),
            decreases records@.len() - j,
        {
            proof {
                assert(records@.subrange(0, j + 1).drop_last() =~= records@.subrange(0, j as int));
            }
            let other = &records[j];
            if other.changed_at > me.changed_at || (other.changed_at == me.changed_at && other.id > me.id) {
                count = count + 1;
            }
            j = j + 1;
        }
        proof {
            assert(records@.subrange(0, records@.len() as int) =~= records@);
        }
        if count >= HISTORY_KEEP {
            out.push(me.id);
        }
        i = i + 1;
    }
    out
}

/// The positions of the first `k` records that stay among the newest
/// `HISTORY_KEEP` of `all`, in list order.
pub open spec fn kept_upto(all: Seq<HistoryStamp>, k: int) -> Seq<int>
    decreases k,
{
    if k <= 0 {
        Seq::empty()
    } else if newer_count(all, all[k - 1]) >= HISTORY_KEEP {
        kept_upto(all, k - 1)
    } else {
        kept_upto(all, k - 1).push(k - 1)
    }
}

proof fn lemma_kept_upto(all: Seq<HistoryStamp>, k: int)
    requires
        0 <= k <= all.len(),
    ensures
        dropped_upto(all, k).len() + kept_upto(all, k).len() == k,
        forall|x: int|
            0 <= x < kept_upto(all, k).len() ==> 0 <= #[trigger] kept_upto(all, k)[x] < k && newer_count(
                all,
                all[kept_upto(all, k)[x]],
            ) < HISTORY_KEEP,
        forall|x: int, y: int|
            0 <= x < y < kept_upto(all, k).len() ==> #[trigger] kept_upto(all, k)[x] < #[trigger] kept_upto(
                all,
                k,
            )[y],
    decreases k,
{
    if k > 0 {
        lemma_kept_upto(all, k - 1);
    }
}

proof fn lemma_newer_count_grows(s: Seq<HistoryStamp>, a: HistoryStamp, b: HistoryStamp)
    requires
        newer(a, b),
    ensures
        newer_count(s, b) >= newer_count(s, a),
        (exists|k: int| 0 <= k < s.len() && s[k] == a) ==> newer_count(s, b) >= newer_count(s, a) + 1,
    decreases s.len(),
{
    if s.len() > 0 {
        lemma_newer_count_grows(s.drop_last(), a, b);
        if exists|k: int| 0 <= k < s.len() && s[k] == a {
            let k = choose|k: int| 0 <= k < s.len() && s[k] == a;
            if k < s.len() - 1 {
                assert(s.drop_last()[k] == a);
            }
        }
    }
}

/// After a change an entry keeps at most `HISTORY_KEEP` history records:
/// of records with distinct row numbers, all but at most three are
/// dropped.
pub proof fn lemma_history_keeps_at_most(all: Seq<HistoryStamp>)
    requires
        forall|i: int, j: int| 0 <= i < j < all.len() ==> (#[trigger] all[i]).id != (#[trigger] all[j]).id,
    ensures
        all.len() - dropped_upto(all, all.len() as int).len() <= HISTORY_KEEP,
{
    let n = all.len() as int;
    lemma_kept_upto(all, n);
    let kept = kept_upto(all, n);
    let f = |x: int| newer_count(all, all[kept[x]]) as int;
    assert forall|x: int| 0 <= x < kept.len() implies 0 <= #[trigger] f(x) < HISTORY_KEEP by {
        assert(0 <= kept[x] < n);
    }
    assert forall|x: int, y: int| 0 <= x < y < kept.len() implies #[trigger] f(x) != #[trigger] f(y) by {
        let i = kept[x];
        let j = kept[y];
        assert(0 <= i < j < n);
        let a = all[i];
        let b = all[j];
        assert(a.id != b.id);
        if newer(a, b) {
            lemma_newer_count_grows(all, a, b);
            assert(all[i] == a);
        } else {
            lemma_newer_count_grows(all, b, a);
            assert(all[j] == b);
        }
    }
    crate::order::lemma_pigeonhole(f, kept.len() as int, HISTORY_KEEP as int);
}

} // verus!

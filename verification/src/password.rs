//! The rules that a new master password must meet.
use vstd::prelude::*;
use vstd::string::*;

verus! {

pub const MIN_MASTER_PASSWORD_LEN: usize = 8;

pub open spec fn is_ascii_digit(c: char) -> bool {
    '0' <= c && c <= '9'
}

pub open spec fn is_ascii_lower(c: char) -> bool {
    'a' <= c && c <= 'z'
}

pub open spec fn is_ascii_upper(c: char) -> bool {
    'A' <= c && c <= 'Z'
}

pub open spec fn is_ascii_alnum(c: char) -> bool {
    is_ascii_digit(c) || is_ascii_lower(c) || is_ascii_upper(c)
}

pub open spec fn has_digit(s: Seq<char>) -> bool {
    exists|i: int| 0 <= i < s.len() && is_ascii_digit(#[trigger] s[i])
}

pub open spec fn has_lower(s: Seq<char>) -> bool {
    exists|i: int| 0 <= i < s.len() && is_ascii_lower(#[trigger] s[i])
}

pub open spec fn has_upper(s: Seq<char>) -> bool {
    exists|i: int| 0 <= i < s.len() && is_ascii_upper(#[trigger] s[i])
}

pub open spec fn has_special(s: Seq<char>) -> bool {
    exists|i: int| 0 <= i < s.len() && !is_ascii_alnum(#[trigger] s[i])
}

/// The first rule that a candidate master password breaks, as the message
/// shown for it, or `None` when it meets them all: at least 8 characters,
/// a digit, a lower-case and an upper-case ASCII letter, and a character
/// that is no ASCII letter or digit.
pub open spec fn master_password_problem(s: Seq<char>) -> Option<Seq<char>> {
    if s.len() < MIN_MASTER_PASSWORD_LEN {
        Some("主密码至少 8 位"@)
    } else if !has_digit(s) {
        Some("主密码必须包含数字"@)
    } else if !has_lower(s) {
        Some("主密码必须包含小写字母"@)
    } else if !has_upper(s) {
        Some("主密码必须包含大写字母"@)
    } else if !has_special(s) {
        Some("主密码必须包含特殊符号"@)
    } else {
        None
    }
}

/// Checks a new master password against the rules, in their order.
pub fn validate_new_master_password(pass: &str) -> (r: Result<(), String>)
    ensures
        match master_password_problem(pass@) {
            None => r is Ok,
            Some(m) => r matches Err(e) && e@ == m,
        },
{
    let n = pass.unicode_len();
    if n < MIN_MASTER_PASSWORD_LEN {
        return Err(String::from_str("主密码至少 8 位"));
    }
    let mut digit = false;
    let mut lower = false;
    let mut upper = false;
    let mut special = false;
    let mut i: usize = 0;
    while i < n
        invariant
            n == pass@.len(),
            i <= n,
            digit == exists|k: int| 0 <= k < i && is_ascii_digit(#[trigger] pass@[k]),
            lower == exists|k: int| 0 <= k < i && is_ascii_lower(#[trigger] pass@[k]),
            upper == exists|k: int| 0 <= k < i && is_ascii_upper(#[trigger] pass@[k]),
            special == exists|k: int| 0 <= k < i && !is_ascii_alnum(#[trigger] pass@[k]),
        decreases n - i,
    {
        let c = pass.get_char(i);
        let d = '0' <= c && c <= '9';
        let lo = 'a' <= c && c <= 'z';
        let up = 'A' <= c && c <= 'Z';
        digit = digit || d;
        lower = lower || lo;
        upper = upper || up;
        special = special || !(d || lo || up);
        i = i + 1;
    }
    if !digit {
        return Err(String::from_str("主密码必须包含数字"));
    }
    if !lower {
        return Err(String::from_str("主密码必须包含小写字母"));
    }
    if !upper {
        return Err(String::from_str("主密码必须包含大写字母"));
    }
    if !special {
        return Err(String::from_str("主密码必须包含特殊符号"));
    }
    Ok(())
}

/// A master password that is offered to open a vault (to export, to import,
/// to verify) must have at least 8 characters; this is checked before any
/// key is derived.
pub fn require_min_master_len(pass: &str) -> (r: Result<(), String>)
    ensures
        pass@.len() >= MIN_MASTER_PASSWORD_LEN <==> r is Ok,
        r matches Err(e) ==> e@ == "主密码至少 8 位"@,
{
    if pass.unicode_len() < MIN_MASTER_PASSWORD_LEN {
        Err(String::from_str("主密码至少 8 位"))
    } else {
        Ok(())
    }
}

} // verus!

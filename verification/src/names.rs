//! Branch- and path-name handling: substring classification of reference
//! names, the display form of a submodule path, and canonicalization of
//! remote branch names.

use vstd::prelude::*;

verus! {

/// `sub` occurs in `s` starting at position `i`.
pub open spec fn has_substr_at(s: Seq<char>, sub: Seq<char>, i: int) -> bool {
    0 <= i && i + sub.len() <= s.len() && s.subrange(i, i + sub.len()) == sub
}

/// `sub` occurs somewhere in `s`.
pub open spec fn has_substr(s: Seq<char>, sub: Seq<char>) -> bool {
    exists|i: int| has_substr_at(s, sub, i)
}

/// Whether `sub` occurs in `s`, by direct search.
pub fn contains_substr(s: &str, sub: &str) -> (b: bool)
    ensures
        b == has_substr(s@, sub@),
{
    let n = s.unicode_len();
    let m = sub.unicode_len();
    if m > n {
        assert(forall|i: int| !has_substr_at(s@, sub@, i));
        return false;
    }
    if m == 0 {
        assert(s@.subrange(0, 0) =~= sub@);
        assert(has_substr_at(s@, sub@, 0));
        return true;
    }
    let mut i: usize = 0;
    while i <= n - m
        invariant
            0 < m <= n,
            n == s@.len(),
            m == sub@.len(),
            i <= n - m + 1,
            forall|j: int| 0 <= j < i ==> !has_substr_at(s@, sub@, j),
        decreases n - m - i + 1,
    {
        let mut k: usize = 0;
        let mut matched = true;
        while k < m
            invariant
                m <= n,
                n == s@.len(),
                m == sub@.len(),
                i <= n - m,
                k <= m,
                matched ==> forall|t: int| 0 <= t < k ==> s@[i + t] == sub@[t],
                !matched ==> exists|t: int| 0 <= t < m && s@[i + t] != sub@[t],
            decreases m - k,
    {
            if s.get_char(i + k) != sub.get_char(k) {
                assert(s@[i + k] != sub@[k as int]);
                matched = false;
                k = m;
            } else {
                k = k + 1;
            }
        }
        if matched {
            assert(s@.subrange(i as int, i + m) =~= sub@);
            assert(has_substr_at(s@, sub@, i as int));
            return true;
        }
        proof {
            let t = choose|t: int| 0 <= t < m && s@[i + t] != sub@[t];
            assert(s@.subrange(i as int, i + m)[t] == s@[i + t]);
            assert(!has_substr_at(s@, sub@, i as int));
        }
        i = i + 1;
    }
    assert forall|j: int| !has_substr_at(s@, sub@, j) by {
        if 0 <= j <= n - m {
            assert(!has_substr_at(s@, sub@, j));
        }
    }
    false
}

/// Whether `p` is a prefix of `s`.
pub fn starts_with_str(s: &str, p: &str) -> (b: bool)
    ensures
        b == p@.is_prefix_of(s@),
{
    let n = s.unicode_len();
    let m = p.unicode_len();
    if m > n {
        return false;
    }
    let mut k: usize = 0;
    while k < m
        invariant
            m <= n,
            n == s@.len(),
            m == p@.len(),
            k <= m,
            forall|t: int| 0 <= t < k ==> s@[t] == p@[t],
        decreases m - k,
    {
        if s.get_char(k) != p.get_char(k) {
            assert(s@.subrange(0, m as int)[k as int] != p@[k as int]);
            return false;
        }
        k = k + 1;
    }
    assert(s@.subrange(0, m as int) =~= p@);
    true
}

/// Whether `p` is a suffix of `s`.
pub fn ends_with_str(s: &str, p: &str) -> (b: bool)
    ensures
        b == p@.is_suffix_of(s@),
{
    let n = s.unicode_len();
    let m = p.unicode_len();
    if m > n {
        return false;
    }
    let off = n - m;
    let mut k: usize = 0;
    while k < m
        invariant
            m <= n,
            n == s@.len(),
            m == p@.len(),
            off == n - m,
            k <= m,
            forall|t: int| 0 <= t < k ==> s@[off + t] == p@[t],
        decreases m - k,
    {
        if s.get_char(off + k) != p.get_char(k) {
            assert(s@.subrange(off as int, n as int)[k as int] != p@[k as int]);
            return false;
        }
        k = k + 1;
    }
    assert(s@.subrange(off as int, n as int) =~= p@);
    true
}

/// Whether two string slices hold the same characters.
pub fn str_eq(a: &str, b: &str) -> (r: bool)
    ensures
        r == (a@ == b@),
{
    let n = a.unicode_len();
    if n != b.unicode_len() {
        return false;
    }
    let mut k: usize = 0;
    while k < n
        invariant
            n == a@.len(),
            n == b@.len(),
            k <= n,
            forall|t: int| 0 <= t < k ==> a@[t] == b@[t],
        decreases n - k,
    {
        if a.get_char(k) != b.get_char(k) {
            return false;
        }
        k = k + 1;
    }
    assert(a@ =~= b@);
    true
}

/// The display form of a submodule path: its components joined by `/`.
pub open spec fn join_path(parts: Seq<Seq<char>>) -> Seq<char>
    decreases parts.len(),
{
    if parts.len() == 0 {
        Seq::empty()
    } else if parts.len() == 1 {
        parts[0]
    } else {
        join_path(parts.drop_last()) + seq!['/'] + parts.last()
    }
}

/// Renders a submodule path for diagnostics: the root repository is shown as
/// `*root*`, a nested repository as its submodule names joined by `/`.
pub fn sub_path_to_string(path: &Vec<String>) -> (r: String)
    ensures
        path@.len() == 0 ==> r@ == "*root*"@,
        path@.len() > 0 ==> r@ == join_path(path@.map_values(|s: String| s@)),
{
    if path.len() == 0 {
        return String::from_str("*root*");
    }
    let ghost views = path@.map_values(|s: String| s@);
    let mut r = path[0].clone();
    let mut i: usize = 1;
    while i < path.len()
        invariant
            1 <= i <= path@.len(),
            views == path@.map_values(|s: String| s@),
            r@ == join_path(views.take(i as int)),
        decreases path@.len() - i,
    {
        let r2 = r.concat("/");
        r = r2.concat(path[i].as_str());
        proof {
            assert(views.take(i + 1).drop_last() =~= views.take(i as int));
            assert(views.take(i + 1).last() == views[i as int]);
            reveal_strlit("/");
            assert("/"@ =~= seq!['/']);
        }
        i = i + 1;
    }
    proof {
        assert(views.take(path@.len() as int) =~= views);
    }
    r
}

/// The segment of a reference name after its last `/`; the whole name when it
/// holds no `/`.
pub open spec fn after_last_slash(s: Seq<char>) -> Seq<char>
    decreases s.len(),
{
    if s.len() == 0 {
        s
    } else if s.last() == '/' {
        Seq::empty()
    } else {
        after_last_slash(s.drop_last()).push(s.last())
    }
}

proof fn lemma_after_last_slash(s: Seq<char>, p: int)
    requires
        0 <= p <= s.len(),
        forall|k: int| p <= k < s.len() ==> s[k] != '/',
        p == 0 || s[p - 1] == '/',
    ensures
        after_last_slash(s) == s.subrange(p, s.len() as int),
    decreases s.len(),
{
    if p == s.len() {
        if s.len() == 0 {
            assert(after_last_slash(s) =~= s.subrange(0, 0));
        } else {
            assert(s.last() == '/');
            assert(after_last_slash(s) =~= s.subrange(p, s.len() as int));
        }
    } else {
        assert(s.last() != '/');
        let d = s.drop_last();
        lemma_after_last_slash(d, p);
        assert(after_last_slash(s) == after_last_slash(d).push(s.last()));
        assert(d.subrange(p, d.len() as int).push(s.last()) =~= s.subrange(p, s.len() as int));
    }
}

/// The short form of a reference name: what follows its last `/`.
pub fn branch_short_name(name: &str) -> (r: String)
    ensures
        r@ == after_last_slash(name@),
{
    let n = name.unicode_len();
    let mut j: usize = n;
    while j > 0
        invariant
            j <= n,
            n == name@.len(),
            forall|k: int| j <= k < n ==> name@[k] != '/',
        decreases j,
    {
        if name.get_char(j - 1) == '/' {
            proof {
                lemma_after_last_slash(name@, j as int);
            }
            return String::from_str(name.substring_char(j, n));
        }
        j = j - 1;
    }
    proof {
        lemma_after_last_slash(name@, 0);
        assert(name@.subrange(0, n as int) =~= name@);
    }
    String::from_str(name)
}

/// What follows the first `/` of a name, if any: the local short form of a
/// remote branch name such as `origin/feature`.
pub open spec fn strip_remote(s: Seq<char>) -> Option<Seq<char>>
    decreases s.len(),
{
    if s.len() == 0 {
        None
    } else if s.first() == '/' {
        Some(s.drop_first())
    } else {
        strip_remote(s.drop_first())
    }
}

proof fn lemma_strip_remote_found(s: Seq<char>, i: int)
    requires
        0 <= i < s.len(),
        forall|k: int| 0 <= k < i ==> s[k] != '/',
        s[i] == '/',
    ensures
        strip_remote(s) == Some(s.subrange(i + 1, s.len() as int)),
    decreases i,
{
    if i == 0 {
        assert(s.drop_first() =~= s.subrange(1, s.len() as int));
    } else {
        let d = s.drop_first();
        lemma_strip_remote_found(d, i - 1);
        assert(d.subrange(i, d.len() as int) =~= s.subrange(i + 1, s.len() as int));
    }
}

proof fn lemma_strip_remote_none(s: Seq<char>)
    requires
        forall|k: int| 0 <= k < s.len() ==> s[k] != '/',
    ensures
        strip_remote(s) is None,
    decreases s.len(),
{
    if s.len() > 0 {
        lemma_strip_remote_none(s.drop_first());
    }
}

/// The local name a remote branch canonicalizes to: the part after the remote
/// prefix.  `None` when the name holds no `/`.
pub fn remote_branch_to_local(name: &str) -> (r: Option<String>)
    ensures
        match r {
            Some(t) => strip_remote(name@) == Some(t@),
            None => strip_remote(name@) is None,
        },
{
    let n = name.unicode_len();
    let mut i: usize = 0;
    while i < n
        invariant
            i <= n,
            n == name@.len(),
            forall|k: int| 0 <= k < i ==> name@[k] != '/',
        decreases n - i,
    {
        if name.get_char(i) == '/' {
            proof {
                lemma_strip_remote_found(name@, i as int);
            }
            return Some(String::from_str(name.substring_char(i + 1, n)));
        }
        i = i + 1;
    }
    proof {
        lemma_strip_remote_none(name@);
    }
    None
}

/// A HEAD name that blocks a rebase: the literal `HEAD` of a detached head,
/// or a reference that sits on one of this tool's marker branches.
pub open spec fn spec_unpinned_head(s: Seq<char>) -> bool {
    s == "HEAD"@ || has_substr(s, "/multi_rebase_"@)
}

/// Whether a HEAD reference name needs a real branch checked out first.
pub fn is_unpinned_head_name(name: &str) -> (b: bool)
    ensures
        b == spec_unpinned_head(name@),
{
    if str_eq(name, "HEAD") {
        true
    } else {
        contains_substr(name, "/multi_rebase_")
    }
}

/// A branch name that is never offered as a checkout candidate: a backup of
/// this tool, a remote HEAD alias, or one of this tool's marker branches.
pub open spec fn spec_excluded_branch(s: Seq<char>) -> bool {
    "backup/"@.is_prefix_of(s) || "HEAD"@.is_suffix_of(s) || has_substr(s, "multi_rebase_"@)
}

/// Whether a branch name is kept out of the checkout candidate sets.
pub fn is_excluded_branch_name(name: &str) -> (b: bool)
    ensures
        b == spec_excluded_branch(name@),
{
    if starts_with_str(name, "backup/") {
        true
    } else if ends_with_str(name, "HEAD") {
        true
    } else {
        contains_substr(name, "multi_rebase_")
    }
}

/// The names of the tool's backup branches.
pub open spec fn spec_backup_branch(s: Seq<char>) -> bool {
    "backup/"@.is_prefix_of(s)
}

/// The character for a single decimal digit.
pub open spec fn digit_char(d: int) -> char {
    if d == 0 { '0' }
    else if d == 1 { '1' }
    else if d == 2 { '2' }
    else if d == 3 { '3' }
    else if d == 4 { '4' }
    else if d == 5 { '5' }
    else if d == 6 { '6' }
    else if d == 7 { '7' }
    else if d == 8 { '8' }
    else { '9' }
}

/// A value below 100 written with exactly two decimal digits.
pub open spec fn two_digits(x: int) -> Seq<char> {
    seq![digit_char(x / 10), digit_char(x % 10)]
}

fn digit_str(d: u8) -> (r: &'static str)
    requires
        d < 10,
    ensures
        r@ == seq![digit_char(d as int)],
{
    proof {
        reveal_strlit("0");
        reveal_strlit("1");
        reveal_strlit("2");
        reveal_strlit("3");
        reveal_strlit("4");
        reveal_strlit("5");
        reveal_strlit("6");
        reveal_strlit("7");
        reveal_strlit("8");
        reveal_strlit("9");
    }
    let r = if d == 0 { "0" }
    else if d == 1 { "1" }
    else if d == 2 { "2" }
    else if d == 3 { "3" }
    else if d == 4 { "4" }
    else if d == 5 { "5" }
    else if d == 6 { "6" }
    else if d == 7 { "7" }
    else if d == 8 { "8" }
    else { "9" };
    proof {
        assert(r@ =~= seq![digit_char(d as int)]);
    }
    r
}

fn push_two_digits(acc: String, x: u8) -> (r: String)
    requires
        x < 100,
    ensures
        r@ == acc@ + two_digits(x as int),
{
    let hi = x / 10;
    let lo = x % 10;
    let r = acc.concat(digit_str(hi)).concat(digit_str(lo));
    proof {
        assert(r@ =~= acc@ + two_digits(x as int));
    }
    r
}

/// The name a pre-rebase head is backed up under.
pub open spec fn spec_backup_name(short: Seq<char>, h: int, m: int, s: int) -> Seq<char> {
    "backup/"@ + short + "_"@ + two_digits(h) + "-"@ + two_digits(m) + "-"@ + two_digits(s)
}

/// Builds the `backup/<short-name>_<HH-MM-SS>` branch name for the backup
/// taken before any mutation.
pub fn backup_branch_name(short: &str, h: u8, m: u8, s: u8) -> (r: String)
    requires
        h < 24,
        m < 60,
        s < 60,
    ensures
        r@ == spec_backup_name(short@, h as int, m as int, s as int),
        spec_backup_branch(r@),
{
    let acc = String::from_str("backup/").concat(short).concat("_");
    let acc = push_two_digits(acc, h);
    let acc = acc.concat("-");
    let acc = push_two_digits(acc, m);
    let acc = acc.concat("-");
    let r = push_two_digits(acc, s);
    proof {
        assert(r@ =~= spec_backup_name(short@, h as int, m as int, s as int));
        reveal_strlit("backup/");
        assert("backup/"@.is_prefix_of(r@)) by {
            assert(r@.subrange(0, 7) =~= "backup/"@);
        }
    }
    r
}

} // verus!

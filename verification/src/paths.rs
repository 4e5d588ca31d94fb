use vstd::prelude::*;
use vstd::string::{StrSliceExecFns, StringExecFns};

verus! {

/// `i` is the position of the last `.` of `name`, ignoring a dot at
/// position zero (a leading dot marks a hidden file, not an extension).
pub open spec fn is_last_dot(name: Seq<char>, i: int) -> bool {
    &&& 1 <= i < name.len()
    &&& name[i] == '.'
    &&& forall|j: int| i < j < name.len() ==> name[j] != '.'
}

/// Whether `name` has an extension part.
pub open spec fn has_extension(name: Seq<char>) -> bool {
    exists|i: int| is_last_dot(name, i)
}

/// The position of the last dot of `name`.
pub open spec fn last_dot(name: Seq<char>) -> int {
    choose|i: int| is_last_dot(name, i)
}

/// The part of `name` before its last dot, or all of it.
pub open spec fn stem_of(name: Seq<char>) -> Seq<char> {
    if has_extension(name) {
        name.subrange(0, last_dot(name))
    } else {
        name
    }
}

/// The part of `name` after its last dot, or empty.
pub open spec fn ext_of(name: Seq<char>) -> Seq<char> {
    if has_extension(name) {
        name.subrange(last_dot(name) + 1, name.len() as int)
    } else {
        Seq::empty()
    }
}

pub proof fn lemma_last_dot_unique(name: Seq<char>, i: int, j: int)
    requires
        is_last_dot(name, i),
        is_last_dot(name, j),
    ensures
        i == j,
{
    if i < j {
        assert(name[j] != '.');
    }
    if j < i {
        assert(name[i] != '.');
    }
}

/// Splits a file name into its stem and its extension.
pub fn split_name(name: &String) -> (r: (String, String))
    ensures
        r.0@ == stem_of(name@),
        r.1@ == ext_of(name@),
{
    let s = name.as_str();
    let len = s.unicode_len();
    let mut i: usize = 0;
    let mut dot: usize = 0;
    let mut found = false;
    while i < len
        invariant
            i <= len,
            len == name@.len(),
            s@ == name@,
            !found ==> forall|j: int| 1 <= j < i ==> name@[j] != '.',
            found ==> 1 <= dot < i && name@[dot as int] == '.' && (forall|j: int|
                dot < j < i ==> name@[j] != '.'),
        decreases len - i,
    {
        if i >= 1 && s.get_char(i) == '.' {
            dot = i;
            found = true;
        }
        i += 1;
    }
    if found {
        proof {
            assert(is_last_dot(name@, dot as int));
            assert(has_extension(name@));
            lemma_last_dot_unique(name@, dot as int, last_dot(name@));
        }
        let stem = String::from_str(s.substring_char(0, dot));
        let ext = String::from_str(s.substring_char(dot + 1, len));
        (stem, ext)
    } else {
        proof {
            if has_extension(name@) {
                let d = last_dot(name@);
                assert(is_last_dot(name@, d));
                assert(name@[d] != '.');
            }
        }
        (name.clone(), String::new())
    }
}

/// Whether `name` has an extension part.
pub fn name_has_extension(name: &String) -> (r: bool)
    ensures
        r == has_extension(name@),
{
    let s = name.as_str();
    let len = s.unicode_len();
    let mut i: usize = 0;
    let mut dot: usize = 0;
    let mut found = false;
    while i < len
        invariant
            i <= len,
            len == name@.len(),
            s@ == name@,
            !found ==> forall|j: int| 1 <= j < i ==> name@[j] != '.',
            found ==> 1 <= dot < i && name@[dot as int] == '.' && (forall|j: int|
                dot < j < i ==> name@[j] != '.'),
        decreases len - i,
    {
        if i >= 1 && s.get_char(i) == '.' {
            dot = i;
            found = true;
        }
        i += 1;
    }
    proof {
        if found {
            assert(is_last_dot(name@, dot as int));
        } else {
            if has_extension(name@) {
                let d = last_dot(name@);
                assert(is_last_dot(name@, d));
                assert(name@[d] != '.');
            }
        }
    }
    found
}

/// `i` is the position of the last `/` of `path`.
pub open spec fn is_last_slash(path: Seq<char>, i: int) -> bool {
    &&& 0 <= i < path.len()
    &&& path[i] == '/'
    &&& forall|j: int| i < j < path.len() ==> path[j] != '/'
}

/// Whether `path` contains a directory separator.
pub open spec fn has_slash(path: Seq<char>) -> bool {
    exists|i: int| is_last_slash(path, i)
}

/// The final path component: everything after the last `/`, or all of it.
pub open spec fn base_name_of(path: Seq<char>) -> Seq<char> {
    if has_slash(path) {
        path.subrange((choose|i: int| is_last_slash(path, i)) + 1, path.len() as int)
    } else {
        path
    }
}

pub proof fn lemma_last_slash_unique(path: Seq<char>, i: int, j: int)
    requires
        is_last_slash(path, i),
        is_last_slash(path, j),
    ensures
        i == j,
{
    if i < j {
        assert(path[j] != '/');
    }
    if j < i {
        assert(path[i] != '/');
    }
}

/// Returns the final path component of `path`.
pub fn base_name(path: &String) -> (r: String)
    ensures
        r@ == base_name_of(path@),
{
    let s = path.as_str();
    let len = s.unicode_len();
    let mut i: usize = 0;
    let mut slash: usize = 0;
    let mut found = false;
    while i < len
        invariant
            i <= len,
            len == path@.len(),
            s@ == path@,
            !found ==> forall|j: int| 0 <= j < i ==> path@[j] != '/',
            found ==> slash < i && path@[slash as int] == '/' && (forall|j: int|
                slash < j < i ==> path@[j] != '/'),
        decreases len - i,
    {
        if s.get_char(i) == '/' {
            slash = i;
            found = true;
        }
        i += 1;
    }
    if found {
        proof {
            assert(is_last_slash(path@, slash as int));
            assert(has_slash(path@));
            lemma_last_slash_unique(path@, slash as int, choose|k: int| is_last_slash(path@, k));
        }
        String::from_str(s.substring_char(slash + 1, len))
    } else {
        proof {
            if has_slash(path@) {
                let d = choose|k: int| is_last_slash(path@, k);
                assert(is_last_slash(path@, d));
                assert(path@[d] != '/');
            }
        }
        path.clone()
    }
}

/// `s` with every leading `/` removed.
pub open spec fn trim_leading_slashes(s: Seq<char>) -> Seq<char>
    decreases s.len(),
{
    if s.len() > 0 && s[0] == '/' {
        trim_leading_slashes(s.drop_first())
    } else {
        s
    }
}

/// A path starting with `~` is re-rooted under the home directory;
/// any other path is kept as it stands.
pub open spec fn expand_home_spec(path: Seq<char>, home: Seq<char>) -> Seq<char> {
    if path.len() > 0 && path[0] == '~' {
        home + seq!['/'] + trim_leading_slashes(path.subrange(1, path.len() as int))
    } else {
        path
    }
}

proof fn lemma_trim_skip(s: Seq<char>, k: int)
    requires
        0 <= k <= s.len(),
        forall|j: int| 0 <= j < k ==> s[j] == '/',
        k == s.len() || s[k] != '/',
    ensures
        trim_leading_slashes(s) == s.subrange(k, s.len() as int),
    decreases k,
{
    if k == 0 {
        assert(s.subrange(0, s.len() as int) =~= s);
    } else {
        lemma_trim_skip(s.drop_first(), k - 1);
        assert(s.drop_first().subrange(k - 1, s.drop_first().len() as int) =~= s.subrange(
            k,
            s.len() as int,
        ));
    }
}

/// Expands a leading `~` in `path` to the given home directory.
pub fn expand_home(path: &String, home: &String) -> (r: String)
    ensures
        r@ == expand_home_spec(path@, home@),
{
    let s = path.as_str();
    let len = s.unicode_len();
    if len == 0 || s.get_char(0) != '~' {
        return path.clone();
    }
    let mut i: usize = 1;
    while i < len && s.get_char(i) == '/'
        invariant
            1 <= i <= len,
            len == path@.len(),
            s@ == path@,
            forall|j: int| 1 <= j < i ==> path@[j] == '/',
        decreases len - i,
    {
        i += 1;
    }
    let mut r = home.clone();
    r.append("/");
    r.append(s.substring_char(i, len));
    proof {
        reveal_strlit("/");
        let tail = path@.subrange(1, path@.len() as int);
        lemma_trim_skip(tail, i - 1);
        assert(tail.subrange(i - 1, tail.len() as int) =~= path@.subrange(
            i as int,
            path@.len() as int,
        ));
        assert(r@ =~= expand_home_spec(path@, home@));
    }
    r
}

} // verus!

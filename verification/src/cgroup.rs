use vstd::prelude::*;

use crate::text::{
    chars_eq, chars_of, copy_range, find_first, first_occurrence, has_prefix, has_suffix, lines_of,
    split_chars, split_lines, split_on, starts_with, ends_with, string_of, trim, trim_chars, views,
    lemma_split_on_nonempty, decimal, decimal_chars, push_all, lemma_decimal_digits, digits_value,
    lemma_split_concat, lemma_split_without_sep,
    is_digit,
};

verus! {

// ---------------------------------------------------------------------------
// cgroup paths.
// ---------------------------------------------------------------------------

/// The cgroup lies under an `app.slice`: one of its `/`-separated components
/// is exactly `app.slice`.
pub open spec fn in_app_slice(dir: Seq<char>) -> bool {
    split_on(dir, '/').contains("app.slice"@)
}

/// The last `/`-separated component of a path (the whole path if it has no `/`).
pub open spec fn last_component(dir: Seq<char>) -> Seq<char> {
    split_on(dir, '/').last()
}

/// The user service manager (`user@<uid>.service`) whose app.slice `dir` is
/// in: the part of `dir` before the first `/app.slice/`, when its last
/// component starts with `user@` and ends with `.service`.
pub open spec fn user_manager_spec(dir: Seq<char>) -> Option<Seq<char>> {
    match first_occurrence(dir, "/app.slice/"@) {
        Some(i) => {
            let head = dir.take(i);
            let m = last_component(head);
            if has_prefix(m, "user@"@) && has_suffix(m, ".service"@) {
                Some(head)
            } else {
                None
            }
        },
        None => None,
    }
}

/// True if the cgroup `dir` lies under an `app.slice`: one of its
/// `/`-separated components is exactly `app.slice`.
pub fn is_app_scope(cgroup_dir: &str) -> (r: bool)
    ensures
        r == in_app_slice(cgroup_dir@),
{
    let cs = chars_of(cgroup_dir);
    let parts = split_chars(cs.as_slice(), '/');
    let target = chars_of("app.slice");
    let ghost ps = split_on(cgroup_dir@, '/');
    let mut i: usize = 0;
    while i < parts.len()
        invariant
            views(parts@) == ps,
            ps == split_on(cgroup_dir@, '/'),
            target@ == "app.slice"@,
            i <= parts.len(),
            forall|j: int| 0 <= j < i ==> ps[j] != "app.slice"@,
        decreases parts.len() - i,
    {
        proof {
            assert(parts@[i as int]@ == ps[i as int]);
        }
        if chars_eq(parts[i].as_slice(), target.as_slice()) {
            proof {
                assert(ps[i as int] == "app.slice"@);
            }
            return true;
        }
        i = i + 1;
    }
    proof {
        if ps.contains("app.slice"@) {
            let j = choose|j: int| 0 <= j < ps.len() && ps[j] == "app.slice"@;
            assert(ps[j] != "app.slice"@);
        }
    }
    false
}

/// The last component of `dir` as characters.
fn last_component_chars(cs: &[char]) -> (v: Vec<char>)
    ensures
        v@ == last_component(cs@),
{
    let parts = split_chars(cs, '/');
    proof {
        lemma_split_on_nonempty(cs@, '/');
    }
    let n = parts.len();
    proof {
        assert(parts@[n - 1]@ == split_on(cs@, '/').last());
    }
    copy_range(parts[n - 1].as_slice(), 0, parts[n - 1].len())
}

/// The name of the unit that `cgroup_dir` is: its last `/`-separated
/// component (the whole path if it has no `/`).
pub fn unit_label(cgroup_dir: &str) -> (r: String)
    ensures
        r@ == last_component(cgroup_dir@),
{
    let cs = chars_of(cgroup_dir);
    let v = last_component_chars(cs.as_slice());
    proof {
        assert(v@.subrange(0, v@.len() as int) =~= v@);
    }
    string_of(v.as_slice())
}

/// The user service manager (`user@<uid>.service`) whose app.slice
/// `cgroup_dir` is in: the part of the path before the first `/app.slice/`,
/// when its last component starts with `user@` and ends with `.service`.
/// None for any other cgroup: the slice settings only go on a user's.
pub fn user_manager(cgroup_dir: &str) -> (r: Option<String>)
    ensures
        r matches Some(m) ==> user_manager_spec(cgroup_dir@) == Some(m@),
        r is None ==> user_manager_spec(cgroup_dir@) is None,
{
    let cs = chars_of(cgroup_dir);
    let pat = chars_of("/app.slice/");
    match find_first(cs.as_slice(), pat.as_slice()) {
        None => None,
        Some(i) => {
            let head = copy_range(cs.as_slice(), 0, i);
            proof {
                assert(head@ =~= cgroup_dir@.take(i as int));
            }
            if is_manager_component(head.as_slice()) {
                Some(string_of(head.as_slice()))
            } else {
                None
            }
        },
    }
}

/// Whether the last component of `head` starts with `user@` and ends with
/// `.service`.
fn is_manager_component(head: &[char]) -> (r: bool)
    ensures
        r == (has_prefix(last_component(head@), "user@"@) && has_suffix(
            last_component(head@),
            ".service"@,
        )),
{
    let m = last_component_chars(head);
    let user = chars_of("user@");
    let service = chars_of(".service");
    starts_with(m.as_slice(), user.as_slice()) && ends_with(m.as_slice(), service.as_slice())
}

/// The cgroup directory that a `/proc/<pid>/cgroup` body names: the first
/// line starting with `0::`, its rest trimmed, under `/sys/fs/cgroup`.
pub open spec fn cgroup_path_spec(content: Seq<char>) -> Option<Seq<char>> {
    first_unified(lines_of(content))
}

/// The cgroup directory that the first `0::` line among `ls` names.
pub open spec fn first_unified(ls: Seq<Seq<char>>) -> Option<Seq<char>>
    decreases ls.len(),
{
    if ls.len() == 0 {
        None
    } else if has_prefix(ls[0], "0::"@) {
        Some("/sys/fs/cgroup"@ + trim(ls[0].skip(3)))
    } else {
        first_unified(ls.drop_first())
    }
}

/// The cgroup directory that `content`, a `/proc/<pid>/cgroup` body, names:
/// the rest of the first line that starts with `0::`, trimmed, under
/// `/sys/fs/cgroup`. None if no line starts so.
pub fn cgroup_path_in(content: &str) -> (r: Option<String>)
    ensures
        r matches Some(p) ==> cgroup_path_spec(content@) == Some(p@),
        r is None ==> cgroup_path_spec(content@) is None,
{
    let cs = chars_of(content);
    let lines = split_lines(cs.as_slice());
    let prefix = chars_of("0::");
    let ghost ls = lines_of(content@);
    let mut i: usize = 0;
    proof {
        assert(ls.skip(0) =~= ls);
    }
    while i < lines.len()
        invariant
            views(lines@) == ls,
            ls == lines_of(content@),
            prefix@ == "0::"@,
            i <= lines.len(),
            first_unified(ls) == first_unified(ls.skip(i as int)),
        decreases lines.len() - i,
    {
        proof {
            assert(lines@[i as int]@ == ls[i as int]);
            assert(ls.skip(i as int)[0] == ls[i as int]);
            assert(ls.skip(i as int).drop_first() =~= ls.skip(i + 1));
        }
        if starts_with(lines[i].as_slice(), prefix.as_slice()) {
            proof {
                reveal_strlit("0::");
            }
            let line = &lines[i];
            let rest = copy_range(line.as_slice(), 3, line.len());
            let trimmed = trim_chars(rest.as_slice());
            let mut path = chars_of("/sys/fs/cgroup");
            let ghost base = path@;
            let mut j: usize = 0;
            while j < trimmed.len()
                invariant
                    j <= trimmed.len(),
                    base == "/sys/fs/cgroup"@,
                    path@ == base + trimmed@.take(j as int),
                decreases trimmed.len() - j,
            {
                path.push(trimmed[j]);
                proof {
                    assert(trimmed@.take(j + 1) =~= trimmed@.take(j as int).push(trimmed@[j as int]));
                }
                j = j + 1;
            }
            proof {
                assert(trimmed@.take(trimmed@.len() as int) =~= trimmed@);
                assert(rest@ =~= ls[i as int].skip(3));
            }
            return Some(string_of(path.as_slice()));
        }
        i = i + 1;
    }
    proof {
        assert(ls.skip(i as int) =~= Seq::<Seq<char>>::empty());
    }
    None
}

/// A directory the daemon may write dmem files under: its path holds no `..`.
pub fn is_safe_dir(cgroup_dir: &str) -> (r: bool)
    ensures
        r == (first_occurrence(cgroup_dir@, ".."@) is None),
{
    let cs = chars_of(cgroup_dir);
    let dots = chars_of("..");
    find_first(cs.as_slice(), dots.as_slice()).is_none()
}

/// A file that the startup cleanup looks at: the `dmem.low` of a unit below
/// an `app.slice`. The unit is the file's directory; it is not a slice (its
/// name does not end in `.slice`), and a directory above it is `app.slice`.
pub open spec fn is_boost_file_spec(path: Seq<char>) -> bool {
    let cs = split_on(path, '/');
    &&& cs.len() >= 2
    &&& cs.last() == "dmem.low"@
    &&& !has_suffix(cs[cs.len() - 2], ".slice"@)
    &&& cs.take(cs.len() - 2).contains("app.slice"@)
}

/// Whether `path` is the `dmem.low` file of a unit below an `app.slice`
/// (not of a slice), as the startup cleanup looks for.
pub fn is_boost_file(path: &str) -> (r: bool)
    ensures
        r == is_boost_file_spec(path@),
{
    let cs = chars_of(path);
    let parts = split_chars(cs.as_slice(), '/');
    let ghost ps = split_on(path@, '/');
    let n = parts.len();
    if n < 2 {
        return false;
    }
    proof {
        assert(parts@[n - 1]@ == ps[n - 1]);
        assert(parts@[n - 2]@ == ps[n - 2]);
    }
    let low = chars_of("dmem.low");
    let slice = chars_of(".slice");
    if !chars_eq(parts[n - 1].as_slice(), low.as_slice()) || ends_with(
        parts[n - 2].as_slice(),
        slice.as_slice(),
    ) {
        return false;
    }
    let target = chars_of("app.slice");
    let mut i: usize = 0;
    while i < n - 2
        invariant
            views(parts@) == ps,
            ps == split_on(path@, '/'),
            n == ps.len(),
            n >= 2,
            ps.last() == "dmem.low"@,
            !has_suffix(ps[n - 2], ".slice"@),
            target@ == "app.slice"@,
            i <= n - 2,
            forall|j: int| 0 <= j < i ==> ps[j] != "app.slice"@,
        decreases n - 2 - i,
    {
        proof {
            assert(parts@[i as int]@ == ps[i as int]);
        }
        if chars_eq(parts[i].as_slice(), target.as_slice()) {
            proof {
                assert(ps.take(n - 2)[i as int] == "app.slice"@);
            }
            return true;
        }
        i = i + 1;
    }
    proof {
        let t = ps.take(n - 2);
        if t.contains("app.slice"@) {
            let j = choose|j: int| 0 <= j < t.len() && t[j] == "app.slice"@;
            assert(ps[j] == t[j]);
        }
    }
    false
}

/// The directory of the slice of the user with id `uid` and a `/`:
/// `/sys/fs/cgroup/user.slice/user-<uid>.slice/`.
pub open spec fn user_slice_prefix(uid: u32) -> Seq<char> {
    "/sys/fs/cgroup/user.slice/user-"@ + decimal(uid as nat) + ".slice/"@
}

/// The cgroup lies in the slice of the user `uid`: its path starts with
/// `/sys/fs/cgroup/user.slice/user-<uid>.slice/`.
pub open spec fn in_user_slice(dir: Seq<char>, uid: u32) -> bool {
    has_prefix(dir, user_slice_prefix(uid))
}

/// Whether `cgroup_dir` lies in the slice of the user `uid`: below
/// `/sys/fs/cgroup/user.slice/user-<uid>.slice/`.
pub fn is_users_cgroup(cgroup_dir: &str, uid: u32) -> (r: bool)
    ensures
        r == in_user_slice(cgroup_dir@, uid),
{
    let cs = chars_of(cgroup_dir);
    let mut prefix = chars_of("/sys/fs/cgroup/user.slice/user-");
    push_all(&mut prefix, decimal_chars(uid as u64).as_slice());
    push_all(&mut prefix, chars_of(".slice/").as_slice());
    starts_with(cs.as_slice(), prefix.as_slice())
}

/// A cgroup in the slice of one user lies in no other user's slice.
pub proof fn law_user_slices_are_disjoint(dir: Seq<char>, u: u32, v: u32)
    requires
        in_user_slice(dir, v),
        u != v,
    ensures
        !in_user_slice(dir, u),
{
    if in_user_slice(dir, u) {
        lemma_one_user_slice(dir, u, v);
    }
}

/// A cgroup lies in at most one user's slice.
proof fn lemma_one_user_slice(dir: Seq<char>, u: u32, v: u32)
    requires
        in_user_slice(dir, v),
        in_user_slice(dir, u),
    ensures
        u == v,
{
    reveal_strlit("/sys/fs/cgroup/user.slice/user-");
    reveal_strlit(".slice/");
    let root = "/sys/fs/cgroup/user.slice/user-"@;
    let du = decimal(u as nat);
    let dv = decimal(v as nat);
    let pu = user_slice_prefix(u);
    let pv = user_slice_prefix(v);
    let n = root.len();
    lemma_decimal_digits(u as nat);
    lemma_decimal_digits(v as nat);
    assert(forall|i: int| 0 <= i < pu.len() ==> pu[i] == dir[i]) by {
        assert forall|i: int| 0 <= i < pu.len() implies pu[i] == dir[i] by {
            assert(dir.take(pu.len() as int)[i] == dir[i]);
        }
    }
    assert(forall|i: int| 0 <= i < pv.len() ==> pv[i] == dir[i]) by {
        assert forall|i: int| 0 <= i < pv.len() implies pv[i] == dir[i] by {
            assert(dir.take(pv.len() as int)[i] == dir[i]);
        }
    }
    if du.len() == dv.len() {
        assert(du =~= dv) by {
            assert forall|i: int| 0 <= i < du.len() implies du[i] == dv[i] by {
                assert(pu[n + i] == du[i]);
                assert(pv[n + i] == dv[i]);
            }
        }
        assert(digits_value(du) == digits_value(dv));
    } else if du.len() < dv.len() {
        let k: int = (n + du.len()) as int;
        assert(pu[k] == '.');
        assert(pv[k] == dv[du.len() as int]);
        assert(is_digit(dv[du.len() as int]));
    } else {
        let k: int = (n + dv.len()) as int;
        assert(pv[k] == '.');
        assert(pu[k] == du[dv.len() as int]);
        assert(is_digit(du[dv.len() as int]));
    }
}

/// The command name of a process, from its `/proc/<pid>/comm` body (None if
/// it could not be read): the body trimmed, or empty.
pub fn pid_comm(comm_file: Option<&str>) -> (name: String)
    ensures
        name@ == match comm_file {
            Some(c) => trim(c@),
            None => Seq::<char>::empty(),
        },
{
    match comm_file {
        Some(c) => {
            let cs = chars_of(c);
            let t = trim_chars(cs.as_slice());
            string_of(t.as_slice())
        },
        None => String::new(),
    }
}

// ---------------------------------------------------------------------------
// Laws on cgroup paths.
// ---------------------------------------------------------------------------

proof fn lemma_no_slash(s: Seq<char>)
    requires
        s == "app.slice"@ || s == "dmem.low"@,
    ensures
        split_on(s, '/') == seq![s],
{
    reveal_strlit("app.slice");
    reveal_strlit("dmem.low");
    assert forall|i: int| 0 <= i < s.len() implies s[i] != '/' by {}
    lemma_split_without_sep(s, '/');
}

/// The pieces of `a/app.slice/b`: those of `a`, then `app.slice`, then those of `b`.
proof fn lemma_split_around_app_slice(a: Seq<char>, b: Seq<char>)
    ensures
        split_on(a + "/app.slice/"@ + b, '/') == split_on(a, '/') + seq!["app.slice"@] + split_on(
            b,
            '/',
        ),
{
    reveal_strlit("/app.slice/");
    reveal_strlit("app.slice");
    let x = "app.slice"@;
    assert(a + "/app.slice/"@ + b =~= a + seq!['/'] + (x + seq!['/'] + b));
    lemma_split_concat(a, x + seq!['/'] + b, '/');
    lemma_split_concat(x, b, '/');
    lemma_no_slash(x);
    assert(split_on(a, '/') + (seq![x] + split_on(b, '/')) =~= split_on(a, '/') + seq![x]
        + split_on(b, '/'));
}

/// A cgroup counts as under app.slice wherever in its path a component is
/// exactly `app.slice`: directly above the unit, or with slices (such as
/// `app-x.slice`) between, at any depth.
pub proof fn law_app_slice_anywhere(a: Seq<char>, b: Seq<char>)
    ensures
        in_app_slice(a + "/app.slice/"@ + b),
{
    lemma_split_around_app_slice(a, b);
    let ps = split_on(a + "/app.slice/"@ + b, '/');
    assert(ps[split_on(a, '/').len() as int] == "app.slice"@);
}

/// The startup cleanup looks at the `dmem.low` of every unit below an
/// app.slice that is not itself a slice, whatever kind of unit it is
/// (`.scope`, `.service`, ...).
pub proof fn law_boost_file_of_any_unit(a: Seq<char>, u: Seq<char>)
    requires
        forall|i: int| 0 <= i < u.len() ==> u[i] != '/',
        !has_suffix(u, ".slice"@),
    ensures
        is_boost_file_spec(a + "/app.slice/"@ + u + "/dmem.low"@),
{
    reveal_strlit("/dmem.low");
    reveal_strlit("dmem.low");
    let low = "dmem.low"@;
    let b = u + "/dmem.low"@;
    assert(a + "/app.slice/"@ + u + "/dmem.low"@ =~= a + "/app.slice/"@ + b);
    lemma_split_around_app_slice(a, b);
    assert(b =~= u + seq!['/'] + low);
    lemma_split_concat(u, low, '/');
    lemma_split_without_sep(u, '/');
    lemma_no_slash(low);
    let sa = split_on(a, '/');
    let cs = split_on(a + "/app.slice/"@ + u + "/dmem.low"@, '/');
    assert(cs =~= sa + seq!["app.slice"@] + seq![u, low]);
    assert(cs.last() == low);
    assert(cs[cs.len() - 2] == u);
    assert(cs.take(cs.len() - 2)[sa.len() as int] == "app.slice"@);
}

}

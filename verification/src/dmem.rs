use vstd::prelude::*;

use crate::text::{
    chars_eq, chars_of, has_prefix, lines_of, parse_u64, parse_u64_spec, split_lines, split_words,
    starts_with, string_of, views, words_of, is_word, decimal, lemma_decimal_is_word,
    lemma_parse_decimal, lemma_single_line, lemma_two_words, is_ws, lemma_lines_concat,
};

verus! {

// ---------------------------------------------------------------------------
// The dmem cgroup files: `dmem.capacity`, `dmem.low` and `dmem.max` hold one
// region per line, written `<region key> <value>`.
// ---------------------------------------------------------------------------

/// The region that a line of `dmem.capacity` lists, if it is a GPU region
/// (its key starts with `drm/`) with a capacity above zero.
pub open spec fn capacity_entry(line: Seq<char>) -> Option<(Seq<char>, u64)> {
    let w = words_of(line);
    if w.len() >= 2 {
        match parse_u64_spec(w[1]) {
            Some(v) => if has_prefix(w[0], "drm/"@) && v > 0 {
                Some((w[0], v))
            } else {
                None
            },
            None => None,
        }
    } else {
        None
    }
}

/// The GPU regions that the lines `ls` list, in order.
pub open spec fn capacity_entries(ls: Seq<Seq<char>>) -> Seq<(Seq<char>, u64)>
    decreases ls.len(),
{
    if ls.len() == 0 {
        seq![]
    } else {
        let r = capacity_entries(ls.drop_last());
        match capacity_entry(ls.last()) {
            Some(e) => r.push(e),
            None => r,
        }
    }
}

/// The GPU regions that a `dmem.capacity` file body lists, in order.
pub open spec fn dmem_capacity(content: Seq<char>) -> Seq<(Seq<char>, u64)> {
    capacity_entries(lines_of(content))
}

/// A list of regions as key text and number.
pub open spec fn regions_view(v: Seq<(String, u64)>) -> Seq<(Seq<char>, u64)> {
    Seq::new(v.len(), |i: int| (v[i].0@, v[i].1))
}

/// The value that a dmem file line sets `key` to, if it names `key` and a value.
pub open spec fn line_value(line: Seq<char>, key: Seq<char>) -> Option<Seq<char>> {
    let w = words_of(line);
    if w.len() >= 2 && w[0] == key {
        Some(w[1])
    } else {
        None
    }
}

/// The value that the first line naming `key` with a value sets it to.
pub open spec fn first_value(ls: Seq<Seq<char>>, key: Seq<char>) -> Option<Seq<char>>
    decreases ls.len(),
{
    if ls.len() == 0 {
        None
    } else {
        match line_value(ls[0], key) {
            Some(v) => Some(v),
            None => first_value(ls.drop_first(), key),
        }
    }
}

/// What a dmem file body sets `key` to (a number of bytes, or `max`), if it
/// lists the region.
pub open spec fn dmem_entry_spec(content: Seq<char>, key: Seq<char>) -> Option<Seq<char>> {
    first_value(lines_of(content), key)
}

/// The line sets `key` to exactly the number `value`.
pub open spec fn line_has_value(line: Seq<char>, key: Seq<char>, value: u64) -> bool {
    let w = words_of(line);
    w.len() >= 2 && w[0] == key && parse_u64_spec(w[1]) == Some(value)
}

/// Some line of a dmem file body sets `key` to exactly the number `value`.
pub open spec fn has_value_spec(content: Seq<char>, key: Seq<char>, value: u64) -> bool {
    exists|i: int| 0 <= i < lines_of(content).len() && line_has_value(#[trigger] lines_of(content)[i], key, value)
}

/// The line that sets `key` to `value` in a dmem file.
pub open spec fn dmem_line_spec(key: Seq<char>, value: Seq<char>) -> Seq<char> {
    key + seq![' '] + value + seq!['\n']
}

// ---------------------------------------------------------------------------
// Executable functions.
// ---------------------------------------------------------------------------

/// The GPU regions listed in `content`, a `dmem.capacity` body: each line's
/// first two words, key and capacity, where the key starts with `drm/` and the
/// capacity is a number above zero. Other lines are skipped.
pub fn parse_dmem_capacity(content: &str) -> (entries: Vec<(String, u64)>)
    ensures
        regions_view(entries@) == dmem_capacity(content@),
{
    let chars = chars_of(content);
    let lines = split_lines(chars.as_slice());
    let prefix = chars_of("drm/");
    let ghost ls = lines_of(content@);
    let mut entries: Vec<(String, u64)> = Vec::new();
    let mut i: usize = 0;
    while i < lines.len()
        invariant
            views(lines@) == ls,
            ls == lines_of(content@),
            prefix@ == "drm/"@,
            i <= lines.len(),
            regions_view(entries@) == capacity_entries(ls.take(i as int)),
        decreases lines.len() - i,
    {
        let words = split_words(lines[i].as_slice());
        let ghost line = ls[i as int];
        proof {
            assert(lines@[i as int]@ == line);
            assert(ls.take(i + 1).drop_last() =~= ls.take(i as int));
            assert(ls.take(i + 1).last() == line);
        }
        let ghost before = regions_view(entries@);
        if words.len() >= 2 {
            proof {
                assert(words@[0]@ == words_of(line)[0]);
                assert(words@[1]@ == words_of(line)[1]);
            }
            match parse_u64(words[1].as_slice()) {
                Some(v) => {
                    if starts_with(words[0].as_slice(), prefix.as_slice()) && v > 0 {
                        let key = string_of(words[0].as_slice());
                        entries.push((key, v));
                        proof {
                            assert(regions_view(entries@) =~= before.push((words_of(line)[0], v)));
                        }
                    }
                },
                None => {},
            }
        }
        i = i + 1;
    }
    proof {
        assert(ls.take(lines.len() as int) =~= ls);
    }
    entries
}

/// What `content`, a dmem file body, sets `drm_key` to: the second word of
/// the first line whose first word is `drm_key` and that has a second word.
/// None if no line lists the region.
pub fn dmem_entry(content: &str, drm_key: &str) -> (r: Option<String>)
    ensures
        r matches Some(v) ==> dmem_entry_spec(content@, drm_key@) == Some(v@),
        r is None ==> dmem_entry_spec(content@, drm_key@) is None,
{
    let chars = chars_of(content);
    let key = chars_of(drm_key);
    let lines = split_lines(chars.as_slice());
    let ghost ls = lines_of(content@);
    let mut i: usize = 0;
    proof {
        assert(ls.skip(0) =~= ls);
    }
    while i < lines.len()
        invariant
            views(lines@) == ls,
            ls == lines_of(content@),
            key@ == drm_key@,
            i <= lines.len(),
            first_value(ls, key@) == first_value(ls.skip(i as int), key@),
        decreases lines.len() - i,
    {
        let words = split_words(lines[i].as_slice());
        let ghost line = ls[i as int];
        proof {
            assert(lines@[i as int]@ == line);
            assert(ls.skip(i as int)[0] == line);
            assert(ls.skip(i as int).drop_first() =~= ls.skip(i + 1));
        }
        if words.len() >= 2 && chars_eq(words[0].as_slice(), key.as_slice()) {
            proof {
                assert(words@[0]@ == words_of(line)[0]);
                assert(words@[1]@ == words_of(line)[1]);
            }
            return Some(string_of(words[1].as_slice()));
        }
        proof {
            if words_of(line).len() >= 2 {
                assert(words@[0]@ == words_of(line)[0]);
            }
        }
        i = i + 1;
    }
    proof {
        assert(ls.skip(i as int) =~= Seq::<Seq<char>>::empty());
    }
    None
}

/// Whether `content`, a dmem file body, sets `drm_key` to exactly `value`:
/// some line's first word is `drm_key` and its second word parses as `value`.
pub fn dmem_low_has_value(content: &str, drm_key: &str, value: u64) -> (r: bool)
    ensures
        r == has_value_spec(content@, drm_key@, value),
{
    let chars = chars_of(content);
    let key = chars_of(drm_key);
    let lines = split_lines(chars.as_slice());
    let ghost ls = lines_of(content@);
    let mut i: usize = 0;
    while i < lines.len()
        invariant
            views(lines@) == ls,
            ls == lines_of(content@),
            key@ == drm_key@,
            i <= lines.len(),
            forall|j: int| 0 <= j < i ==> !line_has_value(#[trigger] ls[j], drm_key@, value),
        decreases lines.len() - i,
    {
        let words = split_words(lines[i].as_slice());
        let ghost line = ls[i as int];
        proof {
            assert(lines@[i as int]@ == line);
        }
        if words.len() >= 2 {
            proof {
                assert(words@[0]@ == words_of(line)[0]);
                assert(words@[1]@ == words_of(line)[1]);
            }
            if chars_eq(words[0].as_slice(), key.as_slice()) && parse_u64(words[1].as_slice())
                == Some(value) {
                return true;
            }
        }
        i = i + 1;
    }
    false
}

/// The line `<drm_key> <value>` and a newline, as written to a dmem file.
pub fn dmem_line(drm_key: &str, value: &str) -> (line: String)
    ensures
        line@ == dmem_line_spec(drm_key@, value@),
{
    let mut cs = chars_of(drm_key);
    cs.push(' ');
    let v = chars_of(value);
    let mut i: usize = 0;
    let ghost head = cs@;
    while i < v.len()
        invariant
            i <= v.len(),
            head == drm_key@ + seq![' '],
            v@ == value@,
            cs@ == head + v@.take(i as int),
        decreases v.len() - i,
    {
        cs.push(v[i]);
        proof {
            assert(v@.take(i + 1) =~= v@.take(i as int).push(v@[i as int]));
        }
        i = i + 1;
    }
    cs.push('\n');
    proof {
        assert(v@.take(v@.len() as int) =~= v@);
        assert(cs@ =~= dmem_line_spec(drm_key@, value@));
    }
    string_of(cs.as_slice())
}

// ---------------------------------------------------------------------------
// What is written is read back.
// ---------------------------------------------------------------------------

proof fn lemma_dmem_line_parts(key: Seq<char>, value: Seq<char>)
    requires
        is_word(key),
        is_word(value),
    ensures
        lines_of(dmem_line_spec(key, value)) == seq![key + seq![' '] + value],
        words_of(key + seq![' '] + value) == seq![key, value],
{
    let x = key + seq![' '] + value;
    assert forall|i: int| 0 <= i < x.len() implies x[i] != '\n' by {
        if i < key.len() {
            assert(x[i] == key[i]);
            assert(!is_ws(key[i]));
        } else if i > key.len() {
            assert(x[i] == value[i - key.len() - 1]);
            assert(!is_ws(value[i - key.len() - 1]));
        }
    }
    assert(x.last() == value.last());
    assert(!is_ws(value[value.len() - 1]));
    assert(dmem_line_spec(key, value) =~= x.push('\n'));
    lemma_single_line(x);
    lemma_two_words(key, value);
}

/// A line that this library writes for a region is read back as that
/// region's value: `dmem_entry` of the line `<key> <value>` gives `value`,
/// for a key and a value that are each one word.
pub proof fn law_written_value_read_back(key: Seq<char>, value: Seq<char>)
    requires
        is_word(key),
        is_word(value),
    ensures
        dmem_entry_spec(dmem_line_spec(key, value), key) == Some(value),
{
    lemma_dmem_line_parts(key, value);
    let ls = lines_of(dmem_line_spec(key, value));
    assert(line_value(ls[0], key) == Some(value));
}

/// A boost this library writes to a `dmem.low` file is recognised there:
/// `dmem_low_has_value` holds of the line `<key> <bytes>` for that key and
/// number of bytes, for a key that is one word.
pub proof fn law_written_boost_recognised(key: Seq<char>, bytes: u64)
    requires
        is_word(key),
    ensures
        has_value_spec(dmem_line_spec(key, decimal(bytes as nat)), key, bytes),
{
    lemma_decimal_is_word(bytes as nat);
    lemma_parse_decimal(bytes);
    lemma_dmem_line_parts(key, decimal(bytes as nat));
    let ls = lines_of(dmem_line_spec(key, decimal(bytes as nat)));
    assert(line_has_value(ls[0], key, bytes));
}

// ---------------------------------------------------------------------------
// Choosing the GPU.
// ---------------------------------------------------------------------------

/// The position of the first region whose key is `key`.
pub open spec fn first_with_key(es: Seq<(Seq<char>, u64)>, key: Seq<char>) -> Option<int>
    decreases es.len(),
{
    if es.len() == 0 {
        None
    } else {
        match first_with_key(es.drop_last(), key) {
            Some(i) => Some(i),
            None => if es.last().0 == key {
                Some(es.len() - 1)
            } else {
                None
            },
        }
    }
}

/// The position of the region with the largest capacity; of several with
/// that capacity, the last (as `Iterator::max_by_key` picks it).
pub open spec fn largest(es: Seq<(Seq<char>, u64)>) -> Option<int>
    decreases es.len(),
{
    if es.len() == 0 {
        None
    } else {
        match largest(es.drop_last()) {
            Some(j) => if es.last().1 >= es[j].1 {
                Some(es.len() - 1)
            } else {
                Some(j)
            },
            None => Some(es.len() - 1),
        }
    }
}

/// The region that the daemon boosts: the one keyed `override_key` when one
/// is given (None if no region has that key), else the largest.
pub open spec fn chosen_region(es: Seq<(Seq<char>, u64)>, override_key: Option<Seq<char>>) -> Option<
    (Seq<char>, u64),
> {
    let i = match override_key {
        Some(k) => first_with_key(es, k),
        None => largest(es),
    };
    match i {
        Some(i) => Some(es[i]),
        None => None,
    }
}

/// The text of an optional string.
pub open spec fn text_view(o: Option<&str>) -> Option<Seq<char>> {
    match o {
        Some(s) => Some(s@),
        None => None,
    }
}

/// The GPU region to boost among `entries`: the one keyed `override_key` when
/// one is given, else the one with the largest capacity (the last of equals).
pub fn pick_dmem_region(entries: &Vec<(String, u64)>, override_key: Option<&str>) -> (r: Option<
    (String, u64),
>)
    ensures
        r matches Some(e) ==> chosen_region(regions_view(entries@), text_view(override_key))
            == Some((e.0@, e.1)),
        r is None ==> chosen_region(regions_view(entries@), text_view(override_key)) is None,
{
    let ghost es = regions_view(entries@);
    match override_key {
        Some(k) => {
            let key = chars_of(k);
            let mut i: usize = 0;
            while i < entries.len()
                invariant
                    es == regions_view(entries@),
                    override_key == Some(k),
                    key@ == k@,
                    i <= entries.len(),
                    first_with_key(es.take(i as int), key@) is None,
                decreases entries.len() - i,
            {
                let name = chars_of(entries[i].0.as_str());
                proof {
                    assert(es.take(i + 1).drop_last() =~= es.take(i as int));
                }
                if chars_eq(name.as_slice(), key.as_slice()) {
                    proof {
                        assert(es[i as int] == (entries@[i as int].0@, entries@[i as int].1));
                        lemma_first_with_key_prefix(es, key@, i + 1);
                    }
                    let found = entries[i].0.clone();
                    proof {
                        assert(found@ == entries@[i as int].0@);
                    }
                    return Some((found, entries[i].1));
                }
                i = i + 1;
            }
            proof {
                assert(es.take(entries.len() as int) =~= es);
            }
            None
        },
        None => {
            if entries.len() == 0 {
                return None;
            }
            let mut best: usize = 0;
            let mut i: usize = 1;
            proof {
                assert(es.take(1).drop_last() =~= Seq::<(Seq<char>, u64)>::empty());
                let t = es.take(1);
                assert(t.len() == 1);
                assert(largest(t.drop_last()) is None);
                assert(largest(t) == Some(0int));
            }
            while i < entries.len()
                invariant
                    es == regions_view(entries@),
                    1 <= i <= entries.len(),
                    best < i,
                    largest(es.take(i as int)) == Some(best as int),
                decreases entries.len() - i,
            {
                proof {
                    assert(es.take(i + 1).drop_last() =~= es.take(i as int));
                }
                if entries[i].1 >= entries[best].1 {
                    best = i;
                }
                i = i + 1;
            }
            proof {
                assert(es.take(entries.len() as int) =~= es);
            }
            Some((entries[best].0.clone(), entries[best].1))
        },
    }
}

proof fn lemma_first_with_key_prefix(es: Seq<(Seq<char>, u64)>, key: Seq<char>, n: int)
    requires
        0 < n <= es.len(),
        first_with_key(es.take(n - 1), key) is None,
        es[n - 1].0 == key,
    ensures
        first_with_key(es, key) == Some(n - 1),
    decreases es.len(),
{
    assert(es.take(n).drop_last() =~= es.take(n - 1));
    if n < es.len() {
        assert(es.drop_last().take(n - 1) =~= es.take(n - 1));
        lemma_first_with_key_prefix(es.drop_last(), key, n);
    } else {
        assert(es.take(n) =~= es);
    }
}

// ---------------------------------------------------------------------------
// Laws on whole dmem file bodies.
// ---------------------------------------------------------------------------

proof fn lemma_capacity_entries_concat(ls: Seq<Seq<char>>, ms: Seq<Seq<char>>)
    ensures
        capacity_entries(ls + ms) == capacity_entries(ls) + capacity_entries(ms),
    decreases ms.len(),
{
    if ms.len() == 0 {
        assert(ls + ms =~= ls);
        assert(capacity_entries(ls) + capacity_entries(ms) =~= capacity_entries(ls));
    } else {
        lemma_capacity_entries_concat(ls, ms.drop_last());
        assert((ls + ms).drop_last() =~= ls + ms.drop_last());
        assert((ls + ms).last() == ms.last());
        match capacity_entry(ms.last()) {
            Some(e) => {
                assert((capacity_entries(ls) + capacity_entries(ms.drop_last())).push(e)
                    =~= capacity_entries(ls) + capacity_entries(ms.drop_last()).push(e));
            },
            None => {},
        }
    }
}

/// The GPU regions of a `dmem.capacity` body made of two parts, the first
/// ended by a newline (or empty), are those of the first part followed by
/// those of the second: every line is read on its own.
pub proof fn law_capacity_of_joined_bodies(c: Seq<char>, t: Seq<char>)
    requires
        c.len() == 0 || c.last() == '\n',
    ensures
        dmem_capacity(c + t) == dmem_capacity(c) + dmem_capacity(t),
{
    lemma_lines_concat(c, t);
    lemma_capacity_entries_concat(lines_of(c), lines_of(t));
}

/// A `dmem.capacity` line `<key> <capacity>` lists the region `key` with that
/// capacity whenever the key starts with `drm/` and the capacity is a number
/// above zero, whatever else the key holds; with a key not starting with
/// `drm/`, or a capacity of zero, it lists nothing.
pub proof fn law_capacity_line(key: Seq<char>, value: Seq<char>)
    requires
        is_word(key),
        is_word(value),
    ensures
        (has_prefix(key, "drm/"@) && parse_u64_spec(value) is Some && parse_u64_spec(value).unwrap()
            > 0) ==> dmem_capacity(dmem_line_spec(key, value)) == seq![(key, parse_u64_spec(value).unwrap())],
        (!has_prefix(key, "drm/"@) || parse_u64_spec(value) == Some(0u64)) ==> dmem_capacity(
            dmem_line_spec(key, value),
        ).len() == 0,
{
    lemma_dmem_line_parts(key, value);
    let x = key + seq![' '] + value;
    let ls = lines_of(dmem_line_spec(key, value));
    assert(ls.len() == 1);
    assert(ls.drop_last() =~= Seq::<Seq<char>>::empty());
    assert(capacity_entries(ls.drop_last()) =~= Seq::<(Seq<char>, u64)>::empty());
    assert(ls.last() == x);
    let w = words_of(x);
    assert(w[0] == key && w[1] == value);
    match capacity_entry(x) {
        Some(e) => {
            assert(capacity_entries(ls) =~= seq![e]);
        },
        None => {
            assert(capacity_entries(ls) =~= Seq::<(Seq<char>, u64)>::empty());
        },
    }
}

proof fn lemma_first_value_concat(ls: Seq<Seq<char>>, ms: Seq<Seq<char>>, key: Seq<char>)
    ensures
        first_value(ls + ms, key) == match first_value(ls, key) {
            Some(v) => Some(v),
            None => first_value(ms, key),
        },
    decreases ls.len(),
{
    if ls.len() == 0 {
        assert(ls + ms =~= ms);
    } else {
        assert((ls + ms)[0] == ls[0]);
        assert((ls + ms).drop_first() =~= ls.drop_first() + ms);
        lemma_first_value_concat(ls.drop_first(), ms, key);
    }
}

/// In a dmem body made of two parts, the first ended by a newline (or
/// empty), the value of a region is the first part's when it lists the
/// region, else the second part's: the first listing counts.
pub proof fn law_entry_of_joined_bodies(c: Seq<char>, t: Seq<char>, key: Seq<char>)
    requires
        c.len() == 0 || c.last() == '\n',
    ensures
        dmem_entry_spec(c + t, key) == match dmem_entry_spec(c, key) {
            Some(v) => Some(v),
            None => dmem_entry_spec(t, key),
        },
{
    lemma_lines_concat(c, t);
    lemma_first_value_concat(lines_of(c), lines_of(t), key);
}

/// Whether a dmem body sets a region to a value is read line by line: a
/// body made of two parts, the first ended by a newline (or empty), sets it
/// when either part does, whatever the other part holds.
pub proof fn law_has_value_of_joined_bodies(c: Seq<char>, t: Seq<char>, key: Seq<char>, value: u64)
    requires
        c.len() == 0 || c.last() == '\n',
    ensures
        has_value_spec(c + t, key, value) == (has_value_spec(c, key, value) || has_value_spec(
            t,
            key,
            value,
        )),
{
    lemma_lines_concat(c, t);
    let lc = lines_of(c);
    let lt = lines_of(t);
    let l = lines_of(c + t);
    if has_value_spec(c, key, value) {
        let i = choose|i: int| 0 <= i < lc.len() && line_has_value(#[trigger] lc[i], key, value);
        assert(l[i] == lc[i]);
    }
    if has_value_spec(t, key, value) {
        let i = choose|i: int| 0 <= i < lt.len() && line_has_value(#[trigger] lt[i], key, value);
        assert(l[lc.len() + i] == lt[i]);
    }
    if has_value_spec(c + t, key, value) {
        let i = choose|i: int| 0 <= i < l.len() && line_has_value(#[trigger] l[i], key, value);
        if i < lc.len() {
            assert(l[i] == lc[i]);
        } else {
            assert(l[i] == lt[i - lc.len()]);
        }
    }
}

}

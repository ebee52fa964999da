//! Filter strings of the form `key=value` and the key/value table built
//! from them.
//!
//! A filter string splits at its first `=`; everything after it, further
//! `=` included, is the value. Values given for the same key accumulate
//! in order of appearance.

use vstd::prelude::*;
use crate::Error;
use crate::text::str_views;

verus! {

/// The index of the first occurrence of `c` in `s`, or `-1` if `c` does
/// not occur.
pub open spec fn find_first(s: Seq<char>, c: char) -> int
    decreases s.len(),
{
    if s.len() == 0 {
        -1
    } else if s[0] == c {
        0
    } else {
        let r = find_first(s.skip(1), c);
        if r < 0 {
            -1
        } else {
            r + 1
        }
    }
}

/// `find_first` names the first occurrence: the position it returns
/// holds `c`, and nothing before it does; a negative answer means `c` is
/// absent.
pub proof fn lemma_find_first(s: Seq<char>, c: char)
    ensures
        find_first(s, c) >= 0 ==> {
            &&& find_first(s, c) < s.len()
            &&& s[find_first(s, c)] == c
            &&& forall|j: int| 0 <= j < find_first(s, c) ==> s[j] != c
        },
        find_first(s, c) < 0 ==> forall|j: int| 0 <= j < s.len() ==> s[j] != c,
    decreases s.len(),
{
    if s.len() > 0 && s[0] != c {
        lemma_find_first(s.skip(1), c);
        assert forall|j: int| 0 <= j < s.len() - 1 implies s.skip(1)[j] == s[j + 1] by {}
        if find_first(s.skip(1), c) < 0 {
            assert forall|j: int| 0 <= j < s.len() implies s[j] != c by {
                if j > 0 {
                    assert(s.skip(1)[j - 1] == s[j]);
                }
            }
        } else {
            let r = find_first(s.skip(1), c);
            assert(s.skip(1)[r] == s[r + 1]);
            assert forall|j: int| 0 <= j < r + 1 implies s[j] != c by {
                if j > 0 {
                    assert(s.skip(1)[j - 1] == s[j]);
                }
            }
        }
    }
}

/// The index of the first `=` in `s`, if any.
fn find_equals(s: &str) -> (r: Option<usize>)
    ensures
        match r {
            Option::Some(i) => i < s@.len() && find_first(s@, '=') == i as int,
            Option::None => find_first(s@, '=') < 0,
        },
{
    let n = s.unicode_len();
    let mut i: usize = 0;
    while i < n
        invariant
            i <= n,
            n == s@.len(),
            forall|j: int| 0 <= j < i ==> s@[j] != '=',
        decreases n - i,
    {
        let c = s.get_char(i);
        if c == '=' {
            proof {
                lemma_find_first_at(s@, '=', i as int);
            }
            return Option::Some(i);
        }
        i = i + 1;
    }
    proof {
        lemma_find_first(s@, '=');
        if find_first(s@, '=') >= 0 {
            assert(s@[find_first(s@, '=')] == '=');
            assert(false);
        }
    }
    Option::None
}

/// The first match determines `find_first`.
pub proof fn lemma_find_first_at(s: Seq<char>, c: char, k: int)
    requires
        0 <= k < s.len(),
        s[k] == c,
        forall|j: int| 0 <= j < k ==> s[j] != c,
    ensures
        find_first(s, c) == k,
{
    lemma_find_first(s, c);
    let i = find_first(s, c);
    if i < 0 {
        assert(s[k] != c);
        assert(false);
    }
    if i < k {
        assert(s[i] != c);
        assert(false);
    }
    if i > k {
        assert(s[k] != c);
        assert(false);
    }
}

/// Splits one filter string at its first `=` into key and value.
///
/// Succeeds exactly when the string holds an `=`; otherwise fails with
/// [`Error::InvalidFilter`] carrying the string.
pub fn parse_filter(input: &str) -> (r: Result<(String, String), Error>)
    ensures
        (r is Ok) <==> find_first(input@, '=') >= 0,
        r matches Ok(kv) ==> {
            &&& kv.0@ == input@.take(find_first(input@, '='))
            &&& kv.1@ == input@.skip(find_first(input@, '=') + 1)
        },
        r matches Err(e) ==> e matches Error::InvalidFilter(t) && t@ == input@,
{
    let n = input.unicode_len();
    match find_equals(input) {
        Option::Some(i) => {
            let key = String::from_str(input.substring_char(0, i));
            let value = String::from_str(input.substring_char(i + 1, n));
            Ok((key, value))
        },
        Option::None => Err(Error::InvalidFilter(input.to_owned())),
    }
}

/// The values collected for one filter key.
#[derive(Debug, Clone)]
pub struct FilterEntry {
    pub key: String,
    pub values: Vec<String>,
}

impl View for FilterEntry {
    type V = (Seq<char>, Seq<Seq<char>>);

    open spec fn view(&self) -> (Seq<char>, Seq<Seq<char>>) {
        (self.key@, str_views(self.values@))
    }
}

/// The views of a sequence of filter entries.
pub open spec fn filter_views(fs: Seq<FilterEntry>) -> Seq<(Seq<char>, Seq<Seq<char>>)> {
    fs.map_values(|f: FilterEntry| f@)
}

/// The index of the entry for `key`, or `-1` if no entry names it.
pub open spec fn index_of_key(fs: Seq<(Seq<char>, Seq<Seq<char>>)>, key: Seq<char>) -> int
    decreases fs.len(),
{
    if fs.len() == 0 {
        -1
    } else if fs[0].0 == key {
        0
    } else {
        let r = index_of_key(fs.skip(1), key);
        if r < 0 {
            -1
        } else {
            r + 1
        }
    }
}

/// `index_of_key` names the first entry for `key`, and is negative
/// exactly when no entry names it.
pub proof fn lemma_index_of_key(fs: Seq<(Seq<char>, Seq<Seq<char>>)>, key: Seq<char>)
    ensures
        index_of_key(fs, key) >= 0 <==> exists|j: int| 0 <= j < fs.len() && fs[j].0 == key,
        index_of_key(fs, key) >= 0 ==> {
            let k = index_of_key(fs, key);
            &&& 0 <= k < fs.len()
            &&& fs[k].0 == key
            &&& forall|j: int| 0 <= j < k ==> fs[j].0 != key
        },
    decreases fs.len(),
{
    if fs.len() > 0 && fs[0].0 != key {
        lemma_index_of_key(fs.skip(1), key);
        assert forall|j: int| 0 <= j < fs.len() - 1 implies fs.skip(1)[j] == fs[j + 1] by {}
        let r = index_of_key(fs.skip(1), key);
        if r < 0 {
            assert forall|j: int| 0 <= j < fs.len() implies fs[j].0 != key by {
                if j > 0 {
                    assert(fs.skip(1)[j - 1] == fs[j]);
                }
            }
        } else {
            assert(fs.skip(1)[r] == fs[r + 1]);
            assert forall|j: int| 0 <= j < r + 1 implies fs[j].0 != key by {
                if j > 0 {
                    assert(fs.skip(1)[j - 1] == fs[j]);
                }
            }
        }
    }
}

/// The first match determines `index_of_key`.
pub proof fn lemma_index_of_key_at(fs: Seq<(Seq<char>, Seq<Seq<char>>)>, key: Seq<char>, k: int)
    requires
        0 <= k < fs.len(),
        fs[k].0 == key,
        forall|j: int| 0 <= j < k ==> fs[j].0 != key,
    ensures
        index_of_key(fs, key) == k,
{
    lemma_index_of_key(fs, key);
    let i = index_of_key(fs, key);
    assert(i >= 0);
    if i < k {
        assert(fs[i].0 != key);
        assert(false);
    }
    if i > k {
        assert(fs[k].0 != key);
        assert(false);
    }
}

/// How one parsed filter extends the table.
pub open spec fn add_filter(
    fs: Seq<(Seq<char>, Seq<Seq<char>>)>,
    key: Seq<char>,
    value: Seq<char>,
) -> Seq<(Seq<char>, Seq<Seq<char>>)> {
    let k = index_of_key(fs, key);
    if k >= 0 {
        fs.update(k, (fs[k].0, fs[k].1.push(value)))
    } else {
        fs.push((key, seq![value]))
    }
}

/// The key/value table built from a list of filter strings, or `None` if
/// one of them holds no `=`.
pub open spec fn build_filters_spec(inputs: Seq<Seq<char>>) -> Option<
    Seq<(Seq<char>, Seq<Seq<char>>)>,
>
    decreases inputs.len(),
{
    if inputs.len() == 0 {
        Option::Some(Seq::empty())
    } else {
        match build_filters_spec(inputs.drop_last()) {
            Option::None => Option::None,
            Option::Some(fs) => {
                let s = inputs.last();
                let i = find_first(s, '=');
                if i < 0 {
                    Option::None
                } else {
                    Option::Some(add_filter(fs, s.take(i), s.skip(i + 1)))
                }
            },
        }
    }
}

/// If a prefix of the inputs already fails, the whole list does.
proof fn lemma_build_filters_none_extends(inputs: Seq<Seq<char>>, m: int)
    requires
        0 <= m <= inputs.len(),
        build_filters_spec(inputs.take(m)) is None,
    ensures
        build_filters_spec(inputs) is None,
    decreases inputs.len() - m,
{
    if m < inputs.len() {
        assert(inputs.take(m + 1).drop_last() =~= inputs.take(m));
        assert(build_filters_spec(inputs.take(m + 1)) is None);
        lemma_build_filters_none_extends(inputs, m + 1);
    } else {
        assert(inputs.take(m) =~= inputs);
    }
}

/// Builds the key/value filter table from the given filter strings.
///
/// Succeeds exactly when every string holds an `=`; otherwise fails with
/// [`Error::InvalidFilter`] carrying the first offending string.
pub fn build_filters(inputs: &Vec<String>) -> (r: Result<Vec<FilterEntry>, Error>)
    ensures
        match r {
            Ok(fs) => build_filters_spec(str_views(inputs@)) == Option::Some(filter_views(fs@)),
            Err(e) => {
                &&& build_filters_spec(str_views(inputs@)) is None
                &&& exists|k: int|
                    0 <= k < inputs@.len() && find_first(#[trigger] inputs@[k]@, '=') < 0 && (
                    forall|j: int| 0 <= j < k ==> find_first(inputs@[j]@, '=') >= 0) && (
                    e matches Error::InvalidFilter(t) && t@ == inputs@[k]@)
            },
        },
{
    let ghost views = str_views(inputs@);
    let mut table: Vec<FilterEntry> = Vec::new();
    let n = inputs.len();
    let mut k: usize = 0;
    proof {
        assert(views.take(0) =~= Seq::<Seq<char>>::empty());
        assert(filter_views(table@) =~= Seq::<(Seq<char>, Seq<Seq<char>>)>::empty());
    }
    while k < n
        invariant
            k <= n,
            n == inputs@.len(),
            views == str_views(inputs@),
            views.len() == n,
            forall|j: int| 0 <= j < n ==> views[j] == inputs@[j]@,
            build_filters_spec(views.take(k as int)) == Option::Some(filter_views(table@)),
            forall|j: int| 0 <= j < k ==> find_first(inputs@[j]@, '=') >= 0,
        decreases n - k,
    {
        proof {
            assert(views.take(k + 1).drop_last() =~= views.take(k as int));
            assert(views.take(k + 1).last() == inputs@[k as int]@);
        }
        match parse_filter(inputs[k].as_str()) {
            Ok((key, value)) => {
                let ghost keyv = key@;
                let ghost valuev = value@;
                let ghost table0 = filter_views(table@);
                match find_key(&table, &key) {
                    Option::Some(t) => {
                        proof {
                            lemma_index_of_key(filter_views(table@), keyv);
                        }
                        let entry = &mut table[t];
                        entry.values.push(value);
                        proof {
                            assert(filter_views(table@) =~~= add_filter(table0, keyv, valuev));
                        }
                    },
                    Option::None => {
                        let mut values: Vec<String> = Vec::new();
                        values.push(value);
                        table.push(FilterEntry { key, values });
                        proof {
                            assert(filter_views(table@) =~~= add_filter(table0, keyv, valuev));
                        }
                    },
                }
            },
            Err(e) => {
                proof {
                    lemma_build_filters_none_extends(views, k + 1);
                }
                return Err(e);
            },
        }
        k = k + 1;
    }
    proof {
        assert(views.take(n as int) =~= views);
    }
    Ok(table)
}

/// The position of the entry for `key`, if one exists.
fn find_key(table: &Vec<FilterEntry>, key: &String) -> (r: Option<usize>)
    ensures
        match r {
            Option::Some(k) => k < table@.len() && index_of_key(filter_views(table@), key@)
                == k as int,
            Option::None => index_of_key(filter_views(table@), key@) < 0,
        },
{
    let n = table.len();
    let mut k: usize = 0;
    while k < n
        invariant
            k <= n,
            n == table@.len(),
            forall|j: int| 0 <= j < k ==> filter_views(table@)[j].0 != key@,
        decreases n - k,
    {
        if table[k].key == *key {
            proof {
                lemma_index_of_key_at(filter_views(table@), key@, k as int);
            }
            return Option::Some(k);
        }
        k = k + 1;
    }
    proof {
        lemma_index_of_key(filter_views(table@), key@);
    }
    Option::None
}

} // verus!
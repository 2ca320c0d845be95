//! The `key: value` and `key:` / `- item` lines of a document's front matter.

use vstd::prelude::*;

use crate::domain::parser::{trim_white_space, trim_white_space_chars};
use crate::extract::{find_chars, find_from, lemma_find_from};
use crate::index::{assoc, lemma_assoc_at, lemma_assoc_insert, lemma_assoc_update, lemma_sorted_distinct, lemma_sorted_insert, locate, sorted_keys};
use crate::model::{pairs_view, texts_view, FrontMatter, FrontMatterValue, FrontMatterValueView};
use crate::text::{chars_to_string, str_chars, sub_chars};

verus! {

/// What the front matter lines read so far have set: the values, the key of a
/// list being read, and the items read since the last list was stored.
pub struct FmState {
    pub map: Map<Seq<char>, FrontMatterValueView>,
    pub list_key: Option<Seq<char>>,
    pub items: Seq<Seq<char>>,
}

/// A trimmed line that is a list item: `- ` and the item.
pub open spec fn is_item(tr: Seq<char>) -> bool {
    tr.len() >= 2 && tr[0] == '-' && tr[1] == ' '
}

/// The state with a pending list stored under its key.
pub open spec fn close_list(st: FmState) -> FmState {
    match st.list_key {
        Some(k) => FmState { map: st.map.insert(k, FrontMatterValueView::List(st.items)), list_key: None, items: seq![] },
        None => st,
    }
}

/// The key of a trimmed line: the text before its first `:`, trimmed.
pub open spec fn fm_key(tr: Seq<char>) -> Seq<char> {
    let c = find_from(tr, seq![':'], 0);
    trim_white_space(if c < 0 { tr } else { tr.take(c) })
}

/// The value of a trimmed line: the text after its first `:`, trimmed.
pub open spec fn fm_value(tr: Seq<char>) -> Seq<char> {
    let c = find_from(tr, seq![':'], 0);
    if c < 0 {
        seq![]
    } else {
        trim_white_space(tr.skip(c + 1))
    }
}

/// The state after front matter line `line`: an item joins the pending items;
/// otherwise a pending list is stored, and a `key: value` line sets a value while
/// a `key:` line starts a list.
pub open spec fn fm_step(st: FmState, line: Seq<char>) -> FmState {
    let tr = trim_white_space(line);
    if is_item(tr) {
        FmState { items: st.items.push(trim_white_space(tr.skip(2))), ..st }
    } else {
        let s1 = close_list(st);
        let key = fm_key(tr);
        let value = fm_value(tr);
        if key.len() == 0 {
            s1
        } else if value.len() == 0 {
            FmState { list_key: Some(key), ..s1 }
        } else {
            FmState { map: s1.map.insert(key, FrontMatterValueView::Scalar(value)), ..s1 }
        }
    }
}

/// The state after all of `lines`.
pub open spec fn fm_fold(lines: Seq<Seq<char>>) -> FmState
    decreases lines.len(),
{
    if lines.len() == 0 {
        FmState { map: Map::empty(), list_key: None, items: seq![] }
    } else {
        fm_step(fm_fold(lines.drop_last()), lines.last())
    }
}

/// The values that front matter lines set, a pending list stored at the end.
pub open spec fn front_matter_map(lines: Seq<Seq<char>>) -> Map<Seq<char>, FrontMatterValueView> {
    close_list(fm_fold(lines)).map
}

/// The keys of front matter pairs.
pub open spec fn fm_keys(values: Seq<(String, FrontMatterValue)>) -> Seq<Seq<char>> {
    pairs_view(values).map_values(|p: (Seq<char>, FrontMatterValueView)| p.0)
}

/// The values of front matter pairs.
pub open spec fn fm_vals(values: Seq<(String, FrontMatterValue)>) -> Seq<FrontMatterValueView> {
    pairs_view(values).map_values(|p: (Seq<char>, FrontMatterValueView)| p.1)
}

/// Front matter pairs as a map from their keys.
pub open spec fn fm_map(values: Seq<(String, FrontMatterValue)>) -> Map<Seq<char>, FrontMatterValueView> {
    assoc(fm_keys(values), fm_vals(values))
}

/// Sets `key` to `v` among pairs kept in key order.
pub(crate) fn fm_insert(values: &mut Vec<(String, FrontMatterValue)>, key: &Vec<char>, v: FrontMatterValue)
    requires
        sorted_keys(fm_keys(old(values)@)),
    ensures
        sorted_keys(fm_keys(final(values)@)),
        fm_map(final(values)@) == fm_map(old(values)@).insert(key@, v@),
{
    let mut keys: Vec<Vec<char>> = Vec::new();
    let mut i: usize = 0;
    while i < values.len()
        invariant
            i <= values@.len(),
            keys@.map_values(|k: Vec<char>| k@) == fm_keys(values@).take(i as int),
        decreases values@.len() - i,
    {
        let ghost k0 = keys@;
        keys.push(str_chars(values[i].0.as_str()));
        proof {
            assert(keys@.map_values(|k: Vec<char>| k@) =~= k0.map_values(|k: Vec<char>| k@).push(values@[i as int].0@));
            assert(fm_keys(values@).take(i + 1) =~= fm_keys(values@).take(i as int).push(values@[i as int].0@));
        }
        i = i + 1;
    }
    proof {
        assert(fm_keys(values@).take(values@.len() as int) =~= fm_keys(values@));
    }
    let (found, p) = locate(&keys, key);
    let ghost kv = keys@.map_values(|x: Vec<char>| x@);
    let ghost before = values@;
    let ghost vv = v@;
    proof {
        lemma_sorted_distinct(fm_keys(values@));
        assert(forall|j: int| 0 <= j < keys@.len() ==> kv[j] == #[trigger] keys@[j]@);
    }
    let ks = chars_to_string(key);
    if found {
        values.set(p, (ks, v));
        proof {
            assert(fm_keys(values@) =~= fm_keys(before));
            assert(fm_vals(values@) =~= fm_vals(before).update(p as int, vv));
            lemma_assoc_update(fm_keys(before), fm_vals(before), p as int, vv);
        }
    } else {
        proof {
            lemma_sorted_insert(kv, p as int, key@);
        }
        values.insert(p, (ks, v));
        proof {
            assert(fm_keys(values@) =~= fm_keys(before).insert(p as int, key@));
            assert(fm_vals(values@) =~= fm_vals(before).insert(p as int, vv));
            lemma_assoc_insert(fm_keys(before), fm_vals(before), p as int, key@, vv);
        }
    }
}

/// The strings of character vectors.
fn strings_of(v: &Vec<Vec<char>>) -> (r: Vec<String>)
    ensures
        texts_view(r@) == v@.map_values(|p: Vec<char>| p@),
{
    let mut r: Vec<String> = Vec::new();
    let mut i: usize = 0;
    while i < v.len()
        invariant
            i <= v@.len(),
            texts_view(r@) == v@.map_values(|p: Vec<char>| p@).take(i as int),
        decreases v@.len() - i,
    {
        let ghost r0 = r@;
        let s = chars_to_string(&v[i]);
        r.push(s);
        proof {
            assert(texts_view(r@) =~= texts_view(r0).push(v@[i as int]@));
            assert(v@.map_values(|p: Vec<char>| p@).take(i + 1) =~= v@.map_values(|p: Vec<char>| p@).take(i as int).push(
                v@[i as int]@,
            ));
        }
        i = i + 1;
    }
    proof {
        assert(v@.map_values(|p: Vec<char>| p@).take(v@.len() as int) =~= v@.map_values(|p: Vec<char>| p@));
    }
    r
}

/// The front matter that `lines` set, its keys in order, each once.
pub fn parse_front_matter_lines(lines: &Vec<Vec<char>>) -> (r: FrontMatter)
    ensures
        sorted_keys(fm_keys(r.values@)),
        fm_map(r.values@) == front_matter_map(lines@.map_values(|l: Vec<char>| l@)),
{
    let ghost lv = lines@.map_values(|l: Vec<char>| l@);
    let mut values: Vec<(String, FrontMatterValue)> = Vec::new();
    let mut list_key: Option<Vec<char>> = None;
    let mut items: Vec<Vec<char>> = Vec::new();
    let colon: Vec<char> = vec![':'];
    proof {
        assert(colon@ =~= seq![':']);
        assert(fm_map(values@) =~= Map::<Seq<char>, FrontMatterValueView>::empty());
        assert(items@.map_values(|p: Vec<char>| p@) =~= Seq::<Seq<char>>::empty());
        assert(lv.take(0) =~= Seq::<Seq<char>>::empty());
    }
    let mut i: usize = 0;
    while i < lines.len()
        invariant
            i <= lines@.len(),
            lv == lines@.map_values(|l: Vec<char>| l@),
            colon@ == seq![':'],
            sorted_keys(fm_keys(values@)),
            fm_map(values@) == fm_fold(lv.take(i as int)).map,
            match list_key {
                Some(k) => fm_fold(lv.take(i as int)).list_key == Some(k@),
                None => fm_fold(lv.take(i as int)).list_key is None,
            },
            items@.map_values(|p: Vec<char>| p@) == fm_fold(lv.take(i as int)).items,
        decreases lines@.len() - i,
    {
        proof {
            assert(lv.take(i + 1).drop_last() =~= lv.take(i as int));
            assert(lv.take(i + 1).last() == lines@[i as int]@);
        }
        let tr = trim_white_space_chars(&lines[i]);
        if tr.len() >= 2 && tr[0] == '-' && tr[1] == ' ' {
            let rest = sub_chars(&tr, 2, tr.len());
            let item = trim_white_space_chars(&rest);
            let ghost i0 = items@;
            proof {
                assert(rest@ =~= tr@.skip(2));
            }
            items.push(item);
            proof {
                assert(items@.map_values(|p: Vec<char>| p@) =~= i0.map_values(|p: Vec<char>| p@).push(item@));
            }
        } else {
            match list_key {
                Some(k) => {
                    let list = strings_of(&items);
                    fm_insert(&mut values, &k, FrontMatterValue::List(list));
                    items = Vec::new();
                    list_key = None;
                    proof {
                        assert(items@.map_values(|p: Vec<char>| p@) =~= Seq::<Seq<char>>::empty());
                    }
                },
                None => {},
            }
            let c = find_chars(&tr, &colon, 0);
            let key_part = match c {
                Some(c) => {
                    proof {
                        lemma_find_from(tr@, seq![':'], 0);
                    }
                    sub_chars(&tr, 0, c)
                },
                None => sub_chars(&tr, 0, tr.len()),
            };
            let value_part = match c {
                Some(c) => sub_chars(&tr, c + 1, tr.len()),
                None => Vec::new(),
            };
            let key = trim_white_space_chars(&key_part);
            let value = trim_white_space_chars(&value_part);
            proof {
                match c {
                    Some(c) => {
                        assert(key_part@ =~= tr@.take(c as int));
                        assert(value_part@ =~= tr@.skip(c + 1));
                    },
                    None => {
                        assert(key_part@ =~= tr@);
                        assert(value_part@ =~= Seq::<char>::empty());
                        assert(trim_white_space(Seq::<char>::empty()) =~= Seq::<char>::empty());
                    },
                }
                assert(key@ == fm_key(tr@));
                assert(value@ == fm_value(tr@));
            }
            if key.len() > 0 {
                if value.len() == 0 {
                    list_key = Some(key);
                } else {
                    let vs = chars_to_string(&value);
                    fm_insert(&mut values, &key, FrontMatterValue::Scalar(vs));
                }
            }
        }
        i = i + 1;
    }
    proof {
        assert(lv.take(lines@.len() as int) =~= lv);
    }
    match list_key {
        Some(k) => {
            let list = strings_of(&items);
            fm_insert(&mut values, &k, FrontMatterValue::List(list));
        },
        None => {},
    }
    FrontMatter { values }
}

} // verus!

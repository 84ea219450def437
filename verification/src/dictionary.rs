//! Dictionary encoding of a string column: each distinct text once, in the order it first
//! appears, and each row's index into that dictionary.
use vstd::hash_map::StringHashMap;
use vstd::prelude::*;

verus! {

/// The distinct texts of `values`, each once, in the order of their first occurrence.
pub open spec fn first_occurrences(values: Seq<Seq<char>>) -> Seq<Seq<char>>
    decreases values.len(),
{
    if values.len() == 0 {
        Seq::empty()
    } else {
        let d = first_occurrences(values.drop_last());
        if d.contains(values.last()) {
            d
        } else {
            d.push(values.last())
        }
    }
}

pub open spec fn str_texts(values: Seq<&str>) -> Seq<Seq<char>> {
    values.map_values(|s: &str| s@)
}

pub open spec fn string_texts(values: Seq<String>) -> Seq<Seq<char>> {
    values.map_values(|s: String| s@)
}

/// The dictionary of first occurrences of `values`, and each value's index in it.
pub fn dictionary_ids(values: &Vec<&str>) -> (r: (Vec<i64>, Vec<String>))
    requires
        values@.len() <= i64::MAX,
    ensures
        string_texts(r.1@) == first_occurrences(str_texts(values@)),
        string_texts(r.1@).no_duplicates(),
        r.0@.len() == values@.len(),
        forall|j: int| 0 <= j < values@.len() ==> 0 <= #[trigger] r.0@[j] < r.1@.len() && r.1@[r.0@[j] as int]@ == values@[j]@,
{
    let ghost texts = str_texts(values@);
    let mut ids: Vec<i64> = Vec::new();
    let mut dictionary: Vec<String> = Vec::new();
    let mut index: StringHashMap<usize> = StringHashMap::new();
    let mut j: usize = 0;
    while j < values.len()
        invariant
            j <= values@.len() <= i64::MAX,
            texts == str_texts(values@),
            string_texts(dictionary@) == first_occurrences(texts.take(j as int)),
            string_texts(dictionary@).no_duplicates(),
            dictionary@.len() <= j,
            forall|s: Seq<char>| #[trigger] index@.contains_key(s) <==> string_texts(dictionary@).contains(s),
            forall|k: int| 0 <= k < dictionary@.len() ==> #[trigger] index@[dictionary@[k]@] == k,
            ids@.len() == j,
            forall|i: int| 0 <= i < j ==> 0 <= #[trigger] ids@[i] < dictionary@.len() && dictionary@[ids@[i] as int]@ == texts[i],
        decreases values@.len() - j,
    {
        let v: &str = values[j];
        let ghost d = string_texts(dictionary@);
        assert(texts.take(j + 1).drop_last() =~= texts.take(j as int));
        assert(texts.take(j + 1).last() == v@);
        assert(texts[j as int] == v@);
        match index.get(v) {
            Some(id) => {
                proof {
                    let k = choose|k: int| 0 <= k < d.len() && d[k] == v@;
                    assert(d[k] == dictionary@[k]@);
                    assert(index@[dictionary@[k]@] == k);
                }
                let id: usize = *id;
                ids.push(id as i64);
            },
            None => {
                assert(!d.contains(v@));
                let id: usize = dictionary.len();
                let ghost old_index = index@;
                dictionary.push(v.to_owned());
                index.insert(v.to_owned(), id);
                assert(string_texts(dictionary@) =~= d.push(v@));
                assert forall|k: int| 0 <= k < dictionary@.len() implies #[trigger] index@[dictionary@[k]@] == k by {
                    if k < id {
                        assert(d[k] != v@);
                    }
                }
                assert forall|s: Seq<char>| #[trigger] index@.contains_key(s) <==> string_texts(dictionary@).contains(s) by {
                    let nd = string_texts(dictionary@);
                    if nd.contains(s) {
                        let k = choose|k: int| 0 <= k < nd.len() && nd[k] == s;
                        if k < d.len() {
                            assert(d[k] == s);
                            assert(d.contains(s));
                            assert(old_index.contains_key(s));
                        }
                    }
                    if old_index.contains_key(s) {
                        assert(d.contains(s));
                        let k = choose|k: int| 0 <= k < d.len() && d[k] == s;
                        assert(nd[k] == s);
                    }
                    if s == v@ {
                        assert(nd[id as int] == s);
                    }
                }
                ids.push(id as i64);
            },
        }
        j = j + 1;
    }
    assert(texts.take(values@.len() as int) =~= texts);
    (ids, dictionary)
}

} // verus!

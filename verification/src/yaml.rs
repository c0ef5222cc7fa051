//! YAML entries as the front-matter logic sees them: a key's text where the
//! key is a string, and a value's content where it has one of the shapes
//! that the diary writes; any other key or value is the YAML value itself.
use vstd::prelude::*;

verus! {

/// A YAML value: a string, an integer, a sequence of strings, or any other
/// value, which the diary never writes and only keeps, as it is.
pub enum YamlItem {
    Text(Seq<char>),
    Count(int),
    TextList(Seq<Seq<char>>),
    Other(serde_yaml::Value),
}

/// A YAML mapping key: its text where it is a string, else the key itself.
pub enum YamlKey {
    Text(Seq<char>),
    Other(serde_yaml::Value),
}

/// A mapping entry: its key and its value.
pub type YamlEntry = (YamlKey, YamlItem);

/// A value that the diary writes into its front matter.
pub enum FieldValue {
    Text(String),
    Count(i64),
    TextList(Vec<String>),
}

impl FieldValue {
    pub open spec fn item(&self) -> YamlItem {
        match self {
            FieldValue::Text(t) => YamlItem::Text(t@),
            FieldValue::Count(n) => YamlItem::Count(*n as int),
            FieldValue::TextList(ts) => YamlItem::TextList(ts@.map_values(|t: String| t@)),
        }
    }
}

/// The position of the first entry of `es` whose key is the string `k`, or
/// `es.len()`.
pub open spec fn key_index(es: Seq<YamlEntry>, k: Seq<char>) -> int
    decreases es.len(),
{
    if es.len() == 0 {
        0
    } else if es[0].0 == YamlKey::Text(k) {
        0
    } else {
        1 + key_index(es.drop_first(), k)
    }
}

/// `es` with key `k` set to `v`: in its place where `es` has that key, else
/// added at the end.
pub open spec fn set_entry(es: Seq<YamlEntry>, k: Seq<char>, v: YamlItem) -> Seq<YamlEntry> {
    let i = key_index(es, k);
    if i < es.len() {
        es.update(i, (YamlKey::Text(k), v))
    } else {
        es.push((YamlKey::Text(k), v))
    }
}

/// The value of key `k` in `es`, where `es` has that key.
pub open spec fn get_entry(es: Seq<YamlEntry>, k: Seq<char>) -> Option<YamlItem> {
    let i = key_index(es, k);
    if 0 <= i < es.len() {
        Some(es[i].1)
    } else {
        None
    }
}

proof fn lemma_key_index_is(es: Seq<YamlEntry>, k: Seq<char>, i: int)
    requires
        0 <= i <= es.len(),
        i < es.len() ==> es[i].0 == YamlKey::Text(k),
        forall|j: int| 0 <= j < i ==> es[j].0 != YamlKey::Text(k),
    ensures
        key_index(es, k) == i,
    decreases i,
{
    if i > 0 {
        assert(es[0].0 != YamlKey::Text(k));
        let d = es.drop_first();
        assert forall|j: int| 0 <= j < i - 1 implies d[j].0 != YamlKey::Text(k) by {
            assert(d[j] == es[j + 1]);
        }
        if i < es.len() {
            assert(d[i - 1] == es[i]);
        }
        lemma_key_index_is(d, k, i - 1);
    } else if es.len() > 0 {
        assert(es[0].0 == YamlKey::Text(k));
    }
}

proof fn lemma_key_index_facts(es: Seq<YamlEntry>, k: Seq<char>)
    ensures
        0 <= key_index(es, k) <= es.len(),
        key_index(es, k) < es.len() ==> es[key_index(es, k)].0 == YamlKey::Text(k),
        forall|j: int| 0 <= j < key_index(es, k) ==> es[j].0 != YamlKey::Text(k),
    decreases es.len(),
{
    if es.len() > 0 && es[0].0 != YamlKey::Text(k) {
        let d = es.drop_first();
        lemma_key_index_facts(d, k);
        assert forall|j: int| 0 <= j < key_index(es, k) implies es[j].0 != YamlKey::Text(k) by {
            if j > 0 {
                assert(es[j] == d[j - 1]);
            }
        }
    }
}

/// After key `k` is set to `v`, `k` has the value `v`, and every other key
/// has the value it had.
pub proof fn law_set_entry(es: Seq<YamlEntry>, k: Seq<char>, v: YamlItem, k2: Seq<char>)
    ensures
        get_entry(set_entry(es, k, v), k) == Some(v),
        k2 != k ==> get_entry(set_entry(es, k, v), k2) == get_entry(es, k2),
{
    let r = set_entry(es, k, v);
    let i = key_index(es, k);
    lemma_key_index_facts(es, k);
    lemma_key_index_facts(es, k2);
    let i2 = key_index(es, k2);
    if i < es.len() {
        lemma_key_index_is(r, k, i);
        if k2 != k {
            assert forall|j: int| 0 <= j < i2 implies r[j].0 != YamlKey::Text(k2) by {
                if j == i {
                } else {
                    assert(r[j] == es[j]);
                }
            }
            if i2 < es.len() {
                assert(i2 != i);
                assert(r[i2] == es[i2]);
            }
            lemma_key_index_is(r, k2, i2);
        }
    } else {
        assert forall|j: int| 0 <= j < es.len() implies r[j].0 != YamlKey::Text(k) by {
            assert(r[j] == es[j]);
        }
        lemma_key_index_is(r, k, es.len() as int);
        if k2 != k {
            if i2 < es.len() {
                assert(r[i2] == es[i2]);
                assert forall|j: int| 0 <= j < i2 implies r[j].0 != YamlKey::Text(k2) by {
                    assert(r[j] == es[j]);
                }
                lemma_key_index_is(r, k2, i2);
            } else {
                assert forall|j: int| 0 <= j < r.len() implies r[j].0 != YamlKey::Text(k2) by {
                    if j < es.len() {
                        assert(r[j] == es[j]);
                    }
                }
                lemma_key_index_is(r, k2, r.len() as int);
            }
        }
    }
}

} // verus!

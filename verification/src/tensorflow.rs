//! The payload schema containers: named lists of byte strings and
//! 64-bit integers, grouped into features and examples.  The record
//! core treats payloads as opaque bytes; these containers are what a
//! host decodes them into, and the getters below are the lookups the
//! pipeline uses on them.

use crate::frame::seq_views;
use vstd::prelude::*;
use vstd::slice::slice_to_vec;

verus! {

/// A repeated field of byte strings.
pub struct BytesList {
    /// The byte strings, in order.
    pub value: Vec<Vec<u8>>,
}

/// A repeated field of 64-bit integers.
pub struct Int64List {
    /// The integers, in order.
    pub value: Vec<i64>,
}

/// Which one kind of list a feature holds.
pub enum Kind {
    /// A list of byte strings.
    BytesList(BytesList),
    /// A list of 64-bit integers.
    Int64List(Int64List),
}

/// One named feature: at most one kind of list.
pub struct Feature {
    /// The list the feature holds, if any.
    pub kind: Option<Kind>,
}

/// A map from feature name to feature, kept as entries in insertion
/// order with no duplicate names.
pub struct Features {
    /// The `(name, feature)` entries.
    pub feature: Vec<(String, Feature)>,
}

/// A list of features under one name, for sequential data.
pub struct FeatureList {
    /// The features, in order.
    pub feature: Vec<Feature>,
}

/// A map from name to feature list, kept as entries in insertion order.
pub struct FeatureLists {
    /// The `(name, feature list)` entries.
    pub feature_list: Vec<(String, FeatureList)>,
}

/// One example: an optional set of named features.
pub struct Example {
    /// The example's features.
    pub features: Option<Features>,
}

/// An example with sequential data: context features plus named
/// feature lists.
pub struct SequenceExample {
    /// The context features.
    pub context: Option<Features>,
    /// The named feature lists.
    pub feature_lists: Option<FeatureLists>,
}

/// The first feature stored under `key`, if any.
pub open spec fn lookup(entries: Seq<(String, Feature)>, key: Seq<char>) -> Option<Feature>
    decreases entries.len(),
{
    if entries.len() == 0 {
        Option::None
    } else if entries[0].0@ == key {
        Option::Some(entries[0].1)
    } else {
        lookup(entries.drop_first(), key)
    }
}

/// The position of the first entry named `key`, or the number of
/// entries if none is.
pub open spec fn find_key(entries: Seq<(String, Feature)>, key: Seq<char>) -> int
    decreases entries.len(),
{
    if entries.len() == 0 {
        0
    } else if entries[0].0@ == key {
        0
    } else {
        1 + find_key(entries.drop_first(), key)
    }
}

/// `find_key` points at the first entry named `key`, or past the end,
/// and `lookup` reports exactly that entry.
pub proof fn lemma_find_key(entries: Seq<(String, Feature)>, key: Seq<char>)
    ensures
        0 <= find_key(entries, key) <= entries.len(),
        find_key(entries, key) < entries.len() ==> entries[find_key(entries, key)].0@ == key
            && lookup(entries, key) == Option::Some(entries[find_key(entries, key)].1),
        find_key(entries, key) == entries.len() ==> lookup(entries, key) is None,
        forall|j: int| 0 <= j < find_key(entries, key) ==> (#[trigger] entries[j]).0@ != key,
    decreases entries.len(),
{
    if entries.len() > 0 && entries[0].0@ != key {
        lemma_find_key(entries.drop_first(), key);
        let rest = entries.drop_first();
        assert forall|j: int| 0 <= j < find_key(entries, key) implies (#[trigger] entries[j]).0@
            != key by {
            if j > 0 {
                assert(entries[j] == rest[j - 1]);
            }
        }
        if find_key(entries, key) < entries.len() {
            assert(entries[find_key(entries, key)] == rest[find_key(rest, key)]);
        }
    }
}

impl Example {
    /// The feature stored under `key`, if any.
    fn find_feature<'a>(features: &'a Features, key: &str) -> (r: Option<&'a Feature>)
        ensures
            match lookup(features.feature@, key@) {
                Option::Some(feat) => r matches Some(f) && *f == feat,
                Option::None => r is None,
            },
    {
        let k = key.to_owned();
        let n = features.feature.len();
        let ghost entries = features.feature@;
        let mut i: usize = 0;
        proof {
            lemma_find_key(entries, key@);
        }
        #[verifier::loop_isolation(false)]
        while i < n
            invariant
                0 <= i <= n,
                i <= find_key(entries, key@),
            decreases n - i,
        {
            if features.feature[i].0.eq(&k) {
                proof {
                    assert(entries[i as int].0@ == key@);
                    assert(find_key(entries, key@) == i as int);
                }
                return Some(&features.feature[i].1);
            }
            proof {
                assert(find_key(entries, key@) != i as int);
            }
            i = i + 1;
        }
        None
    }

    /// Copies of the byte strings stored under `key`, where `key` names
    /// a bytes-list feature.
    pub fn get_bytes_list(&self, key: &str) -> (r: Option<Vec<Vec<u8>>>)
        ensures
            match self.features {
                Option::Some(fs) => match lookup(fs.feature@, key@) {
                    Option::Some(feat) => match feat.kind {
                        Option::Some(Kind::BytesList(bl)) => r matches Some(v) && seq_views(v@)
                            == seq_views(bl.value@),
                        _ => r is None,
                    },
                    Option::None => r is None,
                },
                Option::None => r is None,
            },
    {
        let fs = match &self.features {
            Some(fs) => fs,
            None => {
                return None;
            },
        };
        let feat = match Self::find_feature(fs, key) {
            Some(f) => f,
            None => {
                return None;
            },
        };
        match &feat.kind {
            Some(Kind::BytesList(list)) => {
                let n = list.value.len();
                let mut out: Vec<Vec<u8>> = Vec::new();
                let mut i: usize = 0;
                proof {
                    assert(seq_views(out@) =~= seq_views(list.value@).take(0));
                }
                #[verifier::loop_isolation(false)]
                while i < n
                    invariant
                        0 <= i <= n,
                        out@.len() == i,
                        seq_views(out@) == seq_views(list.value@).take(i as int),
                    decreases n - i,
                {
                    let ghost prev = out@;
                    out.push(slice_to_vec(list.value[i].as_slice()));
                    proof {
                        assert(seq_views(out@) =~= seq_views(prev).push(list.value@[i as int]@));
                        assert(seq_views(list.value@).take(i as int + 1) =~= seq_views(
                            list.value@,
                        ).take(i as int).push(list.value@[i as int]@));
                    }
                    i = i + 1;
                }
                proof {
                    assert(seq_views(list.value@).take(n as int) =~= seq_views(list.value@));
                }
                Some(out)
            },
            _ => None,
        }
    }

    /// A copy of the integers stored under `key`, where `key` names an
    /// integer-list feature.
    pub fn get_int64_list(&self, key: &str) -> (r: Option<Vec<i64>>)
        ensures
            match self.features {
                Option::Some(fs) => match lookup(fs.feature@, key@) {
                    Option::Some(feat) => match feat.kind {
                        Option::Some(Kind::Int64List(il)) => r matches Some(v) && v@ == il.value@,
                        _ => r is None,
                    },
                    Option::None => r is None,
                },
                Option::None => r is None,
            },
    {
        let fs = match &self.features {
            Some(fs) => fs,
            None => {
                return None;
            },
        };
        let feat = match Self::find_feature(fs, key) {
            Some(f) => f,
            None => {
                return None;
            },
        };
        match &feat.kind {
            Some(Kind::Int64List(list)) => Some(slice_to_vec(list.value.as_slice())),
            _ => None,
        }
    }

    /// Remove the feature stored under `key` and hand out its byte
    /// strings, where `key` names a bytes-list feature.  The entry is
    /// removed whatever kind it holds, as a take does.
    pub fn take_bytes_list(&mut self, key: &str) -> (r: Option<Vec<Vec<u8>>>)
        ensures
            match old(self).features {
                Option::Some(fs) => {
                    let i = find_key(fs.feature@, key@);
                    &&& final(self).features matches Option::Some(fs2) && fs2.feature@ == (
                    if i < fs.feature@.len() {
                        fs.feature@.remove(i)
                    } else {
                        fs.feature@
                    })
                    &&& if i < fs.feature@.len() {
                        match fs.feature@[i].1.kind {
                            Option::Some(Kind::BytesList(bl)) => r matches Some(v) && seq_views(
                                v@,
                            ) == seq_views(bl.value@),
                            _ => r is None,
                        }
                    } else {
                        r is None
                    }
                },
                Option::None => r is None && final(self).features is None,
            },
    {
        let fs = match &mut self.features {
            Some(fs) => fs,
            None => {
                return None;
            },
        };
        let k = key.to_owned();
        let n = fs.feature.len();
        let ghost entries = fs.feature@;
        proof {
            lemma_find_key(entries, key@);
        }
        let mut i: usize = 0;
        #[verifier::loop_isolation(false)]
        while i < n
            invariant
                0 <= i <= n,
                i <= find_key(entries, key@),
                fs.feature@ == entries,
            decreases n - i,
        {
            if fs.feature[i].0.eq(&k) {
                proof {
                    assert(entries[i as int].0@ == key@);
                    assert(find_key(entries, key@) == i as int);
                }
                let entry = fs.feature.remove(i);
                match entry.1.kind {
                    Some(Kind::BytesList(list)) => {
                        return Some(list.value);
                    },
                    _ => {
                        return None;
                    },
                }
            }
            proof {
                assert(find_key(entries, key@) != i as int);
            }
            i = i + 1;
        }
        None
    }
}

} // verus!

use vstd::prelude::*;
use crate::text::str_eq;
use crate::words::{FuncSeq, NamedWord, Prim};

verus! {

/// The index of the first pair whose key holds the characters `k`, or `-1`.
pub open spec fn assoc_idx<T>(s: Seq<(String, T)>, k: Seq<char>) -> int
    decreases s.len(),
{
    if s.len() == 0 {
        -1
    } else if s[0].0@ == k {
        0
    } else {
        let r = assoc_idx(s.drop_first(), k);
        if r < 0 {
            -1
        } else {
            r + 1
        }
    }
}

/// A key is present when `assoc_idx` found an index.
pub open spec fn assoc_has<T>(s: Seq<(String, T)>, k: Seq<char>) -> bool {
    assoc_idx(s, k) >= 0
}

/// The value stored under the first occurrence of `k`.
pub open spec fn assoc_get<T>(s: Seq<(String, T)>, k: Seq<char>) -> T
    recommends
        assoc_has(s, k),
{
    s[assoc_idx(s, k)].1
}

/// What `assoc_idx` finds: an in-range index pointing at `k`, with no earlier
/// occurrence, or `-1` when `k` is absent.
pub proof fn lemma_assoc_idx<T>(s: Seq<(String, T)>, k: Seq<char>)
    ensures
        assoc_idx(s, k) == -1 ==> forall|j: int| 0 <= j < s.len() ==> (#[trigger] s[j].0)@ != k,
        assoc_idx(s, k) >= 0 ==> assoc_idx(s, k) < s.len() && s[assoc_idx(s, k)].0@ == k
            && forall|j: int| 0 <= j < assoc_idx(s, k) ==> (#[trigger] s[j].0)@ != k,
    decreases s.len(),
{
    if s.len() > 0 && s[0].0@ != k {
        lemma_assoc_idx(s.drop_first(), k);
        assert(forall|j: int|
            1 <= j < s.len() ==> (#[trigger] s[j].0) == s.drop_first()[j - 1].0);
    }
}

/// The first occurrence of `k` is at `i` when `s[i]` holds `k` and no earlier
/// pair does.
pub proof fn lemma_assoc_idx_at<T>(s: Seq<(String, T)>, k: Seq<char>, i: int)
    requires
        0 <= i < s.len(),
        s[i].0@ == k,
        forall|j: int| 0 <= j < i ==> (#[trigger] s[j].0)@ != k,
    ensures
        assoc_idx(s, k) == i,
    decreases i,
{
    if i > 0 {
        assert(forall|j: int|
            0 <= j < i - 1 ==> (#[trigger] s.drop_first()[j].0) == s[j + 1].0);
        lemma_assoc_idx_at(s.drop_first(), k, i - 1);
    }
}

/// `k` is absent when no pair holds it.
pub proof fn lemma_assoc_idx_none<T>(s: Seq<(String, T)>, k: Seq<char>)
    requires
        forall|j: int| 0 <= j < s.len() ==> (#[trigger] s[j].0)@ != k,
    ensures
        assoc_idx(s, k) == -1,
    decreases s.len(),
{
    if s.len() > 0 {
        assert(forall|j: int|
            0 <= j < s.len() - 1 ==> (#[trigger] s.drop_first()[j].0) == s[j + 1].0);
        lemma_assoc_idx_none(s.drop_first(), k);
    }
}

/// Finds the index of the first pair keyed by `name`.
pub fn assoc_index<T>(v: &Vec<(String, T)>, name: &str) -> (r: Option<usize>)
    ensures
        match r {
            Some(i) => assoc_idx(v@, name@) == i && i < v@.len() && v@[i as int].0@ == name@,
            None => assoc_idx(v@, name@) == -1,
        },
{
    let n = v.len();
    let mut i: usize = 0;
    while i < n
        invariant
            i <= n,
            n == v@.len(),
            forall|j: int| 0 <= j < i ==> (#[trigger] v@[j].0)@ != name@,
        decreases n - i,
    {
        if str_eq(v[i].0.as_str(), name) {
            proof {
                lemma_assoc_idx_at(v@, name@, i as int);
            }
            return Some(i);
        }
        i = i + 1;
    }
    proof {
        lemma_assoc_idx_none(v@, name@);
    }
    None
}

/// The dictionary: the host-registered primitives by name, the compiled
/// definitions by name, and the counter that names anonymous definitions.
pub struct Dict {
    pub bis: Vec<(String, Prim)>,
    pub data: Vec<(String, FuncSeq)>,
    pub shame_idx: usize,
}

/// An association sequence after inserting `k -> v`: the first pair holding
/// `k` is replaced, or the pair is appended when `k` is absent.
pub open spec fn assoc_insert<T>(s: Seq<(String, T)>, k: Seq<char>, kv: (String, T)) -> Seq<
    (String, T),
> {
    if assoc_has(s, k) {
        s.update(assoc_idx(s, k), kv)
    } else {
        s.push(kv)
    }
}

impl Dict {
    pub fn new() -> (r: Self)
        ensures
            r.bis@ == Seq::<(String, Prim)>::empty(),
            r.data@ == Seq::<(String, FuncSeq)>::empty(),
            r.shame_idx == 0,
    {
        Dict { bis: Vec::new(), data: Vec::new(), shame_idx: 0 }
    }

    /// Registers a primitive under `name`, replacing an earlier registration.
    pub fn insert_bi(&mut self, name: String, p: Prim)
        ensures
            final(self).bis@ == assoc_insert(old(self).bis@, name@, (name, p)),
            final(self).data == old(self).data,
            final(self).shame_idx == old(self).shame_idx,
    {
        match assoc_index(&self.bis, name.as_str()) {
            Some(i) => {
                self.bis.remove(i);
                self.bis.insert(i, (name, p));
                proof {
                    assert(self.bis@ =~= assoc_insert(old(self).bis@, name@, self.bis@[i as int]));
                }
            },
            None => {
                self.bis.push((name, p));
            },
        }
    }

    /// Stores a definition under `name`, replacing an earlier one.
    pub fn insert_data(&mut self, name: String, fs: FuncSeq)
        ensures
            final(self).data@ == assoc_insert(old(self).data@, name@, (name, fs)),
            final(self).bis == old(self).bis,
            final(self).shame_idx == old(self).shame_idx,
    {
        match assoc_index(&self.data, name.as_str()) {
            Some(i) => {
                self.data.remove(i);
                self.data.insert(i, (name, fs));
                proof {
                    assert(self.data@ =~= assoc_insert(
                        old(self).data@,
                        self.data@[i as int].0@,
                        self.data@[i as int],
                    ));
                }
            },
            None => {
                self.data.push((name, fs));
            },
        }
    }

    /// Looks a primitive up by name.
    pub fn get_bi(&self, name: &str) -> (r: Option<Prim>)
        ensures
            assoc_has(self.bis@, name@) ==> r == Some(assoc_get(self.bis@, name@)),
            !assoc_has(self.bis@, name@) ==> r is None,
    {
        match assoc_index(&self.bis, name) {
            Some(i) => Some(self.bis[i].1),
            None => None,
        }
    }

    /// Whether a definition is stored under `name`.
    pub fn has_def(&self, name: &str) -> (r: bool)
        ensures
            r == assoc_has(self.data@, name@),
    {
        assoc_index(&self.data, name).is_some()
    }

    /// The word at position `idx` of the definition stored under `name`:
    /// what the host feeds back for a yielded call reference.
    pub fn get_def_word(&self, name: &str, idx: usize) -> (r: Option<NamedWord>)
        ensures
            match r {
                Some(w) => assoc_has(self.data@, name@) && idx < assoc_get(
                    self.data@,
                    name@,
                )@.len() && w@ == assoc_get(self.data@, name@)@[idx as int],
                None => !assoc_has(self.data@, name@) || idx >= assoc_get(
                    self.data@,
                    name@,
                )@.len(),
            },
{
        match assoc_index(&self.data, name) {
            Some(i) => {
                let fs = &self.data[i].1;
                if idx < fs.inner.len() {
                    let nw = &fs.inner[idx];
                    Some(NamedWord { name: nw.name.clone(), word: nw.word.duplicate() })
                } else {
                    None
                }
            },
            None => None,
        }
    }

    /// Removes every definition whose name begins with the anonymous-name
    /// marker `__`: the documented host policy after each run.
    pub fn prune_anonymous(&mut self)
        ensures
            final(self).data@ == spec_prune(old(self).data@),
            final(self).bis == old(self).bis,
            final(self).shame_idx == old(self).shame_idx,
    {
        let ghost orig = self.data@;
        let ghost n = self.data@.len();
        let mut i: usize = 0;
        let ghost mut k: int = 0;
        proof {
            assert(orig.subrange(0, 0) =~= Seq::<(String, FuncSeq)>::empty());
            assert(orig.subrange(0, n as int) =~= orig);
        }
        while i < self.data.len()
            invariant
                0 <= i <= k <= n,
                n == orig.len(),
                self.bis == old(self).bis,
                self.shame_idx == old(self).shame_idx,
                i == spec_prune(orig.subrange(0, k)).len(),
                self.data@ == spec_prune(orig.subrange(0, k)) + orig.subrange(k, n as int),
                self.data@.len() == i + (n - k),
            decreases n - k,
        {
            proof {
                assert(self.data@[i as int] == orig[k]);
                assert(orig.subrange(0, k + 1).drop_last() =~= orig.subrange(0, k));
                lemma_prune_push(orig.subrange(0, k), orig[k]);
                assert(orig.subrange(0, k).push(orig[k]) =~= orig.subrange(0, k + 1));
            }
            if is_anon_prefix(self.data[i].0.as_str()) {
                self.data.remove(i);
                proof {
                    assert(self.data@ =~= spec_prune(orig.subrange(0, k + 1)) + orig.subrange(
                        k + 1,
                        n as int,
                    ));
                }
            } else {
                i = i + 1;
                proof {
                    assert(self.data@ =~= spec_prune(orig.subrange(0, k + 1)) + orig.subrange(
                        k + 1,
                        n as int,
                    ));
                }
            }
            proof {
                k = k + 1;
            }
        }
        proof {
            assert(orig.subrange(k, n as int) =~= Seq::<(String, FuncSeq)>::empty());
            assert(self.data@ =~= spec_prune(orig));
        }
    }
}

/// An association sequence with the anonymous definitions removed.
pub open spec fn spec_prune(s: Seq<(String, FuncSeq)>) -> Seq<(String, FuncSeq)>
    decreases s.len(),
{
    if s.len() == 0 {
        s
    } else {
        let rest = spec_prune(s.drop_last());
        if is_anon_name(s.last().0@) {
            rest
        } else {
            rest.push(s.last())
        }
    }
}

proof fn lemma_prune_push(s: Seq<(String, FuncSeq)>, x: (String, FuncSeq))
    ensures
        spec_prune(s.push(x)) == if is_anon_name(x.0@) {
            spec_prune(s)
        } else {
            spec_prune(s).push(x)
        },
{
    assert(s.push(x).drop_last() =~= s);
    assert(s.push(x).last() == x);
}

/// A name the compiler generated for an anonymous definition: it begins with
/// two underscores.
pub open spec fn is_anon_name(s: Seq<char>) -> bool {
    s.len() >= 2 && s[0] == '_' && s[1] == '_'
}

/// Whether `s` begins with the anonymous-name marker.
pub fn is_anon_prefix(s: &str) -> (r: bool)
    ensures
        r == is_anon_name(s@),
{
    let n = s.unicode_len();
    n >= 2 && s.get_char(0) == '_' && s.get_char(1) == '_'
}

} // verus!

use vstd::prelude::*;

verus! {

/// The mathematical content of a store: the documents it holds, by path.
pub open spec fn files_map(s: Seq<(String, Vec<u8>)>) -> Map<Seq<char>, Seq<u8>>
    decreases s.len(),
{
    if s.len() == 0 {
        Map::empty()
    } else {
        files_map(s.drop_last()).insert(s.last().0@, s.last().1@)
    }
}

/// An in-memory persistence backend: a map from paths to document bytes,
/// standing for the directory or file a replay engine records into.  Tests
/// and callers that do not touch a filesystem drive the engine against it.
#[derive(Debug, Clone, PartialEq, Eq)]
pub struct Store {
    files: Vec<(String, Vec<u8>)>,
}

impl View for Store {
    type V = Map<Seq<char>, Seq<u8>>;

    closed spec fn view(&self) -> Map<Seq<char>, Seq<u8>> {
        files_map(self.files@)
    }
}

/// In a store with distinct paths, the entry at index `i` is what the map
/// holds at its path.
proof fn lemma_files_map_at(s: Seq<(String, Vec<u8>)>, i: int)
    requires
        0 <= i < s.len(),
        forall|a: int, b: int| 0 <= a < b < s.len() ==> (#[trigger] s[a].0@) != (#[trigger] s[b].0@),
    ensures
        files_map(s).dom().contains(s[i].0@),
        files_map(s)[s[i].0@] == s[i].1@,
    decreases s.len(),
{
    if i == s.len() - 1 {
    } else {
        assert(s[i].0@ != s[s.len() - 1].0@);
        lemma_files_map_at(s.drop_last(), i);
        assert(s.drop_last()[i] == s[i]);
    }
}

/// A path that no element carries is absent from the map.
proof fn lemma_files_map_absent(s: Seq<(String, Vec<u8>)>, k: Seq<char>)
    requires
        forall|i: int| 0 <= i < s.len() ==> (#[trigger] s[i].0@) != k,
    ensures
        !files_map(s).dom().contains(k),
    decreases s.len(),
{
    if s.len() > 0 {
        assert(s[s.len() - 1].0@ != k);
        assert forall|i: int| 0 <= i < s.drop_last().len() implies (#[trigger] s.drop_last()[i].0@)
            != k by {
            assert(s.drop_last()[i] == s[i]);
        }
        lemma_files_map_absent(s.drop_last(), k);
    }
}

/// Replacing the bytes at index `i` updates the map at that path alone.
proof fn lemma_files_map_update(s: Seq<(String, Vec<u8>)>, i: int, p: (String, Vec<u8>))
    requires
        0 <= i < s.len(),
        p.0@ == s[i].0@,
        forall|a: int, b: int| 0 <= a < b < s.len() ==> (#[trigger] s[a].0@) != (#[trigger] s[b].0@),
    ensures
        files_map(s.update(i, p)) =~= files_map(s).insert(p.0@, p.1@),
    decreases s.len(),
{
    let t = s.update(i, p);
    if i == s.len() - 1 {
        assert(t.drop_last() =~= s.drop_last());
        assert(t.last() == p);
    } else {
        assert(t.last() == s.last());
        assert(t.drop_last() =~= s.drop_last().update(i, p));
        lemma_files_map_update(s.drop_last(), i, p);
        assert(s[i].0@ != s[s.len() - 1].0@);
        assert(files_map(t) == files_map(s.drop_last()).insert(p.0@, p.1@).insert(
            s.last().0@,
            s.last().1@,
        ));
    }
}

/// Copy a byte vector.
pub(crate) fn copy_bytes(v: &Vec<u8>) -> (r: Vec<u8>)
    ensures
        r@ == v@,
{
    let mut r: Vec<u8> = Vec::new();
    r.extend_from_slice(v.as_slice());
    proof {
        assert(r@ =~= v@);
    }
    r
}

impl Store {
    /// The paths are distinct, so each path holds exactly one document.
    pub closed spec fn wf(&self) -> bool {
        forall|a: int, b: int|
            0 <= a < b < self.files@.len() ==> (#[trigger] self.files@[a].0@)
                != (#[trigger] self.files@[b].0@)
    }

    /// An empty store.
    pub fn new() -> (r: Store)
        ensures
            r@ == Map::<Seq<char>, Seq<u8>>::empty(),
            r.wf(),
    {
        let r = Store { files: Vec::new() };
        proof {
            assert(r@ =~= Map::<Seq<char>, Seq<u8>>::empty());
        }
        r
    }

    /// The bytes stored at `path`, or `None` when nothing is stored there.
    pub fn read(&self, path: &String) -> (r: Option<Vec<u8>>)
        requires
            self.wf(),
        ensures
            match r {
                Some(bytes) => self@.dom().contains(path@) && self@[path@] == bytes@,
                None => !self@.dom().contains(path@),
            },
    {
        let n = self.files.len();
        let mut i: usize = 0;
        while i < n
            invariant
                i <= n,
                n == self.files@.len(),
                self.wf(),
                forall|k: int| 0 <= k < i ==> (#[trigger] self.files@[k].0@) != path@,
            decreases n - i,
        {
            if self.files[i].0 == *path {
                proof {
                    assert(self.files@[i as int].0@ == path@);
                    lemma_files_map_at(self.files@, i as int);
                }
                return Some(copy_bytes(&self.files[i].1));
            }
            i = i + 1;
        }
        proof {
            lemma_files_map_absent(self.files@, path@);
        }
        None
    }

    /// Store `bytes` at `path`, replacing whatever was there: the last
    /// writer wins.
    pub fn write(&mut self, path: String, bytes: Vec<u8>)
        requires
            old(self).wf(),
        ensures
            final(self).wf(),
            final(self)@ == old(self)@.insert(path@, bytes@),
    {
        let n = self.files.len();
        let mut i: usize = 0;
        while i < n
            invariant
                i <= n,
                n == self.files@.len(),
                self == old(self),
                self.wf(),
                forall|k: int| 0 <= k < i ==> (#[trigger] self.files@[k].0@) != path@,
            decreases n - i,
        {
            if self.files[i].0 == path {
                let ghost s = self.files@;
                let ghost pv = path@;
                self.files.remove(i);
                self.files.insert(i, (path, bytes));
                proof {
                    assert(self.files@ =~= s.update(i as int, self.files@[i as int]));
                    assert(self.files@[i as int].0@ == pv);
                    assert(pv == s[i as int].0@);
                    lemma_files_map_update(s, i as int, self.files@[i as int]);
                    assert forall|a: int, b: int| 0 <= a < b < self.files@.len() implies (
                    #[trigger] self.files@[a].0@) != (#[trigger] self.files@[b].0@) by {
                        assert(s[a].0@ != s[b].0@);
                        if a != i {
                            assert(self.files@[a] == s[a]);
                        }
                        if b != i {
                            assert(self.files@[b] == s[b]);
                        }
                    }
                }
                return ;
            }
            i = i + 1;
        }
        let ghost s = self.files@;
        self.files.push((path, bytes));
        proof {
            assert(self.files@.drop_last() =~= s);
            assert(final(self)@ =~= old(self)@.insert(self.files@.last().0@, self.files@.last().1@));
            assert forall|a: int, b: int| 0 <= a < b < self.files@.len() implies (
            #[trigger] self.files@[a].0@) != (#[trigger] self.files@[b].0@) by {
                if b == self.files@.len() - 1 {
                    assert(self.files@[a] == s[a]);
                    assert(s[a].0@ != self.files@[b].0@);
                } else {
                    assert(self.files@[a] == s[a]);
                    assert(self.files@[b] == s[b]);
                }
            }
        }
    }

    /// How many documents the store holds.
    pub fn len(&self) -> (r: usize)
        requires
            self.wf(),
        ensures
            r == self@.dom().len(),
    {
        proof {
            lemma_files_map_len(self.files@);
        }
        self.files.len()
    }
}

/// With distinct paths, the map has exactly one entry per element.
proof fn lemma_files_map_len(s: Seq<(String, Vec<u8>)>)
    requires
        forall|a: int, b: int| 0 <= a < b < s.len() ==> (#[trigger] s[a].0@) != (#[trigger] s[b].0@),
    ensures
        files_map(s).dom().len() == s.len(),
        files_map(s).dom().finite(),
    decreases s.len(),
{
    if s.len() > 0 {
        let t = s.drop_last();
        assert forall|a: int, b: int| 0 <= a < b < t.len() implies (#[trigger] t[a].0@) != (
        #[trigger] t[b].0@) by {
            assert(t[a] == s[a]);
            assert(t[b] == s[b]);
        }
        lemma_files_map_len(t);
        assert forall|i: int| 0 <= i < t.len() implies (#[trigger] t[i].0@) != s.last().0@ by {
            assert(t[i] == s[i]);
            assert(s[i].0@ != s[s.len() - 1].0@);
        }
        lemma_files_map_absent(t, s.last().0@);
        assert(files_map(s).dom() =~= files_map(t).dom().insert(s.last().0@));
    }
}

} // verus!

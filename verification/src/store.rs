//! The objects a repository holds, by hex hash, as their stored (zlib) bytes,
//! and what can be read out of them.
use vstd::prelude::*;
use vstd::utf8::*;
use crate::codec::{string_from_utf8, zlib_decompress, zlib_decompressed};
use crate::diff3::lines_view;
use crate::text::{byte_index_from, index_from, lemma_index_from, push_bytes};

verus! {

/// The stored bytes under `h`: those of the first entry with that hash.
pub open spec fn store_get(s: Seq<(Seq<char>, Seq<u8>)>, h: Seq<char>) -> Option<Seq<u8>>
    decreases s.len(),
{
    if s.len() == 0 {
        None
    } else if s[0].0 == h {
        Some(s[0].1)
    } else {
        store_get(s.drop_first(), h)
    }
}

/// The objects of a repository: (hex hash, stored bytes) pairs.
pub struct ObjectStore {
    entries: Vec<(String, Vec<u8>)>,
}

impl View for ObjectStore {
    type V = Seq<(Seq<char>, Seq<u8>)>;

    closed spec fn view(&self) -> Seq<(Seq<char>, Seq<u8>)> {
        self.entries@.map_values(|e: (String, Vec<u8>)| (e.0@, e.1@))
    }
}

impl ObjectStore {
    /// A store without objects.
    pub fn new() -> (res: Self)
        ensures
            res@ == Seq::<(Seq<char>, Seq<u8>)>::empty(),
    {
        let res = ObjectStore { entries: Vec::new() };
        assert(res@ =~= Seq::<(Seq<char>, Seq<u8>)>::empty());
        res
    }

    /// Stores `data` under `hash`; what was stored under it before is
    /// replaced, and nothing else changes.
    pub fn insert(&mut self, hash: String, data: Vec<u8>)
        ensures
            store_get(final(self)@, hash@) == Some(data@),
            forall|k: Seq<char>| k != hash@ ==> store_get(final(self)@, k) == store_get(old(self)@, k),
    {
        let mut i: usize = 0;
        while i < self.entries.len()
            invariant
                i <= self.entries.len(),
                self@ == old(self)@,
                forall|q: int| 0 <= q < i ==> self.entries@[q].0@ != hash@,
            decreases self.entries.len() - i,
        {
            if self.entries[i].0 == hash {
                let ghost before = self@;
                self.entries.set(i, (hash, data));
                proof {
                    lemma_store_get_set(before, i as int, self@);
                }
                return;
            }
            i = i + 1;
        }
        let ghost before = self@;
        self.entries.push((hash, data));
        proof {
            assert(self@ =~= before.push((hash@, data@)));
            lemma_store_get_push(before, hash@, data@);
        }
    }

    /// The stored bytes of the object named `hash`.
    pub fn get(&self, hash: &String) -> (res: Option<&Vec<u8>>)
        ensures
            match res {
                Some(v) => store_get(self@, hash@) == Some(v@),
                None => store_get(self@, hash@) is None,
            },
    {
        let mut i: usize = 0;
        assert(self@.skip(0) =~= self@);
        while i < self.entries.len()
            invariant
                i <= self.entries.len(),
                store_get(self@, hash@) == store_get(self@.skip(i as int), hash@),
            decreases self.entries.len() - i,
        {
            proof {
                assert(self@.skip(i as int).drop_first() =~= self@.skip(i + 1));
                assert(self@.skip(i as int)[0] == self@[i as int]);
            }
            if self.entries[i].0 == *hash {
                return Some(&self.entries[i].1);
            }
            i = i + 1;
        }
        None
    }

    /// How many (hash, bytes) entries the store holds.
    pub fn len(&self) -> (res: usize)
        ensures
            res == self@.len(),
    {
        self.entries.len()
    }

    /// Whether an object named `hash` is stored.
    pub fn has_object(&self, hash: &String) -> (res: bool)
        ensures
            res == store_get(self@, hash@) is Some,
    {
        self.get(hash).is_some()
    }
}

proof fn lemma_store_get_set(
    before: Seq<(Seq<char>, Seq<u8>)>,
    i: int,
    after: Seq<(Seq<char>, Seq<u8>)>,
)
    requires
        0 <= i < before.len(),
        after.len() == before.len(),
        forall|q: int| 0 <= q < i ==> before[q].0 != after[i].0,
        forall|q: int| 0 <= q < before.len() && q != i ==> after[q] == before[q],
        before[i].0 == after[i].0,
    ensures
        store_get(after, after[i].0) == Some(after[i].1),
        forall|k: Seq<char>| k != after[i].0 ==> store_get(after, k) == store_get(before, k),
    decreases i,
{
    if i > 0 {
        lemma_store_get_set(before.drop_first(), i - 1, after.drop_first());
        assert(after[0] == before[0]);
        assert forall|k: Seq<char>| k != after[i].0 implies store_get(after, k) == store_get(before, k) by {
            assert(after.drop_first()[i - 1] == after[i]);
            if after[0].0 != k {
                assert(store_get(after, k) == store_get(after.drop_first(), k));
                assert(store_get(before, k) == store_get(before.drop_first(), k));
            }
        }
        assert(store_get(after, after[i].0) == store_get(after.drop_first(), after[i].0));
    } else {
        assert(after.drop_first() =~= before.drop_first());
    }
}

proof fn lemma_store_get_push(before: Seq<(Seq<char>, Seq<u8>)>, h: Seq<char>, d: Seq<u8>)
    requires
        forall|q: int| 0 <= q < before.len() ==> before[q].0 != h,
    ensures
        store_get(before.push((h, d)), h) == Some(d),
        forall|k: Seq<char>| k != h ==> store_get(before.push((h, d)), k) == store_get(before, k),
    decreases before.len(),
{
    if before.len() > 0 {
        lemma_store_get_push(before.drop_first(), h, d);
        assert(before.push((h, d)).drop_first() =~= before.drop_first().push((h, d)));
        assert(before.push((h, d))[0] == before[0]);
        assert forall|k: Seq<char>| k != h implies store_get(before.push((h, d)), k) == store_get(before, k) by {
            if before[0].0 != k {
                assert(store_get(before.push((h, d)), k) == store_get(before.push((h, d)).drop_first(), k));
                assert(store_get(before, k) == store_get(before.drop_first(), k));
            }
        }
        assert(store_get(before.push((h, d)), h) == store_get(before.push((h, d)).drop_first(), h));
    } else {
        assert(before.push((h, d)).drop_first() =~= Seq::<(Seq<char>, Seq<u8>)>::empty());
        assert forall|k: Seq<char>| k != h implies store_get(before.push((h, d)), k) == store_get(before, k) by {
            assert(store_get(before.push((h, d)), k) == store_get(before.push((h, d)).drop_first(), k));
        }
    }
}

/// The number of stored objects whose hash is not in `visited`.
pub open spec fn count_unvisited(s: Seq<(Seq<char>, Seq<u8>)>, visited: Seq<Seq<char>>) -> nat
    decreases s.len(),
{
    if s.len() == 0 {
        0
    } else {
        (if visited.contains(s[0].0) {
            0nat
        } else {
            1nat
        }) + count_unvisited(s.drop_first(), visited)
    }
}

/// Visiting more hashes leaves no more objects unvisited; visiting a stored
/// one leaves fewer, and visiting one that is not stored leaves as many.
pub proof fn lemma_count_push(s: Seq<(Seq<char>, Seq<u8>)>, visited: Seq<Seq<char>>, h: Seq<char>)
    ensures
        count_unvisited(s, visited.push(h)) <= count_unvisited(s, visited),
        store_get(s, h) is Some && !visited.contains(h) ==> count_unvisited(s, visited.push(h))
            < count_unvisited(s, visited),
        store_get(s, h) is None ==> count_unvisited(s, visited.push(h)) == count_unvisited(s, visited),
    decreases s.len(),
{
    if s.len() > 0 {
        lemma_count_push(s.drop_first(), visited, h);
        let k = s[0].0;
        assert(visited.push(h).contains(k) <==> visited.contains(k) || k == h) by {
            if visited.contains(k) {
                let j = choose|j: int| 0 <= j < visited.len() && visited[j] == k;
                assert(visited.push(h)[j] == k);
            }
            if k == h {
                assert(visited.push(h)[visited.len() as int] == k);
            }
            if visited.push(h).contains(k) {
                let j = choose|j: int| 0 <= j < visited.push(h).len() && visited.push(h)[j] == k;
                if j < visited.len() {
                    assert(visited[j] == k);
                }
            }
        }
    }
}

/// Visiting a list of hashes that includes all of another leaves no more
/// objects unvisited.
pub proof fn lemma_count_superset(s: Seq<(Seq<char>, Seq<u8>)>, v1: Seq<Seq<char>>, v2: Seq<Seq<char>>)
    requires
        forall|k: Seq<char>| v1.contains(k) ==> v2.contains(k),
    ensures
        count_unvisited(s, v2) <= count_unvisited(s, v1),
    decreases s.len(),
{
    if s.len() > 0 {
        lemma_count_superset(s.drop_first(), v1, v2);
    }
}

/// The body of the object under `h`: the bytes after the first NUL of its
/// decompressed form.
pub open spec fn stored_body(s: Seq<(Seq<char>, Seq<u8>)>, h: Seq<char>) -> Option<Seq<u8>> {
    match store_get(s, h) {
        None => None,
        Some(raw) => match zlib_decompressed(raw) {
            None => None,
            Some(d) => {
                let z = index_from(d, 0u8, 0);
                if z >= d.len() {
                    None
                } else {
                    Some(d.subrange(z + 1, d.len() as int))
                }
            },
        },
    }
}

/// The header of the object under `h`: the bytes before the first NUL of its
/// decompressed form.
pub open spec fn stored_header(s: Seq<(Seq<char>, Seq<u8>)>, h: Seq<char>) -> Option<Seq<u8>> {
    match store_get(s, h) {
        None => None,
        Some(raw) => match zlib_decompressed(raw) {
            None => None,
            Some(d) => {
                let z = index_from(d, 0u8, 0);
                if z >= d.len() {
                    None
                } else {
                    Some(d.subrange(0, z))
                }
            },
        },
    }
}

/// The body of the object under `h` as text, where it is UTF-8.
pub open spec fn stored_text(s: Seq<(Seq<char>, Seq<u8>)>, h: Seq<char>) -> Option<Seq<char>> {
    match stored_body(s, h) {
        Some(b) => if valid_utf8(b) {
            Some(decode_utf8(b))
        } else {
            None
        },
        None => None,
    }
}

impl ObjectStore {
    /// The header and body of the object under `hash`, where it is stored, is
    /// a valid zlib stream, and holds a NUL.
    pub fn object_parts(&self, hash: &String) -> (res: Option<(Vec<u8>, Vec<u8>)>)
        ensures
            match res {
                Some((h, b)) => stored_header(self@, hash@) == Some(h@) && stored_body(self@, hash@) == Some(b@),
                None => stored_header(self@, hash@) is None && stored_body(self@, hash@) is None,
            },
    {
        let raw = match self.get(hash) {
            Some(r) => r,
            None => {
                return None;
            },
        };
        let dec = match zlib_decompress(raw.as_slice()) {
            Ok(d) => d,
            Err(_) => {
                return None;
            },
        };
        let z = byte_index_from(dec.as_slice(), 0u8, 0);
        proof {
            lemma_index_from(dec@, 0u8, 0);
        }
        if z >= dec.len() {
            return None;
        }
        let mut header: Vec<u8> = Vec::new();
        push_bytes(&mut header, dec.as_slice(), 0, z);
        let mut body: Vec<u8> = Vec::new();
        push_bytes(&mut body, dec.as_slice(), z + 1, dec.len());
        Some((header, body))
    }

    /// The body of the object under `hash` as text, where it is UTF-8.
    pub fn object_text(&self, hash: &String) -> (res: Option<String>)
        ensures
            match res {
                Some(t) => stored_text(self@, hash@) == Some(t@),
                None => stored_text(self@, hash@) is None,
            },
    {
        match self.object_parts(hash) {
            None => None,
            Some((_, body)) => match string_from_utf8(body) {
                Ok(t) => Some(t),
                Err(_) => None,
            },
        }
    }
}

} // verus!

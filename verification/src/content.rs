use crate::color::Color;
use vstd::prelude::*;

verus! {

/// A store of loaded content, keyed by the path it was loaded from.
pub trait ContentCache<T> {
    /// What the cache holds: each stored path with its content.
    spec fn contents(&self) -> Map<Seq<char>, T>;

    /// Looks up the content stored under `path`.
    fn get(&self, path: &str) -> (found: Option<&T>)
        ensures
            found matches Some(content) ==> self.contents().contains_key(path@) && *content
                == self.contents()[path@],
            found is None ==> !self.contents().contains_key(path@),
    ;

    /// Forgets whatever is stored under `path`.
    fn remove(&mut self, path: &str)
        ensures
            final(self).contents() == old(self).contents().remove(path@),
    ;

    /// Stores `content` under `path`, replacing what was there.
    fn insert(&mut self, path: &str, content: T)
        ensures
            final(self).contents() == old(self).contents().insert(path@, content),
    ;
}

/// A cache that keeps its content in memory, in the order it was first stored.
pub struct DefaultContentCache<T> {
    entries: Vec<(String, T)>,
}

/// Whether some entry of `entries` is stored under `key`.
spec fn has_key<T>(entries: Seq<(String, T)>, key: Seq<char>) -> bool {
    exists|i: int| 0 <= i < entries.len() && (#[trigger] entries[i]).0@ == key
}

/// The position of the entry stored under `key`.
spec fn key_position<T>(entries: Seq<(String, T)>, key: Seq<char>) -> int {
    choose|i: int| 0 <= i < entries.len() && (#[trigger] entries[i]).0@ == key
}

/// No two entries share a path.
spec fn distinct_keys<T>(entries: Seq<(String, T)>) -> bool {
    forall|i: int, j: int|
        0 <= i < entries.len() && 0 <= j < entries.len() && (#[trigger] entries[i]).0@ == (
        #[trigger] entries[j]).0@ ==> i == j
}

/// The map that a list of entries with distinct paths stands for.
spec fn entries_map<T>(entries: Seq<(String, T)>) -> Map<Seq<char>, T> {
    Map::new(
        |key: Seq<char>| has_key(entries, key),
        |key: Seq<char>| entries[key_position(entries, key)].1,
    )
}

impl<T> DefaultContentCache<T> {
    #[verifier::type_invariant]
    spec fn distinct(&self) -> bool {
        distinct_keys(self.entries@)
    }

    /// A cache that holds nothing yet.
    pub fn new() -> (cache: DefaultContentCache<T>)
        ensures
            cache.contents() == Map::<Seq<char>, T>::empty(),
    {
        let cache = DefaultContentCache { entries: Vec::new() };
        assert(cache.contents() =~= Map::<Seq<char>, T>::empty());
        cache
    }

    /// The number of paths with stored content.
    pub fn len(&self) -> (n: usize)
        ensures
            n == self.contents().dom().len(),
            self.contents().dom().finite(),
    {
        proof {
            use_type_invariant(self);
            lemma_entries_map_len(self.entries@);
        }
        self.entries.len()
    }

    fn position(&self, path: &str) -> (at: Option<usize>)
        ensures
            at matches Some(i) ==> i < self.entries@.len() && self.entries@[i as int].0@ == path@,
            at is None ==> !has_key(self.entries@, path@),
    {
        let key = path.to_owned();
        let mut i: usize = 0;
        while i < self.entries.len()
            invariant
                i <= self.entries@.len(),
                key@ == path@,
                forall|j: int| 0 <= j < i ==> (#[trigger] self.entries@[j]).0@ != path@,
            decreases self.entries@.len() - i,
        {
            if self.entries[i].0 == key {
                return Some(i);
            }
            i += 1;
        }
        None
    }
}

/// A list of entries with distinct paths stands for a map with as many keys.
proof fn lemma_entries_map_len<T>(entries: Seq<(String, T)>)
    requires
        distinct_keys(entries),
    ensures
        entries_map(entries).dom().finite(),
        entries_map(entries).dom().len() == entries.len(),
    decreases entries.len(),
{
    if entries.len() == 0 {
        assert(entries_map(entries).dom() =~= Set::<Seq<char>>::empty());
    } else {
        let rest = entries.drop_last();
        let last = entries.last();
        assert forall|i: int, j: int|
            0 <= i < rest.len() && 0 <= j < rest.len() && (#[trigger] rest[i]).0@ == (
            #[trigger] rest[j]).0@ implies i == j by {
            assert(rest[i] == entries[i]);
            assert(rest[j] == entries[j]);
        }
        lemma_entries_map_len(rest);
        assert(!has_key(rest, last.0@)) by {
            if has_key(rest, last.0@) {
                let i = key_position(rest, last.0@);
                assert(rest[i] == entries[i]);
                assert(entries[entries.len() - 1].0@ == entries[i].0@);
            }
        }
        assert(entries_map(entries).dom() =~= entries_map(rest).dom().insert(last.0@)) by {
            assert forall|key: Seq<char>| has_key(entries, key) <==> (has_key(rest, key) || key
                == last.0@) by {
                if has_key(entries, key) {
                    let i = key_position(entries, key);
                    if i < rest.len() {
                        assert(rest[i] == entries[i]);
                    }
                }
                if has_key(rest, key) {
                    let i = key_position(rest, key);
                    assert(rest[i] == entries[i]);
                }
                if key == last.0@ {
                    assert(entries[entries.len() - 1].0@ == key);
                }
            }
        }
    }
}

impl<T> ContentCache<T> for DefaultContentCache<T> {
    closed spec fn contents(&self) -> Map<Seq<char>, T> {
        entries_map(self.entries@)
    }

    fn get(&self, path: &str) -> (found: Option<&T>) {
        proof {
            use_type_invariant(self);
        }
        match self.position(path) {
            Some(i) => {
                assert(has_key(self.entries@, path@));
                Some(&self.entries[i].1)
            },
            None => None,
        }
    }

    fn remove(&mut self, path: &str) {
        proof {
            use_type_invariant(&*self);
        }
        let ghost before = self.entries@;
        match self.position(path) {
            Some(i) => {
                let mut entries: Vec<(String, T)> = Vec::new();
                std::mem::swap(&mut self.entries, &mut entries);
                let _ = entries.remove(i);
                proof {
                    let after = entries@;
                    assert forall|a: int| 0 <= a < after.len() implies #[trigger] after[a] == before[if a
                        < i {
                        a
                    } else {
                        a + 1
                    }] by {}
                    assert(distinct_keys(after));
                    assert forall|key: Seq<char>| has_key(after, key) <==> (has_key(before, key) && key
                        != path@) by {
                        if has_key(after, key) {
                            let a = key_position(after, key);
                            let b = if a < i {
                                a
                            } else {
                                a + 1
                            };
                            assert(before[b].0@ == key);
                        }
                        if has_key(before, key) && key != path@ {
                            let b = key_position(before, key);
                            let a = if b < i {
                                b
                            } else {
                                b - 1
                            };
                            assert(after[a].0@ == key);
                        }
                    }
                    assert forall|key: Seq<char>| has_key(after, key) implies after[key_position(
                        after,
                        key,
                    )].1 == before[key_position(before, key)].1 by {
                        let a = key_position(after, key);
                        let b = if a < i {
                            a
                        } else {
                            a + 1
                        };
                        assert(before[b].0@ == key);
                        assert(before[key_position(before, key)].0@ == key);
                    }
                    assert(entries_map(after) =~= entries_map(before).remove(path@));
                }
                self.entries = entries;
            },
            None => {
                assert(entries_map(before) =~= entries_map(before).remove(path@));
            },
        }
    }

    fn insert(&mut self, path: &str, content: T) {
        proof {
            use_type_invariant(&*self);
        }
        let ghost before = self.entries@;
        let key = path.to_owned();
        match self.position(path) {
            Some(i) => {
                let mut entries: Vec<(String, T)> = Vec::new();
                std::mem::swap(&mut self.entries, &mut entries);
                entries.set(i, (key, content));
                proof {
                    let after = entries@;
                    assert forall|a: int| 0 <= a < after.len() implies (#[trigger] after[a]).0@
                        == before[a].0@ by {}
                    assert(distinct_keys(after));
                    assert forall|k: Seq<char>| has_key(after, k) <==> has_key(before, k) by {
                        if has_key(after, k) {
                            let a = key_position(after, k);
                            assert(before[a].0@ == k);
                        }
                        if has_key(before, k) {
                            let b = key_position(before, k);
                            assert(after[b].0@ == k);
                        }
                    }
                    assert(has_key(before, path@));
                    assert forall|k: Seq<char>| has_key(after, k) implies after[key_position(
                        after,
                        k,
                    )].1 == (if k == path@ {
                        content
                    } else {
                        before[key_position(before, k)].1
                    }) by {
                        let a = key_position(after, k);
                        let b = key_position(before, k);
                        assert(before[a].0@ == k);
                        assert(a == b);
                    }
                    assert(entries_map(after) =~= entries_map(before).insert(path@, content));
                }
                self.entries = entries;
            },
            None => {
                let mut entries: Vec<(String, T)> = Vec::new();
                std::mem::swap(&mut self.entries, &mut entries);
                entries.push((key, content));
                proof {
                    let after = entries@;
                    assert forall|a: int| 0 <= a < before.len() implies #[trigger] after[a]
                        == before[a] by {}
                    assert(after[before.len() as int].0@ == path@);
                    assert(distinct_keys(after)) by {
                        assert forall|a: int, b: int|
                            0 <= a < after.len() && 0 <= b < after.len() && (#[trigger] after[a]).0@
                                == (#[trigger] after[b]).0@ implies a == b by {
                            if a < before.len() {
                                assert(before[a].0@ == after[a].0@);
                            }
                            if b < before.len() {
                                assert(before[b].0@ == after[b].0@);
                            }
                        }
                    }
                    assert forall|k: Seq<char>| has_key(after, k) <==> (has_key(before, k) || k
                        == path@) by {
                        if has_key(after, k) {
                            let a = key_position(after, k);
                            if a < before.len() {
                                assert(before[a].0@ == k);
                            }
                        }
                        if has_key(before, k) {
                            let b = key_position(before, k);
                            assert(after[b].0@ == k);
                        }
                    }
                    assert forall|k: Seq<char>| has_key(after, k) implies after[key_position(
                        after,
                        k,
                    )].1 == (if k == path@ {
                        content
                    } else {
                        before[key_position(before, k)].1
                    }) by {
                        let a = key_position(after, k);
                        if k != path@ {
                            let b = key_position(before, k);
                            assert(after[b].0@ == k);
                            assert(a == b);
                        } else {
                            assert(a == before.len());
                        }
                    }
                    assert(entries_map(after) =~= entries_map(before).insert(path@, content));
                }
                self.entries = entries;
            },
        }
    }
}

/// A decoded RGB image, three bytes per pixel, rows from the top.
pub struct Texture {
    buffer: Vec<u8>,
    width: u32,
    height: u32,
}

impl Texture {
    #[verifier::type_invariant]
    spec fn sized(&self) -> bool {
        self.buffer@.len() == self.width * self.height * 3
    }

    /// The number of pixels in a row.
    pub closed spec fn spec_width(&self) -> nat {
        self.width as nat
    }

    /// The number of rows.
    pub closed spec fn spec_height(&self) -> nat {
        self.height as nat
    }

    /// The bytes of the image, pixel after pixel.
    pub closed spec fn bytes(&self) -> Seq<u8> {
        self.buffer@
    }

    /// Wraps decoded bytes, if there are exactly three for each pixel.
    pub fn new(buffer: Vec<u8>, width: u32, height: u32) -> (texture: Option<Texture>)
        ensures
            texture is Some <==> buffer@.len() == width * height * 3,
            texture matches Some(t) ==> t.bytes() == buffer@ && t.spec_width() == width
                && t.spec_height() == height,
    {
        assert(0 <= width * height <= 0xffff_ffff * 0xffff_ffff) by (nonlinear_arith)
            requires
                0 <= width <= 0xffff_ffff,
                0 <= height <= 0xffff_ffff,
        ;
        let pixels: u64 = (width as u64) * (height as u64);
        let given: usize = buffer.len();
        if pixels > (usize::MAX / 3) as u64 {
            assert(usize::MAX < 3 * (usize::MAX / 3) + 3);
            return None;
        }
        if given == (pixels as usize) * 3 {
            Some(Texture { buffer, width, height })
        } else {
            None
        }
    }

    pub fn width(&self) -> (w: u32)
        ensures
            w == self.spec_width(),
    {
        self.width
    }

    pub fn height(&self) -> (h: u32)
        ensures
            h == self.spec_height(),
    {
        self.height
    }

    /// The colour of the pixel in column `x` of row `y`.
    pub fn texel(&self, x: u32, y: u32) -> (c: Color)
        requires
            x < self.spec_width(),
            y < self.spec_height(),
        ensures
            (y * self.spec_width() + x) * 3 + 2 < self.bytes().len(),
            c.r == self.bytes()[(y * self.spec_width() + x) * 3],
            c.g == self.bytes()[(y * self.spec_width() + x) * 3 + 1],
            c.b == self.bytes()[(y * self.spec_width() + x) * 3 + 2],
    {
        proof {
            use_type_invariant(self);
            assert(0 <= y * self.width && y * self.width + x < self.width * self.height) by (nonlinear_arith)
                requires
                    0 <= x < self.width,
                    0 <= y < self.height,
            ;
        }
        let size: usize = self.buffer.len();
        assert((y * self.width + x) * 3 + 2 < size);
        let row: usize = (y as usize) * (self.width as usize);
        let index: usize = (row + x as usize) * 3;
        Color { r: self.buffer[index], g: self.buffer[index + 1], b: self.buffer[index + 2] }
    }
}

/// Groups a flat list into triples, in order: three coordinates to a
/// vertex, three corners to a triangle. What is left over at the end, one
/// item or two, is dropped.
pub fn tuples3<T: Copy>(flat: &Vec<T>) -> (triples: Vec<(T, T, T)>)
    ensures
        triples@.len() == flat@.len() / 3,
        forall|i: int|
            0 <= i < triples@.len() ==> #[trigger] triples@[i] == (
                flat@[3 * i],
                flat@[3 * i + 1],
                flat@[3 * i + 2],
            ),
{
    let mut triples: Vec<(T, T, T)> = Vec::new();
    let count = flat.len() / 3;
    let mut i: usize = 0;
    while i < count
        invariant
            i <= count,
            count == flat@.len() / 3,
            flat@.len() <= usize::MAX,
            triples@.len() == i,
            forall|j: int|
                0 <= j < i ==> #[trigger] triples@[j] == (
                    flat@[3 * j],
                    flat@[3 * j + 1],
                    flat@[3 * j + 2],
                ),
        decreases count - i,
    {
        triples.push((flat[3 * i], flat[3 * i + 1], flat[3 * i + 2]));
        i += 1;
    }
    triples
}

/// Groups a flat list into pairs, in order: two coordinates to a point of a
/// texture. An item left over at the end is dropped.
pub fn tuples2<T: Copy>(flat: &Vec<T>) -> (pairs: Vec<(T, T)>)
    ensures
        pairs@.len() == flat@.len() / 2,
        forall|i: int|
            0 <= i < pairs@.len() ==> #[trigger] pairs@[i] == (flat@[2 * i], flat@[2 * i + 1]),
{
    let mut pairs: Vec<(T, T)> = Vec::new();
    let count = flat.len() / 2;
    let mut i: usize = 0;
    while i < count
        invariant
            i <= count,
            count == flat@.len() / 2,
            flat@.len() <= usize::MAX,
            pairs@.len() == i,
            forall|j: int|
                0 <= j < i ==> #[trigger] pairs@[j] == (flat@[2 * j], flat@[2 * j + 1]),
        decreases count - i,
    {
        pairs.push((flat[2 * i], flat[2 * i + 1]));
        i += 1;
    }
    pairs
}

} // verus!

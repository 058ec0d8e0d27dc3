//! The book of gamma-exposure (GEX) levels pushed by the GEX service, keyed
//! by level id, and the colour each kind of level is drawn in.

use vstd::prelude::*;

verus! {

/// What the GEX connection reports; `V` is the level payload.
pub enum GexBookEvent<V> {
    Connected,
    /// Adds the level with this id, or replaces it.
    SetLevel(String, V),
    /// Removes the level with this id.
    Remove(String),
    /// Removes every level.
    Clear,
    /// The connection dropped: every level is removed.
    Disconnected,
}

/// The levels as a map from id to payload.
pub open spec fn book_map<V>(s: Seq<(String, V)>) -> Map<Seq<char>, V>
    decreases s.len(),
{
    if s.len() == 0 {
        Map::empty()
    } else {
        book_map(s.drop_last()).insert(s.last().0@, s.last().1)
    }
}

/// No id occurs twice.
pub open spec fn ids_distinct<V>(s: Seq<(String, V)>) -> bool {
    forall|i: int, j: int| 0 <= i < j < s.len() ==> (#[trigger] s[i]).0@ != (#[trigger] s[j]).0@
}

/// An id is in the map exactly when an entry has it, and then maps to that
/// entry's payload.
proof fn lemma_book_map<V>(s: Seq<(String, V)>)
    requires
        ids_distinct(s),
    ensures
        forall|k: Seq<char>| #[trigger]
            book_map(s).contains_key(k) <==> exists|i: int| 0 <= i < s.len() && (#[trigger] s[i]).0@
                == k,
        forall|i: int| 0 <= i < s.len() ==> #[trigger] book_map(s)[s[i].0@] == s[i].1,
    decreases s.len(),
{
    if s.len() > 0 {
        let t = s.drop_last();
        assert(ids_distinct(t)) by {
            assert forall|i: int, j: int| 0 <= i < j < t.len() implies (#[trigger] t[i]).0@ != (
            #[trigger] t[j]).0@ by {
                assert(t[i] == s[i] && t[j] == s[j]);
            }
        }
        lemma_book_map(t);
        assert forall|k: Seq<char>| #[trigger]
            book_map(s).contains_key(k) <==> exists|i: int| 0 <= i < s.len() && (#[trigger] s[i]).0@
                == k by {
            if book_map(t).contains_key(k) {
                let i = choose|i: int| 0 <= i < t.len() && (#[trigger] t[i]).0@ == k;
                assert(s[i] == t[i]);
            }
            if exists|i: int| 0 <= i < s.len() && (#[trigger] s[i]).0@ == k {
                let i = choose|i: int| 0 <= i < s.len() && (#[trigger] s[i]).0@ == k;
                if i < s.len() - 1 {
                    assert(t[i] == s[i]);
                }
            }
        }
        assert forall|i: int| 0 <= i < s.len() implies #[trigger] book_map(s)[s[i].0@] == s[i].1 by {
            if i < s.len() - 1 {
                assert(t[i] == s[i]);
                assert(book_map(t)[t[i].0@] == t[i].1);
                assert(s[i].0@ != s[s.len() - 1].0@);
            }
        }
    }
}

/// The GEX levels overlay: the levels currently known, keyed by id.
pub struct GexLevelsIndicator<V> {
    levels: Vec<(String, V)>,
}

impl<V> GexLevelsIndicator<V> {
    /// Ids are distinct.
    pub closed spec fn wf(&self) -> bool {
        ids_distinct(self.levels@)
    }

    /// The levels by id.
    pub closed spec fn map(&self) -> Map<Seq<char>, V> {
        book_map(self.levels@)
    }

    /// An empty book.
    pub fn new() -> (b: GexLevelsIndicator<V>)
        ensures
            b.wf(),
            b.map() == Map::<Seq<char>, V>::empty(),
    {
        GexLevelsIndicator { levels: Vec::new() }
    }

    /// The number of levels.
    pub fn len(&self) -> (r: usize)
        requires
            self.wf(),
        ensures
            r == self.map().len(),
    {
        proof {
            self.lemma_len();
        }
        self.levels.len()
    }

    proof fn lemma_len(&self)
        requires
            self.wf(),
        ensures
            self.levels@.len() == self.map().len(),
            self.map().dom().finite(),
    {
        lemma_book_len(self.levels@);
    }

    /// The position of the level with id `id`.
    fn find(&self, id: &String) -> (r: Option<usize>)
        ensures
            match r {
                Some(i) => i < self.levels@.len() && self.levels@[i as int].0@ == id@,
                None => forall|i: int|
                    0 <= i < self.levels@.len() ==> (#[trigger] self.levels@[i]).0@ != id@,
            },
    {
        let mut i: usize = 0;
        while i < self.levels.len()
            invariant
                i <= self.levels@.len(),
                forall|j: int| 0 <= j < i ==> (#[trigger] self.levels@[j]).0@ != id@,
            decreases self.levels@.len() - i,
        {
            if self.levels[i].0 == *id {
                return Some(i);
            }
            i = i + 1;
        }
        None
    }

    /// The level with id `id`.
    pub fn get(&self, id: &String) -> (r: Option<&V>)
        requires
            self.wf(),
        ensures
            match r {
                Some(v) => self.map().contains_key(id@) && *v == self.map()[id@],
                None => !self.map().contains_key(id@),
            },
    {
        proof {
            lemma_book_map(self.levels@);
        }
        match self.find(id) {
            Some(i) => Some(&self.levels[i].1),
            None => None,
        }
    }

    /// Every level, each id once, in no particular order.
    pub fn levels(&self) -> (r: &Vec<(String, V)>)
        requires
            self.wf(),
        ensures
            ids_distinct(r@),
            book_map(r@) == self.map(),
    {
        &self.levels
    }

    /// Applies an event from the GEX connection.
    pub fn on_gex_event(&mut self, event: GexBookEvent<V>)
        requires
            old(self).wf(),
        ensures
            final(self).wf(),
            final(self).map() == (match event {
                GexBookEvent::SetLevel(id, v) => old(self).map().insert(id@, v),
                GexBookEvent::Remove(id) => old(self).map().remove(id@),
                GexBookEvent::Clear | GexBookEvent::Disconnected => Map::<Seq<char>, V>::empty(),
                GexBookEvent::Connected => old(self).map(),
            }),
    {
        let ghost a = self.levels@;
        proof {
            lemma_book_map(a);
        }
        match event {
            GexBookEvent::SetLevel(id, v) => {
                let ghost key = id@;
                let ghost val = v;
                match self.find(&id) {
                    Some(i) => {
                        self.levels.set(i, (id, v));
                        proof {
                            let b = self.levels@;
                            assert(ids_distinct(b)) by {
                                assert forall|x: int, y: int| 0 <= x < y < b.len() implies (
                                #[trigger] b[x]).0@ != (#[trigger] b[y]).0@ by {
                                    if x != i && y != i {
                                        assert(b[x] == a[x] && b[y] == a[y]);
                                    } else if x == i {
                                        assert(b[y] == a[y]);
                                    } else {
                                        assert(b[x] == a[x]);
                                    }
                                }
                            }
                            lemma_book_map(b);
                            assert forall|k: Seq<char>| #[trigger] book_map(b).contains_key(k)
                                <==> book_map(a).insert(key, val).contains_key(k) by {
                                if book_map(b).contains_key(k) {
                                    let j = choose|j: int| 0 <= j < b.len() && (#[trigger] b[j]).0@ == k;
                                    if j != i {
                                        assert(b[j] == a[j]);
                                    }
                                }
                                if book_map(a).contains_key(k) {
                                    let j = choose|j: int| 0 <= j < a.len() && (#[trigger] a[j]).0@ == k;
                                    if j != i {
                                        assert(b[j] == a[j]);
                                    } else {
                                        assert(b[i as int].0@ == k);
                                    }
                                }
                                if k == key {
                                    assert(b[i as int].0@ == k);
                                }
                            }
                            assert forall|k: Seq<char>| #[trigger] book_map(b).contains_key(k) implies book_map(
                                b,
                            )[k] == book_map(a).insert(key, val)[k] by {
                                let j = choose|j: int| 0 <= j < b.len() && (#[trigger] b[j]).0@ == k;
                                if j != i {
                                    assert(b[j] == a[j]);
                                }
                            }
                            assert(book_map(b) =~= book_map(a).insert(key, val));
                        }
                    },
                    None => {
                        self.levels.push((id, v));
                        proof {
                            let b = self.levels@;
                            assert(b.drop_last() == a);
                            assert(ids_distinct(b)) by {
                                assert forall|x: int, y: int| 0 <= x < y < b.len() implies (
                                #[trigger] b[x]).0@ != (#[trigger] b[y]).0@ by {
                                    assert(b[x] == a[x]);
                                    if y < a.len() {
                                        assert(b[y] == a[y]);
                                    }
                                }
                            }
                        }
                    },
                }
            },
            GexBookEvent::Remove(id) => {
                match self.find(&id) {
                    Some(i) => {
                        self.levels.remove(i);
                        proof {
                            let b = self.levels@;
                            assert(b == a.remove(i as int));
                            assert(ids_distinct(b)) by {
                                assert forall|x: int, y: int| 0 <= x < y < b.len() implies (
                                #[trigger] b[x]).0@ != (#[trigger] b[y]).0@ by {
                                    if y < i {
                                        assert(b[x] == a[x] && b[y] == a[y]);
                                    } else if x >= i {
                                        assert(b[x] == a[x + 1] && b[y] == a[y + 1]);
                                    } else {
                                        assert(b[x] == a[x] && b[y] == a[y + 1]);
                                    }
                                }
                            }
                            lemma_book_map(b);
                            assert forall|k: Seq<char>| #[trigger] book_map(b).contains_key(k)
                                <==> book_map(a).remove(id@).contains_key(k) by {
                                if book_map(b).contains_key(k) {
                                    let j = choose|j: int| 0 <= j < b.len() && (#[trigger] b[j]).0@ == k;
                                    if j < i {
                                        assert(b[j] == a[j]);
                                    } else {
                                        assert(b[j] == a[j + 1]);
                                    }
                                }
                                if book_map(a).contains_key(k) && k != id@ {
                                    let j = choose|j: int| 0 <= j < a.len() && (#[trigger] a[j]).0@ == k;
                                    if j < i {
                                        assert(b[j] == a[j]);
                                    } else {
                                        assert(b[j - 1] == a[j]);
                                    }
                                }
                            }
                            assert forall|k: Seq<char>| #[trigger] book_map(b).contains_key(k) implies book_map(
                                b,
                            )[k] == book_map(a).remove(id@)[k] by {
                                let j = choose|j: int| 0 <= j < b.len() && (#[trigger] b[j]).0@ == k;
                                if j < i {
                                    assert(b[j] == a[j]);
                                } else {
                                    assert(b[j] == a[j + 1]);
                                }
                            }
                            assert(book_map(b) =~= book_map(a).remove(id@));
                        }
                    },
                    None => {
                        proof {
                            assert(book_map(a) =~= book_map(a).remove(id@));
                        }
                    },
                }
            },
            GexBookEvent::Clear | GexBookEvent::Disconnected => {
                self.levels.clear();
                proof {
                    assert(book_map(self.levels@) =~= Map::<Seq<char>, V>::empty());
                }
            },
            GexBookEvent::Connected => {},
        }
    }
}

impl<V> GexLevelsIndicator<V> {
    /// Forgets every level.
    pub fn clear_all_caches(&mut self)
        ensures
            final(self).wf(),
            final(self).map() == Map::<Seq<char>, V>::empty(),
    {
        self.levels.clear();
        proof {
            assert(book_map(self.levels@) =~= Map::<Seq<char>, V>::empty());
        }
    }

    /// Drawn over the candles, not in a panel of its own.
    pub fn is_overlay(&self) -> (r: bool)
        ensures
            r,
    {
        true
    }
}

/// The number of ids equals the number of entries.
proof fn lemma_book_len<V>(s: Seq<(String, V)>)
    requires
        ids_distinct(s),
    ensures
        book_map(s).dom().finite(),
        book_map(s).len() == s.len(),
    decreases s.len(),
{
    if s.len() > 0 {
        let t = s.drop_last();
        assert(ids_distinct(t)) by {
            assert forall|i: int, j: int| 0 <= i < j < t.len() implies (#[trigger] t[i]).0@ != (
            #[trigger] t[j]).0@ by {
                assert(t[i] == s[i] && t[j] == s[j]);
            }
        }
        lemma_book_len(t);
        lemma_book_map(t);
        if book_map(t).contains_key(s.last().0@) {
            let i = choose|i: int| 0 <= i < t.len() && (#[trigger] t[i]).0@ == s.last().0@;
            assert(s[i] == t[i]);
        }
    }
}

/// An RGB colour.
pub type Rgb = (u8, u8, u8);

/// The colour a level of kind `kind` is drawn in; gamma and open-interest
/// levels change colour with the sign of their value.
pub open spec fn spec_level_color(kind: Seq<char>, non_negative: bool) -> Rgb {
    if kind == "gamma"@ {
        if non_negative {
            (50u8, 205u8, 50u8)
        } else {
            (255u8, 0u8, 0u8)
        }
    } else if kind == "oi"@ {
        if non_negative {
            (0u8, 191u8, 255u8)
        } else {
            (65u8, 105u8, 225u8)
        }
    } else if kind == "call_wall"@ {
        (54u8, 198u8, 144u8)
    } else if kind == "put_wall"@ {
        (224u8, 93u8, 93u8)
    } else if kind == "zero_gamma"@ {
        (245u8, 194u8, 107u8)
    } else if kind == "max_gamma"@ {
        (74u8, 163u8, 255u8)
    } else if kind == "top_abs"@ {
        (94u8, 200u8, 216u8)
    } else {
        (255u8, 255u8, 255u8)
    }
}

/// The colour of a level of kind `kind` whose value is non-negative or not.
pub fn level_color(kind: &String, non_negative: bool) -> (r: Rgb)
    ensures
        r == spec_level_color(kind@, non_negative),
{
    if *kind == "gamma".to_owned() {
        if non_negative {
            (50, 205, 50)
        } else {
            (255, 0, 0)
        }
    } else if *kind == "oi".to_owned() {
        if non_negative {
            (0, 191, 255)
        } else {
            (65, 105, 225)
        }
    } else if *kind == "call_wall".to_owned() {
        (54, 198, 144)
    } else if *kind == "put_wall".to_owned() {
        (224, 93, 93)
    } else if *kind == "zero_gamma".to_owned() {
        (245, 194, 107)
    } else if *kind == "max_gamma".to_owned() {
        (74, 163, 255)
    } else if *kind == "top_abs".to_owned() {
        (94, 200, 216)
    } else {
        (255, 255, 255)
    }
}

/// Setting a level and then removing it leaves the book as it was without
/// that id; setting it twice keeps only the second payload.
pub proof fn lemma_set_then_remove<V>(m: Map<Seq<char>, V>, id: Seq<char>, v: V, w: V)
    ensures
        m.insert(id, v).remove(id) == m.remove(id),
        m.insert(id, v).insert(id, w) == m.insert(id, w),
{
    assert(m.insert(id, v).remove(id) =~= m.remove(id));
    assert(m.insert(id, v).insert(id, w) =~= m.insert(id, w));
}

} // verus!

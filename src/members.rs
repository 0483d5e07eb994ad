use vstd::prelude::*;
use vstd::utf8::encode_utf8;
use vstd::utf8::decode_utf8;
use vstd::utf8::encode_utf8_decode_utf8;
use std::cmp::Ordering;

verus! {

/// Lexicographic order on byte strings, comparing from position `i` on.
pub open spec fn bytes_lt_from(a: Seq<u8>, b: Seq<u8>, i: int) -> bool
    decreases a.len() - i,
{
    if i >= a.len() {
        i < b.len()
    } else if i >= b.len() {
        false
    } else if a[i] != b[i] {
        a[i] < b[i]
    } else {
        bytes_lt_from(a, b, i + 1)
    }
}

/// The order of member names: byte-wise on their UTF-8 encoding, the order of `str`.
pub open spec fn name_lt(a: Seq<char>, b: Seq<char>) -> bool {
    bytes_lt_from(encode_utf8(a), encode_utf8(b), 0)
}

/// The names of a sequence of entries stand in strictly increasing order.
pub open spec fn names_increasing(s: Seq<(String, Vec<u8>)>) -> bool {
    forall|i: int, j: int| 0 <= i < j < s.len() ==> name_lt(#[trigger] s[i].0@, #[trigger] s[j].0@)
}

/// Some position of `s` whose name is `k`.
pub open spec fn index_of(s: Seq<(String, Vec<u8>)>, k: Seq<char>) -> int {
    choose|i: int| 0 <= i < s.len() && s[i].0@ == k
}

/// The mapping from name to content that a sequence of entries with distinct names stands for.
pub open spec fn map_of(s: Seq<(String, Vec<u8>)>) -> Map<Seq<char>, Seq<u8>> {
    Map::new(
        |k: Seq<char>| exists|i: int| 0 <= i < s.len() && s[i].0@ == k,
        |k: Seq<char>| s[index_of(s, k)].1@,
    )
}

proof fn lemma_bytes_lt_irreflexive(a: Seq<u8>, i: int)
    ensures
        !bytes_lt_from(a, a, i),
    decreases a.len() - i,
{
    if i < a.len() {
        lemma_bytes_lt_irreflexive(a, i + 1);
    }
}

proof fn lemma_bytes_lt_transitive(a: Seq<u8>, b: Seq<u8>, c: Seq<u8>, i: int)
    requires
        bytes_lt_from(a, b, i),
        bytes_lt_from(b, c, i),
    ensures
        bytes_lt_from(a, c, i),
    decreases a.len() - i,
{
    if i < a.len() && i < b.len() && i < c.len() && a[i] == b[i] && b[i] == c[i] {
        lemma_bytes_lt_transitive(a, b, c, i + 1);
    }
}

/// Strictly increasing names are distinct.
pub proof fn lemma_increasing_distinct(s: Seq<(String, Vec<u8>)>, i: int, j: int)
    requires
        names_increasing(s),
        0 <= i < s.len(),
        0 <= j < s.len(),
        i != j,
    ensures
        s[i].0@ != s[j].0@,
{
    lemma_bytes_lt_irreflexive(encode_utf8(s[i].0@), 0);
    lemma_bytes_lt_irreflexive(encode_utf8(s[j].0@), 0);
}

/// In a sequence with increasing names, the entry at `i` is what the map holds for its name.
pub proof fn lemma_map_of_at(s: Seq<(String, Vec<u8>)>, i: int)
    requires
        names_increasing(s),
        0 <= i < s.len(),
    ensures
        map_of(s).contains_key(s[i].0@),
        index_of(s, s[i].0@) == i,
        map_of(s)[s[i].0@] == s[i].1@,
{
    let k = s[i].0@;
    assert(0 <= i < s.len() && s[i].0@ == k);
    let j = index_of(s, k);
    if j != i {
        lemma_increasing_distinct(s, i, j);
    }
}

/// The entries after the first stand for the map without the first name.
proof fn lemma_map_of_drop_first(s: Seq<(String, Vec<u8>)>)
    requires
        names_increasing(s),
        s.len() > 0,
    ensures
        names_increasing(s.drop_first()),
        map_of(s.drop_first()) == map_of(s).remove(s[0].0@),
{
    let t = s.drop_first();
    assert forall|a: int, b: int| 0 <= a < b < t.len() implies name_lt(#[trigger] t[a].0@, #[trigger] t[b].0@) by {
        assert(t[a] == s[a + 1] && t[b] == s[b + 1]);
    }
    assert forall|k: Seq<char>| #[trigger] map_of(t).contains_key(k) == map_of(s).remove(s[0].0@).contains_key(k) by {
        if map_of(t).contains_key(k) {
            let j = choose|j: int| 0 <= j < t.len() && t[j].0@ == k;
            assert(s[j + 1].0@ == k);
            lemma_increasing_distinct(s, 0, j + 1);
        }
        if map_of(s).contains_key(k) && k != s[0].0@ {
            let j = choose|j: int| 0 <= j < s.len() && s[j].0@ == k;
            assert(t[j - 1].0@ == k);
        }
    }
    assert forall|k: Seq<char>| #[trigger] map_of(t).contains_key(k) implies map_of(t)[k] == map_of(s).remove(s[0].0@)[k] by {
        let j = choose|j: int| 0 <= j < t.len() && t[j].0@ == k;
        lemma_map_of_at(t, j);
        lemma_map_of_at(s, j + 1);
    }
    assert(map_of(t) =~= map_of(s).remove(s[0].0@));
}

/// Two sequences with increasing names that stand for the same map hold the same names
/// and contents, position by position.
pub proof fn lemma_same_map_same_entries(s: Seq<(String, Vec<u8>)>, t: Seq<(String, Vec<u8>)>)
    requires
        names_increasing(s),
        names_increasing(t),
        map_of(s) == map_of(t),
    ensures
        s.len() == t.len(),
        forall|i: int| 0 <= i < s.len() ==> (#[trigger] s[i]).0@ == t[i].0@ && s[i].1@ == t[i].1@,
    decreases s.len(),
{
    if s.len() == 0 {
        if t.len() > 0 {
            lemma_map_of_at(t, 0);
        }
    } else if t.len() == 0 {
        lemma_map_of_at(s, 0);
    } else {
        let k = s[0].0@;
        lemma_map_of_at(s, 0);
        lemma_map_of_at(t, 0);
        let j = choose|j: int| 0 <= j < t.len() && t[j].0@ == k;
        let i = choose|i: int| 0 <= i < s.len() && s[i].0@ == t[0].0@;
        if j != 0 && i != 0 {
            lemma_bytes_lt_transitive(encode_utf8(k), encode_utf8(t[0].0@), encode_utf8(k), 0);
            lemma_bytes_lt_irreflexive(encode_utf8(k), 0);
        } else if j != 0 {
            lemma_increasing_distinct(t, 0, j);
        } else if i != 0 {
            lemma_increasing_distinct(s, 0, i);
        }
        assert(t[0].0@ == k);
        lemma_map_of_drop_first(s);
        lemma_map_of_drop_first(t);
        lemma_same_map_same_entries(s.drop_first(), t.drop_first());
        assert forall|i: int| 0 <= i < s.len() implies (#[trigger] s[i]).0@ == t[i].0@ && s[i].1@ == t[i].1@ by {
            if i > 0 {
                assert(s[i] == s.drop_first()[i - 1] && t[i] == t.drop_first()[i - 1]);
            }
        }
    }
}

/// Compares two names in the order `name_lt`.
pub(crate) fn compare_names(a: &str, b: &str) -> (r: Ordering)
    ensures
        (r == Ordering::Less) == name_lt(a@, b@),
        (r == Ordering::Greater) == name_lt(b@, a@),
        (r == Ordering::Equal) == (a@ == b@),
{
    let x = a.as_bytes();
    let y = b.as_bytes();
    let ghost ea = encode_utf8(a@);
    let ghost eb = encode_utf8(b@);
    assert(x@ == ea && y@ == eb);
    proof {
        encode_utf8_decode_utf8(a@);
        encode_utf8_decode_utf8(b@);
    }
    let mut i: usize = 0;
    while i < x.len() && i < y.len()
        invariant
            x@ == ea,
            y@ == eb,
            ea == encode_utf8(a@),
            eb == encode_utf8(b@),
            decode_utf8(ea) == a@,
            decode_utf8(eb) == b@,
            0 <= i <= x.len(),
            i <= y.len(),
            forall|j: int| 0 <= j < i ==> x@[j] == y@[j],
            bytes_lt_from(ea, eb, 0) == bytes_lt_from(ea, eb, i as int),
            bytes_lt_from(eb, ea, 0) == bytes_lt_from(eb, ea, i as int),
        decreases x.len() - i,
    {
        if x[i] < y[i] {
            assert(ea[i as int] < eb[i as int]);
            assert(bytes_lt_from(ea, eb, i as int));
            assert(!bytes_lt_from(eb, ea, i as int));
            assert(ea != eb);
            return Ordering::Less;
        }
        if x[i] > y[i] {
            assert(ea[i as int] > eb[i as int]);
            assert(bytes_lt_from(eb, ea, i as int));
            assert(!bytes_lt_from(ea, eb, i as int));
            assert(ea != eb);
            return Ordering::Greater;
        }
        i = i + 1;
    }
    if i < y.len() {
        Ordering::Less
    } else if i < x.len() {
        Ordering::Greater
    } else {
        assert(ea =~= eb);
        Ordering::Equal
    }
}

/// The members of a package that are kept as bytes, each under a distinct name,
/// held in increasing order of name.
pub struct Members {
    entries: Vec<(String, Vec<u8>)>,
}

impl View for Members {
    type V = Map<Seq<char>, Seq<u8>>;

    open spec fn view(&self) -> Map<Seq<char>, Seq<u8>> {
        map_of(self.entry_seq())
    }
}

impl Members {
    /// The entries, in the order in which they are held.
    pub closed spec fn entry_seq(&self) -> Seq<(String, Vec<u8>)> {
        self.entries@
    }

    #[verifier::type_invariant]
    closed spec fn inv(self) -> bool {
        names_increasing(self.entries@)
    }

    /// An empty set of members.
    pub fn new() -> (r: Members)
        ensures
            r@ == Map::<Seq<char>, Seq<u8>>::empty(),
            r.entry_seq().len() == 0,
    {
        let r = Members { entries: Vec::new() };
        assert(r@ =~= Map::<Seq<char>, Seq<u8>>::empty());
        r
    }

    /// A copy of these members.
    pub fn duplicate(&self) -> (r: Members)
        ensures
            r@ == self@,
    {
        proof {
            use_type_invariant(self);
        }
        let mut v: Vec<(String, Vec<u8>)> = Vec::new();
        let mut i: usize = 0;
        while i < self.entries.len()
            invariant
                i <= self.entries@.len(),
                v@.len() == i,
                forall|j: int| 0 <= j < i ==> (#[trigger] v@[j]).0@ == self.entries@[j].0@ && v@[j].1@ == self.entries@[j].1@,
            decreases self.entries@.len() - i,
        {
            let name = self.entries[i].0.clone();
            let data = self.entries[i].1.clone();
            assert(data@ =~= self.entries@[i as int].1@);
            v.push((name, data));
            i = i + 1;
        }
        let ghost s = self.entries@;
        let ghost t = v@;
        proof {
            assert forall|a: int, b: int| 0 <= a < b < t.len() implies name_lt(#[trigger] t[a].0@, #[trigger] t[b].0@) by {
                assert(t[a].0@ == s[a].0@ && t[b].0@ == s[b].0@);
            }
            assert forall|k: Seq<char>| #[trigger] map_of(t).contains_key(k) == map_of(s).contains_key(k) by {
                if map_of(s).contains_key(k) {
                    let j = choose|j: int| 0 <= j < s.len() && s[j].0@ == k;
                    assert(t[j].0@ == k);
                }
                if map_of(t).contains_key(k) {
                    let j = choose|j: int| 0 <= j < t.len() && t[j].0@ == k;
                    assert(s[j].0@ == k);
                }
            }
            assert forall|k: Seq<char>| #[trigger] map_of(t).contains_key(k) implies map_of(t)[k] == map_of(s)[k] by {
                let j = choose|j: int| 0 <= j < t.len() && t[j].0@ == k;
                lemma_map_of_at(t, j);
                lemma_map_of_at(s, j);
            }
            assert(map_of(t) =~= map_of(s));
        }
        Members { entries: v }
    }

    /// The number of members.
    pub fn len(&self) -> (r: usize)
        ensures
            r == self@.len(),
            r == self.entry_seq().len(),
    {
        proof {
            use_type_invariant(self);
            let s = self.entries@;
            assert forall|i: int| 0 <= i < s.len() implies #[trigger] self@.contains_key(s[i].0@) by {
                lemma_map_of_at(s, i);
            }
            let names = s.map_values(|e: (String, Vec<u8>)| e.0@);
            assert forall|k: Seq<char>| self@.contains_key(k) implies #[trigger] names.to_set().contains(k) by {
                let j = choose|j: int| 0 <= j < s.len() && s[j].0@ == k;
                assert(names[j] == k);
            }
            assert forall|k: Seq<char>| #[trigger] names.to_set().contains(k) implies self@.contains_key(k) by {
                let j = choose|j: int| 0 <= j < names.len() && names[j] == k;
                assert(s[j].0@ == k);
            }
            assert(self@.dom() =~= names.to_set());
            assert forall|i: int, j: int| 0 <= i < names.len() && 0 <= j < names.len() && i != j implies
                #[trigger] names[i] != #[trigger] names[j] by {
                lemma_increasing_distinct(s, i, j);
            }
            assert(names.no_duplicates());
            names.unique_seq_to_set();
        }
        self.entries.len()
    }

    /// The entries in increasing order of name.
    pub fn as_slice(&self) -> (r: &[(String, Vec<u8>)])
        ensures
            r@ == self.entry_seq(),
            names_increasing(r@),
    {
        proof {
            use_type_invariant(self);
        }
        self.entries.as_slice()
    }

    /// Position of the first entry whose name is not below `name`.
    fn find(&self, name: &str) -> (r: (usize, bool))
        ensures
            r.0 <= self.entries@.len(),
            forall|j: int| 0 <= j < r.0 ==> name_lt(#[trigger] self.entries@[j].0@, name@),
            r.1 ==> r.0 < self.entries@.len() && self.entries@[r.0 as int].0@ == name@,
            !r.1 ==> r.0 < self.entries@.len() ==> name_lt(name@, self.entries@[r.0 as int].0@),
    {
        let mut i: usize = 0;
        while i < self.entries.len()
            invariant
                i <= self.entries@.len(),
                forall|j: int| 0 <= j < i ==> name_lt(#[trigger] self.entries@[j].0@, name@),
            decreases self.entries@.len() - i,
        {
            match compare_names(self.entries[i].0.as_str(), name) {
                Ordering::Less => {},
                Ordering::Equal => {
                    return (i, true);
                },
                Ordering::Greater => {
                    return (i, false);
                },
            }
            i = i + 1;
        }
        (i, false)
    }

    /// Whether a member of this name is held.
    pub fn contains(&self, name: &str) -> (r: bool)
        ensures
            r == self@.contains_key(name@),
    {
        proof {
            use_type_invariant(self);
        }
        let (i, found) = self.find(name);
        proof {
            if !found {
                self.lemma_absent(name@, i as int, found);
            } else {
                lemma_map_of_at(self.entries@, i as int);
            }
        }
        found
    }

    /// The content held under `name`, if any.
    pub fn get(&self, name: &str) -> (r: Option<&Vec<u8>>)
        ensures
            r is Some == self@.contains_key(name@),
            r is Some ==> r->Some_0@ == self@[name@],
    {
        proof {
            use_type_invariant(self);
        }
        let (i, found) = self.find(name);
        proof {
            if !found {
                self.lemma_absent(name@, i as int, found);
            } else {
                lemma_map_of_at(self.entries@, i as int);
            }
        }
        if found {
            Some(&self.entries[i].1)
        } else {
            None
        }
    }

    proof fn lemma_absent(&self, k: Seq<char>, i: int, found: bool)
        requires
            names_increasing(self.entries@),
            0 <= i <= self.entries@.len(),
            forall|j: int| 0 <= j < i ==> name_lt(#[trigger] self.entries@[j].0@, k),
            !found ==> i < self.entries@.len() ==> name_lt(k, self.entries@[i].0@),
            !found,
        ensures
            !self@.contains_key(k),
    {
        let s = self.entries@;
        if self@.contains_key(k) {
            let j = choose|j: int| 0 <= j < s.len() && s[j].0@ == k;
            lemma_bytes_lt_irreflexive(encode_utf8(k), 0);
            if j > i {
                lemma_bytes_lt_transitive(encode_utf8(k), encode_utf8(s[i].0@), encode_utf8(s[j].0@), 0);
            }
        }
    }

    /// Puts `data` under `name`, in place of what was held there before.
    pub fn insert(&mut self, name: String, data: Vec<u8>)
        ensures
            final(self)@ == old(self)@.insert(name@, data@),
    {
        proof {
            use_type_invariant(&*self);
        }
        let (i, found) = self.find(name.as_str());
        let ghost s = self.entries@;
        let ghost k = name@;
        let ghost d = data@;
        if found {
            let mut v: Vec<(String, Vec<u8>)> = Vec::new();
            std::mem::swap(&mut self.entries, &mut v);
            v.set(i, (name, data));
            proof {
                let t = v@;
                assert forall|a: int, b: int| 0 <= a < b < t.len() implies name_lt(#[trigger] t[a].0@, #[trigger] t[b].0@) by {
                    assert(t[a].0@ == s[a].0@ && t[b].0@ == s[b].0@);
                }
                assert(names_increasing(t));
                assert forall|k2: Seq<char>| #[trigger] map_of(t).contains_key(k2) == map_of(s).insert(k, d).contains_key(k2) by {
                    if map_of(s).contains_key(k2) {
                        let j = choose|j: int| 0 <= j < s.len() && s[j].0@ == k2;
                        assert(t[j].0@ == k2);
                    }
                    if map_of(t).contains_key(k2) {
                        let j = choose|j: int| 0 <= j < t.len() && t[j].0@ == k2;
                        assert(s[j].0@ == k2);
                    }
                }
                assert forall|k2: Seq<char>| #[trigger] map_of(t).contains_key(k2) implies map_of(t)[k2] == map_of(s).insert(k, d)[k2] by {
                    let j = choose|j: int| 0 <= j < t.len() && t[j].0@ == k2;
                    lemma_map_of_at(t, j);
                    if j != i {
                        lemma_map_of_at(s, j);
                        lemma_increasing_distinct(t, i as int, j);
                    }
                }
                assert(map_of(t) =~= map_of(s).insert(k, d));
            }
            self.entries = v;
        } else {
            let mut v: Vec<(String, Vec<u8>)> = Vec::new();
            std::mem::swap(&mut self.entries, &mut v);
            v.insert(i, (name, data));
            proof {
                let t = v@;
                assert forall|a: int, b: int| 0 <= a < b < t.len() implies name_lt(#[trigger] t[a].0@, #[trigger] t[b].0@) by {
                    if b == i as int && a < i {
                    } else if a == i as int {
                        if b > i + 1 {
                            lemma_bytes_lt_transitive(encode_utf8(k), encode_utf8(s[i as int].0@), encode_utf8(s[b - 1].0@), 0);
                        }
                    } else if a < i && b > i {
                        assert(s[b - 1] == t[b]);
                    } else if a > i {
                        assert(s[a - 1] == t[a] && s[b - 1] == t[b]);
                    }
                }
                assert(names_increasing(t));
                self.lemma_absent_seq(s, k, i as int);
                assert forall|k2: Seq<char>| #[trigger] map_of(t).contains_key(k2) == map_of(s).insert(k, d).contains_key(k2) by {
                    if map_of(s).contains_key(k2) {
                        let j = choose|j: int| 0 <= j < s.len() && s[j].0@ == k2;
                        if j < i {
                            assert(t[j].0@ == k2);
                        } else {
                            assert(t[j + 1].0@ == k2);
                        }
                    }
                    if k2 == k {
                        assert(t[i as int].0@ == k2);
                    }
                    if map_of(t).contains_key(k2) && k2 != k {
                        let j = choose|j: int| 0 <= j < t.len() && t[j].0@ == k2;
                        if j < i {
                            assert(s[j].0@ == k2);
                        } else {
                            assert(s[j - 1].0@ == k2);
                        }
                    }
                }
                assert forall|k2: Seq<char>| #[trigger] map_of(t).contains_key(k2) implies map_of(t)[k2] == map_of(s).insert(k, d)[k2] by {
                    let j = choose|j: int| 0 <= j < t.len() && t[j].0@ == k2;
                    lemma_map_of_at(t, j);
                    if j < i {
                        lemma_map_of_at(s, j);
                    } else if j > i {
                        lemma_map_of_at(s, j - 1);
                    }
                }
                assert(map_of(t) =~= map_of(s).insert(k, d));
            }
            self.entries = v;
        }
    }

    proof fn lemma_absent_seq(&self, s: Seq<(String, Vec<u8>)>, k: Seq<char>, i: int)
        requires
            names_increasing(s),
            0 <= i <= s.len(),
            forall|j: int| 0 <= j < i ==> name_lt(#[trigger] s[j].0@, k),
            i < s.len() ==> name_lt(k, s[i].0@),
        ensures
            forall|j: int| 0 <= j < s.len() ==> #[trigger] s[j].0@ != k,
    {
        lemma_bytes_lt_irreflexive(encode_utf8(k), 0);
        assert forall|j: int| 0 <= j < s.len() implies #[trigger] s[j].0@ != k by {
            if j > i {
                lemma_bytes_lt_transitive(encode_utf8(k), encode_utf8(s[i].0@), encode_utf8(s[j].0@), 0);
            }
        }
    }

    /// Takes out what is held under `name`, if anything, and returns it.
    pub fn remove(&mut self, name: &str) -> (r: Option<Vec<u8>>)
        ensures
            final(self)@ == old(self)@.remove(name@),
            r is Some == old(self)@.contains_key(name@),
            r is Some ==> r->Some_0@ == old(self)@[name@],
    {
        proof {
            use_type_invariant(&*self);
        }
        let (i, found) = self.find(name);
        let ghost s = self.entries@;
        let ghost k = name@;
        if found {
            proof {
                lemma_map_of_at(s, i as int);
            }
            let mut v: Vec<(String, Vec<u8>)> = Vec::new();
            std::mem::swap(&mut self.entries, &mut v);
            let (_, data) = v.remove(i);
            proof {
                let t = v@;
                assert forall|a: int, b: int| 0 <= a < b < t.len() implies name_lt(#[trigger] t[a].0@, #[trigger] t[b].0@) by {
                    if a < i && b >= i {
                        assert(t[b] == s[b + 1]);
                    } else if a >= i {
                        assert(t[a] == s[a + 1] && t[b] == s[b + 1]);
                    }
                }
                assert(names_increasing(t));
                assert forall|k2: Seq<char>| #[trigger] map_of(t).contains_key(k2) == map_of(s).remove(k).contains_key(k2) by {
                    if map_of(s).contains_key(k2) && k2 != k {
                        let j = choose|j: int| 0 <= j < s.len() && s[j].0@ == k2;
                        if j < i {
                            assert(t[j].0@ == k2);
                        } else {
                            assert(t[j - 1].0@ == k2);
                        }
                    }
                    if map_of(t).contains_key(k2) {
                        let j = choose|j: int| 0 <= j < t.len() && t[j].0@ == k2;
                        if j < i {
                            assert(s[j].0@ == k2);
                            lemma_increasing_distinct(s, j, i as int);
                        } else {
                            assert(s[j + 1].0@ == k2);
                            lemma_increasing_distinct(s, j + 1, i as int);
                        }
                    }
                }
                assert forall|k2: Seq<char>| #[trigger] map_of(t).contains_key(k2) implies map_of(t)[k2] == map_of(s).remove(k)[k2] by {
                    let j = choose|j: int| 0 <= j < t.len() && t[j].0@ == k2;
                    lemma_map_of_at(t, j);
                    if j < i {
                        lemma_map_of_at(s, j);
                    } else {
                        lemma_map_of_at(s, j + 1);
                    }
                }
                assert(map_of(t) =~= map_of(s).remove(k));
            }
            self.entries = v;
            Some(data)
        } else {
            proof {
                self.lemma_absent(k, i as int, found);
                assert(map_of(s) =~= map_of(s).remove(k));
            }
            None
        }
    }
}

} // verus!

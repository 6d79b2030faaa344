use vstd::prelude::*;

verus! {

/// Results of the classification, keyed by the canonical text form of a graph:
/// `true` for an integral graph. Each key appears once.
pub struct Database {
    entries: Vec<(String, bool)>,
}

impl View for Database {
    type V = Map<Seq<char>, bool>;

    closed spec fn view(&self) -> Map<Seq<char>, bool> {
        Map::new(
            |k: Seq<char>| exists|i: int| 0 <= i < self.entries@.len() && #[trigger] self.entries@[i].0@ == k,
            |k: Seq<char>|
                self.entries@[choose|i: int|
                    0 <= i < self.entries@.len() && #[trigger] self.entries@[i].0@ == k].1,
        )
    }
}

/// The label written for a result in the persisted form.
pub open spec fn label_spec(integral: bool) -> Seq<char> {
    if integral {
        "INTEGRAL"@
    } else {
        "boring"@
    }
}

impl Database {
    /// No key appears twice.
    pub closed spec fn wf(self) -> bool {
        forall|i: int, j: int|
            0 <= i < j < self.entries@.len() ==> #[trigger] self.entries@[i].0@ != #[trigger] self.entries@[j].0@
    }

    /// An empty database.
    pub fn new() -> (r: Self)
        ensures
            r.wf(),
            r@ == Map::<Seq<char>, bool>::empty(),
    {
        let r = Database { entries: Vec::new() };
        assert(r@ =~= Map::<Seq<char>, bool>::empty());
        r
    }

    /// The position of `key`, if stored.
    fn find(&self, key: &String) -> (r: Option<usize>)
        requires
            self.wf(),
        ensures
            r matches Some(i) ==> i < self.entries@.len() && self.entries@[i as int].0@ == key@,
            r is None ==> !self@.contains_key(key@),
    {
        let mut i: usize = 0;
        while i < self.entries.len()
            invariant
                i <= self.entries@.len(),
                forall|k: int| 0 <= k < i ==> #[trigger] self.entries@[k].0@ != key@,
            decreases self.entries@.len() - i,
        {
            if self.entries[i].0 == *key {
                return Some(i);
            }
            i = i + 1;
        }
        None
    }

    /// Stores `value` under `key`, replacing an earlier value.
    pub fn insert(&mut self, key: String, value: bool)
        requires
            old(self).wf(),
        ensures
            final(self).wf(),
            final(self)@ == old(self)@.insert(key@, value),
    {
        let ghost k = key@;
        match self.find(&key) {
            Some(i) => {
                let ghost before = self.entries@;
                self.entries.set(i, (key, value));
                proof {
                    assert forall|k2: Seq<char>| #[trigger]
                        self@.contains_key(k2) == old(self)@.insert(k, value).contains_key(k2) by {
                        if old(self)@.contains_key(k2) {
                            let j = choose|j: int| 0 <= j < before.len() && #[trigger] before[j].0@ == k2;
                            if j != i {
                                assert(self.entries@[j].0@ == k2);
                            }
                        }
                        if self@.contains_key(k2) && k2 != k {
                            let j = choose|j: int|
                                0 <= j < self.entries@.len() && #[trigger] self.entries@[j].0@ == k2;
                            assert(before[j].0@ == k2);
                        }
                        if k2 == k {
                            assert(self.entries@[i as int].0@ == k);
                        }
                    }
                    assert(self@ =~= old(self)@.insert(k, value));
                }
            },
            None => {
                let ghost before = self.entries@;
                self.entries.push((key, value));
                proof {
                    assert forall|k2: Seq<char>| #[trigger]
                        self@.contains_key(k2) == old(self)@.insert(k, value).contains_key(k2) by {
                        if old(self)@.contains_key(k2) {
                            let j = choose|j: int| 0 <= j < before.len() && #[trigger] before[j].0@ == k2;
                            assert(self.entries@[j].0@ == k2);
                        }
                        if self@.contains_key(k2) && k2 != k {
                            let j = choose|j: int|
                                0 <= j < self.entries@.len() && #[trigger] self.entries@[j].0@ == k2;
                            assert(before[j].0@ == k2);
                        }
                        if k2 == k {
                            assert(self.entries@[before.len() as int].0@ == k);
                        }
                    }
                    assert(self@ =~= old(self)@.insert(k, value));
                }
            },
        }
    }

    /// The value stored under `key`, if any.
    pub fn get(&self, key: &str) -> (r: Option<bool>)
        requires
            self.wf(),
        ensures
            self@.contains_key(key@) ==> r == Some(self@[key@]),
            !self@.contains_key(key@) ==> r is None,
    {
        let owned = key.to_owned();
        match self.find(&owned) {
            Some(i) => Some(self.entries[i].1),
            None => None,
        }
    }

    /// The stored pairs, each key once.
    pub fn entries(&self) -> (r: &Vec<(String, bool)>)
        requires
            self.wf(),
        ensures
            forall|i: int|
                0 <= i < r@.len() ==> self@.contains_key(#[trigger] r@[i].0@) && self@[r@[i].0@]
                    == r@[i].1,
            forall|k: Seq<char>|
                #[trigger] self@.contains_key(k) ==> exists|i: int| 0 <= i < r@.len() && r@[i].0@ == k,
    {
        &self.entries
    }
}

/// The label for a result in the persisted form: `INTEGRAL` or `boring`.
pub fn label(integral: bool) -> (r: &'static str)
    ensures
        r@ == label_spec(integral),
{
    proof {
        reveal_strlit("INTEGRAL");
        reveal_strlit("boring");
    }
    if integral {
        "INTEGRAL"
    } else {
        "boring"
    }
}

/// The label of a result as ASCII bytes.
pub open spec fn label_bytes(integral: bool) -> Seq<u8> {
    if integral {
        seq![73u8, 78u8, 84u8, 69u8, 71u8, 82u8, 65u8, 76u8]
    } else {
        seq![98u8, 111u8, 114u8, 105u8, 110u8, 103u8]
    }
}

/// `p` is the position of the first space in `line`.
pub open spec fn first_space(line: Seq<u8>, p: int) -> bool {
    &&& 0 <= p < line.len()
    &&& line[p] == 32
    &&& forall|i: int| 0 <= i < p ==> line[i] != 32
}

/// `line` reads `<key> <label>`, split at its first space, the label `INTEGRAL`
/// or `boring` and nothing after it; `p` is the position of that space.
pub open spec fn parses_as(line: Seq<u8>, p: int, integral: bool) -> bool {
    first_space(line, p) && line.subrange(p + 1, line.len() as int) == label_bytes(integral)
}

/// Whether `line[start..]` equals `expected`.
fn tail_equals(line: &[u8], start: usize, expected: &Vec<u8>) -> (r: bool)
    requires
        start <= line@.len(),
    ensures
        r == (line@.subrange(start as int, line@.len() as int) == expected@),
{
    if line.len() - start != expected.len() {
        proof {
            assert(line@.subrange(start as int, line@.len() as int).len() != expected@.len());
        }
        return false;
    }
    let n = line.len();
    let mut i: usize = 0;
    while i < expected.len()
        invariant
            n == line@.len(),
            start <= line@.len(),
            line@.len() - start == expected@.len(),
            i <= expected@.len(),
            forall|k: int| 0 <= k < i ==> line@[start + k] == expected@[k],
        decreases expected@.len() - i,
    {
        if line[start + i] != expected[i] {
            proof {
                assert(line@.subrange(start as int, line@.len() as int)[i as int] != expected@[i as int]);
            }
            return false;
        }
        i = i + 1;
    }
    assert(line@.subrange(start as int, line@.len() as int) =~= expected@);
    true
}

/// Reads one persisted line `<key> <label>`: the position of the space that ends
/// the key, and the result the label stands for. `None` for a line without a
/// space or with anything but exactly `INTEGRAL` or `boring` after it.
pub fn parse_entry(line: &[u8]) -> (r: Option<(usize, bool)>)
    ensures
        r matches Some(t) ==> parses_as(line@, t.0 as int, t.1),
        r is None ==> forall|p: int, b: bool| !parses_as(line@, p, b),
{
    let mut p: usize = 0;
    while p < line.len() && line[p] != 32
        invariant
            p <= line@.len(),
            forall|i: int| 0 <= i < p ==> line@[i] != 32,
        decreases line@.len() - p,
    {
        p = p + 1;
    }
    if p == line.len() {
        return None;
    }
    let integral_label: Vec<u8> = vec![73u8, 78u8, 84u8, 69u8, 71u8, 82u8, 65u8, 76u8];
    let boring_label: Vec<u8> = vec![98u8, 111u8, 114u8, 105u8, 110u8, 103u8];
    assert(integral_label@ =~= label_bytes(true));
    assert(boring_label@ =~= label_bytes(false));
    assert(first_space(line@, p as int));
    proof {
        assert forall|q: int| first_space(line@, q) implies q == p by {
            if q < p {
                assert(line@[q] != 32);
            } else if q > p {
                assert(line@[p as int] != 32);
            }
        }
    }
    if tail_equals(line, p + 1, &integral_label) {
        Some((p, true))
    } else if tail_equals(line, p + 1, &boring_label) {
        Some((p, false))
    } else {
        None
    }
}

} // verus!

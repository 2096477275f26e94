//! Maps by name, and words of a text.

use vstd::prelude::*;
use crate::text;

verus! {

/// The order of names: by their characters, the first that differs deciding, a beginning before what
/// it begins.
pub open spec fn precedes(a: Seq<char>, b: Seq<char>) -> bool
    decreases a.len(),
{
    if b.len() == 0 {
        false
    } else if a.len() == 0 {
        true
    } else if a[0] != b[0] {
        a[0] < b[0]
    } else {
        precedes(a.skip(1), b.skip(1))
    }
}

/// Names in order, each once.
pub open spec fn ascending(names: Seq<Seq<char>>) -> bool {
    forall|i: int, j: int| 0 <= i < j < names.len() ==> precedes(#[trigger] names[i], #[trigger] names[j])
}

/// No name comes before itself.
pub proof fn lemma_precedes_irreflexive(a: Seq<char>)
    ensures
        !precedes(a, a),
    decreases a.len(),
{
    if a.len() > 0 {
        lemma_precedes_irreflexive(a.skip(1));
    }
}

/// A name that comes before another comes before all that the other comes before.
pub proof fn lemma_precedes_transitive(a: Seq<char>, b: Seq<char>, c: Seq<char>)
    requires
        precedes(a, b),
        precedes(b, c),
    ensures
        precedes(a, c),
    decreases a.len(),
{
    if a.len() > 0 && a[0] == b[0] && b[0] == c[0] {
        lemma_precedes_transitive(a.skip(1), b.skip(1), c.skip(1));
    }
}

/// Of two names one comes before the other, or they are the same.
pub proof fn lemma_precedes_total(a: Seq<char>, b: Seq<char>)
    ensures
        precedes(a, b) || precedes(b, a) || a == b,
    decreases a.len(),
{
    if a.len() == 0 || b.len() == 0 {
        if a.len() == b.len() {
            assert(a =~= b);
        }
    } else if a[0] == b[0] {
        lemma_precedes_total(a.skip(1), b.skip(1));
        if a.skip(1) == b.skip(1) {
            assert(a =~= seq![a[0]] + a.skip(1));
            assert(b =~= seq![b[0]] + b.skip(1));
        }
    }
}

/// Whether a name comes before another.
pub fn comes_before(a: &str, b: &str) -> (r: bool)
    ensures
        r == precedes(a@, b@),
{
    let x: Vec<char> = text::to_chars(a);
    let y: Vec<char> = text::to_chars(b);
    let mut i: usize = 0;
    assert(x@.skip(0) =~= x@ && y@.skip(0) =~= y@);
    while i < x.len() && i < y.len() && x[i] == y[i]
        invariant
            x@ == a@,
            y@ == b@,
            i <= x@.len(),
            i <= y@.len(),
            precedes(x@.skip(i as int), y@.skip(i as int)) == precedes(a@, b@),
        decreases x@.len() - i,
    {
        assert(x@.skip(i as int).skip(1) =~= x@.skip(i + 1));
        assert(y@.skip(i as int).skip(1) =~= y@.skip(i + 1));
        i = i + 1;
    }
    if i >= y.len() {
        false
    } else if i >= x.len() {
        true
    } else {
        x[i] < y[i]
    }
}

/// The names of entries, in their order.
pub open spec fn entry_names<V>(entries: Seq<(String, V)>) -> Seq<Seq<char>> {
    Seq::new(entries.len(), |i: int| entries[i].0@)
}

/// What entries map their names to.
pub open spec fn entry_map<V>(entries: Seq<(String, V)>) -> Map<Seq<char>, V> {
    Map::new(
        |k: Seq<char>| entry_names(entries).contains(k),
        |k: Seq<char>| entries[entry_names(entries).index_of(k)].1,
    )
}

/// In ascending entries each name has the one place it is found at.
proof fn lemma_entry<V>(entries: Seq<(String, V)>, i: int)
    requires
        ascending(entry_names(entries)),
        0 <= i < entries.len(),
    ensures
        entry_map(entries).contains_key(entries[i].0@),
        entry_map(entries)[entries[i].0@] == entries[i].1,
{
    let names = entry_names(entries);
    let k = names[i];
    assert(names.contains(k));
    let j = names.index_of(k);
    assert(names[j] == k);
    lemma_precedes_irreflexive(k);
}

/// A map by name, its entries in the order of their names.
#[derive(Debug, PartialEq)]
pub struct NameMap<V> {
    entries: Vec<(String, V)>,
}

impl<V> View for NameMap<V> {
    type V = Map<Seq<char>, V>;

    closed spec fn view(&self) -> Map<Seq<char>, V> {
        entry_map(self.entries@)
    }
}

/// The first place whose name does not come before another: where it stands, or would.
fn place_of<V>(entries: &Vec<(String, V)>, name: &str) -> (r: usize)
    requires
        ascending(entry_names(entries@)),
    ensures
        r <= entries@.len(),
        forall|j: int| 0 <= j < r ==> precedes(#[trigger] entry_names(entries@)[j], name@),
        forall|j: int| r <= j < entries@.len() ==> !precedes(#[trigger] entry_names(entries@)[j], name@),
        entry_map(entries@).contains_key(name@) <==> r < entries@.len() && entries@[r as int].0@ == name@,
{
    let ghost names = entry_names(entries@);
    let mut lo: usize = 0;
    let mut hi: usize = entries.len();
    while lo < hi
        invariant
            lo <= hi <= entries@.len(),
            names == entry_names(entries@),
            ascending(names),
            forall|j: int| 0 <= j < lo ==> precedes(#[trigger] names[j], name@),
            forall|j: int| hi <= j < entries@.len() ==> !precedes(#[trigger] names[j], name@),
        decreases hi - lo,
    {
        let mid: usize = lo + (hi - lo) / 2;
        if comes_before(entries[mid].0.as_str(), name) {
            assert forall|j: int| 0 <= j < mid + 1 implies precedes(#[trigger] names[j], name@) by {
                if j < mid {
                    lemma_precedes_transitive(names[j], names[mid as int], name@);
                }
            }
            lo = mid + 1;
        } else {
            assert forall|j: int| mid <= j < entries@.len() implies !precedes(#[trigger] names[j], name@) by {
                if j > mid && precedes(names[j], name@) {
                    lemma_precedes_transitive(names[mid as int], names[j], name@);
                }
            }
            hi = mid;
        }
    }
    proof {
        lemma_precedes_irreflexive(name@);
        if names.contains(name@) {
            let j = names.index_of(name@);
            assert(names[j] == name@);
            if j != lo {
                assert(precedes(names[lo as int], names[j]));
            }
        }
        if lo < entries@.len() && entries@[lo as int].0@ == name@ {
            assert(names[lo as int] == name@);
        }
    }
    lo
}

impl<V> NameMap<V> {
    #[verifier::type_invariant]
    spec fn ordered(self) -> bool {
        ascending(entry_names(self.entries@))
    }

    pub fn new() -> (r: NameMap<V>)
        ensures
            r@ == Map::<Seq<char>, V>::empty(),
    {
        let r: NameMap<V> = NameMap { entries: Vec::new() };
        assert(r@ =~= Map::<Seq<char>, V>::empty());
        r
    }

    /// Sets the value of a name, in place of an earlier one.
    pub fn insert(&mut self, name: String, value: V)
        ensures
            final(self)@ == old(self)@.insert(name@, value),
    {
        proof {
            use_type_invariant(&*self);
        }
        let mut entries: Vec<(String, V)> = Vec::new();
        std::mem::swap(&mut entries, &mut self.entries);
        let p: usize = place_of(&entries, name.as_str());
        let ghost before = entries@;
        let ghost key = name@;
        if p < entries.len() && *entries[p].0.as_str() == *name.as_str() {
            entries.set(p, (name, value));
            proof {
                assert(entry_names(entries@) =~= entry_names(before));
                lemma_entry_map(before, entries@, p as int, key, value);
            }
        } else {
            entries.insert(p, (name, value));
            proof {
                let (a, b) = (entry_names(before), entry_names(entries@));
                assert(b =~= a.insert(p as int, key));
                assert forall|i: int, j: int| 0 <= i < j < b.len() implies precedes(
                    #[trigger] b[i],
                    #[trigger] b[j],
                ) by {
                    if j == p {
                        assert(b[i] == a[i]);
                    } else if i == p {
                        assert(b[j] == a[j - 1]);
                        lemma_precedes_total(key, a[j - 1]);
                        if a[j - 1] == key {
                            assert(a.contains(key));
                            assert(entry_map(before).contains_key(key));
                        }
                    } else {
                        let x = if i < p { i } else { i - 1 };
                        let y = if j < p { j } else { j - 1 };
                        assert(b[i] == a[x] && b[j] == a[y]);
                    }
                }
                lemma_entry_map(before, entries@, p as int, key, value);
            }
        }
        self.entries = entries;
    }

    pub fn get(&self, name: &str) -> (r: Option<&V>)
        ensures
            match r {
                Some(v) => self@.contains_key(name@) && *v == self@[name@],
                None => !self@.contains_key(name@),
            },
    {
        proof {
            use_type_invariant(self);
        }
        let p: usize = place_of(&self.entries, name);
        if p < self.entries.len() && *self.entries[p].0.as_str() == *name {
            proof {
                lemma_entry(self.entries@, p as int);
            }
            Some(&self.entries[p].1)
        } else {
            None
        }
    }

    pub fn contains_key(&self, name: &str) -> (r: bool)
        ensures
            r == self@.contains_key(name@),
    {
        self.get(name).is_some()
    }

    /// How many names there are.
    pub fn len(&self) -> (r: usize)
        ensures
            r == self@.dom().len(),
            self@.dom().finite(),
    {
        proof {
            use_type_invariant(self);
            let names = entry_names(self.entries@);
            lemma_ascending_once(names);
            names.unique_seq_to_set();
            assert(self@.dom() =~= names.to_set());
        }
        self.entries.len()
    }

    /// Whether there is no name.
    pub fn is_empty(&self) -> (r: bool)
        ensures
            r <==> self@ == Map::<Seq<char>, V>::empty(),
    {
        proof {
            if self.entries@.len() == 0 {
                assert(self@ =~= Map::<Seq<char>, V>::empty());
            } else {
                let names = entry_names(self.entries@);
                assert(names.contains(names[0]));
                assert(self@.contains_key(names[0]));
                assert(!Map::<Seq<char>, V>::empty().contains_key(names[0]));
            }
        }
        self.entries.len() == 0
    }

    /// The names there are, in their order, each once.
    pub fn names(&self) -> (r: Vec<String>)
        ensures
            ascending(text_views(r@)),
            forall|k: Seq<char>| #[trigger] text_views(r@).contains(k) <==> self@.contains_key(k),
            text_views(r@).no_duplicates(),
    {
        proof {
            use_type_invariant(self);
        }
        let mut out: Vec<String> = Vec::new();
        let mut i: usize = 0;
        while i < self.entries.len()
            invariant
                i <= self.entries@.len(),
                text_views(out@) == entry_names(self.entries@).take(i as int),
            decreases self.entries@.len() - i,
        {
            let ghost done = text_views(out@);
            out.push(self.entries[i].0.clone());
            assert(text_views(out@) =~= done.push(self.entries@[i as int].0@));
            assert(text_views(out@) =~= entry_names(self.entries@).take(i + 1));
            i = i + 1;
        }
        assert(text_views(out@) =~= entry_names(self.entries@));
        proof {
            lemma_ascending_once(text_views(out@));
        }
        out
    }
}

proof fn lemma_ascending_once(names: Seq<Seq<char>>)
    requires
        ascending(names),
    ensures
        names.no_duplicates(),
{
    assert forall|i: int, j: int| 0 <= i < names.len() && 0 <= j < names.len() && i != j implies names[i]
        != names[j] by {
        lemma_precedes_irreflexive(names[i]);
        if i < j {
            assert(precedes(names[i], names[j]));
        } else {
            assert(precedes(names[j], names[i]));
        }
    }
}

/// Entries with one set or put in at a place map as before but for its name.
proof fn lemma_entry_map<V>(before: Seq<(String, V)>, after: Seq<(String, V)>, p: int, name: Seq<char>, value: V)
    requires
        ascending(entry_names(before)),
        ascending(entry_names(after)),
        0 <= p < after.len(),
        after[p].0@ == name,
        after[p].1 == value,
        (p < before.len() && before[p].0@ == name && after == before.update(p, after[p])) || (p <= before.len()
            && after == before.insert(p, after[p])),
    ensures
        entry_map(after) == entry_map(before).insert(name, value),
{
    let (a, b) = (entry_names(before), entry_names(after));
    lemma_entry(after, p);
    let want = entry_map(before).insert(name, value);
    assert forall|k: Seq<char>| entry_map(after).contains_key(k) <==> want.contains_key(k) by {
        if k != name {
            if a.contains(k) {
                let i = a.index_of(k);
                let j = if after.len() == before.len() || i < p { i } else { i + 1 };
                assert(b[j] == k);
            }
            if b.contains(k) {
                let j = b.index_of(k);
                let i = if after.len() == before.len() || j < p { j } else { j - 1 };
                assert(a[i] == k);
            }
        }
    }
    assert forall|k: Seq<char>| entry_map(after).contains_key(k) implies entry_map(after)[k] == want[k] by {
        if k != name {
            let j = b.index_of(k);
            let i = if after.len() == before.len() || j < p { j } else { j - 1 };
            assert(after[j] == before[i]);
            assert(a[i] == k);
            lemma_entry(before, i);
            lemma_entry(after, j);
        }
    }
    assert(entry_map(after) =~= want);
}

impl<V> Default for NameMap<V> {
    fn default() -> (r: NameMap<V>)
        ensures
            r@ == Map::<Seq<char>, V>::empty(),
    {
        NameMap::new()
    }
}

impl<V: Clone> Clone for NameMap<V> {
    fn clone(&self) -> (r: NameMap<V>)
        ensures
            r@.dom() == self@.dom(),
            forall|k: Seq<char>| #[trigger] r@.contains_key(k) ==> cloned(self@[k], r@[k]),
    {
        proof {
            use_type_invariant(self);
        }
        let mut entries: Vec<(String, V)> = Vec::new();
        let mut i: usize = 0;
        while i < self.entries.len()
            invariant
                i <= self.entries@.len(),
                entries@.len() == i,
                forall|j: int|
                    0 <= j < i ==> (#[trigger] entries@[j]).0@ == self.entries@[j].0@ && cloned(
                        self.entries@[j].1,
                        entries@[j].1,
                    ),
            decreases self.entries@.len() - i,
        {
            let name: String = self.entries[i].0.clone();
            let value: V = self.entries[i].1.clone();
            entries.push((name, value));
            i = i + 1;
        }
        assert(entry_names(entries@) =~= entry_names(self.entries@));
        let r: NameMap<V> = NameMap { entries };
        proof {
            assert(r@.dom() =~= self@.dom());
            assert forall|k: Seq<char>| #[trigger] r@.contains_key(k) implies cloned(self@[k], r@[k]) by {
                let j = entry_names(r.entries@).index_of(k);
                assert(entry_names(r.entries@).contains(k));
                assert(r.entries@[j].0@ == self.entries@[j].0@);
            }
        }
        r
    }
}

/// What belongs to a word.
#[derive(Clone, Copy)]
pub enum WordKind {
    /// Anything but white space.
    Solid,
    /// Anything but a blank, a comma or a brace.
    ListItem,
    /// Letters, digits, `_`, `[` and `]`.
    Identifier,
}

/// Unicode white space.
pub open spec fn white_space(c: char) -> bool {
    let x = c as u32;
    (0x9 <= x <= 0xd) || x == 0x20 || x == 0x85 || x == 0xa0 || x == 0x1680 || (0x2000 <= x <= 0x200a) || x
        == 0x2028 || x == 0x2029 || x == 0x202f || x == 0x205f || x == 0x3000
}

pub open spec fn in_word(kind: WordKind, c: char) -> bool {
    match kind {
        WordKind::Solid => !white_space(c),
        WordKind::ListItem => c != ' ' && c != ',' && c != '{' && c != '}',
        WordKind::Identifier => ('a' <= c <= 'z') || ('A' <= c <= 'Z') || ('0' <= c <= '9') || c == '_' || c
            == '[' || c == ']',
    }
}

/// The first position from `i` on where a character does (`inside`) or does not belong to a word.
pub open spec fn boundary(kind: WordKind, s: Seq<char>, i: int, inside: bool) -> int
    decreases s.len() - i,
{
    if i >= s.len() || in_word(kind, s[i]) == inside {
        i
    } else {
        boundary(kind, s, i + 1, inside)
    }
}

/// A boundary of words is found at or behind where it is sought, within the text.
pub proof fn lemma_boundary(kind: WordKind, s: Seq<char>, i: int, inside: bool)
    requires
        0 <= i <= s.len(),
    ensures
        i <= boundary(kind, s, i, inside) <= s.len(),
        boundary(kind, s, i, inside) < s.len() ==> in_word(kind, s[boundary(kind, s, i, inside)]) == inside,
    decreases s.len() - i,
{
    if i < s.len() && in_word(kind, s[i]) != inside {
        lemma_boundary(kind, s, i + 1, inside);
    }
}

/// The words from `i` on: the longest runs of characters that belong to one.
pub open spec fn words(kind: WordKind, s: Seq<char>, i: int) -> Seq<Seq<char>>
    decreases s.len() - i,
{
    let start = boundary(kind, s, i, true);
    let end = boundary(kind, s, start, false);
    if i < 0 || i >= s.len() || start >= s.len() {
        Seq::empty()
    } else {
        proof {
            lemma_boundary(kind, s, i, true);
            lemma_boundary(kind, s, start + 1, false);
        }
        seq![s.subrange(start, end)] + words(kind, s, end)
    }
}

pub open spec fn text_views(v: Seq<String>) -> Seq<Seq<char>> {
    Seq::new(v.len(), |i: int| v[i]@)
}

fn belongs(kind: WordKind, c: char) -> (r: bool)
    ensures
        r == in_word(kind, c),
{
    match kind {
        WordKind::Solid => {
            let x: u32 = c as u32;
            !((0x9 <= x && x <= 0xd) || x == 0x20 || x == 0x85 || x == 0xa0 || x == 0x1680 || (0x2000 <= x && x
                <= 0x200a) || x == 0x2028 || x == 0x2029 || x == 0x202f || x == 0x205f || x == 0x3000)
        },
        WordKind::ListItem => c != ' ' && c != ',' && c != '{' && c != '}',
        WordKind::Identifier => ('a' <= c && c <= 'z') || ('A' <= c && c <= 'Z') || ('0' <= c && c <= '9') || c
            == '_' || c == '[' || c == ']',
    }
}

fn find_boundary(kind: WordKind, c: &Vec<char>, from: usize, inside: bool) -> (r: usize)
    requires
        from <= c@.len(),
    ensures
        r == boundary(kind, c@, from as int, inside),
        from <= r <= c@.len(),
{
    let mut i: usize = from;
    while i < c.len() && belongs(kind, c[i]) != inside
        invariant
            from <= i <= c@.len(),
            boundary(kind, c@, i as int, inside) == boundary(kind, c@, from as int, inside),
        decreases c@.len() - i,
    {
        i = i + 1;
    }
    i
}

/// The words of a text, in order.
pub fn split_words(kind: WordKind, s: &str) -> (r: Vec<String>)
    ensures
        text_views(r@) == words(kind, s@, 0),
{
    let c: Vec<char> = text::to_chars(s);
    let mut out: Vec<String> = Vec::new();
    let mut i: usize = 0;
    assert(text_views(out@) + words(kind, s@, 0) =~= words(kind, s@, 0));
    loop
        invariant
            c@ == s@,
            i <= c@.len(),
            text_views(out@) + words(kind, s@, i as int) == words(kind, s@, 0),
        decreases c@.len() - i,
    {
        let start: usize = find_boundary(kind, &c, i, true);
        proof {
            lemma_boundary(kind, s@, i as int, true);
        }
        if start >= c.len() {
            assert(words(kind, s@, i as int) =~= Seq::<Seq<char>>::empty());
            assert(text_views(out@) + words(kind, s@, i as int) =~= text_views(out@));
            return out;
        }
        let end: usize = find_boundary(kind, &c, start, false);
        proof {
            lemma_boundary(kind, s@, start + 1, false);
        }
        let ghost done = text_views(out@);
        let word: String = text::slice(&c, start, end);
        let ghost next = word@;
        out.push(word);
        assert(text_views(out@) =~= done.push(next));
        assert(text_views(out@) + words(kind, s@, end as int) =~= done + words(kind, s@, i as int));
        i = end;
    }
}

/// Whether a name is among others.
pub fn contains(v: &Vec<String>, name: &str) -> (r: bool)
    ensures
        r == text_views(v@).contains(name@),
{
    let mut i: usize = 0;
    while i < v.len()
        invariant
            i <= v@.len(),
            forall|j: int| 0 <= j < i ==> #[trigger] v@[j]@ != name@,
        decreases v@.len() - i,
    {
        if *v[i].as_str() == *name {
            assert(text_views(v@)[i as int] == name@);
            return true;
        }
        i = i + 1;
    }
    false
}

} // verus!

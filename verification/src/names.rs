//! Sets of names in order, and texts kept under a name.
use crate::frame::arithmetic::order_bytes;
use crate::text::same;
use vstd::prelude::*;
use vstd::string::*;

verus! {

/// One text comes before another, byte for byte.
pub open spec fn before(a: Seq<char>, b: Seq<char>) -> bool {
    crate::frame::machine::byte_order(
        vstd::utf8::encode_utf8(a),
        vstd::utf8::encode_utf8(b),
    ) < 0
}

/// The texts of a list.
pub open spec fn texts(list: Seq<String>) -> Seq<Seq<char>> {
    Seq::new(list.len(), |i: int| list[i]@)
}

/// Each of these comes before those after it.
pub open spec fn ascending(list: Seq<Seq<char>>) -> bool {
    forall|i: int, j: int|
        #![trigger list[i], list[j]]
        0 <= i < j < list.len() ==> before(list[i], list[j])
}

proof fn lemma_order_of_equals(a: Seq<u8>, b: Seq<u8>)
    ensures
        crate::frame::machine::byte_order(a, b) == 0 <==> a == b,
    decreases a.len(),
{
    if a.len() > 0 && b.len() > 0 {
        lemma_order_of_equals(a.skip(1), b.skip(1));
        if a[0] == b[0] && a.skip(1) == b.skip(1) {
            assert(a =~= b) by {
                assert forall|i: int| 0 <= i < a.len() implies a[i] == b[i] by {
                    if i > 0 {
                        assert(a[i] == a.skip(1)[i - 1]);
                        assert(b[i] == b.skip(1)[i - 1]);
                    }
                }
            }
        }
    } else if a.len() == 0 && b.len() == 0 {
        assert(a =~= b);
    }
}

proof fn lemma_order_the_other_way(a: Seq<u8>, b: Seq<u8>)
    ensures
        crate::frame::machine::byte_order(a, b) == -crate::frame::machine::byte_order(b, a),
    decreases a.len(),
{
    if a.len() > 0 && b.len() > 0 {
        lemma_order_the_other_way(a.skip(1), b.skip(1));
    }
}

proof fn lemma_order_goes_on(a: Seq<u8>, b: Seq<u8>, c: Seq<u8>)
    requires
        crate::frame::machine::byte_order(a, b) < 0,
        crate::frame::machine::byte_order(b, c) < 0,
    ensures
        crate::frame::machine::byte_order(a, c) < 0,
    decreases a.len(),
{
    if a.len() > 0 && b.len() > 0 && c.len() > 0 && a[0] == b[0] && b[0] == c[0] {
        lemma_order_goes_on(a.skip(1), b.skip(1), c.skip(1));
    }
}

/// Texts are ordered one way or the other unless they are the same.
pub proof fn lemma_before(a: Seq<char>, b: Seq<char>)
    ensures
        a == b || before(a, b) || before(b, a),
        !(before(a, b) && before(b, a)),
        a == b ==> !before(a, b),
{
    let x = vstd::utf8::encode_utf8(a);
    let y = vstd::utf8::encode_utf8(b);
    lemma_order_of_equals(x, y);
    lemma_order_the_other_way(x, y);
    vstd::utf8::encode_utf8_decode_utf8(a);
    vstd::utf8::encode_utf8_decode_utf8(b);
}

/// What comes before a text that comes before another comes before that too.
pub proof fn lemma_before_goes_on(a: Seq<char>, b: Seq<char>, c: Seq<char>)
    requires
        before(a, b),
        before(b, c),
    ensures
        before(a, c),
{
    lemma_order_goes_on(
        vstd::utf8::encode_utf8(a),
        vstd::utf8::encode_utf8(b),
        vstd::utf8::encode_utf8(c),
    );
}

/// Of two texts the one comes before the other whose byte is the lesser where
/// their bytes first differ.
pub proof fn names_are_ordered_by_the_first_byte_that_differs(a: Seq<char>, b: Seq<char>, at: int)
    requires
        ({
            let x = vstd::utf8::encode_utf8(a);
            let y = vstd::utf8::encode_utf8(b);
            0 <= at < x.len() && at < y.len() && x.take(at) == y.take(at) && x[at] < y[at]
        }),
    ensures
        before(a, b),
        !before(b, a),
{
    crate::frame::arithmetic::texts_are_ordered_by_the_first_byte_that_differs(
        vstd::utf8::encode_utf8(a),
        vstd::utf8::encode_utf8(b),
        at,
    );
}

/// A text comes before every longer one that begins with it.
pub proof fn a_name_comes_before_what_begins_with_it(a: Seq<char>, b: Seq<char>)
    requires
        ({
            let x = vstd::utf8::encode_utf8(a);
            let y = vstd::utf8::encode_utf8(b);
            x.len() < y.len() && y.take(x.len() as int) == x
        }),
    ensures
        before(a, b),
        !before(b, a),
{
    crate::frame::arithmetic::a_text_comes_before_what_begins_with_it(
        vstd::utf8::encode_utf8(a),
        vstd::utf8::encode_utf8(b),
    );
}

/// Whether one text comes before another.
pub fn comes_before(a: &str, b: &str) -> (yes: bool)
    ensures
        yes == before(a@, b@),
{
    order_bytes(&a.as_bytes_vec(), &b.as_bytes_vec()) < 0
}

/// A set of names, each once, in ascending order.
#[derive(Debug)]
pub struct Names {
    list: Vec<String>,
}

impl View for Names {
    type V = Seq<Seq<char>>;

    closed spec fn view(&self) -> Seq<Seq<char>> {
        texts(self.list@)
    }
}

impl Names {
    /// Each name stands once, in order.
    #[verifier::type_invariant]
    spec fn in_order(self) -> bool {
        ascending(texts(self.list@))
    }

    /// No names.
    pub fn new() -> (names: Names)
        ensures
            names@ == Seq::<Seq<char>>::empty(),
    {
        let names = Names { list: Vec::new() };
        proof {
            assert(names@ =~= Seq::<Seq<char>>::empty());
        }
        names
    }

    /// Whether a name is among these.
    pub fn contains(&self, name: &str) -> (yes: bool)
        ensures
            yes == self@.contains(name@),
    {
        let mut i: usize = 0;
        while i < self.list.len()
            invariant
                i <= self.list@.len(),
                forall|j: int| 0 <= j < i ==> #[trigger] self.list@[j]@ != name@,
            decreases self.list@.len() - i,
        {
            if same(self.list[i].as_str(), name) {
                proof {
                    assert(self@[i as int] == name@);
                }
                return true;
            }
            i = i + 1;
        }
        proof {
            if self@.contains(name@) {
                let j = choose|j: int| 0 <= j < self@.len() && self@[j] == name@;
                assert(self.list@[j]@ == name@);
            }
        }
        false
    }

    /// The names, in ascending order.
    pub fn list(&self) -> (list: &Vec<String>)
        ensures
            texts(list@) == self@,
            ascending(self@),
    {
        proof {
            use_type_invariant(self);
        }
        &self.list
    }

    /// Adds a name, if it is not among these already.
    pub fn insert(&mut self, name: String)
        ensures
            ascending(final(self)@),
            forall|x: Seq<char>| #[trigger]
                final(self)@.contains(x) <==> old(self)@.contains(x) || x == name@,
    {
        proof {
            use_type_invariant(&*self);
        }
        let ghost were = self@;
        let mut list: Vec<String> = Vec::new();
        std::mem::swap(&mut list, &mut self.list);
        let mut at: usize = 0;
        while at < list.len() && comes_before(list[at].as_str(), name.as_str())
            invariant
                at <= list@.len(),
                forall|j: int| 0 <= j < at ==> before(#[trigger] texts(list@)[j], name@),
            decreases list@.len() - at,
        {
            at = at + 1;
        }
        let known: bool = at < list.len() && same(list[at].as_str(), name.as_str());
        let ghost word = name@;
        if !known {
            list.insert(at, name);
        }
        proof {
            assert(texts(list@) =~= (if known {
                were
            } else {
                were.insert(at as int, word)
            }));
            lemma_put(were, at as int, word, texts(list@), known);
        }
        self.list = list;
    }
}

proof fn lemma_put(
    were: Seq<Seq<char>>,
    at: int,
    word: Seq<char>,
    now: Seq<Seq<char>>,
    known: bool,
)
    requires
        ascending(were),
        0 <= at <= were.len(),
        forall|j: int| 0 <= j < at ==> before(#[trigger] were[j], word),
        at < were.len() ==> !before(were[at], word),
        known == (at < were.len() && were[at] == word),
        now == (if known {
            were
        } else {
            were.insert(at, word)
        }),
    ensures
        ascending(now),
        forall|x: Seq<char>| #[trigger] now.contains(x) <==> were.contains(x) || x == word,
{
    if known {
        assert(were[at] == word);
    } else {
        assert forall|i: int, j: int|
            #![trigger now[i], now[j]]
            0 <= i < j < now.len() implies before(now[i], now[j]) by {
            if j == at {
                assert(now[i] == were[i]);
            } else if i == at {
                assert(now[j] == were[j - 1]);
                lemma_before(were[at], word);
                if j - 1 > at {
                    assert(before(were[at], were[j - 1]));
                    lemma_before_goes_on(word, were[at], were[j - 1]);
                }
            } else {
                let a = if i < at {
                    i
                } else {
                    i - 1
                };
                let b = if j < at {
                    j
                } else {
                    j - 1
                };
                assert(now[i] == were[a] && now[j] == were[b]);
            }
        }
        assert forall|x: Seq<char>| #[trigger] now.contains(x) <==> were.contains(x) || x
            == word by {
            if now.contains(x) {
                let j = choose|j: int| 0 <= j < now.len() && now[j] == x;
                if j < at {
                    assert(were[j] == x);
                } else if j > at {
                    assert(were[j - 1] == x);
                }
            }
            if were.contains(x) {
                let j = choose|j: int| 0 <= j < were.len() && were[j] == x;
                if j < at {
                    assert(now[j] == x);
                } else {
                    assert(now[j + 1] == x);
                }
            }
            if x == word {
                assert(now[at] == x);
            }
        }
    }
}

/// Texts, each kept under a name of its own.
#[derive(Debug)]
pub struct Table {
    entries: Vec<(String, String)>,
}

/// What a list of entries keeps: under each name the text of its entry.
pub open spec fn kept(entries: Seq<(String, String)>) -> Map<Seq<char>, Seq<char>>
    decreases entries.len(),
{
    if entries.len() == 0 {
        Map::empty()
    } else {
        kept(entries.drop_last()).insert(entries.last().0@, entries.last().1@)
    }
}

/// No two entries have the same name.
pub open spec fn distinct(entries: Seq<(String, String)>) -> bool {
    forall|i: int, j: int|
        #![trigger entries[i], entries[j]]
        0 <= i < j < entries.len() ==> entries[i].0@ != entries[j].0@
}

/// Where the names are distinct, each entry is what its name keeps.
proof fn lemma_kept(entries: Seq<(String, String)>)
    requires
        distinct(entries),
    ensures
        forall|i: int|
            #![trigger entries[i]]
            0 <= i < entries.len() ==> kept(entries).contains_key(entries[i].0@) && kept(
                entries,
            )[entries[i].0@] == entries[i].1@,
        forall|name: Seq<char>| #[trigger]
            kept(entries).contains_key(name) ==> exists|i: int|
                0 <= i < entries.len() && #[trigger] entries[i].0@ == name,
    decreases entries.len(),
{
    if entries.len() > 0 {
        let fewer = entries.drop_last();
        assert forall|i: int, j: int|
            #![trigger fewer[i], fewer[j]]
            0 <= i < j < fewer.len() implies fewer[i].0@ != fewer[j].0@ by {
            assert(fewer[i] == entries[i] && fewer[j] == entries[j]);
        }
        lemma_kept(fewer);
        let last = entries.len() - 1;
        assert forall|i: int| #![trigger entries[i]] 0 <= i < entries.len() implies kept(
            entries,
        ).contains_key(entries[i].0@) && kept(entries)[entries[i].0@] == entries[i].1@ by {
            if i < last {
                assert(fewer[i] == entries[i]);
                assert(entries[i].0@ != entries[last].0@);
            }
        }
        assert forall|name: Seq<char>| #[trigger]
            kept(entries).contains_key(name) implies exists|i: int|
            0 <= i < entries.len() && #[trigger] entries[i].0@ == name by {
            if name == entries[last].0@ {
                assert(entries[last].0@ == name);
            } else {
                assert(kept(fewer).contains_key(name));
                let i = choose|i: int| 0 <= i < fewer.len() && #[trigger] fewer[i].0@ == name;
                assert(entries[i].0@ == name);
            }
        }
    }
}

impl View for Table {
    type V = Map<Seq<char>, Seq<char>>;

    closed spec fn view(&self) -> Map<Seq<char>, Seq<char>> {
        kept(self.entries@)
    }
}

impl Table {
    /// No name is kept twice.
    #[verifier::type_invariant]
    spec fn wf(self) -> bool {
        distinct(self.entries@)
    }

    /// A table that keeps nothing.
    pub fn new() -> (table: Table)
        ensures
            table@ == Map::<Seq<char>, Seq<char>>::empty(),
    {
        Table { entries: Vec::new() }
    }

    /// Where a name's entry stands.
    fn find(&self, name: &str) -> (at: Option<usize>)
        ensures
            match at {
                Some(at) => at < self.entries@.len() && self.entries@[at as int].0@ == name@
                    && self@.contains_key(name@) && self@[name@] == self.entries@[at as int].1@,
                None => !self@.contains_key(name@) && forall|i: int|
                    0 <= i < self.entries@.len() ==> #[trigger] self.entries@[i].0@ != name@,
            },
    {
        proof {
            use_type_invariant(self);
            lemma_kept(self.entries@);
        }
        let mut i: usize = 0;
        while i < self.entries.len()
            invariant
                i <= self.entries@.len(),
                forall|j: int| 0 <= j < i ==> #[trigger] self.entries@[j].0@ != name@,
                forall|j: int|
                    #![trigger self.entries@[j]]
                    0 <= j < self.entries@.len() ==> self@.contains_key(self.entries@[j].0@)
                        && self@[self.entries@[j].0@] == self.entries@[j].1@,
            decreases self.entries@.len() - i,
        {
            if same(self.entries[i].0.as_str(), name) {
                return Some(i);
            }
            i = i + 1;
        }
        None
    }

    /// The text kept under a name.
    pub fn get(&self, name: &str) -> (text: Option<&String>)
        ensures
            match text {
                Some(t) => self@.contains_key(name@) && self@[name@] == t@,
                None => !self@.contains_key(name@),
            },
    {
        match self.find(name) {
            Some(at) => Some(&self.entries[at].1),
            None => None,
        }
    }

    /// Keeps a text under a name, in place of any kept there before.
    pub fn insert(&mut self, name: String, text: String)
        ensures
            final(self)@ == old(self)@.insert(name@, text@),
    {
        proof {
            use_type_invariant(&*self);
        }
        let at = self.find(name.as_str());
        let mut entries: Vec<(String, String)> = Vec::new();
        std::mem::swap(&mut entries, &mut self.entries);
        let ghost were = entries@;
        let ghost word = name@;
        let ghost said = text@;
        match at {
            Some(at) => {
                entries.set(at, (name, text));
            },
            None => {
                entries.push((name, text));
            },
        }
        proof {
            assert(distinct(entries@)) by {
                assert forall|i: int, j: int|
                    #![trigger entries@[i], entries@[j]]
                    0 <= i < j < entries@.len() implies entries@[i].0@ != entries@[j].0@ by {
                    if j < were.len() {
                        assert(were[i].0@ != were[j].0@);
                    }
                }
            }
            lemma_kept(were);
            lemma_kept(entries@);
            let now = kept(entries@);
            assert(now =~= kept(were).insert(word, said)) by {
                assert forall|x: Seq<char>| #[trigger] now.contains_key(x) <==> kept(
                    were,
                ).contains_key(x) || x == word by {
                    if now.contains_key(x) {
                        let i = choose|i: int|
                            0 <= i < entries@.len() && #[trigger] entries@[i].0@ == x;
                        if i < were.len() {
                            assert(were[i].0@ == x);
                        }
                    }
                    if kept(were).contains_key(x) {
                        let i = choose|i: int| 0 <= i < were.len() && #[trigger] were[i].0@ == x;
                        assert(entries@[i].0@ == x);
                    }
                    if x == word {
                        match at {
                            Some(a) => {
                                assert(entries@[a as int].0@ == x);
                            },
                            None => {
                                assert(entries@[were.len() as int].0@ == x);
                            },
                        }
                    }
                }
                assert forall|x: Seq<char>| #[trigger] now.contains_key(x) implies now[x] == kept(
                    were,
                ).insert(word, said)[x] by {
                    let i = choose|i: int|
                        0 <= i < entries@.len() && #[trigger] entries@[i].0@ == x;
                    if x != word {
                        assert(entries@[i] == were[i]);
                    } else {
                        match at {
                            Some(a) => {
                                assert(entries@[a as int].0@ == x);
                                assert(i == a as int) by {
                                    if i < a {
                                        assert(entries@[i].0@ != entries@[a as int].0@);
                                    }
                                    if a < i {
                                        assert(entries@[a as int].0@ != entries@[i].0@);
                                    }
                                }
                            },
                            None => {
                                if i < were.len() {
                                    assert(were[i].0@ == x);
                                }
                            },
                        }
                    }
                }
            }
        }
        self.entries = entries;
    }

    /// Drops what is kept under a name, and says whether anything was.
    pub fn remove(&mut self, name: &str) -> (found: bool)
        ensures
            found == old(self)@.contains_key(name@),
            final(self)@ == old(self)@.remove(name@),
    {
        proof {
            use_type_invariant(&*self);
        }
        let at = match self.find(name) {
            Some(at) => at,
            None => {
                proof {
                    assert(self@.remove(name@) =~= self@);
                }
                return false;
            },
        };
        let mut entries: Vec<(String, String)> = Vec::new();
        std::mem::swap(&mut entries, &mut self.entries);
        let ghost were = entries@;
        let _ = entries.remove(at);
        proof {
            assert(distinct(entries@)) by {
                assert forall|i: int, j: int|
                    #![trigger entries@[i], entries@[j]]
                    0 <= i < j < entries@.len() implies entries@[i].0@ != entries@[j].0@ by {
                    let a = if i < at {
                        i
                    } else {
                        i + 1
                    };
                    let b = if j < at {
                        j
                    } else {
                        j + 1
                    };
                    assert(were[a].0@ != were[b].0@);
                }
            }
            lemma_kept(were);
            lemma_kept(entries@);
            let now = kept(entries@);
            assert(now =~= kept(were).remove(name@)) by {
                assert forall|x: Seq<char>| #[trigger] now.contains_key(x) <==> kept(
                    were,
                ).contains_key(x) && x != name@ by {
                    if now.contains_key(x) {
                        let i = choose|i: int|
                            0 <= i < entries@.len() && #[trigger] entries@[i].0@ == x;
                        let a = if i < at {
                            i
                        } else {
                            i + 1
                        };
                        assert(were[a].0@ == x);
                        if a < at {
                            assert(were[a].0@ != were[at as int].0@);
                        } else {
                            assert(were[at as int].0@ != were[a].0@);
                        }
                    }
                    if kept(were).contains_key(x) && x != name@ {
                        let i = choose|i: int| 0 <= i < were.len() && #[trigger] were[i].0@ == x;
                        if i < at {
                            assert(entries@[i].0@ == x);
                        } else {
                            assert(entries@[i - 1].0@ == x);
                        }
                    }
                }
                assert forall|x: Seq<char>| #[trigger] now.contains_key(x) implies now[x] == kept(
                    were,
                )[x] by {
                    let i = choose|i: int|
                        0 <= i < entries@.len() && #[trigger] entries@[i].0@ == x;
                    let a = if i < at {
                        i
                    } else {
                        i + 1
                    };
                    assert(entries@[i] == were[a]);
                }
            }
        }
        self.entries = entries;
        true
    }

    /// Every name something is kept under, in no order.
    pub fn names(&self) -> (list: Vec<&String>)
        ensures
            forall|name: Seq<char>| #[trigger]
                self@.contains_key(name) <==> exists|i: int|
                    0 <= i < list@.len() && #[trigger] list@[i]@ == name,
    {
        proof {
            use_type_invariant(self);
            lemma_kept(self.entries@);
        }
        let mut list: Vec<&String> = Vec::new();
        let mut i: usize = 0;
        while i < self.entries.len()
            invariant
                i <= self.entries@.len(),
                list@.len() == i,
                forall|j: int| 0 <= j < i ==> #[trigger] list@[j]@ == self.entries@[j].0@,
            decreases self.entries@.len() - i,
        {
            list.push(&self.entries[i].0);
            i = i + 1;
        }
        proof {
            assert forall|name: Seq<char>| #[trigger]
                self@.contains_key(name) <==> exists|i: int|
                0 <= i < list@.len() && #[trigger] list@[i]@ == name by {
                if self@.contains_key(name) {
                    let j = choose|j: int|
                        0 <= j < self.entries@.len() && #[trigger] self.entries@[j].0@ == name;
                    assert(list@[j]@ == name);
                }
                if exists|i: int| 0 <= i < list@.len() && #[trigger] list@[i]@ == name {
                    let j = choose|j: int| 0 <= j < list@.len() && #[trigger] list@[j]@ == name;
                    assert(self.entries@[j].0@ == name);
                }
            }
        }
        list
    }
}

} // verus!

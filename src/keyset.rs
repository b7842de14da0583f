//! A set of keys kept in ascending order without repetition.
use vstd::prelude::*;
use crate::text::chars_of;

verus! {

/// Lexicographic order on character sequences, character by character
/// by code point; a proper prefix comes first.
pub open spec fn lex_lt(a: Seq<char>, b: Seq<char>) -> bool
    decreases a.len(),
{
    if a.len() == 0 {
        b.len() > 0
    } else if b.len() == 0 {
        false
    } else if a[0] != b[0] {
        a[0] < b[0]
    } else {
        lex_lt(a.drop_first(), b.drop_first())
    }
}

/// Strictly ascending, so also free of repetition.
pub open spec fn sorted(s: Seq<Seq<char>>) -> bool {
    forall|i: int, j: int| 0 <= i < j < s.len() ==> lex_lt(#[trigger] s[i], #[trigger] s[j])
}

pub proof fn lemma_lex_irreflexive(a: Seq<char>)
    ensures
        !lex_lt(a, a),
    decreases a.len(),
{
    if a.len() > 0 {
        lemma_lex_irreflexive(a.drop_first());
    }
}

pub proof fn lemma_lex_transitive(a: Seq<char>, b: Seq<char>, c: Seq<char>)
    requires
        lex_lt(a, b),
        lex_lt(b, c),
    ensures
        lex_lt(a, c),
    decreases a.len(),
{
    if a.len() > 0 && b.len() > 0 && c.len() > 0 && a[0] == b[0] && b[0] == c[0] {
        lemma_lex_transitive(a.drop_first(), b.drop_first(), c.drop_first());
    }
}

pub proof fn lemma_lex_total(a: Seq<char>, b: Seq<char>)
    ensures
        a == b || lex_lt(a, b) || lex_lt(b, a),
    decreases a.len(),
{
    if a.len() > 0 && b.len() > 0 && a[0] == b[0] {
        lemma_lex_total(a.drop_first(), b.drop_first());
        if a.drop_first() == b.drop_first() {
            assert(a =~= seq![a[0]] + a.drop_first());
            assert(b =~= seq![b[0]] + b.drop_first());
        }
    } else if a.len() == 0 && b.len() == 0 {
        assert(a =~= b);
    }
}

pub proof fn lemma_lex_asymmetric(a: Seq<char>, b: Seq<char>)
    requires
        lex_lt(a, b),
    ensures
        !lex_lt(b, a),
{
    if lex_lt(b, a) {
        lemma_lex_transitive(a, b, a);
        lemma_lex_irreflexive(a);
    }
}

pub proof fn lemma_sorted_no_duplicates(s: Seq<Seq<char>>)
    requires
        sorted(s),
    ensures
        s.no_duplicates(),
{
    assert forall|i: int, j: int| 0 <= i < s.len() && 0 <= j < s.len() && i != j implies s[i]
        != s[j] by {
        if i < j {
            assert(lex_lt(s[i], s[j]));
        } else {
            assert(lex_lt(s[j], s[i]));
        }
        lemma_lex_irreflexive(s[i]);
    }
}

proof fn lemma_sorted_equal_from(s: Seq<Seq<char>>, t: Seq<Seq<char>>, i: int)
    requires
        sorted(s),
        sorted(t),
        s.to_set() == t.to_set(),
        s.len() == t.len(),
        0 <= i <= s.len(),
        forall|k: int| 0 <= k < i ==> s[k] == t[k],
    ensures
        s == t,
    decreases s.len() - i,
{
    if i == s.len() {
        assert(s =~= t);
    } else {
        if s[i] != t[i] {
            lemma_lex_total(s[i], t[i]);
            if lex_lt(s[i], t[i]) {
                assert(t.to_set().contains(s[i]));
                let j = choose|j: int| 0 <= j < t.len() && t[j] == s[i];
                if j < i {
                    assert(s[j] == s[i]);
                    lemma_sorted_no_duplicates(s);
                } else {
                    assert(lex_lt(t[i], t[j]));
                    lemma_lex_asymmetric(s[i], t[i]);
                }
            } else {
                assert(s.to_set().contains(t[i]));
                let j = choose|j: int| 0 <= j < s.len() && s[j] == t[i];
                if j < i {
                    assert(t[j] == t[i]);
                    lemma_sorted_no_duplicates(t);
                } else {
                    assert(lex_lt(s[i], s[j]));
                    lemma_lex_asymmetric(t[i], s[i]);
                }
            }
        }
        lemma_sorted_equal_from(s, t, i + 1);
    }
}

/// Two ascending sequences that hold the same keys are the same sequence.
pub proof fn lemma_sorted_unique(s: Seq<Seq<char>>, t: Seq<Seq<char>>)
    requires
        sorted(s),
        sorted(t),
        s.to_set() == t.to_set(),
    ensures
        s == t,
{
    lemma_sorted_no_duplicates(s);
    lemma_sorted_no_duplicates(t);
    s.unique_seq_to_set();
    t.unique_seq_to_set();
    lemma_sorted_equal_from(s, t, 0);
}

/// Whether `a` comes strictly before `b`.
pub fn lex_less(a: &str, b: &str) -> (r: bool)
    ensures
        r == lex_lt(a@, b@),
{
    let va = chars_of(a);
    let vb = chars_of(b);
    let mut i: usize = 0;
    assert(a@.skip(0) =~= a@);
    assert(b@.skip(0) =~= b@);
    while i < va.len() && i < vb.len() && va[i] == vb[i]
        invariant
            va@ == a@,
            vb@ == b@,
            i <= va@.len(),
            i <= vb@.len(),
            lex_lt(a@, b@) == lex_lt(a@.skip(i as int), b@.skip(i as int)),
        decreases va.len() - i,
    {
        assert(a@.skip(i as int).drop_first() =~= a@.skip(i + 1));
        assert(b@.skip(i as int).drop_first() =~= b@.skip(i + 1));
        i = i + 1;
    }
    if i == va.len() {
        i < vb.len()
    } else if i == vb.len() {
        false
    } else {
        va[i] < vb[i]
    }
}

/// Whether `a` and `b` hold the same characters.
pub fn same_text(a: &str, b: &str) -> (r: bool)
    ensures
        r == (a@ == b@),
{
    let r = !lex_less(a, b) && !lex_less(b, a);
    proof {
        lemma_lex_total(a@, b@);
        lemma_lex_irreflexive(a@);
    }
    r
}

/// Keys in ascending order, each once.
pub struct KeySet {
    keys: Vec<String>,
}

impl View for KeySet {
    type V = Seq<Seq<char>>;

    closed spec fn view(&self) -> Seq<Seq<char>> {
        self.keys@.map_values(|k: String| k@)
    }
}

impl KeySet {
    /// Ascending order, no key twice.
    pub open spec fn wf(&self) -> bool {
        sorted(self@)
    }

    /// An empty set.
    pub fn new() -> (r: KeySet)
        ensures
            r.wf(),
            r@ == Seq::<Seq<char>>::empty(),
    {
        let r = KeySet { keys: Vec::new() };
        assert(r@ =~= Seq::<Seq<char>>::empty());
        r
    }

    /// Number of keys.
    pub fn len(&self) -> (r: usize)
        ensures
            r == self@.len(),
    {
        self.keys.len()
    }

    pub fn is_empty(&self) -> (r: bool)
        ensures
            r == (self@.len() == 0),
    {
        self.keys.len() == 0
    }

    /// The keys, in ascending order.
    pub fn keys(&self) -> (r: &Vec<String>)
        ensures
            r@.map_values(|k: String| k@) == self@,
    {
        &self.keys
    }

    /// Whether `key` is in the set.
    pub fn contains(&self, key: &str) -> (r: bool)
        ensures
            r == self@.contains(key@),
    {
        let mut i: usize = 0;
        while i < self.keys.len()
            invariant
                i <= self.keys@.len(),
                forall|j: int| 0 <= j < i ==> self.keys@[j]@ != key@,
            decreases self.keys.len() - i,
        {
            if same_text(self.keys[i].as_str(), key) {
                proof {
                    assert(self@[i as int] == key@);
                }
                return true;
            }
            i = i + 1;
        }
        proof {
            if self@.contains(key@) {
                let j = choose|j: int| 0 <= j < self@.len() && self@[j] == key@;
                assert(self.keys@[j]@ == key@);
            }
        }
        false
    }

    /// Adds `key`; returns whether it was absent.
    pub fn insert(&mut self, key: String) -> (r: bool)
        requires
            old(self).wf(),
        ensures
            final(self).wf(),
            final(self)@.to_set() == old(self)@.to_set().insert(key@),
            r == !old(self)@.contains(key@),
    {
        let ghost s = self@;
        let mut p: usize = 0;
        while p < self.keys.len() && lex_less(self.keys[p].as_str(), key.as_str())
            invariant
                self@ == s,
                sorted(s),
                p <= s.len(),
                forall|j: int| 0 <= j < p ==> lex_lt(#[trigger] s[j], key@),
            decreases self.keys.len() - p,
        {
            p = p + 1;
        }
        if p < self.keys.len() && same_text(self.keys[p].as_str(), key.as_str()) {
            assert(s[p as int] == key@);
            assert(self@.to_set() =~= s.to_set().insert(key@));
            return false;
        }
        proof {
            if p < s.len() {
                lemma_lex_total(s[p as int], key@);
                assert forall|j: int| p <= j < s.len() implies lex_lt(key@, #[trigger] s[j]) by {
                    if j > p {
                        lemma_lex_transitive(key@, s[p as int], s[j]);
                    }
                }
            }
            assert forall|j: int| 0 <= j < s.len() implies s[j] != key@ by {
                if j < p {
                    lemma_lex_irreflexive(key@);
                } else {
                    lemma_lex_irreflexive(key@);
                }
            }
        }
        let ghost kv = key@;
        self.keys.insert(p, key);
        let ghost t = s.insert(p as int, kv);
        proof {
            s.insert_ensures(p as int, kv);
            assert(self@ =~= t);
            assert forall|i: int, j: int| 0 <= i < j < t.len() implies lex_lt(
                #[trigger] t[i],
                #[trigger] t[j],
            ) by {
                if j < p {
                } else if j == p {
                } else if i < p {
                    assert(t[j] == s[j - 1]);
                    lemma_lex_transitive(s[i], kv, s[j - 1]);
                } else if i == p {
                    assert(t[j] == s[j - 1]);
                } else {
                    assert(t[i] == s[i - 1]);
                    assert(t[j] == s[j - 1]);
                }
            }
            assert forall|x: Seq<char>| #[trigger] t.contains(x) == s.to_set().insert(
                kv,
            ).contains(x) by {
                if t.contains(x) {
                    let i = choose|i: int| 0 <= i < t.len() && t[i] == x;
                    if i < p {
                        assert(s[i] == x);
                    } else if i > p {
                        assert(s[i - 1] == x);
                    }
                }
                if s.contains(x) {
                    let i = choose|i: int| 0 <= i < s.len() && s[i] == x;
                    if i < p {
                        assert(t[i] == x);
                    } else {
                        assert(t[i + 1] == x);
                    }
                }
                if x == kv {
                    assert(t[p as int] == x);
                }
            }
            assert(self@.to_set() =~= s.to_set().insert(kv));
        }
        true
    }

    /// Adds every key of `keys`.
    pub fn insert_all(&mut self, keys: Vec<String>)
        requires
            old(self).wf(),
        ensures
            final(self).wf(),
            final(self)@.to_set() == old(self)@.to_set() + keys@.map_values(|k: String| k@).to_set(),
    {
        let ghost s0 = self@.to_set();
        let ghost kv = keys@.map_values(|k: String| k@);
        let mut i: usize = 0;
        while i < keys.len()
            invariant
                self.wf(),
                i <= keys@.len(),
                kv == keys@.map_values(|k: String| k@),
                self@.to_set() == s0 + kv.take(i as int).to_set(),
            decreases keys.len() - i,
        {
            let k = keys[i].clone();
            self.insert(k);
            proof {
                broadcast use vstd::seq_lib::lemma_seq_contains_after_push;

                assert(kv.take(i + 1) =~= kv.take(i as int).push(kv[i as int]));
                assert(kv.take(i + 1).to_set() =~= kv.take(i as int).to_set().insert(kv[i as int]));
                assert(self@.to_set() =~= s0 + kv.take(i + 1).to_set());
            }
            i = i + 1;
        }
        assert(kv.take(i as int) =~= kv);
    }

    /// Adds every key of `other`.
    pub fn extend(&mut self, other: &KeySet)
        requires
            old(self).wf(),
        ensures
            final(self).wf(),
            final(self)@.to_set() == old(self)@.to_set() + other@.to_set(),
    {
        let ghost s0 = self@.to_set();
        let mut i: usize = 0;
        while i < other.keys.len()
            invariant
                self.wf(),
                i <= other@.len(),
                self@.to_set() == s0 + other@.take(i as int).to_set(),
            decreases other.keys.len() - i,
        {
            let k = other.keys[i].clone();
            self.insert(k);
            proof {
                broadcast use vstd::seq_lib::lemma_seq_contains_after_push;

                assert(other@[i as int] == other.keys@[i as int]@);
                assert(other@.take(i + 1) =~= other@.take(i as int).push(other@[i as int]));
                assert(other@.take(i + 1).to_set() =~= other@.take(i as int).to_set().insert(
                    other@[i as int],
                ));
                assert(self@.to_set() =~= s0 + other@.take(i + 1).to_set());
            }
            i = i + 1;
        }
        assert(other@.take(i as int) =~= other@);
    }
}

} // verus!
